//! Placeholders: the named slots `{name}` of a template string.
//!
//! A placeholder is an opening brace, a non-empty run of identifier
//! characters, and a closing brace. Braces that do not form one are ordinary
//! text.

use vstd::prelude::*;
use crate::order::{find_position, lemma_position_found, position, texts};
use crate::text::{ident_char, is_ident_char, slice_to_string, to_chars};

verus! {

/// The end of the run of identifier characters that starts at `i`.
pub open spec fn name_end(s: Seq<char>, i: int) -> int
    decreases s.len() - i,
{
    if 0 <= i < s.len() && is_ident_char(s[i]) {
        name_end(s, i + 1)
    } else {
        i
    }
}

/// A non-empty run of identifier characters: what stands between the
/// braces of a placeholder.
pub open spec fn is_name(s: Seq<char>) -> bool {
    &&& s.len() > 0
    &&& forall|i: int| 0 <= i < s.len() ==> is_ident_char(#[trigger] s[i])
}

/// If a placeholder starts at `i`, the index just past its closing brace.
pub open spec fn token_end(s: Seq<char>, i: int) -> Option<int> {
    let e = name_end(s, i + 1);
    if 0 <= i < s.len() && s[i] == '{' && i + 1 < e && e < s.len() && s[e] == '}' {
        Some(e + 1)
    } else {
        None
    }
}

/// The names of the placeholders of `s` that start at `i` or later, from
/// left to right, each as often as it occurs.
pub open spec fn tokens_from(s: Seq<char>, i: int) -> Seq<Seq<char>>
    decreases s.len() - i,
{
    if i < 0 || i >= s.len() {
        Seq::empty()
    } else {
        match token_end(s, i) {
            Some(e) => if e > i {
                seq![s.subrange(i + 1, e - 1)] + tokens_from(s, e)
            } else {
                Seq::empty()
            },
            None => tokens_from(s, i + 1),
        }
    }
}

/// `names` without repeats: each name where it first occurs.
pub open spec fn distinct(names: Seq<Seq<char>>) -> Seq<Seq<char>>
    decreases names.len(),
{
    if names.len() == 0 {
        Seq::empty()
    } else {
        let d = distinct(names.drop_last());
        if d.contains(names.last()) {
            d
        } else {
            d.push(names.last())
        }
    }
}

/// The formal parameters that a template gives rise to: the names of its
/// placeholders in the order of their first occurrence.
pub open spec fn placeholders(s: Seq<char>) -> Seq<Seq<char>> {
    distinct(tokens_from(s, 0))
}

/// The run of identifier characters that starts at `i` ends at or after
/// `i`, and within the text.
pub proof fn lemma_name_end_bounds(s: Seq<char>, i: int)
    requires
        0 <= i <= s.len(),
    ensures
        i <= name_end(s, i) <= s.len(),
    decreases s.len() - i,
{
    if i < s.len() && is_ident_char(s[i]) {
        lemma_name_end_bounds(s, i + 1);
    }
}

proof fn lemma_name_end_run(s: Seq<char>, i: int)
    requires
        0 <= i <= s.len(),
    ensures
        forall|j: int| i <= j < name_end(s, i) ==> is_ident_char(#[trigger] s[j]),
    decreases s.len() - i,
{
    if i < s.len() && is_ident_char(s[i]) {
        lemma_name_end_run(s, i + 1);
    }
}

proof fn lemma_tokens_are_names(s: Seq<char>, i: int)
    requires
        0 <= i,
    ensures
        forall|k: int|
            0 <= k < tokens_from(s, i).len() ==> is_name(#[trigger] tokens_from(s, i)[k]),
    decreases s.len() - i,
{
    if i < s.len() {
        match token_end(s, i) {
            Some(e) => {
                lemma_name_end_bounds(s, i + 1);
                lemma_name_end_run(s, i + 1);
                lemma_tokens_are_names(s, e);
                let name = s.subrange(i + 1, e - 1);
                assert(is_name(name)) by {
                    assert forall|j: int| 0 <= j < name.len() implies is_ident_char(
                        #[trigger] name[j],
                    ) by {
                        assert(name[j] == s[i + 1 + j]);
                    }
                }
                let all = tokens_from(s, i);
                let rest = tokens_from(s, e);
                assert(all =~= seq![name] + rest);
                assert forall|k: int| 0 <= k < all.len() implies is_name(#[trigger] all[k]) by {
                    if k > 0 {
                        assert(all[k] == rest[k - 1]);
                    }
                }
            },
            None => {
                lemma_tokens_are_names(s, i + 1);
                assert(tokens_from(s, i) == tokens_from(s, i + 1));
            },
        }
    } else {
        assert(tokens_from(s, i).len() == 0);
    }
}

proof fn lemma_distinct_keeps(names: Seq<Seq<char>>)
    ensures
        forall|k: int|
            0 <= k < distinct(names).len() ==> names.contains(#[trigger] distinct(names)[k]),
        forall|k: int| 0 <= k < names.len() ==> distinct(names).contains(#[trigger] names[k]),
        forall|a: int, b: int|
            0 <= a < b < distinct(names).len() ==> distinct(names)[a] != distinct(names)[b],
    decreases names.len(),
{
    if names.len() > 0 {
        let front = names.drop_last();
        let d = distinct(front);
        lemma_distinct_keeps(front);
        assert forall|k: int| 0 <= k < distinct(names).len() implies names.contains(
            #[trigger] distinct(names)[k],
        ) by {
            if k < d.len() {
                let j = choose|j: int| 0 <= j < front.len() && front[j] == d[k];
                assert(names[j] == d[k]);
            } else {
                assert(names[names.len() - 1] == distinct(names)[k]);
            }
        }
        assert forall|k: int| 0 <= k < names.len() implies distinct(names).contains(
            #[trigger] names[k],
        ) by {
            if k < front.len() {
                assert(front[k] == names[k]);
                let j = choose|j: int| 0 <= j < d.len() && d[j] == front[k];
                assert(distinct(names)[j] == names[k]);
            } else if d.contains(names.last()) {
            } else {
                assert(distinct(names)[d.len() as int] == names[k]);
            }
        }
    }
}

/// The formal parameters of a template are pairwise different, each is a
/// non-empty run of identifier characters, and each is the name of a
/// placeholder of the template.
pub proof fn lemma_placeholders_are_distinct_names(s: Seq<char>)
    ensures
        forall|a: int, b: int|
            0 <= a < b < placeholders(s).len() ==> placeholders(s)[a] != placeholders(s)[b],
        forall|k: int| 0 <= k < placeholders(s).len() ==> is_name(#[trigger] placeholders(s)[k]),
        forall|k: int|
            0 <= k < placeholders(s).len() ==> tokens_from(s, 0).contains(
                #[trigger] placeholders(s)[k],
            ),
{
    lemma_distinct_keeps(tokens_from(s, 0));
    lemma_tokens_are_names(s, 0);
    assert forall|k: int| 0 <= k < placeholders(s).len() implies is_name(
        #[trigger] placeholders(s)[k],
    ) by {
        let name = placeholders(s)[k];
        let j = choose|j: int| 0 <= j < tokens_from(s, 0).len() && tokens_from(s, 0)[j] == name;
        assert(is_name(tokens_from(s, 0)[j]));
    }
}

/// The end of the run of identifier characters that starts at `i`.
pub fn scan_name(v: &Vec<char>, i: usize) -> (e: usize)
    requires
        i <= v.len(),
    ensures
        e == name_end(v@, i as int),
        i <= e <= v.len(),
{
    let mut e: usize = i;
    while e < v.len() && ident_char(v[e])
        invariant
            i <= e <= v.len(),
            name_end(v@, e as int) == name_end(v@, i as int),
        decreases v.len() - e,
    {
        e += 1;
    }
    e
}

/// If a placeholder starts at `i`, the index just past its closing brace.
pub fn scan_token(v: &Vec<char>, i: usize) -> (r: Option<usize>)
    requires
        i < v.len(),
    ensures
        match r {
            Some(e) => token_end(v@, i as int) == Some(e as int) && i + 2 < e <= v.len(),
            None => token_end(v@, i as int) is None,
        },
{
    if v[i] != '{' {
        return None;
    }
    let e = scan_name(v, i + 1);
    if i + 1 < e && e < v.len() && v[e] == '}' {
        Some(e + 1)
    } else {
        None
    }
}

/// The formal parameters that `template` gives rise to. A template without
/// placeholders gives none; nothing makes this fail.
pub fn extract(template: &str) -> (names: Vec<String>)
    ensures
        texts(names@) == placeholders(template@),
{
    let v = to_chars(template);
    let mut names: Vec<String> = Vec::new();
    let ghost mut seen: Seq<Seq<char>> = Seq::empty();
    let mut i: usize = 0;
    assert(seen + tokens_from(v@, 0) =~= tokens_from(v@, 0));
    assert(texts(names@) =~= distinct(seen));
    while i < v.len()
        invariant
            i <= v.len(),
            v@ == template@,
            seen + tokens_from(v@, i as int) == tokens_from(v@, 0),
            texts(names@) == distinct(seen),
        decreases v.len() - i,
    {
        match scan_token(&v, i) {
            Some(e) => {
                let name = slice_to_string(&v, i + 1, e - 1);
                let found = find_position(&names, name.as_str());
                proof {
                    lemma_position_found(texts(names@), name@);
                    let next = seen.push(name@);
                    assert(next.drop_last() =~= seen);
                    assert(next + tokens_from(v@, e as int) =~= seen + tokens_from(v@, i as int));
                    seen = next;
                }
                if found.is_none() {
                    let ghost before = texts(names@);
                    names.push(name);
                    assert(texts(names@) =~= before.push(name@));
                }
                i = e;
            },
            None => {
                i += 1;
            },
        }
    }
    assert(seen =~= seen + tokens_from(v@, i as int));
    names
}

} // verus!
