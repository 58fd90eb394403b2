//! The order in which keys and language identifiers are kept:
//! lexicographic, character by character.

use vstd::prelude::*;
use crate::text::to_chars;

verus! {

/// `a` comes strictly before `b`, looking only at positions `i` and later.
pub open spec fn before_from(a: Seq<char>, b: Seq<char>, i: int) -> bool
    decreases b.len() - i,
{
    if i < 0 || i >= b.len() {
        false
    } else if i >= a.len() {
        true
    } else if a[i] != b[i] {
        a[i] < b[i]
    } else {
        before_from(a, b, i + 1)
    }
}

/// `a` comes strictly before `b` in lexicographic order.
pub open spec fn before(a: Seq<char>, b: Seq<char>) -> bool {
    before_from(a, b, 0)
}

/// Every text of `keys` comes strictly before the texts that follow it.
pub open spec fn ascending(keys: Seq<Seq<char>>) -> bool {
    forall|i: int, j: int|
        0 <= i < j < keys.len() ==> before(#[trigger] keys[i], #[trigger] keys[j])
}

/// The number of texts at the front of `keys[i..]` that come before `key`,
/// added to `i`: where `key` belongs in ascending `keys`.
pub open spec fn slot_from(keys: Seq<Seq<char>>, key: Seq<char>, i: int) -> int
    decreases keys.len() - i,
{
    if 0 <= i < keys.len() && before(keys[i], key) {
        slot_from(keys, key, i + 1)
    } else {
        i
    }
}

/// Where `key` belongs in ascending `keys`: the index of the first text
/// that does not come before it.
pub open spec fn slot(keys: Seq<Seq<char>>, key: Seq<char>) -> int {
    slot_from(keys, key, 0)
}

/// The texts of a vector of strings.
pub open spec fn texts(v: Seq<String>) -> Seq<Seq<char>> {
    Seq::new(v.len(), |i: int| v[i]@)
}

/// The first index at or after `i` at which `keys` holds `key`.
pub open spec fn position_from(keys: Seq<Seq<char>>, key: Seq<char>, i: int) -> Option<int>
    decreases keys.len() - i,
{
    if i < 0 || i >= keys.len() {
        None
    } else if keys[i] == key {
        Some(i)
    } else {
        position_from(keys, key, i + 1)
    }
}

/// The first index at which `keys` holds `key`.
pub open spec fn position(keys: Seq<Seq<char>>, key: Seq<char>) -> Option<int> {
    position_from(keys, key, 0)
}

proof fn lemma_before_from_transitive(a: Seq<char>, b: Seq<char>, c: Seq<char>, i: int)
    requires
        before_from(a, b, i),
        before_from(b, c, i),
    ensures
        before_from(a, c, i),
    decreases c.len() - i,
{
    if i < a.len() && i < b.len() && i < c.len() && a[i] == b[i] && b[i] == c[i] {
        lemma_before_from_transitive(a, b, c, i + 1);
    }
}

/// The order is transitive.
pub proof fn lemma_before_transitive(a: Seq<char>, b: Seq<char>, c: Seq<char>)
    requires
        before(a, b),
        before(b, c),
    ensures
        before(a, c),
{
    lemma_before_from_transitive(a, b, c, 0);
}

proof fn lemma_before_from_total(a: Seq<char>, b: Seq<char>, i: int)
    requires
        0 <= i <= a.len(),
        i <= b.len(),
        !before_from(a, b, i),
        !before_from(b, a, i),
    ensures
        a.len() == b.len(),
        forall|j: int| i <= j < a.len() ==> a[j] == b[j],
    decreases a.len() - i,
{
    if i < a.len() && i < b.len() {
        lemma_before_from_total(a, b, i + 1);
    }
}

/// Of two different texts one comes before the other.
pub proof fn lemma_before_total(a: Seq<char>, b: Seq<char>)
    requires
        !before(a, b),
        !before(b, a),
    ensures
        a == b,
{
    lemma_before_from_total(a, b, 0);
    assert(a =~= b);
}

proof fn lemma_before_from_irreflexive(a: Seq<char>, i: int)
    requires
        0 <= i,
    ensures
        !before_from(a, a, i),
    decreases a.len() - i,
{
    if i < a.len() {
        lemma_before_from_irreflexive(a, i + 1);
    }
}

/// No text comes before itself.
pub proof fn lemma_before_irreflexive(a: Seq<char>)
    ensures
        !before(a, a),
{
    lemma_before_from_irreflexive(a, 0);
}

proof fn lemma_position_from_found(keys: Seq<Seq<char>>, key: Seq<char>, i: int)
    requires
        0 <= i,
    ensures
        match position_from(keys, key, i) {
            Some(p) => i <= p < keys.len() && keys[p] == key && forall|j: int|
                i <= j < p ==> keys[j] != key,
            None => forall|j: int| i <= j < keys.len() ==> keys[j] != key,
        },
    decreases keys.len() - i,
{
    if i < keys.len() && keys[i] != key {
        lemma_position_from_found(keys, key, i + 1);
    }
}

/// The position of `key` is the first index that holds it, and there is one
/// exactly when `keys` contains `key`.
pub proof fn lemma_position_found(keys: Seq<Seq<char>>, key: Seq<char>)
    ensures
        match position(keys, key) {
            Some(p) => 0 <= p < keys.len() && keys[p] == key && forall|j: int|
                0 <= j < p ==> keys[j] != key,
            None => forall|j: int| 0 <= j < keys.len() ==> keys[j] != key,
        },
        position(keys, key) is Some <==> keys.contains(key),
{
    lemma_position_from_found(keys, key, 0);
}

/// Every text from `i` up to the slot of `key` comes before `key`, and the
/// text at the slot, if there is one, does not.
pub proof fn lemma_slot_splits(keys: Seq<Seq<char>>, key: Seq<char>, i: int)
    requires
        0 <= i <= keys.len(),
    ensures
        i <= slot_from(keys, key, i) <= keys.len(),
        forall|j: int| i <= j < slot_from(keys, key, i) ==> before(#[trigger] keys[j], key),
        slot_from(keys, key, i) < keys.len() ==> !before(keys[slot_from(keys, key, i)], key),
    decreases keys.len() - i,
{
    if i < keys.len() && before(keys[i], key) {
        lemma_slot_splits(keys, key, i + 1);
    }
}

/// Two ascending sequences that hold the same texts are the same sequence.
pub proof fn lemma_ascending_unique(a: Seq<Seq<char>>, b: Seq<Seq<char>>)
    requires
        ascending(a),
        ascending(b),
        forall|x: Seq<char>| a.contains(x) <==> b.contains(x),
    ensures
        a == b,
    decreases a.len(),
{
    if a.len() == 0 {
        if b.len() > 0 {
            assert(b.contains(b[0]));
        }
        assert(a =~= b);
    } else {
        assert(a.contains(a[0]));
        let j = choose|j: int| 0 <= j < b.len() && b[j] == a[0];
        assert(b.contains(b[0]));
        let i = choose|i: int| 0 <= i < a.len() && a[i] == b[0];
        if j > 0 {
            if i > 0 {
                lemma_before_transitive(b[0], a[0], a[i]);
            }
            lemma_before_irreflexive(b[0]);
        }
        let ta = a.drop_first();
        let tb = b.drop_first();
        assert forall|x: Seq<char>| ta.contains(x) <==> tb.contains(x) by {
            if ta.contains(x) {
                let k = choose|k: int| 0 <= k < ta.len() && ta[k] == x;
                assert(a[k + 1] == x);
                assert(a.contains(x));
                let m = choose|m: int| 0 <= m < b.len() && b[m] == x;
                if m == 0 {
                    lemma_before_irreflexive(x);
                }
                assert(tb[m - 1] == x);
            }
            if tb.contains(x) {
                let k = choose|k: int| 0 <= k < tb.len() && tb[k] == x;
                assert(b[k + 1] == x);
                assert(b.contains(x));
                let m = choose|m: int| 0 <= m < a.len() && a[m] == x;
                if m == 0 {
                    lemma_before_irreflexive(x);
                }
                assert(ta[m - 1] == x);
            }
        }
        assert(ascending(ta)) by {
            assert forall|p: int, q: int| 0 <= p < q < ta.len() implies before(
                #[trigger] ta[p],
                #[trigger] ta[q],
            ) by {
                assert(before(a[p + 1], a[q + 1]));
            }
        }
        assert(ascending(tb)) by {
            assert forall|p: int, q: int| 0 <= p < q < tb.len() implies before(
                #[trigger] tb[p],
                #[trigger] tb[q],
            ) by {
                assert(before(b[p + 1], b[q + 1]));
            }
        }
        lemma_ascending_unique(ta, tb);
        assert(a =~= seq![a[0]] + ta);
        assert(b =~= seq![b[0]] + tb);
    }
}

/// Putting a text into its slot keeps an ascending sequence ascending,
/// unless the slot already holds that text.
pub proof fn lemma_insert_keeps_ascending(keys: Seq<Seq<char>>, key: Seq<char>)
    requires
        ascending(keys),
        slot(keys, key) < keys.len() ==> keys[slot(keys, key)] != key,
    ensures
        0 <= slot(keys, key) <= keys.len(),
        ascending(keys.insert(slot(keys, key), key)),
{
    let p = slot(keys, key);
    lemma_slot_splits(keys, key, 0);
    if p < keys.len() && !before(key, keys[p]) {
        lemma_before_total(keys[p], key);
    }
    let after = keys.insert(p, key);
    assert forall|i: int, j: int| 0 <= i < j < after.len() implies before(
        #[trigger] after[i],
        #[trigger] after[j],
    ) by {
        if j == p {
            assert(after[i] == keys[i]);
        } else if i == p {
            assert(after[j] == keys[j - 1]);
            if j - 1 > p {
                lemma_before_transitive(key, keys[p], keys[j - 1]);
            }
        } else {
            let oi = if i < p { i } else { i - 1 };
            let oj = if j < p { j } else { j - 1 };
            assert(after[i] == keys[oi] && after[j] == keys[oj]);
        }
    }
}

/// Whether `a` comes strictly before `b`.
pub fn comes_before(a: &str, b: &str) -> (r: bool)
    ensures
        r == before(a@, b@),
{
    let x = to_chars(a);
    let y = to_chars(b);
    let mut i: usize = 0;
    while i < x.len() && i < y.len()
        invariant
            i <= x.len(),
            i <= y.len(),
            x@ == a@,
            y@ == b@,
            before(a@, b@) == before_from(a@, b@, i as int),
        decreases y.len() - i,
    {
        if x[i] != y[i] {
            return x[i] < y[i];
        }
        i += 1;
    }
    i < y.len()
}

/// Where `key` belongs among `keys`.
pub fn find_slot(keys: &Vec<String>, key: &str) -> (p: usize)
    ensures
        p == slot(texts(keys@), key@),
        p <= keys.len(),
{
    let mut p: usize = 0;
    while p < keys.len()
        invariant
            p <= keys.len(),
            slot(texts(keys@), key@) == slot_from(texts(keys@), key@, p as int),
        decreases keys.len() - p,
    {
        if !comes_before(keys[p].as_str(), key) {
            return p;
        }
        p += 1;
    }
    p
}

/// The first index at which `keys` holds `key`, if any.
pub fn find_position(keys: &Vec<String>, key: &str) -> (r: Option<usize>)
    ensures
        match r {
            Some(i) => position(texts(keys@), key@) == Some(i as int) && i < keys.len(),
            None => position(texts(keys@), key@) is None,
        },
{
    let mut i: usize = 0;
    while i < keys.len()
        invariant
            i <= keys.len(),
            position(texts(keys@), key@) == position_from(texts(keys@), key@, i as int),
        decreases keys.len() - i,
    {
        if crate::text::same_text(keys[i].as_str(), key) {
            return Some(i);
        }
        i += 1;
    }
    None
}

} // verus!
