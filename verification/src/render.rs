//! Rendering: putting arguments in the place of placeholders.
//!
//! This is what a generated leaf method does when it is called. A
//! placeholder whose name is a formal parameter is replaced by the
//! argument given for it; one whose name is none, as can occur in the
//! template of a language other than the reference, stays as it is.

use vstd::prelude::*;
use vstd::string::StringExecFns;
use crate::order::{find_position, lemma_position_found, position, texts};
use crate::placeholder::{lemma_name_end_bounds, scan_token, token_end};
use crate::text::{slice_to_string, to_chars};

verus! {

/// What stands for the placeholder `t[i..e]` in the result.
pub open spec fn piece(
    t: Seq<char>,
    i: int,
    e: int,
    params: Seq<Seq<char>>,
    args: Seq<Seq<char>>,
) -> Seq<char> {
    match position(params, t.subrange(i + 1, e - 1)) {
        Some(p) => if p < args.len() {
            args[p]
        } else {
            t.subrange(i, e)
        },
        None => t.subrange(i, e),
    }
}

/// The rendering of `t[i..]`.
pub open spec fn rendered_from(
    t: Seq<char>,
    i: int,
    params: Seq<Seq<char>>,
    args: Seq<Seq<char>>,
) -> Seq<char>
    decreases t.len() - i,
{
    if i < 0 || i >= t.len() {
        Seq::empty()
    } else {
        match token_end(t, i) {
            Some(e) => if e > i {
                piece(t, i, e, params, args) + rendered_from(t, e, params, args)
            } else {
                Seq::empty()
            },
            None => seq![t[i]] + rendered_from(t, i + 1, params, args),
        }
    }
}

/// The template `t` with every placeholder that names a formal parameter
/// replaced by the argument at the index of that parameter.
pub open spec fn rendered(t: Seq<char>, params: Seq<Seq<char>>, args: Seq<Seq<char>>) -> Seq<
    char,
> {
    rendered_from(t, 0, params, args)
}

proof fn lemma_rendered_from_without_params(t: Seq<char>, i: int, args: Seq<Seq<char>>)
    requires
        0 <= i <= t.len(),
    ensures
        rendered_from(t, i, Seq::empty(), args) == t.subrange(i, t.len() as int),
    decreases t.len() - i,
{
    let none = Seq::<Seq<char>>::empty();
    if i < t.len() {
        match token_end(t, i) {
            Some(e) => {
                lemma_name_end_bounds(t, i + 1);
                lemma_rendered_from_without_params(t, e, args);
                assert(position(none, t.subrange(i + 1, e - 1)) is None);
                assert(t.subrange(i, e) + t.subrange(e, t.len() as int) =~= t.subrange(
                    i,
                    t.len() as int,
                ));
            },
            None => {
                lemma_rendered_from_without_params(t, i + 1, args);
                assert(seq![t[i]] + t.subrange(i + 1, t.len() as int) =~= t.subrange(
                    i,
                    t.len() as int,
                ));
            },
        }
    } else {
        assert(t.subrange(i, t.len() as int) =~= Seq::<char>::empty());
    }
}

/// Without formal parameters, rendering gives the template unchanged.
pub proof fn lemma_rendered_without_params(t: Seq<char>, args: Seq<Seq<char>>)
    ensures
        rendered(t, Seq::empty(), args) == t,
{
    lemma_rendered_from_without_params(t, 0, args);
    assert(t.subrange(0, t.len() as int) =~= t);
}

/// Renders `template`: puts `args[p]` in the place of every placeholder
/// that names `params[p]`.
pub fn render(template: &str, params: &Vec<String>, args: &Vec<String>) -> (r: String)
    ensures
        r@ == rendered(template@, texts(params@), texts(args@)),
{
    let v = to_chars(template);
    let mut out = String::new();
    let mut i: usize = 0;
    assert(out@ + rendered_from(v@, 0, texts(params@), texts(args@)) =~= rendered_from(
        v@,
        0,
        texts(params@),
        texts(args@),
    ));
    while i < v.len()
        invariant
            i <= v.len(),
            v@ == template@,
            out@ + rendered_from(v@, i as int, texts(params@), texts(args@)) == rendered(
                v@,
                texts(params@),
                texts(args@),
            ),
        decreases v.len() - i,
    {
        let ghost before = out@;
        let ghost tail = rendered_from(v@, i as int, texts(params@), texts(args@));
        match scan_token(&v, i) {
            Some(e) => {
                let name = slice_to_string(&v, i + 1, e - 1);
                let ghost part = piece(v@, i as int, e as int, texts(params@), texts(args@));
                match find_position(params, name.as_str()) {
                    Some(p) => {
                        if p < args.len() {
                            out.append(args[p].as_str());
                        } else {
                            let literal = slice_to_string(&v, i, e);
                            out.append(literal.as_str());
                        }
                    },
                    None => {
                        let literal = slice_to_string(&v, i, e);
                        out.append(literal.as_str());
                    },
                }
                assert(out@ == before + part);
                assert((before + part) + rendered_from(
                    v@,
                    e as int,
                    texts(params@),
                    texts(args@),
                ) =~= before + tail);
                i = e;
            },
            None => {
                out.push(v[i]);
                assert(before.push(v@[i as int]) + rendered_from(
                    v@,
                    i + 1,
                    texts(params@),
                    texts(args@),
                ) =~= before + tail);
                i += 1;
            },
        }
    }
    assert(out@ + Seq::<char>::empty() =~= out@);
    out
}

} // verus!
