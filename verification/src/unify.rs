//! The schema unifier: checks every document against the reference.
//!
//! The reference document defines what the generated accessors offer. Every
//! other document must hold, at every path of the reference, a value of the
//! same kind. Keys that only another document holds are not looked at.

use vstd::prelude::*;
use crate::document::{keys_of, kind_of, lemma_lookup_own_entry, lookup, value_at, well_ordered};
use crate::document::{Document, TableView, Value, ValueView};
use crate::order::{ascending, lemma_ascending_unique, lemma_position_found, position, texts};
use crate::store::{DocumentStore, StoreView};

verus! {

/// The two ways in which a document can diverge from the reference.
#[derive(Clone, Copy, Debug, PartialEq, Eq, Structural)]
pub enum Fault {
    /// The document lacks a key that the reference has.
    MissingKey,
    /// The document holds a value of another kind than the reference.
    KindMismatch,
}

/// Where a document diverges from the reference, and how.
#[derive(Debug, PartialEq, Eq)]
pub struct Divergence {
    /// The keys that lead to the place, outermost first.
    pub path: Vec<String>,
    pub fault: Fault,
}

/// The mathematical model of a [`Divergence`].
pub struct DivergenceView {
    pub path: Seq<Seq<char>>,
    pub fault: Fault,
}

impl Divergence {
    /// The model of the divergence.
    pub open spec fn view(&self) -> DivergenceView {
        DivergenceView { path: texts(self.path@), fault: self.fault }
    }
}

/// A language that diverges from the reference.
#[derive(Debug, PartialEq, Eq)]
pub struct UnifyError {
    /// The tag of the language.
    pub lang: String,
    /// The keys that lead to the place, outermost first.
    pub path: Vec<String>,
    pub fault: Fault,
}

/// The mathematical model of a [`UnifyError`].
pub struct UnifyErrorView {
    pub lang: Seq<char>,
    pub path: Seq<Seq<char>>,
    pub fault: Fault,
}

impl UnifyError {
    /// The model of the error.
    pub open spec fn view(&self) -> UnifyErrorView {
        UnifyErrorView { lang: self.lang@, path: texts(self.path@), fault: self.fault }
    }
}

/// Whether `other` holds, at `path`, a value of the kind that the reference
/// holds there. A path that leads nowhere in the reference asks nothing.
pub open spec fn agrees_at(reference: TableView, other: TableView, path: Seq<Seq<char>>) -> bool {
    match value_at(reference, path) {
        Some(x) => match value_at(other, path) {
            Some(w) => kind_of(w) == kind_of(x),
            None => false,
        },
        None => true,
    }
}

/// Whether `other` diverges from the reference at `path` in the way that
/// `fault` says: the reference holds a value there, and `other` holds
/// none, or one of another kind.
pub open spec fn diverges_at(
    reference: TableView,
    other: TableView,
    path: Seq<Seq<char>>,
    fault: Fault,
) -> bool {
    match value_at(reference, path) {
        Some(x) => match fault {
            Fault::MissingKey => value_at(other, path) is None,
            Fault::KindMismatch => match value_at(other, path) {
                Some(w) => kind_of(w) != kind_of(x),
                None => false,
            },
        },
        None => false,
    }
}

/// `other` holds, at every path of `reference`, a value of the same kind
/// as the reference does. What else `other` holds does not matter.
pub open spec fn conforms(reference: TableView, other: TableView) -> bool {
    forall|path: Seq<Seq<char>>| #[trigger] agrees_at(reference, other, path)
}

/// `v` with `key` put in front of its path.
pub open spec fn under(key: Seq<char>, v: DivergenceView) -> DivergenceView {
    DivergenceView { path: seq![key] + v.path, fault: v.fault }
}

/// The first place at which `other` diverges from `reference`, going
/// through the entries of the reference from index `k` on, and into each
/// table before going on to the next entry.
pub open spec fn first_divergence(reference: TableView, other: TableView, k: int) -> Option<
    DivergenceView,
>
    decreases reference, reference.len() - k,
{
    if k < 0 || k >= reference.len() {
        None
    } else {
        let key = reference[k].0;
        match lookup(other, key) {
            None => Some(DivergenceView { path: seq![key], fault: Fault::MissingKey }),
            Some(w) => if kind_of(w) != kind_of(reference[k].1) {
                Some(DivergenceView { path: seq![key], fault: Fault::KindMismatch })
            } else {
                let inner = match (reference[k].1, w) {
                    (ValueView::Table(r), ValueView::Table(o)) => first_divergence(r, o, 0),
                    _ => None,
                };
                match inner {
                    Some(v) => Some(under(key, v)),
                    None => first_divergence(reference, other, k + 1),
                }
            },
        }
    }
}

/// The first place at which `other` diverges from `reference`.
pub open spec fn divergence(reference: TableView, other: TableView) -> Option<DivergenceView> {
    first_divergence(reference, other, 0)
}

/// Checks `other` against `reference`: whether it conforms, and if not,
/// the first place at which it diverges.
pub fn check_tables(reference: &Document, other: &Document) -> (r: Option<Divergence>)
    ensures
        match r {
            Some(d) => divergence(reference@, other@) == Some(d@) && diverges_at(
                reference@,
                other@,
                d@.path,
                d@.fault,
            ),
            None => divergence(reference@, other@) is None,
        },
        r is None <==> conforms(reference@, other@),
    decreases reference@,
{
    proof {
        use_type_invariant(reference);
        reference.lemma_well_ordered();
        lemma_divergence_none_iff_conforms(reference@, other@);
        if divergence(reference@, other@) is Some {
            lemma_divergence_real(reference@, other@, 0);
        }
    }
    let n = reference.len();
    let mut k: usize = 0;
    while k < n
        invariant
            k <= n,
            n == reference@.len(),
            divergence(reference@, other@) == first_divergence(reference@, other@, k as int),
            divergence(reference@, other@) is None <==> conforms(reference@, other@),
            divergence(reference@, other@) matches Some(d) ==> diverges_at(
                reference@,
                other@,
                d.path,
                d.fault,
            ),
        decreases n - k,
    {
        let key = reference.key(k);
        let expected = reference.value(k);
        match other.get(key.as_str()) {
            None => {
                let mut path: Vec<String> = Vec::new();
                path.push(key.clone());
                assert(texts(path@) =~= seq![key@]);
                return Some(Divergence { path, fault: Fault::MissingKey });
            },
            Some(found) => {
                if found.kind() != expected.kind() {
                    let mut path: Vec<String> = Vec::new();
                    path.push(key.clone());
                    assert(texts(path@) =~= seq![key@]);
                    return Some(Divergence { path, fault: Fault::KindMismatch });
                }
                match (expected, found) {
                    (Value::Table(r), Value::Table(o)) => {
                        match check_tables(r, o) {
                            Some(inner) => {
                                let Divergence { path: mut path, fault } = inner;
                                let ghost tail = texts(path@);
                                path.insert(0, key.clone());
                                assert(texts(path@) =~= seq![key@] + tail);
                                return Some(Divergence { path, fault });
                            },
                            None => {},
                        }
                    },
                    _ => {},
                }
            },
        }
        k += 1;
    }
    None
}

/// The first language of the store, at index `l` or later, that diverges
/// from the reference, and where it does.
pub open spec fn first_diverging(s: StoreView, reference: TableView, l: int) -> Option<
    UnifyErrorView,
>
    decreases s.len() - l,
{
    if l < 0 || l >= s.len() {
        None
    } else {
        match divergence(reference, s[l].document) {
            Some(d) => Some(UnifyErrorView { lang: s[l].tag, path: d.path, fault: d.fault }),
            None => first_diverging(s, reference, l + 1),
        }
    }
}

/// What unification reports: nothing, or the first divergence of the first
/// language that has one.
pub open spec fn unify_outcome(s: StoreView, reference: TableView) -> Option<UnifyErrorView> {
    first_diverging(s, reference, 0)
}

/// Where nothing diverges from entry `from` on, every later entry of the
/// reference has a counterpart of its kind, and nothing diverges inside it.
pub proof fn lemma_entries_checked(reference: TableView, other: TableView, from: int, k: int)
    requires
        0 <= from <= k < reference.len(),
        first_divergence(reference, other, from) is None,
    ensures
        match lookup(other, reference[k].0) {
            Some(w) => kind_of(w) == kind_of(reference[k].1) && match (reference[k].1, w) {
                (ValueView::Table(r), ValueView::Table(o)) => divergence(r, o) is None,
                _ => true,
            },
            None => false,
        },
    decreases k - from,
{
    if from < k {
        lemma_entries_checked(reference, other, from + 1, k);
    }
}

/// Where nothing diverges, the other document agrees with the reference at
/// every path.
pub proof fn lemma_accepted_agrees(reference: TableView, other: TableView, path: Seq<Seq<char>>)
    requires
        divergence(reference, other) is None,
    ensures
        agrees_at(reference, other, path),
    decreases path.len(),
{
    if value_at(reference, path) is Some {
        let keys = keys_of(reference);
        lemma_position_found(keys, path[0]);
        let k = position(keys, path[0])->0;
        lemma_entries_checked(reference, other, 0, k);
        if path.len() > 1 {
            match (reference[k].1, lookup(other, path[0])->0) {
                (ValueView::Table(r), ValueView::Table(o)) => {
                    lemma_accepted_agrees(r, o, path.drop_first());
                },
                _ => {},
            }
        }
    }
}

/// A reported divergence is real: the reference holds a value at the
/// reported path, and the other document holds none there, or one of
/// another kind, as the report says.
pub proof fn lemma_divergence_real(reference: TableView, other: TableView, from: int)
    requires
        well_ordered(reference),
        0 <= from,
        first_divergence(reference, other, from) is Some,
    ensures
        ({
            let d = first_divergence(reference, other, from)->0;
            diverges_at(reference, other, d.path, d.fault)
        }),
    decreases reference, reference.len() - from,
{
    let key = reference[from].0;
    lemma_lookup_own_entry(reference, from);
    match lookup(other, key) {
        None => {},
        Some(w) => {
            if kind_of(w) == kind_of(reference[from].1) {
                let inner = match (reference[from].1, w) {
                    (ValueView::Table(r), ValueView::Table(o)) => first_divergence(r, o, 0),
                    _ => None,
                };
                match inner {
                    Some(v) => {
                        match (reference[from].1, w) {
                            (ValueView::Table(r), ValueView::Table(o)) => {
                                assert(reference[from].1 == ValueView::Table(r));
                                lemma_divergence_real(r, o, 0);
                                let path = seq![key] + v.path;
                                assert(path.drop_first() =~= v.path);
                                assert(path[0] == key);
                            },
                            _ => {},
                        }
                    },
                    None => {
                        lemma_divergence_real(reference, other, from + 1);
                    },
                }
            }
        },
    }
}

/// The check is sound and complete: nothing diverges exactly when the
/// other document conforms to the reference.
pub proof fn lemma_divergence_none_iff_conforms(reference: TableView, other: TableView)
    requires
        well_ordered(reference),
    ensures
        divergence(reference, other) is None <==> conforms(reference, other),
{
    if divergence(reference, other) is None {
        assert forall|path: Seq<Seq<char>>| #[trigger] agrees_at(reference, other, path) by {
            lemma_accepted_agrees(reference, other, path);
        }
    } else {
        lemma_divergence_real(reference, other, 0);
        let d = divergence(reference, other)->0;
        assert(!agrees_at(reference, other, d.path));
    }
}

/// Where unification reports nothing, every language conforms to the
/// reference.
pub proof fn lemma_unified_conforms(s: StoreView, reference: TableView, from: int)
    requires
        well_ordered(reference),
        0 <= from,
        first_diverging(s, reference, from) is None,
    ensures
        forall|l: int| from <= l < s.len() ==> conforms(reference, (#[trigger] s[l]).document),
    decreases s.len() - from,
{
    if from < s.len() {
        lemma_divergence_none_iff_conforms(reference, s[from].document);
        lemma_unified_conforms(s, reference, from + 1);
    }
}

/// `v` without the text of its strings: what is left is its kind and, for
/// a table, the shape of the table.
pub open spec fn shape_of_value(v: ValueView) -> ValueView
    decreases v,
{
    match v {
        ValueView::Str(_) => ValueView::Str(Seq::empty()),
        ValueView::Table(inner) => ValueView::Table(shape_of(inner)),
        ValueView::Other(s) => ValueView::Other(s),
    }
}

/// The shape of a document: its keys and the kinds of its values at every
/// path, without the text of its strings.
pub open spec fn shape_of(t: TableView) -> TableView
    decreases t,
{
    Seq::new(
        t.len(),
        |k: int|
            if 0 <= k < t.len() {
                (t[k].0, shape_of_value(t[k].1))
            } else {
                (Seq::empty(), ValueView::Str(Seq::empty()))
            },
    )
}

/// Following a path in the shape of a document leads to the shape of what
/// the path leads to in the document.
pub proof fn lemma_value_at_shape(t: TableView, path: Seq<Seq<char>>)
    ensures
        value_at(shape_of(t), path) == match value_at(t, path) {
            Some(v) => Some(shape_of_value(v)),
            None => None,
        },
    decreases path.len(),
{
    if path.len() > 0 {
        assert(keys_of(shape_of(t)) =~= keys_of(t));
        lemma_position_found(keys_of(t), path[0]);
        match lookup(t, path[0]) {
            Some(ValueView::Table(inner)) => {
                if path.len() > 1 {
                    lemma_value_at_shape(inner, path.drop_first());
                }
            },
            _ => {},
        }
    }
}

/// Documents of the same shape conform to each other: the unifier accepts
/// languages whose structure is that of the reference.
pub proof fn lemma_same_shape_conforms(reference: TableView, other: TableView)
    requires
        shape_of(reference) == shape_of(other),
    ensures
        conforms(reference, other),
{
    assert forall|path: Seq<Seq<char>>| #[trigger] agrees_at(reference, other, path) by {
        lemma_value_at_shape(reference, path);
        lemma_value_at_shape(other, path);
    }
}

/// What conforms as a whole conforms table by table: the table that `other`
/// holds under the key of a table of the reference conforms to that table.
pub proof fn lemma_conforms_inside(reference: TableView, other: TableView, k: int)
    requires
        ascending(keys_of(reference)),
        conforms(reference, other),
        0 <= k < reference.len(),
        reference[k].1 is Table,
    ensures
        lookup(other, reference[k].0) matches Some(ValueView::Table(o)) && conforms(
            reference[k].1->Table_0,
            o,
        ),
{
    let key = reference[k].0;
    let r = reference[k].1->Table_0;
    lemma_lookup_own_entry(reference, k);
    assert(agrees_at(reference, other, seq![key]));
    let o = lookup(other, key)->0->Table_0;
    assert forall|path: Seq<Seq<char>>| #[trigger] agrees_at(r, o, path) by {
        if path.len() > 0 {
            let longer = seq![key] + path;
            assert(longer.drop_first() =~= path);
            assert(agrees_at(reference, other, longer));
        }
    }
}

/// Two documents that conform to each other have the same shape: the same
/// keys and the same kinds of value at every path. So after unification,
/// a language that holds no key beyond those of the reference has exactly
/// the structure of the reference.
pub proof fn lemma_mutual_conformance_is_same_shape(a: TableView, b: TableView)
    requires
        well_ordered(a),
        well_ordered(b),
        conforms(a, b),
        conforms(b, a),
    ensures
        shape_of(a) == shape_of(b),
    decreases a,
{
    let ka = keys_of(a);
    let kb = keys_of(b);
    assert forall|x: Seq<char>| ka.contains(x) <==> kb.contains(x) by {
        lemma_position_found(ka, x);
        lemma_position_found(kb, x);
        if ka.contains(x) {
            let k = position(ka, x)->0;
            lemma_lookup_own_entry(a, k);
            assert(agrees_at(a, b, seq![x]));
        }
        if kb.contains(x) {
            let k = position(kb, x)->0;
            lemma_lookup_own_entry(b, k);
            assert(agrees_at(b, a, seq![x]));
        }
    }
    lemma_ascending_unique(ka, kb);
    assert(a.len() == ka.len() && b.len() == kb.len());
    assert forall|k: int| 0 <= k < a.len() implies shape_of(a)[k] == shape_of(b)[k] by {
        assert(a[k].0 == ka[k] && b[k].0 == kb[k]);
        lemma_lookup_own_entry(a, k);
        lemma_lookup_own_entry(b, k);
        assert(agrees_at(a, b, seq![a[k].0]));
        match a[k].1 {
            ValueView::Table(inner) => {
                lemma_conforms_inside(a, b, k);
                lemma_conforms_inside(b, a, k);
                lemma_mutual_conformance_is_same_shape(inner, b[k].1->Table_0);
            },
            _ => {},
        }
    }
    assert(shape_of(a) =~= shape_of(b));
}

/// Checks every document of `store` against `reference`, in the order of
/// the store, and reports the first divergence found.
pub fn unify(store: &DocumentStore, reference: &Document) -> (r: Result<(), UnifyError>)
    ensures
        match r {
            Ok(_) => unify_outcome(store@, reference@) is None,
            Err(e) => unify_outcome(store@, reference@) == Some(e@) && exists|l: int|
                0 <= l < store@.len() && (#[trigger] store@[l]).tag == e.lang@ && diverges_at(
                    reference@,
                    store@[l].document,
                    e@.path,
                    e.fault,
                ),
        },
        r is Ok <==> forall|l: int|
            0 <= l < store@.len() ==> conforms(reference@, (#[trigger] store@[l]).document),
{
    proof {
        use_type_invariant(reference);
        reference.lemma_well_ordered();
    }
    let n = store.len();
    let mut l: usize = 0;
    while l < n
        invariant
            l <= n,
            n == store@.len(),
            well_ordered(reference@),
            unify_outcome(store@, reference@) == first_diverging(store@, reference@, l as int),
            forall|j: int| 0 <= j < l ==> conforms(reference@, (#[trigger] store@[j]).document),
        decreases n - l,
    {
        proof {
            lemma_divergence_none_iff_conforms(reference@, store@[l as int].document);
        }
        match check_tables(reference, store.document(l)) {
            Some(d) => {
                let Divergence { path, fault } = d;
                return Err(UnifyError { lang: store.language(l).inner(), path, fault });
            },
            None => {},
        }
        l += 1;
    }
    Ok(())
}

} // verus!
