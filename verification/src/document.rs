//! Translation documents: nested key/value trees, one per language.
//!
//! A [`Document`] maps keys to values and keeps its keys in ascending
//! order, so that walking it gives the same sequence whatever the order in
//! which it was filled.

use vstd::prelude::*;
use crate::order::{ascending, find_position, find_slot, position, slot, texts};
use crate::order::{lemma_before_irreflexive, lemma_insert_keeps_ascending};
use crate::order::{lemma_position_found, lemma_slot_splits};
use crate::text::same_text;

verus! {

/// The kinds of value that carry no translation.
#[derive(Clone, Copy, Debug, PartialEq, Eq, Structural)]
pub enum Unsupported {
    Integer,
    Float,
    Boolean,
    Datetime,
    Array,
}

/// What a value is, without what it holds.
#[derive(Clone, Copy, Debug, PartialEq, Eq, Structural)]
pub enum Kind {
    Str,
    Table,
    Other(Unsupported),
}

/// A value of a document: a template string, a nested table, or something
/// that no accessor is generated for.
#[derive(Debug, PartialEq, Eq)]
pub enum Value {
    Str(String),
    Table(Document),
    Other(Unsupported),
}

/// An ordered mapping from keys to values.
#[derive(Debug, PartialEq, Eq)]
pub struct Document {
    keys: Vec<String>,
    values: Vec<Value>,
}

/// The mathematical model of a [`Value`].
pub enum ValueView {
    Str(Seq<char>),
    Table(Seq<(Seq<char>, ValueView)>),
    Other(Unsupported),
}

/// The mathematical model of a [`Document`]: its entries in order.
pub type TableView = Seq<(Seq<char>, ValueView)>;

/// The kind of a value.
pub open spec fn kind_of(v: ValueView) -> Kind {
    match v {
        ValueView::Str(_) => Kind::Str,
        ValueView::Table(_) => Kind::Table,
        ValueView::Other(s) => Kind::Other(s),
    }
}

/// The keys of a table, in order.
pub open spec fn keys_of(t: TableView) -> Seq<Seq<char>> {
    Seq::new(t.len(), |i: int| t[i].0)
}

/// The value that `t` holds under `key`.
pub open spec fn lookup(t: TableView, key: Seq<char>) -> Option<ValueView> {
    match position(keys_of(t), key) {
        Some(i) => Some(t[i].1),
        None => None,
    }
}

/// The value found in `t` by following `path` through nested tables. The
/// empty path leads nowhere.
pub open spec fn value_at(t: TableView, path: Seq<Seq<char>>) -> Option<ValueView>
    decreases path.len(),
{
    if path.len() == 0 {
        None
    } else {
        match lookup(t, path[0]) {
            None => None,
            Some(v) => if path.len() == 1 {
                Some(v)
            } else {
                match v {
                    ValueView::Table(inner) => value_at(inner, path.drop_first()),
                    _ => None,
                }
            },
        }
    }
}

/// The keys of `t` are in strictly ascending order, and so are those of
/// every table nested in it. Every [`Document`] is so ordered.
pub open spec fn well_ordered(t: TableView) -> bool
    decreases t,
{
    &&& ascending(keys_of(t))
    &&& forall|k: int|
        0 <= k < t.len() ==> match (#[trigger] t[k]).1 {
            ValueView::Table(inner) => well_ordered(inner),
            _ => true,
        }
}

/// `t` with `value` stored under `key`: in place of the value that was
/// there, or else at the place that keeps the keys ascending.
pub open spec fn with_entry(t: TableView, key: Seq<char>, value: ValueView) -> TableView {
    let p = slot(keys_of(t), key);
    if p < t.len() && t[p].0 == key {
        t.update(p, (key, value))
    } else {
        t.insert(p, (key, value))
    }
}

/// In a table with ascending keys, looking up the key of an entry finds
/// that entry.
pub proof fn lemma_lookup_own_entry(t: TableView, k: int)
    requires
        ascending(keys_of(t)),
        0 <= k < t.len(),
    ensures
        position(keys_of(t), t[k].0) == Some(k),
        lookup(t, t[k].0) == Some(t[k].1),
{
    let keys = keys_of(t);
    lemma_position_found(keys, t[k].0);
    assert(keys[k] == t[k].0);
    let p = position(keys, t[k].0)->0;
    if p < k {
        lemma_before_irreflexive(keys[k]);
    }
}

/// Storing a value under a key makes the table hold that value under the
/// key, leaves what it holds under every other key as it was, and keeps
/// the keys ascending.
pub proof fn lemma_with_entry(t: TableView, key: Seq<char>, value: ValueView, other: Seq<char>)
    requires
        ascending(keys_of(t)),
    ensures
        ascending(keys_of(with_entry(t, key, value))),
        lookup(with_entry(t, key, value), key) == Some(value),
        other != key ==> lookup(with_entry(t, key, value), other) == lookup(t, other),
{
    let keys = keys_of(t);
    let p = slot(keys, key);
    let r = with_entry(t, key, value);
    lemma_slot_splits(keys, key, 0);
    let stored = p < t.len() && t[p].0 == key;
    if stored {
        assert(keys_of(r) =~= keys);
    } else {
        if p < t.len() {
            assert(keys[p] == t[p].0);
        }
        lemma_insert_keeps_ascending(keys, key);
        assert(keys_of(r) =~= keys.insert(p, key));
    }
    lemma_lookup_own_entry(r, p);
    if other != key {
        lemma_position_found(keys, other);
        lemma_position_found(keys_of(r), other);
        match position(keys, other) {
            Some(i) => {
                let j = if stored || i < p { i } else { i + 1 };
                assert(r[j] == t[i]);
                lemma_lookup_own_entry(r, j);
            },
            None => {
                if position(keys_of(r), other) is Some {
                    let j = position(keys_of(r), other)->0;
                    let i = if stored || j < p { j } else { j - 1 };
                    assert(keys[i] == other);
                }
            },
        }
    }
}

impl Value {
    /// The model of the value.
    pub open spec fn view(&self) -> ValueView
        decreases self,
    {
        match self {
            Value::Str(s) => ValueView::Str(s@),
            Value::Table(d) => ValueView::Table(d.view()),
            Value::Other(k) => ValueView::Other(*k),
        }
    }

    /// The kind of this value.
    pub fn kind(&self) -> (k: Kind)
        ensures
            k == kind_of(self@),
    {
        match self {
            Value::Str(_) => Kind::Str,
            Value::Table(_) => Kind::Table,
            Value::Other(s) => Kind::Other(*s),
        }
    }
}

impl Document {
    /// The model of the document: its entries in the order of their keys.
    pub closed spec fn view(&self) -> TableView
        decreases self,
    {
        Seq::new(
            self.keys.len() as nat,
            |i: int|
                if 0 <= i < self.values.len() {
                    (self.keys[i]@, self.values[i].view())
                } else {
                    (self.keys[i]@, ValueView::Other(Unsupported::Integer))
                },
        )
    }

    /// What holds of every document: it has as many keys as values, its
    /// keys are in strictly ascending order, and the same holds of every
    /// table nested in it.
    #[verifier::type_invariant]
    pub closed spec fn well_formed(&self) -> bool
        decreases self,
    {
        &&& self.keys.len() == self.values.len()
        &&& ascending(texts(self.keys@))
        &&& forall|i: int|
            0 <= i < self.values.len() ==> match #[trigger] self.values[i] {
                Value::Table(d) => d.well_formed(),
                _ => true,
            }
    }

    /// The model of a well-formed document is well ordered.
    pub proof fn lemma_well_ordered(self)
        requires
            self.well_formed(),
        ensures
            well_ordered(self@),
        decreases self,
    {
        assert(keys_of(self@) =~= texts(self.keys@));
        assert forall|k: int| 0 <= k < self@.len() implies match (#[trigger] self@[k]).1 {
            ValueView::Table(inner) => well_ordered(inner),
            _ => true,
        } by {
            match self.values[k] {
                Value::Table(d) => {
                    d.lemma_well_ordered();
                },
                _ => {},
            }
        }
    }

    /// A document without entries.
    pub fn new() -> (d: Document)
        ensures
            d@ == Seq::<(Seq<char>, ValueView)>::empty(),
    {
        let d = Document { keys: Vec::new(), values: Vec::new() };
        assert(d@ =~= Seq::<(Seq<char>, ValueView)>::empty());
        d
    }

    /// The number of entries. Their keys are in strictly ascending order,
    /// here and in every nested table.
    pub fn len(&self) -> (n: usize)
        ensures
            n == self@.len(),
            well_ordered(self@),
    {
        proof {
            use_type_invariant(self);
            self.lemma_well_ordered();
        }
        self.keys.len()
    }

    /// The key of the entry at index `i`.
    pub fn key(&self, i: usize) -> (k: &String)
        requires
            i < self@.len(),
        ensures
            k@ == self@[i as int].0,
    {
        &self.keys[i]
    }

    /// The value of the entry at index `i`.
    pub fn value(&self, i: usize) -> (v: &Value)
        requires
            i < self@.len(),
        ensures
            v@ == self@[i as int].1,
    {
        proof {
            use_type_invariant(self);
        }
        &self.values[i]
    }

    /// The value stored under `key`, if there is one.
    pub fn get(&self, key: &str) -> (r: Option<&Value>)
        ensures
            match r {
                Some(v) => lookup(self@, key@) == Some(v@),
                None => lookup(self@, key@) is None,
            },
    {
        proof {
            use_type_invariant(self);
            assert(keys_of(self@) =~= texts(self.keys@));
        }
        match find_position(&self.keys, key) {
            Some(i) => Some(&self.values[i]),
            None => None,
        }
    }

    /// The value found by following `path` through nested tables, if there
    /// is one. The empty path leads nowhere.
    pub fn value_at(&self, path: &Vec<String>) -> (r: Option<&Value>)
        ensures
            match r {
                Some(v) => value_at(self@, texts(path@)) == Some(v@),
                None => value_at(self@, texts(path@)) is None,
            },
    {
        let ghost whole = texts(path@);
        let n = path.len();
        let mut current: &Document = self;
        let mut i: usize = 0;
        assert(whole.subrange(0, n as int) =~= whole);
        while i < n
            invariant
                i <= n,
                n == path.len(),
                whole == texts(path@),
                value_at(self@, whole) == value_at(current@, whole.subrange(i as int, n as int)),
            decreases n - i,
        {
            let ghost rest = whole.subrange(i as int, n as int);
            assert(rest[0] == path[i as int]@);
            assert(rest.drop_first() =~= whole.subrange(i + 1, n as int));
            match current.get(path[i].as_str()) {
                None => {
                    return None;
                },
                Some(v) => {
                    if i + 1 == n {
                        return Some(v);
                    }
                    match v {
                        Value::Table(inner) => {
                            current = inner;
                        },
                        _ => {
                            return None;
                        },
                    }
                },
            }
            i += 1;
        }
        None
    }

    /// Stores `value` under `key`, in place of what was stored there.
    pub fn insert(&mut self, key: String, value: Value)
        ensures
            final(self)@ == with_entry(old(self)@, key@, value@),
    {
        let ghost before_view = self@;
        let mut taken = Document::new();
        std::mem::swap(self, &mut taken);
        proof {
            use_type_invariant(&taken);
            match &value {
                Value::Table(d) => {
                    use_type_invariant(d);
                },
                _ => {},
            }
        }
        let Document { mut keys, mut values } = taken;
        let ghost before_keys = texts(keys@);
        assert(keys_of(before_view) =~= before_keys);
        let p = find_slot(&keys, key.as_str());
        if p < keys.len() && same_text(keys[p].as_str(), key.as_str()) {
            values.set(p, value);
        } else {
            proof {
                lemma_insert_keeps_ascending(before_keys, key@);
            }
            keys.insert(p, key);
            values.insert(p, value);
            assert(texts(keys@) =~= before_keys.insert(p as int, key@));
        }
        *self = Document { keys, values };
        assert(self@ =~= with_entry(before_view, key@, value@));
    }
}

} // verus!
