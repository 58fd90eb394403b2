//! The schema tree: what the reference document offers, independent of any
//! language and of any syntax of generated code.

use vstd::prelude::*;
use crate::casing::{case_text, to_case, CaseStyle};
use crate::document::{Document, TableView, Value, ValueView};
use crate::lang::Lang;
use crate::order::texts;
use crate::placeholder::{extract, placeholders};
use crate::store::DocumentStore;

verus! {

/// A translatable string: its key and its formal parameters.
#[derive(Debug, PartialEq, Eq)]
pub struct LeafSpec {
    pub key: String,
    /// The names of the placeholders of the reference template, in the
    /// order of their first occurrence.
    pub placeholders: Vec<String>,
}

/// A nesting level: its key, the name of its accessor type, and its
/// children in the order of their keys.
#[derive(Debug, PartialEq, Eq)]
pub struct TableSpec {
    /// The key of the table; empty for the root.
    pub key: String,
    /// The name of the accessor type; empty for the root.
    pub accessor_name: String,
    pub children: Vec<Node>,
}

/// A node of the schema tree.
#[derive(Debug, PartialEq, Eq)]
pub enum Node {
    Leaf(LeafSpec),
    Table(TableSpec),
}

/// The mathematical model of a [`Node`].
pub enum NodeView {
    Leaf { key: Seq<char>, placeholders: Seq<Seq<char>> },
    Table { key: Seq<char>, accessor_name: Seq<char>, children: Seq<NodeView> },
}

/// The name of an accessor type, made of the name `own` of its table and
/// of the name `parent` of the accessor type that the table is nested in
/// (`None` for the root): the two joined by two underscores.
pub open spec fn joined_name(parent: Option<Seq<char>>, own: Seq<char>) -> Seq<char> {
    match parent {
        None => own,
        Some(p) => p + seq!['_', '_'] + own,
    }
}

/// The name of the accessor type of the table under `key`: the keys on the
/// path to the table, each in Pascal case, joined by two underscores.
pub open spec fn accessor_name_of(parent: Option<Seq<char>>, key: Seq<char>) -> Seq<char> {
    joined_name(parent, case_text(CaseStyle::Pascal, key))
}

/// The schema nodes of the entries of `t` from index `k` on. A string gives
/// a leaf, a table gives a table node, and anything else gives nothing.
pub open spec fn nodes_of(t: TableView, parent: Option<Seq<char>>, k: int) -> Seq<NodeView>
    decreases t, t.len() - k,
{
    if k < 0 || k >= t.len() {
        Seq::empty()
    } else {
        let rest = nodes_of(t, parent, k + 1);
        match t[k].1 {
            ValueView::Str(s) => seq![
                NodeView::Leaf { key: t[k].0, placeholders: placeholders(s) },
            ] + rest,
            ValueView::Table(inner) => {
                let name = accessor_name_of(parent, t[k].0);
                seq![
                    NodeView::Table {
                        key: t[k].0,
                        accessor_name: name,
                        children: nodes_of(inner, Some(name), 0),
                    },
                ] + rest
            },
            ValueView::Other(_) => rest,
        }
    }
}

/// The schema tree of the reference document `t`.
pub open spec fn schema_of(t: TableView) -> NodeView {
    NodeView::Table {
        key: Seq::empty(),
        accessor_name: Seq::empty(),
        children: nodes_of(t, None, 0),
    }
}

impl Node {
    /// The model of the node.
    pub open spec fn view(&self) -> NodeView
        decreases self,
    {
        match self {
            Node::Leaf(l) => NodeView::Leaf { key: l.key@, placeholders: texts(l.placeholders@) },
            Node::Table(t) => t.view(),
        }
    }
}

impl TableSpec {
    /// The model of the table, as a node.
    pub open spec fn view(&self) -> NodeView
        decreases self,
    {
        NodeView::Table {
            key: self.key@,
            accessor_name: self.accessor_name@,
            children: node_views(self.children@),
        }
    }
}

/// The models of a sequence of nodes.
pub open spec fn node_views(nodes: Seq<Node>) -> Seq<NodeView>
    decreases nodes,
{
    Seq::new(nodes.len(), |i: int| if 0 <= i < nodes.len() { nodes[i].view() } else { arbitrary() })
}

/// The text of an optional string.
pub open spec fn name_view(name: Option<&String>) -> Option<Seq<char>> {
    match name {
        Some(n) => Some(n@),
        None => None,
    }
}

/// Joins the name of a table to the name of the accessor type that the
/// table is nested in.
pub fn join_name(parent: Option<&String>, own: String) -> (r: String)
    ensures
        r@ == joined_name(name_view(parent), own@),
{
    match parent {
        None => own,
        Some(p) => {
            let mut r = p.clone();
            r.push('_');
            r.push('_');
            r.append(own.as_str());
            assert(r@ =~= p@ + seq!['_', '_'] + own@);
            r
        },
    }
}

/// The schema nodes of the entries of `doc`.
pub fn build_nodes(doc: &Document, parent: Option<&String>) -> (r: Vec<Node>)
    ensures
        node_views(r@) == nodes_of(doc@, name_view(parent), 0),
    decreases doc@,
{
    let ghost parent_view = name_view(parent);
    let n = doc.len();
    let mut nodes: Vec<Node> = Vec::new();
    let mut k: usize = n;
    assert(node_views(nodes@) =~= nodes_of(doc@, parent_view, n as int));
    while k > 0
        invariant
            k <= n,
            n == doc@.len(),
            parent_view == name_view(parent),
            node_views(nodes@) == nodes_of(doc@, parent_view, k as int),
        decreases k,
    {
        k -= 1;
        let ghost rest = node_views(nodes@);
        match doc.value(k) {
            Value::Str(s) => {
                let leaf = LeafSpec { key: doc.key(k).clone(), placeholders: extract(s.as_str()) };
                nodes.insert(0, Node::Leaf(leaf));
                assert(node_views(nodes@) =~= seq![
                    NodeView::Leaf { key: doc@[k as int].0, placeholders: placeholders(s@) },
                ] + rest);
            },
            Value::Table(inner) => {
                let name = join_name(parent, to_case(doc.key(k).as_str(), CaseStyle::Pascal));
                proof {
                    let entry = doc@[k as int];
                    assert(entry.1 == ValueView::Table(inner@));
                    assert(decreases_to!(doc@ => entry));
                    assert(decreases_to!(entry => entry.1));
                    assert(decreases_to!(entry.1 => entry.1->Table_0));
                }
                let ghost named = accessor_name_of(parent_view, doc@[k as int].0);
                let children = build_nodes(inner, Some(&name));
                let table = TableSpec { key: doc.key(k).clone(), accessor_name: name, children };
                nodes.insert(0, Node::Table(table));
                assert(node_views(nodes@) =~= seq![
                    NodeView::Table {
                        key: doc@[k as int].0,
                        accessor_name: named,
                        children: nodes_of(inner@, Some(named), 0),
                    },
                ] + rest);
            },
            Value::Other(_) => {},
        }
    }
    nodes
}

/// The schema tree of the reference document `doc`.
pub fn build_schema(doc: &Document) -> (r: TableSpec)
    ensures
        r@ == schema_of(doc@),
        node_views(r.children@) == nodes_of(doc@, None, 0),
{
    TableSpec { key: String::new(), accessor_name: String::new(), children: build_nodes(doc, None) }
}

/// The schema of a store: the tree of the reference document, the
/// reference language, and all the languages in order.
#[derive(Debug)]
pub struct Schema {
    pub root: TableSpec,
    pub reference: Lang,
    pub languages: Vec<Lang>,
}

/// The schema of `store` with the language at index `reference` as the
/// reference. There is none exactly when the store has no such language.
pub fn derive_schema(store: &DocumentStore, reference: usize) -> (r: Option<Schema>)
    ensures
        r is Some <==> reference < store@.len(),
        match r {
            Some(schema) => {
                &&& schema.root@ == schema_of(store@[reference as int].document)
                &&& node_views(schema.root.children@) == nodes_of(
                    store@[reference as int].document,
                    None,
                    0,
                )
                &&& schema.reference.tag() == store@[reference as int].tag
                &&& schema.reference@ == store@[reference as int].id
                &&& schema.languages.len() == store@.len()
                &&& forall|i: int|
                    0 <= i < store@.len() ==> (#[trigger] schema.languages[i]).tag()
                        == store@[i].tag && schema.languages[i]@ == store@[i].id
            },
            None => true,
        },
{
    if reference >= store.len() {
        return None;
    }
    Some(
        Schema {
            root: build_schema(store.document(reference)),
            reference: store.language(reference).clone(),
            languages: store.languages(),
        },
    )
}

} // verus!
