//! The code emitter: turns the schema tree and the document store into a
//! description of the generated interface.
//!
//! What comes out names every artifact and holds what it is made of: the
//! cases of the language enumeration, and for every table its accessor type
//! with one method per child. Writing that down in the syntax of a target
//! language is left to the caller.

use vstd::prelude::*;
use crate::casing::{case_text, to_case, CaseStyle};
use crate::document::{lemma_lookup_own_entry, lookup, value_at, well_ordered};
use crate::document::{TableView, Value, ValueView};
use crate::placeholder::placeholders;
use crate::schema::{accessor_name_of, nodes_of};
use crate::unify::{agrees_at, conforms};
use crate::lang::symbol;
use crate::order::{find_position, lemma_position_found};
use crate::store::StoreEntry;
use crate::text::is_identifier;
use crate::order::texts;
use crate::schema::{node_views, Node, NodeView};
use crate::store::{DocumentStore, StoreView};

verus! {

/// One case of the language enumeration.
#[derive(Debug, PartialEq, Eq)]
pub struct LanguageCase {
    /// The name of the case: the variant form of the language.
    pub variant: String,
    /// The name of the method that selects the case: the selector form.
    pub selector: String,
    /// The tag that the case is parsed from.
    pub tag: String,
}

/// The mathematical model of a [`LanguageCase`].
pub struct LanguageCaseView {
    pub variant: Seq<char>,
    pub selector: Seq<char>,
    pub tag: Seq<char>,
}

impl LanguageCase {
    /// The model of the case.
    pub open spec fn view(&self) -> LanguageCaseView {
        LanguageCaseView { variant: self.variant@, selector: self.selector@, tag: self.tag@ }
    }
}

/// A method of an accessor type.
#[derive(Debug, PartialEq, Eq)]
pub enum Method {
    /// Returns the template of the bound language, with the arguments put
    /// in place of the placeholders.
    Leaf {
        name: String,
        /// The formal parameters, in order.
        params: Vec<String>,
        /// The template of each language, in the order of the cases.
        templates: Vec<String>,
    },
    /// Returns the accessor of a nested table, bound to the same language.
    Table {
        name: String,
        /// The name of the accessor type that the method returns.
        accessor: String,
        /// The methods of that accessor type.
        methods: Vec<Method>,
    },
}

/// The mathematical model of a [`Method`].
pub enum MethodView {
    Leaf { name: Seq<char>, params: Seq<Seq<char>>, templates: Seq<Seq<char>> },
    Table { name: Seq<char>, accessor: Seq<char>, methods: Seq<MethodView> },
}

impl Method {
    /// The model of the method.
    pub open spec fn view(&self) -> MethodView
        decreases self,
    {
        match self {
            Method::Leaf { name, params, templates } => MethodView::Leaf {
                name: name@,
                params: texts(params@),
                templates: texts(templates@),
            },
            Method::Table { name, accessor, methods } => MethodView::Table {
                name: name@,
                accessor: accessor@,
                methods: method_views(methods@),
            },
        }
    }
}

/// The models of a sequence of methods.
pub open spec fn method_views(methods: Seq<Method>) -> Seq<MethodView>
    decreases methods,
{
    Seq::new(
        methods.len(),
        |i: int| if 0 <= i < methods.len() { methods[i].view() } else { arbitrary() },
    )
}

/// The models of a sequence of language cases.
pub open spec fn case_views(cases: Seq<LanguageCase>) -> Seq<LanguageCaseView> {
    Seq::new(cases.len(), |i: int| cases[i]@)
}

/// Whether a language of the given identifier has a variant form and a
/// selector form that can be used as symbols.
pub open spec fn nameable(id: Seq<char>) -> bool {
    symbol(CaseStyle::Pascal, id) is Ok && symbol(CaseStyle::Snake, id) is Ok
}

/// The case of a language: the two forms of its identifier, and its tag.
pub open spec fn case_of(e: StoreEntry) -> LanguageCaseView {
    LanguageCaseView {
        variant: case_text(CaseStyle::Pascal, e.id),
        selector: case_text(CaseStyle::Snake, e.id),
        tag: e.tag,
    }
}

/// Whether the language at index `l` can have a case of its own: it is
/// nameable, and neither of its forms is that of a language before it.
pub open spec fn usable(s: StoreView, l: int) -> bool {
    &&& nameable(s[l].id)
    &&& forall|j: int|
        0 <= j < l ==> case_of(#[trigger] s[j]).variant != case_of(s[l]).variant && case_of(
            s[j],
        ).selector != case_of(s[l]).selector
}

/// The index of the first language, at index `l` or later, that is not
/// usable.
pub open spec fn first_unusable(s: StoreView, l: int) -> Option<int>
    decreases s.len() - l,
{
    if l < 0 || l >= s.len() {
        None
    } else if !usable(s, l) {
        Some(l)
    } else {
        first_unusable(s, l + 1)
    }
}

/// The cases of the language enumeration: one per language of the store,
/// in the order of the store; or the index of the first language that is
/// not usable.
pub open spec fn cases_of(s: StoreView) -> Result<Seq<LanguageCaseView>, int> {
    match first_unusable(s, 0) {
        Some(l) => Err(l),
        None => Ok(Seq::new(s.len(), |l: int| case_of(s[l]))),
    }
}

proof fn lemma_all_usable(s: StoreView, from: int, l: int)
    requires
        0 <= from <= l < s.len(),
        first_unusable(s, from) is None,
    ensures
        usable(s, l),
    decreases l - from,
{
    if from < l {
        lemma_all_usable(s, from + 1, l);
    }
}

/// The cases of an enumeration have names that can be used as symbols,
/// and no two of them have the same variant or the same selector.
pub proof fn lemma_case_names_differ(s: StoreView)
    requires
        cases_of(s) is Ok,
    ensures
        ({
            let cases = cases_of(s)->Ok_0;
            &&& cases.len() == s.len()
            &&& forall|i: int|
                0 <= i < cases.len() ==> (#[trigger] cases[i]) == case_of(s[i]) && is_identifier(
                    cases[i].variant,
                ) && is_identifier(cases[i].selector)
            &&& forall|i: int, j: int|
                0 <= i < j < cases.len() ==> (#[trigger] cases[i]).variant != (
                #[trigger] cases[j]).variant && cases[i].selector != cases[j].selector
        }),
{
    let cases = cases_of(s)->Ok_0;
    assert forall|i: int| 0 <= i < cases.len() implies (#[trigger] cases[i]) == case_of(s[i])
        && is_identifier(cases[i].variant) && is_identifier(cases[i].selector) by {
        lemma_all_usable(s, 0, i);
    }
    assert forall|i: int, j: int| 0 <= i < j < cases.len() implies (#[trigger] cases[i]).variant
        != (#[trigger] cases[j]).variant && cases[i].selector != cases[j].selector by {
        lemma_all_usable(s, 0, j);
        assert(case_of(s[i]).variant != case_of(s[j]).variant);
    }
}

/// Every language holds a string at `path`.
pub open spec fn all_strings_at(s: StoreView, path: Seq<Seq<char>>) -> bool {
    forall|l: int|
        0 <= l < s.len() ==> (value_at((#[trigger] s[l]).document, path) matches Some(
            ValueView::Str(_),
        ))
}

/// The string that each language holds at `path`, in the order of the
/// store.
pub open spec fn templates_at(s: StoreView, path: Seq<Seq<char>>) -> Seq<Seq<char>> {
    Seq::new(
        s.len(),
        |l: int|
            match value_at(s[l].document, path) {
                Some(ValueView::Str(t)) => t,
                _ => Seq::empty(),
            },
    )
}

/// The method that `node` gives rise to in the accessor of the table at
/// `path`, or `None` if some language does not hold what the node asks for.
pub open spec fn method_of(node: NodeView, path: Seq<Seq<char>>, s: StoreView) -> Option<
    MethodView,
>
    decreases node, 0int,
{
    match node {
        NodeView::Leaf { key, placeholders } => if all_strings_at(s, path.push(key)) {
            Some(
                MethodView::Leaf {
                    name: case_text(CaseStyle::Snake, key),
                    params: placeholders,
                    templates: templates_at(s, path.push(key)),
                },
            )
        } else {
            None
        },
        NodeView::Table { key, accessor_name, children } => match methods_from(
            children,
            0,
            path.push(key),
            s,
        ) {
            Some(methods) => Some(
                MethodView::Table {
                    name: case_text(CaseStyle::Snake, key),
                    accessor: accessor_name,
                    methods,
                },
            ),
            None => None,
        },
    }
}

/// The methods that the nodes from index `k` on give rise to.
pub open spec fn methods_from(
    nodes: Seq<NodeView>,
    k: int,
    path: Seq<Seq<char>>,
    s: StoreView,
) -> Option<Seq<MethodView>>
    decreases nodes, nodes.len() - k,
{
    if k < 0 || k >= nodes.len() {
        Some(Seq::empty())
    } else {
        match (method_of(nodes[k], path, s), methods_from(nodes, k + 1, path, s)) {
            (Some(m), Some(rest)) => Some(seq![m] + rest),
            _ => None,
        }
    }
}

/// Every leaf method among `methods`, at any depth, holds one template per
/// language case.
pub open spec fn complete(methods: Seq<MethodView>, cases: nat) -> bool
    decreases methods,
{
    forall|k: int|
        0 <= k < methods.len() ==> match #[trigger] methods[k] {
            MethodView::Leaf { templates, .. } => templates.len() == cases,
            MethodView::Table { methods: inner, .. } => complete(inner, cases),
        }
}

/// What emission gives is complete: every leaf method holds a template for
/// every language of the store.
pub proof fn lemma_methods_complete(
    nodes: Seq<NodeView>,
    k: int,
    path: Seq<Seq<char>>,
    s: StoreView,
)
    requires
        0 <= k,
        methods_from(nodes, k, path, s) is Some,
    ensures
        complete(methods_from(nodes, k, path, s)->0, s.len()),
    decreases nodes, nodes.len() - k,
{
    if k < nodes.len() {
        let m = method_of(nodes[k], path, s)->0;
        let rest = methods_from(nodes, k + 1, path, s)->0;
        let all = methods_from(nodes, k, path, s)->0;
        lemma_methods_complete(nodes, k + 1, path, s);
        match nodes[k] {
            NodeView::Table { key, children, .. } => {
                lemma_methods_complete(children, 0, path.push(key), s);
            },
            _ => {},
        }
        assert forall|j: int| 0 <= j < all.len() implies match #[trigger] all[j] {
            MethodView::Leaf { templates, .. } => templates.len() == s.len(),
            MethodView::Table { methods: inner, .. } => complete(inner, s.len()),
        } by {
            if j == 0 {
                assert(all[0] == m);
            } else {
                assert(all[j] == rest[j - 1]);
            }
        }
    }
}

/// Following `path` and then `key` from `root` is looking up `key` in the
/// table that `path` leads to.
pub proof fn lemma_value_at_push(
    root: TableView,
    path: Seq<Seq<char>>,
    key: Seq<char>,
    t: TableView,
)
    requires
        path.len() == 0 ==> t == root,
        path.len() > 0 ==> value_at(root, path) == Some(ValueView::Table(t)),
    ensures
        value_at(root, path.push(key)) == lookup(t, key),
    decreases path.len(),
{
    let longer = path.push(key);
    if path.len() > 0 {
        assert(longer[0] == path[0]);
        assert(longer.drop_first() =~= path.drop_first().push(key));
        match lookup(root, path[0]) {
            Some(ValueView::Table(inner)) => {
                lemma_value_at_push(inner, path.drop_first(), key, t);
            },
            _ => {},
        }
    }
}

proof fn lemma_methods_shift(
    node: NodeView,
    rest: Seq<NodeView>,
    j: int,
    path: Seq<Seq<char>>,
    s: StoreView,
)
    requires
        0 <= j,
    ensures
        methods_from(seq![node] + rest, j + 1, path, s) == methods_from(rest, j, path, s),
    decreases rest.len() - j,
{
    let all = seq![node] + rest;
    if j < rest.len() {
        assert(all[j + 1] == rest[j]);
        lemma_methods_shift(node, rest, j + 1, path, s);
    }
}

/// Emission cannot fail once every language conforms to the reference:
/// the schema of the reference asks for nothing that a conforming document
/// lacks.
///
/// `t` is the table that `path` leads to in the reference `root` (the
/// reference itself for the empty path).
pub proof fn lemma_emission_succeeds(
    root: TableView,
    t: TableView,
    parent: Option<Seq<char>>,
    path: Seq<Seq<char>>,
    s: StoreView,
    k: int,
)
    requires
        well_ordered(t),
        forall|l: int| 0 <= l < s.len() ==> conforms(root, (#[trigger] s[l]).document),
        path.len() == 0 ==> t == root,
        path.len() > 0 ==> value_at(root, path) == Some(ValueView::Table(t)),
        0 <= k <= t.len(),
    ensures
        methods_from(nodes_of(t, parent, k), 0, path, s) is Some,
    decreases t, t.len() - k,
{
    if k < t.len() {
        let key = t[k].0;
        let rest = nodes_of(t, parent, k + 1);
        lemma_emission_succeeds(root, t, parent, path, s, k + 1);
        lemma_lookup_own_entry(t, k);
        lemma_value_at_push(root, path, key, t);
        let full = path.push(key);
        match t[k].1 {
            ValueView::Str(x) => {
                let node = NodeView::Leaf { key, placeholders: placeholders(x) };
                lemma_methods_shift(node, rest, 0, path, s);
                assert forall|l: int| 0 <= l < s.len() implies (value_at(
                    (#[trigger] s[l]).document,
                    full,
                ) matches Some(ValueView::Str(_))) by {
                    assert(agrees_at(root, s[l].document, full));
                }
                assert(all_strings_at(s, full));
                assert(method_of(node, path, s) is Some);
                let all = seq![node] + rest;
                assert(all[0] == node);
                assert(nodes_of(t, parent, k) == all);
                assert(methods_from(all, 0, path, s) is Some);
            },
            ValueView::Table(inner) => {
                let name = accessor_name_of(parent, key);
                let node = NodeView::Table {
                    key,
                    accessor_name: name,
                    children: nodes_of(inner, Some(name), 0),
                };
                lemma_methods_shift(node, rest, 0, path, s);
                assert(t[k].1 == ValueView::Table(inner));
                assert(well_ordered(inner));
                lemma_emission_succeeds(root, inner, Some(name), full, s, 0);
                assert(method_of(node, path, s) is Some);
                let all = seq![node] + rest;
                assert(all[0] == node);
                assert(nodes_of(t, parent, k) == all);
                assert(methods_from(all, 0, path, s) is Some);
            },
            ValueView::Other(_) => {
                assert(nodes_of(t, parent, k) == rest);
            },
        }
    }
}

/// The cases of the language enumeration, or the index of the first
/// language that is not usable.
pub fn language_cases(store: &DocumentStore) -> (r: Result<Vec<LanguageCase>, usize>)
    ensures
        match r {
            Ok(cases) => cases_of(store@) == Ok::<Seq<LanguageCaseView>, int>(case_views(cases@)),
            Err(l) => cases_of(store@) == Err::<Seq<LanguageCaseView>, int>(l as int) && l
                < store@.len(),
        },
{
    let n = store.len();
    let mut cases: Vec<LanguageCase> = Vec::new();
    let mut variants: Vec<String> = Vec::new();
    let mut selectors: Vec<String> = Vec::new();
    let mut l: usize = 0;
    while l < n
        invariant
            l <= n,
            n == store@.len(),
            first_unusable(store@, 0) == first_unusable(store@, l as int),
            cases.len() == l,
            variants.len() == l,
            selectors.len() == l,
            forall|j: int|
                0 <= j < l ==> (#[trigger] cases[j])@ == case_of(store@[j]) && variants[j]@
                    == case_of(store@[j]).variant && selectors[j]@ == case_of(store@[j]).selector,
        decreases n - l,
    {
        let lang = store.language(l);
        let variant = match lang.enum_variant() {
            Ok(variant) => variant,
            Err(_) => {
                return Err(l);
            },
        };
        let selector = match lang.fn_name() {
            Ok(selector) => selector,
            Err(_) => {
                return Err(l);
            },
        };
        proof {
            lemma_position_found(texts(variants@), variant@);
            lemma_position_found(texts(selectors@), selector@);
        }
        match find_position(&variants, variant.as_str()) {
            Some(j) => {
                assert(texts(variants@)[j as int] == variants[j as int]@);
                assert(cases[j as int]@ == case_of(store@[j as int]));
                assert(case_of(store@[j as int]).variant == case_of(store@[l as int]).variant);
                return Err(l);
            },
            None => {},
        }
        match find_position(&selectors, selector.as_str()) {
            Some(j) => {
                assert(texts(selectors@)[j as int] == selectors[j as int]@);
                assert(cases[j as int]@ == case_of(store@[j as int]));
                assert(case_of(store@[j as int]).selector == case_of(store@[l as int]).selector);
                return Err(l);
            },
            None => {},
        }
        proof {
            assert forall|j: int| 0 <= j < l implies case_of(#[trigger] store@[j]).variant
                != case_of(store@[l as int]).variant && case_of(store@[j]).selector != case_of(
                store@[l as int],
            ).selector by {
                assert(cases[j]@ == case_of(store@[j]));
                assert(texts(variants@)[j] == variants[j]@);
                assert(texts(selectors@)[j] == selectors[j]@);
            }
        }
        variants.push(variant.clone());
        selectors.push(selector.clone());
        cases.push(LanguageCase { variant, selector, tag: lang.inner() });
        l += 1;
    }
    assert(case_views(cases@) =~= Seq::new(store@.len(), |l: int| case_of(store@[l])));
    Ok(cases)
}

/// The string that each language holds at `path`, if every language holds
/// one.
pub fn collect_templates(store: &DocumentStore, path: &Vec<String>) -> (r: Option<Vec<String>>)
    ensures
        match r {
            Some(t) => all_strings_at(store@, texts(path@)) && texts(t@) == templates_at(
                store@,
                texts(path@),
            ),
            None => !all_strings_at(store@, texts(path@)),
        },
{
    let n = store.len();
    let mut templates: Vec<String> = Vec::new();
    let mut l: usize = 0;
    while l < n
        invariant
            l <= n,
            n == store@.len(),
            templates.len() == l,
            forall|j: int|
                0 <= j < l ==> value_at((#[trigger] store@[j]).document, texts(path@)) == Some(
                    ValueView::Str(templates[j]@),
                ),
        decreases n - l,
    {
        match store.document(l).value_at(path) {
            Some(Value::Str(t)) => {
                templates.push(t.clone());
            },
            _ => {
                assert(!(value_at(store@[l as int].document, texts(path@)) matches Some(
                    ValueView::Str(_),
                )));
                return None;
            },
        }
        l += 1;
    }
    assert(texts(templates@) =~= templates_at(store@, texts(path@)));
    Some(templates)
}

/// The methods of the accessor of the table at `path`, whose schema nodes
/// are `nodes`. `None` exactly when some language lacks a string or a
/// table that the schema asks for.
pub fn emit_methods(nodes: &Vec<Node>, path: &Vec<String>, store: &DocumentStore) -> (r: Option<
    Vec<Method>,
>)
    ensures
        match r {
            Some(methods) => methods_from(node_views(nodes@), 0, texts(path@), store@) == Some(
                method_views(methods@),
            ),
            None => methods_from(node_views(nodes@), 0, texts(path@), store@) is None,
        },
    decreases nodes,
{
    let ghost views = node_views(nodes@);
    let n = nodes.len();
    let mut methods: Vec<Method> = Vec::new();
    let mut failed = false;
    let mut k: usize = n;
    assert(method_views(methods@) =~= Seq::<MethodView>::empty());
    while k > 0
        invariant
            k <= n,
            n == nodes.len(),
            views == node_views(nodes@),
            if failed {
                methods_from(views, k as int, texts(path@), store@) is None
            } else {
                methods_from(views, k as int, texts(path@), store@) == Some(method_views(methods@))
            },
        decreases k,
    {
        k -= 1;
        let ghost rest = method_views(methods@);
        let made: Option<Method> = match &nodes[k] {
            Node::Leaf(leaf) => {
                let mut full = path.clone();
                full.push(leaf.key.clone());
                assert(texts(full@) =~= texts(path@).push(leaf.key@));
                match collect_templates(store, &full) {
                    Some(templates) => Some(
                        Method::Leaf {
                            name: to_case(leaf.key.as_str(), CaseStyle::Snake),
                            params: leaf.placeholders.clone(),
                            templates,
                        },
                    ),
                    None => None,
                }
            },
            Node::Table(table) => {
                let mut full = path.clone();
                full.push(table.key.clone());
                assert(texts(full@) =~= texts(path@).push(table.key@));
                match emit_methods(&table.children, &full, store) {
                    Some(inner) => Some(
                        Method::Table {
                            name: to_case(table.key.as_str(), CaseStyle::Snake),
                            accessor: table.accessor_name.clone(),
                            methods: inner,
                        },
                    ),
                    None => None,
                }
            },
        };
        match made {
            Some(m) => {
                if !failed {
                    assert(method_of(views[k as int], texts(path@), store@) == Some(m@));
                    methods.insert(0, m);
                    assert(method_views(methods@) =~= seq![m@] + rest);
                }
            },
            None => {
                failed = true;
            },
        }
    }
    if failed {
        None
    } else {
        Some(methods)
    }
}

} // verus!
