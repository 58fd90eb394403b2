//! The generated interface, and what calling it gives.
//!
//! An [`Api`] describes the language enumeration and the accessor types.
//! The functions here do what the generated code does when it runs: they
//! parse a language, bind an accessor to it, step into nested tables and
//! render leaves.

use vstd::prelude::*;
use crate::emit::{case_views, method_views, LanguageCase, LanguageCaseView, Method, MethodView};
use crate::lang::{answering, answering_from};
use crate::order::{position, position_from, texts};
use crate::render::{lemma_rendered_without_params, render, rendered};
use crate::text::{same_ignoring_case, same_text};

verus! {

/// The description of the generated interface.
#[derive(Debug, PartialEq, Eq)]
pub struct Api {
    /// The cases of the language enumeration, in order.
    pub cases: Vec<LanguageCase>,
    /// The case that the enumeration defaults to, if a fallback was
    /// configured.
    pub default_case: Option<usize>,
    /// The methods of the root accessor.
    pub methods: Vec<Method>,
}

/// The mathematical model of an [`Api`].
pub struct ApiView {
    pub cases: Seq<LanguageCaseView>,
    pub default_case: Option<int>,
    pub methods: Seq<MethodView>,
}

impl Api {
    /// The model of the interface.
    pub open spec fn view(&self) -> ApiView {
        ApiView {
            cases: case_views(self.cases@),
            default_case: match self.default_case {
                Some(c) => Some(c as int),
                None => None,
            },
            methods: method_views(self.methods@),
        }
    }
}

/// The tags of the cases, in order.
pub open spec fn case_tags(cases: Seq<LanguageCaseView>) -> Seq<Seq<char>> {
    Seq::new(cases.len(), |i: int| cases[i].tag)
}

/// The selector forms of the cases, in order.
pub open spec fn case_selectors(cases: Seq<LanguageCaseView>) -> Seq<Seq<char>> {
    Seq::new(cases.len(), |i: int| cases[i].selector)
}

/// The name of a method.
pub open spec fn name_of(m: MethodView) -> Seq<char> {
    match m {
        MethodView::Leaf { name, .. } => name,
        MethodView::Table { name, .. } => name,
    }
}

/// The names of the methods, in order.
pub open spec fn method_names(methods: Seq<MethodView>) -> Seq<Seq<char>> {
    Seq::new(methods.len(), |i: int| name_of(methods[i]))
}

/// The first of `methods` that is called `name`.
pub open spec fn method_named(methods: Seq<MethodView>, name: Seq<char>) -> Option<MethodView> {
    match position(method_names(methods), name) {
        Some(k) => Some(methods[k]),
        None => None,
    }
}

/// What the leaf method `name` returns for the language case `case` when
/// called with `args`. There is no such call if no leaf method has that
/// name, if the number of arguments is not that of the formal parameters,
/// or if the case is none of the enumeration.
pub open spec fn leaf_result(
    methods: Seq<MethodView>,
    case: int,
    name: Seq<char>,
    args: Seq<Seq<char>>,
) -> Option<Seq<char>> {
    match method_named(methods, name) {
        Some(MethodView::Leaf { params, templates, .. }) => if args.len() == params.len() && 0
            <= case < templates.len() {
            Some(rendered(templates[case], params, args))
        } else {
            None
        },
        _ => None,
    }
}

/// The methods of the accessor that the table method `name` returns.
pub open spec fn table_result(methods: Seq<MethodView>, name: Seq<char>) -> Option<
    Seq<MethodView>,
> {
    match method_named(methods, name) {
        Some(MethodView::Table { methods: inner, .. }) => Some(inner),
        _ => None,
    }
}

/// A leaf method without formal parameters returns the template of the
/// bound language as it stands.
pub proof fn lemma_leaf_without_params(methods: Seq<MethodView>, case: int, name: Seq<char>)
    requires
        method_named(methods, name) matches Some(MethodView::Leaf { params, templates, .. })
            && params.len() == 0 && 0 <= case < templates.len(),
    ensures
        method_named(methods, name) matches Some(MethodView::Leaf { templates, .. })
            && leaf_result(methods, case, name, Seq::empty()) == Some(templates[case]),
{
    match method_named(methods, name) {
        Some(MethodView::Leaf { params, templates, .. }) => {
            assert(params =~= Seq::<Seq<char>>::empty());
            lemma_rendered_without_params(templates[case], Seq::empty());
        },
        _ => {},
    }
}

/// An accessor bound to a language: the methods of its type, and the case
/// of the language.
pub struct Bound<'a> {
    pub methods: &'a Vec<Method>,
    pub case: usize,
}

/// The first of `methods` that is called `name`.
pub fn find_method<'a>(methods: &'a Vec<Method>, name: &str) -> (r: Option<&'a Method>)
    ensures
        match r {
            Some(m) => method_named(method_views(methods@), name@) == Some(m@),
            None => method_named(method_views(methods@), name@) is None,
        },
{
    let ghost names = method_names(method_views(methods@));
    let mut k: usize = 0;
    while k < methods.len()
        invariant
            k <= methods.len(),
            names == method_names(method_views(methods@)),
            position(names, name@) == position_from(names, name@, k as int),
        decreases methods.len() - k,
    {
        let own: &String = match &methods[k] {
            Method::Leaf { name, .. } => name,
            Method::Table { name, .. } => name,
        };
        assert(own@ == names[k as int]);
        if same_text(own.as_str(), name) {
            return Some(&methods[k]);
        }
        k += 1;
    }
    None
}

impl<'a> Bound<'a> {
    /// Calls the table method `name`: the accessor of the nested table,
    /// bound to the same language.
    pub fn table(&self, name: &str) -> (r: Option<Bound<'a>>)
        ensures
            match r {
                Some(b) => table_result(method_views(self.methods@), name@) == Some(
                    method_views(b.methods@),
                ) && b.case == self.case,
                None => table_result(method_views(self.methods@), name@) is None,
            },
    {
        match find_method(self.methods, name) {
            Some(Method::Table { methods, .. }) => Some(Bound { methods, case: self.case }),
            _ => None,
        }
    }

    /// Calls the leaf method `name` with `args`.
    pub fn leaf(&self, name: &str, args: &Vec<String>) -> (r: Option<String>)
        ensures
            match r {
                Some(text) => leaf_result(
                    method_views(self.methods@),
                    self.case as int,
                    name@,
                    texts(args@),
                ) == Some(text@),
                None => leaf_result(
                    method_views(self.methods@),
                    self.case as int,
                    name@,
                    texts(args@),
                ) is None,
            },
    {
        match find_method(self.methods, name) {
            Some(Method::Leaf { params, templates, .. }) => {
                if args.len() != params.len() || self.case >= templates.len() {
                    return None;
                }
                if params.len() == 0 {
                    proof {
                        assert(texts(params@) =~= Seq::<Seq<char>>::empty());
                        lemma_rendered_without_params(templates[self.case as int]@, texts(args@));
                    }
                    Some(templates[self.case].clone())
                } else {
                    Some(render(templates[self.case].as_str(), params, args))
                }
            },
            _ => None,
        }
    }
}

impl Api {
    /// The root accessor, bound to the language case `case`.
    pub fn bind(&self, case: usize) -> (r: Bound<'_>)
        ensures
            r.methods == &self.methods,
            r.case == case,
    {
        Bound { methods: &self.methods, case }
    }

    /// The case of the language that `text` names: the first whose tag
    /// equals `text` up to the case of ASCII letters.
    pub fn parse_language(&self, text: &str) -> (r: Option<usize>)
        ensures
            match r {
                Some(c) => answering(case_tags(self@.cases), text@) == Some(c as int) && c
                    < self.cases.len(),
                None => answering(case_tags(self@.cases), text@) is None,
            },
    {
        let ghost tags = case_tags(self@.cases);
        let mut c: usize = 0;
        while c < self.cases.len()
            invariant
                c <= self.cases.len(),
                tags == case_tags(self@.cases),
                answering(tags, text@) == answering_from(tags, text@, c as int),
            decreases self.cases.len() - c,
        {
            assert(tags[c as int] == self.cases[c as int].tag@);
            if same_ignoring_case(self.cases[c].tag.as_str(), text) {
                return Some(c);
            }
            c += 1;
        }
        None
    }

    /// The case that the method called `selector` selects: the first whose
    /// selector form is `selector`.
    pub fn select(&self, selector: &str) -> (r: Option<usize>)
        ensures
            match r {
                Some(c) => position(case_selectors(self@.cases), selector@) == Some(c as int) && c
                    < self.cases.len(),
                None => position(case_selectors(self@.cases), selector@) is None,
            },
    {
        let ghost names = case_selectors(self@.cases);
        let mut c: usize = 0;
        while c < self.cases.len()
            invariant
                c <= self.cases.len(),
                names == case_selectors(self@.cases),
                position(names, selector@) == position_from(names, selector@, c as int),
            decreases self.cases.len() - c,
        {
            assert(names[c as int] == self.cases[c as int].selector@);
            if same_text(self.cases[c].selector.as_str(), selector) {
                return Some(c);
            }
            c += 1;
        }
        None
    }

    /// The root accessor of the language that the method called `selector`
    /// selects.
    pub fn language(&self, selector: &str) -> (r: Option<Bound<'_>>)
        ensures
            match r {
                Some(b) => position(case_selectors(self@.cases), selector@) == Some(b.case as int)
                    && b.methods == &self.methods,
                None => position(case_selectors(self@.cases), selector@) is None,
            },
    {
        match self.select(selector) {
            Some(c) => Some(self.bind(c)),
            None => None,
        }
    }

    /// The root accessor of the language that `text` names, if it names
    /// one.
    pub fn get_lang(&self, text: &str) -> (r: Option<Bound<'_>>)
        ensures
            match r {
                Some(b) => answering(case_tags(self@.cases), text@) == Some(b.case as int)
                    && b.methods == &self.methods,
                None => answering(case_tags(self@.cases), text@) is None,
            },
    {
        match self.parse_language(text) {
            Some(c) => Some(self.bind(c)),
            None => None,
        }
    }

    /// The root accessor of the default language. There is one exactly
    /// when a fallback was configured.
    pub fn fallback(&self) -> (r: Option<Bound<'_>>)
        ensures
            match r {
                Some(b) => self.default_case == Some(b.case) && b.methods == &self.methods,
                None => self.default_case is None,
            },
    {
        match self.default_case {
            Some(c) => Some(self.bind(c)),
            None => None,
        }
    }
}

} // verus!
