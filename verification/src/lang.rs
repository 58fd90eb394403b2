//! Language identifiers.
//!
//! A language is known by the tag it was found under (a file stem such as
//! `en` or `pt-BR`). The tag is kept as it was given; next to it stands its
//! normalized form, by which languages are told apart and ordered: `==` and
//! `<` on languages are those of their normalized forms.

use vstd::prelude::*;
use std::cmp::Ordering;
use crate::order::{before, comes_before};
use crate::casing::{case_text, to_case, CaseStyle};
use crate::text::{eq_ignore_case, from_chars, identifier, is_identifier, lower};
use crate::text::lemma_trim_ignores_case;
use crate::text::{same_ignoring_case, same_text, to_chars, to_lower, trim, trimmed};

verus! {

/// Why a tag cannot stand for a language.
#[derive(Clone, Copy, Debug, PartialEq, Eq, Structural)]
pub enum LangError {
    /// Nothing is left of the tag once the white space around it is gone.
    EmptyIdentifier,
    /// The tag does not convert to a name that can be used as a symbol.
    InvalidIdentifier,
}

/// The normalized form of a tag: trimmed, and in lower case.
pub open spec fn normalized(tag: Seq<char>) -> Seq<char> {
    lower(trimmed(tag))
}

/// Tags that are equal up to the case of ASCII letters have the same
/// normalized form: they stand for the same language.
pub proof fn lemma_same_name_same_language(a: Seq<char>, b: Seq<char>)
    requires
        eq_ignore_case(a, b),
    ensures
        normalized(a) == normalized(b),
{
    lemma_trim_ignores_case(a);
    lemma_trim_ignores_case(b);
}

/// The name that stands for `id` in the given style, if that name can be
/// used as a symbol.
pub open spec fn symbol(style: CaseStyle, id: Seq<char>) -> Result<Seq<char>, LangError> {
    if is_identifier(case_text(style, id)) {
        Ok(case_text(style, id))
    } else {
        Err(LangError::InvalidIdentifier)
    }
}

/// The first index at or after `i` whose tag equals `text` up to the case
/// of ASCII letters.
pub open spec fn answering_from(tags: Seq<Seq<char>>, text: Seq<char>, i: int) -> Option<int>
    decreases tags.len() - i,
{
    if i < 0 || i >= tags.len() {
        None
    } else if eq_ignore_case(tags[i], text) {
        Some(i)
    } else {
        answering_from(tags, text, i + 1)
    }
}

/// The language that `text` names, among the languages of the given tags:
/// the first whose tag equals `text` up to the case of ASCII letters.
pub open spec fn answering(tags: Seq<Seq<char>>, text: Seq<char>) -> Option<int> {
    answering_from(tags, text, 0)
}

proof fn lemma_answering_from_ignores_case(
    tags: Seq<Seq<char>>,
    a: Seq<char>,
    b: Seq<char>,
    i: int,
)
    requires
        eq_ignore_case(a, b),
    ensures
        answering_from(tags, a, i) == answering_from(tags, b, i),
    decreases tags.len() - i,
{
    if 0 <= i < tags.len() {
        lemma_answering_from_ignores_case(tags, a, b, i + 1);
    }
}

/// Naming a language does not depend on the case of ASCII letters: two
/// texts that differ in nothing else name the same language, or both none.
pub proof fn lemma_answering_ignores_case(tags: Seq<Seq<char>>, a: Seq<char>, b: Seq<char>)
    requires
        eq_ignore_case(a, b),
    ensures
        answering(tags, a) == answering(tags, b),
{
    lemma_answering_from_ignores_case(tags, a, b, 0);
}

/// What `answering` finds is a language whose tag equals the text up to
/// the case of ASCII letters, and it finds one whenever there is one.
pub proof fn lemma_answering_found(tags: Seq<Seq<char>>, text: Seq<char>, i: int)
    requires
        0 <= i,
    ensures
        match answering_from(tags, text, i) {
            Some(p) => i <= p < tags.len() && eq_ignore_case(tags[p], text),
            None => forall|j: int|
                i <= j < tags.len() ==> !eq_ignore_case(#[trigger] tags[j], text),
        },
    decreases tags.len() - i,
{
    if i < tags.len() && !eq_ignore_case(tags[i], text) {
        lemma_answering_found(tags, text, i + 1);
    }
}

/// A language identifier.
#[derive(Debug)]
pub struct Lang {
    tag: String,
    id: String,
}

/// `name` itself if it can be used as a symbol, and `InvalidIdentifier`
/// if it cannot.
pub fn checked_name(name: String) -> (r: Result<String, LangError>)
    ensures
        match r {
            Ok(n) => n@ == name@ && is_identifier(name@),
            Err(e) => e == LangError::InvalidIdentifier && !is_identifier(name@),
        },
{
    if identifier(name.as_str()) {
        Ok(name)
    } else {
        Err(LangError::InvalidIdentifier)
    }
}

impl Lang {
    /// The tag as it was given.
    pub closed spec fn tag(&self) -> Seq<char> {
        self.tag@
    }

    /// The normalized form of the tag.
    pub closed spec fn view(&self) -> Seq<char> {
        self.id@
    }

    #[verifier::type_invariant]
    spec fn well_formed(&self) -> bool {
        &&& self.id@ == normalized(self.tag@)
        &&& self.id@.len() > 0
    }

    /// The language that `tag` stands for. Fails with `EmptyIdentifier`
    /// exactly when `tag` is empty or all white space.
    pub fn new(tag: String) -> (r: Result<Lang, LangError>)
        ensures
            match r {
                Ok(l) => l.tag() == tag@ && l@ == normalized(tag@) && l@.len() > 0,
                Err(e) => e == LangError::EmptyIdentifier && normalized(tag@).len() == 0,
            },
    {
        let id = to_lower(&trim(&to_chars(tag.as_str())));
        if id.len() == 0 {
            Err(LangError::EmptyIdentifier)
        } else {
            let id = from_chars(&id);
            Ok(Lang { tag, id })
        }
    }

    /// The tag as it was given.
    pub fn inner(&self) -> (r: String)
        ensures
            r@ == self.tag(),
    {
        self.tag.clone()
    }

    /// The normalized form of the tag, which is never empty.
    pub fn id(&self) -> (r: &str)
        ensures
            r@ == self@,
            self@ == normalized(self.tag()),
            self@.len() > 0,
    {
        proof {
            use_type_invariant(self);
        }
        self.id.as_str()
    }

    /// The selector form: the name of the method that selects this
    /// language, its normalized form in snake case.
    pub fn fn_name(&self) -> (r: Result<String, LangError>)
        ensures
            match r {
                Ok(n) => symbol(CaseStyle::Snake, self@) == Ok::<Seq<char>, LangError>(n@),
                Err(e) => symbol(CaseStyle::Snake, self@) == Err::<Seq<char>, LangError>(e),
            },
    {
        checked_name(to_case(self.id.as_str(), CaseStyle::Snake))
    }

    /// The variant form: the name of the enumeration case of this language,
    /// its normalized form in Pascal case.
    pub fn enum_variant(&self) -> (r: Result<String, LangError>)
        ensures
            match r {
                Ok(n) => symbol(CaseStyle::Pascal, self@) == Ok::<Seq<char>, LangError>(n@),
                Err(e) => symbol(CaseStyle::Pascal, self@) == Err::<Seq<char>, LangError>(e),
            },
    {
        checked_name(to_case(self.id.as_str(), CaseStyle::Pascal))
    }

    /// Whether `text` names this language: whether it equals the tag up to
    /// the case of ASCII letters.
    pub fn answers_to(&self, text: &str) -> (r: bool)
        ensures
            r == eq_ignore_case(self.tag(), text@),
    {
        same_ignoring_case(self.tag.as_str(), text)
    }

    /// Whether the two are the same language: whether their normalized
    /// forms are equal.
    pub fn same_as(&self, other: &Lang) -> (r: bool)
        ensures
            r == (self@ == other@),
    {
        same_text(self.id.as_str(), other.id.as_str())
    }
}

impl PartialEq for Lang {
    fn eq(&self, other: &Self) -> (r: bool) {
        same_text(self.id.as_str(), other.id.as_str())
    }
}

impl Eq for Lang {

}

impl vstd::std_specs::cmp::PartialEqSpecImpl for Lang {
    open spec fn obeys_eq_spec() -> bool {
        true
    }

    open spec fn eq_spec(&self, other: &Self) -> bool {
        self@ == other@
    }
}

impl PartialOrd for Lang {
    fn partial_cmp(&self, other: &Self) -> (r: Option<Ordering>) {
        if same_text(self.id.as_str(), other.id.as_str()) {
            Some(Ordering::Equal)
        } else if comes_before(self.id.as_str(), other.id.as_str()) {
            Some(Ordering::Less)
        } else {
            Some(Ordering::Greater)
        }
    }
}

impl vstd::std_specs::cmp::PartialOrdSpecImpl for Lang {
    open spec fn obeys_partial_cmp_spec() -> bool {
        true
    }

    open spec fn partial_cmp_spec(&self, other: &Self) -> Option<Ordering> {
        if self@ == other@ {
            Some(Ordering::Equal)
        } else if before(self@, other@) {
            Some(Ordering::Less)
        } else {
            Some(Ordering::Greater)
        }
    }
}

impl Clone for Lang {
    fn clone(&self) -> (r: Self)
        ensures
            r == *self,
    {
        proof {
            use_type_invariant(self);
        }
        Lang { tag: self.tag.clone(), id: self.id.clone() }
    }
}

} // verus!
