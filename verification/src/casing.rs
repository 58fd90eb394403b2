//! Case conversion of names, done by the `convert_case` crate.

use vstd::prelude::*;
use convert_case::{Case, Casing};

verus! {

/// The conventions that generated names follow.
#[derive(Clone, Copy, Debug, PartialEq, Eq, Structural)]
pub enum CaseStyle {
    /// Lower-case words joined by underscores, for method names.
    Snake,
    /// Capitalised words joined without a delimiter, for type and variant
    /// names.
    Pascal,
}

/// What `convert_case` makes of `text` when it converts it to `style`:
/// the text split into words at its default boundaries, each word
/// rewritten as the style asks, and the words joined by the style's
/// delimiter.
pub uninterp spec fn case_text(style: CaseStyle, text: Seq<char>) -> Seq<char>;

/// Calls `Casing::to_case` of `convert_case` on `text`, with `Case::Snake`
/// or `Case::Pascal`. The conversion depends on nothing but its two
/// arguments, and nothing is claimed of its result but that.
#[verifier::external_body]
pub(crate) fn to_case(text: &str, style: CaseStyle) -> (r: String)
    ensures
        r@ == case_text(style, text@),
{
    match style {
        CaseStyle::Snake => text.to_case(Case::Snake),
        CaseStyle::Pascal => text.to_case(Case::Pascal),
    }
}

} // verus!
