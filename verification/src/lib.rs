//! Typed accessors for per-language translation documents.
//!
//! A set of documents, one per language, is turned into the description of
//! a typed interface: one enumeration case per language, one accessor type
//! per table, one method per key. The work is done in stages.
//!
//! - [`lang`] normalizes language tags and derives the names that stand
//!   for a language in generated code.
//! - [`document`] and [`store`] hold the documents, with their keys and
//!   their languages in a fixed order.
//! - [`unify`] holds every document against the reference document and
//!   reports the first place where one diverges.
//! - [`placeholder`] finds the formal parameters of a template.
//! - [`schema`] builds the language-independent schema tree.
//! - [`emit`] describes the language enumeration and the accessor types.
//! - [`api`] and [`render`] do what the generated interface does when it is
//!   called.
//! - [`generate`] ties the stages together.
//!
//! [`text`], [`order`] and [`casing`] are the helpers that the stages
//! share.

pub mod api;
pub mod casing;
pub mod document;
pub mod emit;
pub mod generate;
pub mod lang;
pub mod order;
pub mod placeholder;
pub mod render;
pub mod schema;
pub mod store;
pub mod text;
pub mod unify;
