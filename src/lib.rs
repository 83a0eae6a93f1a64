//! Conversion of a lightweight markup document into HTML, driven by a set of
//! rules written in a small style language.
//!
//! - [`rules`]: the rule model and the compiler from style source text.
//! - [`expand`]: the expansion engine that applies a rule set to text.
//! - [`document`]: input normalisation, templates, and whole pages.
//! - [`laws`]: properties of compilation and expansion.
//! - [`text`]: searching, tokenising, trimming and splitting characters.
pub mod document;
pub mod expand;
pub mod laws;
pub mod rules;
pub mod text;
