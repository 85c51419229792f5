//! The batch name/identifier templating mini-language: escape-aware text
//! templates with positional placeholders and per-position argument lists,
//! where each argument is a literal, a comma-separated list, or a numeric
//! range, expanded as a cross product into concrete strings.

pub mod errors;
pub mod format;
pub mod iter;
pub mod parsers;
