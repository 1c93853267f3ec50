//! Literal text substitution that keeps the substituted values apart from
//! the text around them.
//!
//! A template is cut, rule by rule, into an ordered sequence of parts: each
//! part is either a fragment of the template's own text or a reference to
//! the value of one rule. Text that a rule has replaced is never scanned
//! again by a later rule.

pub mod chars;
pub mod format;
pub mod fragment;
pub mod laws;
pub mod lemmas;
pub mod model;
pub mod name;
pub mod part;
pub mod render;
pub mod search;

pub use crate::format::exact_format;
pub use crate::fragment::fragment;
pub use crate::name::value_name;
pub use crate::part::{FormatError, Part};
pub use crate::render::{format_template, render};
