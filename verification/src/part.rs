//! The parts into which a template is cut.

use vstd::prelude::*;

verus! {

/// One unit of a decomposed template.
#[derive(Debug, PartialEq, Eq)]
pub enum Part {
    /// A fragment of the template's own text.
    Literal(String),
    /// A reference to the value of the rule at this position in the list of
    /// rules.
    Value(usize),
}

/// What a [`Part`] stands for in contracts.
pub enum PartModel {
    Literal(Seq<char>),
    Value(nat),
}

impl View for Part {
    type V = PartModel;

    open spec fn view(&self) -> PartModel {
        match self {
            Part::Literal(text) => PartModel::Literal(text@),
            Part::Value(rule) => PartModel::Value(*rule as nat),
        }
    }
}

impl DeepView for Part {
    type V = PartModel;

    open spec fn deep_view(&self) -> PartModel {
        self@
    }
}

impl Clone for Part {
    fn clone(&self) -> (out: Part)
        ensures
            out@ == self@,
    {
        match self {
            Part::Literal(text) => Part::Literal(text.clone()),
            Part::Value(rule) => Part::Value(*rule),
        }
    }
}

/// Why a template could not be formatted.
#[derive(Debug, PartialEq, Eq, Clone, Copy, Structural)]
pub enum FormatError {
    /// The key of the rule at this position is the empty text, which
    /// matches nowhere and everywhere.
    EmptyKey(usize),
    /// A part refers to the rule at this position, and no value was given
    /// for it.
    MissingValue(usize),
}

} // verus!
