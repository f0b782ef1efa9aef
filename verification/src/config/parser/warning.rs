//! Non-fatal findings of the parser.

use vstd::prelude::*;

verus! {

/// Non-fatal issues found while parsing an rcfile, each with the byte
/// offset in the rcfile where it was found.
#[derive(Debug, Clone, Copy)]
pub enum ParseWarning {
    /// Unrecognized line that was skipped.
    SkippedLine {
        /// Offset of the line.
        span: usize,
    },
    /// Assignment with an invalid variable name.
    BadVarName {
        /// Offset of the line.
        span: usize,
    },
    /// Condition that could not be parsed.
    BadCondition {
        /// Offset of the condition line.
        span: usize,
    },
    /// Unrecognized recipe flag character.
    UnknownFlag {
        /// The flag character.
        flag: char,
        /// Offset of the flag character.
        span: usize,
    },
}

/// Two warnings are alike when they are of one kind and, for unknown
/// flags, name the same flag; where they were found does not count.
pub open spec fn alike(a: ParseWarning, b: ParseWarning) -> bool {
    match (a, b) {
        (ParseWarning::SkippedLine { .. }, ParseWarning::SkippedLine { .. }) => true,
        (ParseWarning::BadVarName { .. }, ParseWarning::BadVarName { .. }) => true,
        (ParseWarning::BadCondition { .. }, ParseWarning::BadCondition { .. }) => true,
        (ParseWarning::UnknownFlag { flag: f, .. }, ParseWarning::UnknownFlag { flag: g, .. }) => f == g,
        _ => false,
    }
}

impl PartialEq for ParseWarning {
    fn eq(&self, other: &Self) -> (r: bool) {
        match (self, other) {
            (ParseWarning::SkippedLine { .. }, ParseWarning::SkippedLine { .. }) => true,
            (ParseWarning::BadVarName { .. }, ParseWarning::BadVarName { .. }) => true,
            (ParseWarning::BadCondition { .. }, ParseWarning::BadCondition { .. }) => true,
            (ParseWarning::UnknownFlag { flag: f, .. }, ParseWarning::UnknownFlag { flag: g, .. }) => *f == *g,
            _ => false,
        }
    }
}

impl vstd::std_specs::cmp::PartialEqSpecImpl for ParseWarning {
    open spec fn obeys_eq_spec() -> bool {
        true
    }

    open spec fn eq_spec(&self, other: &Self) -> bool {
        alike(*self, *other)
    }
}

impl Eq for ParseWarning {
}

} // verus!
