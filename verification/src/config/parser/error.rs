//! How parsing an rcfile fails.

use vstd::prelude::*;

verus! {

/// Errors that stop the parse.
#[derive(Debug, PartialEq, Eq)]
pub enum ParseError {
    /// `line {0}: unexpected end of file`.
    UnexpectedEof(usize),
    /// `line {0}: missing action line for recipe`.
    MissingAction(usize),
    /// `line {0}: unclosed nested block`.
    UnclosedBlock(usize),
    /// `line {0}: invalid recipe line: {1}`.
    Invalid(usize, String),
    /// `line {0}: nesting too deep`.
    TooDeep(usize),
}

/// Model of a parse error.
pub enum ErrorModel {
    UnexpectedEof(nat),
    MissingAction(nat),
    UnclosedBlock(nat),
    Invalid(nat, Seq<char>),
    TooDeep(nat),
}

impl View for ParseError {
    type V = ErrorModel;

    open spec fn view(&self) -> ErrorModel {
        match self {
            ParseError::UnexpectedEof(n) => ErrorModel::UnexpectedEof(*n as nat),
            ParseError::MissingAction(n) => ErrorModel::MissingAction(*n as nat),
            ParseError::UnclosedBlock(n) => ErrorModel::UnclosedBlock(*n as nat),
            ParseError::Invalid(n, s) => ErrorModel::Invalid(*n as nat, s@),
            ParseError::TooDeep(n) => ErrorModel::TooDeep(*n as nat),
        }
    }
}

/// Why the parser stops: an error of the rcfile, or a substitution whose
/// delimiter takes more than one byte, where slicing the text by bytes
/// just past the `s` would cut that character in two.
pub enum Halt {
    /// The rcfile is malformed.
    Error(ParseError),
    /// A multi-byte substitution delimiter.
    SplitChar,
}

/// Model of a halt.
pub enum HaltModel {
    Error(ErrorModel),
    SplitChar,
}

impl View for Halt {
    type V = HaltModel;

    open spec fn view(&self) -> HaltModel {
        match self {
            Halt::Error(e) => HaltModel::Error(e@),
            Halt::SplitChar => HaltModel::SplitChar,
        }
    }
}

} // verus!
