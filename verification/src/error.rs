//! The closed error taxonomy: one kind per distinguishable grammar violation.
//! Parsing is all-or-nothing; every error propagates to the caller untouched.
use vstd::prelude::*;

verus! {

/// Ghost model of a parse error.
pub enum ErrorModel {
    UnexpectedChar(char),
    UnexpectedKeyword,
    UnknownEscapeCharacter(char),
    ExtraChars(Seq<char>),
    EarlyEndOfStream,
    LeadingZero,
    InvalidUnicode,
}

/// Why a parse failed: the character(s) at fault, or the kind of violation.
#[derive(Debug, PartialEq)]
pub enum JsonError {
    /// A character appeared where the grammar required a different fixed set.
    UnexpectedChar(char),
    /// A `true`/`false`/`null` literal did not match exactly.
    UnexpectedKeyword,
    /// A backslash followed by an unrecognized character.
    UnknownEscapeCharacter(char),
    /// Non-whitespace content remained after a complete top-level value.
    ExtraChars(Vec<char>),
    /// Input was exhausted while a production still expected more characters.
    EarlyEndOfStream,
    /// A numeric literal has a disallowed leading zero.
    LeadingZero,
    /// A malformed `\uXXXX` escape, bad surrogate pairing, or non-scalar code point.
    InvalidUnicode,
}

impl View for JsonError {
    type V = ErrorModel;

    open spec fn view(&self) -> ErrorModel {
        match self {
            JsonError::UnexpectedChar(c) => ErrorModel::UnexpectedChar(*c),
            JsonError::UnexpectedKeyword => ErrorModel::UnexpectedKeyword,
            JsonError::UnknownEscapeCharacter(c) => ErrorModel::UnknownEscapeCharacter(*c),
            JsonError::ExtraChars(cs) => ErrorModel::ExtraChars(cs@),
            JsonError::EarlyEndOfStream => ErrorModel::EarlyEndOfStream,
            JsonError::LeadingZero => ErrorModel::LeadingZero,
            JsonError::InvalidUnicode => ErrorModel::InvalidUnicode,
        }
    }
}

/// The model of an executable parse result.
pub open spec fn result_view<T: View>(r: Result<T, JsonError>) -> Result<T::V, ErrorModel> {
    match r {
        Ok(v) => Ok(v@),
        Err(e) => Err(e@),
    }
}

} // verus!
