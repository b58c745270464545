//! The closed set of failures that tokenizing and parsing can report.

use vstd::prelude::*;
use vstd::string::StringExecFns;
use crate::text::{decimal_digits, push_char, push_decimal};

verus! {

/// A failure of tokenizing or parsing. Each variant carries the 0-based
/// position at which the scan stood, and what is needed to render a one-line
/// diagnostic without the input at hand.
#[derive(Debug, Clone, PartialEq)]
pub enum JsonError {
    UnexpectedToken { expected: String, found: String, position: usize },
    UnexpectedEndOfInput { expected: String, position: usize },
    InvalidNumber { value: String, position: usize },
    InvalidEscape { char: char, position: usize },
    InvalidUnicode { sequence: String, position: usize },
}

/// The mathematical content of a [`JsonError`].
pub ghost enum ErrorView {
    UnexpectedToken { expected: Seq<char>, found: Seq<char>, position: int },
    UnexpectedEndOfInput { expected: Seq<char>, position: int },
    InvalidNumber { value: Seq<char>, position: int },
    InvalidEscape { char: char, position: int },
    InvalidUnicode { sequence: Seq<char>, position: int },
}

impl View for JsonError {
    type V = ErrorView;

    open spec fn view(&self) -> ErrorView {
        match *self {
            JsonError::UnexpectedToken { expected, found, position } => ErrorView::UnexpectedToken {
                expected: expected@,
                found: found@,
                position: position as int,
            },
            JsonError::UnexpectedEndOfInput { expected, position } => ErrorView::UnexpectedEndOfInput {
                expected: expected@,
                position: position as int,
            },
            JsonError::InvalidNumber { value, position } => ErrorView::InvalidNumber {
                value: value@,
                position: position as int,
            },
            JsonError::InvalidEscape { char, position } => ErrorView::InvalidEscape {
                char,
                position: position as int,
            },
            JsonError::InvalidUnicode { sequence, position } => ErrorView::InvalidUnicode {
                sequence: sequence@,
                position: position as int,
            },
        }
    }
}

/// The one-line diagnostic of an error.
pub open spec fn message(e: ErrorView) -> Seq<char> {
    match e {
        ErrorView::UnexpectedToken { expected, found, position } => {
            "Unexpected token at position "@ + decimal_digits(position as nat) + ": expected "@
                + expected + ", found "@ + found
        },
        ErrorView::UnexpectedEndOfInput { expected, position } => {
            "Unexpected end of input at position "@ + decimal_digits(position as nat)
                + ": expected "@ + expected
        },
        ErrorView::InvalidNumber { value, position } => {
            "Invalid number at position "@ + decimal_digits(position as nat) + ": "@ + value
        },
        ErrorView::InvalidEscape { char, position } => {
            "Invalid escape sequence '\\"@.push(char) + "' at position "@ + decimal_digits(
                position as nat,
            )
        },
        ErrorView::InvalidUnicode { sequence, position } => {
            "Invalid unicode escape '\\u"@ + sequence + "' at position "@ + decimal_digits(
                position as nat,
            )
        },
    }
}

impl JsonError {
    /// Renders the error as a one-line diagnostic.
    pub fn to_string(&self) -> (out: String)
        ensures
            out@ == message(self@),
    {
        match self {
            JsonError::UnexpectedToken { expected, found, position } => {
                let mut out = String::from_str("Unexpected token at position ");
                push_decimal(&mut out, *position);
                out.append(": expected ");
                out.append(expected.as_str());
                out.append(", found ");
                out.append(found.as_str());
                out
            },
            JsonError::UnexpectedEndOfInput { expected, position } => {
                let mut out = String::from_str("Unexpected end of input at position ");
                push_decimal(&mut out, *position);
                out.append(": expected ");
                out.append(expected.as_str());
                out
            },
            JsonError::InvalidNumber { value, position } => {
                let mut out = String::from_str("Invalid number at position ");
                push_decimal(&mut out, *position);
                out.append(": ");
                out.append(value.as_str());
                out
            },
            JsonError::InvalidEscape { char, position } => {
                let mut out = String::from_str("Invalid escape sequence '\\");
                push_char(&mut out, *char);
                out.append("' at position ");
                push_decimal(&mut out, *position);
                out
            },
            JsonError::InvalidUnicode { sequence, position } => {
                let mut out = String::from_str("Invalid unicode escape '\\u");
                out.append(sequence.as_str());
                out.append("' at position ");
                push_decimal(&mut out, *position);
                out
            },
        }
    }
}

} // verus!
