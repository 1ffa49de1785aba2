//! The ways in which parsing fails.

use vstd::prelude::*;

verus! {

/// What is wrong with a line that the scanner cannot accept.
#[derive(Clone, Copy, Debug, PartialEq, Eq, Structural)]
pub enum Fault {
    /// The line opens a section header with `[` and does not end in `]`.
    UnterminatedSection,
    /// The key is longer than 50 bytes.
    KeyTooLong,
    /// The value is longer than 255 bytes.
    ValueTooLong,
    /// The line is no header, no comment and holds no `=` to split it.
    UnexpectedInput,
}

/// Why a buffer could not be parsed. Lines are counted from 1.
#[derive(Clone, Copy, Debug, PartialEq, Eq, Structural)]
pub enum ParseError {
    /// The buffer is not UTF-8 once a leading byte-order mark is removed.
    Encoding,
    /// A section header on `line` is not closed.
    UnterminatedSection { line: usize },
    /// The key on `line` is longer than 50 bytes.
    KeyTooLong { line: usize },
    /// The value on `line` is longer than 255 bytes.
    ValueTooLong { line: usize },
    /// The text on `line` has none of the forms of the dialect.
    UnexpectedInput { line: usize },
}

/// The error that reports `fault` on line `line`.
pub open spec fn fault_error(fault: Fault, line: int) -> ParseError {
    match fault {
        Fault::UnterminatedSection => ParseError::UnterminatedSection { line: line as usize },
        Fault::KeyTooLong => ParseError::KeyTooLong { line: line as usize },
        Fault::ValueTooLong => ParseError::ValueTooLong { line: line as usize },
        Fault::UnexpectedInput => ParseError::UnexpectedInput { line: line as usize },
    }
}

impl ParseError {
    /// The line the error points at; `None` for an encoding error, which
    /// concerns the buffer as a whole.
    pub open spec fn spec_line(self) -> Option<usize> {
        match self {
            ParseError::Encoding => None,
            ParseError::UnterminatedSection { line } => Some(line),
            ParseError::KeyTooLong { line } => Some(line),
            ParseError::ValueTooLong { line } => Some(line),
            ParseError::UnexpectedInput { line } => Some(line),
        }
    }

    /// Builds the error for a fault found on `line`.
    pub fn at(fault: Fault, line: usize) -> (e: ParseError)
        ensures
            e == fault_error(fault, line as int),
    {
        match fault {
            Fault::UnterminatedSection => ParseError::UnterminatedSection { line },
            Fault::KeyTooLong => ParseError::KeyTooLong { line },
            Fault::ValueTooLong => ParseError::ValueTooLong { line },
            Fault::UnexpectedInput => ParseError::UnexpectedInput { line },
        }
    }

    /// The line the error points at, if it points at one.
    pub fn line(&self) -> (r: Option<usize>)
        ensures
            r == self.spec_line(),
    {
        match self {
            ParseError::Encoding => None,
            ParseError::UnterminatedSection { line } => Some(*line),
            ParseError::KeyTooLong { line } => Some(*line),
            ParseError::ValueTooLong { line } => Some(*line),
            ParseError::UnexpectedInput { line } => Some(*line),
        }
    }
}

} // verus!
