//! The errors that end a run.
use vstd::prelude::*;

verus! {

/// What went wrong while reading the dump.
#[derive(Clone, Copy, Debug, PartialEq, Eq, Structural)]
pub enum ErrorKind {
    /// A quoted string runs to the end of the input.
    UnclosedString,
    /// A `/*` comment runs to the end of the input.
    IncompleteComment,
    /// A run of letters runs to the end of the input.
    UnterminatedKeyword,
    /// The input ends inside a backtick-quoted name, a parenthesis group or
    /// a statement that is not an `INSERT`.
    UnexpectedEnd,
    /// The input ends inside an `INSERT` statement.
    IncompleteInsert,
    /// The input ends between a value tuple and its `,` or `;`.
    UnparsableValues,
    /// A token stands where no statement can start.
    InvalidSql,
}

impl ErrorKind {
    /// The text that reports this kind of error.
    pub open spec fn message(self) -> Seq<char> {
        match self {
            ErrorKind::UnclosedString => "Unclosed string."@,
            ErrorKind::IncompleteComment => "Incomplete multi-line comment."@,
            ErrorKind::UnterminatedKeyword => "While parsing keyword."@,
            ErrorKind::UnexpectedEnd => "Unexpected end of the file."@,
            ErrorKind::IncompleteInsert => "Incomplete Insert statement."@,
            ErrorKind::UnparsableValues => "Unable to parse values."@,
            ErrorKind::InvalidSql => "Invalid sql file."@,
        }
    }

    /// The text that reports this kind of error.
    pub fn text(self) -> (text: &'static str)
        ensures
            text@ == self.message(),
    {
        match self {
            ErrorKind::UnclosedString => "Unclosed string.",
            ErrorKind::IncompleteComment => "Incomplete multi-line comment.",
            ErrorKind::UnterminatedKeyword => "While parsing keyword.",
            ErrorKind::UnexpectedEnd => "Unexpected end of the file.",
            ErrorKind::IncompleteInsert => "Incomplete Insert statement.",
            ErrorKind::UnparsableValues => "Unable to parse values.",
            ErrorKind::InvalidSql => "Invalid sql file.",
        }
    }

    /// The failure that reports this kind of error.
    pub fn fail<T>(self) -> (r: Result<T, TokenErr>)
        ensures
            r matches Err(e) && e.text@ == self.message(),
    {
        terr(self.text())
    }
}

/// A fatal error: a fixed text that says what is wrong with the input.
#[derive(Debug)]
pub struct TokenErr {
    pub text: &'static str,
}

/// The failure that carries `text`.
pub fn terr<T>(text: &'static str) -> (r: Result<T, TokenErr>)
    ensures
        r matches Err(e) && e.text == text,
{
    Err(TokenErr { text })
}

} // verus!
