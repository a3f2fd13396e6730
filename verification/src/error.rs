//! The ways a command can fail.

use vstd::prelude::*;
use crate::text::IntParseError;

verus! {

broadcast use vstd::string::group_string_axioms;

/// Why a line of text is not a command.
#[derive(Debug, PartialEq, Eq)]
pub enum ParseError {
    /// The line holds nothing but white space.
    Empty,
    /// The first word, in upper case, names no command.
    UnknownCommand(String),
    /// The command has the wrong number of words after it.
    InvalidArguments,
    /// The time to live is not an unsigned 64-bit decimal number.
    InvalidTTL(IntParseError),
}

/// A `ParseError` with its text taken as characters.
pub enum ParseErrorView {
    Empty,
    UnknownCommand(Seq<char>),
    InvalidArguments,
    InvalidTTL(IntParseError),
}

impl View for ParseError {
    type V = ParseErrorView;

    open spec fn view(&self) -> ParseErrorView {
        match self {
            ParseError::Empty => ParseErrorView::Empty,
            ParseError::UnknownCommand(name) => ParseErrorView::UnknownCommand(name@),
            ParseError::InvalidArguments => ParseErrorView::InvalidArguments,
            ParseError::InvalidTTL(e) => ParseErrorView::InvalidTTL(*e),
        }
    }
}

/// Why the store could not serve a command.
#[derive(Debug, Clone, Copy, PartialEq, Eq, Structural)]
pub enum StorageError {
    /// Another user of the store failed while it held the store.
    LockPoisoned,
}

/// Why a command line was not carried out.
#[derive(Debug, PartialEq, Eq)]
pub enum CommandError {
    Parse(ParseError),
    Storage(StorageError),
}

/// The message that describes a failure to read a number.
pub open spec fn int_error_text(e: IntParseError) -> Seq<char> {
    match e {
        IntParseError::Empty => "cannot parse integer from empty string"@,
        IntParseError::InvalidDigit => "invalid digit found in string"@,
        IntParseError::PosOverflow => "number too large to fit in target type"@,
    }
}

/// The message that describes `e`.
pub open spec fn parse_error_text(e: ParseErrorView) -> Seq<char> {
    match e {
        ParseErrorView::Empty => "Empty command"@,
        ParseErrorView::UnknownCommand(name) => "Unknown command: "@ + name,
        ParseErrorView::InvalidArguments => "Invalid number of arguments"@,
        ParseErrorView::InvalidTTL(k) => "Invalid TTL value: "@ + int_error_text(k),
    }
}

/// The message that describes a failure to read a number.
pub fn int_error_message(e: IntParseError) -> (r: String)
    ensures
        r@ == int_error_text(e),
{
    match e {
        IntParseError::Empty => "cannot parse integer from empty string".to_string(),
        IntParseError::InvalidDigit => "invalid digit found in string".to_string(),
        IntParseError::PosOverflow => "number too large to fit in target type".to_string(),
    }
}

impl ParseError {
    /// The message that describes the error.
    pub fn message(&self) -> (r: String)
        ensures
            r@ == parse_error_text(self@),
    {
        match self {
            ParseError::Empty => "Empty command".to_string(),
            ParseError::UnknownCommand(name) => {
                let mut m = "Unknown command: ".to_string();
                m.append(name.as_str());
                m
            },
            ParseError::InvalidArguments => "Invalid number of arguments".to_string(),
            ParseError::InvalidTTL(k) => {
                let mut m = "Invalid TTL value: ".to_string();
                let detail = int_error_message(*k);
                m.append(detail.as_str());
                m
            },
        }
    }
}

impl StorageError {
    /// The message that describes the error.
    pub fn message(&self) -> (r: String)
        ensures
            r@ == "Lock poisoned"@,
    {
        "Lock poisoned".to_string()
    }
}

impl CommandError {
    /// The message of the failure inside.
    pub fn message(&self) -> (r: String)
        ensures
            r@ == (match self {
                CommandError::Parse(e) => parse_error_text(e@),
                CommandError::Storage(_) => "Lock poisoned"@,
            }),
    {
        match self {
            CommandError::Parse(e) => e.message(),
            CommandError::Storage(e) => e.message(),
        }
    }
}

} // verus!
