//! What can go wrong during a scan.

use vstd::prelude::*;

verus! {

/// The kinds of failure.
#[derive(Clone, Copy, Debug, PartialEq, Eq, Structural)]
pub enum ErrorKind {
    /// A string is opened and the buffer ends before it is closed.
    UnclosedQuote,
    /// The buffer ends while a delimiter is still open.
    UnclosedDelimiter,
    /// A closing delimiter has no open delimiter of its family to close.
    UnmatchedCloseDelimiter,
    /// A line begins with a closing delimiter while nothing is open.
    LeadingCloseParen,
    /// A character has more than one role under the chosen syntax.
    UnhandledCharacter,
}

/// A failure and the place of the construct that caused it.
#[derive(Clone, Copy, Debug, PartialEq, Eq, Structural)]
pub struct Error {
    pub kind: ErrorKind,
    /// Zero-based line in the buffer that was handed in.
    pub line: usize,
    /// Zero-based column on that line.
    pub x: usize,
}

impl ErrorKind {
    /// The name under which the failure is reported.
    pub fn name(&self) -> (s: &'static str)
        ensures
            s@ == match *self {
                ErrorKind::UnclosedQuote => "unclosed-quote"@,
                ErrorKind::UnclosedDelimiter => "unclosed-delimiter"@,
                ErrorKind::UnmatchedCloseDelimiter => "unmatched-close-delimiter"@,
                ErrorKind::LeadingCloseParen => "leading-close-paren"@,
                ErrorKind::UnhandledCharacter => "unhandled-character"@,
            },
    {
        match self {
            ErrorKind::UnclosedQuote => "unclosed-quote",
            ErrorKind::UnclosedDelimiter => "unclosed-delimiter",
            ErrorKind::UnmatchedCloseDelimiter => "unmatched-close-delimiter",
            ErrorKind::LeadingCloseParen => "leading-close-paren",
            ErrorKind::UnhandledCharacter => "unhandled-character",
        }
    }

    /// A sentence for the person at the keyboard.
    pub fn message(&self) -> (s: &'static str)
        ensures
            s@ == match *self {
                ErrorKind::UnclosedQuote => "String is missing a closing quote."@,
                ErrorKind::UnclosedDelimiter => "Unclosed open-paren."@,
                ErrorKind::UnmatchedCloseDelimiter => "Unmatched close-paren."@,
                ErrorKind::LeadingCloseParen => "Line cannot lead with a close-paren."@,
                ErrorKind::UnhandledCharacter => "Character has more than one role."@,
            },
    {
        match self {
            ErrorKind::UnclosedQuote => "String is missing a closing quote.",
            ErrorKind::UnclosedDelimiter => "Unclosed open-paren.",
            ErrorKind::UnmatchedCloseDelimiter => "Unmatched close-paren.",
            ErrorKind::LeadingCloseParen => "Line cannot lead with a close-paren.",
            ErrorKind::UnhandledCharacter => "Character has more than one role.",
        }
    }
}

} // verus!
