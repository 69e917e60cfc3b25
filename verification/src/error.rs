//! What can go wrong during an interpolation.

use crate::text::{decimal, push_decimal};
use vstd::prelude::*;
use vstd::string::*;

verus! {

/// A failed interpolation. Positions are byte offsets into the text that was
/// being scanned.
#[derive(Debug, Clone, PartialEq, Eq)]
pub enum Error {
    /// Expansions nested deeper than the configured limit, which is what a
    /// cycle among variables leads to. Holds the text that was to be expanded.
    RecursiveLookup(String),
    /// A variable has no value and no default applies. Holds its name.
    MissingVar(String),
    /// A command substitution is malformed. Holds a message and the position
    /// of the opening delimiter.
    SyntaxError(String, usize),
    /// A `${` has no matching `}`. Holds the position of the `$`.
    UnclosedBrace(usize),
    /// A quote inside a command substitution is never closed. Holds the
    /// position of the quote.
    UnclosedQuote(usize),
    /// A command ran and failed. Holds what it wrote to standard error.
    CommandError(String),
    /// A command could not be started. Holds the reason.
    IoError(String),
}

/// An [`Error`] with its texts as character sequences.
pub enum ErrorView {
    RecursiveLookup(Seq<char>),
    MissingVar(Seq<char>),
    SyntaxError(Seq<char>, nat),
    UnclosedBrace(nat),
    UnclosedQuote(nat),
    CommandError(Seq<char>),
    IoError(Seq<char>),
}

impl View for Error {
    type V = ErrorView;

    open spec fn view(&self) -> ErrorView {
        match self {
            Error::RecursiveLookup(s) => ErrorView::RecursiveLookup(s@),
            Error::MissingVar(s) => ErrorView::MissingVar(s@),
            Error::SyntaxError(s, pos) => ErrorView::SyntaxError(s@, *pos as nat),
            Error::UnclosedBrace(pos) => ErrorView::UnclosedBrace(*pos as nat),
            Error::UnclosedQuote(pos) => ErrorView::UnclosedQuote(*pos as nat),
            Error::CommandError(s) => ErrorView::CommandError(s@),
            Error::IoError(s) => ErrorView::IoError(s@),
        }
    }
}

impl ErrorView {
    /// The message shown for this error.
    pub open spec fn message(self) -> Seq<char> {
        match self {
            ErrorView::RecursiveLookup(ctx) => "Maximum interpolation depth exceeded: "@ + ctx,
            ErrorView::MissingVar(var) => "Variable not found: "@ + var,
            ErrorView::SyntaxError(msg, pos) => "Syntax error at position "@ + decimal(pos) + ": "@
                + msg,
            ErrorView::UnclosedBrace(pos) => "Unclosed variable brace starting at position "@
                + decimal(pos),
            ErrorView::UnclosedQuote(pos) => "Unterminated quote starting at position "@ + decimal(
                pos,
            ),
            ErrorView::CommandError(msg) => "Command execution failed: "@ + msg,
            ErrorView::IoError(msg) => "IO Error: "@ + msg,
        }
    }
}

impl Error {
    /// The message shown for this error.
    pub fn to_string(&self) -> (r: String)
        ensures
            r@ == self@.message(),
    {
        match self {
            Error::RecursiveLookup(ctx) => {
                let mut r = String::from_str("Maximum interpolation depth exceeded: ");
                r.append(ctx.as_str());
                r
            },
            Error::MissingVar(var) => {
                let mut r = String::from_str("Variable not found: ");
                r.append(var.as_str());
                r
            },
            Error::SyntaxError(msg, pos) => {
                let mut r = String::from_str("Syntax error at position ");
                push_decimal(&mut r, *pos);
                r.append(": ");
                r.append(msg.as_str());
                r
            },
            Error::UnclosedBrace(pos) => {
                let mut r = String::from_str("Unclosed variable brace starting at position ");
                push_decimal(&mut r, *pos);
                r
            },
            Error::UnclosedQuote(pos) => {
                let mut r = String::from_str("Unterminated quote starting at position ");
                push_decimal(&mut r, *pos);
                r
            },
            Error::CommandError(msg) => {
                let mut r = String::from_str("Command execution failed: ");
                r.append(msg.as_str());
                r
            },
            Error::IoError(msg) => {
                let mut r = String::from_str("IO Error: ");
                r.append(msg.as_str());
                r
            },
        }
    }
}

} // verus!
