//! The errors that lexing, parsing and evaluation report.

use vstd::prelude::*;
use crate::text::{decimal, decimal_text};

verus! {

/// A place in the source text.
#[derive(Debug, Clone, Copy, PartialEq, Eq)]
pub struct Position {
    /// The line, counted from 1.
    pub line: usize,
    /// The byte offset from the start of the text.
    pub character: usize,
}

/// What went wrong, with a message for the reader.
#[derive(Debug, Clone, PartialEq, Eq)]
pub enum MovaError {
    Lexer { message: String, position: Position },
    Parser(String),
    Runtime(String),
}

/// The mathematical value of a [`MovaError`].
pub enum ErrorView {
    Lexer { message: Seq<char>, line: nat, character: nat },
    Parser(Seq<char>),
    Runtime(Seq<char>),
}

impl ErrorView {
    /// The one-line report of the error: its kind, its place if it has one, and its message.
    pub open spec fn report(self) -> Seq<char> {
        match self {
            ErrorView::Lexer { message, line, character } => "Lexer error at "@ + decimal(line)
                + ":"@ + decimal(character) + ": "@ + message,
            ErrorView::Parser(message) => "Parser error: "@ + message,
            ErrorView::Runtime(message) => "Runtime error: "@ + message,
        }
    }
}

impl MovaError {
    /// The error as a mathematical value.
    pub open spec fn view(&self) -> ErrorView {
        match self {
            MovaError::Lexer { message, position } => ErrorView::Lexer {
                message: message@,
                line: position.line as nat,
                character: position.character as nat,
            },
            MovaError::Parser(message) => ErrorView::Parser(message@),
            MovaError::Runtime(message) => ErrorView::Runtime(message@),
        }
    }

    /// The one-line report of the error, as it is shown to the user.
    pub fn report(&self) -> (text: String)
        ensures
            text@ == self@.report(),
    {
        match self {
            MovaError::Lexer { message, position } => {
                let line = decimal_text(position.line);
                let character = decimal_text(position.character);
                String::from_str("Lexer error at ").concat(line.as_str()).concat(":").concat(
                    character.as_str(),
                ).concat(": ").concat(message.as_str())
            },
            MovaError::Parser(message) => String::from_str("Parser error: ").concat(
                message.as_str(),
            ),
            MovaError::Runtime(message) => String::from_str("Runtime error: ").concat(
                message.as_str(),
            ),
        }
    }
}

} // verus!
