//! Structured diagnostics shared by every stage.
//!
//! Each variant carries the spans needed to annotate the offending
//! source; rendering them into human-readable text is the business of an
//! external collaborator, which only needs [`Error::message`] and the
//! spans.

use vstd::prelude::*;

use crate::span::Span;

verus! {

/// Errors of the tokenizer.
#[derive(Debug, Clone, PartialEq, Eq)]
pub enum LexicalError {
    /// An integer literal does not fit an unsigned machine integer.
    InvalidInteger(Span),
    /// A byte that starts no token.
    InvalidToken(Span),
}

/// Errors of parsing, validation and derivation.
#[derive(Debug, Clone, PartialEq)]
pub enum Error {
    /// The parser met a token it did not expect; `expect` describes what
    /// would have been accepted.
    UnrecognizedToken { span: Span, expect: String },
    /// A token follows a complete grammar.
    ExtraToken { span: Span },
    /// The input ended before the grammar was complete.
    UnrecognizedEof { span: Span, expect: String },
    /// A right-hand side references a non-terminal that no rule defines.
    UndefinedNonTerminal { span: Span },
    /// Two rules share the same left-hand identifier and type tag.
    DuplicatedRules { span: Span, prev: Span },
    /// A bounded invoke limit has `min > max`.
    InvalidRepeatRange { span: Span },
    /// Rules not reachable from the chosen start symbol (strict check).
    UnreachableRules { spans: Vec<Span> },
    /// A strongly connected component that can never produce a terminal
    /// (strict check).
    TrapLoop { spans: Vec<Span> },
    /// A pattern literal failed to compile.
    InvalidRegex { span: Span },
    /// An error of the tokenizer.
    LexicalError(LexicalError),
    /// During derivation, no alternative of the named non-terminal was
    /// still selectable.
    NoCandidatesAvailable { name: String },
    /// A derivation attempt hit its step ceiling.
    MaxStepsExceeded,
}

/// The message of a diagnostic, as `message` renders it.
pub open spec fn msg_of(e: Error) -> Seq<char> {
    match e {
        Error::UnrecognizedToken { .. } => "Unrecognized token"@,
        Error::ExtraToken { .. } => "Unexpected extra token"@,
        Error::UnrecognizedEof { .. } => "Unrecognized EOF"@,
        Error::UndefinedNonTerminal { .. } => "Undefined non-terminal"@,
        Error::DuplicatedRules { .. } => "Duplicated rules found"@,
        Error::InvalidRepeatRange { .. } => "Invalid repeat range"@,
        Error::UnreachableRules { .. } => "Found unreachable rules"@,
        Error::TrapLoop { .. } => "May be trapped in a dead loop"@,
        Error::InvalidRegex { .. } => "Invalid regex"@,
        Error::LexicalError(le) => match le {
            LexicalError::InvalidInteger(_) => "Invalid integer"@,
            LexicalError::InvalidToken(_) => "Invalid token"@,
        },
        Error::NoCandidatesAvailable { name } => "No candidates available for non-terminal `"@
            + name@ + "`"@,
        Error::MaxStepsExceeded => "Maximum steps exceeded"@,
    }
}

impl Error {
    /// A short human-readable description of the error kind.
    pub fn message(&self) -> (r: String)
        ensures
            r@ == msg_of(*self),
    {
        match self {
            Error::UnrecognizedToken { .. } => String::from_str("Unrecognized token"),
            Error::ExtraToken { .. } => String::from_str("Unexpected extra token"),
            Error::UnrecognizedEof { .. } => String::from_str("Unrecognized EOF"),
            Error::UndefinedNonTerminal { .. } => String::from_str("Undefined non-terminal"),
            Error::DuplicatedRules { .. } => String::from_str("Duplicated rules found"),
            Error::InvalidRepeatRange { .. } => String::from_str("Invalid repeat range"),
            Error::UnreachableRules { .. } => String::from_str("Found unreachable rules"),
            Error::TrapLoop { .. } => String::from_str("May be trapped in a dead loop"),
            Error::InvalidRegex { .. } => String::from_str("Invalid regex"),
            Error::LexicalError(e) => match e {
                LexicalError::InvalidInteger(_) => String::from_str("Invalid integer"),
                LexicalError::InvalidToken(_) => String::from_str("Invalid token"),
            },
            Error::NoCandidatesAvailable { name } => {
                let mut s = String::from_str("No candidates available for non-terminal `");
                s.append(name.as_str());
                s.append("`");
                s
            },
            Error::MaxStepsExceeded => String::from_str("Maximum steps exceeded"),
        }
    }
}

/// Result type used across the library.
pub type Result<T> = core::result::Result<T, Error>;

} // verus!
