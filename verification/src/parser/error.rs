//! Syntax errors.

use crate::token::{ToTokenRange, TokenRange};
use vstd::prelude::*;
use vstd::string::*;

verus! {

/// Syntax error message
#[derive(Clone, Copy, Debug, PartialEq, Eq)]
pub enum ErrorMessage {
    ExpectedIdent,
    ExpectedUseKind,
    ExpectedEQ,
    ExpectedExpr,
    ExpectedSingle,
    MissingClosingCurly,
    MissingClosingBracket,
    TokensAfterEof,
    UnexpectedTokens,
}

/// Syntax error: a message and the token range where it occurred.
#[derive(Clone, Debug, PartialEq, Eq)]
pub struct Error {
    pub message: ErrorMessage,
    pub range: TokenRange,
}

impl ToTokenRange for Error {
    open spec fn spec_token_range(&self) -> TokenRange {
        self.range
    }

    fn to_token_range(&self) -> (r: TokenRange) {
        self.range.clone()
    }
}

impl Error {
    pub fn new(message: ErrorMessage, range: TokenRange) -> (r: Self)
        ensures
            r.message == message,
            r.range == range,
    {
        Self { message, range }
    }

    /// The message in words.
    pub fn to_string(&self) -> (r: String)
        ensures
            r@ == self.message.text(),
    {
        self.message.to_string()
    }
}

impl ErrorMessage {
    /// The message in words.
    pub open spec fn text(&self) -> Seq<char> {
        match self {
            ErrorMessage::ExpectedIdent => "expected ident"@,
            ErrorMessage::ExpectedUseKind => "expected use expression"@,
            ErrorMessage::ExpectedEQ => "expected `=`"@,
            ErrorMessage::ExpectedExpr => "expected expression"@,
            ErrorMessage::ExpectedSingle => "expected only a single expression"@,
            ErrorMessage::MissingClosingCurly => "missing closing `}`"@,
            ErrorMessage::MissingClosingBracket => "missing closing `]`"@,
            ErrorMessage::TokensAfterEof => "EOF was not the last provided token"@,
            ErrorMessage::UnexpectedTokens => "unexpected tokens"@,
        }
    }

    /// The message in words.
    pub fn to_string(&self) -> (r: String)
        ensures
            r@ == self.text(),
    {
        match self {
            ErrorMessage::ExpectedIdent => "expected ident".to_string(),
            ErrorMessage::ExpectedUseKind => "expected use expression".to_string(),
            ErrorMessage::ExpectedEQ => "expected `=`".to_string(),
            ErrorMessage::ExpectedExpr => "expected expression".to_string(),
            ErrorMessage::ExpectedSingle => "expected only a single expression".to_string(),
            ErrorMessage::MissingClosingCurly => "missing closing `}`".to_string(),
            ErrorMessage::MissingClosingBracket => "missing closing `]`".to_string(),
            ErrorMessage::TokensAfterEof => "EOF was not the last provided token".to_string(),
            ErrorMessage::UnexpectedTokens => "unexpected tokens".to_string(),
        }
    }
}

} // verus!
