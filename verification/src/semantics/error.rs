//! Semantic errors.

use crate::token::{ToTokenRange, TokenRange};
use vstd::prelude::*;
use vstd::string::*;

verus! {

/// Semantic error message
#[derive(Clone, Debug, PartialEq, Eq)]
pub enum ErrorMessage {
    AliasMustBeString,
    AliasMustBeIdent,
    AliasingNonSingle,
    DuplicateField(String),
    DuplicateUse(String),
    ImmutableLet(String),
    MissingField(String),
    MultipleListTypes,
    MultipleInits,
    RecursiveInit,
    Redeclaration(String),
    SelfReference(String),
    TypeMismatch,
    UndefinedIdent(String),
    UnexpectedField(String),
    UnexpectedListElement,
    UninitializedDefault,
    UnassignedField,
    UntypedField,
    UninitializedLet,
    UninitializedInit,
    UnknownType,
    Unsupported(String),
    ValueMismatch(String, String),
}

/// The mathematical content of an [`ErrorMessage`].
pub ghost enum ErrorMessageView {
    AliasMustBeString,
    AliasMustBeIdent,
    AliasingNonSingle,
    DuplicateField(Seq<char>),
    DuplicateUse(Seq<char>),
    ImmutableLet(Seq<char>),
    MissingField(Seq<char>),
    MultipleListTypes,
    MultipleInits,
    RecursiveInit,
    Redeclaration(Seq<char>),
    SelfReference(Seq<char>),
    TypeMismatch,
    UndefinedIdent(Seq<char>),
    UnexpectedField(Seq<char>),
    UnexpectedListElement,
    UninitializedDefault,
    UnassignedField,
    UntypedField,
    UninitializedLet,
    UninitializedInit,
    UnknownType,
    Unsupported(Seq<char>),
    ValueMismatch(Seq<char>, Seq<char>),
}

impl View for ErrorMessage {
    type V = ErrorMessageView;

    open spec fn view(&self) -> ErrorMessageView {
        match self {
            ErrorMessage::AliasMustBeString => ErrorMessageView::AliasMustBeString,
            ErrorMessage::AliasMustBeIdent => ErrorMessageView::AliasMustBeIdent,
            ErrorMessage::AliasingNonSingle => ErrorMessageView::AliasingNonSingle,
            ErrorMessage::DuplicateField(s) => ErrorMessageView::DuplicateField(s@),
            ErrorMessage::DuplicateUse(s) => ErrorMessageView::DuplicateUse(s@),
            ErrorMessage::ImmutableLet(s) => ErrorMessageView::ImmutableLet(s@),
            ErrorMessage::MissingField(s) => ErrorMessageView::MissingField(s@),
            ErrorMessage::MultipleListTypes => ErrorMessageView::MultipleListTypes,
            ErrorMessage::MultipleInits => ErrorMessageView::MultipleInits,
            ErrorMessage::RecursiveInit => ErrorMessageView::RecursiveInit,
            ErrorMessage::Redeclaration(s) => ErrorMessageView::Redeclaration(s@),
            ErrorMessage::SelfReference(s) => ErrorMessageView::SelfReference(s@),
            ErrorMessage::TypeMismatch => ErrorMessageView::TypeMismatch,
            ErrorMessage::UndefinedIdent(s) => ErrorMessageView::UndefinedIdent(s@),
            ErrorMessage::UnexpectedField(s) => ErrorMessageView::UnexpectedField(s@),
            ErrorMessage::UnexpectedListElement => ErrorMessageView::UnexpectedListElement,
            ErrorMessage::UninitializedDefault => ErrorMessageView::UninitializedDefault,
            ErrorMessage::UnassignedField => ErrorMessageView::UnassignedField,
            ErrorMessage::UntypedField => ErrorMessageView::UntypedField,
            ErrorMessage::UninitializedLet => ErrorMessageView::UninitializedLet,
            ErrorMessage::UninitializedInit => ErrorMessageView::UninitializedInit,
            ErrorMessage::UnknownType => ErrorMessageView::UnknownType,
            ErrorMessage::Unsupported(s) => ErrorMessageView::Unsupported(s@),
            ErrorMessage::ValueMismatch(t, v) => ErrorMessageView::ValueMismatch(t@, v@),
        }
    }
}

/// Semantic error: a message and the token range where it occurred.
#[derive(Clone, Debug, PartialEq, Eq)]
pub struct Error {
    pub message: ErrorMessage,
    pub range: TokenRange,
}

/// The mathematical content of an [`Error`].
pub ghost struct ErrorView {
    pub message: ErrorMessageView,
    pub range: TokenRange,
}

impl View for Error {
    type V = ErrorView;

    open spec fn view(&self) -> ErrorView {
        ErrorView { message: self.message@, range: self.range }
    }
}

/// The contents of a list of errors.
pub open spec fn errors_model(errors: Seq<Error>) -> Seq<ErrorView> {
    Seq::new(errors.len(), |i: int| errors[i]@)
}

/// Whether the range of every error ends no earlier than it starts, and
/// within the first `n` tokens.
pub open spec fn views_within(errors: Seq<ErrorView>, n: int) -> bool {
    forall|i: int|
        0 <= i < errors.len() ==> (#[trigger] errors[i]).range.start <= errors[i].range.end <= n
}

/// Whether the range of every error ends no earlier than it starts, and
/// within the first `n` tokens.
pub open spec fn errors_within(errors: Seq<Error>, n: int) -> bool {
    views_within(errors_model(errors), n)
}

impl ToTokenRange for Error {
    open spec fn spec_token_range(&self) -> TokenRange {
        self.range
    }

    fn to_token_range(&self) -> (r: TokenRange) {
        self.range.clone()
    }
}

impl Error {
    pub fn new(message: ErrorMessage, range: TokenRange) -> (r: Self)
        ensures
            r.message == message,
            r.range == range,
    {
        Self { message, range }
    }
}

impl ErrorMessageView {
    /// The words before, between and after the names that a message
    /// holds.
    pub open spec fn text(self) -> Seq<char> {
        match self {
            ErrorMessageView::AliasMustBeString => "alias must be a string"@,
            ErrorMessageView::AliasMustBeIdent => "alias must be an identifier"@,
            ErrorMessageView::AliasingNonSingle => "only single use items can be aliased"@,
            ErrorMessageView::DuplicateField(name) => "duplicate field: `"@ + name + "`"@,
            ErrorMessageView::DuplicateUse(name) => "duplicate use: `"@ + name + "`"@,
            ErrorMessageView::ImmutableLet(name) => "`"@ + name + "` is immutable"@,
            ErrorMessageView::MissingField(name) => "missing field: `"@ + name + "`"@,
            ErrorMessageView::MultipleListTypes => "more than one type in list"@,
            ErrorMessageView::MultipleInits => "more than one initialization"@,
            ErrorMessageView::RecursiveInit => "cannot be initialize value recursively"@,
            ErrorMessageView::Redeclaration(name) => "`"@ + name + "` was alreay declared"@,
            ErrorMessageView::SelfReference(name) => "`"@ + name + "` references itself"@,
            ErrorMessageView::TypeMismatch => "types do not match"@,
            ErrorMessageView::UndefinedIdent(name) => "`"@ + name + "` is not defined"@,
            ErrorMessageView::UnexpectedField(name) => "unexpected field: `"@ + name + "`"@,
            ErrorMessageView::UnexpectedListElement => "unexpected element in list"@,
            ErrorMessageView::UninitializedDefault => "default values must be fully initialized"@,
            ErrorMessageView::UnassignedField => "this field must be assigned a value"@,
            ErrorMessageView::UntypedField => "this field must be assigned a type"@,
            ErrorMessageView::UninitializedLet => "let statement must be fully initialized"@,
            ErrorMessageView::UninitializedInit => "initialization must be fully initialized"@,
            ErrorMessageView::UnknownType => "unknown type"@,
            ErrorMessageView::Unsupported(name) => name + " is currently unsupported"@,
            ErrorMessageView::ValueMismatch(expected, actual) => "`"@ + actual
                + "` does not match type "@ + expected,
        }
    }
}

/// A name between two pieces of text.
fn quoted(before: &str, name: &String, after: &str) -> (r: String)
    ensures
        r@ == before@ + name@ + after@,
{
    let mut out = String::from_str(before);
    out.append(name.as_str());
    out.append(after);
    out
}

impl ErrorMessage {
    /// The message in words.
    pub fn to_string(&self) -> (r: String)
        ensures
            r@ == self@.text(),
    {
        match self {
            ErrorMessage::AliasMustBeString => String::from_str("alias must be a string"),
            ErrorMessage::AliasMustBeIdent => String::from_str("alias must be an identifier"),
            ErrorMessage::AliasingNonSingle => String::from_str(
                "only single use items can be aliased",
            ),
            ErrorMessage::DuplicateField(name) => quoted("duplicate field: `", name, "`"),
            ErrorMessage::DuplicateUse(name) => quoted("duplicate use: `", name, "`"),
            ErrorMessage::ImmutableLet(name) => quoted("`", name, "` is immutable"),
            ErrorMessage::MissingField(name) => quoted("missing field: `", name, "`"),
            ErrorMessage::MultipleListTypes => String::from_str("more than one type in list"),
            ErrorMessage::MultipleInits => String::from_str("more than one initialization"),
            ErrorMessage::RecursiveInit => String::from_str(
                "cannot be initialize value recursively",
            ),
            ErrorMessage::Redeclaration(name) => quoted("`", name, "` was alreay declared"),
            ErrorMessage::SelfReference(name) => quoted("`", name, "` references itself"),
            ErrorMessage::TypeMismatch => String::from_str("types do not match"),
            ErrorMessage::UndefinedIdent(name) => quoted("`", name, "` is not defined"),
            ErrorMessage::UnexpectedField(name) => quoted("unexpected field: `", name, "`"),
            ErrorMessage::UnexpectedListElement => String::from_str("unexpected element in list"),
            ErrorMessage::UninitializedDefault => String::from_str(
                "default values must be fully initialized",
            ),
            ErrorMessage::UnassignedField => String::from_str(
                "this field must be assigned a value",
            ),
            ErrorMessage::UntypedField => String::from_str("this field must be assigned a type"),
            ErrorMessage::UninitializedLet => String::from_str(
                "let statement must be fully initialized",
            ),
            ErrorMessage::UninitializedInit => String::from_str(
                "initialization must be fully initialized",
            ),
            ErrorMessage::UnknownType => String::from_str("unknown type"),
            ErrorMessage::Unsupported(name) => {
                let mut out = name.clone();
                out.append(" is currently unsupported");
                out
            },
            ErrorMessage::ValueMismatch(expected, actual) => {
                let mut out = quoted("`", actual, "` does not match type ");
                out.append(expected.as_str());
                out
            },
        }
    }
}

impl Error {
    /// The message in words.
    pub fn to_string(&self) -> (r: String)
        ensures
            r@ == self.message@.text(),
    {
        self.message.to_string()
    }
}

} // verus!
