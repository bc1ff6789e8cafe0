//! Tokens, their kinds and the ranges by which errors refer to the source.

use vstd::prelude::*;
use vstd::slice::*;
use vstd::utf8::encode_utf8;

verus! {

/// Half-open interval of byte offsets into the source text.
pub type TextRange = std::ops::Range<usize>;

/// Half-open interval of indices into the token vector.
pub type TokenRange = std::ops::Range<usize>;

/// What spans a range of the source text.
pub trait ToTextRange {
    /// The range of the source text.
    spec fn spec_text_range(&self) -> TextRange;

    fn to_text_range(&self) -> (r: TextRange)
        ensures
            r == self.spec_text_range(),
    ;
}

/// What spans a range of tokens.
pub trait ToTokenRange {
    /// The range of tokens.
    spec fn spec_token_range(&self) -> TokenRange;

    fn to_token_range(&self) -> (r: TokenRange)
        ensures
            r == self.spec_token_range(),
    ;
}

pub const LBRACKET: &'static str = "[";
pub const RBRACKET: &'static str = "]";
pub const LCURLY: &'static str = "{";
pub const RCURLY: &'static str = "}";
pub const DOUBLE_COLON: &'static str = "::";
pub const STAR: &'static str = "*";
pub const PIPE: &'static str = "|";
pub const EQ: &'static str = "=";
pub const COLON: &'static str = ":";
pub const USE: &'static str = "use";
pub const DEF: &'static str = "def";
pub const LET: &'static str = "let";
pub const AS: &'static str = "as";
pub const TRUE: &'static str = "true";
pub const FALSE: &'static str = "false";
pub const NULL: &'static str = "null";
pub const EOF: &'static str = "";

/// The kind of a token, with the text of the token where the kind
/// does not fix it.
#[derive(Clone, Debug, PartialEq, Eq)]
pub enum TokenType {
    LBracket,
    RBracket,
    LCurly,
    RCurly,
    DoubleColon,
    Star,
    Pipe,
    Eq,
    Colon,
    Use,
    Def,
    Let,
    As,
    True,
    False,
    Null,
    String(String),
    Char(String),
    Number(String),
    Ident(String),
    Whitespace(String),
    Comment(String),
    Unknown(String),
    Eof,
}

/// The kinds of tokens, without the text that a token carries.
#[derive(Clone, Copy, Debug, PartialEq, Eq, Structural)]
pub enum TokenKind {
    LBracket,
    RBracket,
    LCurly,
    RCurly,
    DoubleColon,
    Star,
    Pipe,
    Eq,
    Colon,
    Use,
    Def,
    Let,
    As,
    True,
    False,
    Null,
    String,
    Char,
    Number,
    Ident,
    Whitespace,
    Comment,
    Unknown,
    Eof,
}

/// The mathematical content of a [`TokenType`]: the text that a kind
/// carries is given as the bytes of its encoding.
pub ghost enum KindModel {
    LBracket,
    RBracket,
    LCurly,
    RCurly,
    DoubleColon,
    Star,
    Pipe,
    Eq,
    Colon,
    Use,
    Def,
    Let,
    As,
    True,
    False,
    Null,
    String(Seq<u8>),
    Char(Seq<u8>),
    Number(Seq<u8>),
    Ident(Seq<u8>),
    Whitespace(Seq<u8>),
    Comment(Seq<u8>),
    Unknown(Seq<u8>),
    Eof,
}

impl View for TokenType {
    type V = KindModel;

    open spec fn view(&self) -> KindModel {
        match self {
            TokenType::LBracket => KindModel::LBracket,
            TokenType::RBracket => KindModel::RBracket,
            TokenType::LCurly => KindModel::LCurly,
            TokenType::RCurly => KindModel::RCurly,
            TokenType::DoubleColon => KindModel::DoubleColon,
            TokenType::Star => KindModel::Star,
            TokenType::Pipe => KindModel::Pipe,
            TokenType::Eq => KindModel::Eq,
            TokenType::Colon => KindModel::Colon,
            TokenType::Use => KindModel::Use,
            TokenType::Def => KindModel::Def,
            TokenType::Let => KindModel::Let,
            TokenType::As => KindModel::As,
            TokenType::True => KindModel::True,
            TokenType::False => KindModel::False,
            TokenType::Null => KindModel::Null,
            TokenType::String(s) => KindModel::String(encode_utf8(s@)),
            TokenType::Char(s) => KindModel::Char(encode_utf8(s@)),
            TokenType::Number(s) => KindModel::Number(encode_utf8(s@)),
            TokenType::Ident(s) => KindModel::Ident(encode_utf8(s@)),
            TokenType::Whitespace(s) => KindModel::Whitespace(encode_utf8(s@)),
            TokenType::Comment(s) => KindModel::Comment(encode_utf8(s@)),
            TokenType::Unknown(s) => KindModel::Unknown(encode_utf8(s@)),
            TokenType::Eof => KindModel::Eof,
        }
    }
}

/// The mathematical content of a [`Token`].
pub ghost struct TokenModel {
    pub kind: KindModel,
    pub range: TextRange,
    pub errors: Seq<Error>,
}

impl View for Token {
    type V = TokenModel;

    open spec fn view(&self) -> TokenModel {
        TokenModel { kind: self.token_type@, range: self.range, errors: self.errors@ }
    }
}

/// The contents of a list of tokens.
pub open spec fn tokens_model(tokens: Seq<Token>) -> Seq<TokenModel> {
    Seq::new(tokens.len(), |i: int| tokens[i]@)
}

/// Lexical error message
#[derive(Clone, Copy, Debug, PartialEq, Eq)]
pub enum ErrorMessage {
    MissingClosingSingleQuote,
    MissingDecimals,
    Unknown,
}

/// Lexical error: a message and the text range where it occurred.
#[derive(Clone, Debug, PartialEq, Eq)]
pub struct Error {
    pub message: ErrorMessage,
    pub range: TextRange,
}

/// A token: its kind, its text range and the errors found while lexing it.
#[derive(Clone, Debug, PartialEq, Eq)]
pub struct Token {
    pub token_type: TokenType,
    pub range: TextRange,
    pub errors: Vec<Error>,
}

impl ErrorMessage {
    /// The message in words.
    pub fn to_string(&self) -> (r: String)
        ensures
            r@ == self.text(),
    {
        match self {
            ErrorMessage::MissingClosingSingleQuote => "missing closing `'`".to_string(),
            ErrorMessage::MissingDecimals => "missing decimals".to_string(),
            ErrorMessage::Unknown => "unknown token".to_string(),
        }
    }

    /// The message in words.
    pub open spec fn text(&self) -> Seq<char> {
        match self {
            ErrorMessage::MissingClosingSingleQuote => "missing closing `'`"@,
            ErrorMessage::MissingDecimals => "missing decimals"@,
            ErrorMessage::Unknown => "unknown token"@,
        }
    }
}

impl ToTextRange for Token {
    open spec fn spec_text_range(&self) -> TextRange {
        self.range
    }

    fn to_text_range(&self) -> (r: TextRange) {
        self.range.clone()
    }
}

impl ToTextRange for Error {
    open spec fn spec_text_range(&self) -> TextRange {
        self.range
    }

    fn to_text_range(&self) -> (r: TextRange) {
        self.range.clone()
    }
}

impl Error {
    pub fn new(message: ErrorMessage, range: TextRange) -> (r: Self)
        ensures
            r.message == message,
            r.range == range,
    {
        Self { message, range }
    }
}

impl Token {
    pub fn new(token_type: TokenType, range: TextRange) -> (r: Self)
        ensures
            r.token_type == token_type,
            r.range == range,
            r.errors@ == Seq::<Error>::empty(),
    {
        Self { token_type, range, errors: Vec::new() }
    }

    /// The text of the token.
    pub fn to_string(&self) -> (r: String)
        ensures
            r@ == self.token_type.spec_string(),
    {
        self.token_type.to_string()
    }

    pub fn append_error(self, error: Error) -> (r: Self)
        ensures
            r.token_type == self.token_type,
            r.range == self.range,
            r.errors@ == self.errors@.push(error),
    {
        let mut errors = self.errors;
        errors.push(error);
        Self { token_type: self.token_type, range: self.range, errors }
    }
}

impl TokenType {
    /// The kind of the token, whatever text it carries.
    pub open spec fn spec_kind(&self) -> TokenKind {
        match self {
            TokenType::LBracket => TokenKind::LBracket,
            TokenType::RBracket => TokenKind::RBracket,
            TokenType::LCurly => TokenKind::LCurly,
            TokenType::RCurly => TokenKind::RCurly,
            TokenType::DoubleColon => TokenKind::DoubleColon,
            TokenType::Star => TokenKind::Star,
            TokenType::Pipe => TokenKind::Pipe,
            TokenType::Eq => TokenKind::Eq,
            TokenType::Colon => TokenKind::Colon,
            TokenType::Use => TokenKind::Use,
            TokenType::Def => TokenKind::Def,
            TokenType::Let => TokenKind::Let,
            TokenType::As => TokenKind::As,
            TokenType::True => TokenKind::True,
            TokenType::False => TokenKind::False,
            TokenType::Null => TokenKind::Null,
            TokenType::String(_) => TokenKind::String,
            TokenType::Char(_) => TokenKind::Char,
            TokenType::Number(_) => TokenKind::Number,
            TokenType::Ident(_) => TokenKind::Ident,
            TokenType::Whitespace(_) => TokenKind::Whitespace,
            TokenType::Comment(_) => TokenKind::Comment,
            TokenType::Unknown(_) => TokenKind::Unknown,
            TokenType::Eof => TokenKind::Eof,
        }
    }

    /// The kind of the token, whatever text it carries.
    pub fn kind(&self) -> (r: TokenKind)
        ensures
            r == self.spec_kind(),
    {
        match self {
            TokenType::LBracket => TokenKind::LBracket,
            TokenType::RBracket => TokenKind::RBracket,
            TokenType::LCurly => TokenKind::LCurly,
            TokenType::RCurly => TokenKind::RCurly,
            TokenType::DoubleColon => TokenKind::DoubleColon,
            TokenType::Star => TokenKind::Star,
            TokenType::Pipe => TokenKind::Pipe,
            TokenType::Eq => TokenKind::Eq,
            TokenType::Colon => TokenKind::Colon,
            TokenType::Use => TokenKind::Use,
            TokenType::Def => TokenKind::Def,
            TokenType::Let => TokenKind::Let,
            TokenType::As => TokenKind::As,
            TokenType::True => TokenKind::True,
            TokenType::False => TokenKind::False,
            TokenType::Null => TokenKind::Null,
            TokenType::String(_) => TokenKind::String,
            TokenType::Char(_) => TokenKind::Char,
            TokenType::Number(_) => TokenKind::Number,
            TokenType::Ident(_) => TokenKind::Ident,
            TokenType::Whitespace(_) => TokenKind::Whitespace,
            TokenType::Comment(_) => TokenKind::Comment,
            TokenType::Unknown(_) => TokenKind::Unknown,
            TokenType::Eof => TokenKind::Eof,
        }
    }

    /// The text that the kind carries; empty for a kind with a fixed
    /// lexeme.
    pub open spec fn spec_text(&self) -> Seq<char> {
        match self {
            TokenType::String(s) => s@,
            TokenType::Char(s) => s@,
            TokenType::Number(s) => s@,
            TokenType::Ident(s) => s@,
            TokenType::Whitespace(s) => s@,
            TokenType::Comment(s) => s@,
            TokenType::Unknown(s) => s@,
            _ => Seq::empty(),
        }
    }

    /// A copy of the text that the kind carries.
    pub fn text(&self) -> (r: String)
        ensures
            r@ == self.spec_text(),
    {
        match self {
            TokenType::String(s) => s.clone(),
            TokenType::Char(s) => s.clone(),
            TokenType::Number(s) => s.clone(),
            TokenType::Ident(s) => s.clone(),
            TokenType::Whitespace(s) => s.clone(),
            TokenType::Comment(s) => s.clone(),
            TokenType::Unknown(s) => s.clone(),
            _ => String::new(),
        }
    }

    /// The text of the token: the text that it carries, or its fixed
    /// lexeme.
    pub open spec fn spec_string(&self) -> Seq<char> {
        if self.is_static() {
            self.static_text()
        } else {
            self.spec_text()
        }
    }

    /// The text of the token: the text that it carries, or its fixed
    /// lexeme.
    pub fn to_string(&self) -> (r: String)
        ensures
            r@ == self.spec_string(),
    {
        match self.as_static_str() {
            Some(text) => text.to_string(),
            None => self.text(),
        }
    }

    /// The fixed lexeme of punctuation, keywords and the end of input;
    /// `None` for kinds that carry their text.
    pub fn as_static_str(&self) -> (r: Option<&'static str>)
        ensures
            r.is_some() == self.is_static(),
            r matches Some(s) ==> s@ == self.static_text(),
    {
        match self {
            TokenType::LBracket => Some(LBRACKET),
            TokenType::RBracket => Some(RBRACKET),
            TokenType::LCurly => Some(LCURLY),
            TokenType::RCurly => Some(RCURLY),
            TokenType::DoubleColon => Some(DOUBLE_COLON),
            TokenType::Star => Some(STAR),
            TokenType::Pipe => Some(PIPE),
            TokenType::Eq => Some(EQ),
            TokenType::Colon => Some(COLON),
            TokenType::Use => Some(USE),
            TokenType::Def => Some(DEF),
            TokenType::Let => Some(LET),
            TokenType::As => Some(AS),
            TokenType::True => Some(TRUE),
            TokenType::False => Some(FALSE),
            TokenType::Null => Some(NULL),
            TokenType::Eof => Some(EOF),
            _ => None,
        }
    }

    /// Whether the kind has a fixed lexeme.
    pub open spec fn is_static(&self) -> bool {
        !(self is String || self is Char || self is Number || self is Ident
            || self is Whitespace || self is Comment || self is Unknown)
    }

    /// The fixed lexeme of a kind that has one.
    pub open spec fn static_text(&self) -> Seq<char> {
        match self {
            TokenType::LBracket => LBRACKET@,
            TokenType::RBracket => RBRACKET@,
            TokenType::LCurly => LCURLY@,
            TokenType::RCurly => RCURLY@,
            TokenType::DoubleColon => DOUBLE_COLON@,
            TokenType::Star => STAR@,
            TokenType::Pipe => PIPE@,
            TokenType::Eq => EQ@,
            TokenType::Colon => COLON@,
            TokenType::Use => USE@,
            TokenType::Def => DEF@,
            TokenType::Let => LET@,
            TokenType::As => AS@,
            TokenType::True => TRUE@,
            TokenType::False => FALSE@,
            TokenType::Null => NULL@,
            _ => EOF@,
        }
    }
}

/// `Clone::clone` of `std::ops::Range`: the clone's bounds are clones of
/// the bounds.
pub assume_specification<Idx: Clone>[ <std::ops::Range<Idx> as Clone>::clone ](
    r: &std::ops::Range<Idx>,
) -> (res: std::ops::Range<Idx>)
    ensures
        cloned(r.start, res.start),
        cloned(r.end, res.end),
;

/// A cursor into a list of tokens: the tokens that are left, the place
/// of the first of them in the whole list, and the errors that parsing
/// has found so far.
#[derive(Debug)]
pub struct TokenStream<'a> {
    pub tokens: &'a [Token],
    pub offset: usize,
    pub error_buffer: Vec<crate::parser::Error>,
}

impl<'a> TokenStream<'a> {
    /// The tokens that are left.
    pub open spec fn spec_tokens(&self) -> Seq<Token> {
        self.tokens@
    }

    /// The place of the first token that is left in the whole list.
    pub open spec fn spec_offset(&self) -> int {
        self.offset as int
    }

    /// A cursor at the start of the tokens, without errors.
    pub fn new(tokens: &'a [Token]) -> (r: Self)
        ensures
            r.spec_tokens() == tokens@,
            r.spec_offset() == 0,
            r.error_buffer@.len() == 0,
    {
        Self { tokens, offset: 0, error_buffer: Vec::new() }
    }

    /// The first token that is left.
    pub fn first_token(&self) -> (r: Option<&Token>)
        ensures
            r.is_some() == (self.spec_tokens().len() > 0),
            r matches Some(token) ==> *token == self.spec_tokens()[0],
    {
        if self.tokens.len() > 0 {
            Some(&self.tokens[0])
        } else {
            None
        }
    }

    /// The place of the first token that is left in the whole list.
    pub fn location_offset(&self) -> (r: usize)
        ensures
            r == self.spec_offset(),
    {
        self.offset
    }

    /// The tokens that are left.
    pub fn tokens(&self) -> (r: &[Token])
        ensures
            r@ == self.spec_tokens(),
    {
        self.tokens
    }

    /// The number of tokens that are left.
    pub fn input_len(&self) -> (r: usize)
        ensures
            r == self.spec_tokens().len(),
    {
        self.tokens.len()
    }

    /// Adds an error to those found so far.
    pub fn append_error(&mut self, error: crate::parser::Error)
        ensures
            final(self).error_buffer@ == old(self).error_buffer@.push(error),
            final(self).spec_tokens() == old(self).spec_tokens(),
            final(self).spec_offset() == old(self).spec_offset(),
    {
        self.error_buffer.push(error);
    }

    /// A copy of the errors found so far.
    fn errors(&self) -> (r: Vec<crate::parser::Error>)
        ensures
            r@ == self.error_buffer@,
    {
        let mut out: Vec<crate::parser::Error> = Vec::new();
        let mut i: usize = 0;
        while i < self.error_buffer.len()
            invariant
                i <= self.error_buffer@.len(),
                out@ == self.error_buffer@.take(i as int),
            decreases self.error_buffer@.len() - i,
        {
            let error = &self.error_buffer[i];
            out.push(crate::parser::Error::new(error.message, error.range.clone()));
            assert(out@ =~= self.error_buffer@.take(i + 1));
            i += 1;
        }
        assert(self.error_buffer@.take(i as int) =~= self.error_buffer@);
        out
    }

    /// A cursor on the first `count` tokens that are left.
    pub fn take(&self, count: usize) -> (r: Self)
        requires
            count <= self.spec_tokens().len(),
        ensures
            r.spec_tokens() == self.spec_tokens().take(count as int),
            r.spec_offset() == self.spec_offset(),
            r.error_buffer@ == self.error_buffer@,
    {
        Self {
            tokens: slice_subrange(self.tokens, 0, count),
            offset: self.offset,
            error_buffer: self.errors(),
        }
    }

    /// A cursor on what is left after the first `count` tokens, and one
    /// on those tokens.
    pub fn take_split(&self, count: usize) -> (r: (Self, Self))
        requires
            count <= self.spec_tokens().len(),
            self.spec_offset() + count <= usize::MAX,
        ensures
            r.0.spec_tokens() == self.spec_tokens().skip(count as int),
            r.0.spec_offset() == self.spec_offset() + count,
            r.0.error_buffer@ == self.error_buffer@,
            r.1.spec_tokens() == self.spec_tokens().take(count as int),
            r.1.spec_offset() == self.spec_offset(),
            r.1.error_buffer@ == self.error_buffer@,
    {
        let n = self.tokens.len();
        (
            Self {
                tokens: slice_subrange(self.tokens, count, n),
                offset: self.offset + count,
                error_buffer: self.errors(),
            },
            self.take(count),
        )
    }
}

impl<'a> ToTokenRange for TokenStream<'a> {
    /// The range of the first token that is left; empty where none is.
    open spec fn spec_token_range(&self) -> TokenRange {
        if self.spec_tokens().len() > 0 {
            self.spec_tokens()[0].range
        } else {
            0..0
        }
    }

    fn to_token_range(&self) -> (r: TokenRange) {
        match self.first_token() {
            Some(token) => token.range.clone(),
            None => 0..0,
        }
    }
}

} // verus!
