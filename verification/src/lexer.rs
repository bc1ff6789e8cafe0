//! The lexer: from source text to tokens. Every byte of the source
//! belongs to exactly one token; what cannot be lexed becomes an
//! `Unknown` token with an error attached.

use crate::token::{tokens_model, Error, ErrorMessage, KindModel, Token, TokenModel, TokenType};
use vstd::prelude::*;
use vstd::slice::*;
use vstd::string::*;
use vstd::utf8::*;

verus! {

/// `nom::character::is_alphanumeric`: whether a byte is an ASCII letter
/// or an ASCII digit.
pub assume_specification[ nom::character::is_alphanumeric ](chr: u8) -> (r: bool)
    ensures
        r == is_alphanumeric_byte(chr),
;

/// `nom::character::is_digit`: whether a byte is an ASCII digit.
pub assume_specification[ nom::character::is_digit ](chr: u8) -> (r: bool)
    ensures
        r == is_digit_byte(chr),
;

/// Whether a byte is an ASCII digit.
pub open spec fn is_digit_byte(b: u8) -> bool {
    0x30 <= b <= 0x39
}

/// Whether a byte is an ASCII letter or an ASCII digit.
pub open spec fn is_alphanumeric_byte(b: u8) -> bool {
    (0x41 <= b <= 0x5a) || (0x61 <= b <= 0x7a) || (0x30 <= b <= 0x39)
}

/// Whether a byte can stand in an identifier: a letter, a digit or an
/// underscore.
pub open spec fn is_ident_byte(b: u8) -> bool {
    is_alphanumeric_byte(b) || b == 0x5f
}

/// Where the digits that start at `pos` end.
pub open spec fn digits_end(bytes: Seq<u8>, pos: int) -> int
    decreases bytes.len() - pos,
{
    if 0 <= pos < bytes.len() && is_digit_byte(bytes[pos]) {
        digits_end(bytes, pos + 1)
    } else {
        pos
    }
}

/// Where the identifier bytes that start at `pos` end.
pub open spec fn ident_end(bytes: Seq<u8>, pos: int) -> int
    decreases bytes.len() - pos,
{
    if 0 <= pos < bytes.len() && is_ident_byte(bytes[pos]) {
        ident_end(bytes, pos + 1)
    } else {
        pos
    }
}

/// The first place from `pos` on that holds the byte; the length of the
/// text if there is none.
pub open spec fn find_byte(bytes: Seq<u8>, pos: int, byte: u8) -> int
    decreases bytes.len() - pos,
{
    if 0 <= pos < bytes.len() && bytes[pos] != byte {
        find_byte(bytes, pos + 1, byte)
    } else {
        pos
    }
}

/// The number of bytes of the character whose encoding starts with the
/// byte.
pub open spec fn scalar_width(b: u8) -> int {
    if b <= 0x7f {
        1
    } else if 0xc0 <= b <= 0xdf {
        2
    } else if 0xe0 <= b <= 0xef {
        3
    } else {
        4
    }
}

/// The number of bytes of the whitespace character at `pos`; 0 if there
/// is none. The whitespace characters are those of Unicode: U+0009 to
/// U+000D, U+0020, U+0085, U+00A0, U+1680, U+2000 to U+200A, U+2028,
/// U+2029, U+202F, U+205F and U+3000.
pub open spec fn whitespace_width(bytes: Seq<u8>, pos: int) -> int {
    if !(0 <= pos < bytes.len()) {
        0
    } else if (0x09 <= bytes[pos] <= 0x0d) || bytes[pos] == 0x20 {
        1
    } else if pos + 1 < bytes.len() && bytes[pos] == 0xc2 && (bytes[pos + 1] == 0x85 || bytes[pos
        + 1] == 0xa0) {
        2
    } else if pos + 2 < bytes.len() && ((bytes[pos] == 0xe1 && bytes[pos + 1] == 0x9a && bytes[pos
        + 2] == 0x80) || (bytes[pos] == 0xe2 && bytes[pos + 1] == 0x80 && ((0x80 <= bytes[pos + 2]
        <= 0x8a) || bytes[pos + 2] == 0xa8 || bytes[pos + 2] == 0xa9 || bytes[pos + 2] == 0xaf))
        || (bytes[pos] == 0xe2 && bytes[pos + 1] == 0x81 && bytes[pos + 2] == 0x9f) || (bytes[pos]
        == 0xe3 && bytes[pos + 1] == 0x80 && bytes[pos + 2] == 0x80)) {
        3
    } else {
        0
    }
}

/// Where the whitespace that starts at `pos` ends.
pub open spec fn whitespace_end(bytes: Seq<u8>, pos: int) -> int
    decreases bytes.len() - pos,
{
    if whitespace_width(bytes, pos) > 0 {
        whitespace_end(bytes, pos + whitespace_width(bytes, pos))
    } else {
        pos
    }
}

/// Whether the word stands at `pos`.
pub open spec fn starts_with(bytes: Seq<u8>, pos: int, word: Seq<u8>) -> bool {
    0 <= pos && pos + word.len() <= bytes.len() && bytes.subrange(pos, pos + word.len()) == word
}

/// Whether the word stands at `pos` as a keyword: no identifier byte
/// follows it.
pub open spec fn keyword_at(bytes: Seq<u8>, pos: int, word: Seq<u8>) -> bool {
    starts_with(bytes, pos, word) && (pos + word.len() == bytes.len() || !is_ident_byte(
        bytes[pos + word.len()],
    ))
}

pub open spec fn word_use() -> Seq<u8> {
    seq![0x75u8, 0x73u8, 0x65u8]
}

pub open spec fn word_def() -> Seq<u8> {
    seq![0x64u8, 0x65u8, 0x66u8]
}

pub open spec fn word_let() -> Seq<u8> {
    seq![0x6cu8, 0x65u8, 0x74u8]
}

pub open spec fn word_as() -> Seq<u8> {
    seq![0x61u8, 0x73u8]
}

pub open spec fn word_true() -> Seq<u8> {
    seq![0x74u8, 0x72u8, 0x75u8, 0x65u8]
}

pub open spec fn word_false() -> Seq<u8> {
    seq![0x66u8, 0x61u8, 0x6cu8, 0x73u8, 0x65u8]
}

pub open spec fn word_null() -> Seq<u8> {
    seq![0x6eu8, 0x75u8, 0x6cu8, 0x6cu8]
}

/// A token without errors.
pub open spec fn plain(kind: KindModel, start: int, end: int) -> TokenModel {
    TokenModel { kind, range: (start as usize)..(end as usize), errors: Seq::empty() }
}

/// A token with one error.
pub open spec fn flawed(
    kind: KindModel,
    start: int,
    end: int,
    message: ErrorMessage,
    from: int,
    to: int,
) -> TokenModel {
    TokenModel {
        kind,
        range: (start as usize)..(end as usize),
        errors: seq![Error { message, range: (from as usize)..(to as usize) }],
    }
}

/// Where the content of the character literal at `pos` ends: after a
/// backslash and the character that follows it; at once, if the closing
/// quote comes first; else after one character.
pub open spec fn char_content_end(bytes: Seq<u8>, pos: int) -> int {
    if bytes[pos + 1] == 0x5c && pos + 2 < bytes.len() {
        pos + 2 + scalar_width(bytes[pos + 2])
    } else if bytes[pos + 1] == 0x27 {
        pos + 1
    } else {
        pos + 1 + scalar_width(bytes[pos + 1])
    }
}

/// The character literal at `pos`. A missing closing quote is an error
/// at the place where the quote should be.
pub open spec fn spec_char(bytes: Seq<u8>, pos: int) -> TokenModel {
    let q = char_content_end(bytes, pos);
    let content = KindModel::Char(bytes.subrange(pos + 1, q));
    if q < bytes.len() && bytes[q] == 0x27 {
        plain(content, pos, q + 1)
    } else {
        flawed(content, pos, q, ErrorMessage::MissingClosingSingleQuote, q, q)
    }
}

/// The number at `pos`: digits and, after a dot, more digits. A dot
/// without digits after it belongs to the number and is an error at the
/// place where the digits should be.
pub open spec fn spec_number(bytes: Seq<u8>, pos: int) -> TokenModel {
    let dot = digits_end(bytes, pos);
    if dot < bytes.len() && bytes[dot] == 0x2e {
        let end = digits_end(bytes, dot + 1);
        if end > dot + 1 {
            plain(KindModel::Number(bytes.subrange(pos, end)), pos, end)
        } else {
            flawed(
                KindModel::Number(bytes.subrange(pos, dot + 1)),
                pos,
                dot + 1,
                ErrorMessage::MissingDecimals,
                dot + 1,
                dot + 1,
            )
        }
    } else {
        plain(KindModel::Number(bytes.subrange(pos, dot)), pos, dot)
    }
}

/// The punctuation or keyword at `pos`, if there is one.
pub open spec fn spec_symbol(bytes: Seq<u8>, pos: int) -> Option<TokenModel> {
    let b = bytes[pos];
    if b == 0x5b {
        Some(plain(KindModel::LBracket, pos, pos + 1))
    } else if b == 0x5d {
        Some(plain(KindModel::RBracket, pos, pos + 1))
    } else if b == 0x7b {
        Some(plain(KindModel::LCurly, pos, pos + 1))
    } else if b == 0x7d {
        Some(plain(KindModel::RCurly, pos, pos + 1))
    } else if b == 0x3a && pos + 1 < bytes.len() && bytes[pos + 1] == 0x3a {
        Some(plain(KindModel::DoubleColon, pos, pos + 2))
    } else if b == 0x2a {
        Some(plain(KindModel::Star, pos, pos + 1))
    } else if b == 0x7c {
        Some(plain(KindModel::Pipe, pos, pos + 1))
    } else if b == 0x3d {
        Some(plain(KindModel::Eq, pos, pos + 1))
    } else if b == 0x3a {
        Some(plain(KindModel::Colon, pos, pos + 1))
    } else if keyword_at(bytes, pos, word_use()) {
        Some(plain(KindModel::Use, pos, pos + 3))
    } else if keyword_at(bytes, pos, word_def()) {
        Some(plain(KindModel::Def, pos, pos + 3))
    } else if keyword_at(bytes, pos, word_let()) {
        Some(plain(KindModel::Let, pos, pos + 3))
    } else if keyword_at(bytes, pos, word_as()) {
        Some(plain(KindModel::As, pos, pos + 2))
    } else if keyword_at(bytes, pos, word_true()) {
        Some(plain(KindModel::True, pos, pos + 4))
    } else if keyword_at(bytes, pos, word_false()) {
        Some(plain(KindModel::False, pos, pos + 5))
    } else if keyword_at(bytes, pos, word_null()) {
        Some(plain(KindModel::Null, pos, pos + 4))
    } else {
        None
    }
}

/// The token that starts at `pos`. The first of these that applies:
/// punctuation or a keyword; a string up to the next `"`; a character
/// literal; a number; an identifier; a comment from `//` up to the next
/// line feed, the line feed included; a run of whitespace; one character
/// that is unknown, with an error.
pub open spec fn spec_token(bytes: Seq<u8>, pos: int) -> TokenModel {
    let b = bytes[pos];
    if spec_symbol(bytes, pos) is Some {
        spec_symbol(bytes, pos)->Some_0
    } else if b == 0x22 && find_byte(bytes, pos + 1, 0x22) < bytes.len() {
        let q = find_byte(bytes, pos + 1, 0x22);
        plain(KindModel::String(bytes.subrange(pos + 1, q)), pos, q + 1)
    } else if b == 0x27 && pos + 1 < bytes.len() {
        spec_char(bytes, pos)
    } else if is_digit_byte(b) {
        spec_number(bytes, pos)
    } else if is_ident_byte(b) {
        let end = ident_end(bytes, pos);
        plain(KindModel::Ident(bytes.subrange(pos, end)), pos, end)
    } else if b == 0x2f && pos + 1 < bytes.len() && bytes[pos + 1] == 0x2f && find_byte(
        bytes,
        pos + 2,
        0x0a,
    ) < bytes.len() {
        let q = find_byte(bytes, pos + 2, 0x0a);
        plain(KindModel::Comment(bytes.subrange(pos, q + 1)), pos, q + 1)
    } else if whitespace_width(bytes, pos) > 0 {
        let end = whitespace_end(bytes, pos);
        plain(KindModel::Whitespace(bytes.subrange(pos, end)), pos, end)
    } else {
        let end = pos + scalar_width(b);
        flawed(KindModel::Unknown(bytes.subrange(pos, end)), pos, end, ErrorMessage::Unknown, pos, end)
    }
}

/// A run ends at or after its start, within the text.
proof fn lemma_runs(bytes: Seq<u8>, pos: int)
    requires
        0 <= pos <= bytes.len(),
    ensures
        pos <= digits_end(bytes, pos) <= bytes.len(),
        pos <= ident_end(bytes, pos) <= bytes.len(),
        pos <= whitespace_end(bytes, pos) <= bytes.len(),
        pos < bytes.len() && is_digit_byte(bytes[pos]) ==> pos < digits_end(bytes, pos),
        pos < bytes.len() && is_ident_byte(bytes[pos]) ==> pos < ident_end(bytes, pos),
        whitespace_width(bytes, pos) > 0 ==> pos < whitespace_end(bytes, pos),
    decreases bytes.len() - pos,
{
    if pos < bytes.len() {
        lemma_runs(bytes, pos + 1);
        let w = whitespace_width(bytes, pos);
        if w > 0 {
            lemma_runs(bytes, pos + w);
        }
    }
}

/// The place found holds the byte, or is the end of the text.
proof fn lemma_find(bytes: Seq<u8>, pos: int, byte: u8)
    requires
        0 <= pos <= bytes.len(),
    ensures
        pos <= find_byte(bytes, pos, byte) <= bytes.len(),
        find_byte(bytes, pos, byte) < bytes.len() ==> bytes[find_byte(bytes, pos, byte)] == byte,
    decreases bytes.len() - pos,
{
    if pos < bytes.len() && bytes[pos] != byte {
        lemma_find(bytes, pos + 1, byte);
    }
}

/// The tokens of the text from `pos` on: one token after the other, and
/// `Eof` at the end.
pub open spec fn spec_lex_from(bytes: Seq<u8>, pos: int) -> Seq<TokenModel>
    decreases bytes.len() - pos,
{
    if 0 <= pos < bytes.len() {
        let end = spec_token(bytes, pos).range.end as int;
        if pos < end <= bytes.len() {
            seq![spec_token(bytes, pos)] + spec_lex_from(bytes, end)
        } else {
            seq![spec_token(bytes, pos)]
        }
    } else {
        seq![plain(KindModel::Eof, pos, pos)]
    }
}

/// The tokens of a text.
pub open spec fn spec_lex(bytes: Seq<u8>) -> Seq<TokenModel> {
    spec_lex_from(bytes, 0)
}

/// After a character comes a character boundary.
pub proof fn lemma_after_scalar(bytes: Seq<u8>, pos: int)
    requires
        valid_utf8(bytes),
        is_char_boundary(bytes, pos),
        0 <= pos < bytes.len(),
    ensures
        pos + scalar_width(bytes[pos]) <= bytes.len(),
        is_char_boundary(bytes, pos + scalar_width(bytes[pos])),
    decreases bytes.len(),
{
    reveal_with_fuel(valid_utf8, 2);
    reveal_with_fuel(is_char_boundary, 2);
    let first = length_of_first_scalar(bytes);
    let rest = pop_first_scalar(bytes);
    assert(valid_first_scalar(bytes));
    assert(first == scalar_width(bytes[0]));
    if pos == 0 {
        is_char_boundary_start_end_of_seq(rest);
    } else {
        assert(pos >= first);
        lemma_after_scalar(rest, pos - first);
        assert(rest[pos - first] == bytes[pos]);
    }
}

/// Before and after an ASCII byte is a character boundary.
pub proof fn lemma_after_ascii(bytes: Seq<u8>, pos: int)
    requires
        valid_utf8(bytes),
        0 <= pos < bytes.len(),
        bytes[pos] <= 0x7f,
    ensures
        is_char_boundary(bytes, pos),
        is_char_boundary(bytes, pos + 1),
{
    is_char_boundary_iff_not_is_continuation_byte(bytes, pos);
    lemma_after_scalar(bytes, pos);
}

/// A character boundary of a text is one of each prefix that reaches
/// it and ends at a boundary.
proof fn lemma_boundary_in_prefix(bytes: Seq<u8>, start: int, end: int)
    requires
        valid_utf8(bytes),
        0 <= start <= end <= bytes.len(),
        is_char_boundary(bytes, start),
        is_char_boundary(bytes, end),
    ensures
        valid_utf8(bytes.subrange(0, end)),
        is_char_boundary(bytes.subrange(0, end), start),
{
    let prefix = bytes.subrange(0, end);
    valid_utf8_split(bytes, end);
    if start == end {
        is_char_boundary_start_end_of_seq(prefix);
    } else {
        is_char_boundary_iff_not_is_continuation_byte(bytes, start);
        is_char_boundary_iff_not_is_continuation_byte(prefix, start);
    }
}

/// The text between two character boundaries.
fn text(src: &str, start: usize, end: usize) -> (r: String)
    requires
        start <= end <= src.spec_bytes().len(),
        is_char_boundary(src.spec_bytes(), start as int),
        is_char_boundary(src.spec_bytes(), end as int),
    ensures
        encode_utf8(r@) == src.spec_bytes().subrange(start as int, end as int),
{
    proof {
        encode_utf8_valid_utf8(src@);
        lemma_boundary_in_prefix(src.spec_bytes(), start as int, end as int);
    }
    let (head, _) = src.split_at(end);
    let (_, tail) = head.split_at(start);
    assert(tail.spec_bytes() =~= src.spec_bytes().subrange(start as int, end as int));
    String::from_str(tail)
}

/// Where the digits that start at `pos` end.
fn scan_digits(bytes: &[u8], pos: usize) -> (r: usize)
    requires
        pos <= bytes@.len(),
    ensures
        r == digits_end(bytes@, pos as int),
        pos <= r <= bytes@.len(),
        forall|i: int| pos <= i < r ==> (#[trigger] bytes@[i]) <= 0x7f,
{
    let mut i = pos;
    while i < bytes.len() && nom::character::is_digit(bytes[i])
        invariant
            pos <= i <= bytes@.len(),
            digits_end(bytes@, pos as int) == digits_end(bytes@, i as int),
            forall|j: int| pos <= j < i ==> (#[trigger] bytes@[j]) <= 0x7f,
        decreases bytes@.len() - i,
    {
        i += 1;
    }
    i
}

/// Where the identifier bytes that start at `pos` end.
fn scan_ident(bytes: &[u8], pos: usize) -> (r: usize)
    requires
        pos <= bytes@.len(),
    ensures
        r == ident_end(bytes@, pos as int),
        pos <= r <= bytes@.len(),
        forall|i: int| pos <= i < r ==> (#[trigger] bytes@[i]) <= 0x7f,
{
    let mut i = pos;
    while i < bytes.len() && (nom::character::is_alphanumeric(bytes[i]) || bytes[i] == 0x5f)
        invariant
            pos <= i <= bytes@.len(),
            ident_end(bytes@, pos as int) == ident_end(bytes@, i as int),
            forall|j: int| pos <= j < i ==> (#[trigger] bytes@[j]) <= 0x7f,
        decreases bytes@.len() - i,
    {
        i += 1;
    }
    i
}

/// The first place from `pos` on that holds the byte.
fn scan_for(bytes: &[u8], pos: usize, byte: u8) -> (r: usize)
    requires
        pos <= bytes@.len(),
    ensures
        r == find_byte(bytes@, pos as int, byte),
        pos <= r <= bytes@.len(),
        r < bytes@.len() ==> bytes@[r as int] == byte,
{
    let mut i = pos;
    while i < bytes.len() && bytes[i] != byte
        invariant
            pos <= i <= bytes@.len(),
            find_byte(bytes@, pos as int, byte) == find_byte(bytes@, i as int, byte),
        decreases bytes@.len() - i,
    {
        i += 1;
    }
    i
}

/// The number of bytes of the whitespace character at `pos`; 0 if there
/// is none.
fn whitespace_at(bytes: &[u8], pos: usize) -> (r: usize)
    requires
        pos <= bytes@.len(),
    ensures
        r == whitespace_width(bytes@, pos as int),
        r > 0 ==> r == scalar_width(bytes@[pos as int]),
        pos + r <= bytes@.len(),
{
    let n = bytes.len();
    if pos >= n {
        return 0;
    }
    let b0 = bytes[pos];
    if (0x09 <= b0 && b0 <= 0x0d) || b0 == 0x20 {
        return 1;
    }
    if n - pos >= 2 {
        let b1 = bytes[pos + 1];
        if b0 == 0xc2 && (b1 == 0x85 || b1 == 0xa0) {
            return 2;
        }
        if n - pos >= 3 {
            let b2 = bytes[pos + 2];
            if (b0 == 0xe1 && b1 == 0x9a && b2 == 0x80) || (b0 == 0xe2 && b1 == 0x80 && ((0x80 <= b2
                && b2 <= 0x8a) || b2 == 0xa8 || b2 == 0xa9 || b2 == 0xaf)) || (b0 == 0xe2 && b1
                == 0x81 && b2 == 0x9f) || (b0 == 0xe3 && b1 == 0x80 && b2 == 0x80) {
                return 3;
            }
        }
    }
    0
}

/// Where the whitespace that starts at `pos` ends.
fn scan_whitespace(bytes: &[u8], pos: usize) -> (r: usize)
    requires
        pos <= bytes@.len(),
        valid_utf8(bytes@),
        is_char_boundary(bytes@, pos as int),
    ensures
        r == whitespace_end(bytes@, pos as int),
        pos <= r <= bytes@.len(),
        is_char_boundary(bytes@, r as int),
{
    let mut i = pos;
    let n = bytes.len();
    loop
        invariant
            n == bytes@.len(),
            pos <= i <= bytes@.len(),
            valid_utf8(bytes@),
            is_char_boundary(bytes@, i as int),
            whitespace_end(bytes@, pos as int) == whitespace_end(bytes@, i as int),
        decreases bytes@.len() - i,
    {
        let w = whitespace_at(bytes, i);
        if w == 0 {
            return i;
        }
        proof {
            lemma_after_scalar(bytes@, i as int);
        }
        i += w;
    }
}

/// The number of bytes of the character whose encoding starts with the
/// byte.
fn width(b: u8) -> (r: usize)
    ensures
        r == scalar_width(b),
{
    if b <= 0x7f {
        1
    } else if 0xc0 <= b && b <= 0xdf {
        2
    } else if 0xe0 <= b && b <= 0xef {
        3
    } else {
        4
    }
}

/// Whether the word stands at `pos` as a keyword.
fn keyword<const N: usize>(bytes: &[u8], pos: usize, word: &[u8; N]) -> (r: bool)
    requires
        pos <= bytes@.len(),
    ensures
        r == keyword_at(bytes@, pos as int, word@),
{
    let n = bytes.len();
    if n - pos < N {
        return false;
    }
    let mut i: usize = 0;
    while i < N
        invariant
            i <= N,
            N == word@.len(),
            n == bytes@.len(),
            pos + N <= n,
            forall|j: int| 0 <= j < i ==> bytes@[pos + j] == (#[trigger] word@[j]),
        decreases N - i,
    {
        if bytes[pos + i] != word[i] {
            assert(bytes@.subrange(pos as int, pos + N)[i as int] != word@[i as int]);
            return false;
        }
        i += 1;
    }
    assert(bytes@.subrange(pos as int, pos + N) =~= word@);
    if pos + N == n {
        true
    } else {
        let b = bytes[pos + N];
        !(nom::character::is_alphanumeric(b) || b == 0x5f)
    }
}

/// The punctuation or keyword at `pos`, if there is one, and its length.
fn symbol(bytes: &[u8], pos: usize) -> (r: Option<(TokenType, usize)>)
    requires
        pos < bytes@.len(),
    ensures
        r.is_some() == spec_symbol(bytes@, pos as int).is_some(),
        r matches Some((kind, n)) ==> plain(kind@, pos as int, pos + n) == spec_symbol(
            bytes@,
            pos as int,
        )->Some_0 && 1 <= n && pos + n <= bytes@.len() && forall|i: int|
            pos <= i < pos + n ==> (#[trigger] bytes@[i]) <= 0x7f,
{
    let b = bytes[pos];
    if b == 0x5b {
        Some((TokenType::LBracket, 1))
    } else if b == 0x5d {
        Some((TokenType::RBracket, 1))
    } else if b == 0x7b {
        Some((TokenType::LCurly, 1))
    } else if b == 0x7d {
        Some((TokenType::RCurly, 1))
    } else if b == 0x3a && bytes.len() - pos >= 2 && bytes[pos + 1] == 0x3a {
        Some((TokenType::DoubleColon, 2))
    } else if b == 0x2a {
        Some((TokenType::Star, 1))
    } else if b == 0x7c {
        Some((TokenType::Pipe, 1))
    } else if b == 0x3d {
        Some((TokenType::Eq, 1))
    } else if b == 0x3a {
        Some((TokenType::Colon, 1))
    } else if keyword(bytes, pos, &[0x75u8, 0x73u8, 0x65u8]) {
        proof {
            lemma_word_ascii(bytes@, pos as int, word_use());
        }
        Some((TokenType::Use, 3))
    } else if keyword(bytes, pos, &[0x64u8, 0x65u8, 0x66u8]) {
        proof {
            lemma_word_ascii(bytes@, pos as int, word_def());
        }
        Some((TokenType::Def, 3))
    } else if keyword(bytes, pos, &[0x6cu8, 0x65u8, 0x74u8]) {
        proof {
            lemma_word_ascii(bytes@, pos as int, word_let());
        }
        Some((TokenType::Let, 3))
    } else if keyword(bytes, pos, &[0x61u8, 0x73u8]) {
        proof {
            lemma_word_ascii(bytes@, pos as int, word_as());
        }
        Some((TokenType::As, 2))
    } else if keyword(bytes, pos, &[0x74u8, 0x72u8, 0x75u8, 0x65u8]) {
        proof {
            lemma_word_ascii(bytes@, pos as int, word_true());
        }
        Some((TokenType::True, 4))
    } else if keyword(bytes, pos, &[0x66u8, 0x61u8, 0x6cu8, 0x73u8, 0x65u8]) {
        proof {
            lemma_word_ascii(bytes@, pos as int, word_false());
        }
        Some((TokenType::False, 5))
    } else if keyword(bytes, pos, &[0x6eu8, 0x75u8, 0x6cu8, 0x6cu8]) {
        proof {
            lemma_word_ascii(bytes@, pos as int, word_null());
        }
        Some((TokenType::Null, 4))
    } else {
        None
    }
}

/// Where a word of ASCII bytes stands, the text holds ASCII bytes.
proof fn lemma_word_ascii(bytes: Seq<u8>, pos: int, word: Seq<u8>)
    requires
        starts_with(bytes, pos, word),
        forall|j: int| 0 <= j < word.len() ==> (#[trigger] word[j]) <= 0x7f,
    ensures
        forall|i: int| pos <= i < pos + word.len() ==> (#[trigger] bytes[i]) <= 0x7f,
{
    assert forall|i: int| pos <= i < pos + word.len() implies (#[trigger] bytes[i]) <= 0x7f by {
        assert(bytes.subrange(pos, pos + word.len())[i - pos] == bytes[i]);
        assert(word[i - pos] <= 0x7f);
    }
}

/// After a run of ASCII bytes that starts at a character boundary comes
/// a character boundary.
proof fn lemma_after_run(bytes: Seq<u8>, start: int, end: int)
    requires
        valid_utf8(bytes),
        0 <= start <= end <= bytes.len(),
        is_char_boundary(bytes, start),
        forall|i: int| start <= i < end ==> (#[trigger] bytes[i]) <= 0x7f,
    ensures
        is_char_boundary(bytes, end),
{
    if start < end {
        lemma_after_ascii(bytes, end - 1);
    }
}

/// The token that starts at `pos`.
fn next_token(src: &str, bytes: &[u8], pos: usize) -> (r: Token)
    requires
        bytes@ == src.spec_bytes(),
        pos < bytes@.len(),
        is_char_boundary(bytes@, pos as int),
    ensures
        r@ == spec_token(bytes@, pos as int),
        pos < r.range.end <= bytes@.len(),
        is_char_boundary(bytes@, r.range.end as int),
{
    proof {
        encode_utf8_valid_utf8(src@);
        lemma_runs(bytes@, pos as int);
    }
    let n = bytes.len();
    let b = bytes[pos];
    match symbol(bytes, pos) {
        Some((kind, len)) => {
            proof {
                lemma_after_run(bytes@, pos as int, pos + len);
            }
            return Token::new(kind, pos..pos + len);
        },
        None => {},
    }
    if b == 0x22 {
        let q = scan_for(bytes, pos + 1, 0x22);
        if q < n {
            proof {
                lemma_after_ascii(bytes@, pos as int);
                lemma_after_ascii(bytes@, q as int);
            }
            let content = text(src, pos + 1, q);
            return Token::new(TokenType::String(content), pos..q + 1);
        }
    }
    if b == 0x27 && n - pos >= 2 {
        proof {
            lemma_after_ascii(bytes@, pos as int);
        }
        let b1 = bytes[pos + 1];
        let q = if b1 == 0x5c && n - pos >= 3 {
            proof {
                lemma_after_ascii(bytes@, pos + 1);
                lemma_after_scalar(bytes@, pos + 2);
            }
            pos + 2 + width(bytes[pos + 2])
        } else if b1 == 0x27 {
            pos + 1
        } else {
            proof {
                lemma_after_scalar(bytes@, pos + 1);
            }
            pos + 1 + width(b1)
        };
        let content = text(src, pos + 1, q);
        if q < n && bytes[q] == 0x27 {
            proof {
                lemma_after_ascii(bytes@, q as int);
            }
            return Token::new(TokenType::Char(content), pos..q + 1);
        } else {
            return Token::new(TokenType::Char(content), pos..q).append_error(
                Error::new(ErrorMessage::MissingClosingSingleQuote, q..q),
            );
        }
    }
    if nom::character::is_digit(b) {
        let dot = scan_digits(bytes, pos);
        proof {
            lemma_after_run(bytes@, pos as int, dot as int);
        }
        if dot < n && bytes[dot] == 0x2e {
            let end = scan_digits(bytes, dot + 1);
            proof {
                lemma_after_ascii(bytes@, dot as int);
                lemma_after_run(bytes@, dot + 1, end as int);
            }
            if end > dot + 1 {
                return Token::new(TokenType::Number(text(src, pos, end)), pos..end);
            } else {
                return Token::new(TokenType::Number(text(src, pos, dot + 1)), pos..dot + 1).append_error(
                    Error::new(ErrorMessage::MissingDecimals, dot + 1..dot + 1),
                );
            }
        } else {
            return Token::new(TokenType::Number(text(src, pos, dot)), pos..dot);
        }
    }
    if nom::character::is_alphanumeric(b) || b == 0x5f {
        let end = scan_ident(bytes, pos);
        proof {
            lemma_after_run(bytes@, pos as int, end as int);
        }
        return Token::new(TokenType::Ident(text(src, pos, end)), pos..end);
    }
    if b == 0x2f && n - pos >= 2 && bytes[pos + 1] == 0x2f {
        let q = scan_for(bytes, pos + 2, 0x0a);
        if q < n {
            proof {
                lemma_after_ascii(bytes@, q as int);
            }
            return Token::new(TokenType::Comment(text(src, pos, q + 1)), pos..q + 1);
        }
    }
    if whitespace_at(bytes, pos) > 0 {
        let end = scan_whitespace(bytes, pos);
        return Token::new(TokenType::Whitespace(text(src, pos, end)), pos..end);
    }
    proof {
        lemma_after_scalar(bytes@, pos as int);
    }
    let end = pos + width(b);
    Token::new(TokenType::Unknown(text(src, pos, end)), pos..end).append_error(
        Error::new(ErrorMessage::Unknown, pos..end),
    )
}

/// Tokenizes the source text. The tokens cover the text from its first
/// byte to its last, in order, and end with `Eof`. Lexing never fails:
/// errors are attached to the tokens they belong to.
pub fn lex(src: &str) -> (tokens: Vec<Token>)
    ensures
        tokens_model(tokens@) == spec_lex(src.spec_bytes()),
        covers(src.spec_bytes(), tokens_model(tokens@), 0),
{
    let bytes = src.as_bytes();
    let n = bytes.len();
    proof {
        lemma_range_coverage(src);
    }
    let mut tokens: Vec<Token> = Vec::new();
    let mut pos: usize = 0;
    proof {
        encode_utf8_valid_utf8(src@);
        is_char_boundary_start_end_of_seq(bytes@);
        assert(tokens_model(tokens@) + spec_lex_from(bytes@, 0) =~= spec_lex_from(bytes@, 0));
    }
    while pos < n
        invariant
            n == bytes@.len(),
            bytes@ == src.spec_bytes(),
            pos <= n,
            is_char_boundary(bytes@, pos as int),
            spec_lex(bytes@) == tokens_model(tokens@) + spec_lex_from(bytes@, pos as int),
        decreases n - pos,
    {
        let ghost before = tokens_model(tokens@);
        let token = next_token(src, bytes, pos);
        let end = token.range.end;
        tokens.push(token);
        proof {
            assert(tokens_model(tokens@) =~= before.push(token@));
            assert(before + (seq![token@] + spec_lex_from(bytes@, end as int)) =~= before.push(
                token@,
            ) + spec_lex_from(bytes@, end as int));
        }
        pos = end;
    }
    let ghost before = tokens_model(tokens@);
    let eof = Token::new(TokenType::Eof, pos..pos);
    tokens.push(eof);
    proof {
        assert(tokens_model(tokens@) =~= before.push(eof@));
        assert(before.push(eof@) =~= before + seq![eof@]);
    }
    tokens
}

/// The errors of all tokens, in the order of the tokens.
pub open spec fn spec_errors(tokens: Seq<Token>) -> Seq<Error>
    decreases tokens.len(),
{
    if tokens.len() == 0 {
        Seq::empty()
    } else {
        spec_errors(tokens.drop_last()) + tokens.last().errors@
    }
}

/// The errors that are attached to the tokens, in the order of the
/// tokens.
pub fn lex_errors(tokens: &Vec<Token>) -> (errors: Vec<Error>)
    ensures
        errors@ == spec_errors(tokens@),
{
    let mut errors: Vec<Error> = Vec::new();
    let mut i: usize = 0;
    assert(tokens@.take(0) =~= Seq::empty());
    while i < tokens.len()
        invariant
            i <= tokens@.len(),
            errors@ == spec_errors(tokens@.take(i as int)),
        decreases tokens@.len() - i,
    {
        proof {
            assert(tokens@.take(i + 1).drop_last() =~= tokens@.take(i as int));
            assert(tokens@.take(i + 1).last() == tokens@[i as int]);
        }
        let token = &tokens[i];
        let ghost before = errors@;
        let mut k: usize = 0;
        while k < token.errors.len()
            invariant
                k <= token.errors@.len(),
                errors@ == before + token.errors@.take(k as int),
            decreases token.errors@.len() - k,
        {
            let error = &token.errors[k];
            errors.push(Error::new(error.message, error.range.start..error.range.end));
            assert(errors@ =~= before + token.errors@.take(k + 1));
            k += 1;
        }
        assert(token.errors@.take(k as int) =~= token.errors@);
        i += 1;
    }
    assert(tokens@.take(i as int) =~= tokens@);
    errors
}

/// The text of a token as it stands in the source: the fixed lexeme of
/// punctuation and keywords; a string between its quotes; a character
/// literal after its quote, and before its closing quote if it has one;
/// any other text as it is; nothing at the end of the input.
pub open spec fn lexeme(token: TokenModel) -> Seq<u8> {
    match token.kind {
        KindModel::LBracket => seq![0x5bu8],
        KindModel::RBracket => seq![0x5du8],
        KindModel::LCurly => seq![0x7bu8],
        KindModel::RCurly => seq![0x7du8],
        KindModel::DoubleColon => seq![0x3au8, 0x3au8],
        KindModel::Star => seq![0x2au8],
        KindModel::Pipe => seq![0x7cu8],
        KindModel::Eq => seq![0x3du8],
        KindModel::Colon => seq![0x3au8],
        KindModel::Use => word_use(),
        KindModel::Def => word_def(),
        KindModel::Let => word_let(),
        KindModel::As => word_as(),
        KindModel::True => word_true(),
        KindModel::False => word_false(),
        KindModel::Null => word_null(),
        KindModel::String(text) => seq![0x22u8] + text + seq![0x22u8],
        KindModel::Char(text) => if token.errors.len() == 0 {
            seq![0x27u8] + text + seq![0x27u8]
        } else {
            seq![0x27u8] + text
        },
        KindModel::Number(text) => text,
        KindModel::Ident(text) => text,
        KindModel::Whitespace(text) => text,
        KindModel::Comment(text) => text,
        KindModel::Unknown(text) => text,
        KindModel::Eof => Seq::empty(),
    }
}

/// Whether every error of a token lies within the text.
pub open spec fn errors_within(errors: Seq<Error>, len: int) -> bool {
    forall|i: int|
        0 <= i < errors.len() ==> (#[trigger] errors[i]).range.start <= errors[i].range.end
            <= len
}

/// Whether a token stands at `from` in the text: it starts there, it
/// ends within the text, the text between is its lexeme, and its errors
/// lie within the text.
pub open spec fn stands_at(bytes: Seq<u8>, token: TokenModel, from: int) -> bool {
    &&& token.range.start == from
    &&& from <= token.range.end <= bytes.len()
    &&& bytes.subrange(from, token.range.end as int) == lexeme(token)
    &&& errors_within(token.errors, bytes.len() as int)
}

/// Whether the tokens cover the text from `from` on: each token stands
/// where the one before it ends, and the last one, and only the last, is
/// `Eof` at the end of the text.
pub open spec fn covers(bytes: Seq<u8>, tokens: Seq<TokenModel>, from: int) -> bool
    decreases tokens.len(),
{
    tokens.len() > 0 && stands_at(bytes, tokens[0], from) && if tokens.len() == 1 {
        tokens[0].kind is Eof && from == bytes.len()
    } else {
        !(tokens[0].kind is Eof) && covers(bytes, tokens.drop_first(), tokens[0].range.end as int)
    }
}

/// What holds of a token that starts at `pos`: it stands there, it is
/// no `Eof`, it is not empty, and it ends at a character boundary.
pub open spec fn token_ok(bytes: Seq<u8>, token: TokenModel, pos: int) -> bool {
    &&& stands_at(bytes, token, pos)
    &&& !(token.kind is Eof)
    &&& pos < token.range.end
    &&& is_char_boundary(bytes, token.range.end as int)
}

/// What is asked of a place at which a token starts.
pub open spec fn token_start(bytes: Seq<u8>, pos: int) -> bool {
    &&& valid_utf8(bytes)
    &&& bytes.len() <= usize::MAX
    &&& 0 <= pos < bytes.len()
    &&& is_char_boundary(bytes, pos)
}

proof fn lemma_symbol_stands(bytes: Seq<u8>, pos: int)
    requires
        token_start(bytes, pos),
        spec_symbol(bytes, pos) is Some,
    ensures
        token_ok(bytes, spec_symbol(bytes, pos)->Some_0, pos),
{
    let b = bytes[pos];
    let token = spec_symbol(bytes, pos)->Some_0;
    let end = token.range.end as int;
    lemma_after_scalar(bytes, pos);
    if b == 0x3a && pos + 1 < bytes.len() && bytes[pos + 1] == 0x3a {
        lemma_after_ascii(bytes, pos + 1);
    } else if b == 0x5b || b == 0x5d || b == 0x7b || b == 0x7d || b == 0x2a || b == 0x7c || b
        == 0x3d || b == 0x3a {
    } else {
        let word = lexeme(token);
        assert(starts_with(bytes, pos, word));
        lemma_word_ascii(bytes, pos, word);
        lemma_after_run(bytes, pos, pos + word.len());
    }
    assert(bytes.subrange(pos, end) =~= lexeme(token));
}

proof fn lemma_string_stands(bytes: Seq<u8>, pos: int)
    requires
        token_start(bytes, pos),
        bytes[pos] == 0x22,
        find_byte(bytes, pos + 1, 0x22) < bytes.len(),
    ensures
        token_ok(
            bytes,
            plain(
                KindModel::String(bytes.subrange(pos + 1, find_byte(bytes, pos + 1, 0x22))),
                pos,
                find_byte(bytes, pos + 1, 0x22) + 1,
            ),
            pos,
        ),
{
    let q = find_byte(bytes, pos + 1, 0x22);
    let token = plain(KindModel::String(bytes.subrange(pos + 1, q)), pos, q + 1);
    lemma_find(bytes, pos + 1, 0x22);
    lemma_after_ascii(bytes, q);
    assert(bytes.subrange(pos, q + 1) =~= lexeme(token));
}

proof fn lemma_char_stands(bytes: Seq<u8>, pos: int)
    requires
        token_start(bytes, pos),
        bytes[pos] == 0x27,
        pos + 1 < bytes.len(),
    ensures
        token_ok(bytes, spec_char(bytes, pos), pos),
{
    let token = spec_char(bytes, pos);
    let end = token.range.end as int;
    lemma_after_ascii(bytes, pos);
    let q = char_content_end(bytes, pos);
    if bytes[pos + 1] == 0x5c && pos + 2 < bytes.len() {
        lemma_after_ascii(bytes, pos + 1);
        lemma_after_scalar(bytes, pos + 2);
    } else if bytes[pos + 1] == 0x27 {
    } else {
        lemma_after_scalar(bytes, pos + 1);
    }
    if q < bytes.len() && bytes[q] == 0x27 {
        lemma_after_ascii(bytes, q);
    }
    assert(bytes.subrange(pos, end) =~= lexeme(token));
}

proof fn lemma_number_stands(bytes: Seq<u8>, pos: int)
    requires
        token_start(bytes, pos),
        is_digit_byte(bytes[pos]),
    ensures
        token_ok(bytes, spec_number(bytes, pos), pos),
{
    let dot = digits_end(bytes, pos);
    lemma_runs(bytes, pos);
    lemma_digits_ascii(bytes, pos);
    lemma_after_run(bytes, pos, dot);
    if dot < bytes.len() && bytes[dot] == 0x2e {
        lemma_runs(bytes, dot + 1);
        lemma_after_ascii(bytes, dot);
        lemma_digits_ascii(bytes, dot + 1);
        lemma_after_run(bytes, dot + 1, digits_end(bytes, dot + 1));
    }
}

proof fn lemma_rest_stands(bytes: Seq<u8>, pos: int)
    requires
        token_start(bytes, pos),
        spec_symbol(bytes, pos) is None,
        !(bytes[pos] == 0x22 && find_byte(bytes, pos + 1, 0x22) < bytes.len()),
        !(bytes[pos] == 0x27 && pos + 1 < bytes.len()),
        !is_digit_byte(bytes[pos]),
    ensures
        token_ok(bytes, spec_token(bytes, pos), pos),
{
    let b = bytes[pos];
    lemma_runs(bytes, pos);
    lemma_after_scalar(bytes, pos);
    if is_ident_byte(b) {
        lemma_ident_ascii(bytes, pos);
        lemma_after_run(bytes, pos, ident_end(bytes, pos));
    } else if b == 0x2f && pos + 1 < bytes.len() && bytes[pos + 1] == 0x2f && find_byte(
        bytes,
        pos + 2,
        0x0a,
    ) < bytes.len() {
        let q = find_byte(bytes, pos + 2, 0x0a);
        lemma_find(bytes, pos + 2, 0x0a);
        lemma_after_ascii(bytes, q);
    } else if whitespace_width(bytes, pos) > 0 {
        lemma_whitespace_boundary(bytes, pos);
    } else {
    }
}

/// The token that starts at a character boundary stands there, is no
/// `Eof`, is not empty, and ends at a character boundary.
pub proof fn lemma_token_stands(bytes: Seq<u8>, pos: int)
    requires
        token_start(bytes, pos),
    ensures
        token_ok(bytes, spec_token(bytes, pos), pos),
{
    let b = bytes[pos];
    if spec_symbol(bytes, pos) is Some {
        lemma_symbol_stands(bytes, pos);
    } else if b == 0x22 && find_byte(bytes, pos + 1, 0x22) < bytes.len() {
        lemma_string_stands(bytes, pos);
    } else if b == 0x27 && pos + 1 < bytes.len() {
        lemma_char_stands(bytes, pos);
    } else if is_digit_byte(b) {
        lemma_number_stands(bytes, pos);
    } else {
        lemma_rest_stands(bytes, pos);
    }
}

/// The digits of a run are ASCII bytes.
proof fn lemma_digits_ascii(bytes: Seq<u8>, pos: int)
    requires
        0 <= pos <= bytes.len(),
    ensures
        forall|i: int| pos <= i < digits_end(bytes, pos) ==> (#[trigger] bytes[i]) <= 0x7f,
    decreases bytes.len() - pos,
{
    if pos < bytes.len() && is_digit_byte(bytes[pos]) {
        lemma_digits_ascii(bytes, pos + 1);
    }
}

/// The bytes of an identifier are ASCII bytes.
proof fn lemma_ident_ascii(bytes: Seq<u8>, pos: int)
    requires
        0 <= pos <= bytes.len(),
    ensures
        forall|i: int| pos <= i < ident_end(bytes, pos) ==> (#[trigger] bytes[i]) <= 0x7f,
    decreases bytes.len() - pos,
{
    if pos < bytes.len() && is_ident_byte(bytes[pos]) {
        lemma_ident_ascii(bytes, pos + 1);
    }
}

/// Whitespace that starts at a character boundary ends at one.
proof fn lemma_whitespace_boundary(bytes: Seq<u8>, pos: int)
    requires
        valid_utf8(bytes),
        0 <= pos <= bytes.len(),
        is_char_boundary(bytes, pos),
    ensures
        is_char_boundary(bytes, whitespace_end(bytes, pos)),
    decreases bytes.len() - pos,
{
    let w = whitespace_width(bytes, pos);
    if w > 0 {
        lemma_after_scalar(bytes, pos);
        lemma_whitespace_boundary(bytes, pos + w);
    }
}

/// The tokens of a text from a character boundary on cover the text
/// from there on.
pub proof fn lemma_covers_from(bytes: Seq<u8>, pos: int)
    requires
        valid_utf8(bytes),
        bytes.len() <= usize::MAX,
        0 <= pos <= bytes.len(),
        is_char_boundary(bytes, pos),
    ensures
        covers(bytes, spec_lex_from(bytes, pos), pos),
    decreases bytes.len() - pos,
{
    if pos < bytes.len() {
        lemma_token_stands(bytes, pos);
        let token = spec_token(bytes, pos);
        let end = token.range.end as int;
        lemma_covers_from(bytes, end);
        let tokens = spec_lex_from(bytes, pos);
        assert(tokens.drop_first() =~= spec_lex_from(bytes, end));
        assert(spec_lex_from(bytes, end).len() > 0);
    } else {
        assert(bytes.subrange(pos, pos) =~= Seq::<u8>::empty());
    }
}

/// Every byte of a text belongs to exactly one token: for every text
/// that fits into memory, each token of the text spans its own lexeme,
/// each token begins where the one before it ends, the first begins at
/// the first byte, and the last is `Eof` at the end of the text. The
/// range of every error lies within the text.
pub proof fn lemma_range_coverage(src: &str)
    requires
        src.spec_bytes().len() <= usize::MAX,
    ensures
        covers(src.spec_bytes(), spec_lex(src.spec_bytes()), 0),
{
    let bytes = src.spec_bytes();
    encode_utf8_valid_utf8(src@);
    is_char_boundary_start_end_of_seq(bytes);
    lemma_covers_from(bytes, 0);
}

} // verus!
