//! From byte offsets to lines and columns, for messages to the user.

use crate::token::{TextRange, Token, TokenRange};
use vstd::prelude::*;
use vstd::slice::*;
use vstd::string::*;

verus! {

/// A place in a text: the line and the character in the line, both
/// counted from 0.
#[derive(Clone, Copy, Debug, PartialEq, Eq)]
pub struct Pos {
    pub line: usize,
    pub char: usize,
}

/// The places at which a range of a text starts and ends.
#[derive(Clone, Copy, Debug, PartialEq, Eq)]
pub struct PosRange {
    pub start: Pos,
    pub end: Pos,
}

/// The number of line feeds among the first `pos` bytes.
pub open spec fn spec_line(bytes: Seq<u8>, pos: int) -> int
    decreases pos,
{
    if pos <= 0 || pos > bytes.len() {
        0
    } else if bytes[pos - 1] == 0x0a {
        spec_line(bytes, pos - 1) + 1
    } else {
        spec_line(bytes, pos - 1)
    }
}

/// The number of characters between the last line feed among the first
/// `pos` bytes and the place `pos`. A character is counted at its first
/// byte.
pub open spec fn spec_column(bytes: Seq<u8>, pos: int) -> int
    decreases pos,
{
    if pos <= 0 || pos > bytes.len() {
        0
    } else if bytes[pos - 1] == 0x0a {
        0
    } else if 0x80 <= bytes[pos - 1] <= 0xbf {
        spec_column(bytes, pos - 1)
    } else {
        spec_column(bytes, pos - 1) + 1
    }
}

/// The offset, or the length of the text if the offset lies beyond it.
pub open spec fn clamp(bytes: Seq<u8>, pos: int) -> int {
    if pos > bytes.len() {
        bytes.len() as int
    } else {
        pos
    }
}

/// The place of an offset in the text.
pub open spec fn spec_pos(bytes: Seq<u8>, pos: int) -> Pos {
    Pos {
        line: spec_line(bytes, clamp(bytes, pos)) as usize,
        char: spec_column(bytes, clamp(bytes, pos)) as usize,
    }
}

/// Lines and columns are no larger than the offset.
pub proof fn lemma_pos_bounds(bytes: Seq<u8>, pos: int)
    requires
        0 <= pos <= bytes.len(),
    ensures
        0 <= spec_line(bytes, pos) <= pos,
        0 <= spec_column(bytes, pos) <= pos,
    decreases pos,
{
    if pos > 0 {
        lemma_pos_bounds(bytes, pos - 1);
    }
}

/// Converts a range of byte offsets into lines and columns. The line is
/// the number of line feeds before the offset, the column the number of
/// characters since the last of them. An offset beyond the text counts
/// as the end of the text.
pub fn convert_text_range(text: &str, range: &TextRange) -> (r: PosRange)
    ensures
        r.start == spec_pos(text.spec_bytes(), range.start as int),
        r.end == spec_pos(text.spec_bytes(), range.end as int),
{
    let bytes = text.as_bytes();
    let n = bytes.len();
    let start = if range.start > n {
        n
    } else {
        range.start
    };
    let end = if range.end > n {
        n
    } else {
        range.end
    };
    let last = if start > end {
        start
    } else {
        end
    };
    let mut line: usize = 0;
    let mut column: usize = 0;
    let mut at_start = Pos { line: 0, char: 0 };
    let mut at_end = Pos { line: 0, char: 0 };
    let mut i: usize = 0;
    while i < last
        invariant
            n == bytes@.len(),
            start <= n,
            end <= n,
            last <= n,
            start <= last,
            end <= last,
            i <= last,
            line == spec_line(bytes@, i as int),
            column == spec_column(bytes@, i as int),
            i >= start ==> at_start == spec_pos(bytes@, start as int),
            i >= end ==> at_end == spec_pos(bytes@, end as int),
        decreases last - i,
    {
        proof {
            lemma_pos_bounds(bytes@, i as int);
        }
        let b = bytes[i];
        if b == 0x0a {
            line += 1;
            column = 0;
        } else if !(0x80 <= b && b <= 0xbf) {
            column += 1;
        }
        i += 1;
        if i == start {
            at_start = Pos { line, char: column };
        }
        if i == end {
            at_end = Pos { line, char: column };
        }
    }
    PosRange { start: at_start, end: at_end }
}

/// The token at `index`, or the last token where the index lies beyond
/// them.
pub open spec fn spec_token_at(tokens: Seq<Token>, index: int) -> Option<Token> {
    if 0 <= index < tokens.len() {
        Some(tokens[index])
    } else if tokens.len() > 0 {
        Some(tokens.last())
    } else {
        None
    }
}

/// The text from the start of the first token of a range to the end of
/// the token at the range's end. An end that lies before the start is
/// moved to the start.
pub open spec fn spec_text_range(tokens: Seq<Token>, range: TokenRange) -> TextRange {
    let start = match spec_token_at(tokens, range.start as int) {
        Some(token) => token.range.start,
        None => 0,
    };
    let end = match spec_token_at(tokens, range.end as int) {
        Some(token) => token.range.end,
        None => start,
    };
    if end < start {
        start..start
    } else {
        start..end
    }
}

fn token_at<'a>(tokens: &'a [Token], index: usize) -> (r: Option<&'a Token>)
    ensures
        r.is_some() == spec_token_at(tokens@, index as int).is_some(),
        r matches Some(token) ==> Some(*token) == spec_token_at(tokens@, index as int),
{
    let n = tokens.len();
    if index < n {
        Some(&tokens[index])
    } else if n > 0 {
        Some(&tokens[n - 1])
    } else {
        None
    }
}

/// The text that a range of tokens spans, for a message on those tokens.
pub fn text_range(tokens: &[Token], range: &TokenRange) -> (r: TextRange)
    ensures
        r == spec_text_range(tokens@, *range),
        r.start <= r.end,
{
    let start = match token_at(tokens, range.start) {
        Some(token) => token.range.start,
        None => 0,
    };
    let end = match token_at(tokens, range.end) {
        Some(token) => token.range.end,
        None => start,
    };
    if end < start {
        start..start
    } else {
        start..end
    }
}

} // verus!
