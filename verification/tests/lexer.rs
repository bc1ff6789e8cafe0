use nabla_frontend::lexer::{lex, lex_errors};
use nabla_frontend::token::{Error, ErrorMessage, Token, TokenType};

#[test]
fn empty() {
    let src = "";
    let tokens = lex(src);
    assert_eq!(vec![Token::new(TokenType::Eof, 0..0)], tokens);
}

#[test]
fn all_in_one() {
    let src = "@//abc\n \t\r\ntest 0123.456789'\\n'\"xyz\"true false use def let as :=|*::[]{}";
    let tokens = lex(src);
    assert_eq!(
        vec![
            Token::new(TokenType::Unknown("@".to_string()), 0..1)
                .append_error(Error::new(ErrorMessage::Unknown, 0..1)),
            Token::new(TokenType::Comment("//abc\n".to_string()), 1..7),
            Token::new(TokenType::Whitespace(" \t\r\n".to_string()), 7..11),
            Token::new(TokenType::Ident("test".to_string()), 11..15),
            Token::new(TokenType::Whitespace(" ".to_string()), 15..16),
            Token::new(TokenType::Number("0123.456789".to_string()), 16..27),
            Token::new(TokenType::Char("\\n".to_string()), 27..31),
            Token::new(TokenType::String("xyz".to_string()), 31..36),
            Token::new(TokenType::True, 36..40),
            Token::new(TokenType::Whitespace(" ".to_string()), 40..41),
            Token::new(TokenType::False, 41..46),
            Token::new(TokenType::Whitespace(" ".to_string()), 46..47),
            Token::new(TokenType::Use, 47..50),
            Token::new(TokenType::Whitespace(" ".to_string()), 50..51),
            Token::new(TokenType::Def, 51..54),
            Token::new(TokenType::Whitespace(" ".to_string()), 54..55),
            Token::new(TokenType::Let, 55..58),
            Token::new(TokenType::Whitespace(" ".to_string()), 58..59),
            Token::new(TokenType::As, 59..61),
            Token::new(TokenType::Whitespace(" ".to_string()), 61..62),
            Token::new(TokenType::Colon, 62..63),
            Token::new(TokenType::Eq, 63..64),
            Token::new(TokenType::Pipe, 64..65),
            Token::new(TokenType::Star, 65..66),
            Token::new(TokenType::DoubleColon, 66..68),
            Token::new(TokenType::LBracket, 68..69),
            Token::new(TokenType::RBracket, 69..70),
            Token::new(TokenType::LCurly, 70..71),
            Token::new(TokenType::RCurly, 71..72),
            Token::new(TokenType::Eof, 72..72)
        ],
        tokens
    );
}

#[test]
fn number_missing_decimals() {
    let src = "123.";
    let tokens = lex(src);
    assert_eq!(
        vec![
            Token::new(TokenType::Number("123.".to_string()), 0..4)
                .append_error(Error::new(ErrorMessage::MissingDecimals, 4..4)),
            Token::new(TokenType::Eof, 4..4),
        ],
        tokens
    );
}

#[test]
fn char_missing_single_quote() {
    let src = "'a";
    let tokens = lex(src);
    assert_eq!(
        vec![
            Token::new(TokenType::Char("a".to_string()), 0..2)
                .append_error(Error::new(ErrorMessage::MissingClosingSingleQuote, 2..2)),
            Token::new(TokenType::Eof, 2..2),
        ],
        tokens
    );
}

#[test]
fn char_escape() {
    let src = "'\\''";
    let tokens = lex(src);
    assert_eq!(
        vec![
            Token::new(TokenType::Char("\\'".to_string()), 0..4),
            Token::new(TokenType::Eof, 4..4),
        ],
        tokens
    );
}

fn kinds(src: &str) -> Vec<TokenType> {
    lex(src).into_iter().map(|token| token.token_type).collect()
}

/// The text of a token as it stands in the source.
fn lexeme(token: &Token) -> String {
    match &token.token_type {
        TokenType::String(s) => format!("\"{}\"", s),
        TokenType::Char(s) => {
            if token.errors.is_empty() {
                format!("'{}'", s)
            } else {
                format!("'{}", s)
            }
        }
        TokenType::Number(s)
        | TokenType::Ident(s)
        | TokenType::Whitespace(s)
        | TokenType::Comment(s)
        | TokenType::Unknown(s) => s.clone(),
        other => other.as_static_str().unwrap().to_string(),
    }
}

fn assert_covers(src: &str) {
    let tokens = lex(src);
    let mut at = 0;
    for token in &tokens {
        assert_eq!(at, token.range.start);
        assert!(token.range.end <= src.len());
        assert_eq!(lexeme(token), &src[token.range.clone()]);
        for error in &token.errors {
            assert!(error.range.start <= error.range.end);
            assert!(error.range.end <= src.len());
        }
        at = token.range.end;
    }
    assert_eq!(src.len(), at);
    assert_eq!(TokenType::Eof, tokens.last().unwrap().token_type);
    assert_eq!(
        1,
        tokens
            .iter()
            .filter(|token| token.token_type == TokenType::Eof)
            .count()
    );
}

#[test]
fn tokens_cover_the_source() {
    assert_covers("");
    assert_covers("def Person = { name: String  age: Number }\nPerson { name = \"Test\" }");
    assert_covers("@//abc\n \t\r\ntest 0123.456789'\\n'\"xyz\"true false use def let as :=|*::[]{}");
    assert_covers("'a");
    assert_covers("'");
    assert_covers("'\\");
    assert_covers("''");
    assert_covers("\"open");
    assert_covers("// no line feed");
    assert_covers("12.x 1. .5");
    assert_covers("h\u{e9}llo \u{2028}w\u{f6}rld \u{1f600} '\u{1f600}' '\\\u{e9}'");
    assert_covers("\u{a0}\u{1680}\u{2003}\u{3000}x");
}

#[test]
fn null_is_a_keyword() {
    assert_eq!(vec![TokenType::Null, TokenType::Eof], kinds("null"));
    assert_eq!(
        vec![TokenType::Ident("nullable".to_string()), TokenType::Eof],
        kinds("nullable")
    );
}

#[test]
fn keyword_needs_its_end() {
    assert_eq!(
        vec![TokenType::Ident("user".to_string()), TokenType::Eof],
        kinds("user")
    );
    assert_eq!(
        vec![TokenType::Ident("let_".to_string()), TokenType::Eof],
        kinds("let_")
    );
    assert_eq!(
        vec![TokenType::Ident("as1".to_string()), TokenType::Eof],
        kinds("as1")
    );
    assert_eq!(
        vec![TokenType::As, TokenType::Colon, TokenType::Eof],
        kinds("as:")
    );
    assert_eq!(
        vec![
            TokenType::True,
            TokenType::Unknown("\u{e9}".to_string()),
            TokenType::Eof
        ],
        kinds("true\u{e9}")
    );
}

#[test]
fn identifier_does_not_start_with_a_digit() {
    assert_eq!(
        vec![
            TokenType::Number("1".to_string()),
            TokenType::Ident("abc".to_string()),
            TokenType::Eof
        ],
        kinds("1abc")
    );
    assert_eq!(
        vec![TokenType::Ident("_1".to_string()), TokenType::Eof],
        kinds("_1")
    );
}

#[test]
fn string_needs_its_closing_quote() {
    let tokens = lex("\"open");
    assert_eq!(
        vec![
            Token::new(TokenType::Unknown("\"".to_string()), 0..1)
                .append_error(Error::new(ErrorMessage::Unknown, 0..1)),
            Token::new(TokenType::Ident("open".to_string()), 1..5),
            Token::new(TokenType::Eof, 5..5),
        ],
        tokens
    );
    assert_eq!(
        vec![TokenType::String("a b".to_string()), TokenType::Eof],
        kinds("\"a b\"")
    );
}

#[test]
fn comment_needs_its_line_feed() {
    assert_eq!(
        vec![
            TokenType::Unknown("/".to_string()),
            TokenType::Unknown("/".to_string()),
            TokenType::Ident("x".to_string()),
            TokenType::Eof
        ],
        kinds("//x")
    );
    assert_eq!(
        vec![TokenType::Comment("//x\n".to_string()), TokenType::Eof],
        kinds("//x\n")
    );
}

#[test]
fn character_literals() {
    assert_eq!(
        vec![
            Token::new(TokenType::Char("".to_string()), 0..2),
            Token::new(TokenType::Eof, 2..2)
        ],
        lex("''")
    );
    assert_eq!(
        vec![
            Token::new(TokenType::Unknown("'".to_string()), 0..1)
                .append_error(Error::new(ErrorMessage::Unknown, 0..1)),
            Token::new(TokenType::Eof, 1..1)
        ],
        lex("'")
    );
    assert_eq!(
        vec![
            Token::new(TokenType::Char("\\".to_string()), 0..2)
                .append_error(Error::new(ErrorMessage::MissingClosingSingleQuote, 2..2)),
            Token::new(TokenType::Eof, 2..2)
        ],
        lex("'\\")
    );
    assert_eq!(
        vec![
            Token::new(TokenType::Char("\u{1f600}".to_string()), 0..6),
            Token::new(TokenType::Eof, 6..6)
        ],
        lex("'\u{1f600}'")
    );
}

#[test]
fn unicode_whitespace_is_whitespace() {
    for c in 0..=0x11_0000u32 {
        if let Some(c) = char::from_u32(c) {
            let src = c.to_string();
            let is_whitespace = kinds(&src) == vec![TokenType::Whitespace(src.clone()), TokenType::Eof];
            assert_eq!(c.is_whitespace(), is_whitespace, "U+{:04X}", c as u32);
        }
    }
}

#[test]
fn identifier_bytes_are_ascii() {
    for b in 0..=0x7fu8 {
        let src = (b as char).to_string();
        let is_ident = kinds(&src) == vec![TokenType::Ident(src.clone()), TokenType::Eof];
        let c = b as char;
        assert_eq!(c.is_ascii_alphabetic() || c == '_', is_ident, "{:?}", c);
        let is_number = kinds(&src) == vec![TokenType::Number(src.clone()), TokenType::Eof];
        assert_eq!(c.is_ascii_digit(), is_number, "{:?}", c);
    }
    assert_eq!(
        vec![
            TokenType::Ident("a".to_string()),
            TokenType::Unknown("\u{142}".to_string()),
            TokenType::Eof
        ],
        kinds("a\u{142}")
    );
}

#[test]
fn errors_are_those_of_the_tokens() {
    let tokens = lex("@ 1. 'a");
    assert_eq!(
        vec![
            Error::new(ErrorMessage::Unknown, 0..1),
            Error::new(ErrorMessage::MissingDecimals, 4..4),
            Error::new(ErrorMessage::MissingClosingSingleQuote, 7..7),
        ],
        lex_errors(&tokens)
    );
    assert_eq!("unknown token", ErrorMessage::Unknown.to_string());
}

#[test]
fn tokens_as_text() {
    let texts: Vec<String> = lex("def x = \"a\" // c\n")
        .iter()
        .map(|token| token.to_string())
        .collect();
    assert_eq!(
        vec!["def", " ", "x", " ", "=", " ", "a", " ", "// c\n", ""],
        texts
    );
    assert_eq!("::", TokenType::DoubleColon.to_string());
    assert_eq!(Some("null"), TokenType::Null.as_static_str());
    assert_eq!(None, TokenType::Ident("x".to_string()).as_static_str());
}
