use nabla_frontend::ast::{
    Ast, AstInfo, Bool, Def, Expr, Global, Ident, List, Named, Prelude, Primitive, PrimitiveValue,
    Single, Struct, StructField, StructFieldError, Union, UnionAlternative, Use, UseBody, UseItem,
    UseItemError, UseItems, UseKind,
};
use nabla_frontend::lexer::{lex, lex_errors};
use nabla_frontend::parser::{parse, Error, ErrorMessage};
use nabla_frontend::token::{self, ToTokenRange, Token, TokenRange, TokenStream, TokenType};

fn new_vec<T>(_: &Vec<T>) -> Vec<T> {
    Vec::new()
}

fn ident(name: &str, prelude_range: TokenRange, range: TokenRange) -> Ident {
    Ident {
        name: name.to_string(),
        info: AstInfo::new(Prelude::ranged(prelude_range), range),
    }
}

fn info(prelude_range: TokenRange, range: TokenRange) -> AstInfo {
    AstInfo::new(Prelude::ranged(prelude_range), range)
}

#[test]
fn tests_empty() {
    let src = "";
    let tokens = lex(src);
    let errors = lex_errors(&tokens);
    assert_eq!(new_vec(&errors), errors);
    let (program, errors) = parse(&tokens);
    assert_eq!(new_vec(&errors), errors);
    assert_eq!(
        Ast {
            globals: Vec::new(),
            info: info(0..0, 0..1),
        },
        program
    );
}

#[test]
fn token_after_eof() {
    let tokens = vec![
        Token::new(TokenType::Eof, 0..0),
        Token::new(TokenType::Eof, 0..0),
    ];
    let (_, errors) = parse(&tokens);
    assert_eq!(vec![Error::new(ErrorMessage::TokensAfterEof, 1..1)], errors);
}

#[test]
fn missing_type_expr() {
    let src = "let a: = {}";
    let tokens = lex(src);
    let errors = lex_errors(&tokens);
    assert_eq!(new_vec(&errors), errors);
    let (_, errors) = parse(&tokens);
    assert_eq!(vec![Error::new(ErrorMessage::ExpectedExpr, 4..4)], errors);
}

#[test]
fn missing_expr() {
    let src = "let a =";
    let tokens = lex(src);
    let errors = lex_errors(&tokens);
    assert_eq!(new_vec(&errors), errors);
    let (_, errors) = parse(&tokens);
    assert_eq!(vec![Error::new(ErrorMessage::ExpectedExpr, 4..4)], errors);
}

#[test]
fn missing_multiple_exprs() {
    let src = "let a: =";
    let tokens = lex(src);
    let errors = lex_errors(&tokens);
    assert_eq!(new_vec(&errors), errors);
    let (_, errors) = parse(&tokens);
    assert_eq!(
        vec![
            Error::new(ErrorMessage::ExpectedExpr, 4..4),
            Error::new(ErrorMessage::ExpectedExpr, 5..5),
        ],
        errors
    );
}

#[test]
fn use_simple() {
    let src = "use a";
    let tokens = lex(src);
    let errors = lex_errors(&tokens);
    assert_eq!(new_vec(&errors), errors);
    let (program, errors) = parse(&tokens);
    assert_eq!(new_vec(&errors), errors);
    assert_eq!(
        Ast {
            globals: vec![Global::Use(Use {
                use_kw: info(0..0, 0..1),
                name: Some(ident("a", 1..2, 2..3)),
                body: None,
                alias: None,
                info: info(0..0, 0..3),
            })],
            info: info(0..0, 0..4),
        },
        program
    );
}

#[test]
fn use_all() {
    let src = "use a::*";
    let tokens = lex(src);
    let errors = lex_errors(&tokens);
    assert_eq!(new_vec(&errors), errors);
    let (program, errors) = parse(&tokens);
    assert_eq!(new_vec(&errors), errors);
    assert_eq!(
        Ast {
            globals: vec![Global::Use(Use {
                use_kw: info(0..0, 0..1),
                name: Some(ident("a", 1..2, 2..3)),
                body: Some(UseBody {
                    double_colon: info(3..3, 3..4),
                    kind: Some(UseKind::All(info(4..4, 4..5))),
                    info: info(3..3, 3..5),
                }),
                alias: None,
                info: info(0..0, 0..5),
            })],
            info: info(0..0, 0..6),
        },
        program
    );
}

#[test]
fn use_single() {
    let src = "use a::b";
    let tokens = lex(src);
    let errors = lex_errors(&tokens);
    assert_eq!(new_vec(&errors), errors);
    let (program, errors) = parse(&tokens);
    assert_eq!(new_vec(&errors), errors);
    assert_eq!(
        Ast {
            globals: vec![Global::Use(Use {
                use_kw: info(0..0, 0..1),
                name: Some(ident("a", 1..1, 1..3)),
                body: Some(UseBody {
                    double_colon: info(3..3, 3..4),
                    kind: Some(UseKind::Single(UseItem {
                        name: ident("b", 4..4, 4..5),
                        body: None,
                        alias: None,
                        info: info(4..4, 4..5),
                    })),
                    info: info(3..3, 3..5),
                }),
                alias: None,
                info: info(0..0, 0..5),
            })],
            info: info(0..0, 0..6),
        },
        program
    );
}

#[test]
fn use_multiple() {
    let src = "use a::{b c}";
    let tokens = lex(src);
    let errors = lex_errors(&tokens);
    assert_eq!(new_vec(&errors), errors);
    let (program, errors) = parse(&tokens);
    assert_eq!(new_vec(&errors), errors);
    assert_eq!(
        Ast {
            globals: vec![Global::Use(Use {
                use_kw: info(0..0, 0..1),
                name: Some(ident("a", 1..2, 2..3)),
                body: Some(UseBody {
                    double_colon: info(3..3, 3..4),
                    kind: Some(UseKind::Multiple(UseItems {
                        lcurly: info(4..4, 4..5),
                        items: vec![
                            Ok(UseItem {
                                name: ident("b", 5..5, 5..6),
                                body: None,
                                alias: None,
                                info: info(5..5, 5..6),
                            }),
                            Ok(UseItem {
                                name: ident("c", 6..7, 7..8),
                                body: None,
                                alias: None,
                                info: info(6..7, 7..8),
                            }),
                        ],
                        rcurly: Some(info(8..8, 8..9)),
                        info: info(4..4, 4..9),
                    })),
                    info: info(3..3, 3..9),
                }),
                alias: None,
                info: info(0..0, 0..9),
            })],
            info: info(0..0, 0..10),
        },
        program
    );
}

/// The names that a use item brings in, with the alias of each.
fn item_names(item: &UseItem, path: &str, out: &mut Vec<(String, Option<String>)>) {
    let path = format!("{}::{}", path, item.name.name);
    let alias = item.alias.as_ref().map(|_| item.identifier().name.clone());
    match item.body.as_ref().and_then(|body| body.kind.as_ref()) {
        Some(UseKind::Single(inner)) => item_names(inner, &path, out),
        Some(UseKind::Multiple(items)) => {
            for inner in items.items.iter().flatten() {
                item_names(inner, &path, out);
            }
        }
        Some(UseKind::All(_)) => out.push((format!("{}::*", path), alias)),
        Some(UseKind::Error(_)) => out.push((format!("{}::?", path), alias)),
        None => out.push((path, alias)),
    }
}

#[test]
fn use_complex() {
    let src = "use a::{b::{ c::d as x e::* } f as y}";
    let tokens = lex(src);
    let errors = lex_errors(&tokens);
    assert_eq!(new_vec(&errors), errors);
    let (program, errors) = parse(&tokens);
    assert_eq!(new_vec(&errors), errors);
    assert_eq!(1, program.globals.len());
    let Global::Use(u) = &program.globals[0] else {
        panic!("a use is expected");
    };
    assert_eq!(info(0..0, 0..29), u.info);
    let Some(UseKind::Multiple(items)) = u.body.as_ref().and_then(|body| body.kind.as_ref()) else {
        panic!("items are expected");
    };
    let mut names = Vec::new();
    for item in items.items.iter().flatten() {
        item_names(item, "a", &mut names);
    }
    assert_eq!(
        vec![
            ("a::b::c::d".to_string(), Some("x".to_string())),
            ("a::b::e::*".to_string(), None),
            ("a::f".to_string(), Some("y".to_string())),
        ],
        names
    );
}

#[test]
fn def_ident() {
    let src = "def x = y";
    let tokens = lex(src);
    let errors = lex_errors(&tokens);
    assert_eq!(new_vec(&errors), errors);
    let (program, errors) = parse(&tokens);
    assert_eq!(new_vec(&errors), errors);
    assert_eq!(
        Ast {
            globals: vec![Global::Def(Def {
                def_kw: info(0..0, 0..1),
                name: Some(ident("x", 1..2, 2..3)),
                colon: None,
                type_expr: None,
                eq: Some(info(3..4, 4..5)),
                expr: Some(Expr::Single(Single::Named(Named {
                    name: ident("y", 6..6, 6..7),
                    inner_names: Vec::new(),
                    expr: None,
                    info: info(6..6, 6..7),
                }))),
                info: info(0..0, 0..7),
            })],
            info: info(0..0, 0..8),
        },
        program
    );
}

#[test]
fn def_union() {
    let src = r#"def ok = "yes" | true"#;
    let tokens = lex(src);
    let errors = lex_errors(&tokens);
    assert_eq!(new_vec(&errors), errors);
    let (program, errors) = parse(&tokens);
    assert_eq!(new_vec(&errors), errors);
    assert_eq!(
        Ast {
            globals: vec![Global::Def(Def {
                def_kw: info(0..0, 0..1),
                name: Some(ident("ok", 1..2, 2..3)),
                colon: None,
                type_expr: None,
                eq: Some(info(3..4, 4..5)),
                expr: Some(Expr::Union(Union {
                    single: Single::Primitive(Primitive::String(PrimitiveValue {
                        value: "yes".to_string(),
                        info: info(6..6, 6..7),
                    })),
                    alternatives: vec![UnionAlternative {
                        pipe: info(8..8, 8..9),
                        single: Some(Single::Primitive(Primitive::Bool(Bool::new_true(info(
                            9..10,
                            10..11
                        ))))),
                        info: info(8..8, 8..11),
                    }],
                    info: info(5..6, 6..11),
                })),
                info: info(0..0, 0..11),
            })],
            info: info(0..0, 0..12),
        },
        program
    );
}

#[test]
fn def_struct() {
    let src = "
def Person = {
    name: string
    age: number = 0
}";
    let tokens = lex(src);
    let errors = lex_errors(&tokens);
    assert_eq!(new_vec(&errors), errors);
    let (program, errors) = parse(&tokens);
    assert_eq!(new_vec(&errors), errors);
    assert_eq!(
        Ast {
            globals: vec![Global::Def(Def {
                def_kw: info(1..1, 1..2),
                name: Some(ident("Person", 2..3, 3..4)),
                colon: None,
                type_expr: None,
                eq: Some(info(4..5, 5..6)),
                expr: Some(Expr::Single(Single::Struct(Struct {
                    lcurly: info(7..7, 7..8),
                    fields: vec![
                        Ok(StructField {
                            name: ident("name", 9..9, 9..10),
                            colon: Some(info(10..10, 10..11)),
                            type_expr: Some(Expr::Single(Single::Named(Named {
                                name: ident("string", 12..12, 12..13),
                                inner_names: Vec::new(),
                                expr: None,
                                info: info(12..12, 12..13),
                            }))),
                            eq: None,
                            expr: None,
                            alias: None,
                            info: info(8..9, 9..14),
                        }),
                        Ok(StructField {
                            name: ident("age", 14..14, 14..15),
                            colon: Some(info(15..15, 15..16)),
                            type_expr: Some(Expr::Single(Single::Named(Named {
                                name: ident("number", 17..17, 17..18),
                                inner_names: Vec::new(),
                                expr: None,
                                info: info(17..17, 17..18),
                            }))),
                            eq: Some(info(19..19, 19..20)),
                            expr: Some(Expr::Single(Single::Primitive(Primitive::Number(
                                PrimitiveValue {
                                    value: "0".to_string(),
                                    info: info(21..21, 21..22),
                                }
                            )))),
                            alias: None,
                            info: info(14..14, 14..23),
                        }),
                    ],
                    rcurly: Some(info(23..23, 23..24)),
                    info: info(7..7, 7..24),
                }))),
                info: info(1..1, 1..24),
            })],
            info: info(0..1, 1..25),
        },
        program
    );
}

#[test]
fn def_list() {
    let src = "def Strings = [ string ]";
    let tokens = lex(src);
    let errors = lex_errors(&tokens);
    assert_eq!(new_vec(&errors), errors);
    let (program, errors) = parse(&tokens);
    assert_eq!(new_vec(&errors), errors);
    assert_eq!(
        Ast {
            globals: vec![Global::Def(Def {
                def_kw: info(0..0, 0..1),
                name: Some(ident("Strings", 1..2, 2..3)),
                colon: None,
                type_expr: None,
                eq: Some(info(3..4, 4..5)),
                expr: Some(Expr::Single(Single::List(List {
                    lbracket: info(6..6, 6..7),
                    exprs: vec![Expr::Single(Single::Named(Named {
                        name: ident("string", 8..8, 8..9),
                        inner_names: Vec::new(),
                        expr: None,
                        info: info(8..8, 8..9),
                    }))],
                    rbracket: Some(info(10..10, 10..11)),
                    info: info(6..6, 6..11),
                }))),
                info: info(0..0, 0..11),
            })],
            info: info(0..0, 0..12),
        },
        program
    );
}

#[test]
fn def_all_syntax() {
    let src = r#"
use other_dir::*
use dir2::{x::{y} z}
use dir3::test

def x = {
    only_type: string
    only_expr = "expr"
    type_and_expr: number = 1
    only_type_as: string as "x"
    only_expr_as = "expr" as "y"
    type_and_expr_as: number = 1 as "z"
}
"#;
    let tokens = lex(src);
    let errors = lex_errors(&tokens);
    assert_eq!(new_vec(&errors), errors);
    let (program, errors) = parse(&tokens);
    assert_eq!(new_vec(&errors), errors);
    assert_eq!(4, program.globals.len());
    assert!(matches!(program.globals[0], Global::Use(_)));
    assert!(matches!(program.globals[1], Global::Use(_)));
    assert!(matches!(program.globals[2], Global::Use(_)));
    let Global::Def(def) = &program.globals[3] else {
        panic!("a definition is expected");
    };
    let Some(Expr::Single(Single::Struct(s))) = &def.expr else {
        panic!("a struct is expected");
    };
    let fields: Vec<(&str, bool, bool, &str)> = s
        .fields
        .iter()
        .flatten()
        .map(|field| {
            (
                field.name.name.as_str(),
                field.type_expr.is_some(),
                field.expr.is_some(),
                field.emit_name(),
            )
        })
        .collect();
    assert_eq!(
        vec![
            ("only_type", true, false, "only_type"),
            ("only_expr", false, true, "only_expr"),
            ("type_and_expr", true, true, "type_and_expr"),
            ("only_type_as", true, false, "x"),
            ("only_expr_as", false, true, "y"),
            ("type_and_expr_as", true, true, "z"),
        ],
        fields
    );
    assert_eq!(s.fields.len(), fields.len());
}

#[test]
fn ignore_expr_error() {
    let src = "def x = @";
    let tokens = lex(src);
    let errors = lex_errors(&tokens);
    assert_eq!(
        vec![token::Error::new(token::ErrorMessage::Unknown, 8..9)],
        errors
    );
    let (program, errors) = parse(&tokens);
    assert_eq!(
        vec![Error::new(ErrorMessage::UnexpectedTokens, 6..7)],
        errors
    );
    let Global::Def(def) = &program.globals[0] else {
        panic!("a definition is expected");
    };
    assert_eq!(Some(Expr::Error(info(6..6, 6..7))), def.expr);
}

#[test]
fn ignore_global_error() {
    let src = "def x = {}=";
    let tokens = lex(src);
    let errors = lex_errors(&tokens);
    assert_eq!(new_vec(&errors), errors);
    let (program, errors) = parse(&tokens);
    assert_eq!(
        vec![Error::new(ErrorMessage::UnexpectedTokens, 8..9)],
        errors
    );
    assert_eq!(2, program.globals.len());
    assert!(matches!(program.globals[0], Global::Def(_)));
    assert_eq!(Global::Error(info(8..8, 8..9)), program.globals[1]);
}

#[test]
fn ignore_use_kind_error() {
    let src = "use x::{y::=}";
    let tokens = lex(src);
    let errors = lex_errors(&tokens);
    assert_eq!(new_vec(&errors), errors);
    let (program, errors) = parse(&tokens);
    assert_eq!(
        vec![Error::new(ErrorMessage::UnexpectedTokens, 7..8)],
        errors
    );
    let Global::Use(u) = &program.globals[0] else {
        panic!("a use is expected");
    };
    let Some(UseKind::Multiple(items)) = u.body.as_ref().and_then(|body| body.kind.as_ref()) else {
        panic!("items are expected");
    };
    let Ok(item) = &items.items[0] else {
        panic!("an item is expected");
    };
    let Some(UseKind::Error(skipped)) = item.body.as_ref().and_then(|body| body.kind.as_ref())
    else {
        panic!("a skipped span is expected");
    };
    assert_eq!(&info(7..7, 7..8), skipped);
}

#[test]
fn ignore_use_item_error() {
    let src = "use x::{=}";
    let tokens = lex(src);
    let errors = lex_errors(&tokens);
    assert_eq!(new_vec(&errors), errors);
    let (program, errors) = parse(&tokens);
    assert_eq!(
        vec![Error::new(ErrorMessage::UnexpectedTokens, 5..6)],
        errors
    );
    let Global::Use(u) = &program.globals[0] else {
        panic!("a use is expected");
    };
    let Some(UseKind::Multiple(items)) = u.body.as_ref().and_then(|body| body.kind.as_ref()) else {
        panic!("items are expected");
    };
    assert_eq!(
        vec![Err(UseItemError {
            info: info(5..5, 5..6)
        })],
        items.items
    );
}

#[test]
fn comma_after_field() {
    let src = "
def x = {
    test: String,
}
";
    let tokens = lex(src);
    let errors = lex_errors(&tokens);
    assert_eq!(
        vec![token::Error::new(token::ErrorMessage::Unknown, 27..28)],
        errors
    );
    let (program, errors) = parse(&tokens);
    assert_eq!(
        vec![Error::new(ErrorMessage::UnexpectedTokens, 13..14)],
        errors
    );
    let Global::Def(def) = &program.globals[0] else {
        panic!("a definition is expected");
    };
    let Some(Expr::Single(Single::Struct(s))) = &def.expr else {
        panic!("a struct is expected");
    };
    assert_eq!(2, s.fields.len());
    assert!(s.fields[0].is_ok());
    assert_eq!(
        Err(StructFieldError {
            info: info(13..13, 13..14)
        }),
        s.fields[1]
    );
}

/// Every range of the tree lies within the range of the tree, and every
/// error within the tokens.
fn assert_ranges(src: &str) {
    let tokens = lex(src);
    let (program, errors) = parse(&tokens);
    assert_eq!(0, program.info.prelude.range.start);
    assert!(program.info.range.end <= tokens.len());
    for error in &errors {
        assert!(error.range.start <= error.range.end, "{:?}", error);
        assert!(error.range.end <= tokens.len(), "{:?}", error);
    }
    for global in &program.globals {
        let info = match global {
            Global::Use(u) => &u.info,
            Global::Def(d) => &d.info,
            Global::Let(l) => &l.info,
            Global::Init(e) => e.info(),
            Global::Error(info) => info,
        };
        assert!(program.info.range.start <= info.prelude.range.start);
        assert!(info.prelude.range.start <= info.prelude.range.end);
        assert_eq!(info.prelude.range.end, info.range.start);
        assert!(info.range.start < info.range.end);
        assert!(info.range.end <= program.info.range.end);
    }
}

#[test]
fn parsing_is_total() {
    for src in [
        "",
        " ",
        "=",
        "}",
        "]",
        "|",
        ":",
        "::",
        "*",
        "as",
        "use",
        "use ::",
        "use a::",
        "use a::{",
        "use a::{b",
        "def",
        "def =",
        "def x",
        "def x:",
        "def x: =",
        "let",
        "let x = |",
        "let x = a |",
        "let x = a | |",
        "{",
        "{ a",
        "{ a:",
        "{ a =",
        "{ a as",
        "{ a as \"x\"",
        "[",
        "[ [",
        "a::",
        "a::b::",
        "a {",
        "a [",
        "1 2 3",
        "\"a\" 'b' true false null",
        "// comment\n",
        "// comment\n// more\ndef x = 1 // trailing\n",
        "@ @ @",
        "def x = @ @ }",
        "{ , , }",
        "use x::{y::=}",
        "def x = {\n    test: String,\n}\n",
    ] {
        assert_ranges(src);
    }
    let (program, errors) = parse(&[]);
    assert_eq!(
        Ast {
            globals: Vec::new(),
            info: info(0..0, 0..0)
        },
        program
    );
    assert_eq!(new_vec(&errors), errors);
    let (program, errors) = parse(&[Token::new(TokenType::Ident("a".to_string()), 0..1)]);
    assert_eq!(1, program.globals.len());
    assert_eq!(info(0..0, 0..1), program.info);
    assert_eq!(new_vec(&errors), errors);
    let (program, errors) = parse(&[Token::new(TokenType::Unknown("@".to_string()), 0..1)]);
    assert_eq!(
        vec![Global::Init(Expr::Error(info(0..0, 0..1)))],
        program.globals
    );
    assert_eq!(
        vec![Error::new(ErrorMessage::UnexpectedTokens, 0..1)],
        errors
    );
}

#[test]
fn missing_pieces() {
    let errors_of = |src: &str| parse(&lex(src)).1;
    assert_eq!(
        vec![
            Error::new(ErrorMessage::ExpectedIdent, 0..0),
            Error::new(ErrorMessage::ExpectedEQ, 0..0),
            Error::new(ErrorMessage::ExpectedExpr, 0..0),
        ],
        errors_of("def")
    );
    assert_eq!(
        vec![Error::new(ErrorMessage::ExpectedIdent, 0..0)],
        errors_of("use")
    );
    assert_eq!(
        vec![Error::new(ErrorMessage::ExpectedUseKind, 4..4)],
        errors_of("use a ::")
    );
    assert_eq!(
        vec![Error::new(ErrorMessage::ExpectedSingle, 8..8)],
        errors_of("let x = a |")
    );
    assert_eq!(
        vec![Error::new(ErrorMessage::ExpectedSingle, 8..8)],
        errors_of("let x = a | ")
    );
    assert_eq!(
        vec![Error::new(ErrorMessage::MissingClosingCurly, 0..0)],
        errors_of("{")
    );
    assert_eq!(
        vec![Error::new(ErrorMessage::MissingClosingBracket, 0..0)],
        errors_of("[ ")
    );
    assert_eq!(
        vec![Error::new(ErrorMessage::MissingClosingCurly, 5..5)],
        errors_of("use a::{b")
    );
    assert_eq!(
        vec![Error::new(ErrorMessage::ExpectedIdent, 1..1)],
        errors_of("a:: 1")
    );
    assert_eq!("expected `=`", ErrorMessage::ExpectedEQ.to_string());
}

#[test]
fn comments_belong_to_the_prelude() {
    let src = "// one\n// two\ndef x = 1";
    let (program, errors) = parse(&lex(src));
    assert_eq!(new_vec(&errors), errors);
    assert_eq!(
        vec!["// one\n".to_string(), "// two\n".to_string()],
        program.info.prelude.comments
    );
    assert_eq!(0..2, program.info.prelude.range);
    assert_eq!(2..10, program.info.range);
}

#[test]
fn named_paths() {
    let src = "a::b::c { x = 1 }";
    let (program, errors) = parse(&lex(src));
    assert_eq!(new_vec(&errors), errors);
    let Global::Init(Expr::Single(Single::Named(named))) = &program.globals[0] else {
        panic!("a name is expected");
    };
    assert_eq!(vec!["a", "b", "c"], named.names());
    let flat = named.flatten_name();
    assert_eq!("a::b::c", flat.name);
    assert_eq!(0..5, flat.info.range);
    assert!(flat.is_flattened());
    assert!(!named.name.is_flattened());
    assert!(named.expr.is_some());
    let (program, _) = parse(&lex("a:: 1"));
    let Global::Init(Expr::Single(Single::Named(named))) = &program.globals[0] else {
        panic!("a name is expected");
    };
    assert!(named.names().is_empty());
    assert_eq!("a::", named.flatten_name().name);
}

#[test]
fn cursor_over_tokens() {
    let tokens = lex("let a = 1");
    let stream = TokenStream::new(&tokens);
    assert_eq!(0, stream.location_offset());
    assert_eq!(tokens.len(), stream.input_len());
    assert_eq!(Some(&tokens[0]), stream.first_token());
    assert_eq!(0..3, stream.to_token_range());
    let (rest, taken) = stream.take_split(2);
    assert_eq!(2, rest.location_offset());
    assert_eq!(&tokens[2..], rest.tokens());
    assert_eq!(0, taken.location_offset());
    assert_eq!(&tokens[..2], taken.tokens());
    let (end, _) = rest.take_split(rest.input_len());
    assert_eq!(tokens.len(), end.location_offset());
    assert_eq!(None, end.first_token());
    assert_eq!(0..0, end.to_token_range());
    let mut first = stream.take(1);
    first.append_error(Error::new(ErrorMessage::ExpectedExpr, 0..1));
    assert_eq!(1, first.take(0).error_buffer.len());
    assert_eq!(0, stream.error_buffer.len());
}
