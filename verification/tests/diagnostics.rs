use nabla_frontend::diagnostics::compile;
use nabla_frontend::eval::Value;
use nabla_frontend::lexer::lex;
use nabla_frontend::position::{text_range, Pos, PosRange};

#[test]
fn a_text_without_errors() {
    let compiled = compile("def A = { a: String }\nA { a = \"x\" }");
    assert_eq!(0, compiled.diagnostics.len());
    assert_eq!(1, compiled.inits.len());
    assert_eq!(
        Value::Struct(vec![("a".to_string(), Value::String("x".to_string()))]),
        compiled.inits[0]
    );
}

#[test]
fn errors_of_every_phase_in_order() {
    let compiled = compile("let a = 1.\nlet = 2\nlet b = c");
    let messages: Vec<(PosRange, String)> = compiled
        .diagnostics
        .into_iter()
        .map(|diagnostic| (diagnostic.range, diagnostic.message))
        .collect();
    let at = |line: usize, from: usize, to: usize| PosRange {
        start: Pos { line, char: from },
        end: Pos { line, char: to },
    };
    assert_eq!(
        vec![
            (at(0, 10, 10), "missing decimals".to_string()),
            (at(1, 0, 3), "expected ident".to_string()),
            (at(2, 8, 9), "`c` is not defined".to_string()),
            (at(2, 8, 9), "`c` is not defined".to_string()),
            (
                at(2, 0, 9),
                "let statement must be fully initialized".to_string()
            ),
        ],
        messages
    );
}

#[test]
fn text_of_a_range_of_tokens() {
    let tokens = lex("let a = 1");
    assert_eq!(0..5, text_range(&tokens, &(0..2)));
    assert_eq!(4..9, text_range(&tokens, &(2..6)));
    assert_eq!(8..9, text_range(&tokens, &(6..6)));
    assert_eq!(9..9, text_range(&tokens, &(7..7)));
    assert_eq!(9..9, text_range(&tokens, &(20..30)));
    assert_eq!(4..4, text_range(&tokens, &(2..0)));
    assert_eq!(0..0, text_range(&[], &(0..1)));
}
