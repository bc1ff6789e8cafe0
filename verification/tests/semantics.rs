use nabla_frontend::ast::{Expr, Global};
use nabla_frontend::eval::{eval, Value};
use nabla_frontend::lexer::{lex, lex_errors};
use nabla_frontend::parser::parse;
use nabla_frontend::position::{convert_text_range, Pos, PosRange};
use nabla_frontend::semantics::error::{Error, ErrorMessage};
use nabla_frontend::semantics::values::{self, ValuesResult};
use nabla_frontend::semantics::{self, namespace, types, uses, SemanticsResult, SymbolTable};
use nabla_frontend::{GlobalIdent, ModuleAst};

fn new_vec<T>(_: &Vec<T>) -> Vec<T> {
    Vec::new()
}

fn string(value: &str) -> Value {
    Value::String(value.to_string())
}

fn number(value: &str) -> Value {
    Value::Number(value.to_string())
}

fn list(values: Vec<Value>) -> Value {
    Value::List(values)
}

fn fields(fields: Vec<(&str, Value)>) -> Value {
    Value::Struct(
        fields
            .into_iter()
            .map(|(name, value)| (name.to_string(), value))
            .collect(),
    )
}

/// Whether the symbol table holds exactly the given entries.
fn assert_symbols(expected: Vec<(GlobalIdent, Value)>, symbol_table: &SymbolTable) {
    assert_eq!(expected.len(), symbol_table.len());
    for (name, value) in &expected {
        assert_eq!(Some(value), symbol_table.get(name), "{:?}", name);
    }
}

fn module(src: &str) -> ModuleAst {
    let tokens = lex(src);
    let errors = lex_errors(&tokens);
    assert_eq!(new_vec(&errors), errors);
    let (ast, errors) = parse(&tokens);
    assert_eq!(new_vec(&errors), errors);
    ModuleAst::new(GlobalIdent::default(), ast)
}

fn init(module_ast: &ModuleAst) -> &Expr {
    module_ast
        .ast
        .globals
        .iter()
        .find_map(|global| match global {
            Global::Init(init) => Some(init),
            _ => None,
        })
        .unwrap()
}

#[test]
fn empty_module() {
    let src = "";
    let module_ast = module(src);
    let SemanticsResult { errors, .. } = semantics::analyze(&module_ast);
    assert_eq!(new_vec(&errors), errors);
}

#[test]
fn no_duplicate_use() {
    let src = "
use a
use b::{c d::e}
use f::g as h
";
    let module_ast = module(src);
    let (_, errors) = uses::analyze(&module_ast);
    assert_eq!(new_vec(&errors), errors);
}

#[test]
fn duplicate_use() {
    let src = "
use a::b
use c::b
";
    let module_ast = module(src);
    let (_, errors) = uses::analyze(&module_ast);
    assert_eq!(
        vec![Error::new(
            ErrorMessage::DuplicateUse("b".to_string()),
            7..12
        )],
        errors
    );
}

#[test]
fn no_duplicate_use_alias() {
    let src = "
use a::b
use c::b as d
";
    let module_ast = module(src);
    let (_, errors) = uses::analyze(&module_ast);
    assert_eq!(new_vec(&errors), errors);
}

#[test]
fn empty_list() {
    let src = "
def EmptyList = []
EmptyList []
";
    let module_ast = module(src);
    let SemanticsResult { errors, .. } = semantics::analyze(&module_ast);
    assert_eq!(new_vec(&errors), errors);
}

#[test]
fn struct_fields() {
    let src = r#"
def Person = {
    name: String
    age: Number
}
Person {
    name = "Test"
    age = 0
}
"#;
    let module_ast = module(src);
    let SemanticsResult { errors, .. } = semantics::analyze(&module_ast);
    assert_eq!(new_vec(&errors), errors);
}

#[test]
fn optional() {
    let src = "
def Optional = Number | null
let opt_none: Optional = null
let opt_some: Optional = 1
";
    let module_ast = module(src);
    let SemanticsResult { errors, .. } = semantics::analyze(&module_ast);
    assert_eq!(new_vec(&errors), errors);
}

#[test]
fn evaluate_struct() {
    let src = r#"
{
    name = "Test"
    age = 0
    const: "x"  = "x"
}
"#;
    let module_ast = module(src);
    let SemanticsResult { errors, .. } = semantics::analyze(&module_ast);
    assert_eq!(new_vec(&errors), errors);
    let value = eval(init(&module_ast));
    assert_eq!(
        fields(vec![
            ("name", string("Test")),
            ("age", number("0")),
            ("const", string("x"))
        ]),
        value
    );
}

#[test]
fn evaluate_list() {
    let src = r#"["a" "b" "c"]"#;
    let module_ast = module(src);
    let SemanticsResult { errors, .. } = semantics::analyze(&module_ast);
    assert_eq!(new_vec(&errors), errors);
    let value = eval(init(&module_ast));
    assert_eq!(list(vec![string("a"), string("b"), string("c")]), value);
}

#[test]
fn evaluate_complex_struct() {
    let src = r#"
{
    random_number = 42
    primes = [1 2 3 5 7]
    map = [
        {
            key = "a"
            value = "1"
        }
        {
            key = "b"
            value = null
        }
        {
            key = "c"
            value = true
        }
    ]
}
"#;
    let module_ast = module(src);
    let SemanticsResult { errors, .. } = semantics::analyze(&module_ast);
    assert_eq!(new_vec(&errors), errors);
    let value = eval(init(&module_ast));
    assert_eq!(
        fields(vec![
            ("random_number", number("42")),
            (
                "primes",
                list(vec![
                    number("1"),
                    number("2"),
                    number("3"),
                    number("5"),
                    number("7")
                ])
            ),
            (
                "map",
                list(vec![
                    fields(vec![("key", string("a")), ("value", string("1")),]),
                    fields(vec![("key", string("b")), ("value", Value::Null),]),
                    fields(vec![("key", string("c")), ("value", Value::from(true)),]),
                ])
            )
        ]),
        value
    );
}

#[test]
fn built_in_type_equality() {
    let src = r#"
def Config = {
    version: String
}
Config {
    version: String = "1.0.0"
}
"#;
    let module_ast = module(src);
    let SemanticsResult { errors, .. } = semantics::analyze(&module_ast);
    assert_eq!(new_vec(&errors), errors);
}

#[test]
fn self_reference_expr() {
    let src = "
def Type = Type {}
";
    let module_ast = module(src);
    let SemanticsResult { errors, .. } = semantics::analyze(&module_ast);
    assert_eq!(
        vec![Error::new(
            ErrorMessage::SelfReference("Type".to_string()),
            3..4
        )],
        errors
    );
}

#[test]
fn self_reference_type_expr() {
    let src = "
def Type: Type = {}
";
    let module_ast = module(src);
    let SemanticsResult { errors, .. } = semantics::analyze(&module_ast);
    assert_eq!(
        vec![Error::new(
            ErrorMessage::SelfReference("Type".to_string()),
            3..4
        )],
        errors
    );
}

#[test]
fn legal_self_reference() {
    let src = r#"
def Type = [ Type | String ]
Type [ "a" [ "b" ] ]
"#;
    let module_ast = module(src);
    let SemanticsResult { errors, .. } = semantics::analyze(&module_ast);
    assert_eq!(new_vec(&errors), errors);
}

#[test]
fn type_annotation_in_init() {
    let src = r#"
def A = {
    a: String | null
}
A {
    a: String | null = null
}
"#;
    let module_ast = module(src);
    let SemanticsResult { errors, .. } = semantics::analyze(&module_ast);
    assert_eq!(new_vec(&errors), errors);
}

#[test]
fn type_annotation_subset() {
    let src = r#"
def A = {
    a: String | Number | null
}
A {
    a: String | null = null
}
"#;
    let module_ast = module(src);
    let SemanticsResult { errors, .. } = semantics::analyze(&module_ast);
    assert_eq!(new_vec(&errors), errors);
}

#[test]
fn type_annotation_superset() {
    let src = r#"
def A = {
    a: String | null
}
A {
    a: String | Number | null = null
}
"#;
    let module_ast = module(src);
    let SemanticsResult { errors, .. } = semantics::analyze(&module_ast);
    assert_eq!(vec![Error::new(ErrorMessage::TypeMismatch, 31..32)], errors);
}

#[test]
fn union_in_let() {
    let src = r#"
let a: String = "A" | "a"
let b = "B" | "b"
"#;
    let module_ast = module(src);
    let SemanticsResult { errors, .. } = semantics::analyze(&module_ast);
    assert_eq!(
        vec![
            Error::new(ErrorMessage::UninitializedLet, 1..15),
            Error::new(ErrorMessage::UninitializedLet, 16..27),
        ],
        errors
    );
}

#[test]
fn union_in_field() {
    let src = r#"
def Test = {
    a: String = "A" | "a"
    b = "B" | "b"
}
"#;
    let module_ast = module(src);
    let SemanticsResult { errors, .. } = semantics::analyze(&module_ast);
    assert_eq!(
        vec![
            Error::new(ErrorMessage::UninitializedDefault, 9..21),
            Error::new(ErrorMessage::UninitializedDefault, 26..31),
        ],
        errors
    );
}

#[test]
fn assign_let() {
    let src = r#"
let a = "x"
{
    a = a
}
    "#;
    let module_ast = module(src);
    let SemanticsResult {
        inits,
        symbol_table,
        errors,
    } = semantics::analyze(&module_ast);
    assert_eq!(new_vec(&errors), errors);
    assert_symbols(
        vec![(GlobalIdent::default().extend("a".to_string()), string("x"))],
        &symbol_table,
    );
    assert_eq!(vec![fields(vec![("a", string("x"))])], inits);
}

#[test]
fn default_init() {
    let src = r#"
def Config = {
    x = 0
}
Config {}
    "#;
    let module_ast = module(src);
    let SemanticsResult {
        inits,
        symbol_table,
        errors,
    } = semantics::analyze(&module_ast);
    assert_eq!(new_vec(&errors), errors);
    assert_symbols(
        vec![(
            GlobalIdent::default().extend("Config".to_string()),
            fields(vec![("x", number("0"))]),
        )],
        &symbol_table,
    );
    assert_eq!(vec![fields(vec![("x", number("0"))])], inits);
}

#[test]
fn default_overwrite() {
    let src = r#"
def Config = {
    x: Number = 0
}
Config {
    x = 1
}
    "#;
    let module_ast = module(src);
    let SemanticsResult {
        inits,
        symbol_table,
        errors,
    } = semantics::analyze(&module_ast);
    assert_eq!(new_vec(&errors), errors);
    assert_symbols(
        vec![(
            GlobalIdent::default().extend("Config".to_string()),
            fields(vec![("x", number("0"))]),
        )],
        &symbol_table,
    );
    assert_eq!(vec![fields(vec![("x", number("1"))])], inits);
}

#[test]
fn nested_default() {
    let src = r#"
def Config = {
    x: {
        y: Number = 0
        z: Number
    }
}
Config {
    x = {
        z = 1
    }
}
    "#;
    let module_ast = module(src);
    let SemanticsResult {
        inits,
        symbol_table,
        errors,
    } = semantics::analyze(&module_ast);
    assert_eq!(new_vec(&errors), errors);
    assert_symbols(
        vec![(
            GlobalIdent::default().extend("Config".to_string()),
            fields(vec![(
                "x",
                fields(vec![("y", number("0")), ("z", Value::Unknown)]),
            )]),
        )],
        &symbol_table,
    );
    assert_eq!(
        vec![fields(vec![(
            "x",
            fields(vec![("y", number("0")), ("z", number("1"))])
        )])],
        inits
    );
}

#[test]
fn let_default() {
    let src = r#"
def Config = {
    x: Number = pi
}
let pi = 3.14
    "#;
    let module_ast = module(src);
    let ValuesResult {
        symbol_table,
        errors,
        ..
    } = values::analyze(&module_ast);
    assert_eq!(new_vec(&errors), errors);
    assert_symbols(
        vec![
            (
                GlobalIdent::default().extend("pi".to_string()),
                number("3.14"),
            ),
            (
                GlobalIdent::default().extend("Config".to_string()),
                fields(vec![("x", number("3.14"))]),
            ),
        ],
        &symbol_table,
    );
}

#[test]
fn uninitialized_default() {
    let src = r#"
def Config = {
    x = {
        y: Number
    }
}
    "#;
    let module_ast = module(src);
    let SemanticsResult { errors, .. } = semantics::analyze(&module_ast);
    assert_eq!(
        vec![Error::new(ErrorMessage::UninitializedDefault, 13..21)],
        errors
    );
}

#[test]
fn recursive_def_let() {
    let src = r#"
def Rec = {
    rec = rec
}
let rec = Rec {}
    "#;
    let module_ast = module(src);
    let SemanticsResult { errors, .. } = semantics::analyze(&module_ast);
    assert_eq!(
        vec![
            Error::new(ErrorMessage::UninitializedDefault, 13..14),
            Error::new(ErrorMessage::UninitializedLet, 17..28),
        ],
        errors
    );
}

#[test]
fn recursive_let_let() {
    let src = r#"
let rec = {
     r = rec
}
    "#;
    let module_ast = module(src);
    let SemanticsResult { errors, .. } = semantics::analyze(&module_ast);
    assert_eq!(
        vec![
            Error::new(ErrorMessage::UninitializedDefault, 13..14),
            Error::new(ErrorMessage::UninitializedLet, 1..17),
        ],
        errors
    );
}

#[test]
fn immutable_let() {
    let src = r#"
let x = {
    a = "a"
}

x {
    a = "b"
}
    "#;
    let module_ast = module(src);
    let SemanticsResult { errors, .. } = semantics::analyze(&module_ast);
    assert_eq!(
        vec![Error::new(
            ErrorMessage::ImmutableLet("x".to_string()),
            17..18
        ),],
        errors
    );
}

fn errors_of(src: &str) -> Vec<Error> {
    semantics::analyze(&module(src)).errors
}

#[test]
fn union_definition() {
    let src = r#"def ok = "yes" | true"#;
    let module_ast = module(src);
    let SemanticsResult {
        inits,
        symbol_table,
        errors,
    } = semantics::analyze(&module_ast);
    assert_eq!(new_vec(&errors), errors);
    assert_symbols(
        vec![(
            GlobalIdent::default().extend("ok".to_string()),
            Value::Unknown,
        )],
        &symbol_table,
    );
    assert_eq!(new_vec(&inits), inits);
}

#[test]
fn person_initializer() {
    let src = "def Person = { name: String  age: Number }\nPerson { name = \"Test\"  age = 0 }";
    let module_ast = module(src);
    let SemanticsResult { inits, errors, .. } = semantics::analyze(&module_ast);
    assert_eq!(new_vec(&errors), errors);
    assert_eq!(
        vec![fields(vec![("name", string("Test")), ("age", number("0"))])],
        inits
    );
}

#[test]
fn config_initializer() {
    let src = "def Config = { x: Number = 0 }\nConfig { x = 1 }";
    let module_ast = module(src);
    let SemanticsResult {
        inits,
        symbol_table,
        errors,
    } = semantics::analyze(&module_ast);
    assert_eq!(new_vec(&errors), errors);
    assert_symbols(
        vec![(
            GlobalIdent::default().extend("Config".to_string()),
            fields(vec![("x", number("0"))]),
        )],
        &symbol_table,
    );
    assert_eq!(vec![fields(vec![("x", number("1"))])], inits);
}

#[test]
fn recursive_let_in_one_line() {
    let src = "let rec = { r = rec }";
    assert_eq!(
        vec![
            Error::new(ErrorMessage::UninitializedDefault, 12..13),
            Error::new(ErrorMessage::UninitializedLet, 0..15),
        ],
        errors_of(src)
    );
}

#[test]
fn self_reference_in_one_line() {
    assert_eq!(
        vec![Error::new(
            ErrorMessage::SelfReference("Type".to_string()),
            2..3
        )],
        errors_of("def Type = Type {}")
    );
}

#[test]
fn superset_in_one_line() {
    let src = "def A = { a: String | null }\nA { a: String | Number | null = null }";
    let module_ast = module(src);
    let tokens = lex(src);
    let errors = semantics::analyze(&module_ast).errors;
    assert_eq!(1, errors.len());
    assert_eq!(ErrorMessage::TypeMismatch, errors[0].message);
    let at = &tokens[errors[0].range.start];
    assert_eq!(1, errors[0].range.len());
    assert_eq!(
        nabla_frontend::token::TokenType::Ident("Number".to_string()),
        at.token_type
    );
}

#[test]
fn union_in_typed_let() {
    assert_eq!(
        vec![Error::new(ErrorMessage::UninitializedLet, 0..14)],
        errors_of("let a: String = \"A\" | \"a\"")
    );
}

#[test]
fn duplicate_use_in_one_line() {
    let module_ast = module("use a::b\nuse c::b");
    let (names, errors) = uses::analyze(&module_ast);
    assert_eq!(
        vec![Error::new(
            ErrorMessage::DuplicateUse("b".to_string()),
            6..11
        )],
        errors
    );
    assert_eq!(1, names.len());
    assert_eq!(
        Some(&GlobalIdent {
            root: "a".to_string(),
            path: vec!["b".to_string()]
        }),
        names.get(&"b".to_string())
    );
}

#[test]
fn uses_and_aliases() {
    let module_ast = module("use a\nuse b::{c d::e}\nuse f::g as h\nuse i::*");
    let (names, errors) = uses::analyze(&module_ast);
    let path = |root: &str, path: &[&str]| GlobalIdent {
        root: root.to_string(),
        path: path.iter().map(|part| part.to_string()).collect(),
    };
    assert_eq!(
        vec![
            ("a".to_string(), path("a", &[])),
            ("c".to_string(), path("b", &["c"])),
            ("e".to_string(), path("b", &["d", "e"])),
            ("h".to_string(), path("f", &["g"])),
        ],
        names.entries
    );
    assert_eq!(
        vec![Error::new(
            ErrorMessage::Unsupported("glob import".to_string()),
            30..31
        ),],
        errors
    );
    let module_ast = module("use a::b::{c d} as e");
    let (_, errors) = uses::analyze(&module_ast);
    assert_eq!(1, errors.len());
    assert_eq!(ErrorMessage::AliasingNonSingle, errors[0].message);
}

#[test]
fn namespace_of_a_module() {
    let module_ast = module("use a::b\ndef b = 1\nlet c = 2\nlet c = 3\ndef d = e\nd::f\nString\nString::x");
    let (names, _) = uses::analyze(&module_ast);
    let result = namespace::analyze(&names, &module_ast);
    let messages: Vec<ErrorMessage> = result
        .errors
        .iter()
        .map(|error| error.message.clone())
        .collect();
    assert_eq!(
        vec![
            ErrorMessage::Redeclaration("b".to_string()),
            ErrorMessage::Redeclaration("c".to_string()),
            ErrorMessage::UndefinedIdent("e".to_string()),
            ErrorMessage::UndefinedIdent("String".to_string()),
        ],
        messages
    );
    let local: Vec<&str> = result
        .namespace
        .entries
        .iter()
        .map(|(name, _)| name.as_str())
        .collect();
    assert_eq!(vec!["b", "c", "d"], local);
    assert_eq!(2, result.bindings.len());
    assert_eq!(
        Some(&namespace::Binding::Let),
        result
            .bindings
            .get(&GlobalIdent::default().extend("c".to_string()))
    );
    assert_eq!(
        Some(&namespace::Binding::Def),
        result
            .bindings
            .get(&GlobalIdent::default().extend("d".to_string()))
    );
}

fn type_errors(src: &str) -> Vec<ErrorMessage> {
    let module_ast = module(src);
    let (names, _) = uses::analyze(&module_ast);
    let result = namespace::analyze(&names, &module_ast);
    types::analyze(&module_ast, &result.namespace, &result.bindings)
        .errors
        .into_iter()
        .map(|error| error.message)
        .collect()
}

#[test]
fn type_errors_of_each_kind() {
    assert_eq!(
        vec![ErrorMessage::DuplicateField("a".to_string())],
        type_errors("def A = { a: String  a: Number }")
    );
    assert_eq!(
        vec![ErrorMessage::UntypedField],
        type_errors("def A = { a }")
    );
    assert_eq!(
        vec![ErrorMessage::UnassignedField],
        type_errors("let a = { a: String }")
    );
    assert_eq!(
        vec![ErrorMessage::UnassignedField],
        type_errors("let a = { a }")
    );
    assert_eq!(
        vec![ErrorMessage::MissingField("b".to_string())],
        type_errors("def A = { a: String  b: Number }\nA { a = \"x\" }")
    );
    assert_eq!(
        new_vec(&type_errors("")),
        type_errors("def A = { a: String  b: Number = 1 }\nA { a = \"x\" }")
    );
    assert_eq!(
        vec![ErrorMessage::UnexpectedField("c".to_string())],
        type_errors("def A = { a: String }\nA { a = \"x\"  c = 1 }")
    );
    assert_eq!(
        vec![ErrorMessage::UnexpectedListElement],
        type_errors("def A = []\nA [ 1 ]")
    );
    assert_eq!(
        vec![ErrorMessage::MultipleListTypes],
        type_errors("def A = [ String Number ]\nA [ 1 ]")
    );
    assert_eq!(
        vec![ErrorMessage::ValueMismatch(
            "String".to_string(),
            "1".to_string()
        )],
        type_errors("let a: String = 1")
    );
    assert_eq!(
        vec![ErrorMessage::ValueMismatch(
            "1".to_string(),
            "2".to_string()
        )],
        type_errors("let a: 1 = 2")
    );
    assert_eq!(
        vec![ErrorMessage::TypeMismatch],
        type_errors("let a: String = []")
    );
    assert_eq!(
        vec![ErrorMessage::TypeMismatch],
        type_errors("def A = String\ndef B: Number = A")
    );
    assert_eq!(
        vec![
            ErrorMessage::UndefinedIdent("Missing".to_string()),
            ErrorMessage::UnknownType
        ],
        type_errors("let a: Missing = 1")
    );
    assert_eq!(
        new_vec(&type_errors("")),
        type_errors("let a: Bool = true\nlet b: Number = 1.5\nlet c: \"x\" | 'y' = 'y'")
    );
    assert_eq!(
        "`2` does not match type 1",
        ErrorMessage::ValueMismatch("1".to_string(), "2".to_string()).to_string()
    );
}

#[test]
fn types_that_go_in_circles() {
    assert_eq!(
        vec![ErrorMessage::UnknownType],
        type_errors("def A = B\ndef B = A\nlet x: A = 1")
    );
    assert_eq!(
        new_vec(&type_errors("")),
        type_errors("def T = [ T ]\nlet x: T = [ x ]")
    );
}

#[test]
fn value_errors_of_each_kind() {
    let messages = |src: &str| -> Vec<ErrorMessage> {
        values::analyze(&module(src))
            .errors
            .into_iter()
            .map(|error| error.message)
            .collect()
    };
    assert_eq!(vec![ErrorMessage::MultipleInits], messages("1\n2"));
    assert_eq!(
        vec![ErrorMessage::MultipleInits, ErrorMessage::MultipleInits],
        messages("1\n2\n3")
    );
    assert_eq!(vec![ErrorMessage::UninitializedInit], messages("a"));
    assert_eq!(
        vec![
            ErrorMessage::MultipleInits,
            ErrorMessage::UninitializedInit
        ],
        messages("1\n2 | 3")
    );
    assert_eq!(
        vec![
            ErrorMessage::Unsupported("module references".to_string()),
            ErrorMessage::UninitializedLet
        ],
        messages("let a = b::c")
    );
    assert_eq!(
        vec![ErrorMessage::UninitializedLet],
        messages("let a = [ 1 b ]")
    );
}

#[test]
fn inits_hold_the_first_initializer() {
    let result = values::analyze(&module("1\n2\n3"));
    assert_eq!(vec![number("1")], result.inits);
    let multiple = result
        .errors
        .iter()
        .filter(|error| error.message == ErrorMessage::MultipleInits)
        .count();
    assert_eq!(3 - multiple, result.inits.len());
    let result = values::analyze(&module("def a = 1"));
    assert_eq!(new_vec(&result.inits), result.inits);
}

#[test]
fn cycles_end_in_unknown() {
    let result = values::analyze(&module("def a = b\ndef b = a"));
    assert_symbols(
        vec![
            (
                GlobalIdent::default().extend("a".to_string()),
                Value::Unknown,
            ),
            (
                GlobalIdent::default().extend("b".to_string()),
                Value::Unknown,
            ),
        ],
        &result.symbol_table,
    );
    let result = values::analyze(&module("def a = a"));
    assert_symbols(
        vec![(
            GlobalIdent::default().extend("a".to_string()),
            Value::Unknown,
        )],
        &result.symbol_table,
    );
    let result = values::analyze(&module("def a = { b = a }"));
    assert_symbols(
        vec![(
            GlobalIdent::default().extend("a".to_string()),
            fields(vec![("b", Value::Unknown)]),
        )],
        &result.symbol_table,
    );
}

#[test]
fn analysis_is_a_function_of_the_module() {
    let src = "use a::b\ndef A = { x: Number = 1  y = z }\nlet z = A { x = 2 }\nz\nq";
    let first = semantics::analyze(&module(src));
    let second = semantics::analyze(&module(src));
    assert_eq!(first.errors, second.errors);
    assert_eq!(first.inits, second.inits);
    assert_eq!(first.symbol_table.entries, second.symbol_table.entries);
}

#[test]
fn values_are_compared_whatever_the_order_of_fields() {
    let a = fields(vec![("x", number("1")), ("y", list(vec![Value::Null]))]);
    let b = fields(vec![("y", list(vec![Value::Null])), ("x", number("1"))]);
    assert_eq!(a, b);
    assert_ne!(a, fields(vec![("x", number("1"))]));
    assert_ne!(fields(vec![("x", number("1"))]), a);
    assert_ne!(a, fields(vec![("x", number("2")), ("y", list(vec![Value::Null]))]));
    assert_ne!(number("1"), string("1"));
    assert_ne!(list(vec![Value::Null]), list(vec![Value::Null, Value::Null]));
    assert_eq!(a.clone(), a);
}

#[test]
fn merging_keeps_own_fields() {
    let mut own = fields(vec![
        ("a", number("1")),
        ("b", fields(vec![("c", number("2"))])),
    ]);
    own.merge_fields(fields(vec![
        ("a", number("9")),
        ("b", fields(vec![("c", number("9")), ("d", number("3"))])),
        ("e", Value::Unknown),
    ]));
    assert_eq!(
        fields(vec![
            ("a", number("1")),
            (
                "b",
                fields(vec![("c", number("2")), ("d", number("3"))])
            ),
            ("e", Value::Unknown),
        ]),
        own
    );
    assert!(!own.is_known());
    let mut plain = number("1");
    plain.merge_fields(fields(vec![("a", number("9"))]));
    assert_eq!(number("1"), plain);
    assert!(plain.is_known());
    assert!(!list(vec![number("1"), Value::Unknown]).is_known());
    assert!(list(vec![number("1"), Value::Null, Value::from(true)]).is_known());
}

#[test]
fn global_names() {
    let name = GlobalIdent::default();
    assert_eq!("root", name.to_string());
    let name = name.extend("a".to_string()).extend("b".to_string());
    assert_eq!("root::a::b", name.to_string());
    assert!(name.same(&name.duplicate()));
    assert!(!name.same(&GlobalIdent::default()));
}

#[test]
fn later_field_replaces_earlier_in_eval() {
    let module_ast = module("{ a = 1  a = 2  b = 3 as \"c\" }");
    assert_eq!(
        fields(vec![("a", number("2")), ("c", number("3"))]),
        eval(init(&module_ast))
    );
    let module_ast = module("a");
    assert_eq!(Value::Unknown, eval(init(&module_ast)));
    let module_ast = module("1 | 2");
    assert_eq!(Value::Unknown, eval(init(&module_ast)));
    let module_ast = module("a [ 'x' ]");
    assert_eq!(list(vec![string("x")]), eval(init(&module_ast)));
}

#[test]
fn lines_and_columns() {
    let text = "ab\ncd\u{e9}f\n\ngh";
    assert_eq!(
        PosRange {
            start: Pos { line: 0, char: 0 },
            end: Pos { line: 0, char: 2 }
        },
        convert_text_range(text, &(0..2))
    );
    assert_eq!(
        PosRange {
            start: Pos { line: 1, char: 0 },
            end: Pos { line: 1, char: 4 }
        },
        convert_text_range(text, &(3..8))
    );
    assert_eq!(
        PosRange {
            start: Pos { line: 1, char: 3 },
            end: Pos { line: 3, char: 2 }
        },
        convert_text_range(text, &(7..12))
    );
    assert_eq!(
        PosRange {
            start: Pos { line: 3, char: 2 },
            end: Pos { line: 3, char: 2 }
        },
        convert_text_range(text, &(100..200))
    );
    assert_eq!(
        PosRange {
            start: Pos { line: 2, char: 0 },
            end: Pos { line: 1, char: 0 }
        },
        convert_text_range(text, &(9..3))
    );
}

#[test]
fn error_ranges_lie_within_the_tokens() {
    for src in [
        "use a::b\nuse c::b\nuse d::*\nuse e::f::{g h} as i",
        "def x = y\nlet x = 1\nx::y { a = 1 }\nz [ 1 2 ]",
        "def A = { a: String  a: Number  b }\nlet c = { d: String  e }\nA { a = 1  f = 2 }",
        "def L = [ String Number ]\nL [ 1 ]\ndef E = []\nE [ 1 ]",
        "let a = b::c\nlet d = { e = f | g }\n1\n2 | 3",
        "def T = T { }\nlet u: u = 1\nlet v: Missing = 1",
        "def x = @ = }\n{ a = [ , ] }",
    ] {
        let tokens = lex(src);
        let (ast, syntax_errors) = parse(&tokens);
        for error in &syntax_errors {
            assert!(error.range.start <= error.range.end, "{:?}", error);
            assert!(error.range.end <= tokens.len(), "{:?}", error);
        }
        let module_ast = ModuleAst::new(GlobalIdent::default(), ast);
        let result = semantics::analyze(&module_ast);
        assert!(!result.errors.is_empty(), "{}", src);
        for error in &result.errors {
            assert!(error.range.start <= error.range.end, "{:?}", error);
            assert!(error.range.end <= tokens.len(), "{:?}", error);
        }
    }
}
