//! The whole front end in one call: the errors of a text, each at the
//! lines and columns it spans, and the value of its initializer.

use crate::ast::Ast;
use crate::eval::value::{list_model, Value, ValueView};
use crate::lexer::{lex, lex_errors, spec_errors, spec_lex};
use crate::parser::{parse, spec_parse};
use crate::position::{convert_text_range, spec_pos, spec_text_range, text_range, PosRange};
use crate::semantics::error::{errors_model, ErrorView};
use crate::token::{tokens_model, TextRange, Token};
use crate::{GlobalIdent, ModuleAst, ROOT};
use vstd::prelude::*;
use vstd::string::*;

verus! {

/// An error of any phase: the lines and columns that it spans, and the
/// message in words.
#[derive(Debug)]
pub struct Diagnostic {
    pub range: PosRange,
    pub message: String,
}

/// The mathematical content of a [`Diagnostic`].
pub ghost struct DiagnosticView {
    pub range: PosRange,
    pub message: Seq<char>,
}

impl View for Diagnostic {
    type V = DiagnosticView;

    open spec fn view(&self) -> DiagnosticView {
        DiagnosticView { range: self.range, message: self.message@ }
    }
}

/// The contents of a list of diagnostics.
pub open spec fn diagnostics_model(diagnostics: Seq<Diagnostic>) -> Seq<DiagnosticView> {
    Seq::new(diagnostics.len(), |i: int| diagnostics[i]@)
}

/// What the front end makes of a text.
#[derive(Debug)]
pub struct Compiled {
    /// The lexical errors, then the syntax errors, then the semantic
    /// errors.
    pub diagnostics: Vec<Diagnostic>,
    /// The values of the initializers.
    pub inits: Vec<Value>,
}

/// The mathematical content of a [`Compiled`].
pub ghost struct CompiledView {
    pub diagnostics: Seq<DiagnosticView>,
    pub inits: Seq<ValueView>,
}

impl View for Compiled {
    type V = CompiledView;

    open spec fn view(&self) -> CompiledView {
        CompiledView {
            diagnostics: diagnostics_model(self.diagnostics@),
            inits: list_model(self.inits@),
        }
    }
}

/// The lines and columns of a range of byte offsets.
pub open spec fn spec_range(bytes: Seq<u8>, range: TextRange) -> PosRange {
    PosRange { start: spec_pos(bytes, range.start as int), end: spec_pos(bytes, range.end as int) }
}

/// The lexical errors as diagnostics.
pub open spec fn lexical(bytes: Seq<u8>, errors: Seq<crate::token::Error>) -> Seq<DiagnosticView> {
    Seq::new(
        errors.len(),
        |i: int|
            DiagnosticView {
                range: spec_range(bytes, errors[i].range),
                message: errors[i].message.text(),
            },
    )
}

/// The syntax errors as diagnostics, each at the text of its tokens.
pub open spec fn syntactic(
    bytes: Seq<u8>,
    tokens: Seq<Token>,
    errors: Seq<crate::parser::Error>,
) -> Seq<DiagnosticView> {
    Seq::new(
        errors.len(),
        |i: int|
            DiagnosticView {
                range: spec_range(bytes, spec_text_range(tokens, errors[i].range)),
                message: errors[i].message.text(),
            },
    )
}

/// The semantic errors as diagnostics, each at the text of its tokens.
pub open spec fn semantic(bytes: Seq<u8>, tokens: Seq<Token>, errors: Seq<ErrorView>) -> Seq<
    DiagnosticView,
> {
    Seq::new(
        errors.len(),
        |i: int|
            DiagnosticView {
                range: spec_range(bytes, spec_text_range(tokens, errors[i].range)),
                message: errors[i].message.text(),
            },
    )
}

/// What the front end makes of a text with the given tokens and syntax
/// tree: the errors of the tokens, of parsing them and of analyzing the
/// tree as the root module, in this order, and the values of the
/// initializers.
pub open spec fn spec_compile(bytes: Seq<u8>, tokens: Seq<Token>, ast: Ast) -> CompiledView {
    let analyzed = crate::semantics::spec_analyze(ast.globals@, seq![ROOT@]);
    CompiledView {
        diagnostics: lexical(bytes, spec_errors(tokens)) + syntactic(
            bytes,
            tokens,
            spec_parse(tokens).1,
        ) + semantic(bytes, tokens, analyzed.errors),
        inits: analyzed.inits,
    }
}

fn lexical_diagnostics(src: &str, errors: &Vec<crate::token::Error>) -> (out: Vec<Diagnostic>)
    ensures
        diagnostics_model(out@) == lexical(src.spec_bytes(), errors@),
{
    let mut out: Vec<Diagnostic> = Vec::new();
    let mut i: usize = 0;
    while i < errors.len()
        invariant
            i <= errors@.len(),
            diagnostics_model(out@) == lexical(src.spec_bytes(), errors@.take(i as int)),
        decreases errors@.len() - i,
    {
        let error = &errors[i];
        let range = convert_text_range(src, &error.range);
        let ghost before = diagnostics_model(out@);
        let diagnostic = Diagnostic { range, message: error.message.to_string() };
        out.push(diagnostic);
        proof {
            assert(range == spec_range(src.spec_bytes(), error.range));
            assert(diagnostics_model(out@) =~= before.push(diagnostic@));
            assert(lexical(src.spec_bytes(), errors@.take(i + 1)) =~= lexical(
                src.spec_bytes(),
                errors@.take(i as int),
            ).push(diagnostic@));
        }
        i += 1;
    }
    assert(errors@.take(i as int) =~= errors@);
    out
}

fn syntactic_diagnostics(src: &str, tokens: &[Token], errors: &Vec<crate::parser::Error>) -> (out:
    Vec<Diagnostic>)
    ensures
        diagnostics_model(out@) == syntactic(src.spec_bytes(), tokens@, errors@),
{
    let mut out: Vec<Diagnostic> = Vec::new();
    let mut i: usize = 0;
    while i < errors.len()
        invariant
            i <= errors@.len(),
            diagnostics_model(out@) == syntactic(
                src.spec_bytes(),
                tokens@,
                errors@.take(i as int),
            ),
        decreases errors@.len() - i,
    {
        let error = &errors[i];
        let range = convert_text_range(src, &text_range(tokens, &error.range));
        let ghost before = diagnostics_model(out@);
        let diagnostic = Diagnostic { range, message: error.to_string() };
        out.push(diagnostic);
        proof {
            assert(range == spec_range(src.spec_bytes(), spec_text_range(tokens@, error.range)));
            assert(diagnostics_model(out@) =~= before.push(diagnostic@));
            assert(syntactic(src.spec_bytes(), tokens@, errors@.take(i + 1)) =~= syntactic(
                src.spec_bytes(),
                tokens@,
                errors@.take(i as int),
            ).push(diagnostic@));
        }
        i += 1;
    }
    assert(errors@.take(i as int) =~= errors@);
    out
}

fn semantic_diagnostics(src: &str, tokens: &[Token], errors: &Vec<crate::semantics::error::Error>) -> (out:
    Vec<Diagnostic>)
    ensures
        diagnostics_model(out@) == semantic(src.spec_bytes(), tokens@, errors_model(errors@)),
{
    let mut out: Vec<Diagnostic> = Vec::new();
    let mut i: usize = 0;
    while i < errors.len()
        invariant
            i <= errors@.len(),
            diagnostics_model(out@) == semantic(
                src.spec_bytes(),
                tokens@,
                errors_model(errors@.take(i as int)),
            ),
        decreases errors@.len() - i,
    {
        let error = &errors[i];
        let range = convert_text_range(src, &text_range(tokens, &error.range));
        let ghost before = diagnostics_model(out@);
        let diagnostic = Diagnostic { range, message: error.to_string() };
        out.push(diagnostic);
        proof {
            assert(range == spec_range(src.spec_bytes(), spec_text_range(tokens@, error.range)));
            assert(diagnostics_model(out@) =~= before.push(diagnostic@));
            assert(errors_model(errors@.take(i + 1)) =~= errors_model(errors@.take(i as int)).push(
                error@,
            ));
            assert(semantic(src.spec_bytes(), tokens@, errors_model(errors@.take(i + 1)))
                =~= semantic(src.spec_bytes(), tokens@, errors_model(errors@.take(i as int))).push(
                diagnostic@,
            ));
        }
        i += 1;
    }
    assert(errors@.take(i as int) =~= errors@);
    out
}

/// Lexes, parses and analyzes a text as the root module. No phase stops
/// at the errors of the one before it.
pub fn compile(src: &str) -> (r: Compiled)
    ensures
        exists|tokens: Seq<Token>, ast: Ast|
            tokens_model(tokens) == spec_lex(src.spec_bytes()) && ast@ == spec_parse(tokens).0
                && r@ == #[trigger] spec_compile(src.spec_bytes(), tokens, ast),
{
    let tokens = lex(src);
    let mut diagnostics = lexical_diagnostics(src, &lex_errors(&tokens));
    let ghost first = diagnostics_model(diagnostics@);
    let (ast, errors) = parse(tokens.as_slice());
    let mut second = syntactic_diagnostics(src, tokens.as_slice(), &errors);
    let ghost middle = diagnostics_model(second@);
    diagnostics.append(&mut second);
    assert(diagnostics_model(diagnostics@) =~= first + middle);
    let module = ModuleAst::new(GlobalIdent::default(), ast);
    assert(module.name@ =~= seq![ROOT@]);
    let result = crate::semantics::analyze(&module);
    let mut third = semantic_diagnostics(src, tokens.as_slice(), &result.errors);
    let ghost last = diagnostics_model(third@);
    diagnostics.append(&mut third);
    assert(diagnostics_model(diagnostics@) =~= first + middle + last);
    let r = Compiled { diagnostics, inits: result.inits };
    assert(r@ == spec_compile(src.spec_bytes(), tokens@, module.ast));
    r
}

} // verus!
