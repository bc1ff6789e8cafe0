//! Semantic analysis: uses, names, types and values.

pub mod error;
pub mod namespace;
pub mod types;
pub mod uses;
pub mod values;

use crate::ast::Global;
use crate::eval::value::{list_model, Value, ValueView};
use crate::ast::bounds::globals_within;
use crate::semantics::error::{errors_model, errors_within, Error, ErrorView};
use crate::semantics::namespace::{
    spec_declare, spec_named_globals, spec_undefined, Binding, NamespaceResult,
};
use crate::semantics::values::ValuesResult;
use crate::table::Table;
use crate::{GlobalIdent, ModuleAst};
use vstd::prelude::*;

verus! {

/// The names that are valid in a module, each with its global name.
pub type Namespace = Table<String, GlobalIdent>;

/// The global names that a module binds, each with the way it is bound.
pub type BindingMap = Table<GlobalIdent, Binding>;

/// The mathematical content of a [`BindingMap`].
pub type BindingsModel = Seq<(Seq<Seq<char>>, Binding)>;

/// The value of each global name.
pub type SymbolTable = Table<GlobalIdent, Value>;

/// The mathematical content of a [`SymbolTable`].
pub type SymbolsModel = Seq<(Seq<Seq<char>>, ValueView)>;

/// The contents of the entries of a symbol table.
pub open spec fn symbols_model(entries: Seq<(GlobalIdent, Value)>) -> SymbolsModel {
    Seq::new(entries.len(), |i: int| (entries[i].0@, entries[i].1@))
}

pub type Errors = Vec<Error>;

/// The mathematical content of a [`Namespace`]: local names and global
/// paths, in the order in which they were added.
pub type NameMap = Seq<(Seq<char>, Seq<Seq<char>>)>;

/// The contents of the entries of a namespace.
pub open spec fn names_model(entries: Seq<(String, GlobalIdent)>) -> NameMap {
    Seq::new(entries.len(), |i: int| (entries[i].0@, entries[i].1@))
}

/// What semantic analysis returns: the value of the initializer, the
/// value of every global name, and the errors of all four analyses.
#[derive(Debug)]
pub struct SemanticsResult {
    pub inits: Vec<Value>,
    pub symbol_table: SymbolTable,
    pub errors: Errors,
}

/// The mathematical content of a [`SemanticsResult`].
pub ghost struct SemanticsView {
    pub inits: Seq<ValueView>,
    pub symbol_table: SymbolsModel,
    pub errors: Seq<ErrorView>,
}

impl View for SemanticsResult {
    type V = SemanticsView;

    open spec fn view(&self) -> SemanticsView {
        SemanticsView {
            inits: list_model(self.inits@),
            symbol_table: symbols_model(self.symbol_table.entries@),
            errors: errors_model(self.errors@),
        }
    }
}

/// What semantic analysis returns for a module. The errors are those of
/// the uses, of the namespace, of the types and of the values, in this
/// order; no analysis depends on the errors of another.
pub open spec fn spec_analyze(globals: Seq<Global>, module: Seq<Seq<char>>) -> SemanticsView {
    let (used, use_errors) = uses::spec_uses(globals);
    let declared = spec_declare(globals, module, used);
    let namespace_errors = declared.errors + spec_undefined(
        spec_named_globals(globals),
        declared.names,
    );
    let typed = types::spec_analyze(globals, module, declared.names, declared.bindings);
    let valued = values::spec_analyze(globals, module);
    SemanticsView {
        inits: valued.inits,
        symbol_table: valued.symbol_table,
        errors: use_errors + namespace_errors + typed.errors + valued.errors,
    }
}

/// Analyzes the semantics of a module.
///
/// The analysis has four parts, which run in order and whose errors
/// accumulate:
///
/// 1. Use analysis
/// 2. Namespace analysis
/// 3. Type analysis
/// 4. Value analysis
pub fn analyze(module_ast: &ModuleAst) -> (r: SemanticsResult)
    ensures
        r@ == spec_analyze(module_ast.ast.globals@, module_ast.name@),
        forall|n: int| #[trigger]
            globals_within(module_ast.ast.globals@, n) ==> errors_within(r.errors@, n),
{
    let (uses, mut errors) = uses::analyze(module_ast);
    let ghost use_errors = errors_model(errors@);
    let NamespaceResult { namespace, bindings, errors: mut namespace_errors } = namespace::analyze(
        &uses,
        module_ast,
    );
    let ghost second = errors_model(namespace_errors@);
    errors.append(&mut namespace_errors);
    assert(errors_model(errors@) =~= use_errors + second);
    let mut types_result = types::analyze(module_ast, &namespace, &bindings);
    let ghost third = errors_model(types_result.errors@);
    errors.append(&mut types_result.errors);
    assert(errors_model(errors@) =~= use_errors + second + third);
    let ValuesResult { inits, symbol_table, errors: mut value_errors } = values::analyze(
        module_ast,
    );
    let ghost fourth = errors_model(value_errors@);
    errors.append(&mut value_errors);
    assert(errors_model(errors@) =~= use_errors + second + third + fourth);
    SemanticsResult { inits, symbol_table, errors }
}

/// Analysis is a function of the module: whatever two analyses of one
/// module return has the same content.
pub proof fn lemma_analysis_is_pure(
    module_ast: ModuleAst,
    first: SemanticsResult,
    second: SemanticsResult,
)
    requires
        first@ == spec_analyze(module_ast.ast.globals@, module_ast.name@),
        second@ == spec_analyze(module_ast.ast.globals@, module_ast.name@),
    ensures
        first@ == second@,
{
}

} // verus!
