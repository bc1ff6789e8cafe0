//! The namespace of a module: the names that uses, definitions and lets
//! declare, and the check that every name referred to is declared.

use crate::ast::{
    Expr, Global, Ident, Named, Single, StructField, StructFieldError, StructOrList, TypedExpr,
    UnionAlternative,
};
use crate::ast::bounds::{expr_within, field_within, globals_within, info_within};
use crate::semantics::error::{
    errors_model, errors_within, views_within, Error, ErrorMessage, ErrorMessageView, ErrorView,
};
use crate::semantics::types::BuiltInType;
use crate::semantics::uses::lemma_names_hold;
use crate::semantics::{names_model, BindingMap, BindingsModel, Errors, NameMap, Namespace};
use crate::table::{holds, put};
use crate::ModuleAst;
use crate::token::ToTokenRange;
use vstd::prelude::*;

verus! {

/// How a name was bound.
#[derive(Clone, Copy, Debug, PartialEq, Eq)]
pub enum Binding {
    Def,
    Let,
}

/// What namespace analysis returns: the names of the module, the way
/// each global name is bound, and the errors found.
pub struct NamespaceResult {
    pub namespace: Namespace,
    pub bindings: BindingMap,
    pub errors: Errors,
}

/// What the declarations of a module come to.
pub ghost struct Declared {
    pub names: NameMap,
    pub bindings: BindingsModel,
    pub errors: Seq<ErrorView>,
}

/// The name that a global binds, and how.
pub open spec fn spec_binder(global: Global) -> Option<(Ident, Binding)> {
    match global {
        Global::Def(d) => match d.name {
            Some(ident) => Some((ident, Binding::Def)),
            None => None,
        },
        Global::Let(l) => match l.name {
            Some(ident) => Some((ident, Binding::Let)),
            None => None,
        },
        _ => None,
    }
}

/// The names `names` with those that the globals bind folded in, from
/// first to last: a new name is bound to its path below `module`, a name
/// that is held already is reported as declared again, and the first
/// entry stays.
pub open spec fn spec_declare(globals: Seq<Global>, module: Seq<Seq<char>>, names: NameMap) -> Declared
    decreases globals.len(),
{
    if globals.len() == 0 {
        Declared { names, bindings: Seq::empty(), errors: Seq::empty() }
    } else {
        let acc = spec_declare(globals.drop_last(), module, names);
        match spec_binder(globals.last()) {
            Some((ident, binding)) => {
                if holds(acc.names, ident.name@) {
                    Declared {
                        errors: acc.errors.push(
                            ErrorView {
                                message: ErrorMessageView::Redeclaration(ident.name@),
                                range: ident.info.range,
                            },
                        ),
                        ..acc
                    }
                } else {
                    let global = module.push(ident.name@);
                    Declared {
                        names: acc.names.push((ident.name@, global)),
                        bindings: put(acc.bindings, global, binding),
                        errors: acc.errors,
                    }
                }
            },
            None => acc,
        }
    }
}

/// The names that an expression refers to, in the order in which they
/// are written.
pub open spec fn spec_named(expr: Expr) -> Seq<Named>
    decreases expr,
{
    match expr {
        Expr::Union(union) => spec_named_single(union.single) + spec_named_alternatives(
            union.alternatives@,
        ),
        Expr::Single(single) => spec_named_single(single),
        Expr::Error(_) => Seq::empty(),
    }
}

/// The names that the alternatives of a union refer to.
pub open spec fn spec_named_alternatives(alternatives: Seq<UnionAlternative>) -> Seq<Named>
    decreases alternatives,
{
    if alternatives.len() == 0 {
        Seq::empty()
    } else {
        let before = spec_named_alternatives(alternatives.drop_last());
        match alternatives.last().single {
            Some(single) => before + spec_named_single(single),
            None => before,
        }
    }
}

/// The names that an optional expression refers to.
pub open spec fn spec_named_option(expr: Option<Expr>) -> Seq<Named>
    decreases expr,
{
    match expr {
        Some(e) => spec_named(e),
        None => Seq::empty(),
    }
}

/// The names that a type annotation and a value refer to, the type's
/// first.
pub open spec fn spec_named_typed(type_expr: Option<Expr>, expr: Option<Expr>) -> Seq<Named>
    decreases type_expr, expr,
{
    spec_named_option(type_expr) + spec_named_option(expr)
}

/// The names that the items of a list refer to.
pub open spec fn spec_named_exprs(exprs: Seq<Expr>) -> Seq<Named>
    decreases exprs,
{
    if exprs.len() == 0 {
        Seq::empty()
    } else {
        spec_named_exprs(exprs.drop_last()) + spec_named(exprs.last())
    }
}

/// The names that the fields of a struct refer to.
pub open spec fn spec_named_fields(fields: Seq<Result<StructField, StructFieldError>>) -> Seq<Named>
    decreases fields,
{
    if fields.len() == 0 {
        Seq::empty()
    } else {
        let before = spec_named_fields(fields.drop_last());
        match fields.last() {
            Ok(field) => before + spec_named_option(field.type_expr) + spec_named_option(
                field.expr,
            ),
            Err(_) => before,
        }
    }
}

/// The names that a single expression refers to: a name itself, then
/// those in what it is applied to.
pub open spec fn spec_named_single(single: Single) -> Seq<Named>
    decreases single,
{
    match single {
        Single::Named(named) => seq![named] + (match named.expr {
            Some(StructOrList::List(l)) => spec_named_exprs(l.exprs@),
            Some(StructOrList::Struct(s)) => spec_named_fields(s.fields@),
            None => Seq::empty(),
        }),
        Single::List(l) => spec_named_exprs(l.exprs@),
        Single::Struct(s) => spec_named_fields(s.fields@),
        Single::Primitive(_) => Seq::empty(),
    }
}

/// The names that the globals refer to.
pub open spec fn spec_named_globals(globals: Seq<Global>) -> Seq<Named>
    decreases globals.len(),
{
    if globals.len() == 0 {
        Seq::empty()
    } else {
        let before = spec_named_globals(globals.drop_last());
        match globals.last() {
            Global::Def(def) => before + spec_named_typed(def.type_expr, def.expr),
            Global::Let(l) => before + spec_named_typed(l.type_expr, l.expr),
            Global::Init(init) => before + spec_named(init),
            Global::Use(_) | Global::Error(_) => before,
        }
    }
}

/// Whether a name that is referred to is declared nowhere: its head is
/// not in the namespace, and it is not a built-in type.
pub open spec fn spec_is_undefined(named: Named, names: NameMap) -> bool {
    !holds(names, named.name.name@) && !(named.inner_names@.len() == 0 && BuiltInType::is_name(
        named.name.name@,
    ))
}

/// The errors for the undefined among the names referred to.
pub open spec fn spec_undefined(nameds: Seq<Named>, names: NameMap) -> Seq<ErrorView>
    decreases nameds.len(),
{
    if nameds.len() == 0 {
        Seq::empty()
    } else {
        let before = spec_undefined(nameds.drop_last(), names);
        let named = nameds.last();
        if spec_is_undefined(named, names) {
            before.push(
                ErrorView {
                    message: ErrorMessageView::UndefinedIdent(named.name.name@),
                    range: named.name.info.range,
                },
            )
        } else {
            before
        }
    }
}

/// The nodes that a list of references points to.
pub open spec fn refs_model(refs: Seq<&Named>) -> Seq<Named> {
    Seq::new(refs.len(), |i: int| *refs[i])
}

/// A copy of a namespace.
fn copy_names(names: &Namespace) -> (r: Namespace)
    ensures
        names_model(r.entries@) == names_model(names.entries@),
        names.wf() ==> r.wf(),
{
    let mut out = Namespace::new();
    let mut i: usize = 0;
    while i < names.entries.len()
        invariant
            i <= names.entries@.len(),
            out.entries@.len() == i,
            forall|j: int|
                0 <= j < i ==> (#[trigger] out.entries@[j]).0@ == names.entries@[j].0@
                    && out.entries@[j].1@ == names.entries@[j].1@,
        decreases names.entries@.len() - i,
    {
        out.entries.push((names.entries[i].0.clone(), names.entries[i].1.duplicate()));
        i += 1;
    }
    assert(names_model(out.entries@) =~= names_model(names.entries@));
    assert(names.wf() ==> out.wf()) by {
        if names.wf() {
            assert forall|i: int, j: int| 0 <= i < j < out.model().len() implies (
            #[trigger] out.model()[i]).0 != (#[trigger] out.model()[j]).0 by {
                assert(out.model()[i].0 == names.model()[i].0);
                assert(out.model()[j].0 == names.model()[j].0);
            }
        }
    }
    out
}

/// Builds the namespace of a module from its uses and its definitions
/// and lets, and checks every name that the module refers to.
pub fn analyze(uses: &Namespace, module_ast: &ModuleAst) -> (r: NamespaceResult)
    ensures
        ({
            let declared = spec_declare(
                module_ast.ast.globals@,
                module_ast.name@,
                names_model(uses.entries@),
            );
            &&& names_model(r.namespace.entries@) == declared.names
            &&& r.bindings.model() == declared.bindings
            &&& errors_model(r.errors@) == declared.errors + spec_undefined(
                spec_named_globals(module_ast.ast.globals@),
                declared.names,
            )
        }),
        uses.wf() ==> r.namespace.wf(),
        r.bindings.wf(),
        forall|n: int| #[trigger]
            globals_within(module_ast.ast.globals@, n) ==> errors_within(r.errors@, n),
{
    proof {
        assert forall|n: int| #[trigger]
            globals_within(module_ast.ast.globals@, n) implies views_within(
            spec_declare(
                module_ast.ast.globals@,
                module_ast.name@,
                names_model(uses.entries@),
            ).errors + spec_undefined(
                spec_named_globals(module_ast.ast.globals@),
                spec_declare(
                    module_ast.ast.globals@,
                    module_ast.name@,
                    names_model(uses.entries@),
                ).names,
            ),
            n,
        ) by {
            lemma_namespace_within(
                module_ast.ast.globals@,
                module_ast.name@,
                names_model(uses.entries@),
                n,
            );
        }
    }
    let globals = &module_ast.ast.globals;
    let mut namespace = copy_names(uses);
    let mut bindings = BindingMap::new();
    let mut errors: Errors = Vec::new();
    let ghost names0 = names_model(uses.entries@);
    let ghost module = module_ast.name@;
    let mut i: usize = 0;
    proof {
        assert(globals@.take(0) =~= Seq::empty());
        assert(errors_model(errors@) =~= Seq::empty());
        assert(bindings.model() =~= Seq::empty());
    }
    while i < globals.len()
        invariant
            i <= globals@.len(),
            module == module_ast.name@,
            names_model(namespace.entries@) == spec_declare(
                globals@.take(i as int),
                module,
                names0,
            ).names,
            bindings.model() == spec_declare(globals@.take(i as int), module, names0).bindings,
            errors_model(errors@) == spec_declare(globals@.take(i as int), module, names0).errors,
            uses.wf() ==> namespace.wf(),
            bindings.wf(),
        decreases globals@.len() - i,
    {
        proof {
            assert(globals@.take(i + 1).drop_last() =~= globals@.take(i as int));
            assert(globals@.take(i + 1).last() == globals@[i as int]);
        }
        let binder: Option<(&Ident, Binding)> = match &globals[i] {
            Global::Def(d) => match &d.name {
                Some(ident) => Some((ident, Binding::Def)),
                None => None,
            },
            Global::Let(l) => match &l.name {
                Some(ident) => Some((ident, Binding::Let)),
                None => None,
            },
            _ => None,
        };
        match binder {
            Some((ident, binding)) => {
                assert(spec_binder(globals@[i as int]) == Some((*ident, binding)));
                let ghost names_before = names_model(namespace.entries@);
                let ghost errors_before = errors_model(errors@);
                proof {
                    lemma_names_hold(namespace.entries@, ident.name@);
                }
                if namespace.contains_key(&ident.name) {
                    let error = Error::new(
                        ErrorMessage::Redeclaration(ident.name.clone()),
                        ident.info.to_token_range(),
                    );
                    errors.push(error);
                    assert(errors_model(errors@) =~= errors_before.push(error@));
                } else {
                    let global_ident = module_ast.name.duplicate().extend(ident.name.clone());
                    let key = global_ident.duplicate();
                    namespace.insert_new(ident.name.clone(), global_ident);
                    bindings.insert(key, binding);
                    assert(names_model(namespace.entries@) =~= names_before.push(
                        (ident.name@, module.push(ident.name@)),
                    ));
                }
            },
            None => {
                assert(spec_binder(globals@[i as int]) is None);
            },
        }
        i += 1;
    }
    proof {
        assert(globals@.take(i as int) =~= globals@);
    }
    let ghost declared = spec_declare(globals@, module, names0);
    let nameds = get_named_globals(globals);
    let mut k: usize = 0;
    let ghost all = refs_model(nameds@);
    proof {
        assert(all.take(0) =~= Seq::empty());
        assert(declared.errors + Seq::<ErrorView>::empty() =~= declared.errors);
    }
    while k < nameds.len()
        invariant
            k <= nameds@.len(),
            all == refs_model(nameds@),
            names_model(namespace.entries@) == declared.names,
            errors_model(errors@) == declared.errors + spec_undefined(
                all.take(k as int),
                declared.names,
            ),
        decreases nameds@.len() - k,
    {
        proof {
            assert(all.take(k + 1).drop_last() =~= all.take(k as int));
            assert(all.take(k + 1).last() == *nameds@[k as int]);
            lemma_names_hold(namespace.entries@, nameds@[k as int].name.name@);
        }
        let named = nameds[k];
        let ghost errors_before = errors_model(errors@);
        if !namespace.contains_key(&named.name.name) {
            let built_in = named.inner_names.len() == 0 && BuiltInType::from_name(
                &named.name.name,
            ).is_some();
            if !built_in {
                let error = Error::new(
                    ErrorMessage::UndefinedIdent(named.name.name.clone()),
                    named.name.info.to_token_range(),
                );
                errors.push(error);
                assert(errors_model(errors@) =~= errors_before.push(error@));
                assert(errors_before.push(error@) =~= declared.errors + spec_undefined(
                    all.take(k as int),
                    declared.names,
                ).push(error@));
            }
        }
        k += 1;
    }
    proof {
        assert(all.take(k as int) =~= all);
    }
    NamespaceResult { namespace, bindings, errors }
}

/// The names that the globals refer to.
fn get_named_globals<'a>(globals: &'a Vec<Global>) -> (r: Vec<&'a Named>)
    ensures
        refs_model(r@) == spec_named_globals(globals@),
{
    let mut out: Vec<&Named> = Vec::new();
    let mut i: usize = 0;
    proof {
        assert(globals@.take(0) =~= Seq::empty());
        assert(refs_model(out@) =~= Seq::empty());
    }
    while i < globals.len()
        invariant
            i <= globals@.len(),
            refs_model(out@) == spec_named_globals(globals@.take(i as int)),
        decreases globals@.len() - i,
    {
        proof {
            assert(globals@.take(i + 1).drop_last() =~= globals@.take(i as int));
            assert(globals@.take(i + 1).last() == globals@[i as int]);
        }
        let ghost before = refs_model(out@);
        let mut new = match &globals[i] {
            Global::Def(def) => get_named_typed_expr(def),
            Global::Let(l) => get_named_typed_expr(l),
            Global::Init(init) => get_named(init),
            Global::Use(_) | Global::Error(_) => Vec::new(),
        };
        let ghost added = refs_model(new@);
        out.append(&mut new);
        assert(refs_model(out@) =~= before + added);
        assert(before + Seq::<Named>::empty() =~= before);
        i += 1;
    }
    proof {
        assert(globals@.take(i as int) =~= globals@);
    }
    out
}

/// The names that an expression refers to.
fn get_named<'a>(expr: &'a Expr) -> (r: Vec<&'a Named>)
    ensures
        refs_model(r@) == spec_named(*expr),
    decreases expr,
{
    match expr {
        Expr::Union(union) => {
            let mut out = get_named_single(&union.single);
            let mut i: usize = 0;
            proof {
                assert(union.alternatives@.take(0) =~= Seq::empty());
                assert(refs_model(out@) + Seq::<Named>::empty() =~= refs_model(out@));
            }
            while i < union.alternatives.len()
                invariant
                    i <= union.alternatives@.len(),
                    *expr == Expr::Union(*union),
                    refs_model(out@) == spec_named_single(union.single) + spec_named_alternatives(
                        union.alternatives@.take(i as int),
                    ),
                decreases union.alternatives@.len() - i,
            {
                proof {
                    assert(union.alternatives@.take(i + 1).drop_last()
                        =~= union.alternatives@.take(i as int));
                    assert(union.alternatives@.take(i + 1).last() == union.alternatives@[i as int]);
                    assert(expr->Union_0 == *union);
                }
                let ghost before = refs_model(out@);
                match &union.alternatives[i].single {
                    Some(single) => {
                        let mut new = get_named_single(single);
                        let ghost added = refs_model(new@);
                        out.append(&mut new);
                        assert(refs_model(out@) =~= before + added);
                        assert(before + added =~= spec_named_single(union.single) + (
                        spec_named_alternatives(union.alternatives@.take(i as int)) + added));
                    },
                    None => {},
                }
                i += 1;
            }
            proof {
                assert(union.alternatives@.take(i as int) =~= union.alternatives@);
            }
            out
        },
        Expr::Single(single) => get_named_single(single),
        Expr::Error(_) => {
            let out: Vec<&Named> = Vec::new();
            assert(refs_model(out@) =~= Seq::empty());
            out
        },
    }
}

/// The names that a node with a type and a value refers to.
fn get_named_typed_expr<'a, T: TypedExpr>(typed_expr: &'a T) -> (r: Vec<&'a Named>)
    ensures
        refs_model(r@) == spec_named_typed(typed_expr.spec_type_expr(), typed_expr.spec_expr()),
{
    let mut out = match typed_expr.type_expr() {
        Some(type_expr) => get_named(type_expr),
        None => Vec::new(),
    };
    let ghost first = refs_model(out@);
    assert(first =~= spec_named_option(typed_expr.spec_type_expr()));
    let mut second = match typed_expr.expr() {
        Some(expr) => get_named(expr),
        None => Vec::new(),
    };
    let ghost added = refs_model(second@);
    assert(added =~= spec_named_option(typed_expr.spec_expr()));
    out.append(&mut second);
    assert(refs_model(out@) =~= first + added);
    out
}

/// The names that an optional expression refers to.
fn get_named_option<'a>(expr: &'a Option<Expr>) -> (r: Vec<&'a Named>)
    ensures
        refs_model(r@) == spec_named_option(*expr),
    decreases expr,
{
    match expr {
        Some(e) => get_named(e),
        None => {
            let out: Vec<&Named> = Vec::new();
            assert(refs_model(out@) =~= Seq::empty());
            out
        },
    }
}

/// The names that the items of a list refer to.
fn get_named_exprs<'a>(exprs: &'a Vec<Expr>) -> (r: Vec<&'a Named>)
    ensures
        refs_model(r@) == spec_named_exprs(exprs@),
    decreases exprs,
{
    let mut out: Vec<&Named> = Vec::new();
    let mut i: usize = 0;
    proof {
        assert(exprs@.take(0) =~= Seq::empty());
        assert(refs_model(out@) =~= Seq::empty());
    }
    while i < exprs.len()
        invariant
            i <= exprs@.len(),
            refs_model(out@) == spec_named_exprs(exprs@.take(i as int)),
        decreases exprs@.len() - i,
    {
        proof {
            assert(exprs@.take(i + 1).drop_last() =~= exprs@.take(i as int));
            assert(exprs@.take(i + 1).last() == exprs@[i as int]);
        }
        let ghost before = refs_model(out@);
        let mut new = get_named(&exprs[i]);
        let ghost added = refs_model(new@);
        out.append(&mut new);
        assert(refs_model(out@) =~= before + added);
        i += 1;
    }
    proof {
        assert(exprs@.take(i as int) =~= exprs@);
    }
    out
}

/// The names that the fields of a struct refer to.
fn get_named_fields<'a>(fields: &'a Vec<Result<StructField, StructFieldError>>) -> (r: Vec<
    &'a Named,
>)
    ensures
        refs_model(r@) == spec_named_fields(fields@),
    decreases fields,
{
    let mut out: Vec<&Named> = Vec::new();
    let mut i: usize = 0;
    proof {
        assert(fields@.take(0) =~= Seq::empty());
        assert(refs_model(out@) =~= Seq::empty());
    }
    while i < fields.len()
        invariant
            i <= fields@.len(),
            refs_model(out@) == spec_named_fields(fields@.take(i as int)),
        decreases fields@.len() - i,
    {
        proof {
            assert(fields@.take(i + 1).drop_last() =~= fields@.take(i as int));
            assert(fields@.take(i + 1).last() == fields@[i as int]);
        }
        let ghost before = refs_model(out@);
        match &fields[i] {
            Ok(field) => {
                let mut first = get_named_option(&field.type_expr);
                let mut second = get_named_option(&field.expr);
                let ghost added1 = refs_model(first@);
                let ghost added2 = refs_model(second@);
                out.append(&mut first);
                out.append(&mut second);
                assert(refs_model(out@) =~= before + added1 + added2);
            },
            Err(_) => {},
        }
        i += 1;
    }
    proof {
        assert(fields@.take(i as int) =~= fields@);
    }
    out
}

/// The names that a single expression refers to.
fn get_named_single<'a>(single: &'a Single) -> (r: Vec<&'a Named>)
    ensures
        refs_model(r@) == spec_named_single(*single),
    decreases single,
{
    match single {
        Single::Named(named) => {
            let mut out: Vec<&Named> = Vec::new();
            out.push(named);
            let mut inner = match &named.expr {
                Some(StructOrList::List(l)) => get_named_exprs(&l.exprs),
                Some(StructOrList::Struct(s)) => get_named_fields(&s.fields),
                None => Vec::new(),
            };
            let ghost added = refs_model(inner@);
            out.append(&mut inner);
            assert(refs_model(out@) =~= seq![*named] + added);
            out
        },
        Single::List(l) => get_named_exprs(&l.exprs),
        Single::Struct(s) => get_named_fields(&s.fields),
        Single::Primitive(_) => {
            let out: Vec<&Named> = Vec::new();
            assert(refs_model(out@) =~= Seq::empty());
            out
        },
    }
}

/// Whether each of the names spans tokens among the first `n`.
pub open spec fn nameds_within(nameds: Seq<Named>, n: int) -> bool {
    forall|i: int| 0 <= i < nameds.len() ==> info_within((#[trigger] nameds[i]).name.info, n)
}

/// The errors of the declarations lie within the tokens that the
/// globals lie within.
proof fn lemma_declare_within(
    globals: Seq<Global>,
    module: Seq<Seq<char>>,
    names: NameMap,
    n: int,
)
    requires
        globals_within(globals, n),
    ensures
        views_within(spec_declare(globals, module, names).errors, n),
    decreases globals.len(),
{
    if globals.len() > 0 {
        assert forall|i: int| 0 <= i < globals.drop_last().len() implies (
        #[trigger] globals.drop_last()[i]).within(n) by {
            assert(globals[i].within(n));
        }
        lemma_declare_within(globals.drop_last(), module, names, n);
        assert(globals[globals.len() - 1].within(n));
    }
}

/// The errors for undefined names lie within the tokens that the names
/// lie within.
proof fn lemma_undefined_within(nameds: Seq<Named>, names: NameMap, n: int)
    requires
        nameds_within(nameds, n),
    ensures
        views_within(spec_undefined(nameds, names), n),
    decreases nameds.len(),
{
    if nameds.len() > 0 {
        assert forall|i: int| 0 <= i < nameds.drop_last().len() implies info_within(
            (#[trigger] nameds.drop_last()[i]).name.info,
            n,
        ) by {
            assert(info_within(nameds[i].name.info, n));
        }
        lemma_undefined_within(nameds.drop_last(), names, n);
        assert(info_within(nameds[nameds.len() - 1].name.info, n));
    }
}

/// The names that an expression refers to lie within the tokens that
/// the expression lies within.
pub proof fn lemma_named_within(expr: Expr, n: int)
    requires
        expr.within(n),
    ensures
        nameds_within(spec_named(expr), n),
    decreases expr,
{
    match expr {
        Expr::Union(union) => {
            lemma_named_single_within(union.single, n);
            lemma_named_alternatives_within(union.alternatives@, n);
        },
        Expr::Single(single) => {
            lemma_named_single_within(single, n);
        },
        Expr::Error(_) => {},
    }
}

proof fn lemma_named_alternatives_within(alternatives: Seq<UnionAlternative>, n: int)
    requires
        forall|i: int| 0 <= i < alternatives.len() ==> (#[trigger] alternatives[i]).within(n),
    ensures
        nameds_within(spec_named_alternatives(alternatives), n),
    decreases alternatives,
{
    if alternatives.len() > 0 {
        assert forall|i: int| 0 <= i < alternatives.drop_last().len() implies (
        #[trigger] alternatives.drop_last()[i]).within(n) by {
            assert(alternatives[i].within(n));
        }
        lemma_named_alternatives_within(alternatives.drop_last(), n);
        assert(alternatives[alternatives.len() - 1].within(n));
        match alternatives.last().single {
            Some(single) => {
                lemma_named_single_within(single, n);
            },
            None => {},
        }
    }
}

proof fn lemma_named_option_within(expr: Option<Expr>, n: int)
    requires
        expr_within(expr, n),
    ensures
        nameds_within(spec_named_option(expr), n),
    decreases expr,
{
    match expr {
        Some(e) => {
            lemma_named_within(e, n);
        },
        None => {},
    }
}

proof fn lemma_named_exprs_within(exprs: Seq<Expr>, n: int)
    requires
        forall|i: int| 0 <= i < exprs.len() ==> (#[trigger] exprs[i]).within(n),
    ensures
        nameds_within(spec_named_exprs(exprs), n),
    decreases exprs,
{
    if exprs.len() > 0 {
        assert forall|i: int| 0 <= i < exprs.drop_last().len() implies (
        #[trigger] exprs.drop_last()[i]).within(n) by {
            assert(exprs[i].within(n));
        }
        lemma_named_exprs_within(exprs.drop_last(), n);
        assert(exprs[exprs.len() - 1].within(n));
        lemma_named_within(exprs.last(), n);
    }
}

proof fn lemma_named_fields_within(fields: Seq<Result<StructField, StructFieldError>>, n: int)
    requires
        forall|i: int| 0 <= i < fields.len() ==> field_within(#[trigger] fields[i], n),
    ensures
        nameds_within(spec_named_fields(fields), n),
    decreases fields,
{
    if fields.len() > 0 {
        assert forall|i: int| 0 <= i < fields.drop_last().len() implies field_within(
            #[trigger] fields.drop_last()[i],
            n,
        ) by {
            assert(field_within(fields[i], n));
        }
        lemma_named_fields_within(fields.drop_last(), n);
        assert(field_within(fields[fields.len() - 1], n));
        match fields.last() {
            Ok(field) => {
                lemma_named_option_within(field.type_expr, n);
                lemma_named_option_within(field.expr, n);
            },
            Err(_) => {},
        }
    }
}

proof fn lemma_named_single_within(single: Single, n: int)
    requires
        single.within(n),
    ensures
        nameds_within(spec_named_single(single), n),
    decreases single,
{
    match single {
        Single::Named(named) => {
            assert(named.within(n));
            match named.expr {
                Some(StructOrList::List(l)) => {
                    assert(named.expr->Some_0.within(n));
                    assert(l.within(n));
                    lemma_named_exprs_within(l.exprs@, n);
                },
                Some(StructOrList::Struct(s)) => {
                    assert(named.expr->Some_0.within(n));
                    assert(s.within(n));
                    lemma_named_fields_within(s.fields@, n);
                },
                None => {},
            }
        },
        Single::List(l) => {
            lemma_named_exprs_within(l.exprs@, n);
        },
        Single::Struct(s) => {
            lemma_named_fields_within(s.fields@, n);
        },
        Single::Primitive(_) => {},
    }
}

proof fn lemma_named_globals_within(globals: Seq<Global>, n: int)
    requires
        globals_within(globals, n),
    ensures
        nameds_within(spec_named_globals(globals), n),
    decreases globals.len(),
{
    if globals.len() > 0 {
        assert forall|i: int| 0 <= i < globals.drop_last().len() implies (
        #[trigger] globals.drop_last()[i]).within(n) by {
            assert(globals[i].within(n));
        }
        lemma_named_globals_within(globals.drop_last(), n);
        assert(globals[globals.len() - 1].within(n));
        match globals.last() {
            Global::Def(def) => {
                lemma_named_option_within(def.type_expr, n);
                lemma_named_option_within(def.expr, n);
            },
            Global::Let(l) => {
                lemma_named_option_within(l.type_expr, n);
                lemma_named_option_within(l.expr, n);
            },
            Global::Init(init) => {
                lemma_named_within(init, n);
            },
            _ => {},
        }
    }
}

/// The errors of the namespace lie within the tokens that the globals
/// lie within.
pub proof fn lemma_namespace_within(
    globals: Seq<Global>,
    module: Seq<Seq<char>>,
    names: NameMap,
    n: int,
)
    requires
        globals_within(globals, n),
    ensures
        views_within(
            spec_declare(globals, module, names).errors + spec_undefined(
                spec_named_globals(globals),
                spec_declare(globals, module, names).names,
            ),
            n,
        ),
{
    lemma_declare_within(globals, module, names, n);
    lemma_named_globals_within(globals, n);
    lemma_undefined_within(
        spec_named_globals(globals),
        spec_declare(globals, module, names).names,
        n,
    );
}

} // verus!
