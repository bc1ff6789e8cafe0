//! From the expressions of a module to the rules of the type graph and
//! the assertions between them.

use crate::ast::{
    Def, Expr, Ident, Let, List, Named, Single, Struct, StructField, StructFieldError,
    StructOrList, Union, UnionAlternative,
};
use crate::semantics::error::{errors_model, Error, ErrorMessage, ErrorMessageView, ErrorView};
use crate::semantics::namespace::Binding;
use crate::ast::bounds::{expr_within, field_within, ident_within, range_within};
use crate::semantics::error::views_within;
use crate::semantics::types::{
    names_within, rule_within, state_within, Context, FieldRule, Rule, RuleIndex, RuleView,
    TypeDescription, TypeInfo, TypeView, TypesModel,
};
use crate::semantics::uses::lemma_names_hold;
use crate::semantics::{names_model, BindingMap, BindingsModel, NameMap, Namespace};
use crate::table::{holds, keyed, lemma_place, lookup, place, Table};
use crate::token::TokenRange;
use crate::{strings_model, GlobalIdent};
use crate::token::ToTokenRange;
use vstd::prelude::*;

verus! {

/// The state with one more rule, and the place of that rule.
pub open spec fn with_rule(st: TypesModel, description: TypeView, range: TokenRange) -> (
    TypesModel,
    RuleIndex,
) {
    (
        TypesModel { rules: st.rules.push(RuleView { description, range }), ..st },
        st.rules.len() as usize,
    )
}

/// The state with one more error.
pub open spec fn with_error(st: TypesModel, message: ErrorMessageView, range: TokenRange) -> TypesModel {
    TypesModel { errors: st.errors.push(ErrorView { message, range }), ..st }
}

/// The state with one more assertion.
pub open spec fn with_assertion(st: TypesModel, expected: RuleIndex, actual: RuleIndex) -> TypesModel {
    TypesModel { assertions: st.assertions.push((expected, actual)), ..st }
}

/// Whether the rule at a place is a union.
pub open spec fn spec_is_union(st: TypesModel, index: RuleIndex) -> bool {
    index < st.rules.len() && st.rules[index as int].description is Union
}

/// The rules of an expression, and the place of its own rule.
pub open spec fn spec_expr(
    expr: Expr,
    context: Context,
    names: NameMap,
    bindings: BindingsModel,
    st: TypesModel,
) -> (TypesModel, RuleIndex)
    decreases expr,
{
    match expr {
        Expr::Union(union) => spec_union(union, context, names, bindings, st),
        Expr::Single(single) => spec_single(single, context, names, bindings, st),
        Expr::Error(info) => with_rule(st, TypeView::Unknown, info.range),
    }
}

/// The rules of a union: those of its members, then the union of them.
/// An alternative without an expression is left out.
pub open spec fn spec_union(
    union: Union,
    context: Context,
    names: NameMap,
    bindings: BindingsModel,
    st: TypesModel,
) -> (TypesModel, RuleIndex)
    decreases union,
{
    let (s1, first) = spec_single(union.single, context, names, bindings, st);
    let (s2, indices) = spec_alternatives(union.alternatives@, context, names, bindings, s1);
    with_rule(s2, TypeView::Union(seq![first] + indices), union.info.range)
}

/// The rules of the alternatives of a union, and the place of each.
pub open spec fn spec_alternatives(
    alternatives: Seq<UnionAlternative>,
    context: Context,
    names: NameMap,
    bindings: BindingsModel,
    st: TypesModel,
) -> (TypesModel, Seq<RuleIndex>)
    decreases alternatives,
{
    if alternatives.len() == 0 {
        (st, Seq::empty())
    } else {
        let (s1, indices) = spec_alternatives(
            alternatives.drop_last(),
            context,
            names,
            bindings,
            st,
        );
        match alternatives.last().single {
            Some(single) => {
                let (s2, index) = spec_single(single, context, names, bindings, s1);
                (s2, indices.push(index))
            },
            None => (s1, indices),
        }
    }
}

/// The rules of a single expression, and the place of its own rule.
pub open spec fn spec_single(
    single: Single,
    context: Context,
    names: NameMap,
    bindings: BindingsModel,
    st: TypesModel,
) -> (TypesModel, RuleIndex)
    decreases single,
{
    match single {
        Single::Struct(s) => spec_struct(s, context, names, bindings, st),
        Single::List(l) => spec_list(l, context, names, bindings, st),
        Single::Named(n) => spec_named(n, context, names, bindings, st),
        Single::Primitive(p) => with_rule(st, TypeView::Primitive(p@), p.spec_info().range),
    }
}

/// The rules of the literal that a name is applied to.
pub open spec fn spec_struct_or_list(
    expr: StructOrList,
    context: Context,
    names: NameMap,
    bindings: BindingsModel,
    st: TypesModel,
) -> (TypesModel, RuleIndex)
    decreases expr,
{
    match expr {
        StructOrList::Struct(s) => spec_struct(s, context, names, bindings, st),
        StructOrList::List(l) => spec_list(l, context, names, bindings, st),
    }
}

/// The fields of a struct type with one more field: a field of a new
/// name is added; a field of a name that is held already replaces the
/// rule and the default of that name.
pub open spec fn with_field(
    fields: Seq<(Seq<char>, FieldRule)>,
    name: Seq<char>,
    rule: RuleIndex,
    has_default: bool,
    name_range: TokenRange,
) -> Seq<(Seq<char>, FieldRule)> {
    if holds(fields, name) {
        let i = place(fields, name);
        fields.update(i, (name, FieldRule { rule, has_default, name_range: fields[i].1.name_range }))
    } else {
        fields.push((name, FieldRule { rule, has_default, name_range }))
    }
}

/// The rules of the fields of a struct, the fields of the struct type,
/// and an error for each field whose name was given before.
pub open spec fn spec_fields(
    fields: Seq<Result<StructField, StructFieldError>>,
    context: Context,
    names: NameMap,
    bindings: BindingsModel,
    st: TypesModel,
) -> (TypesModel, Seq<(Seq<char>, FieldRule)>, Seq<ErrorView>)
    decreases fields,
{
    if fields.len() == 0 {
        (st, Seq::empty(), Seq::empty())
    } else {
        let (s1, map, duplicates) = spec_fields(fields.drop_last(), context, names, bindings, st);
        match fields.last() {
            Ok(field) => {
                let (s2, index) = spec_field(field, context, names, bindings, s1);
                (
                    s2,
                    with_field(
                        map,
                        field.name.name@,
                        index,
                        field.expr is Some,
                        field.name.info.range,
                    ),
                    if holds(map, field.name.name@) {
                        duplicates.push(
                            ErrorView {
                                message: ErrorMessageView::DuplicateField(field.name.name@),
                                range: field.info.range,
                            },
                        )
                    } else {
                        duplicates
                    },
                )
            },
            Err(_) => (s1, map, duplicates),
        }
    }
}

/// The rules of a struct: those of its fields, then the struct of them.
/// The errors for duplicate fields come after those of the fields.
pub open spec fn spec_struct(
    s: Struct,
    context: Context,
    names: NameMap,
    bindings: BindingsModel,
    st: TypesModel,
) -> (TypesModel, RuleIndex)
    decreases s,
{
    let (s1, fields, duplicates) = spec_fields(s.fields@, context, names, bindings, st);
    with_rule(
        TypesModel { errors: s1.errors + duplicates, ..s1 },
        TypeView::Struct(fields),
        s.info.range,
    )
}

/// The rules of an optional expression, and the place of its own rule.
pub open spec fn spec_option(
    expr: Option<Expr>,
    context: Context,
    names: NameMap,
    bindings: BindingsModel,
    st: TypesModel,
) -> (TypesModel, Option<RuleIndex>)
    decreases expr,
{
    match expr {
        Some(e) => {
            let (s1, index) = spec_expr(e, context, names, bindings, st);
            (s1, Some(index))
        },
        None => (st, None),
    }
}

/// The error for a field that lacks what its context asks for.
pub open spec fn spec_missing(context: Context) -> ErrorMessageView {
    match context {
        Context::Expr => ErrorMessageView::UnassignedField,
        Context::TypeExpr => ErrorMessageView::UntypedField,
    }
}

/// The rules of a field. A field with a type and a value asserts that
/// the value is of the type, unless the value is a union, and stands for
/// its type. A field with a type only stands for the type; where a value
/// is expected, it is unassigned. A field with a value only stands for
/// the value. A field with neither is unknown, and an error.
pub open spec fn spec_field(
    field: StructField,
    context: Context,
    names: NameMap,
    bindings: BindingsModel,
    st: TypesModel,
) -> (TypesModel, RuleIndex)
    decreases field,
{
    let (s1, type_index) = spec_option(field.type_expr, Context::TypeExpr, names, bindings, st);
    let (s2, expr_index) = spec_option(field.expr, context, names, bindings, s1);
    match (type_index, expr_index) {
        (Some(t), Some(e)) => with_rule(
            if spec_is_union(s2, e) {
                s2
            } else {
                with_assertion(s2, t, e)
            },
            TypeView::Rule(t),
            field.info.range,
        ),
        (Some(t), None) => with_rule(
            if context is Expr {
                with_error(s2, ErrorMessageView::UnassignedField, field.info.range)
            } else {
                s2
            },
            TypeView::Rule(t),
            field.info.range,
        ),
        (None, Some(e)) => with_rule(s2, TypeView::Rule(e), field.info.range),
        (None, None) => with_rule(
            with_error(s2, spec_missing(context), field.info.range),
            TypeView::Unknown,
            field.info.range,
        ),
    }
}

/// The rules of a list: those of its items, then the list of them.
pub open spec fn spec_list(
    list: List,
    context: Context,
    names: NameMap,
    bindings: BindingsModel,
    st: TypesModel,
) -> (TypesModel, RuleIndex)
    decreases list,
{
    let (s1, indices) = spec_exprs(list.exprs@, context, names, bindings, st);
    with_rule(s1, TypeView::List(indices), list.info.range)
}

/// The rules of the items of a list, and the place of each.
pub open spec fn spec_exprs(
    exprs: Seq<Expr>,
    context: Context,
    names: NameMap,
    bindings: BindingsModel,
    st: TypesModel,
) -> (TypesModel, Seq<RuleIndex>)
    decreases exprs,
{
    if exprs.len() == 0 {
        (st, Seq::empty())
    } else {
        let (s1, indices) = spec_exprs(exprs.drop_last(), context, names, bindings, st);
        let (s2, index) = spec_expr(exprs.last(), context, names, bindings, s1);
        (s2, indices.push(index))
    }
}

/// The global name that a written name stands for: that of its head in
/// the namespace, followed by the names after the head.
pub open spec fn spec_resolve(names: NameMap, path: Seq<Seq<char>>) -> Option<Seq<Seq<char>>> {
    if path.len() > 0 && holds(names, path[0]) {
        Some(lookup(names, path[0])->Some_0 + path.subrange(1, path.len() as int))
    } else {
        None
    }
}

/// The rule of a name as it is written; unknown where a part of the
/// name is missing.
pub open spec fn spec_written(named: Named) -> TypeView {
    if named.is_complete() {
        TypeView::Ident(
            named.name.name@,
            named.name.info.range,
            named.spec_names().subrange(1, named.spec_names().len() as int),
        )
    } else {
        TypeView::Unknown
    }
}

/// The rules of a name: the name as it is written and, where the name is
/// applied to a literal, the rules of the literal. A name that a let
/// binds cannot be applied; for any other name of the namespace the
/// literal is asserted to be of the type that the name stands for.
pub open spec fn spec_named(
    named: Named,
    context: Context,
    names: NameMap,
    bindings: BindingsModel,
    st: TypesModel,
) -> (TypesModel, RuleIndex)
    decreases named,
{
    let (s1, index) = with_rule(st, spec_written(named), named.info.range);
    match named.expr {
        Some(expr) => {
            let (s2, expr_index) = spec_struct_or_list(expr, context, names, bindings, s1);
            match spec_resolve(names, named.spec_names()) {
                Some(global) => if lookup(bindings, global) == Some(Binding::Let) {
                    (
                        with_error(
                            s2,
                            ErrorMessageView::ImmutableLet(global.last()),
                            named.name.info.range,
                        ),
                        index,
                    )
                } else {
                    (with_assertion(s2, index, expr_index), index)
                },
                None => (s2, index),
            }
        },
        None => (s1, index),
    }
}

/// Whether an expression is nothing but the name `ident`, applied or
/// not.
pub open spec fn spec_refers_to(ident: Ident, expr: Option<Expr>) -> bool {
    match expr {
        Some(Expr::Single(Single::Named(named))) => named.name.name@ == ident.name@,
        _ => false,
    }
}

/// The rules of a definition or a let, and the place of the rule that
/// the binding stands for: its type where it has one, else its value. A
/// binding whose type or value is its own name is an error and has no
/// rule. A value is asserted to be of the type, unless the value is a
/// union where a value is expected.
pub open spec fn spec_binding(
    name: Option<Ident>,
    type_expr: Option<Expr>,
    expr: Option<Expr>,
    context: Context,
    names: NameMap,
    bindings: BindingsModel,
    st: TypesModel,
) -> (TypesModel, Option<RuleIndex>) {
    if name is Some && (spec_refers_to(name->Some_0, type_expr) || spec_refers_to(
        name->Some_0,
        expr,
    )) {
        (
            with_error(
                st,
                ErrorMessageView::SelfReference(name->Some_0.name@),
                name->Some_0.info.range,
            ),
            None,
        )
    } else {
        let (s1, type_index) = spec_option(type_expr, Context::TypeExpr, names, bindings, st);
        let (s2, expr_index) = spec_option(expr, context, names, bindings, s1);
        match (type_index, expr_index) {
            (Some(t), Some(e)) => (
                if context is Expr && spec_is_union(s2, e) {
                    s2
                } else {
                    with_assertion(s2, t, e)
                },
                Some(t),
            ),
            (Some(index), None) => (s2, Some(index)),
            (None, Some(index)) => (s2, Some(index)),
            (None, None) => (s2, None),
        }
    }
}

/// What holds of the state after rules of an expression were added to
/// `old`: the own rule exists, and no index dangles if none did.
pub open spec fn grown(old: TypesModel, new: TypesModel, index: RuleIndex) -> bool {
    &&& old.rules.len() < new.rules.len()
    &&& old.rules.len() <= index < new.rules.len()
    &&& old.wf() ==> new.wf()
}

/// What holds of the state after a step that may add nothing.
pub open spec fn kept(old: TypesModel, new: TypesModel) -> bool {
    &&& old.rules.len() <= new.rules.len()
    &&& old.wf() ==> new.wf()
}

/// Adds a rule and returns its place.
fn push_rule(types_result: &mut TypeInfo, type_description: TypeDescription, info: crate::ast::AstInfo) -> (r:
    RuleIndex)
    requires
        type_description@.below(old(types_result)@.rules.len() as int + 1),
    ensures
        (final(types_result)@, r) == with_rule(
            old(types_result)@,
            type_description@,
            info.range,
        ),
        grown(old(types_result)@, final(types_result)@, r),
{
    let rule = Rule { type_description, info };
    types_result.rules.push(rule);
    proof {
        let old_model = old(types_result)@;
        let new_model = types_result@;
        assert(new_model.rules =~= old_model.rules.push(rule@));
        if old_model.wf() {
            assert forall|i: int| 0 <= i < new_model.rules.len() implies (
            #[trigger] new_model.rules[i]).description.below(new_model.rules.len() as int) by {
                if i < old_model.rules.len() {
                    assert(old_model.rules[i].description.below(old_model.rules.len() as int));
                }
            }
        }
    }
    types_result.rules.len() - 1
}

/// Adds an error.
fn push_error(types_result: &mut TypeInfo, message: ErrorMessage, range: TokenRange)
    ensures
        final(types_result)@ == with_error(old(types_result)@, message@, range),
        kept(old(types_result)@, final(types_result)@),
        final(types_result)@.rules == old(types_result)@.rules,
{
    let error = Error::new(message, range);
    types_result.errors.push(error);
    assert(types_result@.errors =~= old(types_result)@.errors.push(error@));
}

/// Adds an assertion.
fn push_assertion(types_result: &mut TypeInfo, expected: RuleIndex, actual: RuleIndex)
    requires
        expected < old(types_result)@.rules.len(),
        actual < old(types_result)@.rules.len(),
    ensures
        final(types_result)@ == with_assertion(old(types_result)@, expected, actual),
        kept(old(types_result)@, final(types_result)@),
        final(types_result)@.rules == old(types_result)@.rules,
{
    types_result.assertions.push((expected, actual));
}

/// Whether the rule at a place is a union.
fn is_union(types_result: &TypeInfo, rule_index: RuleIndex) -> (r: bool)
    requires
        rule_index < types_result.rules@.len(),
    ensures
        r == spec_is_union(types_result@, rule_index),
{
    match &types_result.rules[rule_index].type_description {
        TypeDescription::Union(_) => true,
        _ => false,
    }
}

/// Adds the rules of an expression and returns the place of its own
/// rule.
pub fn analyze_expr(
    expr: &Expr,
    types_result: &mut TypeInfo,
    context: Context,
    namespace: &Namespace,
    bindings: &BindingMap,
) -> (r: RuleIndex)
    ensures
        (final(types_result)@, r) == spec_expr(
            *expr,
            context,
            names_model(namespace.entries@),
            bindings.model(),
            old(types_result)@,
        ),
        grown(old(types_result)@, final(types_result)@, r),
    decreases expr,
{
    match expr {
        Expr::Union(union) => analyze_union(union, types_result, context, namespace, bindings),
        Expr::Single(single) => analyze_single(single, types_result, context, namespace, bindings),
        Expr::Error(info) => push_rule(types_result, TypeDescription::Unknown, info.duplicate()),
    }
}

fn analyze_union(
    union: &Union,
    types_result: &mut TypeInfo,
    context: Context,
    namespace: &Namespace,
    bindings: &BindingMap,
) -> (r: RuleIndex)
    ensures
        (final(types_result)@, r) == spec_union(
            *union,
            context,
            names_model(namespace.entries@),
            bindings.model(),
            old(types_result)@,
        ),
        grown(old(types_result)@, final(types_result)@, r),
    decreases union,
{
    let ghost names = names_model(namespace.entries@);
    let ghost start = types_result@;
    let mut indices: Vec<RuleIndex> = Vec::new();
    let first = analyze_single(&union.single, types_result, context, namespace, bindings);
    indices.push(first);
    let ghost s1 = types_result@;
    let mut i: usize = 0;
    proof {
        assert(union.alternatives@.take(0) =~= Seq::empty());
        assert(indices@ =~= seq![first] + Seq::<RuleIndex>::empty());
    }
    while i < union.alternatives.len()
        invariant
            i <= union.alternatives@.len(),
            names == names_model(namespace.entries@),
            (s1, first) == spec_single(union.single, context, names, bindings.model(), start),
            types_result@ == spec_alternatives(
                union.alternatives@.take(i as int),
                context,
                names,
                bindings.model(),
                s1,
            ).0,
            indices@ == seq![first] + spec_alternatives(
                union.alternatives@.take(i as int),
                context,
                names,
                bindings.model(),
                s1,
            ).1,
            kept(s1, types_result@),
            forall|k: int| 0 <= k < indices@.len() ==> (#[trigger] indices@[k]) < types_result@.rules.len(),
        decreases union.alternatives@.len() - i,
    {
        proof {
            assert(union.alternatives@.take(i + 1).drop_last() =~= union.alternatives@.take(
                i as int,
            ));
            assert(union.alternatives@.take(i + 1).last() == union.alternatives@[i as int]);
        }
        match &union.alternatives[i].single {
            Some(single) => {
                let index = analyze_single(single, types_result, context, namespace, bindings);
                indices.push(index);
                assert(indices@ =~= seq![first] + spec_alternatives(
                    union.alternatives@.take(i + 1),
                    context,
                    names,
                    bindings.model(),
                    s1,
                ).1);
            },
            None => {},
        }
        i += 1;
    }
    proof {
        assert(union.alternatives@.take(i as int) =~= union.alternatives@);
    }
    push_rule(types_result, TypeDescription::Union(indices), union.info.duplicate())
}

fn analyze_single(
    single: &Single,
    types_result: &mut TypeInfo,
    context: Context,
    namespace: &Namespace,
    bindings: &BindingMap,
) -> (r: RuleIndex)
    ensures
        (final(types_result)@, r) == spec_single(
            *single,
            context,
            names_model(namespace.entries@),
            bindings.model(),
            old(types_result)@,
        ),
        grown(old(types_result)@, final(types_result)@, r),
    decreases single,
{
    match single {
        Single::Struct(s) => analyze_struct(s, types_result, context, namespace, bindings),
        Single::List(list) => analyze_list(list, types_result, context, namespace, bindings),
        Single::Named(named) => analyze_named(named, types_result, context, namespace, bindings),
        Single::Primitive(primitive) => push_rule(
            types_result,
            TypeDescription::Primitive(primitive.duplicate()),
            primitive.info().duplicate(),
        ),
    }
}

fn analyze_struct_or_list(
    expr: &StructOrList,
    types_result: &mut TypeInfo,
    context: Context,
    namespace: &Namespace,
    bindings: &BindingMap,
) -> (r: RuleIndex)
    ensures
        (final(types_result)@, r) == spec_struct_or_list(
            *expr,
            context,
            names_model(namespace.entries@),
            bindings.model(),
            old(types_result)@,
        ),
        grown(old(types_result)@, final(types_result)@, r),
    decreases expr,
{
    match expr {
        StructOrList::Struct(s) => analyze_struct(s, types_result, context, namespace, bindings),
        StructOrList::List(l) => analyze_list(l, types_result, context, namespace, bindings),
    }
}

/// Adds a field to the fields of a struct type.
fn insert_field(
    fields: &mut Table<String, FieldRule>,
    name: String,
    rule: RuleIndex,
    has_default: bool,
    name_range: TokenRange,
)
    ensures
        final(fields).model() == with_field(
            old(fields).model(),
            name@,
            rule,
            has_default,
            name_range,
        ),
{
    match fields.position(&name) {
        Some(i) => {
            let kept = fields.entries[i].1.name_range.start..fields.entries[i].1.name_range.end;
            fields.entries[i] = (name, FieldRule { rule, has_default, name_range: kept });
            assert(fields.model() =~= with_field(
                old(fields).model(),
                name@,
                rule,
                has_default,
                name_range,
            ));
        },
        None => {
            fields.entries.push((name, FieldRule { rule, has_default, name_range }));
            assert(fields.model() =~= with_field(
                old(fields).model(),
                name@,
                rule,
                has_default,
                name_range,
            ));
        },
    }
}

/// The rules of the fields stay below the bound when a field is added.
proof fn lemma_with_field_below(
    fields: Seq<(Seq<char>, FieldRule)>,
    name: Seq<char>,
    rule: RuleIndex,
    has_default: bool,
    name_range: TokenRange,
    bound: int,
)
    requires
        forall|k: int| 0 <= k < fields.len() ==> (#[trigger] fields[k]).1.rule < bound,
        rule < bound,
    ensures
        forall|k: int|
            0 <= k < with_field(fields, name, rule, has_default, name_range).len() ==> (
            #[trigger] with_field(fields, name, rule, has_default, name_range)[k]).1.rule < bound,
{
    if holds(fields, name) {
        lemma_place(fields, name);
    }
    let after = with_field(fields, name, rule, has_default, name_range);
    assert forall|k: int| 0 <= k < after.len() implies (#[trigger] after[k]).1.rule < bound by {
        if k < fields.len() && !(holds(fields, name) && k == place(fields, name)) {
            assert(after[k] == fields[k]);
        }
    }
}

fn analyze_struct(
    s: &Struct,
    types_result: &mut TypeInfo,
    context: Context,
    namespace: &Namespace,
    bindings: &BindingMap,
) -> (r: RuleIndex)
    ensures
        (final(types_result)@, r) == spec_struct(
            *s,
            context,
            names_model(namespace.entries@),
            bindings.model(),
            old(types_result)@,
        ),
        grown(old(types_result)@, final(types_result)@, r),
    decreases s,
{
    let ghost names = names_model(namespace.entries@);
    let ghost start = types_result@;
    let mut map: Table<String, FieldRule> = Table::new();
    let mut errors: Vec<Error> = Vec::new();
    let mut i: usize = 0;
    proof {
        assert(s.fields@.take(0) =~= Seq::empty());
        assert(map.model() =~= Seq::empty());
        assert(errors_model(errors@) =~= Seq::empty());
    }
    while i < s.fields.len()
        invariant
            i <= s.fields@.len(),
            names == names_model(namespace.entries@),
            (types_result@, map.model(), errors_model(errors@)) == spec_fields(
                s.fields@.take(i as int),
                context,
                names,
                bindings.model(),
                start,
            ),
            kept(start, types_result@),
            forall|k: int|
                0 <= k < map.model().len() ==> (#[trigger] map.model()[k]).1.rule
                    < types_result@.rules.len(),
        decreases s.fields@.len() - i,
    {
        proof {
            assert(s.fields@.take(i + 1).drop_last() =~= s.fields@.take(i as int));
            assert(s.fields@.take(i + 1).last() == s.fields@[i as int]);
        }
        match &s.fields[i] {
            Ok(field) => {
                let ghost errors_before = errors_model(errors@);
                let ghost map_before = map.model();
                if map.contains_key(&field.name.name) {
                    let error = Error::new(
                        ErrorMessage::DuplicateField(field.name.name.clone()),
                        field.info.to_token_range(),
                    );
                    errors.push(error);
                    assert(errors_model(errors@) =~= errors_before.push(error@));
                }
                let index = analyze_field(field, types_result, context, namespace, bindings);
                proof {
                    lemma_with_field_below(
                        map_before,
                        field.name.name@,
                        index,
                        field.expr is Some,
                        field.name.info.range,
                        types_result@.rules.len() as int,
                    );
                }
                insert_field(
                    &mut map,
                    field.name.name.clone(),
                    index,
                    field.expr.is_some(),
                    field.name.info.to_token_range(),
                );
            },
            Err(_) => {},
        }
        i += 1;
    }
    proof {
        assert(s.fields@.take(i as int) =~= s.fields@);
    }
    let ghost before = types_result@;
    let ghost duplicates = errors_model(errors@);
    types_result.errors.append(&mut errors);
    proof {
        assert(types_result@.errors =~= before.errors + duplicates);
        assert(types_result@ == (TypesModel { errors: before.errors + duplicates, ..before }));
    }
    push_rule(types_result, TypeDescription::Struct(map), s.info.duplicate())
}

fn analyze_option(
    expr: &Option<Expr>,
    types_result: &mut TypeInfo,
    context: Context,
    namespace: &Namespace,
    bindings: &BindingMap,
) -> (r: Option<RuleIndex>)
    ensures
        (final(types_result)@, r) == spec_option(
            *expr,
            context,
            names_model(namespace.entries@),
            bindings.model(),
            old(types_result)@,
        ),
        kept(old(types_result)@, final(types_result)@),
        r matches Some(index) ==> index < final(types_result)@.rules.len(),
    decreases expr,
{
    match expr {
        Some(e) => Some(analyze_expr(e, types_result, context, namespace, bindings)),
        None => None,
    }
}

fn analyze_field(
    field: &StructField,
    types_result: &mut TypeInfo,
    context: Context,
    namespace: &Namespace,
    bindings: &BindingMap,
) -> (r: RuleIndex)
    ensures
        (final(types_result)@, r) == spec_field(
            *field,
            context,
            names_model(namespace.entries@),
            bindings.model(),
            old(types_result)@,
        ),
        grown(old(types_result)@, final(types_result)@, r),
    decreases field,
{
    let type_index = analyze_option(
        &field.type_expr,
        types_result,
        Context::TypeExpr,
        namespace,
        bindings,
    );
    let expr_index = analyze_option(&field.expr, types_result, context, namespace, bindings);
    match (type_index, expr_index) {
        (Some(type_expr_index), Some(expr_index)) => {
            if !is_union(types_result, expr_index) {
                push_assertion(types_result, type_expr_index, expr_index);
            }
            push_rule(types_result, TypeDescription::Rule(type_expr_index), field.info.duplicate())
        },
        (Some(type_expr_index), None) => {
            match context {
                Context::Expr => {
                    push_error(
                        types_result,
                        ErrorMessage::UnassignedField,
                        field.info.to_token_range(),
                    );
                },
                Context::TypeExpr => {},
            }
            push_rule(types_result, TypeDescription::Rule(type_expr_index), field.info.duplicate())
        },
        (None, Some(expr_index)) => push_rule(
            types_result,
            TypeDescription::Rule(expr_index),
            field.info.duplicate(),
        ),
        (None, None) => {
            let message = match context {
                Context::Expr => ErrorMessage::UnassignedField,
                Context::TypeExpr => ErrorMessage::UntypedField,
            };
            push_error(types_result, message, field.info.to_token_range());
            push_rule(types_result, TypeDescription::Unknown, field.info.duplicate())
        },
    }
}

fn analyze_list(
    list: &List,
    types_result: &mut TypeInfo,
    context: Context,
    namespace: &Namespace,
    bindings: &BindingMap,
) -> (r: RuleIndex)
    ensures
        (final(types_result)@, r) == spec_list(
            *list,
            context,
            names_model(namespace.entries@),
            bindings.model(),
            old(types_result)@,
        ),
        grown(old(types_result)@, final(types_result)@, r),
    decreases list,
{
    let ghost names = names_model(namespace.entries@);
    let ghost start = types_result@;
    let mut indices: Vec<RuleIndex> = Vec::new();
    let mut i: usize = 0;
    proof {
        assert(list.exprs@.take(0) =~= Seq::empty());
    }
    while i < list.exprs.len()
        invariant
            i <= list.exprs@.len(),
            names == names_model(namespace.entries@),
            (types_result@, indices@) == spec_exprs(
                list.exprs@.take(i as int),
                context,
                names,
                bindings.model(),
                start,
            ),
            kept(start, types_result@),
            forall|k: int| 0 <= k < indices@.len() ==> (#[trigger] indices@[k]) < types_result@.rules.len(),
        decreases list.exprs@.len() - i,
    {
        proof {
            assert(list.exprs@.take(i + 1).drop_last() =~= list.exprs@.take(i as int));
            assert(list.exprs@.take(i + 1).last() == list.exprs@[i as int]);
        }
        let index = analyze_expr(&list.exprs[i], types_result, context, namespace, bindings);
        indices.push(index);
        i += 1;
    }
    proof {
        assert(list.exprs@.take(i as int) =~= list.exprs@);
    }
    push_rule(types_result, TypeDescription::List(indices), list.info.duplicate())
}

/// The value that a namespace gives a name is the content of the entry
/// at the first place of the name.
pub proof fn lemma_names_lookup(entries: Seq<(String, GlobalIdent)>, name: Seq<char>)
    requires
        holds(keyed(entries), name),
    ensures
        holds(names_model(entries), name),
        place(keyed(entries), name) == place(names_model(entries), name),
        lookup(names_model(entries), name) == Some(entries[place(keyed(entries), name)].1@),
{
    lemma_names_hold(entries, name);
    lemma_place(keyed(entries), name);
    lemma_place(names_model(entries), name);
    let i = place(keyed(entries), name);
    let j = place(names_model(entries), name);
    assert(names_model(entries)[i].0 == name);
    assert(keyed(entries)[j].0 == name);
    if i < j {
        assert(names_model(entries)[i].0 != name);
    }
    if j < i {
        assert(keyed(entries)[j].0 != name);
    }
}

/// The global name that a written name stands for.
pub fn resolve(namespace: &Namespace, names: &Vec<&String>) -> (r: Option<GlobalIdent>)
    ensures
        r.is_some() == spec_resolve(
            names_model(namespace.entries@),
            Seq::new(names@.len(), |i: int| names@[i]@),
        ).is_some(),
        r matches Some(global) ==> Some(global@) == spec_resolve(
            names_model(namespace.entries@),
            Seq::new(names@.len(), |i: int| names@[i]@),
        ),
{
    let ghost path = Seq::new(names@.len(), |i: int| names@[i]@);
    if names.len() == 0 {
        return None;
    }
    proof {
        lemma_names_hold(namespace.entries@, names@[0]@);
    }
    match namespace.position(names[0]) {
        Some(p) => {
            proof {
                lemma_names_lookup(namespace.entries@, names@[0]@);
            }
            let mut global = namespace.entries[p].1.duplicate();
            let ghost head = global@;
            let mut i: usize = 1;
            assert(path.subrange(1, 1) =~= Seq::empty());
            assert(head + Seq::<Seq<char>>::empty() =~= head);
            while i < names.len()
                invariant
                    1 <= i <= names@.len(),
                    path == Seq::new(names@.len(), |i: int| names@[i]@),
                    global@ == head + path.subrange(1, i as int),
                decreases names@.len() - i,
            {
                let ghost before = global@;
                global = global.extend(names[i].clone());
                assert(global@ =~= head + path.subrange(1, i + 1));
                i += 1;
            }
            Some(global)
        },
        None => None,
    }
}

/// The rule of a name as it is written.
fn written(named: &Named) -> (r: TypeDescription)
    ensures
        r@ == spec_written(*named),
{
    let names = named.names();
    if names.len() == 0 {
        TypeDescription::Unknown
    } else {
        let mut tail: Vec<String> = Vec::new();
        let mut i: usize = 1;
        while i < names.len()
            invariant
                1 <= i <= names@.len(),
                tail@.len() == i - 1,
                forall|j: int| 0 <= j < i - 1 ==> (#[trigger] tail@[j])@ == names@[j + 1]@,
            decreases names@.len() - i,
        {
            tail.push(names[i].clone());
            i += 1;
        }
        let head = named.name.duplicate();
        assert(strings_model(tail@) =~= named.spec_names().subrange(
            1,
            named.spec_names().len() as int,
        ));
        TypeDescription::Ident(head, tail)
    }
}

fn analyze_named(
    named: &Named,
    types_result: &mut TypeInfo,
    context: Context,
    namespace: &Namespace,
    bindings: &BindingMap,
) -> (r: RuleIndex)
    ensures
        (final(types_result)@, r) == spec_named(
            *named,
            context,
            names_model(namespace.entries@),
            bindings.model(),
            old(types_result)@,
        ),
        grown(old(types_result)@, final(types_result)@, r),
    decreases named,
{
    let ghost start = types_result@;
    let named_rule_index = push_rule(types_result, written(named), named.info.duplicate());
    match &named.expr {
        Some(expr) => {
            let expr_rule_index = analyze_struct_or_list(
                expr,
                types_result,
                context,
                namespace,
                bindings,
            );
            let names = named.names();
            assert(Seq::new(names@.len(), |i: int| names@[i]@) =~= named.spec_names());
            match resolve(namespace, &names) {
                Some(ident) => {
                    let is_let = match bindings.get(&ident) {
                        Some(Binding::Let) => true,
                        _ => false,
                    };
                    if is_let {
                        let n = ident.path.len();
                        let end = if n > 0 {
                            ident.path[n - 1].clone()
                        } else {
                            ident.root.clone()
                        };
                        assert(end@ == ident@.last());
                        push_error(
                            types_result,
                            ErrorMessage::ImmutableLet(end),
                            named.name.info.to_token_range(),
                        );
                    } else {
                        push_assertion(types_result, named_rule_index, expr_rule_index);
                    }
                },
                None => {},
            }
        },
        None => {},
    }
    named_rule_index
}

/// Whether an expression is nothing but the name `ident`.
fn refers_to(ident: &Ident, expr: &Option<Expr>) -> (r: bool)
    ensures
        r == spec_refers_to(*ident, *expr),
{
    match expr {
        Some(Expr::Single(Single::Named(named))) => named.name.name == ident.name,
        _ => false,
    }
}

/// Adds the rules of a definition, whose expression stands where a type
/// is expected.
pub fn analyze_def(
    def: &Def,
    types_result: &mut TypeInfo,
    namespace: &Namespace,
    bindings: &BindingMap,
) -> (r: Option<RuleIndex>)
    ensures
        (final(types_result)@, r) == spec_binding(
            def.name,
            def.type_expr,
            def.expr,
            Context::TypeExpr,
            names_model(namespace.entries@),
            bindings.model(),
            old(types_result)@,
        ),
        kept(old(types_result)@, final(types_result)@),
        r matches Some(index) ==> index < final(types_result)@.rules.len(),
{
    analyze_binding(
        &def.name,
        &def.type_expr,
        &def.expr,
        types_result,
        Context::TypeExpr,
        namespace,
        bindings,
    )
}

/// Adds the rules of a let, whose expression stands where a value is
/// expected.
pub fn analyze_let(
    l: &Let,
    types_result: &mut TypeInfo,
    namespace: &Namespace,
    bindings: &BindingMap,
) -> (r: Option<RuleIndex>)
    ensures
        (final(types_result)@, r) == spec_binding(
            l.name,
            l.type_expr,
            l.expr,
            Context::Expr,
            names_model(namespace.entries@),
            bindings.model(),
            old(types_result)@,
        ),
        kept(old(types_result)@, final(types_result)@),
        r matches Some(index) ==> index < final(types_result)@.rules.len(),
{
    analyze_binding(&l.name, &l.type_expr, &l.expr, types_result, Context::Expr, namespace, bindings)
}

/// Adds the rules of a definition or a let. Returns the place of the
/// rule that the binding stands for.
fn analyze_binding(
    name: &Option<Ident>,
    type_expr: &Option<Expr>,
    expr: &Option<Expr>,
    types_result: &mut TypeInfo,
    context: Context,
    namespace: &Namespace,
    bindings: &BindingMap,
) -> (r: Option<RuleIndex>)
    ensures
        (final(types_result)@, r) == spec_binding(
            *name,
            *type_expr,
            *expr,
            context,
            names_model(namespace.entries@),
            bindings.model(),
            old(types_result)@,
        ),
        kept(old(types_result)@, final(types_result)@),
        r matches Some(index) ==> index < final(types_result)@.rules.len(),
{
    match name {
        Some(name) => {
            if refers_to(name, type_expr) || refers_to(name, expr) {
                push_error(
                    types_result,
                    ErrorMessage::SelfReference(name.name.clone()),
                    name.info.to_token_range(),
                );
                return None;
            }
        },
        None => {},
    }
    let type_index = analyze_option(type_expr, types_result, Context::TypeExpr, namespace, bindings);
    let expr_index = analyze_option(expr, types_result, context, namespace, bindings);
    match (type_index, expr_index) {
        (Some(type_expr_index), Some(expr_index)) => {
            let in_value = match context {
                Context::Expr => true,
                Context::TypeExpr => false,
            };
            if !(in_value && is_union(types_result, expr_index)) {
                push_assertion(types_result, type_expr_index, expr_index);
            }
            Some(type_expr_index)
        },
        (Some(index), None) => Some(index),
        (None, Some(index)) => Some(index),
        (None, None) => None,
    }
}

/// A state with one more rule that lies within the tokens lies within
/// them.
proof fn lemma_with_rule_within(st: TypesModel, description: TypeView, range: TokenRange, n: int)
    requires
        state_within(st, n),
        rule_within(RuleView { description, range }, n),
    ensures
        state_within(with_rule(st, description, range).0, n),
{
    let after = with_rule(st, description, range).0;
    assert forall|i: int| 0 <= i < after.rules.len() implies rule_within(
        #[trigger] after.rules[i],
        n,
    ) by {
        if i < st.rules.len() {
            assert(rule_within(st.rules[i], n));
        }
    }
}

/// The fields with one more field whose name lies within the tokens
/// lie within them.
proof fn lemma_with_field_within(
    fields: Seq<(Seq<char>, FieldRule)>,
    name: Seq<char>,
    rule: RuleIndex,
    has_default: bool,
    name_range: TokenRange,
    n: int,
)
    requires
        names_within(fields, n),
        range_within(name_range, n),
    ensures
        names_within(with_field(fields, name, rule, has_default, name_range), n),
{
    if holds(fields, name) {
        lemma_place(fields, name);
    }
    let after = with_field(fields, name, rule, has_default, name_range);
    assert forall|k: int| 0 <= k < after.len() implies range_within(
        (#[trigger] after[k]).1.name_range,
        n,
    ) by {
        if k < fields.len() {
            assert(range_within(fields[k].1.name_range, n));
        }
    }
}

/// The rules and errors of an expression lie within the tokens that
/// the expression lies within.
pub proof fn lemma_expr_within(
    expr: Expr,
    context: Context,
    names: NameMap,
    bindings: BindingsModel,
    st: TypesModel,
    n: int,
)
    requires
        expr.within(n),
        state_within(st, n),
    ensures
        state_within(spec_expr(expr, context, names, bindings, st).0, n),
    decreases expr,
{
    match expr {
        Expr::Union(union) => {
            assert(union.within(n));
            lemma_single_within(union.single, context, names, bindings, st, n);
            let (s1, first) = spec_single(union.single, context, names, bindings, st);
            lemma_alternatives_within(union.alternatives@, context, names, bindings, s1, n);
            let (s2, indices) = spec_alternatives(
                union.alternatives@,
                context,
                names,
                bindings,
                s1,
            );
            lemma_with_rule_within(s2, TypeView::Union(seq![first] + indices), union.info.range, n);
        },
        Expr::Single(single) => {
            lemma_single_within(single, context, names, bindings, st, n);
        },
        Expr::Error(info) => {
            lemma_with_rule_within(st, TypeView::Unknown, info.range, n);
        },
    }
}

pub proof fn lemma_alternatives_within(
    alternatives: Seq<UnionAlternative>,
    context: Context,
    names: NameMap,
    bindings: BindingsModel,
    st: TypesModel,
    n: int,
)
    requires
        forall|i: int| 0 <= i < alternatives.len() ==> (#[trigger] alternatives[i]).within(n),
        state_within(st, n),
    ensures
        state_within(spec_alternatives(alternatives, context, names, bindings, st).0, n),
    decreases alternatives,
{
    if alternatives.len() > 0 {
        assert forall|i: int| 0 <= i < alternatives.drop_last().len() implies (
        #[trigger] alternatives.drop_last()[i]).within(n) by {
            assert(alternatives[i].within(n));
        }
        lemma_alternatives_within(alternatives.drop_last(), context, names, bindings, st, n);
        assert(alternatives[alternatives.len() - 1].within(n));
        match alternatives.last().single {
            Some(single) => {
                lemma_single_within(
                    single,
                    context,
                    names,
                    bindings,
                    spec_alternatives(alternatives.drop_last(), context, names, bindings, st).0,
                    n,
                );
            },
            None => {},
        }
    }
}

pub proof fn lemma_single_within(
    single: Single,
    context: Context,
    names: NameMap,
    bindings: BindingsModel,
    st: TypesModel,
    n: int,
)
    requires
        single.within(n),
        state_within(st, n),
    ensures
        state_within(spec_single(single, context, names, bindings, st).0, n),
    decreases single,
{
    match single {
        Single::Struct(s) => {
            lemma_struct_within(s, context, names, bindings, st, n);
        },
        Single::List(l) => {
            lemma_list_within(l, context, names, bindings, st, n);
        },
        Single::Named(named) => {
            lemma_named_within(named, context, names, bindings, st, n);
        },
        Single::Primitive(p) => {
            assert(p.within(n));
            lemma_with_rule_within(st, TypeView::Primitive(p@), p.spec_info().range, n);
        },
    }
}

proof fn lemma_struct_or_list_within(
    expr: StructOrList,
    context: Context,
    names: NameMap,
    bindings: BindingsModel,
    st: TypesModel,
    n: int,
)
    requires
        expr.within(n),
        state_within(st, n),
    ensures
        state_within(spec_struct_or_list(expr, context, names, bindings, st).0, n),
    decreases expr,
{
    match expr {
        StructOrList::Struct(s) => {
            lemma_struct_within(s, context, names, bindings, st, n);
        },
        StructOrList::List(l) => {
            lemma_list_within(l, context, names, bindings, st, n);
        },
    }
}

pub proof fn lemma_fields_within(
    fields: Seq<Result<StructField, StructFieldError>>,
    context: Context,
    names: NameMap,
    bindings: BindingsModel,
    st: TypesModel,
    n: int,
)
    requires
        forall|i: int| 0 <= i < fields.len() ==> field_within(#[trigger] fields[i], n),
        state_within(st, n),
    ensures
        state_within(spec_fields(fields, context, names, bindings, st).0, n),
        names_within(spec_fields(fields, context, names, bindings, st).1, n),
        views_within(spec_fields(fields, context, names, bindings, st).2, n),
    decreases fields,
{
    if fields.len() > 0 {
        assert forall|i: int| 0 <= i < fields.drop_last().len() implies field_within(
            #[trigger] fields.drop_last()[i],
            n,
        ) by {
            assert(field_within(fields[i], n));
        }
        lemma_fields_within(fields.drop_last(), context, names, bindings, st, n);
        assert(field_within(fields[fields.len() - 1], n));
        let (s1, map, duplicates) = spec_fields(fields.drop_last(), context, names, bindings, st);
        match fields.last() {
            Ok(field) => {
                lemma_field_within(field, context, names, bindings, s1, n);
                let (s2, index) = spec_field(field, context, names, bindings, s1);
                lemma_with_field_within(
                    map,
                    field.name.name@,
                    index,
                    field.expr is Some,
                    field.name.info.range,
                    n,
                );
            },
            Err(_) => {},
        }
    }
}

pub proof fn lemma_struct_within(
    s: Struct,
    context: Context,
    names: NameMap,
    bindings: BindingsModel,
    st: TypesModel,
    n: int,
)
    requires
        s.within(n),
        state_within(st, n),
    ensures
        state_within(spec_struct(s, context, names, bindings, st).0, n),
    decreases s,
{
    lemma_fields_within(s.fields@, context, names, bindings, st, n);
    let (s1, fields, duplicates) = spec_fields(s.fields@, context, names, bindings, st);
    let s2 = TypesModel { errors: s1.errors + duplicates, ..s1 };
    assert(state_within(s2, n));
    lemma_with_rule_within(s2, TypeView::Struct(fields), s.info.range, n);
}

pub proof fn lemma_option_within(
    expr: Option<Expr>,
    context: Context,
    names: NameMap,
    bindings: BindingsModel,
    st: TypesModel,
    n: int,
)
    requires
        expr_within(expr, n),
        state_within(st, n),
    ensures
        state_within(spec_option(expr, context, names, bindings, st).0, n),
    decreases expr,
{
    match expr {
        Some(e) => {
            lemma_expr_within(e, context, names, bindings, st, n);
        },
        None => {},
    }
}

pub proof fn lemma_field_within(
    field: StructField,
    context: Context,
    names: NameMap,
    bindings: BindingsModel,
    st: TypesModel,
    n: int,
)
    requires
        field.within(n),
        state_within(st, n),
    ensures
        state_within(spec_field(field, context, names, bindings, st).0, n),
    decreases field,
{
    lemma_option_within(field.type_expr, Context::TypeExpr, names, bindings, st, n);
    let (s1, type_index) = spec_option(field.type_expr, Context::TypeExpr, names, bindings, st);
    lemma_option_within(field.expr, context, names, bindings, s1, n);
    let (s2, expr_index) = spec_option(field.expr, context, names, bindings, s1);
    match (type_index, expr_index) {
        (Some(t), Some(e)) => {
            let s3 = if spec_is_union(s2, e) {
                s2
            } else {
                with_assertion(s2, t, e)
            };
            lemma_with_rule_within(s3, TypeView::Rule(t), field.info.range, n);
        },
        (Some(t), None) => {
            let s3 = if context is Expr {
                with_error(s2, ErrorMessageView::UnassignedField, field.info.range)
            } else {
                s2
            };
            lemma_with_rule_within(s3, TypeView::Rule(t), field.info.range, n);
        },
        (None, Some(e)) => {
            lemma_with_rule_within(s2, TypeView::Rule(e), field.info.range, n);
        },
        (None, None) => {
            lemma_with_rule_within(
                with_error(s2, spec_missing(context), field.info.range),
                TypeView::Unknown,
                field.info.range,
                n,
            );
        },
    }
}

pub proof fn lemma_list_within(
    list: List,
    context: Context,
    names: NameMap,
    bindings: BindingsModel,
    st: TypesModel,
    n: int,
)
    requires
        list.within(n),
        state_within(st, n),
    ensures
        state_within(spec_list(list, context, names, bindings, st).0, n),
    decreases list,
{
    lemma_exprs_within(list.exprs@, context, names, bindings, st, n);
    let (s1, indices) = spec_exprs(list.exprs@, context, names, bindings, st);
    lemma_with_rule_within(s1, TypeView::List(indices), list.info.range, n);
}

pub proof fn lemma_exprs_within(
    exprs: Seq<Expr>,
    context: Context,
    names: NameMap,
    bindings: BindingsModel,
    st: TypesModel,
    n: int,
)
    requires
        forall|i: int| 0 <= i < exprs.len() ==> (#[trigger] exprs[i]).within(n),
        state_within(st, n),
    ensures
        state_within(spec_exprs(exprs, context, names, bindings, st).0, n),
    decreases exprs,
{
    if exprs.len() > 0 {
        assert forall|i: int| 0 <= i < exprs.drop_last().len() implies (
        #[trigger] exprs.drop_last()[i]).within(n) by {
            assert(exprs[i].within(n));
        }
        lemma_exprs_within(exprs.drop_last(), context, names, bindings, st, n);
        assert(exprs[exprs.len() - 1].within(n));
        lemma_expr_within(
            exprs.last(),
            context,
            names,
            bindings,
            spec_exprs(exprs.drop_last(), context, names, bindings, st).0,
            n,
        );
    }
}

pub proof fn lemma_named_within(
    named: Named,
    context: Context,
    names: NameMap,
    bindings: BindingsModel,
    st: TypesModel,
    n: int,
)
    requires
        named.within(n),
        state_within(st, n),
    ensures
        state_within(spec_named(named, context, names, bindings, st).0, n),
    decreases named,
{
    lemma_with_rule_within(st, spec_written(named), named.info.range, n);
    let (s1, index) = with_rule(st, spec_written(named), named.info.range);
    match named.expr {
        Some(expr) => {
            lemma_struct_or_list_within(expr, context, names, bindings, s1, n);
        },
        None => {},
    }
}

/// The rules and errors of a definition or a let lie within the tokens
/// that it lies within.
pub proof fn lemma_binding_within(
    name: Option<Ident>,
    type_expr: Option<Expr>,
    expr: Option<Expr>,
    context: Context,
    names: NameMap,
    bindings: BindingsModel,
    st: TypesModel,
    n: int,
)
    requires
        ident_within(name, n),
        expr_within(type_expr, n),
        expr_within(expr, n),
        state_within(st, n),
    ensures
        state_within(spec_binding(name, type_expr, expr, context, names, bindings, st).0, n),
{
    lemma_option_within(type_expr, Context::TypeExpr, names, bindings, st, n);
    let (s1, type_index) = spec_option(type_expr, Context::TypeExpr, names, bindings, st);
    lemma_option_within(expr, context, names, bindings, s1, n);
}

} // verus!
