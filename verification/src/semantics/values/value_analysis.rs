//! From an expression to the rules of the value graph.

use crate::ast::{
    Expr, List, Named, Single, Struct, StructField, StructFieldError, StructOrList, Union,
    UnionAlternative,
};
use crate::semantics::values::{
    all_below, fields_below, rules_model, rules_wf, DescriptionView, Rule, RuleIndex, RuleView,
    ValueDescription,
};
use crate::ast::bounds::{expr_within, field_within, range_within};
use crate::table::{holds, lemma_place, place, put, Table};
use vstd::prelude::*;

verus! {

/// The rule list with one more rule that is no default.
pub open spec fn with_rule(
    rules: Seq<RuleView>,
    description: DescriptionView,
    range: crate::token::TokenRange,
) -> Seq<RuleView> {
    rules.push(RuleView { description, is_default: false, range })
}

/// The place of the last rule.
pub open spec fn last_index(rules: Seq<RuleView>) -> RuleIndex {
    (rules.len() - 1) as usize
}

/// The rule list after the rules of an expression were added. The rule
/// of the expression itself comes last.
pub open spec fn spec_expr(expr: Expr, rules: Seq<RuleView>) -> Seq<RuleView>
    decreases expr,
{
    match expr {
        Expr::Single(single) => spec_single(single, rules),
        Expr::Union(union) => spec_union(union, rules),
        Expr::Error(info) => with_rule(rules, DescriptionView::Unknown, info.range),
    }
}

/// The rules of a union: those of its first member, those of each
/// alternative, then the union of them.
pub open spec fn spec_union(union: Union, rules: Seq<RuleView>) -> Seq<RuleView>
    decreases union,
{
    let first = spec_single(union.single, rules);
    let (all, indices) = spec_alternatives(union.alternatives@, first);
    with_rule(all, DescriptionView::Union(seq![last_index(first)] + indices), union.info.range)
}

/// The rules of the alternatives of a union, and the place of the rule
/// of each. An alternative without an expression is unknown.
pub open spec fn spec_alternatives(alternatives: Seq<UnionAlternative>, rules: Seq<RuleView>) -> (
    Seq<RuleView>,
    Seq<RuleIndex>,
)
    decreases alternatives,
{
    if alternatives.len() == 0 {
        (rules, Seq::empty())
    } else {
        let (before, indices) = spec_alternatives(alternatives.drop_last(), rules);
        let alternative = alternatives.last();
        let after = match alternative.single {
            Some(single) => spec_single(single, before),
            None => with_rule(before, DescriptionView::Unknown, alternative.info.range),
        };
        (after, indices.push(last_index(after)))
    }
}

/// The rules of a single expression.
pub open spec fn spec_single(single: Single, rules: Seq<RuleView>) -> Seq<RuleView>
    decreases single,
{
    match single {
        Single::Struct(s) => spec_struct(s, rules),
        Single::List(l) => spec_list(l, rules),
        Single::Named(n) => spec_named(n, rules),
        Single::Primitive(p) => with_rule(
            rules,
            DescriptionView::Primitive(p.spec_eval()),
            p.spec_info().range,
        ),
    }
}

/// The rules of a name: a reference to the flattened name and, where the
/// name is applied to a literal, the rules of the literal and their
/// composition with what the name refers to.
pub open spec fn spec_named(named: Named, rules: Seq<RuleView>) -> Seq<RuleView>
    decreases named,
{
    let reference = with_rule(
        rules,
        DescriptionView::Ref(named.spec_flat_name(), named.spec_flat_range()),
        named.spec_flat_range(),
    );
    match named.expr {
        Some(StructOrList::Struct(s)) => {
            let own = spec_struct(s, reference);
            with_rule(
                own,
                DescriptionView::Composed(last_index(own), last_index(reference)),
                named.info.range,
            )
        },
        Some(StructOrList::List(l)) => {
            let own = spec_list(l, reference);
            with_rule(
                own,
                DescriptionView::Composed(last_index(own), last_index(reference)),
                named.info.range,
            )
        },
        None => reference,
    }
}

/// The rules of a struct: those of its fields, then the struct of them.
pub open spec fn spec_struct(s: Struct, rules: Seq<RuleView>) -> Seq<RuleView>
    decreases s,
{
    let (all, fields) = spec_fields(s.fields@, rules);
    with_rule(all, DescriptionView::Struct(fields), s.info.range)
}

/// The rules of the fields of a struct, and the place of the rule of
/// each under the field's name. A later field replaces an earlier one of
/// the same name.
pub open spec fn spec_fields(
    fields: Seq<Result<StructField, StructFieldError>>,
    rules: Seq<RuleView>,
) -> (Seq<RuleView>, Seq<(Seq<char>, RuleIndex)>)
    decreases fields,
{
    if fields.len() == 0 {
        (rules, Seq::empty())
    } else {
        let (before, map) = spec_fields(fields.drop_last(), rules);
        match fields.last() {
            Ok(field) => {
                let after = spec_field(field, before);
                (after, put(map, field.name.name@, last_index(after)))
            },
            Err(_) => (before, map),
        }
    }
}

/// The rule list after the rules of an optional expression were added.
pub open spec fn spec_option(expr: Option<Expr>, rules: Seq<RuleView>) -> Seq<RuleView>
    decreases expr,
{
    match expr {
        Some(e) => spec_expr(e, rules),
        None => rules,
    }
}

/// The rule list with the last rule marked as a default, or as none.
pub open spec fn with_default(rules: Seq<RuleView>, is_default: bool) -> Seq<RuleView> {
    rules.update(rules.len() - 1, RuleView { is_default, ..rules.last() })
}

/// The rules of a field. With a type and a value: both, and their
/// composition as a default. With a value only: the value as a default.
/// With a type only: the type, no default. With neither: an empty rule.
pub open spec fn spec_field(field: StructField, rules: Seq<RuleView>) -> Seq<RuleView>
    decreases field,
{
    let typed = spec_option(field.type_expr, rules);
    let valued = spec_option(field.expr, typed);
    match (field.type_expr, field.expr) {
        (Some(_), Some(_)) => valued.push(
            RuleView {
                description: DescriptionView::Composed(last_index(valued), last_index(typed)),
                is_default: true,
                range: field.info.range,
            },
        ),
        (None, Some(_)) => with_default(valued, true),
        (Some(_), None) => with_default(valued, false),
        (None, None) => with_rule(valued, DescriptionView::Empty, field.info.range),
    }
}

/// The rules of a list: those of its items, then the list of them.
pub open spec fn spec_list(list: List, rules: Seq<RuleView>) -> Seq<RuleView>
    decreases list,
{
    let (all, indices) = spec_exprs(list.exprs@, rules);
    with_rule(all, DescriptionView::List(indices), list.info.range)
}

/// The rules of the items of a list, and the place of the rule of each.
pub open spec fn spec_exprs(exprs: Seq<Expr>, rules: Seq<RuleView>) -> (
    Seq<RuleView>,
    Seq<RuleIndex>,
)
    decreases exprs,
{
    if exprs.len() == 0 {
        (rules, Seq::empty())
    } else {
        let (before, indices) = spec_exprs(exprs.drop_last(), rules);
        let after = spec_expr(exprs.last(), before);
        (after, indices.push(last_index(after)))
    }
}

/// What holds of the rule list after rules were added to `old`.
pub open spec fn grown(old: Seq<RuleView>, new: Seq<RuleView>) -> bool {
    &&& old.len() < new.len()
    &&& new.take(old.len() as int) == old
    &&& rules_wf(old) ==> rules_wf(new)
}

/// Adds a rule that is no default, and returns its place.
fn push_rule(rules: &mut Vec<Rule>, value_description: ValueDescription, info: crate::ast::AstInfo) -> (r:
    RuleIndex)
    requires
        value_description@.below(old(rules)@.len() as int),
    ensures
        rules_model(final(rules)@) == with_rule(
            rules_model(old(rules)@),
            value_description@,
            info.range,
        ),
        grown(rules_model(old(rules)@), rules_model(final(rules)@)),
        r == last_index(rules_model(final(rules)@)),
        r == old(rules)@.len(),
{
    let rule = Rule { value_description, is_default: false, info };
    rules.push(rule);
    proof {
        let old_model = rules_model(old(rules)@);
        let new_model = rules_model(rules@);
        assert(new_model =~= with_rule(old_model, value_description@, info.range));
        assert(new_model.take(old_model.len() as int) =~= old_model);
    }
    rules.len() - 1
}

/// Adds the rules of an expression to the rule list and returns the
/// place of the rule of the expression itself, which is the last.
pub fn analyze(expr: &Expr, rules: &mut Vec<Rule>) -> (r: RuleIndex)
    ensures
        rules_model(final(rules)@) == spec_expr(*expr, rules_model(old(rules)@)),
        grown(rules_model(old(rules)@), rules_model(final(rules)@)),
        r == last_index(rules_model(final(rules)@)),
    decreases expr,
{
    match expr {
        Expr::Single(single) => analyze_single(single, rules),
        Expr::Union(union) => analyze_union(union, rules),
        Expr::Error(info) => push_rule(rules, ValueDescription::Unknown, info.duplicate()),
    }
}

fn analyze_union(union: &Union, rules: &mut Vec<Rule>) -> (r: RuleIndex)
    ensures
        rules_model(final(rules)@) == spec_union(*union, rules_model(old(rules)@)),
        grown(rules_model(old(rules)@), rules_model(final(rules)@)),
        r == last_index(rules_model(final(rules)@)),
    decreases union,
{
    let ghost start = rules_model(rules@);
    let mut indices: Vec<RuleIndex> = Vec::new();
    indices.push(analyze_single(&union.single, rules));
    let ghost first = rules_model(rules@);
    let mut i: usize = 0;
    proof {
        assert(union.alternatives@.take(0) =~= Seq::empty());
        assert(indices@ =~= seq![last_index(first)] + Seq::<RuleIndex>::empty());
    }
    while i < union.alternatives.len()
        invariant
            i <= union.alternatives@.len(),
            first == spec_single(union.single, start),
            grown(start, first),
            rules_model(rules@) == spec_alternatives(union.alternatives@.take(i as int), first).0,
            indices@ == seq![last_index(first)] + spec_alternatives(
                union.alternatives@.take(i as int),
                first,
            ).1,
            first.len() <= rules@.len(),
            rules_model(rules@).take(first.len() as int) == first,
            rules_wf(first) ==> rules_wf(rules_model(rules@)),
            forall|k: int| 0 <= k < indices@.len() ==> (#[trigger] indices@[k]) < rules@.len(),
        decreases union.alternatives@.len() - i,
    {
        proof {
            assert(union.alternatives@.take(i + 1).drop_last() =~= union.alternatives@.take(
                i as int,
            ));
            assert(union.alternatives@.take(i + 1).last() == union.alternatives@[i as int]);
        }
        let ghost before = rules_model(rules@);
        let ghost indices_before = indices@;
        let alternative = &union.alternatives[i];
        let index = match &alternative.single {
            Some(single) => analyze_single(single, rules),
            None => push_rule(rules, ValueDescription::Unknown, alternative.info.duplicate()),
        };
        indices.push(index);
        proof {
            let after = rules_model(rules@);
            assert(after.take(first.len() as int) =~= before.take(first.len() as int)) by {
                assert(after.take(before.len() as int) == before);
                assert(after.take(before.len() as int).take(first.len() as int) =~= after.take(
                    first.len() as int,
                ));
            }
            assert(indices@ =~= seq![last_index(first)] + spec_alternatives(
                union.alternatives@.take(i + 1),
                first,
            ).1);
        }
        i += 1;
    }
    proof {
        assert(union.alternatives@.take(i as int) =~= union.alternatives@);
    }
    let ghost all = rules_model(rules@);
    let r = push_rule(rules, ValueDescription::Union(indices), union.info.duplicate());
    proof {
        let after = rules_model(rules@);
        assert(after.take(start.len() as int) =~= start) by {
            assert(after.take(all.len() as int) == all);
            assert(all.take(first.len() as int) == first);
            assert(first.take(start.len() as int) == start);
            assert(after.take(all.len() as int).take(first.len() as int).take(start.len() as int)
                =~= after.take(start.len() as int));
        }
    }
    r
}

fn analyze_single(single: &Single, rules: &mut Vec<Rule>) -> (r: RuleIndex)
    ensures
        rules_model(final(rules)@) == spec_single(*single, rules_model(old(rules)@)),
        grown(rules_model(old(rules)@), rules_model(final(rules)@)),
        r == last_index(rules_model(final(rules)@)),
    decreases single,
{
    match single {
        Single::Struct(s) => analyze_struct(s, rules),
        Single::List(l) => analyze_list(l, rules),
        Single::Named(n) => analyze_named(n, rules),
        Single::Primitive(p) => push_rule(
            rules,
            ValueDescription::Primitive(p.eval()),
            p.info().duplicate(),
        ),
    }
}

fn analyze_named(named: &Named, rules: &mut Vec<Rule>) -> (r: RuleIndex)
    ensures
        rules_model(final(rules)@) == spec_named(*named, rules_model(old(rules)@)),
        grown(rules_model(old(rules)@), rules_model(final(rules)@)),
        r == last_index(rules_model(final(rules)@)),
    decreases named,
{
    let ghost start = rules_model(rules@);
    let ident = named.flatten_name();
    let info = ident.info.duplicate();
    let ident_rule_index = push_rule(rules, ValueDescription::Ref(ident), info);
    let ghost reference = rules_model(rules@);
    match &named.expr {
        Some(s_or_l) => {
            let expr_rule_index = match s_or_l {
                StructOrList::Struct(s) => analyze_struct(s, rules),
                StructOrList::List(l) => analyze_list(l, rules),
            };
            let ghost own = rules_model(rules@);
            let r = push_rule(
                rules,
                ValueDescription::Composed(expr_rule_index, ident_rule_index),
                named.info.duplicate(),
            );
            proof {
                let after = rules_model(rules@);
                assert(after.take(start.len() as int) =~= start) by {
                    assert(after.take(own.len() as int) == own);
                    assert(own.take(reference.len() as int) == reference);
                    assert(reference.take(start.len() as int) == start);
                    assert(after.take(own.len() as int).take(reference.len() as int).take(
                        start.len() as int,
                    ) =~= after.take(start.len() as int));
                }
            }
            r
        },
        None => ident_rule_index,
    }
}

fn analyze_struct(s: &Struct, rules: &mut Vec<Rule>) -> (r: RuleIndex)
    ensures
        rules_model(final(rules)@) == spec_struct(*s, rules_model(old(rules)@)),
        grown(rules_model(old(rules)@), rules_model(final(rules)@)),
        r == last_index(rules_model(final(rules)@)),
    decreases s,
{
    let ghost start = rules_model(rules@);
    let mut map: Table<String, RuleIndex> = Table::new();
    let mut i: usize = 0;
    proof {
        assert(s.fields@.take(0) =~= Seq::empty());
        assert(map.model() =~= Seq::empty());
        assert(start.take(start.len() as int) =~= start);
    }
    while i < s.fields.len()
        invariant
            i <= s.fields@.len(),
            rules_model(rules@) == spec_fields(s.fields@.take(i as int), start).0,
            map.model() == spec_fields(s.fields@.take(i as int), start).1,
            start.len() <= rules@.len(),
            rules_model(rules@).take(start.len() as int) == start,
            rules_wf(start) ==> rules_wf(rules_model(rules@)),
            forall|k: int| 0 <= k < map.model().len() ==> (#[trigger] map.model()[k]).1 < rules@.len(),
        decreases s.fields@.len() - i,
    {
        proof {
            assert(s.fields@.take(i + 1).drop_last() =~= s.fields@.take(i as int));
            assert(s.fields@.take(i + 1).last() == s.fields@[i as int]);
        }
        let ghost before = rules_model(rules@);
        match &s.fields[i] {
            Ok(field) => {
                let name = field.name.name.clone();
                let index = analyze_field(field, rules);
                let ghost map_before = map.model();
                map.insert(name, index);
                proof {
                    if holds(map_before, name@) {
                        lemma_place(map_before, name@);
                    }
                    assert forall|k: int| 0 <= k < map.model().len() implies (
                    #[trigger] map.model()[k]).1 < rules@.len() by {
                        if k < map_before.len() && !(holds(map_before, name@) && k == place(
                            map_before,
                            name@,
                        )) {
                            assert(map.model()[k] == map_before[k]);
                        }
                    }
                    let after = rules_model(rules@);
                    assert(after.take(start.len() as int) =~= start) by {
                        assert(after.take(before.len() as int) == before);
                        assert(after.take(before.len() as int).take(start.len() as int)
                            =~= after.take(start.len() as int));
                    }
                }
            },
            Err(_) => {},
        }
        i += 1;
    }
    proof {
        assert(s.fields@.take(i as int) =~= s.fields@);
    }
    let ghost all = rules_model(rules@);
    let r = push_rule(rules, ValueDescription::Struct(map), s.info.duplicate());
    proof {
        let after = rules_model(rules@);
        assert(after.take(start.len() as int) =~= start) by {
            assert(after.take(all.len() as int) == all);
            assert(after.take(all.len() as int).take(start.len() as int) =~= after.take(
                start.len() as int,
            ));
        }
    }
    r
}

fn analyze_list(list: &List, rules: &mut Vec<Rule>) -> (r: RuleIndex)
    ensures
        rules_model(final(rules)@) == spec_list(*list, rules_model(old(rules)@)),
        grown(rules_model(old(rules)@), rules_model(final(rules)@)),
        r == last_index(rules_model(final(rules)@)),
    decreases list,
{
    let ghost start = rules_model(rules@);
    let mut indices: Vec<RuleIndex> = Vec::new();
    let mut i: usize = 0;
    proof {
        assert(list.exprs@.take(0) =~= Seq::empty());
        assert(start.take(start.len() as int) =~= start);
    }
    while i < list.exprs.len()
        invariant
            i <= list.exprs@.len(),
            rules_model(rules@) == spec_exprs(list.exprs@.take(i as int), start).0,
            indices@ == spec_exprs(list.exprs@.take(i as int), start).1,
            start.len() <= rules@.len(),
            rules_model(rules@).take(start.len() as int) == start,
            rules_wf(start) ==> rules_wf(rules_model(rules@)),
            forall|k: int| 0 <= k < indices@.len() ==> (#[trigger] indices@[k]) < rules@.len(),
        decreases list.exprs@.len() - i,
    {
        proof {
            assert(list.exprs@.take(i + 1).drop_last() =~= list.exprs@.take(i as int));
            assert(list.exprs@.take(i + 1).last() == list.exprs@[i as int]);
        }
        let ghost before = rules_model(rules@);
        let index = analyze(&list.exprs[i], rules);
        indices.push(index);
        proof {
            let after = rules_model(rules@);
            assert(after.take(start.len() as int) =~= start) by {
                assert(after.take(before.len() as int) == before);
                assert(after.take(before.len() as int).take(start.len() as int) =~= after.take(
                    start.len() as int,
                ));
            }
        }
        i += 1;
    }
    proof {
        assert(list.exprs@.take(i as int) =~= list.exprs@);
    }
    let ghost all = rules_model(rules@);
    let r = push_rule(rules, ValueDescription::List(indices), list.info.duplicate());
    proof {
        let after = rules_model(rules@);
        assert(after.take(start.len() as int) =~= start) by {
            assert(after.take(all.len() as int) == all);
            assert(after.take(all.len() as int).take(start.len() as int) =~= after.take(
                start.len() as int,
            ));
        }
    }
    r
}

/// Marks the last rule as a default, or as none.
fn set_default(rules: &mut Vec<Rule>, is_default: bool)
    requires
        old(rules)@.len() > 0,
    ensures
        rules_model(final(rules)@) == with_default(rules_model(old(rules)@), is_default),
        final(rules)@.len() == old(rules)@.len(),
        rules_wf(rules_model(old(rules)@)) ==> rules_wf(rules_model(final(rules)@)),
{
    let last = rules.len() - 1;
    rules[last].is_default = is_default;
    proof {
        let old_model = rules_model(old(rules)@);
        let new_model = rules_model(rules@);
        assert(new_model =~= with_default(old_model, is_default));
        if rules_wf(old_model) {
            assert forall|i: int| 0 <= i < new_model.len() implies (
            #[trigger] new_model[i]).description.below(i) by {
                assert(old_model[i].description.below(i));
            }
        }
    }
}

fn analyze_field(field: &StructField, rules: &mut Vec<Rule>) -> (r: RuleIndex)
    ensures
        rules_model(final(rules)@) == spec_field(*field, rules_model(old(rules)@)),
        grown(rules_model(old(rules)@), rules_model(final(rules)@)),
        r == last_index(rules_model(final(rules)@)),
    decreases field,
{
    let ghost start = rules_model(rules@);
    let type_expr_index = match &field.type_expr {
        Some(type_expr) => Some(analyze(type_expr, rules)),
        None => None,
    };
    let ghost typed = rules_model(rules@);
    let expr_index = match &field.expr {
        Some(expr) => Some(analyze(expr, rules)),
        None => None,
    };
    let ghost valued = rules_model(rules@);
    proof {
        assert(start.take(start.len() as int) =~= start);
        assert(typed.take(typed.len() as int) =~= typed);
        assert(valued.take(start.len() as int) =~= start) by {
            assert(valued.take(typed.len() as int) == typed);
            assert(valued.take(typed.len() as int).take(start.len() as int) =~= valued.take(
                start.len() as int,
            ));
        }
    }
    match (type_expr_index, expr_index) {
        (Some(type_expr_index), Some(expr_index)) => {
            let rule = Rule {
                value_description: ValueDescription::Composed(expr_index, type_expr_index),
                is_default: true,
                info: field.info.duplicate(),
            };
            rules.push(rule);
            proof {
                let after = rules_model(rules@);
                assert(after =~= valued.push(rule@));
                assert(after.take(start.len() as int) =~= start);
                if rules_wf(valued) {
                    assert forall|i: int| 0 <= i < after.len() implies (
                    #[trigger] after[i]).description.below(i) by {
                        if i < valued.len() {
                            assert(valued[i].description.below(i));
                        }
                    }
                }
            }
            rules.len() - 1
        },
        (None, Some(expr_index)) => {
            set_default(rules, true);
            proof {
                let after = rules_model(rules@);
                assert(after.take(start.len() as int) =~= start);
            }
            expr_index
        },
        (Some(type_expr_index), None) => {
            set_default(rules, false);
            proof {
                let after = rules_model(rules@);
                assert(after.take(start.len() as int) =~= start);
            }
            type_expr_index
        },
        (None, None) => push_rule(rules, ValueDescription::Empty, field.info.duplicate()),
    }
}

/// The rule of a union is a union.
pub proof fn lemma_union_rule(union: Union, rules: Seq<RuleView>)
    ensures
        spec_expr(Expr::Union(union), rules).last().description is Union,
{
}

/// Whether the range of a rule, and of the name it refers to, lies
/// within the first `n` tokens.
pub open spec fn rule_within(rule: RuleView, n: int) -> bool {
    range_within(rule.range, n) && match rule.description {
        DescriptionView::Ref(_, range) => range_within(range, n),
        _ => true,
    }
}

/// Whether the ranges of all rules lie within the first `n` tokens.
pub open spec fn rules_within(rules: Seq<RuleView>, n: int) -> bool {
    forall|i: int| 0 <= i < rules.len() ==> rule_within(#[trigger] rules[i], n)
}

/// The rules of an expression lie within the tokens that the expression
/// lies within.
pub proof fn lemma_expr_within(expr: Expr, rules: Seq<RuleView>, n: int)
    requires
        expr.within(n),
        rules_within(rules, n),
    ensures
        rules_within(spec_expr(expr, rules), n),
        rules.len() < spec_expr(expr, rules).len(),
    decreases expr,
{
    match expr {
        Expr::Single(single) => {
            lemma_single_within(single, rules, n);
        },
        Expr::Union(union) => {
            assert(union.within(n));
            lemma_single_within(union.single, rules, n);
            lemma_alternatives_within(union.alternatives@, spec_single(union.single, rules), n);
        },
        Expr::Error(_) => {},
    }
}

pub proof fn lemma_alternatives_within(
    alternatives: Seq<UnionAlternative>,
    rules: Seq<RuleView>,
    n: int,
)
    requires
        forall|i: int| 0 <= i < alternatives.len() ==> (#[trigger] alternatives[i]).within(n),
        rules_within(rules, n),
    ensures
        rules_within(spec_alternatives(alternatives, rules).0, n),
        rules.len() <= spec_alternatives(alternatives, rules).0.len(),
    decreases alternatives,
{
    if alternatives.len() > 0 {
        assert forall|i: int| 0 <= i < alternatives.drop_last().len() implies (
        #[trigger] alternatives.drop_last()[i]).within(n) by {
            assert(alternatives[i].within(n));
        }
        lemma_alternatives_within(alternatives.drop_last(), rules, n);
        assert(alternatives[alternatives.len() - 1].within(n));
        match alternatives.last().single {
            Some(single) => {
                lemma_single_within(
                    single,
                    spec_alternatives(alternatives.drop_last(), rules).0,
                    n,
                );
            },
            None => {},
        }
    }
}

pub proof fn lemma_single_within(single: Single, rules: Seq<RuleView>, n: int)
    requires
        single.within(n),
        rules_within(rules, n),
    ensures
        rules_within(spec_single(single, rules), n),
        rules.len() < spec_single(single, rules).len(),
    decreases single,
{
    match single {
        Single::Struct(s) => {
            lemma_struct_within(s, rules, n);
        },
        Single::List(l) => {
            lemma_list_within(l, rules, n);
        },
        Single::Named(named) => {
            lemma_named_within(named, rules, n);
        },
        Single::Primitive(p) => {
            assert(p.within(n));
        },
    }
}

pub proof fn lemma_named_within(named: Named, rules: Seq<RuleView>, n: int)
    requires
        named.within(n),
        rules_within(rules, n),
    ensures
        rules_within(spec_named(named, rules), n),
        rules.len() < spec_named(named, rules).len(),
    decreases named,
{
    let range = named.spec_flat_range();
    assert(range_within(range, n)) by {
        if named.inner_names@.len() > 0 {
            let last = named.inner_names@.len() - 1;
            assert(named.name.info.range.start <= named.inner_names@[last].info.range.end <= n);
        }
    }
    let reference = with_rule(
        rules,
        DescriptionView::Ref(named.spec_flat_name(), range),
        range,
    );
    assert(rules_within(reference, n)) by {
        assert forall|i: int| 0 <= i < reference.len() implies rule_within(
            #[trigger] reference[i],
            n,
        ) by {
            if i < rules.len() {
                assert(rule_within(rules[i], n));
            }
        }
    }
    match named.expr {
        Some(StructOrList::Struct(s)) => {
            assert(named.expr->Some_0.within(n));
            lemma_struct_within(s, reference, n);
        },
        Some(StructOrList::List(l)) => {
            assert(named.expr->Some_0.within(n));
            lemma_list_within(l, reference, n);
        },
        None => {},
    }
}

pub proof fn lemma_struct_within(s: Struct, rules: Seq<RuleView>, n: int)
    requires
        s.within(n),
        rules_within(rules, n),
    ensures
        rules_within(spec_struct(s, rules), n),
        rules.len() < spec_struct(s, rules).len(),
    decreases s,
{
    lemma_fields_within(s.fields@, rules, n);
}

pub proof fn lemma_fields_within(
    fields: Seq<Result<StructField, StructFieldError>>,
    rules: Seq<RuleView>,
    n: int,
)
    requires
        forall|i: int| 0 <= i < fields.len() ==> field_within(#[trigger] fields[i], n),
        rules_within(rules, n),
    ensures
        rules_within(spec_fields(fields, rules).0, n),
        rules.len() <= spec_fields(fields, rules).0.len(),
    decreases fields,
{
    if fields.len() > 0 {
        assert forall|i: int| 0 <= i < fields.drop_last().len() implies field_within(
            #[trigger] fields.drop_last()[i],
            n,
        ) by {
            assert(field_within(fields[i], n));
        }
        lemma_fields_within(fields.drop_last(), rules, n);
        assert(field_within(fields[fields.len() - 1], n));
        match fields.last() {
            Ok(field) => {
                lemma_field_within(field, spec_fields(fields.drop_last(), rules).0, n);
            },
            Err(_) => {},
        }
    }
}

pub proof fn lemma_option_within(expr: Option<Expr>, rules: Seq<RuleView>, n: int)
    requires
        expr_within(expr, n),
        rules_within(rules, n),
    ensures
        rules_within(spec_option(expr, rules), n),
        rules.len() <= spec_option(expr, rules).len(),
        expr is Some ==> rules.len() < spec_option(expr, rules).len(),
    decreases expr,
{
    match expr {
        Some(e) => {
            lemma_expr_within(e, rules, n);
        },
        None => {},
    }
}

pub proof fn lemma_field_within(field: StructField, rules: Seq<RuleView>, n: int)
    requires
        field.within(n),
        rules_within(rules, n),
    ensures
        rules_within(spec_field(field, rules), n),
        rules.len() < spec_field(field, rules).len(),
    decreases field,
{
    lemma_option_within(field.type_expr, rules, n);
    let typed = spec_option(field.type_expr, rules);
    lemma_option_within(field.expr, typed, n);
    let valued = spec_option(field.expr, typed);
    let all = spec_field(field, rules);
    assert forall|i: int| 0 <= i < all.len() implies rule_within(#[trigger] all[i], n) by {
        if i < valued.len() {
            assert(rule_within(valued[i], n));
        }
    }
}

pub proof fn lemma_list_within(list: List, rules: Seq<RuleView>, n: int)
    requires
        list.within(n),
        rules_within(rules, n),
    ensures
        rules_within(spec_list(list, rules), n),
        rules.len() < spec_list(list, rules).len(),
    decreases list,
{
    lemma_exprs_within(list.exprs@, rules, n);
}

pub proof fn lemma_exprs_within(exprs: Seq<Expr>, rules: Seq<RuleView>, n: int)
    requires
        forall|i: int| 0 <= i < exprs.len() ==> (#[trigger] exprs[i]).within(n),
        rules_within(rules, n),
    ensures
        rules_within(spec_exprs(exprs, rules).0, n),
        rules.len() <= spec_exprs(exprs, rules).0.len(),
    decreases exprs,
{
    if exprs.len() > 0 {
        assert forall|i: int| 0 <= i < exprs.drop_last().len() implies (
        #[trigger] exprs.drop_last()[i]).within(n) by {
            assert(exprs[i].within(n));
        }
        lemma_exprs_within(exprs.drop_last(), rules, n);
        assert(exprs[exprs.len() - 1].within(n));
        lemma_expr_within(exprs.last(), spec_exprs(exprs.drop_last(), rules).0, n);
    }
}

/// Whether `new` holds the rules of `old`, unchanged, and more.
pub open spec fn extends(old: Seq<RuleView>, new: Seq<RuleView>) -> bool {
    old.len() <= new.len() && new.take(old.len() as int) == old
}

/// What extends an extension extends what was extended.
pub proof fn lemma_extends_trans(a: Seq<RuleView>, b: Seq<RuleView>, c: Seq<RuleView>)
    requires
        extends(a, b),
        extends(b, c),
    ensures
        extends(a, c),
{
    assert(c.take(a.len() as int) =~= c.take(b.len() as int).take(a.len() as int));
}

/// One more rule extends the rules.
pub proof fn lemma_extends_rule(rules: Seq<RuleView>, rule: RuleView)
    ensures
        extends(rules, rules.push(rule)),
        extends(rules, rules),
{
    assert(rules.push(rule).take(rules.len() as int) =~= rules);
    assert(rules.take(rules.len() as int) =~= rules);
}

/// The rules of an expression are added to the rules that are there,
/// which stay as they are.
pub proof fn lemma_expr_extends(expr: Expr, rules: Seq<RuleView>)
    ensures
        extends(rules, spec_expr(expr, rules)),
        rules.len() < spec_expr(expr, rules).len(),
    decreases expr,
{
    match expr {
        Expr::Single(single) => {
            lemma_single_extends(single, rules);
        },
        Expr::Union(union) => {
            lemma_single_extends(union.single, rules);
            let first = spec_single(union.single, rules);
            lemma_alternatives_extends(union.alternatives@, first);
            let all = spec_alternatives(union.alternatives@, first).0;
            lemma_extends_trans(rules, first, all);
            lemma_extends_rule(all, spec_expr(expr, rules).last());
            assert(spec_expr(expr, rules) == all.push(spec_expr(expr, rules).last()));
            lemma_extends_trans(rules, all, spec_expr(expr, rules));
        },
        Expr::Error(info) => {
            lemma_extends_rule(rules, spec_expr(expr, rules).last());
        },
    }
}

proof fn lemma_alternatives_extends(alternatives: Seq<UnionAlternative>, rules: Seq<RuleView>)
    ensures
        extends(rules, spec_alternatives(alternatives, rules).0),
    decreases alternatives,
{
    if alternatives.len() > 0 {
        lemma_alternatives_extends(alternatives.drop_last(), rules);
        let before = spec_alternatives(alternatives.drop_last(), rules).0;
        let after = spec_alternatives(alternatives, rules).0;
        match alternatives.last().single {
            Some(single) => {
                lemma_single_extends(single, before);
            },
            None => {
                lemma_extends_rule(before, after.last());
            },
        }
        lemma_extends_trans(rules, before, after);
    } else {
        lemma_extends_rule(rules, arbitrary());
    }
}

proof fn lemma_single_extends(single: Single, rules: Seq<RuleView>)
    ensures
        extends(rules, spec_single(single, rules)),
        rules.len() < spec_single(single, rules).len(),
    decreases single,
{
    match single {
        Single::Struct(s) => {
            lemma_struct_extends(s, rules);
        },
        Single::List(l) => {
            lemma_list_extends(l, rules);
        },
        Single::Named(named) => {
            lemma_named_extends(named, rules);
        },
        Single::Primitive(p) => {
            lemma_extends_rule(rules, spec_single(single, rules).last());
        },
    }
}

proof fn lemma_named_extends(named: Named, rules: Seq<RuleView>)
    ensures
        extends(rules, spec_named(named, rules)),
        rules.len() < spec_named(named, rules).len(),
    decreases named,
{
    let range = named.spec_flat_range();
    let reference = with_rule(
        rules,
        DescriptionView::Ref(named.spec_flat_name(), range),
        range,
    );
    lemma_extends_rule(rules, reference.last());
    match named.expr {
        Some(StructOrList::Struct(s)) => {
            lemma_struct_extends(s, reference);
            let own = spec_struct(s, reference);
            lemma_extends_rule(own, spec_named(named, rules).last());
            lemma_extends_trans(rules, reference, own);
            lemma_extends_trans(rules, own, spec_named(named, rules));
        },
        Some(StructOrList::List(l)) => {
            lemma_list_extends(l, reference);
            let own = spec_list(l, reference);
            lemma_extends_rule(own, spec_named(named, rules).last());
            lemma_extends_trans(rules, reference, own);
            lemma_extends_trans(rules, own, spec_named(named, rules));
        },
        None => {},
    }
}

proof fn lemma_struct_extends(s: Struct, rules: Seq<RuleView>)
    ensures
        extends(rules, spec_struct(s, rules)),
        rules.len() < spec_struct(s, rules).len(),
    decreases s,
{
    lemma_fields_extends(s.fields@, rules);
    let all = spec_fields(s.fields@, rules).0;
    lemma_extends_rule(all, spec_struct(s, rules).last());
    lemma_extends_trans(rules, all, spec_struct(s, rules));
}

proof fn lemma_fields_extends(
    fields: Seq<Result<StructField, StructFieldError>>,
    rules: Seq<RuleView>,
)
    ensures
        extends(rules, spec_fields(fields, rules).0),
    decreases fields,
{
    if fields.len() > 0 {
        lemma_fields_extends(fields.drop_last(), rules);
        let before = spec_fields(fields.drop_last(), rules).0;
        match fields.last() {
            Ok(field) => {
                lemma_field_extends(field, before);
                lemma_extends_trans(rules, before, spec_fields(fields, rules).0);
            },
            Err(_) => {},
        }
    } else {
        lemma_extends_rule(rules, arbitrary());
    }
}

proof fn lemma_option_extends(expr: Option<Expr>, rules: Seq<RuleView>)
    ensures
        extends(rules, spec_option(expr, rules)),
        expr is Some ==> rules.len() < spec_option(expr, rules).len(),
    decreases expr,
{
    match expr {
        Some(e) => {
            lemma_expr_extends(e, rules);
        },
        None => {
            lemma_extends_rule(rules, arbitrary());
        },
    }
}

proof fn lemma_field_extends(field: StructField, rules: Seq<RuleView>)
    ensures
        extends(rules, spec_field(field, rules)),
        rules.len() < spec_field(field, rules).len(),
    decreases field,
{
    lemma_option_extends(field.type_expr, rules);
    let typed = spec_option(field.type_expr, rules);
    lemma_option_extends(field.expr, typed);
    let valued = spec_option(field.expr, typed);
    lemma_extends_trans(rules, typed, valued);
    let all = spec_field(field, rules);
    assert(all.take(rules.len() as int) =~= valued.take(rules.len() as int));
}

proof fn lemma_list_extends(list: List, rules: Seq<RuleView>)
    ensures
        extends(rules, spec_list(list, rules)),
        rules.len() < spec_list(list, rules).len(),
    decreases list,
{
    lemma_exprs_extends(list.exprs@, rules);
    let all = spec_exprs(list.exprs@, rules).0;
    lemma_extends_rule(all, spec_list(list, rules).last());
    lemma_extends_trans(rules, all, spec_list(list, rules));
}

proof fn lemma_exprs_extends(exprs: Seq<Expr>, rules: Seq<RuleView>)
    ensures
        extends(rules, spec_exprs(exprs, rules).0),
    decreases exprs,
{
    if exprs.len() > 0 {
        lemma_exprs_extends(exprs.drop_last(), rules);
        let before = spec_exprs(exprs.drop_last(), rules).0;
        lemma_expr_extends(exprs.last(), before);
        lemma_extends_trans(rules, before, spec_exprs(exprs, rules).0);
    } else {
        lemma_extends_rule(rules, arbitrary());
    }
}

/// Whether a list of rules fits into memory.
pub open spec fn fits(rules: Seq<RuleView>) -> bool {
    rules.len() <= usize::MAX
}

/// Well-formed rules with one more rule that refers to rules before it
/// are well-formed.
proof fn lemma_wf_rule(rules: Seq<RuleView>, rule: RuleView)
    requires
        rules_wf(rules),
        rule.description.below(rules.len() as int),
    ensures
        rules_wf(rules.push(rule)),
{
    let after = rules.push(rule);
    assert forall|i: int| 0 <= i < after.len() implies (#[trigger] after[i]).description.below(
        i,
    ) by {
        if i < rules.len() {
            assert(rules[i].description.below(i));
        }
    }
}

/// The rules of an expression refer to rules before them only.
pub proof fn lemma_expr_wf(expr: Expr, rules: Seq<RuleView>)
    requires
        rules_wf(rules),
        fits(spec_expr(expr, rules)),
    ensures
        rules_wf(spec_expr(expr, rules)),
    decreases expr,
{
    match expr {
        Expr::Single(single) => {
            lemma_single_wf(single, rules);
        },
        Expr::Union(union) => {
            lemma_single_extends(union.single, rules);
            let first = spec_single(union.single, rules);
            lemma_alternatives_extends(union.alternatives@, first);
            let (all, indices) = spec_alternatives(union.alternatives@, first);
            lemma_single_wf(union.single, rules);
            lemma_alternatives_wf(union.alternatives@, first);
            let members = seq![last_index(first)] + indices;
            assert(all_below(members, all.len() as int)) by {
                assert forall|k: int| 0 <= k < members.len() implies (#[trigger] members[k])
                    < all.len() by {
                    if k > 0 {
                        assert(members[k] == indices[k - 1]);
                    }
                }
            }
            lemma_wf_rule(all, spec_expr(expr, rules).last());
            assert(spec_expr(expr, rules) == all.push(spec_expr(expr, rules).last()));
        },
        Expr::Error(info) => {
            lemma_wf_rule(rules, spec_expr(expr, rules).last());
        },
    }
}

proof fn lemma_alternatives_wf(alternatives: Seq<UnionAlternative>, rules: Seq<RuleView>)
    requires
        rules_wf(rules),
        fits(spec_alternatives(alternatives, rules).0),
    ensures
        rules_wf(spec_alternatives(alternatives, rules).0),
        all_below(
            spec_alternatives(alternatives, rules).1,
            spec_alternatives(alternatives, rules).0.len() as int,
        ),
    decreases alternatives,
{
    if alternatives.len() > 0 {
        lemma_alternatives_extends(alternatives.drop_last(), rules);
        let (before, indices) = spec_alternatives(alternatives.drop_last(), rules);
        let (after, all) = spec_alternatives(alternatives, rules);
        match alternatives.last().single {
            Some(single) => {
                lemma_single_extends(single, before);
                lemma_alternatives_wf(alternatives.drop_last(), rules);
                lemma_single_wf(single, before);
            },
            None => {
                lemma_extends_rule(before, after.last());
                lemma_alternatives_wf(alternatives.drop_last(), rules);
                lemma_wf_rule(before, after.last());
            },
        }
        assert forall|k: int| 0 <= k < all.len() implies (#[trigger] all[k]) < after.len() by {
            if k < indices.len() {
                assert(indices[k] < before.len());
            }
        }
    }
}

proof fn lemma_single_wf(single: Single, rules: Seq<RuleView>)
    requires
        rules_wf(rules),
        fits(spec_single(single, rules)),
    ensures
        rules_wf(spec_single(single, rules)),
    decreases single,
{
    match single {
        Single::Struct(s) => {
            lemma_struct_wf(s, rules);
        },
        Single::List(l) => {
            lemma_list_wf(l, rules);
        },
        Single::Named(named) => {
            lemma_named_wf(named, rules);
        },
        Single::Primitive(p) => {
            lemma_wf_rule(rules, spec_single(single, rules).last());
        },
    }
}

proof fn lemma_named_wf(named: Named, rules: Seq<RuleView>)
    requires
        rules_wf(rules),
        fits(spec_named(named, rules)),
    ensures
        rules_wf(spec_named(named, rules)),
    decreases named,
{
    let range = named.spec_flat_range();
    let reference = with_rule(
        rules,
        DescriptionView::Ref(named.spec_flat_name(), range),
        range,
    );
    lemma_wf_rule(rules, reference.last());
    match named.expr {
        Some(StructOrList::Struct(s)) => {
            lemma_struct_extends(s, reference);
            lemma_struct_wf(s, reference);
            let own = spec_struct(s, reference);
            lemma_wf_rule(own, spec_named(named, rules).last());
        },
        Some(StructOrList::List(l)) => {
            lemma_list_extends(l, reference);
            lemma_list_wf(l, reference);
            let own = spec_list(l, reference);
            lemma_wf_rule(own, spec_named(named, rules).last());
        },
        None => {},
    }
}

proof fn lemma_struct_wf(s: Struct, rules: Seq<RuleView>)
    requires
        rules_wf(rules),
        fits(spec_struct(s, rules)),
    ensures
        rules_wf(spec_struct(s, rules)),
    decreases s,
{
    lemma_fields_wf(s.fields@, rules);
    let (all, fields) = spec_fields(s.fields@, rules);
    lemma_wf_rule(all, spec_struct(s, rules).last());
}

proof fn lemma_fields_wf(
    fields: Seq<Result<StructField, StructFieldError>>,
    rules: Seq<RuleView>,
)
    requires
        rules_wf(rules),
        fits(spec_fields(fields, rules).0),
    ensures
        rules_wf(spec_fields(fields, rules).0),
        fields_below(spec_fields(fields, rules).1, spec_fields(fields, rules).0.len() as int),
    decreases fields,
{
    if fields.len() > 0 {
        lemma_fields_extends(fields.drop_last(), rules);
        let (before, map) = spec_fields(fields.drop_last(), rules);
        match fields.last() {
            Ok(field) => {
                lemma_field_extends(field, before);
                lemma_fields_wf(fields.drop_last(), rules);
                lemma_field_wf(field, before);
                let after = spec_field(field, before);
                let name = field.name.name@;
                let index = last_index(after);
                if holds(map, name) {
                    lemma_place(map, name);
                }
                let all = put(map, name, index);
                assert forall|k: int| 0 <= k < all.len() implies (#[trigger] all[k]).1
                    < after.len() by {
                    if k < map.len() && !(holds(map, name) && k == place(map, name)) {
                        assert(all[k] == map[k]);
                        assert(map[k].1 < before.len());
                    }
                }
            },
            Err(_) => {
                lemma_fields_wf(fields.drop_last(), rules);
            },
        }
    }
}

proof fn lemma_option_wf(expr: Option<Expr>, rules: Seq<RuleView>)
    requires
        rules_wf(rules),
        fits(spec_option(expr, rules)),
    ensures
        rules_wf(spec_option(expr, rules)),
    decreases expr,
{
    match expr {
        Some(e) => {
            lemma_expr_wf(e, rules);
        },
        None => {},
    }
}

proof fn lemma_field_wf(field: StructField, rules: Seq<RuleView>)
    requires
        rules_wf(rules),
        fits(spec_field(field, rules)),
    ensures
        rules_wf(spec_field(field, rules)),
    decreases field,
{
    lemma_option_extends(field.type_expr, rules);
    let typed = spec_option(field.type_expr, rules);
    lemma_option_extends(field.expr, typed);
    let valued = spec_option(field.expr, typed);
    lemma_option_wf(field.type_expr, rules);
    lemma_option_wf(field.expr, typed);
    let all = spec_field(field, rules);
    assert forall|i: int| 0 <= i < all.len() implies (#[trigger] all[i]).description.below(i) by {
        if i < valued.len() {
            assert(valued[i].description.below(i));
        }
    }
}

proof fn lemma_list_wf(list: List, rules: Seq<RuleView>)
    requires
        rules_wf(rules),
        fits(spec_list(list, rules)),
    ensures
        rules_wf(spec_list(list, rules)),
    decreases list,
{
    lemma_exprs_wf(list.exprs@, rules);
    let (all, indices) = spec_exprs(list.exprs@, rules);
    lemma_wf_rule(all, spec_list(list, rules).last());
}

proof fn lemma_exprs_wf(exprs: Seq<Expr>, rules: Seq<RuleView>)
    requires
        rules_wf(rules),
        fits(spec_exprs(exprs, rules).0),
    ensures
        rules_wf(spec_exprs(exprs, rules).0),
        all_below(spec_exprs(exprs, rules).1, spec_exprs(exprs, rules).0.len() as int),
    decreases exprs,
{
    if exprs.len() > 0 {
        lemma_exprs_extends(exprs.drop_last(), rules);
        let (before, indices) = spec_exprs(exprs.drop_last(), rules);
        lemma_expr_extends(exprs.last(), before);
        lemma_exprs_wf(exprs.drop_last(), rules);
        lemma_expr_wf(exprs.last(), before);
        let (after, all) = spec_exprs(exprs, rules);
        assert forall|k: int| 0 <= k < all.len() implies (#[trigger] all[k]) < after.len() by {
            if k < indices.len() {
                assert(indices[k] < before.len());
            }
        }
    }
}

} // verus!
