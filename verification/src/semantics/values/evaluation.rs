//! Evaluation of the value graph: an iterative depth-first walk with an
//! explicit stack. A rule is evaluated once the rules that it depends on
//! are; a rule that is met again while it is still on the stack is bound
//! to `Unknown`, so that cycles end.

use crate::ast::has_double_colon;
use crate::eval::value::{fields_model, lemma_view_list, lemma_view_struct, list_model, Value, ValueView};
use crate::semantics::error::{errors_model, Error, ErrorMessage, ErrorMessageView, ErrorView};
use crate::semantics::values::{
    rules_model, rules_wf, DescriptionView, Rule, RuleIndex, RuleView, ValueDescription,
};
use crate::table::{holds, lemma_place, lookup, place, Table};
use crate::GlobalIdent;
use crate::token::ToTokenRange;
use vstd::prelude::*;
use vstd::string::*;
use vstd::utf8::encode_utf8;

verus! {

/// The feature that a path into another module asks for.
pub const MODULE_REFERENCES: &'static str = "module references";

/// The mathematical content of the table from global names to rules.
pub type TableModel = Seq<(Seq<Seq<char>>, RuleIndex)>;

/// The values that the rules are bound to so far.
pub type Bindings = Seq<Option<ValueView>>;

/// The state of the evaluation: the next rule to start from, the work
/// stack, the bindings, and the errors found.
pub ghost struct Machine {
    pub next: int,
    pub stack: Seq<RuleIndex>,
    pub evaluated: Bindings,
    pub errors: Seq<ErrorView>,
}

/// The rule that a name of the module refers to.
pub open spec fn spec_target(table: TableModel, module: Seq<Seq<char>>, name: Seq<char>) -> Option<
    RuleIndex,
> {
    lookup(table, module.push(name))
}

/// The rules that the fields of a struct refer to.
pub open spec fn field_indices(fields: Seq<(Seq<char>, RuleIndex)>) -> Seq<RuleIndex> {
    Seq::new(fields.len(), |i: int| fields[i].1)
}

/// The rules that a rule depends on, in the order in which they are
/// pushed.
pub open spec fn spec_deps(rule: RuleView, table: TableModel, module: Seq<Seq<char>>) -> Seq<
    RuleIndex,
> {
    match rule.description {
        DescriptionView::Union(indices) => indices,
        DescriptionView::List(indices) => indices,
        DescriptionView::Struct(fields) => field_indices(fields),
        DescriptionView::Composed(own, sup) => seq![own, sup],
        DescriptionView::Ref(name, _) => match spec_target(table, module, name) {
            Some(target) => seq![target],
            None => Seq::empty(),
        },
        _ => Seq::empty(),
    }
}

/// Whether the rule is bound to a value.
pub open spec fn is_bound(evaluated: Bindings, index: RuleIndex) -> bool {
    index < evaluated.len() && evaluated[index as int] is Some
}

/// The value that the rule is bound to; unknown while it is not bound.
pub open spec fn bound_value(evaluated: Bindings, index: RuleIndex) -> ValueView {
    if is_bound(evaluated, index) {
        evaluated[index as int]->Some_0
    } else {
        ValueView::Unknown
    }
}

/// Those of the rules that are not bound yet, in the same order.
pub open spec fn spec_pending(deps: Seq<RuleIndex>, evaluated: Bindings) -> Seq<RuleIndex>
    decreases deps.len(),
{
    if deps.len() == 0 {
        Seq::empty()
    } else {
        let before = spec_pending(deps.drop_last(), evaluated);
        if is_bound(evaluated, deps.last()) {
            before
        } else {
            before.push(deps.last())
        }
    }
}

/// What a rule denotes, given the bindings of the rules it depends on.
pub open spec fn spec_denote(
    rule: RuleView,
    table: TableModel,
    module: Seq<Seq<char>>,
    evaluated: Bindings,
) -> ValueView {
    match rule.description {
        DescriptionView::Union(_) => ValueView::Unknown,
        DescriptionView::Struct(fields) => ValueView::Struct(
            Seq::new(fields.len(), |i: int| (fields[i].0, bound_value(evaluated, fields[i].1))),
        ),
        DescriptionView::List(indices) => ValueView::List(
            Seq::new(indices.len(), |i: int| bound_value(evaluated, indices[i])),
        ),
        DescriptionView::Composed(own, sup) => bound_value(evaluated, own).merged(
            bound_value(evaluated, sup),
        ),
        DescriptionView::Primitive(value) => value,
        DescriptionView::Ref(name, _) => match spec_target(table, module, name) {
            Some(target) => bound_value(evaluated, target),
            None => ValueView::Unknown,
        },
        DescriptionView::Empty | DescriptionView::Unknown => ValueView::Unknown,
    }
}

/// The error that a reference gives when its name is a path.
pub open spec fn spec_reference_errors(rule: RuleView) -> Seq<ErrorView> {
    match rule.description {
        DescriptionView::Ref(name, range) => if has_double_colon(encode_utf8(name)) {
            seq![
                ErrorView { message: ErrorMessageView::Unsupported(MODULE_REFERENCES@), range },
            ]
        } else {
            Seq::empty()
        },
        _ => Seq::empty(),
    }
}

/// One step of the evaluation.
///
/// With an empty stack, the next rule is taken up, if it is not bound
/// yet. Else the top of the stack is popped: a bound rule is dropped; a
/// rule that is still on the stack is bound to `Unknown`; a rule with
/// unbound dependencies is pushed back, followed by those dependencies;
/// any other rule is bound to what it denotes.
pub open spec fn spec_step(
    rules: Seq<RuleView>,
    table: TableModel,
    module: Seq<Seq<char>>,
    m: Machine,
) -> Machine {
    if m.stack.len() == 0 {
        if 0 <= m.next < rules.len() {
            Machine {
                next: m.next + 1,
                stack: if is_bound(m.evaluated, m.next as usize) {
                    Seq::empty()
                } else {
                    seq![m.next as usize]
                },
                ..m
            }
        } else {
            m
        }
    } else {
        let index = m.stack.last();
        let rest = m.stack.drop_last();
        if is_bound(m.evaluated, index) {
            Machine { stack: rest, ..m }
        } else if rest.contains(index) {
            Machine {
                stack: rest,
                evaluated: m.evaluated.update(index as int, Some(ValueView::Unknown)),
                ..m
            }
        } else {
            let rule = rules[index as int];
            let errors = m.errors + spec_reference_errors(rule);
            let waiting = spec_pending(spec_deps(rule, table, module), m.evaluated);
            if waiting.len() > 0 {
                Machine { stack: rest.push(index) + waiting, errors, ..m }
            } else {
                Machine {
                    stack: rest,
                    evaluated: m.evaluated.update(
                        index as int,
                        Some(spec_denote(rule, table, module, m.evaluated)),
                    ),
                    errors,
                    ..m
                }
            }
        }
    }
}

/// The state after a number of steps.
pub open spec fn spec_run(
    rules: Seq<RuleView>,
    table: TableModel,
    module: Seq<Seq<char>>,
    m: Machine,
    steps: nat,
) -> Machine
    decreases steps,
{
    if steps == 0 {
        m
    } else {
        spec_step(rules, table, module, spec_run(rules, table, module, m, (steps - 1) as nat))
    }
}

/// The state in which evaluation starts: nothing bound, nothing to do.
pub open spec fn spec_start(rules: Seq<RuleView>) -> Machine {
    Machine {
        next: 0,
        stack: Seq::empty(),
        evaluated: Seq::new(rules.len(), |i: int| None),
        errors: Seq::empty(),
    }
}

/// Whether nothing is left to do in a state.
pub open spec fn is_done(rules: Seq<RuleView>, m: Machine) -> bool {
    m.stack.len() == 0 && m.next == rules.len()
}

/// Whether `m` is the state in which the evaluation of the rules ends.
pub open spec fn evaluates_to(
    rules: Seq<RuleView>,
    table: TableModel,
    module: Seq<Seq<char>>,
    m: Machine,
) -> bool {
    is_done(rules, m) && exists|steps: nat|
        spec_run(rules, table, module, spec_start(rules), steps) == m
}

/// A state in which nothing is left to do stays as it is.
pub proof fn lemma_done_stays(
    rules: Seq<RuleView>,
    table: TableModel,
    module: Seq<Seq<char>>,
    m0: Machine,
    steps: nat,
    more: nat,
)
    requires
        is_done(rules, spec_run(rules, table, module, m0, steps)),
    ensures
        spec_run(rules, table, module, m0, steps + more) == spec_run(
            rules,
            table,
            module,
            m0,
            steps,
        ),
    decreases more,
{
    if more > 0 {
        lemma_done_stays(rules, table, module, m0, steps, (more - 1) as nat);
        assert(spec_run(rules, table, module, m0, steps + more) == spec_step(
            rules,
            table,
            module,
            spec_run(rules, table, module, m0, (steps + more - 1) as nat),
        ));
    }
}

/// Evaluation ends in one state only.
pub proof fn lemma_evaluates_to_one(
    rules: Seq<RuleView>,
    table: TableModel,
    module: Seq<Seq<char>>,
    m1: Machine,
    m2: Machine,
)
    requires
        evaluates_to(rules, table, module, m1),
        evaluates_to(rules, table, module, m2),
    ensures
        m1 == m2,
{
    let s1 = choose|steps: nat| spec_run(rules, table, module, spec_start(rules), steps) == m1;
    let s2 = choose|steps: nat| spec_run(rules, table, module, spec_start(rules), steps) == m2;
    if s1 <= s2 {
        lemma_done_stays(rules, table, module, spec_start(rules), s1, (s2 - s1) as nat);
    } else {
        lemma_done_stays(rules, table, module, spec_start(rules), s2, (s1 - s2) as nat);
    }
}

/// The contents of the bindings.
pub open spec fn bindings_model(evaluated: Seq<Option<Value>>) -> Bindings {
    Seq::new(
        evaluated.len(),
        |i: int|
            match evaluated[i] {
                Some(value) => Some(value@),
                None => None,
            },
    )
}

/// Whether every rule that the table names exists.
pub open spec fn table_wf(table: TableModel, rules: int) -> bool {
    forall|k: int| 0 <= k < table.len() ==> (#[trigger] table[k]).1 < rules
}

/// The rule that a name of the module refers to.
fn target(module: &GlobalIdent, rule_table: &Table<GlobalIdent, RuleIndex>, name: &String) -> (r:
    Option<RuleIndex>)
    ensures
        r == spec_target(rule_table.model(), module@, name@),
        r matches Some(t) ==> exists|k: int|
            0 <= k < rule_table.model().len() && (#[trigger] rule_table.model()[k]).1 == t,
{
    let key = module.duplicate().extend(name.clone());
    match rule_table.position(&key) {
        Some(i) => {
            assert(rule_table.model()[i as int].1 == rule_table.entries@[i as int].1);
            Some(rule_table.entries[i].1)
        },
        None => None,
    }
}

/// The rules that a rule depends on.
fn dependencies(rule: &Rule, module: &GlobalIdent, rule_table: &Table<GlobalIdent, RuleIndex>) -> (r:
    Vec<RuleIndex>)
    ensures
        r@ == spec_deps(rule@, rule_table.model(), module@),
{
    match &rule.value_description {
        ValueDescription::Union(indices) | ValueDescription::List(indices) => {
            let mut out: Vec<RuleIndex> = Vec::new();
            let mut i: usize = 0;
            while i < indices.len()
                invariant
                    i <= indices@.len(),
                    out@ == indices@.take(i as int),
                decreases indices@.len() - i,
            {
                out.push(indices[i]);
                assert(out@ =~= indices@.take(i + 1));
                i += 1;
            }
            assert(indices@.take(i as int) =~= indices@);
            out
        },
        ValueDescription::Struct(fields) => {
            let mut out: Vec<RuleIndex> = Vec::new();
            let mut i: usize = 0;
            while i < fields.entries.len()
                invariant
                    i <= fields.entries@.len(),
                    out@ == field_indices(fields.model()).take(i as int),
                decreases fields.entries@.len() - i,
            {
                out.push(fields.entries[i].1);
                assert(out@ =~= field_indices(fields.model()).take(i + 1));
                i += 1;
            }
            assert(field_indices(fields.model()).take(i as int) =~= field_indices(fields.model()));
            out
        },
        ValueDescription::Composed(own, sup) => {
            let mut out: Vec<RuleIndex> = Vec::new();
            out.push(*own);
            out.push(*sup);
            assert(out@ =~= seq![*own, *sup]);
            out
        },
        ValueDescription::Ref(ident) => {
            let mut out: Vec<RuleIndex> = Vec::new();
            match target(module, rule_table, &ident.name) {
                Some(t) => {
                    out.push(t);
                    assert(out@ =~= seq![t]);
                },
                None => {},
            }
            out
        },
        _ => Vec::new(),
    }
}

/// Those of the rules that are not bound yet.
fn unevaluated(deps: &Vec<RuleIndex>, evaluated: &Vec<Option<Value>>) -> (r: Vec<RuleIndex>)
    requires
        forall|k: int| 0 <= k < deps@.len() ==> (#[trigger] deps@[k]) < evaluated@.len(),
    ensures
        r@ == spec_pending(deps@, bindings_model(evaluated@)),
{
    let mut out: Vec<RuleIndex> = Vec::new();
    let mut i: usize = 0;
    assert(deps@.take(0) =~= Seq::empty());
    while i < deps.len()
        invariant
            i <= deps@.len(),
            forall|k: int| 0 <= k < deps@.len() ==> (#[trigger] deps@[k]) < evaluated@.len(),
            out@ == spec_pending(deps@.take(i as int), bindings_model(evaluated@)),
        decreases deps@.len() - i,
    {
        proof {
            assert(deps@.take(i + 1).drop_last() =~= deps@.take(i as int));
            assert(deps@.take(i + 1).last() == deps@[i as int]);
        }
        if evaluated[deps[i]].is_none() {
            out.push(deps[i]);
        }
        i += 1;
    }
    assert(deps@.take(i as int) =~= deps@);
    out
}

/// The value that a rule is bound to; unknown while it is not bound.
fn value_at(evaluated: &Vec<Option<Value>>, index: RuleIndex) -> (r: Value)
    ensures
        r@ == bound_value(bindings_model(evaluated@), index),
{
    if index < evaluated.len() {
        match &evaluated[index] {
            Some(value) => value.duplicate(),
            None => Value::Unknown,
        }
    } else {
        Value::Unknown
    }
}

/// What a rule denotes, given the bindings of the rules it depends on.
fn denote(
    rule: &Rule,
    module: &GlobalIdent,
    rule_table: &Table<GlobalIdent, RuleIndex>,
    evaluated: &Vec<Option<Value>>,
) -> (r: Value)
    ensures
        r@ == spec_denote(rule@, rule_table.model(), module@, bindings_model(evaluated@)),
{
    let ghost bindings = bindings_model(evaluated@);
    match &rule.value_description {
        ValueDescription::Union(_) => Value::Unknown,
        ValueDescription::Struct(fields) => {
            let mut out: Vec<(String, Value)> = Vec::new();
            let mut i: usize = 0;
            while i < fields.entries.len()
                invariant
                    i <= fields.entries@.len(),
                    bindings == bindings_model(evaluated@),
                    out@.len() == i,
                    forall|j: int|
                        0 <= j < i ==> (#[trigger] out@[j]).0@ == fields.model()[j].0 && out@[j].1@
                            == bound_value(bindings, fields.model()[j].1),
                decreases fields.entries@.len() - i,
            {
                let entry = &fields.entries[i];
                out.push((entry.0.clone(), value_at(evaluated, entry.1)));
                i += 1;
            }
            proof {
                lemma_view_struct(out);
                assert(fields_model(out@) =~= spec_denote(
                    rule@,
                    rule_table.model(),
                    module@,
                    bindings,
                )->Struct_0);
            }
            Value::Struct(out)
        },
        ValueDescription::List(indices) => {
            let mut out: Vec<Value> = Vec::new();
            let mut i: usize = 0;
            while i < indices.len()
                invariant
                    i <= indices@.len(),
                    bindings == bindings_model(evaluated@),
                    out@.len() == i,
                    forall|j: int|
                        0 <= j < i ==> (#[trigger] out@[j])@ == bound_value(bindings, indices@[j]),
                decreases indices@.len() - i,
            {
                out.push(value_at(evaluated, indices[i]));
                i += 1;
            }
            proof {
                lemma_view_list(out);
                assert(list_model(out@) =~= spec_denote(
                    rule@,
                    rule_table.model(),
                    module@,
                    bindings,
                )->List_0);
            }
            Value::List(out)
        },
        ValueDescription::Composed(own_index, super_index) => {
            let mut own_value = value_at(evaluated, *own_index);
            let super_value = value_at(evaluated, *super_index);
            own_value.merge_fields(super_value);
            own_value
        },
        ValueDescription::Primitive(value) => value.duplicate(),
        ValueDescription::Ref(ident) => {
            match target(module, rule_table, &ident.name) {
                Some(ref_index) => value_at(evaluated, ref_index),
                None => Value::Unknown,
            }
        },
        ValueDescription::Empty | ValueDescription::Unknown => Value::Unknown,
    }
}

/// Whether the stack holds the rule.
fn on_stack(stack: &Vec<RuleIndex>, index: RuleIndex) -> (r: bool)
    ensures
        r == stack@.contains(index),
{
    let mut i: usize = 0;
    while i < stack.len()
        invariant
            i <= stack@.len(),
            forall|j: int| 0 <= j < i ==> stack@[j] != index,
        decreases stack@.len() - i,
    {
        if stack[i] == index {
            return true;
        }
        i += 1;
    }
    false
}

/// Every rule that a well-formed rule depends on exists.
proof fn lemma_deps_exist(
    rules: Seq<RuleView>,
    table: TableModel,
    module: Seq<Seq<char>>,
    x: int,
)
    requires
        rules_wf(rules),
        table_wf(table, rules.len() as int),
        0 <= x < rules.len(),
    ensures
        forall|k: int|
            0 <= k < spec_deps(rules[x], table, module).len() ==> #[trigger] spec_deps(
                rules[x],
                table,
                module,
            )[k] < rules.len(),
{
    assert(rules[x].description.below(x));
    match rules[x].description {
        DescriptionView::Ref(name, _) => {
            let key = module.push(name);
            if holds(table, key) {
                lemma_place(table, key);
                assert(table[place(table, key)].1 < rules.len());
            }
        },
        DescriptionView::Struct(fields) => {
            assert forall|k: int| 0 <= k < field_indices(fields).len() implies #[trigger] field_indices(
                fields,
            )[k] < rules.len() by {
                assert(fields[k].1 < x);
            }
        },
        _ => {},
    }
}

/// A dependency is pending exactly when it is not bound.
proof fn lemma_pending(deps: Seq<RuleIndex>, evaluated: Bindings)
    ensures
        forall|j: int|
            0 <= j < spec_pending(deps, evaluated).len() ==> !is_bound(
                evaluated,
                #[trigger] spec_pending(deps, evaluated)[j],
            ) && deps.contains(spec_pending(deps, evaluated)[j]),
        forall|k: int|
            0 <= k < deps.len() ==> is_bound(evaluated, #[trigger] deps[k]) || spec_pending(
                deps,
                evaluated,
            ).contains(deps[k]),
    decreases deps.len(),
{
    if deps.len() > 0 {
        let shorter = deps.drop_last();
        lemma_pending(shorter, evaluated);
        let before = spec_pending(shorter, evaluated);
        let all = spec_pending(deps, evaluated);
        assert forall|j: int| 0 <= j < all.len() implies !is_bound(evaluated, #[trigger] all[j])
            && deps.contains(all[j]) by {
            if j < before.len() {
                assert(all[j] == before[j]);
                let k = choose|k: int| 0 <= k < shorter.len() && shorter[k] == before[j];
                assert(deps[k] == before[j]);
            } else {
                assert(all[j] == deps.last());
                assert(deps[deps.len() - 1] == deps.last());
            }
        }
        assert forall|k: int| 0 <= k < deps.len() implies is_bound(evaluated, #[trigger] deps[k])
            || all.contains(deps[k]) by {
            if k < shorter.len() {
                assert(shorter[k] == deps[k]);
                if !is_bound(evaluated, deps[k]) {
                    let j = choose|j: int| 0 <= j < before.len() && before[j] == shorter[k];
                    assert(all[j] == deps[k]);
                }
            } else {
                if !is_bound(evaluated, deps[k]) {
                    assert(all[all.len() - 1] == deps[k]);
                }
            }
        }
    }
}

/// What is left to do for a rule: two while it has not been taken up,
/// one while it waits for its dependencies, nothing once it is bound.
pub open spec fn weight(evaluated: Bindings, marker: Seq<int>, x: int) -> nat {
    if evaluated[x] is Some {
        0
    } else if marker[x] >= 0 {
        1
    } else {
        2
    }
}

/// What is left to do for the first `n` rules.
pub open spec fn total(evaluated: Bindings, marker: Seq<int>, n: int) -> nat
    decreases n,
{
    if n <= 0 {
        0
    } else {
        total(evaluated, marker, n - 1) + weight(evaluated, marker, n - 1)
    }
}

/// Less is left to do when less is left for one rule and the same for
/// the others.
proof fn lemma_total_less(
    e1: Bindings,
    m1: Seq<int>,
    e2: Bindings,
    m2: Seq<int>,
    n: int,
    x: int,
)
    requires
        0 <= x,
        forall|y: int| 0 <= y < n && y != x ==> weight(e2, m2, y) == weight(e1, m1, y),
        weight(e2, m2, x) < weight(e1, m1, x),
    ensures
        x < n ==> total(e2, m2, n) < total(e1, m1, n),
        x >= n ==> total(e2, m2, n) == total(e1, m1, n),
    decreases n,
{
    if n > 0 {
        lemma_total_less(e1, m1, e2, m2, n - 1, x);
    }
}

/// Whether the stack holds the rule above the place `from`.
pub open spec fn above(stack: Seq<RuleIndex>, from: int, index: RuleIndex) -> bool {
    exists|q: int| from < q < stack.len() && #[trigger] stack[q] == index
}

/// What holds of a rule that waits for its dependencies: it is on the
/// stack at the place that is marked, and it is not bound.
pub open spec fn marked_ok(stack: Seq<RuleIndex>, evaluated: Bindings, marker: Seq<int>, x: int) -> bool {
    marker[x] >= 0 ==> marker[x] < stack.len() && stack[marker[x]] == x && evaluated[x] is None
}

/// What holds of a dependency of a rule that waits: it is bound, or it
/// is on the stack above the rule.
pub open spec fn dep_ok(
    stack: Seq<RuleIndex>,
    evaluated: Bindings,
    marker: Seq<int>,
    deps: Seq<RuleIndex>,
    x: int,
    k: int,
) -> bool {
    marker[x] >= 0 ==> is_bound(evaluated, deps[k]) || above(stack, marker[x], deps[k])
}

/// What holds of the stack throughout the evaluation.
pub open spec fn stack_inv(
    rules: Seq<RuleView>,
    table: TableModel,
    module: Seq<Seq<char>>,
    stack: Seq<RuleIndex>,
    evaluated: Bindings,
    marker: Seq<int>,
) -> bool {
    &&& evaluated.len() == rules.len()
    &&& marker.len() == rules.len()
    &&& forall|p: int| 0 <= p < stack.len() ==> (#[trigger] stack[p]) < rules.len()
    &&& forall|x: int| 0 <= x < rules.len() ==> #[trigger] marked_ok(stack, evaluated, marker, x)
    &&& forall|x: int, k: int|
        0 <= x < rules.len() && 0 <= k < spec_deps(rules[x], table, module).len()
            ==> #[trigger] dep_ok(
            stack,
            evaluated,
            marker,
            spec_deps(rules[x], table, module),
            x,
            k,
        )
}

/// Dropping a bound rule from the top of the stack.
proof fn lemma_drop(
    rules: Seq<RuleView>,
    table: TableModel,
    module: Seq<Seq<char>>,
    stack: Seq<RuleIndex>,
    evaluated: Bindings,
    marker: Seq<int>,
)
    requires
        stack_inv(rules, table, module, stack, evaluated, marker),
        stack.len() > 0,
        is_bound(evaluated, stack.last()),
    ensures
        stack_inv(rules, table, module, stack.drop_last(), evaluated, marker),
{
    let rest = stack.drop_last();
    assert forall|x: int| 0 <= x < rules.len() implies #[trigger] marked_ok(
        rest,
        evaluated,
        marker,
        x,
    ) by {
        assert(marked_ok(stack, evaluated, marker, x));
    }
    assert forall|x: int, k: int|
        0 <= x < rules.len() && 0 <= k < spec_deps(rules[x], table, module).len()
            implies #[trigger] dep_ok(
        rest,
        evaluated,
        marker,
        spec_deps(rules[x], table, module),
        x,
        k,
    ) by {
        let deps = spec_deps(rules[x], table, module);
        assert(dep_ok(stack, evaluated, marker, deps, x, k));
        assert(marked_ok(stack, evaluated, marker, x));
        if marker[x] >= 0 && !is_bound(evaluated, deps[k]) {
            let q = choose|q: int| marker[x] < q < stack.len() && #[trigger] stack[q] == deps[k];
            assert(q < stack.len() - 1);
            assert(rest[q] == deps[k]);
        }
    }
}

/// Binding the rule on top of the stack to a value.
proof fn lemma_bind(
    rules: Seq<RuleView>,
    table: TableModel,
    module: Seq<Seq<char>>,
    stack: Seq<RuleIndex>,
    evaluated: Bindings,
    marker: Seq<int>,
    value: ValueView,
)
    requires
        stack_inv(rules, table, module, stack, evaluated, marker),
        stack.len() > 0,
        !is_bound(evaluated, stack.last()),
    ensures
        stack_inv(
            rules,
            table,
            module,
            stack.drop_last(),
            evaluated.update(stack.last() as int, Some(value)),
            marker.update(stack.last() as int, -1),
        ),
        total(
            evaluated.update(stack.last() as int, Some(value)),
            marker.update(stack.last() as int, -1),
            rules.len() as int,
        ) < total(evaluated, marker, rules.len() as int),
{
    let index = stack.last();
    let rest = stack.drop_last();
    let e2 = evaluated.update(index as int, Some(value));
    let m2 = marker.update(index as int, -1);
    assert(stack[stack.len() - 1] < rules.len());
    assert forall|x: int| 0 <= x < rules.len() implies #[trigger] marked_ok(rest, e2, m2, x) by {
        assert(marked_ok(stack, evaluated, marker, x));
    }
    assert forall|x: int, k: int|
        0 <= x < rules.len() && 0 <= k < spec_deps(rules[x], table, module).len()
            implies #[trigger] dep_ok(rest, e2, m2, spec_deps(rules[x], table, module), x, k) by {
        let deps = spec_deps(rules[x], table, module);
        assert(dep_ok(stack, evaluated, marker, deps, x, k));
        assert(marked_ok(stack, evaluated, marker, x));
        if m2[x] >= 0 && !is_bound(e2, deps[k]) {
            assert(!is_bound(evaluated, deps[k]));
            let q = choose|q: int| marker[x] < q < stack.len() && #[trigger] stack[q] == deps[k];
            assert(q < stack.len() - 1);
            assert(rest[q] == deps[k]);
        }
    }
    lemma_total_less(evaluated, marker, e2, m2, rules.len() as int, index as int);
}

/// Pushing a rule back, followed by its pending dependencies.
proof fn lemma_expand(
    rules: Seq<RuleView>,
    table: TableModel,
    module: Seq<Seq<char>>,
    stack: Seq<RuleIndex>,
    evaluated: Bindings,
    marker: Seq<int>,
)
    requires
        rules_wf(rules),
        table_wf(table, rules.len() as int),
        stack_inv(rules, table, module, stack, evaluated, marker),
        stack.len() > 0,
        !is_bound(evaluated, stack.last()),
        !stack.drop_last().contains(stack.last()),
        spec_pending(spec_deps(rules[stack.last() as int], table, module), evaluated).len() > 0,
    ensures
        stack_inv(
            rules,
            table,
            module,
            stack.drop_last().push(stack.last()) + spec_pending(
                spec_deps(rules[stack.last() as int], table, module),
                evaluated,
            ),
            evaluated,
            marker.update(stack.last() as int, stack.len() - 1),
        ),
        total(
            evaluated,
            marker.update(stack.last() as int, stack.len() - 1),
            rules.len() as int,
        ) < total(evaluated, marker, rules.len() as int),
{
    let index = stack.last();
    let top = stack.len() - 1;
    let rest = stack.drop_last();
    assert(stack[top] < rules.len());
    let own = spec_deps(rules[index as int], table, module);
    let waiting = spec_pending(own, evaluated);
    let s2 = rest.push(index) + waiting;
    let m2 = marker.update(index as int, top);
    lemma_pending(own, evaluated);
    lemma_deps_exist(rules, table, module, index as int);
    assert(rest.push(index) =~= stack);
    // the rule was not yet waiting
    assert(marker[index as int] < 0) by {
        if marker[index as int] >= 0 {
            assert(marked_ok(stack, evaluated, marker, index as int));
            if marker[index as int] < top {
                assert(rest[marker[index as int]] == index);
            } else {
                let first = waiting[0];
                let k = choose|k: int| 0 <= k < own.len() && own[k] == first;
                assert(dep_ok(stack, evaluated, marker, own, index as int, k));
            }
        }
    }
    assert forall|p: int| 0 <= p < s2.len() implies #[trigger] s2[p] < rules.len() by {
        if p > top {
            let j = p - top - 1;
            assert(s2[p] == waiting[j]);
            let k = choose|k: int| 0 <= k < own.len() && own[k] == waiting[j];
        } else {
            assert(s2[p] == stack[p]);
        }
    }
    assert forall|x: int| 0 <= x < rules.len() implies #[trigger] marked_ok(s2, evaluated, m2, x) by {
        assert(marked_ok(stack, evaluated, marker, x));
        if x == index as int {
            assert(s2[top] == index);
        } else if marker[x] >= 0 {
            assert(s2[marker[x]] == stack[marker[x]]);
        }
    }
    assert forall|x: int, k: int|
        0 <= x < rules.len() && 0 <= k < spec_deps(rules[x], table, module).len()
            implies #[trigger] dep_ok(s2, evaluated, m2, spec_deps(rules[x], table, module), x, k) by {
        let deps = spec_deps(rules[x], table, module);
        if x == index as int {
            if !is_bound(evaluated, deps[k]) {
                let j = choose|j: int| 0 <= j < waiting.len() && waiting[j] == deps[k];
                assert(s2[top + 1 + j] == deps[k]);
            }
        } else {
            assert(dep_ok(stack, evaluated, marker, deps, x, k));
            if marker[x] >= 0 && !is_bound(evaluated, deps[k]) {
                let q = choose|q: int|
                    marker[x] < q < stack.len() && #[trigger] stack[q] == deps[k];
                assert(s2[q] == deps[k]);
            }
        }
    }
    lemma_total_less(evaluated, marker, evaluated, m2, rules.len() as int, index as int);
}

/// The bindings once every rule is bound.
pub open spec fn values_model(values: Seq<Value>) -> Bindings {
    Seq::new(values.len(), |i: int| Some(values[i]@))
}

/// Evaluates every rule. Returns the value of each rule, at the place
/// of the rule, and adds the errors found to `errors`.
pub fn evaluate(
    module: &GlobalIdent,
    rules: &Vec<Rule>,
    rule_table: &Table<GlobalIdent, RuleIndex>,
    errors: &mut Vec<Error>,
) -> (r: Vec<Value>)
    requires
        rules_wf(rules_model(rules@)),
        table_wf(rule_table.model(), rules@.len() as int),
    ensures
        r@.len() == rules@.len(),
        exists|m: Machine|
            evaluates_to(rules_model(rules@), rule_table.model(), module@, m) && m.evaluated
                == values_model(r@) && errors_model(final(errors)@) == errors_model(old(errors)@)
                + m.errors,
{
    let n = rules.len();
    let ghost rm = rules_model(rules@);
    let ghost tm = rule_table.model();
    let ghost md = module@;
    let ghost errors0 = errors_model(errors@);
    let mut evaluated: Vec<Option<Value>> = Vec::new();
    let mut i: usize = 0;
    while i < n
        invariant
            i <= n,
            evaluated@.len() == i,
            forall|j: int| 0 <= j < i ==> evaluated@[j] is None,
        decreases n - i,
    {
        evaluated.push(None);
        i += 1;
    }
    let mut stack: Vec<RuleIndex> = Vec::new();
    let ghost mut m = spec_start(rm);
    let ghost mut steps: nat = 0;
    proof {
        assert(bindings_model(evaluated@) =~= m.evaluated);
        assert(errors0 + m.errors =~= errors0);
    }
    let mut rule_index: usize = 0;
    while rule_index < n
        invariant
            rule_index <= n,
            n == rules@.len(),
            rm == rules_model(rules@),
            tm == rule_table.model(),
            md == module@,
            rules_wf(rm),
            table_wf(tm, n as int),
            evaluated@.len() == n,
            stack@.len() == 0,
            m.next == rule_index,
            m.stack == stack@,
            m.evaluated == bindings_model(evaluated@),
            errors_model(errors@) == errors0 + m.errors,
            spec_run(rm, tm, md, spec_start(rm), steps) == m,
            forall|x: int| 0 <= x < rule_index ==> (#[trigger] evaluated@[x]) is Some,
        decreases n - rule_index,
    {
        if evaluated[rule_index].is_some() {
            proof {
                m = spec_step(rm, tm, md, m);
                steps = steps + 1;
            }
        } else {
            stack.push(rule_index);
            let ghost mut marker: Seq<int> = Seq::new(n as nat, |i: int| -1);
            proof {
                m = spec_step(rm, tm, md, m);
                steps = steps + 1;
                assert(m.stack =~= stack@);
                assert(stack@[0] == rule_index);
            }
            while stack.len() > 0
                invariant
                    rule_index < n,
                    n == rules@.len(),
                    rm == rules_model(rules@),
                    tm == rule_table.model(),
                    md == module@,
                    rules_wf(rm),
                    table_wf(tm, n as int),
                    stack_inv(rm, tm, md, stack@, bindings_model(evaluated@), marker),
                    m.next == rule_index + 1,
                    m.stack == stack@,
                    m.evaluated == bindings_model(evaluated@),
                    errors_model(errors@) == errors0 + m.errors,
                    spec_run(rm, tm, md, spec_start(rm), steps) == m,
                    forall|x: int| 0 <= x < rule_index ==> (#[trigger] evaluated@[x]) is Some,
                    evaluated@[rule_index as int] is Some || stack@.contains(rule_index),
                decreases total(bindings_model(evaluated@), marker, n as int), stack@.len(),
            {
                let ghost stack_before = stack@;
                let ghost bindings = bindings_model(evaluated@);
                let ghost errors_before = errors_model(errors@);
                let ghost rest = stack@.drop_last();
                let index = stack.pop().unwrap();
                assert(index == stack_before[stack_before.len() - 1]);
                assert(index < n);
                assert(stack@ =~= rest);
                if evaluated[index].is_some() {
                    proof {
                        lemma_drop(rm, tm, md, stack_before, bindings, marker);
                        m = spec_step(rm, tm, md, m);
                        steps = steps + 1;
                        if stack_before.contains(rule_index) && !(evaluated@[rule_index as int] is Some) {
                            let p = choose|p: int|
                                0 <= p < stack_before.len() && stack_before[p] == rule_index;
                            assert(rest[p] == rule_index);
                        }
                    }
                } else if on_stack(&stack, index) {
                    // the rule refers to itself: that is no error by
                    // itself, but the rule cannot be fully evaluated
                    evaluated[index] = Some(Value::Unknown);
                    proof {
                        lemma_bind(rm, tm, md, stack_before, bindings, marker, ValueView::Unknown);
                        marker = marker.update(index as int, -1);
                        m = spec_step(rm, tm, md, m);
                        steps = steps + 1;
                        assert(bindings_model(evaluated@) =~= bindings.update(
                            index as int,
                            Some(ValueView::Unknown),
                        ));
                        if stack_before.contains(rule_index) && index != rule_index {
                            let p = choose|p: int|
                                0 <= p < stack_before.len() && stack_before[p] == rule_index;
                            assert(rest[p] == rule_index);
                        }
                    }
                } else {
                    let rule = &rules[index];
                    assert(rule@ == rm[index as int]);
                    match &rule.value_description {
                        ValueDescription::Ref(ident) => {
                            if ident.is_flattened() {
                                let error = Error::new(
                                    ErrorMessage::Unsupported(String::from_str(MODULE_REFERENCES)),
                                    ident.info.to_token_range(),
                                );
                                errors.push(error);
                                assert(errors_model(errors@) =~= errors_before.push(error@));
                            }
                        },
                        _ => {},
                    }
                    proof {
                        assert(errors_model(errors@) =~= errors0 + (m.errors
                            + spec_reference_errors(rm[index as int])));
                        lemma_deps_exist(rm, tm, md, index as int);
                    }
                    let deps = dependencies(rule, module, rule_table);
                    let mut waiting = unevaluated(&deps, &evaluated);
                    if waiting.len() > 0 {
                        let ghost pending = waiting@;
                        stack.push(index);
                        stack.append(&mut waiting);
                        proof {
                            lemma_expand(rm, tm, md, stack_before, bindings, marker);
                            marker = marker.update(index as int, stack_before.len() - 1);
                            m = spec_step(rm, tm, md, m);
                            steps = steps + 1;
                            assert(stack@ =~= rest.push(index) + pending);
                            if stack_before.contains(rule_index) {
                                let p = choose|p: int|
                                    0 <= p < stack_before.len() && stack_before[p] == rule_index;
                                assert(stack@[p] == rule_index);
                            }
                        }
                    } else {
                        let value = denote(rule, module, rule_table, &evaluated);
                        let ghost bound = value@;
                        evaluated[index] = Some(value);
                        proof {
                            lemma_bind(rm, tm, md, stack_before, bindings, marker, bound);
                            marker = marker.update(index as int, -1);
                            m = spec_step(rm, tm, md, m);
                            steps = steps + 1;
                            assert(bindings_model(evaluated@) =~= bindings.update(
                                index as int,
                                Some(bound),
                            ));
                            if stack_before.contains(rule_index) && index != rule_index {
                                let p = choose|p: int|
                                    0 <= p < stack_before.len() && stack_before[p] == rule_index;
                                assert(rest[p] == rule_index);
                            }
                        }
                    }
                }
            }
        }
        rule_index += 1;
    }
    let mut values: Vec<Value> = Vec::new();
    let mut k: usize = 0;
    while k < n
        invariant
            k <= n,
            evaluated@.len() == n,
            values@.len() == k,
            forall|x: int|
                k <= x < n ==> (#[trigger] evaluated@[x]) is Some && Some(evaluated@[x]->Some_0@)
                    == m.evaluated[x],
            forall|x: int| 0 <= x < k ==> Some((#[trigger] values@[x])@) == m.evaluated[x],
            m.evaluated.len() == n,
        decreases n - k,
    {
        let value = match evaluated[k].take() {
            Some(value) => value,
            None => Value::Unknown,
        };
        values.push(value);
        k += 1;
    }
    proof {
        assert(values_model(values@) =~= m.evaluated);
        assert(evaluates_to(rm, tm, md, m));
    }
    values
}

/// Whether every union that is bound is bound to `Unknown`.
pub open spec fn unions_unknown(rules: Seq<RuleView>, evaluated: Bindings) -> bool {
    forall|i: int|
        0 <= i < rules.len() && i < evaluated.len() && rules[i].description is Union
            ==> #[trigger] evaluated[i] == None::<ValueView> || evaluated[i] == Some(
            ValueView::Unknown,
        )
}

/// A step keeps every union that is bound bound to `Unknown`.
proof fn lemma_step_unions(
    rules: Seq<RuleView>,
    table: TableModel,
    module: Seq<Seq<char>>,
    m: Machine,
)
    requires
        unions_unknown(rules, m.evaluated),
        m.evaluated.len() == rules.len(),
        forall|p: int| 0 <= p < m.stack.len() ==> (#[trigger] m.stack[p]) < rules.len(),
    ensures
        unions_unknown(rules, spec_step(rules, table, module, m).evaluated),
        spec_step(rules, table, module, m).evaluated.len() == rules.len(),
{
    let after = spec_step(rules, table, module, m);
    assert forall|i: int|
        0 <= i < rules.len() && i < after.evaluated.len() && rules[i].description is Union
            implies #[trigger] after.evaluated[i] == None::<ValueView> || after.evaluated[i]
        == Some(ValueView::Unknown) by {
        assert(m.evaluated[i] == None::<ValueView> || m.evaluated[i] == Some(ValueView::Unknown));
        if m.stack.len() > 0 {
            assert(m.stack[m.stack.len() - 1] < rules.len());
        }
    }
}

/// What holds of the stack in every state: the rules on it exist, and as
/// many bindings as rules are kept.
pub open spec fn state_ok(rules: Seq<RuleView>, m: Machine) -> bool {
    &&& m.evaluated.len() == rules.len()
    &&& 0 <= m.next <= rules.len()
    &&& forall|p: int| 0 <= p < m.stack.len() ==> (#[trigger] m.stack[p]) < rules.len()
}

/// A step keeps the stack in order.
proof fn lemma_step_ok(
    rules: Seq<RuleView>,
    table: TableModel,
    module: Seq<Seq<char>>,
    m: Machine,
)
    requires
        rules_wf(rules),
        table_wf(table, rules.len() as int),
        state_ok(rules, m),
    ensures
        state_ok(rules, spec_step(rules, table, module, m)),
{
    let after = spec_step(rules, table, module, m);
    if m.stack.len() > 0 {
        let index = m.stack.last();
        assert(m.stack[m.stack.len() - 1] < rules.len());
        let rest = m.stack.drop_last();
        assert forall|p: int| 0 <= p < rest.len() implies (#[trigger] rest[p]) < rules.len() by {
            assert(m.stack[p] < rules.len());
        }
        let deps = spec_deps(rules[index as int], table, module);
        let waiting = spec_pending(deps, m.evaluated);
        lemma_deps_exist(rules, table, module, index as int);
        lemma_pending(deps, m.evaluated);
        assert forall|p: int| 0 <= p < after.stack.len() implies (#[trigger] after.stack[p])
            < rules.len() by {
            if after.stack == rest {
            } else {
                let s2 = rest.push(index) + waiting;
                assert(after.stack == s2);
                if p < rest.len() {
                    assert(s2[p] == rest[p]);
                } else if p == rest.len() {
                } else {
                    let j = p - rest.len() - 1;
                    assert(s2[p] == waiting[j]);
                    let k = choose|k: int| 0 <= k < deps.len() && deps[k] == waiting[j];
                    assert(deps[k] < rules.len());
                }
            }
        }
    }
}

/// No union has a value: in every state that evaluation reaches, a union
/// that is bound is bound to `Unknown`.
pub proof fn lemma_union_is_unknown(
    rules: Seq<RuleView>,
    table: TableModel,
    module: Seq<Seq<char>>,
    steps: nat,
)
    requires
        rules_wf(rules),
        table_wf(table, rules.len() as int),
    ensures
        unions_unknown(rules, spec_run(rules, table, module, spec_start(rules), steps).evaluated),
        state_ok(rules, spec_run(rules, table, module, spec_start(rules), steps)),
    decreases steps,
{
    if steps > 0 {
        lemma_union_is_unknown(rules, table, module, (steps - 1) as nat);
        let before = spec_run(rules, table, module, spec_start(rules), (steps - 1) as nat);
        lemma_step_ok(rules, table, module, before);
        lemma_step_unions(rules, table, module, before);
    }
}

/// Whether the rule takes the value `Unknown` when the rule `next` has
/// it: a reference to `next`, a union of which `next` is a member, or a
/// composition whose own part is `next`.
pub open spec fn passes_on(
    rule: RuleView,
    table: TableModel,
    module: Seq<Seq<char>>,
    next: RuleIndex,
) -> bool {
    match rule.description {
        DescriptionView::Ref(name, _) => spec_target(table, module, name) == Some(next),
        DescriptionView::Union(indices) => indices.contains(next),
        DescriptionView::Composed(own, _) => own == next,
        _ => false,
    }
}

/// Whether the rules form a cycle on which `Unknown` is passed on: each
/// rule takes the value of the next one, the last that of the first.
pub open spec fn unknown_cycle(
    rules: Seq<RuleView>,
    table: TableModel,
    module: Seq<Seq<char>>,
    cycle: Seq<RuleIndex>,
) -> bool {
    &&& cycle.len() > 0
    &&& forall|k: int|
        0 <= k < cycle.len() ==> (#[trigger] cycle[k]) < rules.len() && passes_on(
            rules[cycle[k] as int],
            table,
            module,
            cycle[(k + 1) % (cycle.len() as int)],
        )
}

/// Whether every rule of the cycle is unbound or bound to `Unknown`.
pub open spec fn cycle_unknown(cycle: Seq<RuleIndex>, evaluated: Bindings) -> bool {
    forall|k: int|
        0 <= k < cycle.len() ==> evaluated[(#[trigger] cycle[k]) as int] == None::<ValueView>
            || evaluated[cycle[k] as int] == Some(ValueView::Unknown)
}

/// A step keeps the rules of such a cycle unbound or bound to `Unknown`.
proof fn lemma_step_cycle(
    rules: Seq<RuleView>,
    table: TableModel,
    module: Seq<Seq<char>>,
    cycle: Seq<RuleIndex>,
    m: Machine,
)
    requires
        unknown_cycle(rules, table, module, cycle),
        state_ok(rules, m),
        cycle_unknown(cycle, m.evaluated),
    ensures
        cycle_unknown(cycle, spec_step(rules, table, module, m).evaluated),
{
    let after = spec_step(rules, table, module, m);
    assert forall|k: int| 0 <= k < cycle.len() implies after.evaluated[(#[trigger] cycle[k]) as int]
        == None::<ValueView> || after.evaluated[cycle[k] as int] == Some(ValueView::Unknown) by {
        let i = cycle[k];
        assert(m.evaluated[i as int] == None::<ValueView> || m.evaluated[i as int] == Some(
            ValueView::Unknown,
        ));
        if m.stack.len() > 0 && m.stack.last() == i && after.evaluated[i as int]
            != m.evaluated[i as int] {
            // the rule is bound in this step
            let rest = m.stack.drop_last();
            if !rest.contains(i) {
                let rule = rules[i as int];
                let deps = spec_deps(rule, table, module);
                let next_place = (k + 1) % (cycle.len() as int);
                let next = cycle[next_place];
                assert(passes_on(rule, table, module, next));
                lemma_pending(deps, m.evaluated);
                assert(spec_pending(deps, m.evaluated).len() == 0);
                assert(m.evaluated[next as int] == None::<ValueView> || m.evaluated[next as int]
                    == Some(ValueView::Unknown));
                match rule.description {
                    DescriptionView::Ref(name, _) => {
                        assert(deps[0] == next);
                        assert(is_bound(m.evaluated, next));
                    },
                    DescriptionView::Composed(own, sup) => {
                        assert(deps[0] == next);
                        assert(is_bound(m.evaluated, next));
                    },
                    _ => {},
                }
            }
        }
    }
}

/// In every state that evaluation reaches, the rules of a cycle on which
/// `Unknown` is passed on are unbound or bound to `Unknown`.
proof fn lemma_cycle_run(
    rules: Seq<RuleView>,
    table: TableModel,
    module: Seq<Seq<char>>,
    cycle: Seq<RuleIndex>,
    steps: nat,
)
    requires
        rules_wf(rules),
        table_wf(table, rules.len() as int),
        unknown_cycle(rules, table, module, cycle),
    ensures
        cycle_unknown(cycle, spec_run(rules, table, module, spec_start(rules), steps).evaluated),
        state_ok(rules, spec_run(rules, table, module, spec_start(rules), steps)),
    decreases steps,
{
    if steps > 0 {
        lemma_cycle_run(rules, table, module, cycle, (steps - 1) as nat);
        let before = spec_run(rules, table, module, spec_start(rules), (steps - 1) as nat);
        lemma_step_ok(rules, table, module, before);
        lemma_step_cycle(rules, table, module, cycle, before);
    }
}

/// Whether every rule before the next one to start from is bound or on
/// the stack.
pub open spec fn taken_up(m: Machine) -> bool {
    forall|x: int|
        0 <= x < m.next && x < m.evaluated.len() ==> (#[trigger] m.evaluated[x]) is Some
            || m.stack.contains(x as usize)
}

/// A step keeps every rule that was taken up bound or on the stack.
proof fn lemma_step_taken_up(
    rules: Seq<RuleView>,
    table: TableModel,
    module: Seq<Seq<char>>,
    m: Machine,
)
    requires
        state_ok(rules, m),
        rules.len() <= usize::MAX,
        taken_up(m),
    ensures
        taken_up(spec_step(rules, table, module, m)),
{
    let after = spec_step(rules, table, module, m);
    assert forall|x: int| 0 <= x < after.next && x < after.evaluated.len() implies (
    #[trigger] after.evaluated[x]) is Some || after.stack.contains(x as usize) by {
        if m.stack.len() == 0 {
            if x == m.next {
                if !is_bound(m.evaluated, m.next as usize) {
                    assert(after.stack[0] == x as usize);
                }
            } else {
                assert(m.evaluated[x] is Some || m.stack.contains(x as usize));
            }
        } else {
            assert(m.evaluated[x] is Some || m.stack.contains(x as usize));
            if !(m.evaluated[x] is Some) {
                let p = choose|p: int| 0 <= p < m.stack.len() && m.stack[p] == x as usize;
                let index = m.stack.last();
                let rest = m.stack.drop_last();
                if p < m.stack.len() - 1 {
                    assert(rest[p] == x as usize);
                    if after.stack != rest {
                        let waiting = spec_pending(
                            spec_deps(rules[index as int], table, module),
                            m.evaluated,
                        );
                        assert((rest.push(index) + waiting)[p] == x as usize);
                    }
                } else {
                    assert(index == x as usize);
                    if after.stack != rest {
                        let waiting = spec_pending(
                            spec_deps(rules[index as int], table, module),
                            m.evaluated,
                        );
                        assert((rest.push(index) + waiting)[rest.len() as int] == x as usize);
                    }
                }
            }
        }
    }
}

/// In every state that evaluation reaches, every rule that was taken up
/// is bound or on the stack.
proof fn lemma_run_taken_up(
    rules: Seq<RuleView>,
    table: TableModel,
    module: Seq<Seq<char>>,
    steps: nat,
)
    requires
        rules_wf(rules),
        table_wf(table, rules.len() as int),
        rules.len() <= usize::MAX,
    ensures
        taken_up(spec_run(rules, table, module, spec_start(rules), steps)),
        state_ok(rules, spec_run(rules, table, module, spec_start(rules), steps)),
    decreases steps,
{
    if steps > 0 {
        lemma_run_taken_up(rules, table, module, (steps - 1) as nat);
        let before = spec_run(rules, table, module, spec_start(rules), (steps - 1) as nat);
        lemma_step_ok(rules, table, module, before);
        lemma_step_taken_up(rules, table, module, before);
    }
}

/// Where rules form a cycle on which `Unknown` is passed on, each by a
/// reference, a union or the own part of a composition, evaluation binds
/// every rule of the cycle to `Unknown`.
pub proof fn lemma_cycle_is_unknown(
    rules: Seq<RuleView>,
    table: TableModel,
    module: Seq<Seq<char>>,
    cycle: Seq<RuleIndex>,
    m: Machine,
)
    requires
        rules_wf(rules),
        table_wf(table, rules.len() as int),
        rules.len() <= usize::MAX,
        unknown_cycle(rules, table, module, cycle),
        evaluates_to(rules, table, module, m),
    ensures
        forall|k: int|
            0 <= k < cycle.len() ==> m.evaluated[(#[trigger] cycle[k]) as int] == Some(
                ValueView::Unknown,
            ),
{
    let steps = choose|steps: nat| spec_run(rules, table, module, spec_start(rules), steps) == m;
    lemma_cycle_run(rules, table, module, cycle, steps);
    lemma_run_taken_up(rules, table, module, steps);
    assert forall|k: int| 0 <= k < cycle.len() implies m.evaluated[(#[trigger] cycle[k]) as int]
        == Some(ValueView::Unknown) by {
        let i = cycle[k] as int;
        assert(m.evaluated[i] is Some || m.stack.contains(i as usize));
    }
}

/// Every rule is bound when evaluation has ended.
pub proof fn lemma_all_bound(
    rules: Seq<RuleView>,
    table: TableModel,
    module: Seq<Seq<char>>,
    m: Machine,
)
    requires
        rules_wf(rules),
        table_wf(table, rules.len() as int),
        rules.len() <= usize::MAX,
        evaluates_to(rules, table, module, m),
    ensures
        m.evaluated.len() == rules.len(),
        forall|i: int| 0 <= i < rules.len() ==> (#[trigger] m.evaluated[i]) is Some,
        unions_unknown(rules, m.evaluated),
{
    let steps = choose|steps: nat| spec_run(rules, table, module, spec_start(rules), steps) == m;
    lemma_run_taken_up(rules, table, module, steps);
    lemma_union_is_unknown(rules, table, module, steps);
    assert forall|i: int| 0 <= i < rules.len() implies (#[trigger] m.evaluated[i]) is Some by {
        assert(m.evaluated[i] is Some || m.stack.contains(i as usize));
    }
}

} // verus!
