//! The value evaluator: a flat graph of rules, built from the
//! expressions of a module and evaluated to a fixed point.

pub mod evaluation;
pub mod value_analysis;

use crate::ast::{AstInfo, Expr, Global, Ident, Let};
use crate::eval::value::{Value, ValueView};
use crate::ast::bounds::{globals_within, range_within};
use crate::semantics::error::{
    errors_model, errors_within, views_within, Error, ErrorMessage, ErrorMessageView, ErrorView,
};
use crate::semantics::values::evaluation::lemma_union_is_unknown;
use crate::semantics::values::value_analysis::{
    extends, fits, lemma_expr_extends, lemma_expr_wf, lemma_expr_within, lemma_extends_rule,
    lemma_extends_trans, rule_within, rules_within,
};
use crate::semantics::values::evaluation::{
    bound_value, evaluate, evaluates_to, lemma_all_bound, lemma_evaluates_to_one,
    spec_reference_errors, spec_run, spec_start, spec_step, table_wf, values_model, Bindings,
    Machine, TableModel,
};
use crate::semantics::{symbols_model, Errors, SymbolTable, SymbolsModel};
use crate::table::{holds, lemma_place, place, put, Table};
use crate::token::TokenRange;
use crate::{GlobalIdent, ModuleAst};
use crate::token::ToTokenRange;
use vstd::prelude::*;

verus! {

/// Index into the rule list
pub type RuleIndex = usize;

/// What a rule says of its value.
#[derive(Debug)]
pub enum ValueDescription {
    Union(Vec<RuleIndex>),
    Struct(Table<String, RuleIndex>),
    List(Vec<RuleIndex>),
    Primitive(Value),
    /// Composed(own rule, super rule)
    Composed(RuleIndex, RuleIndex),
    Ref(Ident),
    Empty,
    Unknown,
}

/// A node of the value graph.
#[derive(Debug)]
pub struct Rule {
    pub value_description: ValueDescription,
    pub is_default: bool,
    pub info: AstInfo,
}

/// The mathematical content of a [`ValueDescription`]. Of a reference it
/// keeps the name and the tokens of the name.
pub ghost enum DescriptionView {
    Union(Seq<RuleIndex>),
    Struct(Seq<(Seq<char>, RuleIndex)>),
    List(Seq<RuleIndex>),
    Primitive(ValueView),
    Composed(RuleIndex, RuleIndex),
    Ref(Seq<char>, TokenRange),
    Empty,
    Unknown,
}

/// The mathematical content of a [`Rule`].
pub ghost struct RuleView {
    pub description: DescriptionView,
    pub is_default: bool,
    pub range: TokenRange,
}

impl View for ValueDescription {
    type V = DescriptionView;

    open spec fn view(&self) -> DescriptionView {
        match self {
            ValueDescription::Union(indices) => DescriptionView::Union(indices@),
            ValueDescription::Struct(fields) => DescriptionView::Struct(fields.model()),
            ValueDescription::List(indices) => DescriptionView::List(indices@),
            ValueDescription::Primitive(value) => DescriptionView::Primitive(value@),
            ValueDescription::Composed(own, sup) => DescriptionView::Composed(*own, *sup),
            ValueDescription::Ref(ident) => DescriptionView::Ref(ident.name@, ident.info.range),
            ValueDescription::Empty => DescriptionView::Empty,
            ValueDescription::Unknown => DescriptionView::Unknown,
        }
    }
}

impl View for Rule {
    type V = RuleView;

    open spec fn view(&self) -> RuleView {
        RuleView {
            description: self.value_description@,
            is_default: self.is_default,
            range: self.info.range,
        }
    }
}

/// The contents of a list of rules.
pub open spec fn rules_model(rules: Seq<Rule>) -> Seq<RuleView> {
    Seq::new(rules.len(), |i: int| rules[i]@)
}

/// Whether every rule of the list comes before the place `bound`.
pub open spec fn all_below(indices: Seq<RuleIndex>, bound: int) -> bool {
    forall|k: int| 0 <= k < indices.len() ==> (#[trigger] indices[k]) < bound
}

/// Whether the rule of every field comes before the place `bound`.
pub open spec fn fields_below(fields: Seq<(Seq<char>, RuleIndex)>, bound: int) -> bool {
    forall|k: int| 0 <= k < fields.len() ==> (#[trigger] fields[k]).1 < bound
}

impl DescriptionView {
    /// Whether every rule that the description refers to comes before
    /// the place `bound`.
    pub open spec fn below(self, bound: int) -> bool {
        match self {
            DescriptionView::Union(indices) => all_below(indices, bound),
            DescriptionView::Struct(fields) => fields_below(fields, bound),
            DescriptionView::List(indices) => all_below(indices, bound),
            DescriptionView::Composed(own, sup) => own < bound && sup < bound,
            _ => true,
        }
    }
}

/// Whether every rule refers only to rules before it: no index dangles,
/// and the rules that are built from one expression form a tree.
pub open spec fn rules_wf(rules: Seq<RuleView>) -> bool {
    forall|i: int| 0 <= i < rules.len() ==> (#[trigger] rules[i]).description.below(i)
}

/// What value analysis returns: the value of the initializer, the value
/// of every global name, and the errors found.
#[derive(Debug)]
pub struct ValuesResult {
    pub inits: Vec<Value>,
    pub symbol_table: SymbolTable,
    pub errors: Errors,
}

/// The mathematical content of a [`ValuesResult`].
pub ghost struct ValuesView {
    pub inits: Seq<ValueView>,
    pub symbol_table: SymbolsModel,
    pub errors: Seq<ErrorView>,
}

impl View for ValuesResult {
    type V = ValuesView;

    open spec fn view(&self) -> ValuesView {
        ValuesView {
            inits: crate::eval::value::list_model(self.inits@),
            symbol_table: symbols_model(self.symbol_table.entries@),
            errors: errors_model(self.errors@),
        }
    }
}

/// What the globals of a module come to before evaluation: the rules,
/// the rule of each global name, the rules of the initializers, and the
/// rule of each let with the tokens of the let.
pub ghost struct Collected {
    pub rules: Seq<RuleView>,
    pub table: TableModel,
    pub inits: Seq<RuleIndex>,
    pub lets: Seq<(TokenRange, RuleIndex)>,
}

/// The rules and tables of the globals, collected from first to last. A
/// definition or a let without an expression adds nothing. Of two
/// bindings of one name the later one is kept.
pub open spec fn spec_collect(globals: Seq<Global>, module: Seq<Seq<char>>) -> Collected
    decreases globals.len(),
{
    if globals.len() == 0 {
        Collected {
            rules: Seq::empty(),
            table: Seq::empty(),
            inits: Seq::empty(),
            lets: Seq::empty(),
        }
    } else {
        let acc = spec_collect(globals.drop_last(), module);
        match globals.last() {
            Global::Def(d) => match d.expr {
                Some(expr) => {
                    let rules = value_analysis::spec_expr(expr, acc.rules);
                    let index = value_analysis::last_index(rules);
                    Collected {
                        rules,
                        table: match d.name {
                            Some(ident) => put(acc.table, module.push(ident.name@), index),
                            None => acc.table,
                        },
                        ..acc
                    }
                },
                None => acc,
            },
            Global::Let(l) => match l.expr {
                Some(expr) => {
                    let rules = value_analysis::spec_expr(expr, acc.rules);
                    let index = value_analysis::last_index(rules);
                    Collected {
                        rules,
                        table: match l.name {
                            Some(ident) => put(acc.table, module.push(ident.name@), index),
                            None => acc.table,
                        },
                        inits: acc.inits,
                        lets: acc.lets.push((l.info.range, index)),
                    }
                },
                None => acc,
            },
            Global::Init(expr) => {
                let rules = value_analysis::spec_expr(expr, acc.rules);
                Collected {
                    rules,
                    inits: acc.inits.push(value_analysis::last_index(rules)),
                    ..acc
                }
            },
            _ => acc,
        }
    }
}

/// One error for each of the first `n` rules that is a default and is
/// not fully known.
pub open spec fn spec_default_errors(rules: Seq<RuleView>, evaluated: Bindings, n: int) -> Seq<
    ErrorView,
>
    decreases n,
{
    if n <= 0 {
        Seq::empty()
    } else {
        let before = spec_default_errors(rules, evaluated, n - 1);
        if rules[n - 1].is_default && !bound_value(evaluated, (n - 1) as usize).is_known() {
            before.push(
                ErrorView {
                    message: ErrorMessageView::UninitializedDefault,
                    range: rules[n - 1].range,
                },
            )
        } else {
            before
        }
    }
}

/// One error for each let whose value is not fully known.
pub open spec fn spec_let_errors(lets: Seq<(TokenRange, RuleIndex)>, evaluated: Bindings) -> Seq<
    ErrorView,
>
    decreases lets.len(),
{
    if lets.len() == 0 {
        Seq::empty()
    } else {
        let before = spec_let_errors(lets.drop_last(), evaluated);
        if !bound_value(evaluated, lets.last().1).is_known() {
            before.push(
                ErrorView { message: ErrorMessageView::UninitializedLet, range: lets.last().0 },
            )
        } else {
            before
        }
    }
}

/// One error for each initializer but the first.
pub open spec fn spec_multiple_errors(inits: Seq<RuleIndex>, rules: Seq<RuleView>) -> Seq<ErrorView>
    decreases inits.len(),
{
    if inits.len() <= 1 {
        Seq::empty()
    } else {
        spec_multiple_errors(inits.drop_last(), rules).push(
            ErrorView {
                message: ErrorMessageView::MultipleInits,
                range: rules[inits.last() as int].range,
            },
        )
    }
}

/// One error for each initializer whose value is not fully known.
pub open spec fn spec_init_errors(
    inits: Seq<RuleIndex>,
    rules: Seq<RuleView>,
    evaluated: Bindings,
) -> Seq<ErrorView>
    decreases inits.len(),
{
    if inits.len() == 0 {
        Seq::empty()
    } else {
        let before = spec_init_errors(inits.drop_last(), rules, evaluated);
        if !bound_value(evaluated, inits.last()).is_known() {
            before.push(
                ErrorView {
                    message: ErrorMessageView::UninitializedInit,
                    range: rules[inits.last() as int].range,
                },
            )
        } else {
            before
        }
    }
}

/// The value of every global name, in the order in which the names were
/// first bound.
pub open spec fn spec_symbols(table: TableModel, evaluated: Bindings) -> SymbolsModel {
    Seq::new(table.len(), |k: int| (table[k].0, bound_value(evaluated, table[k].1)))
}

/// The values that are returned as initializers: that of the first
/// initializer, if there is one.
pub open spec fn spec_inits(inits: Seq<RuleIndex>, evaluated: Bindings) -> Seq<ValueView> {
    if inits.len() == 0 {
        Seq::empty()
    } else {
        seq![bound_value(evaluated, inits[0])]
    }
}

/// What value analysis returns for what was collected, once evaluation
/// has ended in the state `m`: the errors of the evaluation, then those
/// for defaults, for lets, for further initializers and for initializers
/// that are not fully known.
pub open spec fn spec_result(collected: Collected, m: Machine) -> ValuesView {
    ValuesView {
        inits: spec_inits(collected.inits, m.evaluated),
        symbol_table: spec_symbols(collected.table, m.evaluated),
        errors: m.errors + spec_default_errors(
            collected.rules,
            m.evaluated,
            collected.rules.len() as int,
        ) + spec_let_errors(collected.lets, m.evaluated) + spec_multiple_errors(
            collected.inits,
            collected.rules,
        ) + spec_init_errors(collected.inits, collected.rules, m.evaluated),
    }
}

/// What value analysis returns for a module.
pub open spec fn spec_analyze(globals: Seq<Global>, module: Seq<Seq<char>>) -> ValuesView {
    let collected = spec_collect(globals, module);
    let m = choose|m: Machine| evaluates_to(collected.rules, collected.table, module, m);
    spec_result(collected, m)
}

/// The tokens and the rule of each let.
pub open spec fn lets_model(lets: Seq<(&Let, RuleIndex)>) -> Seq<(TokenRange, RuleIndex)> {
    Seq::new(lets.len(), |i: int| (lets[i].0.info.range, lets[i].1))
}

/// What holds of what was collected: no index dangles.
pub open spec fn collected_wf(c: Collected) -> bool {
    &&& rules_wf(c.rules)
    &&& table_wf(c.table, c.rules.len() as int)
    &&& forall|k: int| 0 <= k < c.inits.len() ==> (#[trigger] c.inits[k]) < c.rules.len()
    &&& forall|k: int| 0 <= k < c.lets.len() ==> (#[trigger] c.lets[k]).1 < c.rules.len()
}

/// A table that gets one more valid entry names valid rules only.
pub proof fn lemma_put_wf(table: TableModel, key: Seq<Seq<char>>, index: RuleIndex, rules: int)
    requires
        table_wf(table, rules),
        index < rules,
    ensures
        table_wf(put(table, key, index), rules),
{
    if holds(table, key) {
        lemma_place(table, key);
    }
    let after = put(table, key, index);
    assert forall|k: int| 0 <= k < after.len() implies (#[trigger] after[k]).1 < rules by {
        if k < table.len() && !(holds(table, key) && k == place(table, key)) {
            assert(after[k] == table[k]);
        }
    }
}

/// A table names valid rules still when rules are added.
pub proof fn lemma_table_grows(table: TableModel, rules: int, more: int)
    requires
        table_wf(table, rules),
        rules <= more,
    ensures
        table_wf(table, more),
{
    assert forall|k: int| 0 <= k < table.len() implies (#[trigger] table[k]).1 < more by {
        assert(table[k].1 < rules);
    }
}

/// Analyzes the values of a module: builds the rules of its definitions,
/// lets and initializers, evaluates them, and checks that defaults, lets
/// and initializers are fully known and that there is one initializer at
/// most.
pub fn analyze(module_ast: &ModuleAst) -> (r: ValuesResult)
    ensures
        r@ == spec_analyze(module_ast.ast.globals@, module_ast.name@),
        exists|m: Machine|
            evaluates_to(
                spec_collect(module_ast.ast.globals@, module_ast.name@).rules,
                spec_collect(module_ast.ast.globals@, module_ast.name@).table,
                module_ast.name@,
                m,
            ) && r@ == spec_result(spec_collect(module_ast.ast.globals@, module_ast.name@), m),
        forall|n: int| #[trigger]
            globals_within(module_ast.ast.globals@, n) ==> errors_within(r.errors@, n),
{
    let globals = &module_ast.ast.globals;
    let ghost md = module_ast.name@;
    let mut rules: Vec<Rule> = Vec::new();
    let mut rule_table: Table<GlobalIdent, RuleIndex> = Table::new();
    let mut inits: Vec<RuleIndex> = Vec::new();
    let mut lets: Vec<(&Let, RuleIndex)> = Vec::new();
    let mut i: usize = 0;
    proof {
        assert(globals@.take(0) =~= Seq::empty());
        assert(rules_model(rules@) =~= Seq::empty());
        assert(rule_table.model() =~= Seq::empty());
        assert(lets_model(lets@) =~= Seq::empty());
    }
    while i < globals.len()
        invariant
            i <= globals@.len(),
            md == module_ast.name@,
            spec_collect(globals@.take(i as int), md) == (Collected {
                rules: rules_model(rules@),
                table: rule_table.model(),
                inits: inits@,
                lets: lets_model(lets@),
            }),
            collected_wf(spec_collect(globals@.take(i as int), md)),
        decreases globals@.len() - i,
    {
        proof {
            assert(globals@.take(i + 1).drop_last() =~= globals@.take(i as int));
            assert(globals@.take(i + 1).last() == globals@[i as int]);
        }
        let ghost rules_before = rules_model(rules@);
        let ghost table_before = rule_table.model();
        let ghost lets_before = lets_model(lets@);
        match &globals[i] {
            Global::Def(d) => {
                match &d.expr {
                    Some(expr) => {
                        let rule_index = value_analysis::analyze(expr, &mut rules);
                        proof {
                            lemma_table_grows(
                                table_before,
                                rules_before.len() as int,
                                rules@.len() as int,
                            );
                        }
                        match &d.name {
                            Some(ident) => {
                                proof {
                                    lemma_put_wf(
                                        table_before,
                                        md.push(ident.name@),
                                        rule_index,
                                        rules@.len() as int,
                                    );
                                }
                                rule_table.insert(
                                    module_ast.name.duplicate().extend(ident.name.clone()),
                                    rule_index,
                                );
                            },
                            None => {},
                        }
                    },
                    None => {},
                }
            },
            Global::Let(l) => {
                match &l.expr {
                    Some(expr) => {
                        let rule_index = value_analysis::analyze(expr, &mut rules);
                        proof {
                            lemma_table_grows(
                                table_before,
                                rules_before.len() as int,
                                rules@.len() as int,
                            );
                        }
                        match &l.name {
                            Some(ident) => {
                                proof {
                                    lemma_put_wf(
                                        table_before,
                                        md.push(ident.name@),
                                        rule_index,
                                        rules@.len() as int,
                                    );
                                }
                                rule_table.insert(
                                    module_ast.name.duplicate().extend(ident.name.clone()),
                                    rule_index,
                                );
                            },
                            None => {},
                        }
                        lets.push((l, rule_index));
                        assert(lets_model(lets@) =~= lets_before.push((l.info.range, rule_index)));
                    },
                    None => {},
                }
            },
            Global::Init(expr) => {
                let rule_index = value_analysis::analyze(expr, &mut rules);
                proof {
                    lemma_table_grows(table_before, rules_before.len() as int, rules@.len() as int);
                }
                inits.push(rule_index);
            },
            _ => {},
        }
        i += 1;
    }
    proof {
        assert(globals@.take(i as int) =~= globals@);
    }
    let ghost collected = spec_collect(globals@, md);
    let mut errors: Errors = Vec::new();
    assert(errors_model(errors@) =~= Seq::empty());
    let evaluated = evaluate(&module_ast.name, &rules, &rule_table, &mut errors);
    let ghost m = choose|m: Machine|
        evaluates_to(collected.rules, collected.table, md, m) && m.evaluated == values_model(
            evaluated@,
        ) && errors_model(errors@) == Seq::<ErrorView>::empty() + m.errors;
    proof {
        let chosen = choose|m: Machine| evaluates_to(collected.rules, collected.table, md, m);
        lemma_evaluates_to_one(collected.rules, collected.table, md, m, chosen);
        assert(Seq::<ErrorView>::empty() + m.errors =~= m.errors);
    }
    let ghost bindings = m.evaluated;
    let ghost machine_errors = m.errors;
    // defaults must be fully initialized
    let mut k: usize = 0;
    proof {
        assert(machine_errors + Seq::<ErrorView>::empty() =~= machine_errors);
    }
    while k < rules.len()
        invariant
            k <= rules@.len(),
            evaluated@.len() == rules@.len(),
            bindings == values_model(evaluated@),
            collected.rules == rules_model(rules@),
            errors_model(errors@) == machine_errors + spec_default_errors(
                collected.rules,
                bindings,
                k as int,
            ),
        decreases rules@.len() - k,
    {
        let ghost before = errors_model(errors@);
        assert(bound_value(bindings, k) == evaluated@[k as int]@);
        if rules[k].is_default && !evaluated[k].is_known() {
            let error = Error::new(
                ErrorMessage::UninitializedDefault,
                rules[k].info.to_token_range(),
            );
            errors.push(error);
            assert(errors_model(errors@) =~= before.push(error@));
            assert(before.push(error@) =~= machine_errors + spec_default_errors(
                collected.rules,
                bindings,
                k as int,
            ).push(error@));
        }
        k += 1;
    }
    let ghost after_defaults = errors_model(errors@);
    // lets must be fully initialized
    let mut k: usize = 0;
    proof {
        assert(lets_model(lets@).take(0) =~= Seq::empty());
        assert(after_defaults + Seq::<ErrorView>::empty() =~= after_defaults);
    }
    while k < lets.len()
        invariant
            k <= lets@.len(),
            evaluated@.len() == rules@.len(),
            bindings == values_model(evaluated@),
            collected.lets == lets_model(lets@),
            collected.rules == rules_model(rules@),
            collected_wf(collected),
            errors_model(errors@) == after_defaults + spec_let_errors(
                collected.lets.take(k as int),
                bindings,
            ),
        decreases lets@.len() - k,
    {
        proof {
            assert(collected.lets.take(k + 1).drop_last() =~= collected.lets.take(k as int));
            assert(collected.lets.take(k + 1).last() == collected.lets[k as int]);
        }
        let ghost before = errors_model(errors@);
        let (l, rule_index) = lets[k];
        assert(rule_index == collected.lets[k as int].1);
        assert(bound_value(bindings, rule_index) == evaluated@[rule_index as int]@);
        if !evaluated[rule_index].is_known() {
            let error = Error::new(ErrorMessage::UninitializedLet, l.info.to_token_range());
            errors.push(error);
            assert(errors_model(errors@) =~= before.push(error@));
            assert(before.push(error@) =~= after_defaults + spec_let_errors(
                collected.lets.take(k as int),
                bindings,
            ).push(error@));
        }
        k += 1;
    }
    proof {
        assert(collected.lets.take(k as int) =~= collected.lets);
    }
    let ghost after_lets = errors_model(errors@);
    // the value of every global name
    let mut symbol_table = SymbolTable::new();
    let mut k: usize = 0;
    while k < rule_table.entries.len()
        invariant
            k <= rule_table.entries@.len(),
            evaluated@.len() == rules@.len(),
            bindings == values_model(evaluated@),
            collected.table == rule_table.model(),
            collected.rules == rules_model(rules@),
            collected_wf(collected),
            symbol_table.entries@.len() == k,
            forall|j: int|
                0 <= j < k ==> (#[trigger] symbol_table.entries@[j]).0@ == collected.table[j].0
                    && symbol_table.entries@[j].1@ == bound_value(bindings, collected.table[j].1),
        decreases rule_table.entries@.len() - k,
    {
        let entry = &rule_table.entries[k];
        assert(entry.0@ == collected.table[k as int].0 && entry.1 == collected.table[k as int].1);
        assert(bound_value(bindings, entry.1) == evaluated@[entry.1 as int]@);
        symbol_table.entries.push((entry.0.duplicate(), evaluated[entry.1].duplicate()));
        k += 1;
    }
    proof {
        assert(symbols_model(symbol_table.entries@) =~= spec_symbols(collected.table, bindings));
    }
    // there may be one initializer only
    let mut k: usize = 1;
    proof {
        assert(after_lets + Seq::<ErrorView>::empty() =~= after_lets);
        if inits@.len() > 0 {
            assert(collected.inits.take(1).len() <= 1);
        }
        if inits@.len() == 0 {
            assert(collected.inits.take(0) =~= collected.inits);
        }
    }
    while k < inits.len()
        invariant
            1 <= k,
            k <= inits@.len() || inits@.len() == 0,
            collected.inits == inits@,
            collected.rules == rules_model(rules@),
            collected_wf(collected),
            inits@.len() > 0 ==> errors_model(errors@) == after_lets + spec_multiple_errors(
                collected.inits.take(k as int),
                collected.rules,
            ),
            inits@.len() == 0 ==> errors_model(errors@) == after_lets,
        decreases inits@.len() - k,
    {
        proof {
            assert(collected.inits.take(k + 1).drop_last() =~= collected.inits.take(k as int));
            assert(collected.inits.take(k + 1).last() == collected.inits[k as int]);
        }
        let ghost before = errors_model(errors@);
        let rule_index = inits[k];
        let error = Error::new(
            ErrorMessage::MultipleInits,
            rules[rule_index].info.to_token_range(),
        );
        errors.push(error);
        assert(errors_model(errors@) =~= before.push(error@));
        assert(before.push(error@) =~= after_lets + spec_multiple_errors(
            collected.inits.take(k as int),
            collected.rules,
        ).push(error@));
        k += 1;
    }
    proof {
        if inits@.len() > 0 {
            assert(collected.inits.take(k as int) =~= collected.inits);
        } else {
            assert(after_lets + spec_multiple_errors(collected.inits, collected.rules)
                =~= after_lets);
        }
    }
    let ghost after_multiple = errors_model(errors@);
    // initializers must be fully initialized
    let mut k: usize = 0;
    proof {
        assert(collected.inits.take(0) =~= Seq::empty());
        assert(after_multiple + Seq::<ErrorView>::empty() =~= after_multiple);
    }
    while k < inits.len()
        invariant
            k <= inits@.len(),
            evaluated@.len() == rules@.len(),
            bindings == values_model(evaluated@),
            collected.inits == inits@,
            collected.rules == rules_model(rules@),
            collected_wf(collected),
            errors_model(errors@) == after_multiple + spec_init_errors(
                collected.inits.take(k as int),
                collected.rules,
                bindings,
            ),
        decreases inits@.len() - k,
    {
        proof {
            assert(collected.inits.take(k + 1).drop_last() =~= collected.inits.take(k as int));
            assert(collected.inits.take(k + 1).last() == collected.inits[k as int]);
        }
        let ghost before = errors_model(errors@);
        let rule_index = inits[k];
        assert(bound_value(bindings, rule_index) == evaluated@[rule_index as int]@);
        if !evaluated[rule_index].is_known() {
            let error = Error::new(
                ErrorMessage::UninitializedInit,
                rules[rule_index].info.to_token_range(),
            );
            errors.push(error);
            assert(errors_model(errors@) =~= before.push(error@));
            assert(before.push(error@) =~= after_multiple + spec_init_errors(
                collected.inits.take(k as int),
                collected.rules,
                bindings,
            ).push(error@));
        }
        k += 1;
    }
    proof {
        assert(collected.inits.take(k as int) =~= collected.inits);
    }
    let mut values: Vec<Value> = Vec::new();
    if inits.len() > 0 {
        let first = inits[0];
        assert(first == collected.inits[0]);
        assert(bound_value(bindings, first) == evaluated@[first as int]@);
        values.push(evaluated[first].duplicate());
    }
    let r = ValuesResult { inits: values, symbol_table, errors };
    proof {
        assert(r@.inits =~= spec_inits(collected.inits, bindings));
        assert(r@ == spec_result(collected, m));
        assert forall|n: int| #[trigger] globals_within(globals@, n) implies errors_within(
            r.errors@,
            n,
        ) by {
            lemma_result_within(globals@, md, m, n);
        }
    }
    r
}

/// The number of initializers among the globals.
pub open spec fn count_inits(globals: Seq<Global>) -> nat
    decreases globals.len(),
{
    if globals.len() == 0 {
        0
    } else {
        count_inits(globals.drop_last()) + if globals.last() is Init {
            1nat
        } else {
            0nat
        }
    }
}

/// The number of errors that report a further initializer.
pub open spec fn count_multiple(errors: Seq<ErrorView>) -> nat
    decreases errors.len(),
{
    if errors.len() == 0 {
        0
    } else {
        count_multiple(errors.drop_last()) + if errors.last().message is MultipleInits {
            1nat
        } else {
            0nat
        }
    }
}

/// The count in two lists of errors is the sum of the counts in each.
proof fn lemma_count_concat(a: Seq<ErrorView>, b: Seq<ErrorView>)
    ensures
        count_multiple(a + b) == count_multiple(a) + count_multiple(b),
    decreases b.len(),
{
    if b.len() == 0 {
        assert(a + b =~= a);
    } else {
        lemma_count_concat(a, b.drop_last());
        assert((a + b).drop_last() =~= a + b.drop_last());
        assert((a + b).last() == b.last());
    }
}

/// Every initializer among the globals is collected.
proof fn lemma_inits_collected(globals: Seq<Global>, module: Seq<Seq<char>>)
    ensures
        spec_collect(globals, module).inits.len() == count_inits(globals),
    decreases globals.len(),
{
    if globals.len() > 0 {
        lemma_inits_collected(globals.drop_last(), module);
    }
}

/// Evaluation reports no further initializer.
proof fn lemma_run_reports_none(
    rules: Seq<RuleView>,
    table: TableModel,
    module: Seq<Seq<char>>,
    steps: nat,
)
    ensures
        count_multiple(spec_run(rules, table, module, spec_start(rules), steps).errors) == 0,
    decreases steps,
{
    if steps > 0 {
        lemma_run_reports_none(rules, table, module, (steps - 1) as nat);
        let before = spec_run(rules, table, module, spec_start(rules), (steps - 1) as nat);
        let after = spec_step(rules, table, module, before);
        if after.errors != before.errors {
            let index = before.stack.last();
            let added = spec_reference_errors(rules[index as int]);
            assert(after.errors == before.errors + added);
            lemma_count_concat(before.errors, added);
            if added.len() > 0 {
                assert(added.len() == 1);
                assert(added.drop_last() =~= Seq::<ErrorView>::empty());
                assert(added.last().message is Unsupported);
                assert(count_multiple(added.drop_last()) == 0);
            }
            assert(count_multiple(added) == 0);
        }
        assert(spec_run(rules, table, module, spec_start(rules), steps) == after);
    }
}

/// The checks of defaults, lets and initializers report no further
/// initializer; the check for further initializers reports each but the
/// first.
proof fn lemma_counts(
    rules: Seq<RuleView>,
    evaluated: Bindings,
    n: int,
    lets: Seq<(TokenRange, RuleIndex)>,
    inits: Seq<RuleIndex>,
)
    ensures
        count_multiple(spec_default_errors(rules, evaluated, n)) == 0,
        count_multiple(spec_let_errors(lets, evaluated)) == 0,
        count_multiple(spec_init_errors(inits, rules, evaluated)) == 0,
        count_multiple(spec_multiple_errors(inits, rules)) == if inits.len() == 0 {
            0
        } else {
            inits.len() - 1
        },
    decreases (if n < 0 { 0 } else { n }) + lets.len() + inits.len(),
{
    if n > 0 {
        lemma_counts(rules, evaluated, n - 1, Seq::empty(), Seq::empty());
        let before = spec_default_errors(rules, evaluated, n - 1);
        let all = spec_default_errors(rules, evaluated, n);
        if all != before {
            assert(all.drop_last() =~= before);
        }
    }
    if lets.len() > 0 {
        lemma_counts(rules, evaluated, 0, lets.drop_last(), Seq::empty());
        let before = spec_let_errors(lets.drop_last(), evaluated);
        let all = spec_let_errors(lets, evaluated);
        if all != before {
            assert(all.drop_last() =~= before);
        }
    }
    if inits.len() > 0 {
        lemma_counts(rules, evaluated, 0, Seq::empty(), inits.drop_last());
        let before = spec_init_errors(inits.drop_last(), rules, evaluated);
        let all = spec_init_errors(inits, rules, evaluated);
        if all != before {
            assert(all.drop_last() =~= before);
        }
        if inits.len() > 1 {
            let before = spec_multiple_errors(inits.drop_last(), rules);
            let all = spec_multiple_errors(inits, rules);
            assert(all.drop_last() =~= before);
        }
    }
}

/// The number of initializers that value analysis returns is the number
/// of initializers among the globals less the number of errors that
/// report a further initializer.
pub proof fn lemma_init_count(globals: Seq<Global>, module: Seq<Seq<char>>, m: Machine)
    requires
        evaluates_to(
            spec_collect(globals, module).rules,
            spec_collect(globals, module).table,
            module,
            m,
        ),
    ensures
        spec_result(spec_collect(globals, module), m).inits.len() == count_inits(globals)
            - count_multiple(spec_result(spec_collect(globals, module), m).errors),
{
    let c = spec_collect(globals, module);
    let steps = choose|steps: nat| spec_run(c.rules, c.table, module, spec_start(c.rules), steps) == m;
    lemma_inits_collected(globals, module);
    lemma_run_reports_none(c.rules, c.table, module, steps);
    lemma_counts(c.rules, m.evaluated, c.rules.len() as int, c.lets, c.inits);
    let defaults = spec_default_errors(c.rules, m.evaluated, c.rules.len() as int);
    let lets = spec_let_errors(c.lets, m.evaluated);
    let multiple = spec_multiple_errors(c.inits, c.rules);
    let inits = spec_init_errors(c.inits, c.rules, m.evaluated);
    lemma_count_concat(m.errors, defaults);
    lemma_count_concat(m.errors + defaults, lets);
    lemma_count_concat(m.errors + defaults + lets, multiple);
    lemma_count_concat(m.errors + defaults + lets + multiple, inits);
}

/// A rule whose value is fully known is reported neither as a default,
/// nor as a let, nor as an initializer that is not fully initialized. So
/// a definition or a let that stands in the symbol table with a fully
/// known value has no such error.
pub proof fn lemma_known_is_not_reported(
    rules: Seq<RuleView>,
    evaluated: Bindings,
    lets: Seq<(TokenRange, RuleIndex)>,
    inits: Seq<RuleIndex>,
    index: RuleIndex,
)
    requires
        index < rules.len(),
        bound_value(evaluated, index).is_known(),
    ensures
        spec_default_errors(rules, evaluated, index + 1) == spec_default_errors(
            rules,
            evaluated,
            index as int,
        ),
        forall|k: int|
            0 <= k < lets.len() && (#[trigger] lets[k]).1 == index ==> spec_let_errors(
                lets.take(k + 1),
                evaluated,
            ) == spec_let_errors(lets.take(k), evaluated),
        forall|k: int|
            0 <= k < inits.len() && (#[trigger] inits[k]) == index ==> spec_init_errors(
                inits.take(k + 1),
                rules,
                evaluated,
            ) == spec_init_errors(inits.take(k), rules, evaluated),
{
    assert forall|k: int| 0 <= k < lets.len() && (#[trigger] lets[k]).1 == index implies spec_let_errors(
        lets.take(k + 1),
        evaluated,
    ) == spec_let_errors(lets.take(k), evaluated) by {
        assert(lets.take(k + 1).drop_last() =~= lets.take(k));
        assert(lets.take(k + 1).last() == lets[k]);
    }
    assert forall|k: int| 0 <= k < inits.len() && (#[trigger] inits[k]) == index implies spec_init_errors(
        inits.take(k + 1),
        rules,
        evaluated,
    ) == spec_init_errors(inits.take(k), rules, evaluated) by {
        assert(inits.take(k + 1).drop_last() =~= inits.take(k));
        assert(inits.take(k + 1).last() == inits[k]);
    }
}

/// Unions stand in types only: once evaluation has ended, a rule that is
/// a union has no value, so that each default, each let and each
/// initializer whose rule is a union is reported exactly once, as not
/// fully initialized.
pub proof fn lemma_union_is_reported_once(
    rules: Seq<RuleView>,
    table: TableModel,
    module: Seq<Seq<char>>,
    m: Machine,
    lets: Seq<(TokenRange, RuleIndex)>,
    inits: Seq<RuleIndex>,
    index: RuleIndex,
)
    requires
        rules_wf(rules),
        table_wf(table, rules.len() as int),
        rules.len() <= usize::MAX,
        evaluates_to(rules, table, module, m),
        index < rules.len(),
        rules[index as int].description is Union,
    ensures
        m.evaluated[index as int] == Some(ValueView::Unknown),
        rules[index as int].is_default ==> spec_default_errors(rules, m.evaluated, index + 1)
            == spec_default_errors(rules, m.evaluated, index as int).push(
            ErrorView {
                message: ErrorMessageView::UninitializedDefault,
                range: rules[index as int].range,
            },
        ),
        forall|k: int|
            0 <= k < lets.len() && (#[trigger] lets[k]).1 == index ==> spec_let_errors(
                lets.take(k + 1),
                m.evaluated,
            ) == spec_let_errors(lets.take(k), m.evaluated).push(
                ErrorView { message: ErrorMessageView::UninitializedLet, range: lets[k].0 },
            ),
        forall|k: int|
            0 <= k < inits.len() && (#[trigger] inits[k]) == index ==> spec_init_errors(
                inits.take(k + 1),
                rules,
                m.evaluated,
            ) == spec_init_errors(inits.take(k), rules, m.evaluated).push(
                ErrorView {
                    message: ErrorMessageView::UninitializedInit,
                    range: rules[index as int].range,
                },
            ),
{
    lemma_all_bound(rules, table, module, m);
    assert(m.evaluated[index as int] is Some);
    assert(m.evaluated[index as int] == Some(ValueView::Unknown));
    assert(!bound_value(m.evaluated, index).is_known());
    assert forall|k: int| 0 <= k < lets.len() && (#[trigger] lets[k]).1 == index implies spec_let_errors(
        lets.take(k + 1),
        m.evaluated,
    ) == spec_let_errors(lets.take(k), m.evaluated).push(
        ErrorView { message: ErrorMessageView::UninitializedLet, range: lets[k].0 },
    ) by {
        assert(lets.take(k + 1).drop_last() =~= lets.take(k));
        assert(lets.take(k + 1).last() == lets[k]);
    }
    assert forall|k: int| 0 <= k < inits.len() && (#[trigger] inits[k]) == index implies spec_init_errors(
        inits.take(k + 1),
        rules,
        m.evaluated,
    ) == spec_init_errors(inits.take(k), rules, m.evaluated).push(
        ErrorView {
            message: ErrorMessageView::UninitializedInit,
            range: rules[index as int].range,
        },
    ) by {
        assert(inits.take(k + 1).drop_last() =~= inits.take(k));
        assert(inits.take(k + 1).last() == inits[k]);
    }
}

/// Whether the range of every let lies within the first `n` tokens.
pub open spec fn lets_within(lets: Seq<(TokenRange, RuleIndex)>, n: int) -> bool {
    forall|k: int| 0 <= k < lets.len() ==> range_within((#[trigger] lets[k]).0, n)
}

/// What is collected from globals that lie within the first `n` tokens
/// lies within them.
proof fn lemma_collect_within(globals: Seq<Global>, module: Seq<Seq<char>>, n: int)
    requires
        globals_within(globals, n),
    ensures
        rules_within(spec_collect(globals, module).rules, n),
        lets_within(spec_collect(globals, module).lets, n),
    decreases globals.len(),
{
    if globals.len() > 0 {
        assert forall|i: int| 0 <= i < globals.drop_last().len() implies (
        #[trigger] globals.drop_last()[i]).within(n) by {
            assert(globals[i].within(n));
        }
        lemma_collect_within(globals.drop_last(), module, n);
        assert(globals[globals.len() - 1].within(n));
        let acc = spec_collect(globals.drop_last(), module);
        match globals.last() {
            Global::Def(d) => match d.expr {
                Some(expr) => {
                    lemma_expr_within(expr, acc.rules, n);
                },
                None => {},
            },
            Global::Let(l) => match l.expr {
                Some(expr) => {
                    lemma_expr_within(expr, acc.rules, n);
                },
                None => {},
            },
            Global::Init(expr) => {
                lemma_expr_within(expr, acc.rules, n);
            },
            _ => {},
        }
    }
}

/// The errors of evaluation lie within the tokens that the rules lie
/// within.
proof fn lemma_run_within(
    rules: Seq<RuleView>,
    table: TableModel,
    module: Seq<Seq<char>>,
    steps: nat,
    n: int,
)
    requires
        rules_wf(rules),
        table_wf(table, rules.len() as int),
        rules_within(rules, n),
    ensures
        views_within(spec_run(rules, table, module, spec_start(rules), steps).errors, n),
    decreases steps,
{
    if steps > 0 {
        lemma_run_within(rules, table, module, (steps - 1) as nat, n);
        lemma_union_is_unknown(rules, table, module, (steps - 1) as nat);
        let before = spec_run(rules, table, module, spec_start(rules), (steps - 1) as nat);
        let after = spec_step(rules, table, module, before);
        if after.errors != before.errors {
            let index = before.stack.last();
            assert(before.stack[before.stack.len() - 1] < rules.len());
            assert(rule_within(rules[index as int], n));
            let added = spec_reference_errors(rules[index as int]);
            assert(after.errors == before.errors + added);
        }
    }
}

/// The errors of the checks lie within the tokens that the rules and
/// the lets lie within.
proof fn lemma_checks_within(
    rules: Seq<RuleView>,
    evaluated: Bindings,
    count: int,
    lets: Seq<(TokenRange, RuleIndex)>,
    inits: Seq<RuleIndex>,
    n: int,
)
    requires
        rules_within(rules, n),
        lets_within(lets, n),
        count <= rules.len(),
        forall|k: int| 0 <= k < inits.len() ==> (#[trigger] inits[k]) < rules.len(),
    ensures
        views_within(spec_default_errors(rules, evaluated, count), n),
        views_within(spec_let_errors(lets, evaluated), n),
        views_within(spec_init_errors(inits, rules, evaluated), n),
        views_within(spec_multiple_errors(inits, rules), n),
    decreases (if count < 0 { 0 } else { count }) + lets.len() + inits.len(),
{
    if count > 0 {
        lemma_checks_within(rules, evaluated, count - 1, Seq::empty(), Seq::empty(), n);
        assert(rule_within(rules[count - 1], n));
    }
    if lets.len() > 0 {
        assert forall|k: int| 0 <= k < lets.drop_last().len() implies range_within(
            (#[trigger] lets.drop_last()[k]).0,
            n,
        ) by {
            assert(range_within(lets[k].0, n));
        }
        lemma_checks_within(rules, evaluated, 0, lets.drop_last(), Seq::empty(), n);
        assert(range_within(lets[lets.len() - 1].0, n));
    }
    if inits.len() > 0 {
        assert forall|k: int| 0 <= k < inits.drop_last().len() implies (
        #[trigger] inits.drop_last()[k]) < rules.len() by {
            assert(inits[k] < rules.len());
        }
        lemma_checks_within(rules, evaluated, 0, Seq::empty(), inits.drop_last(), n);
        assert(inits[inits.len() - 1] < rules.len());
        assert(rule_within(rules[inits.last() as int], n));
    }
}

/// The errors of value analysis lie within the tokens that the globals
/// lie within.
pub proof fn lemma_result_within(globals: Seq<Global>, module: Seq<Seq<char>>, m: Machine, n: int)
    requires
        globals_within(globals, n),
        fits(spec_collect(globals, module).rules),
        evaluates_to(
            spec_collect(globals, module).rules,
            spec_collect(globals, module).table,
            module,
            m,
        ),
    ensures
        views_within(spec_result(spec_collect(globals, module), m).errors, n),
{
    lemma_collected_wf(globals, module);
    let c = spec_collect(globals, module);
    let steps = choose|steps: nat| spec_run(c.rules, c.table, module, spec_start(c.rules), steps) == m;
    lemma_collect_within(globals, module, n);
    lemma_run_within(c.rules, c.table, module, steps, n);
    lemma_checks_within(c.rules, m.evaluated, c.rules.len() as int, c.lets, c.inits, n);
}

/// Whether `new` holds what `old` holds, unchanged, and more.
pub open spec fn collected_extends(old: Collected, new: Collected) -> bool {
    &&& extends(old.rules, new.rules)
    &&& old.lets.len() <= new.lets.len()
    &&& new.lets.take(old.lets.len() as int) == old.lets
    &&& old.inits.len() <= new.inits.len()
    &&& new.inits.take(old.inits.len() as int) == old.inits
}

/// What is collected from the first globals stays as it is when the
/// rest is collected.
proof fn lemma_collect_extends(globals: Seq<Global>, module: Seq<Seq<char>>, k: int)
    requires
        0 <= k <= globals.len(),
    ensures
        collected_extends(spec_collect(globals.take(k), module), spec_collect(globals, module)),
    decreases globals.len(),
{
    let whole = spec_collect(globals, module);
    if k == globals.len() {
        assert(globals.take(k) =~= globals);
        lemma_extends_rule(whole.rules, arbitrary());
        assert(whole.lets.take(whole.lets.len() as int) =~= whole.lets);
        assert(whole.inits.take(whole.inits.len() as int) =~= whole.inits);
    } else {
        lemma_collect_extends(globals.drop_last(), module, k);
        assert(globals.drop_last().take(k) =~= globals.take(k));
        let first = spec_collect(globals.take(k), module);
        let before = spec_collect(globals.drop_last(), module);
        let expr = match globals.last() {
            Global::Def(d) => d.expr,
            Global::Let(l) => l.expr,
            Global::Init(e) => Some(e),
            _ => None,
        };
        match expr {
            Some(e) => {
                lemma_expr_extends(e, before.rules);
                lemma_extends_trans(first.rules, before.rules, whole.rules);
            },
            None => {},
        }
        assert(whole.lets.take(first.lets.len() as int) =~= before.lets.take(
            first.lets.len() as int,
        ));
        assert(whole.inits.take(first.inits.len() as int) =~= before.inits.take(
            first.inits.len() as int,
        ));
    }
}

/// The errors for the first lets are among the errors for all lets.
proof fn lemma_let_errors_grow(
    lets: Seq<(TokenRange, RuleIndex)>,
    evaluated: Bindings,
    j: int,
    error: ErrorView,
)
    requires
        0 <= j <= lets.len(),
        spec_let_errors(lets.take(j), evaluated).contains(error),
    ensures
        spec_let_errors(lets, evaluated).contains(error),
    decreases lets.len(),
{
    if j == lets.len() {
        assert(lets.take(j) =~= lets);
    } else {
        assert(lets.drop_last().take(j) =~= lets.take(j));
        lemma_let_errors_grow(lets.drop_last(), evaluated, j, error);
        let before = spec_let_errors(lets.drop_last(), evaluated);
        let all = spec_let_errors(lets, evaluated);
        let i = choose|i: int| 0 <= i < before.len() && before[i] == error;
        assert(all[i] == error);
    }
}

/// The errors for the first initializers are among the errors for all
/// initializers.
proof fn lemma_init_errors_grow(
    inits: Seq<RuleIndex>,
    rules: Seq<RuleView>,
    evaluated: Bindings,
    j: int,
    error: ErrorView,
)
    requires
        0 <= j <= inits.len(),
        spec_init_errors(inits.take(j), rules, evaluated).contains(error),
    ensures
        spec_init_errors(inits, rules, evaluated).contains(error),
    decreases inits.len(),
{
    if j == inits.len() {
        assert(inits.take(j) =~= inits);
    } else {
        assert(inits.drop_last().take(j) =~= inits.take(j));
        lemma_init_errors_grow(inits.drop_last(), rules, evaluated, j, error);
        let before = spec_init_errors(inits.drop_last(), rules, evaluated);
        let all = spec_init_errors(inits, rules, evaluated);
        let i = choose|i: int| 0 <= i < before.len() && before[i] == error;
        assert(all[i] == error);
    }
}

/// In what is collected from globals no index dangles.
pub proof fn lemma_collected_wf(globals: Seq<Global>, module: Seq<Seq<char>>)
    requires
        fits(spec_collect(globals, module).rules),
    ensures
        collected_wf(spec_collect(globals, module)),
    decreases globals.len(),
{
    if globals.len() > 0 {
        let before = spec_collect(globals.drop_last(), module);
        let whole = spec_collect(globals, module);
        let expr = match globals.last() {
            Global::Def(d) => d.expr,
            Global::Let(l) => l.expr,
            Global::Init(e) => Some(e),
            _ => None,
        };
        match expr {
            Some(e) => {
                lemma_expr_extends(e, before.rules);
                lemma_collected_wf(globals.drop_last(), module);
                lemma_expr_wf(e, before.rules);
                lemma_table_grows(before.table, before.rules.len() as int, whole.rules.len() as int);
                let name = match globals.last() {
                    Global::Def(d) => d.name,
                    Global::Let(l) => l.name,
                    _ => None,
                };
                match name {
                    Some(ident) => {
                        lemma_put_wf(
                            before.table,
                            module.push(ident.name@),
                            value_analysis::last_index(whole.rules),
                            whole.rules.len() as int,
                        );
                    },
                    None => {},
                }
                assert forall|k: int| 0 <= k < whole.inits.len() implies (
                #[trigger] whole.inits[k]) < whole.rules.len() by {
                    if k < before.inits.len() {
                        assert(before.inits[k] < before.rules.len());
                    }
                }
                assert forall|k: int| 0 <= k < whole.lets.len() implies (
                #[trigger] whole.lets[k]).1 < whole.rules.len() by {
                    if k < before.lets.len() {
                        assert(before.lets[k].1 < before.rules.len());
                    }
                }
            },
            None => {
                lemma_collected_wf(globals.drop_last(), module);
            },
        }
    }
}

/// A union is no value: a let whose expression is a union is reported as
/// not fully initialized, at the let.
pub proof fn lemma_union_let_is_reported(
    globals: Seq<Global>,
    module: Seq<Seq<char>>,
    m: Machine,
    k: int,
)
    requires
        fits(spec_collect(globals, module).rules),
        evaluates_to(
            spec_collect(globals, module).rules,
            spec_collect(globals, module).table,
            module,
            m,
        ),
        0 <= k < globals.len(),
        globals[k] is Let,
        globals[k]->Let_0.expr is Some,
        globals[k]->Let_0.expr->Some_0 is Union,
    ensures
        spec_result(spec_collect(globals, module), m).errors.contains(
            ErrorView {
                message: ErrorMessageView::UninitializedLet,
                range: globals[k]->Let_0.info.range,
            },
        ),
{
    lemma_collected_wf(globals, module);
    let c = spec_collect(globals, module);
    let l = globals[k]->Let_0;
    let error = ErrorView { message: ErrorMessageView::UninitializedLet, range: l.info.range };
    let before = spec_collect(globals.take(k), module);
    let with = spec_collect(globals.take(k + 1), module);
    assert(globals.take(k + 1).drop_last() =~= globals.take(k));
    assert(globals.take(k + 1).last() == globals[k]);
    lemma_collect_extends(globals, module, k + 1);
    let j = before.lets.len() as int;
    let index = with.lets[j].1;
    lemma_expr_extends(l.expr->Some_0, before.rules);
    assert(with.rules[index as int].description is Union);
    assert(c.rules[index as int] == c.rules.take(with.rules.len() as int)[index as int]);
    assert(c.lets[j] == c.lets.take(with.lets.len() as int)[j]);
    lemma_union_is_reported_once(c.rules, c.table, module, m, c.lets, c.inits, index);
    let reported = spec_let_errors(c.lets.take(j + 1), m.evaluated);
    assert(reported.last() == error);
    assert(reported[reported.len() - 1] == error);
    lemma_let_errors_grow(c.lets, m.evaluated, j + 1, error);
    let lets = spec_let_errors(c.lets, m.evaluated);
    let i = choose|i: int| 0 <= i < lets.len() && lets[i] == error;
    let defaults = spec_default_errors(c.rules, m.evaluated, c.rules.len() as int);
    let all = spec_result(c, m).errors;
    assert(all[m.errors.len() + defaults.len() + i] == error);
}

/// A union is no value: an initializer that is a union is reported as
/// not fully initialized, at the union.
pub proof fn lemma_union_init_is_reported(
    globals: Seq<Global>,
    module: Seq<Seq<char>>,
    m: Machine,
    k: int,
)
    requires
        fits(spec_collect(globals, module).rules),
        evaluates_to(
            spec_collect(globals, module).rules,
            spec_collect(globals, module).table,
            module,
            m,
        ),
        0 <= k < globals.len(),
        globals[k] is Init,
        globals[k]->Init_0 is Union,
    ensures
        spec_result(spec_collect(globals, module), m).errors.contains(
            ErrorView {
                message: ErrorMessageView::UninitializedInit,
                range: globals[k]->Init_0->Union_0.info.range,
            },
        ),
{
    lemma_collected_wf(globals, module);
    let c = spec_collect(globals, module);
    let init = globals[k]->Init_0;
    let error = ErrorView {
        message: ErrorMessageView::UninitializedInit,
        range: init->Union_0.info.range,
    };
    let before = spec_collect(globals.take(k), module);
    let with = spec_collect(globals.take(k + 1), module);
    assert(globals.take(k + 1).drop_last() =~= globals.take(k));
    assert(globals.take(k + 1).last() == globals[k]);
    lemma_collect_extends(globals, module, k + 1);
    let j = before.inits.len() as int;
    let index = with.inits[j];
    lemma_expr_extends(init, before.rules);
    assert(with.rules[index as int].description is Union);
    assert(with.rules[index as int].range == init->Union_0.info.range);
    assert(c.rules[index as int] == c.rules.take(with.rules.len() as int)[index as int]);
    assert(c.inits[j] == c.inits.take(with.inits.len() as int)[j]);
    lemma_union_is_reported_once(c.rules, c.table, module, m, c.lets, c.inits, index);
    let reported = spec_init_errors(c.inits.take(j + 1), c.rules, m.evaluated);
    assert(reported[reported.len() - 1] == error);
    lemma_init_errors_grow(c.inits, c.rules, m.evaluated, j + 1, error);
    let inits = spec_init_errors(c.inits, c.rules, m.evaluated);
    let i = choose|i: int| 0 <= i < inits.len() && inits[i] == error;
    let front = m.errors + spec_default_errors(c.rules, m.evaluated, c.rules.len() as int)
        + spec_let_errors(c.lets, m.evaluated) + spec_multiple_errors(c.inits, c.rules);
    let all = spec_result(c, m).errors;
    assert(all[front.len() + i] == error);
}

} // verus!
