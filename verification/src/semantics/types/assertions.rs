//! Checking the assertions of the type graph: whether an actual rule is
//! compatible with an expected one.

use crate::ast::{Literal, Primitive};
use crate::semantics::error::{errors_model, Error, ErrorMessage, ErrorMessageView, ErrorView};
use crate::ast::bounds::range_within;
use crate::semantics::error::views_within;
use crate::semantics::types::{
    names_within, rule_within, rules_model, rules_within, state_within, BuiltInType, FieldRule,
    Rule, RuleIndex, RuleView, TypeDescription, TypeInfo, TypeView, TypesModel,
};
use crate::table::{holds, lookup, Table};
use crate::token::TokenRange;
use crate::token::ToTokenRange;
use vstd::prelude::*;
use vstd::string::*;

verus! {

/// The description that a rule comes to once the rules that only stand
/// for another rule are followed. A chain that is followed for `fuel`
/// steps without an end goes in circles and is unknown.
pub open spec fn spec_extract(rules: Seq<RuleView>, description: TypeView, fuel: nat) -> TypeView
    decreases fuel,
{
    match description {
        TypeView::ValidIdent(index) | TypeView::Rule(index) => if fuel == 0 || index
            >= rules.len() {
            TypeView::Unknown
        } else {
            spec_extract(rules, rules[index as int].description, (fuel - 1) as nat)
        },
        TypeView::Ident(_, _, _) => TypeView::Unknown,
        _ => description,
    }
}

/// Whether a literal is of a built-in type.
pub open spec fn spec_literal_matches(built_in: BuiltInType, literal: Literal) -> bool {
    match (built_in, literal) {
        (BuiltInType::String, Literal::String(_)) => true,
        (BuiltInType::Number, Literal::Number(_)) => true,
        (BuiltInType::Bool, Literal::Bool(_)) => true,
        _ => false,
    }
}

/// One error.
pub open spec fn one(message: ErrorMessageView, range: TokenRange) -> Seq<ErrorView> {
    seq![ErrorView { message, range }]
}

/// The errors of checking the rule `actual` against the rule `expected`.
///
/// Both rules are taken by what they come to. An expected union is met
/// by an actual union each of whose members meets a member of it, and
/// by any other rule that meets a member. An unknown expected type is an
/// error. A built-in type is met by a literal of its kind and by itself.
/// Structs and lists are compared part by part, literals by what they
/// are. Every other pair is a mismatch. A comparison that is still
/// going on after `fuel` steps goes in circles and is taken to hold.
pub open spec fn spec_check(
    rules: Seq<RuleView>,
    expected: RuleIndex,
    actual: RuleIndex,
    fuel: nat,
) -> Seq<ErrorView>
    decreases fuel, 0nat,
{
    if fuel == 0 || expected >= rules.len() || actual >= rules.len() {
        Seq::empty()
    } else {
        let expected_rule = rules[expected as int];
        let actual_rule = rules[actual as int];
        let less = (fuel - 1) as nat;
        match (
            spec_extract(rules, expected_rule.description, rules.len()),
            spec_extract(rules, actual_rule.description, rules.len()),
        ) {
            (TypeView::Union(e), TypeView::Union(a)) => spec_check_union(rules, e, a, less),
            (TypeView::Union(e), _) => spec_check_in_union(rules, e, actual, less),
            (TypeView::Unknown, _) => one(ErrorMessageView::UnknownType, expected_rule.range),
            (TypeView::BuiltIn(e), TypeView::Primitive(a)) => if spec_literal_matches(
                e,
                a.literal,
            ) {
                Seq::empty()
            } else {
                one(ErrorMessageView::ValueMismatch(e.spec_str(), a.literal.text()), a.range)
            },
            (TypeView::BuiltIn(e), TypeView::BuiltIn(a)) => if e == a {
                Seq::empty()
            } else {
                one(ErrorMessageView::TypeMismatch, actual_rule.range)
            },
            (TypeView::Struct(e), TypeView::Struct(a)) => spec_check_struct(
                rules,
                e,
                actual_rule.range,
                a,
                less,
            ),
            (TypeView::List(e), TypeView::List(a)) => spec_check_list(rules, e, a, less),
            (TypeView::Primitive(e), TypeView::Primitive(a)) => if e.literal == a.literal {
                Seq::empty()
            } else {
                one(
                    ErrorMessageView::ValueMismatch(e.literal.text(), a.literal.text()),
                    a.range,
                )
            },
            _ => one(ErrorMessageView::TypeMismatch, actual_rule.range),
        }
    }
}

/// Whether the actual rule meets one of the expected rules.
pub open spec fn spec_any_match(
    rules: Seq<RuleView>,
    expected: Seq<RuleIndex>,
    actual: RuleIndex,
    fuel: nat,
) -> bool
    decreases fuel, 1 + expected.len(),
{
    expected.len() > 0 && (spec_any_match(rules, expected.drop_last(), actual, fuel) || spec_check(
        rules,
        expected.last(),
        actual,
        fuel,
    ).len() == 0)
}

/// A mismatch for each actual rule that meets none of the expected ones.
pub open spec fn spec_check_union(
    rules: Seq<RuleView>,
    expected: Seq<RuleIndex>,
    actual: Seq<RuleIndex>,
    fuel: nat,
) -> Seq<ErrorView>
    decreases fuel, 2 + expected.len() + actual.len(),
{
    if actual.len() == 0 {
        Seq::empty()
    } else {
        let before = spec_check_union(rules, expected, actual.drop_last(), fuel);
        if spec_any_match(rules, expected, actual.last(), fuel) || actual.last() >= rules.len() {
            before
        } else {
            before.push(
                ErrorView {
                    message: ErrorMessageView::TypeMismatch,
                    range: rules[actual.last() as int].range,
                },
            )
        }
    }
}

/// A mismatch if the actual rule meets none of the expected ones.
pub open spec fn spec_check_in_union(
    rules: Seq<RuleView>,
    expected: Seq<RuleIndex>,
    actual: RuleIndex,
    fuel: nat,
) -> Seq<ErrorView>
    decreases fuel, 2 + expected.len(),
{
    if spec_any_match(rules, expected, actual, fuel) || actual >= rules.len() {
        Seq::empty()
    } else {
        one(ErrorMessageView::TypeMismatch, rules[actual as int].range)
    }
}

/// The errors of the expected fields: those of each field that the
/// actual struct has, and a missing field for each one that it lacks
/// and that has no default.
pub open spec fn spec_check_expected_fields(
    rules: Seq<RuleView>,
    expected: Seq<(Seq<char>, FieldRule)>,
    actual_range: TokenRange,
    actual: Seq<(Seq<char>, FieldRule)>,
    fuel: nat,
) -> Seq<ErrorView>
    decreases fuel, 1 + expected.len(),
{
    if expected.len() == 0 {
        Seq::empty()
    } else {
        let before = spec_check_expected_fields(
            rules,
            expected.drop_last(),
            actual_range,
            actual,
            fuel,
        );
        let (name, field) = expected.last();
        if holds(actual, name) {
            before + spec_check(rules, field.rule, lookup(actual, name)->Some_0.rule, fuel)
        } else if !field.has_default {
            before.push(
                ErrorView { message: ErrorMessageView::MissingField(name), range: actual_range },
            )
        } else {
            before
        }
    }
}

/// An unexpected field for each actual field that is not expected.
pub open spec fn spec_check_actual_fields(
    expected: Seq<(Seq<char>, FieldRule)>,
    actual: Seq<(Seq<char>, FieldRule)>,
) -> Seq<ErrorView>
    decreases actual.len(),
{
    if actual.len() == 0 {
        Seq::empty()
    } else {
        let before = spec_check_actual_fields(expected, actual.drop_last());
        let (name, field) = actual.last();
        if holds(expected, name) {
            before
        } else {
            before.push(
                ErrorView {
                    message: ErrorMessageView::UnexpectedField(name),
                    range: field.name_range,
                },
            )
        }
    }
}

/// The errors of an actual struct against an expected one.
pub open spec fn spec_check_struct(
    rules: Seq<RuleView>,
    expected: Seq<(Seq<char>, FieldRule)>,
    actual_range: TokenRange,
    actual: Seq<(Seq<char>, FieldRule)>,
    fuel: nat,
) -> Seq<ErrorView>
    decreases fuel, 2 + expected.len(),
{
    spec_check_expected_fields(rules, expected, actual_range, actual, fuel)
        + spec_check_actual_fields(expected, actual)
}

/// One error of a kind at each of the rules.
pub open spec fn spec_each(rules: Seq<RuleView>, indices: Seq<RuleIndex>, message: ErrorMessageView) -> Seq<
    ErrorView,
>
    decreases indices.len(),
{
    if indices.len() == 0 {
        Seq::empty()
    } else {
        let before = spec_each(rules, indices.drop_last(), message);
        if indices.last() < rules.len() {
            before.push(ErrorView { message, range: rules[indices.last() as int].range })
        } else {
            before
        }
    }
}

/// The errors of each of the actual rules against one expected rule.
pub open spec fn spec_check_items(
    rules: Seq<RuleView>,
    expected: RuleIndex,
    actual: Seq<RuleIndex>,
    fuel: nat,
) -> Seq<ErrorView>
    decreases fuel, 1 + actual.len(),
{
    if actual.len() == 0 {
        Seq::empty()
    } else {
        spec_check_items(rules, expected, actual.drop_last(), fuel) + spec_check(
            rules,
            expected,
            actual.last(),
            fuel,
        )
    }
}

/// The errors of an actual list against an expected one. A list type
/// without an item type admits no items; one with one item type admits
/// items of that type; one with more is an error at each further type.
pub open spec fn spec_check_list(
    rules: Seq<RuleView>,
    expected: Seq<RuleIndex>,
    actual: Seq<RuleIndex>,
    fuel: nat,
) -> Seq<ErrorView>
    decreases fuel, 2 + actual.len(),
{
    if expected.len() == 0 {
        spec_each(rules, actual, ErrorMessageView::UnexpectedListElement)
    } else if expected.len() == 1 {
        spec_check_items(rules, expected[0], actual, fuel)
    } else {
        spec_each(
            rules,
            expected.subrange(1, expected.len() as int),
            ErrorMessageView::MultipleListTypes,
        )
    }
}

/// The steps after which a comparison is taken to go in circles: more
/// than there are pairs of rules.
pub open spec fn spec_fuel(rules: Seq<RuleView>) -> nat {
    rules.len() * rules.len() + 1
}

/// The errors of the first `n` assertions.
pub open spec fn spec_check_assertions(st: TypesModel, n: int) -> Seq<ErrorView>
    decreases n,
{
    if n <= 0 {
        Seq::empty()
    } else {
        spec_check_assertions(st, n - 1) + spec_check(
            st.rules,
            st.assertions[n - 1].0,
            st.assertions[n - 1].1,
            spec_fuel(st.rules),
        )
    }
}

/// The state after every assertion was checked: the errors found are
/// added to those that were there.
pub open spec fn spec_checked(st: TypesModel) -> TypesModel {
    TypesModel {
        errors: st.errors + spec_check_assertions(st, st.assertions.len() as int),
        ..st
    }
}

/// Whether every rule refers to rules that exist.
pub open spec fn rules_wf(rules: Seq<RuleView>) -> bool {
    forall|i: int|
        0 <= i < rules.len() ==> (#[trigger] rules[i]).description.below(rules.len() as int)
}

/// Checks every assertion and adds the errors found.
pub fn check(type_info: &mut TypeInfo)
    requires
        old(type_info)@.wf(),
    ensures
        final(type_info)@ == spec_checked(old(type_info)@),
{
    let n = type_info.rules.len();
    assert((n as u128) * (n as u128) + 1 <= u128::MAX) by (nonlinear_arith)
        requires
            n <= usize::MAX,
            usize::MAX <= 0xffff_ffff_ffff_ffff,
            u128::MAX == 0xffff_ffff_ffff_ffff_ffff_ffff_ffff_ffff,
    ;
    let fuel: u128 = (n as u128) * (n as u128) + 1;
    let ghost st = type_info@;
    let mut i: usize = 0;
    proof {
        assert(st.errors + Seq::<ErrorView>::empty() =~= st.errors);
        assert(fuel == spec_fuel(st.rules)) by (nonlinear_arith)
            requires
                fuel == (n as u128) * (n as u128) + 1,
                n == st.rules.len(),
        ;
    }
    while i < type_info.assertions.len()
        invariant
            i <= type_info.assertions@.len(),
            st.wf(),
            type_info@.rules == st.rules,
            type_info@.assertions == st.assertions,
            type_info@.errors == st.errors + spec_check_assertions(st, i as int),
            fuel == spec_fuel(st.rules),
        decreases type_info.assertions@.len() - i,
    {
        let (expected_index, actual_index) = type_info.assertions[i];
        assert(st.assertions[i as int].0 < st.rules.len());
        let ghost before = type_info@.errors;
        let mut errors = check_rules(&type_info.rules, expected_index, actual_index, fuel);
        let ghost added = errors_model(errors@);
        type_info.errors.append(&mut errors);
        assert(type_info@.errors =~= before + added);
        assert(before + added =~= st.errors + (spec_check_assertions(st, i as int) + added));
        i += 1;
    }
}

/// What a rule comes to once the rules that only stand for another rule
/// are followed.
fn extract_type_description<'a>(rules: &'a Vec<Rule>, index: RuleIndex) -> (r: &'a TypeDescription)
    requires
        rules_wf(rules_model(rules@)),
        index < rules@.len(),
    ensures
        extracted(r@) == spec_extract(
            rules_model(rules@),
            rules_model(rules@)[index as int].description,
            rules@.len() as nat,
        ),
        r@.below(rules@.len() as int),
{
    let mut current = index;
    let mut fuel = rules.len();
    let ghost rm = rules_model(rules@);
    loop
        invariant
            rm == rules_model(rules@),
            rules_wf(rm),
            current < rules@.len(),
            fuel <= rules@.len(),
            spec_extract(rm, rm[current as int].description, fuel as nat) == spec_extract(
                rm,
                rm[index as int].description,
                rules@.len() as nat,
            ),
        decreases fuel,
    {
        let rule = &rules[current];
        assert(rule@ == rm[current as int]);
        assert(rm[current as int].description.below(rm.len() as int));
        match &rule.type_description {
            TypeDescription::ValidIdent(next) | TypeDescription::Rule(next) => {
                if fuel == 0 {
                    return &UNKNOWN;
                }
                current = *next;
                fuel = fuel - 1;
            },
            _ => {
                return &rule.type_description;
            },
        }
    }
}

/// What stands for a chain of rules that goes in circles.
pub const UNKNOWN: TypeDescription = TypeDescription::Unknown;

/// What a description counts as in a comparison: a name that was not
/// validated is unknown.
pub open spec fn extracted(description: TypeView) -> TypeView {
    match description {
        TypeView::Ident(_, _, _) => TypeView::Unknown,
        TypeView::ValidIdent(_) | TypeView::Rule(_) => TypeView::Unknown,
        _ => description,
    }
}

/// A list with one error.
fn single_error(message: ErrorMessage, range: TokenRange) -> (r: Vec<Error>)
    ensures
        errors_model(r@) == one(message@, range),
{
    let mut errors: Vec<Error> = Vec::new();
    let error = Error::new(message, range);
    errors.push(error);
    assert(errors_model(errors@) =~= one(message@, range));
    errors
}

/// No error.
fn no_error() -> (r: Vec<Error>)
    ensures
        errors_model(r@) == Seq::<ErrorView>::empty(),
{
    let errors: Vec<Error> = Vec::new();
    assert(errors_model(errors@) =~= Seq::<ErrorView>::empty());
    errors
}

/// Checks an actual rule against an expected one.
fn check_rules(rules: &Vec<Rule>, expected: RuleIndex, actual: RuleIndex, fuel: u128) -> (r: Vec<
    Error,
>)
    requires
        rules_wf(rules_model(rules@)),
        expected < rules@.len(),
        actual < rules@.len(),
    ensures
        errors_model(r@) == spec_check(rules_model(rules@), expected, actual, fuel as nat),
    decreases fuel, 0nat,
{
    if fuel == 0 {
        return no_error();
    }
    let less = fuel - 1;
    let expected_rule = &rules[expected];
    let actual_rule = &rules[actual];
    let ghost rm = rules_model(rules@);
    assert(expected_rule@ == rm[expected as int]);
    assert(actual_rule@ == rm[actual as int]);
    let expected_description = extract_type_description(rules, expected);
    let actual_description = extract_type_description(rules, actual);
    assert(expected_description@.below(rules@.len() as int));
    assert(actual_description@.below(rules@.len() as int));
    match expected_description {
        TypeDescription::Union(e) => {
            assert(expected_description@ == TypeView::Union(e@));
            assert(forall|k: int| 0 <= k < e@.len() ==> (#[trigger] e@[k]) < rules@.len());
            match actual_description {
                TypeDescription::Union(a) => {
                    assert(actual_description@ == TypeView::Union(a@));
                    assert(forall|k: int| 0 <= k < a@.len() ==> (#[trigger] a@[k]) < rules@.len());
                    check_union(rules, e, a, less)
                },
                _ => check_in_union(rules, e, actual, less),
            }
        },
        TypeDescription::Unknown
        | TypeDescription::Ident(_, _)
        | TypeDescription::ValidIdent(_)
        | TypeDescription::Rule(_) => single_error(
            ErrorMessage::UnknownType,
            expected_rule.info.to_token_range(),
        ),
        TypeDescription::BuiltIn(e) => match actual_description {
            TypeDescription::Primitive(a) => check_value(e, a),
            TypeDescription::BuiltIn(a) => check_built_in(e, a, actual_rule.info.to_token_range()),
            _ => single_error(ErrorMessage::TypeMismatch, actual_rule.info.to_token_range()),
        },
        TypeDescription::Struct(e) => match actual_description {
            TypeDescription::Struct(a) => {
                assert(expected_description@ == TypeView::Struct(e.model()));
                assert(actual_description@ == TypeView::Struct(a.model()));
                assert(forall|k: int|
                    0 <= k < e.model().len() ==> (#[trigger] e.model()[k]).1.rule < rules@.len());
                assert(forall|k: int|
                    0 <= k < a.model().len() ==> (#[trigger] a.model()[k]).1.rule < rules@.len());
                check_struct(rules, e, actual_rule, a, less)
            },
            _ => single_error(ErrorMessage::TypeMismatch, actual_rule.info.to_token_range()),
        },
        TypeDescription::List(e) => match actual_description {
            TypeDescription::List(a) => {
                assert(expected_description@ == TypeView::List(e@));
                assert(actual_description@ == TypeView::List(a@));
                assert(forall|k: int| 0 <= k < e@.len() ==> (#[trigger] e@[k]) < rules@.len());
                assert(forall|k: int| 0 <= k < a@.len() ==> (#[trigger] a@[k]) < rules@.len());
                check_list(rules, e, a, less)
            },
            _ => single_error(ErrorMessage::TypeMismatch, actual_rule.info.to_token_range()),
        },
        TypeDescription::Primitive(e) => match actual_description {
            TypeDescription::Primitive(a) => check_primitive(e, a),
            _ => single_error(ErrorMessage::TypeMismatch, actual_rule.info.to_token_range()),
        },
    }
}

/// Whether the actual rule meets one of the expected rules.
fn any_match(rules: &Vec<Rule>, expected: &Vec<RuleIndex>, actual: RuleIndex, fuel: u128) -> (r:
    bool)
    requires
        rules_wf(rules_model(rules@)),
        actual < rules@.len(),
        forall|k: int| 0 <= k < expected@.len() ==> (#[trigger] expected@[k]) < rules@.len(),
    ensures
        r == spec_any_match(rules_model(rules@), expected@, actual, fuel as nat),
    decreases fuel, 1 + expected@.len(),
{
    let ghost rm = rules_model(rules@);
    let mut i: usize = 0;
    proof {
        assert(expected@.take(0) =~= Seq::empty());
    }
    while i < expected.len()
        invariant
            i <= expected@.len(),
            rm == rules_model(rules@),
            rules_wf(rm),
            actual < rules@.len(),
            forall|k: int| 0 <= k < expected@.len() ==> (#[trigger] expected@[k]) < rules@.len(),
            !spec_any_match(rm, expected@.take(i as int), actual, fuel as nat),
        decreases expected@.len() - i,
    {
        proof {
            assert(expected@.take(i + 1).drop_last() =~= expected@.take(i as int));
            assert(expected@.take(i + 1).last() == expected@[i as int]);
        }
        if check_rules(rules, expected[i], actual, fuel).len() == 0 {
            proof {
                lemma_any_match_grows(rm, expected@, actual, fuel as nat, i + 1);
            }
            return true;
        }
        i += 1;
    }
    proof {
        assert(expected@.take(i as int) =~= expected@);
    }
    false
}

/// A rule that meets one of the first expected rules meets one of all.
proof fn lemma_any_match_grows(
    rules: Seq<RuleView>,
    expected: Seq<RuleIndex>,
    actual: RuleIndex,
    fuel: nat,
    n: int,
)
    requires
        0 <= n <= expected.len(),
        spec_any_match(rules, expected.take(n), actual, fuel),
    ensures
        spec_any_match(rules, expected, actual, fuel),
    decreases expected.len() - n,
{
    if n < expected.len() {
        assert(expected.take(n + 1).drop_last() =~= expected.take(n));
        lemma_any_match_grows(rules, expected, actual, fuel, n + 1);
    } else {
        assert(expected.take(n) =~= expected);
    }
}

fn check_union(rules: &Vec<Rule>, expected: &Vec<RuleIndex>, actual: &Vec<RuleIndex>, fuel: u128) -> (r:
    Vec<Error>)
    requires
        rules_wf(rules_model(rules@)),
        forall|k: int| 0 <= k < expected@.len() ==> (#[trigger] expected@[k]) < rules@.len(),
        forall|k: int| 0 <= k < actual@.len() ==> (#[trigger] actual@[k]) < rules@.len(),
    ensures
        errors_model(r@) == spec_check_union(rules_model(rules@), expected@, actual@, fuel as nat),
    decreases fuel, 2 + expected@.len() + actual@.len(),
{
    let ghost rm = rules_model(rules@);
    let mut errors: Vec<Error> = Vec::new();
    let mut i: usize = 0;
    proof {
        assert(actual@.take(0) =~= Seq::empty());
        assert(errors_model(errors@) =~= Seq::empty());
    }
    while i < actual.len()
        invariant
            i <= actual@.len(),
            rm == rules_model(rules@),
            rules_wf(rm),
            forall|k: int| 0 <= k < expected@.len() ==> (#[trigger] expected@[k]) < rules@.len(),
            forall|k: int| 0 <= k < actual@.len() ==> (#[trigger] actual@[k]) < rules@.len(),
            errors_model(errors@) == spec_check_union(
                rm,
                expected@,
                actual@.take(i as int),
                fuel as nat,
            ),
        decreases actual@.len() - i,
    {
        proof {
            assert(actual@.take(i + 1).drop_last() =~= actual@.take(i as int));
            assert(actual@.take(i + 1).last() == actual@[i as int]);
        }
        let ghost before = errors_model(errors@);
        if !any_match(rules, expected, actual[i], fuel) {
            let error = Error::new(
                ErrorMessage::TypeMismatch,
                rules[actual[i]].info.to_token_range(),
            );
            errors.push(error);
            assert(errors_model(errors@) =~= before.push(error@));
        }
        i += 1;
    }
    proof {
        assert(actual@.take(i as int) =~= actual@);
    }
    errors
}

fn check_in_union(rules: &Vec<Rule>, expected: &Vec<RuleIndex>, actual: RuleIndex, fuel: u128) -> (r:
    Vec<Error>)
    requires
        rules_wf(rules_model(rules@)),
        actual < rules@.len(),
        forall|k: int| 0 <= k < expected@.len() ==> (#[trigger] expected@[k]) < rules@.len(),
    ensures
        errors_model(r@) == spec_check_in_union(
            rules_model(rules@),
            expected@,
            actual,
            fuel as nat,
        ),
    decreases fuel, 2 + expected@.len(),
{
    if any_match(rules, expected, actual, fuel) {
        no_error()
    } else {
        single_error(ErrorMessage::TypeMismatch, rules[actual].info.to_token_range())
    }
}

fn check_struct(
    rules: &Vec<Rule>,
    expected: &Table<String, FieldRule>,
    actual_rule: &Rule,
    actual: &Table<String, FieldRule>,
    fuel: u128,
) -> (r: Vec<Error>)
    requires
        rules_wf(rules_model(rules@)),
        forall|k: int|
            0 <= k < expected.model().len() ==> (#[trigger] expected.model()[k]).1.rule
                < rules@.len(),
        forall|k: int|
            0 <= k < actual.model().len() ==> (#[trigger] actual.model()[k]).1.rule < rules@.len(),
    ensures
        errors_model(r@) == spec_check_struct(
            rules_model(rules@),
            expected.model(),
            actual_rule.info.range,
            actual.model(),
            fuel as nat,
        ),
    decreases fuel, 2 + expected.model().len(),
{
    let ghost rm = rules_model(rules@);
    let ghost em = expected.model();
    let ghost am = actual.model();
    let mut errors: Vec<Error> = Vec::new();
    let mut i: usize = 0;
    proof {
        assert(em.take(0) =~= Seq::empty());
        assert(errors_model(errors@) =~= Seq::empty());
    }
    while i < expected.entries.len()
        invariant
            i <= expected.entries@.len(),
            rm == rules_model(rules@),
            em == expected.model(),
            am == actual.model(),
            rules_wf(rm),
            forall|k: int| 0 <= k < em.len() ==> (#[trigger] em[k]).1.rule < rules@.len(),
            forall|k: int| 0 <= k < am.len() ==> (#[trigger] am[k]).1.rule < rules@.len(),
            errors_model(errors@) == spec_check_expected_fields(
                rm,
                em.take(i as int),
                actual_rule.info.range,
                am,
                fuel as nat,
            ),
        decreases expected.entries@.len() - i,
    {
        proof {
            assert(em.take(i + 1).drop_last() =~= em.take(i as int));
            assert(em.take(i + 1).last() == em[i as int]);
        }
        let ghost before = errors_model(errors@);
        let entry = &expected.entries[i];
        assert(em[i as int] == (entry.0@, entry.1));
        match actual.position(&entry.0) {
            Some(j) => {
                assert(am[j as int].1 == actual.entries@[j as int].1);
                let mut new = check_rules(rules, entry.1.rule, actual.entries[j].1.rule, fuel);
                let ghost added = errors_model(new@);
                errors.append(&mut new);
                assert(errors_model(errors@) =~= before + added);
            },
            None => {
                if !entry.1.has_default {
                    let error = Error::new(
                        ErrorMessage::MissingField(entry.0.clone()),
                        actual_rule.info.to_token_range(),
                    );
                    errors.push(error);
                    assert(errors_model(errors@) =~= before.push(error@));
                }
            },
        }
        i += 1;
    }
    proof {
        assert(em.take(i as int) =~= em);
    }
    let ghost first = errors_model(errors@);
    let mut k: usize = 0;
    proof {
        assert(am.take(0) =~= Seq::empty());
        assert(first + Seq::<ErrorView>::empty() =~= first);
    }
    while k < actual.entries.len()
        invariant
            k <= actual.entries@.len(),
            em == expected.model(),
            am == actual.model(),
            errors_model(errors@) == first + spec_check_actual_fields(em, am.take(k as int)),
        decreases actual.entries@.len() - k,
    {
        proof {
            assert(am.take(k + 1).drop_last() =~= am.take(k as int));
            assert(am.take(k + 1).last() == am[k as int]);
        }
        let ghost before = errors_model(errors@);
        let entry = &actual.entries[k];
        assert(am[k as int] == (entry.0@, entry.1));
        if !expected.contains_key(&entry.0) {
            let error = Error::new(
                ErrorMessage::UnexpectedField(entry.0.clone()),
                entry.1.name_range.start..entry.1.name_range.end,
            );
            errors.push(error);
            assert(errors_model(errors@) =~= before.push(error@));
            assert(before.push(error@) =~= first + spec_check_actual_fields(
                em,
                am.take(k as int),
            ).push(error@));
        }
        k += 1;
    }
    proof {
        assert(am.take(k as int) =~= am);
    }
    errors
}

/// One error of a kind at each of the rules.
fn each(rules: &Vec<Rule>, indices: &Vec<RuleIndex>, from: usize, unexpected: bool) -> (r: Vec<
    Error,
>)
    requires
        from <= indices@.len(),
        forall|k: int| 0 <= k < indices@.len() ==> (#[trigger] indices@[k]) < rules@.len(),
    ensures
        errors_model(r@) == spec_each(
            rules_model(rules@),
            indices@.subrange(from as int, indices@.len() as int),
            if unexpected {
                ErrorMessageView::UnexpectedListElement
            } else {
                ErrorMessageView::MultipleListTypes
            },
        ),
{
    let ghost rm = rules_model(rules@);
    let ghost all = indices@.subrange(from as int, indices@.len() as int);
    let ghost message = if unexpected {
        ErrorMessageView::UnexpectedListElement
    } else {
        ErrorMessageView::MultipleListTypes
    };
    let mut errors: Vec<Error> = Vec::new();
    let mut i: usize = from;
    proof {
        assert(all.take(0) =~= Seq::empty());
        assert(errors_model(errors@) =~= Seq::empty());
    }
    while i < indices.len()
        invariant
            from <= i <= indices@.len(),
            rm == rules_model(rules@),
            all == indices@.subrange(from as int, indices@.len() as int),
            forall|k: int| 0 <= k < indices@.len() ==> (#[trigger] indices@[k]) < rules@.len(),
            errors_model(errors@) == spec_each(rm, all.take(i - from), message),
            message == if unexpected {
                ErrorMessageView::UnexpectedListElement
            } else {
                ErrorMessageView::MultipleListTypes
            },
        decreases indices@.len() - i,
    {
        proof {
            assert(all.take(i - from + 1).drop_last() =~= all.take(i - from));
            assert(all.take(i - from + 1).last() == indices@[i as int]);
        }
        let ghost before = errors_model(errors@);
        let range = rules[indices[i]].info.to_token_range();
        let error = if unexpected {
            Error::new(ErrorMessage::UnexpectedListElement, range)
        } else {
            Error::new(ErrorMessage::MultipleListTypes, range)
        };
        errors.push(error);
        assert(errors_model(errors@) =~= before.push(error@));
        i += 1;
    }
    proof {
        assert(all.take(i - from) =~= all);
    }
    errors
}

fn check_list(rules: &Vec<Rule>, expected: &Vec<RuleIndex>, actual: &Vec<RuleIndex>, fuel: u128) -> (r:
    Vec<Error>)
    requires
        rules_wf(rules_model(rules@)),
        forall|k: int| 0 <= k < expected@.len() ==> (#[trigger] expected@[k]) < rules@.len(),
        forall|k: int| 0 <= k < actual@.len() ==> (#[trigger] actual@[k]) < rules@.len(),
    ensures
        errors_model(r@) == spec_check_list(rules_model(rules@), expected@, actual@, fuel as nat),
    decreases fuel, 2 + actual@.len(),
{
    let ghost rm = rules_model(rules@);
    if expected.len() == 0 {
        assert(actual@.subrange(0, actual@.len() as int) =~= actual@);
        each(rules, actual, 0, true)
    } else if expected.len() == 1 {
        let mut errors: Vec<Error> = Vec::new();
        let mut i: usize = 0;
        proof {
            assert(actual@.take(0) =~= Seq::empty());
            assert(errors_model(errors@) =~= Seq::empty());
        }
        while i < actual.len()
            invariant
                i <= actual@.len(),
                expected@.len() == 1,
                rm == rules_model(rules@),
                rules_wf(rm),
                forall|k: int| 0 <= k < expected@.len() ==> (#[trigger] expected@[k]) < rules@.len(),
                forall|k: int| 0 <= k < actual@.len() ==> (#[trigger] actual@[k]) < rules@.len(),
                errors_model(errors@) == spec_check_items(
                    rm,
                    expected@[0],
                    actual@.take(i as int),
                    fuel as nat,
                ),
            decreases actual@.len() - i,
        {
            proof {
                assert(actual@.take(i + 1).drop_last() =~= actual@.take(i as int));
                assert(actual@.take(i + 1).last() == actual@[i as int]);
            }
            let ghost before = errors_model(errors@);
            let mut new = check_rules(rules, expected[0], actual[i], fuel);
            let ghost added = errors_model(new@);
            errors.append(&mut new);
            assert(errors_model(errors@) =~= before + added);
            i += 1;
        }
        proof {
            assert(actual@.take(i as int) =~= actual@);
        }
        errors
    } else {
        each(rules, expected, 1, false)
    }
}

fn check_built_in(expected: &BuiltInType, actual: &BuiltInType, range: TokenRange) -> (r: Vec<
    Error,
>)
    ensures
        errors_model(r@) == if *expected == *actual {
            Seq::empty()
        } else {
            one(ErrorMessageView::TypeMismatch, range)
        },
{
    if *expected == *actual {
        no_error()
    } else {
        single_error(ErrorMessage::TypeMismatch, range)
    }
}

fn check_primitive(expected: &Primitive, actual: &Primitive) -> (r: Vec<Error>)
    ensures
        errors_model(r@) == if expected@.literal == actual@.literal {
            Seq::empty()
        } else {
            one(
                ErrorMessageView::ValueMismatch(
                    expected@.literal.text(),
                    actual@.literal.text(),
                ),
                actual@.range,
            )
        },
{
    if *expected == *actual {
        no_error()
    } else {
        single_error(
            ErrorMessage::ValueMismatch(
                String::from_str(expected.as_str()),
                String::from_str(actual.as_str()),
            ),
            actual.info().to_token_range(),
        )
    }
}

fn check_value(expected: &BuiltInType, actual: &Primitive) -> (r: Vec<Error>)
    ensures
        errors_model(r@) == if spec_literal_matches(*expected, actual@.literal) {
            Seq::empty()
        } else {
            one(
                ErrorMessageView::ValueMismatch(expected.spec_str(), actual@.literal.text()),
                actual@.range,
            )
        },
{
    if expected.matches(actual) {
        no_error()
    } else {
        single_error(
            ErrorMessage::ValueMismatch(
                String::from_str(expected.as_str()),
                String::from_str(actual.as_str()),
            ),
            actual.info().to_token_range(),
        )
    }
}

/// Whether every range that a description holds lies within the first
/// `n` tokens.
pub open spec fn description_within(description: TypeView, n: int) -> bool {
    match description {
        TypeView::Ident(_, range, _) => range_within(range, n),
        TypeView::Primitive(primitive) => range_within(primitive.range, n),
        TypeView::Struct(fields) => names_within(fields, n),
        _ => true,
    }
}

/// What a rule comes to lies within the tokens that the rules lie
/// within.
proof fn lemma_extract_within(rules: Seq<RuleView>, description: TypeView, fuel: nat, n: int)
    requires
        rules_within(rules, n),
        description_within(description, n),
    ensures
        description_within(spec_extract(rules, description, fuel), n),
    decreases fuel,
{
    match description {
        TypeView::ValidIdent(index) | TypeView::Rule(index) => {
            if fuel > 0 && index < rules.len() {
                assert(rule_within(rules[index as int], n));
                lemma_extract_within(rules, rules[index as int].description, (fuel - 1) as nat, n);
            }
        },
        _ => {},
    }
}

/// The errors of a check lie within the tokens that the rules lie
/// within.
proof fn lemma_check_within(
    rules: Seq<RuleView>,
    expected: RuleIndex,
    actual: RuleIndex,
    fuel: nat,
    n: int,
)
    requires
        rules_within(rules, n),
    ensures
        views_within(spec_check(rules, expected, actual, fuel), n),
    decreases fuel, 0nat,
{
    if fuel == 0 || expected >= rules.len() || actual >= rules.len() {
    } else {
        let expected_rule = rules[expected as int];
        let actual_rule = rules[actual as int];
        assert(rule_within(expected_rule, n));
        assert(rule_within(actual_rule, n));
        let less = (fuel - 1) as nat;
        lemma_extract_within(rules, expected_rule.description, rules.len(), n);
        lemma_extract_within(rules, actual_rule.description, rules.len(), n);
        match (
            spec_extract(rules, expected_rule.description, rules.len()),
            spec_extract(rules, actual_rule.description, rules.len()),
        ) {
            (TypeView::Union(e), TypeView::Union(a)) => {
                lemma_check_union_within(rules, e, a, less, n);
            },
            (TypeView::Union(e), _) => {},
            (TypeView::Struct(e), TypeView::Struct(a)) => {
                lemma_check_expected_within(rules, e, actual_rule.range, a, less, n);
                lemma_check_actual_within(e, a, n);
            },
            (TypeView::List(e), TypeView::List(a)) => {
                if e.len() == 0 {
                    lemma_each_within(rules, a, ErrorMessageView::UnexpectedListElement, n);
                } else if e.len() == 1 {
                    lemma_check_items_within(rules, e[0], a, less, n);
                } else {
                    lemma_each_within(
                        rules,
                        e.subrange(1, e.len() as int),
                        ErrorMessageView::MultipleListTypes,
                        n,
                    );
                }
            },
            _ => {},
        }
    }
}

proof fn lemma_check_union_within(
    rules: Seq<RuleView>,
    expected: Seq<RuleIndex>,
    actual: Seq<RuleIndex>,
    fuel: nat,
    n: int,
)
    requires
        rules_within(rules, n),
    ensures
        views_within(spec_check_union(rules, expected, actual, fuel), n),
    decreases actual.len(),
{
    if actual.len() > 0 {
        lemma_check_union_within(rules, expected, actual.drop_last(), fuel, n);
        if actual.last() < rules.len() {
            assert(rule_within(rules[actual.last() as int], n));
        }
    }
}

proof fn lemma_check_expected_within(
    rules: Seq<RuleView>,
    expected: Seq<(Seq<char>, FieldRule)>,
    actual_range: TokenRange,
    actual: Seq<(Seq<char>, FieldRule)>,
    fuel: nat,
    n: int,
)
    requires
        rules_within(rules, n),
        range_within(actual_range, n),
    ensures
        views_within(spec_check_expected_fields(rules, expected, actual_range, actual, fuel), n),
    decreases fuel, 1 + expected.len(),
{
    if expected.len() > 0 {
        lemma_check_expected_within(rules, expected.drop_last(), actual_range, actual, fuel, n);
        let (name, field) = expected.last();
        if holds(actual, name) {
            lemma_check_within(rules, field.rule, lookup(actual, name)->Some_0.rule, fuel, n);
        }
    }
}

proof fn lemma_check_actual_within(
    expected: Seq<(Seq<char>, FieldRule)>,
    actual: Seq<(Seq<char>, FieldRule)>,
    n: int,
)
    requires
        names_within(actual, n),
    ensures
        views_within(spec_check_actual_fields(expected, actual), n),
    decreases actual.len(),
{
    if actual.len() > 0 {
        assert forall|k: int| 0 <= k < actual.drop_last().len() implies range_within(
            (#[trigger] actual.drop_last()[k]).1.name_range,
            n,
        ) by {
            assert(range_within(actual[k].1.name_range, n));
        }
        lemma_check_actual_within(expected, actual.drop_last(), n);
        assert(range_within(actual[actual.len() - 1].1.name_range, n));
    }
}

proof fn lemma_each_within(
    rules: Seq<RuleView>,
    indices: Seq<RuleIndex>,
    message: ErrorMessageView,
    n: int,
)
    requires
        rules_within(rules, n),
    ensures
        views_within(spec_each(rules, indices, message), n),
    decreases indices.len(),
{
    if indices.len() > 0 {
        lemma_each_within(rules, indices.drop_last(), message, n);
        if indices.last() < rules.len() {
            assert(rule_within(rules[indices.last() as int], n));
        }
    }
}

proof fn lemma_check_items_within(
    rules: Seq<RuleView>,
    expected: RuleIndex,
    actual: Seq<RuleIndex>,
    fuel: nat,
    n: int,
)
    requires
        rules_within(rules, n),
    ensures
        views_within(spec_check_items(rules, expected, actual, fuel), n),
    decreases fuel, 1 + actual.len(),
{
    if actual.len() > 0 {
        lemma_check_items_within(rules, expected, actual.drop_last(), fuel, n);
        lemma_check_within(rules, expected, actual.last(), fuel, n);
    }
}

/// The errors of all checks lie within the tokens that the rules lie
/// within.
pub proof fn lemma_checked_within(st: TypesModel, count: int, n: int)
    requires
        state_within(st, n),
    ensures
        views_within(spec_check_assertions(st, count), n),
        count == st.assertions.len() ==> state_within(spec_checked(st), n),
    decreases count,
{
    if count > 0 {
        lemma_checked_within(st, count - 1, n);
        lemma_check_within(
            st.rules,
            st.assertions[count - 1].0,
            st.assertions[count - 1].1,
            spec_fuel(st.rules),
            n,
        );
    }
}

} // verus!
