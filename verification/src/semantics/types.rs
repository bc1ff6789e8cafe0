//! The type checker: a flat graph of rules, built from the expressions
//! of a module, and the assertions that one rule is compatible with
//! another.

pub mod analysis;
pub mod assertions;

use crate::ast::bounds::{globals_within, range_within};
use crate::ast::{AstInfo, Global, Ident, Primitive, PrimitiveView};
use crate::semantics::error::{
    errors_model, errors_within, views_within, Error, ErrorMessage, ErrorMessageView, ErrorView,
};
use crate::semantics::types::analysis::{
    lemma_binding_within, lemma_expr_within, lemma_names_lookup, spec_binding, spec_expr,
};
use crate::semantics::types::assertions::{lemma_checked_within, spec_checked};
use crate::semantics::uses::lemma_names_hold;
use crate::semantics::values::evaluation::{table_wf, TableModel};
use crate::semantics::values::{lemma_put_wf, lemma_table_grows};
use crate::semantics::{names_model, BindingMap, BindingsModel, NameMap, Namespace};
use crate::table::{holds, lookup, place, put, Table};
use crate::token::TokenRange;
use crate::{strings_model, GlobalIdent, ModuleAst};
use crate::token::ToTokenRange;
use vstd::prelude::*;
use vstd::string::*;

verus! {

/// Index into the rule list
pub type RuleIndex = usize;

/// What a struct type says of one field: the rule of the field, whether
/// the field has a default, and the tokens of the field's name.
#[derive(Clone, Debug, PartialEq, Eq)]
pub struct FieldRule {
    pub rule: RuleIndex,
    pub has_default: bool,
    pub name_range: TokenRange,
}

/// What a rule says of its type.
#[derive(Debug)]
pub enum TypeDescription {
    Union(Vec<RuleIndex>),
    Struct(Table<String, FieldRule>),
    List(Vec<RuleIndex>),
    /// A name as it is written: its head and the names that follow it.
    Ident(Ident, Vec<String>),
    ValidIdent(RuleIndex),
    Primitive(Primitive),
    Rule(RuleIndex),
    BuiltIn(BuiltInType),
    Unknown,
}

/// A node of the type graph.
#[derive(Debug)]
pub struct Rule {
    pub type_description: TypeDescription,
    pub info: AstInfo,
}

/// The mathematical content of a [`TypeDescription`]. Of a name it keeps
/// the head, the tokens of the head, and the names that follow.
pub ghost enum TypeView {
    Union(Seq<RuleIndex>),
    Struct(Seq<(Seq<char>, FieldRule)>),
    List(Seq<RuleIndex>),
    Ident(Seq<char>, TokenRange, Seq<Seq<char>>),
    ValidIdent(RuleIndex),
    Primitive(PrimitiveView),
    Rule(RuleIndex),
    BuiltIn(BuiltInType),
    Unknown,
}

/// The mathematical content of a [`Rule`].
pub ghost struct RuleView {
    pub description: TypeView,
    pub range: TokenRange,
}

impl View for TypeDescription {
    type V = TypeView;

    open spec fn view(&self) -> TypeView {
        match self {
            TypeDescription::Union(indices) => TypeView::Union(indices@),
            TypeDescription::Struct(fields) => TypeView::Struct(fields.model()),
            TypeDescription::List(indices) => TypeView::List(indices@),
            TypeDescription::Ident(head, tail) => TypeView::Ident(
                head.name@,
                head.info.range,
                strings_model(tail@),
            ),
            TypeDescription::ValidIdent(index) => TypeView::ValidIdent(*index),
            TypeDescription::Primitive(primitive) => TypeView::Primitive(primitive@),
            TypeDescription::Rule(index) => TypeView::Rule(*index),
            TypeDescription::BuiltIn(built_in) => TypeView::BuiltIn(*built_in),
            TypeDescription::Unknown => TypeView::Unknown,
        }
    }
}

impl View for Rule {
    type V = RuleView;

    open spec fn view(&self) -> RuleView {
        RuleView { description: self.type_description@, range: self.info.range }
    }
}

/// The contents of a list of rules.
pub open spec fn rules_model(rules: Seq<Rule>) -> Seq<RuleView> {
    Seq::new(rules.len(), |i: int| rules[i]@)
}

/// Whether an expression stands where a value is expected, or a type.
#[derive(Clone, Copy, Debug)]
pub enum Context {
    Expr,
    TypeExpr,
}

/// What type analysis knows: the rules, the assertions that wait to be
/// checked, each an expected and an actual rule, and the errors found.
#[derive(Debug)]
pub struct TypeInfo {
    pub rules: Vec<Rule>,
    pub assertions: Vec<(RuleIndex, RuleIndex)>,
    pub errors: Vec<Error>,
}

/// The mathematical content of a [`TypeInfo`].
pub ghost struct TypesModel {
    pub rules: Seq<RuleView>,
    pub assertions: Seq<(RuleIndex, RuleIndex)>,
    pub errors: Seq<ErrorView>,
}

impl View for TypeInfo {
    type V = TypesModel;

    open spec fn view(&self) -> TypesModel {
        TypesModel {
            rules: rules_model(self.rules@),
            assertions: self.assertions@,
            errors: errors_model(self.errors@),
        }
    }
}

/// Whether every rule of the list comes before the place `bound`.
pub open spec fn all_below(indices: Seq<RuleIndex>, bound: int) -> bool {
    forall|k: int| 0 <= k < indices.len() ==> (#[trigger] indices[k]) < bound
}

/// Whether the rule of every field comes before the place `bound`.
pub open spec fn fields_below(fields: Seq<(Seq<char>, FieldRule)>, bound: int) -> bool {
    forall|k: int| 0 <= k < fields.len() ==> (#[trigger] fields[k]).1.rule < bound
}

impl TypeView {
    /// Whether every rule that the description refers to comes before
    /// the place `bound`.
    pub open spec fn below(self, bound: int) -> bool {
        match self {
            TypeView::Union(indices) => all_below(indices, bound),
            TypeView::Struct(fields) => fields_below(fields, bound),
            TypeView::List(indices) => all_below(indices, bound),
            TypeView::ValidIdent(index) => index < bound,
            TypeView::Rule(index) => index < bound,
            _ => true,
        }
    }
}

/// Whether the names of all fields lie within the first `n` tokens.
pub open spec fn names_within(fields: Seq<(Seq<char>, FieldRule)>, n: int) -> bool {
    forall|k: int| 0 <= k < fields.len() ==> range_within((#[trigger] fields[k]).1.name_range, n)
}

/// Whether the range of a rule, and every range that its description
/// holds, lies within the first `n` tokens.
pub open spec fn rule_within(rule: RuleView, n: int) -> bool {
    range_within(rule.range, n) && match rule.description {
        TypeView::Ident(_, range, _) => range_within(range, n),
        TypeView::Primitive(primitive) => range_within(primitive.range, n),
        TypeView::Struct(fields) => names_within(fields, n),
        _ => true,
    }
}

/// Whether the ranges of all rules lie within the first `n` tokens.
pub open spec fn rules_within(rules: Seq<RuleView>, n: int) -> bool {
    forall|i: int| 0 <= i < rules.len() ==> rule_within(#[trigger] rules[i], n)
}

/// Whether the ranges of all rules and of all errors lie within the
/// first `n` tokens.
pub open spec fn state_within(st: TypesModel, n: int) -> bool {
    rules_within(st.rules, n) && views_within(st.errors, n)
}

impl TypesModel {
    /// Whether no index dangles: every rule and every assertion refers
    /// to rules that exist.
    pub open spec fn wf(self) -> bool {
        &&& forall|i: int|
            0 <= i < self.rules.len() ==> (#[trigger] self.rules[i]).description.below(
                self.rules.len() as int,
            )
        &&& forall|k: int|
            0 <= k < self.assertions.len() ==> (#[trigger] self.assertions[k]).0
                < self.rules.len() && self.assertions[k].1 < self.rules.len()
    }
}

pub const STRING: &'static str = "String";
pub const NUMBER: &'static str = "Number";
pub const BOOL: &'static str = "Bool";

/// The types that need no definition.
#[derive(Copy, Clone, Debug, PartialEq, Eq, Structural)]
pub enum BuiltInType {
    String,
    Number,
    Bool,
}

impl BuiltInType {
    /// The name of the type.
    pub open spec fn spec_str(&self) -> Seq<char> {
        match self {
            BuiltInType::String => STRING@,
            BuiltInType::Number => NUMBER@,
            BuiltInType::Bool => BOOL@,
        }
    }

    /// The name of the type.
    pub fn as_str(&self) -> (r: &'static str)
        ensures
            r@ == self.spec_str(),
    {
        match self {
            BuiltInType::String => STRING,
            BuiltInType::Number => NUMBER,
            BuiltInType::Bool => BOOL,
        }
    }

    /// All built-in types.
    pub fn into_iter() -> (r: [BuiltInType; 3])
        ensures
            r@ == seq![BuiltInType::String, BuiltInType::Number, BuiltInType::Bool],
    {
        let r = [BuiltInType::String, BuiltInType::Number, BuiltInType::Bool];
        assert(r@ =~= seq![BuiltInType::String, BuiltInType::Number, BuiltInType::Bool]);
        r
    }

    /// Whether a literal is of this type: a string of `String`, a number
    /// of `Number`, `true` and `false` of `Bool`.
    pub open spec fn spec_matches(&self, value: &Primitive) -> bool {
        match (*self, *value) {
            (BuiltInType::String, Primitive::String(_)) => true,
            (BuiltInType::Number, Primitive::Number(_)) => true,
            (BuiltInType::Bool, Primitive::Bool(_)) => true,
            _ => false,
        }
    }

    /// Whether a literal is of this type.
    pub fn matches(&self, value: &Primitive) -> (r: bool)
        ensures
            r == self.spec_matches(value),
    {
        match (self, value) {
            (BuiltInType::String, Primitive::String(_)) => true,
            (BuiltInType::Number, Primitive::Number(_)) => true,
            (BuiltInType::Bool, Primitive::Bool(_)) => true,
            _ => false,
        }
    }

    /// Whether a name is that of a built-in type.
    pub open spec fn is_name(name: Seq<char>) -> bool {
        name == STRING@ || name == NUMBER@ || name == BOOL@
    }

    /// The built-in type of a name.
    pub open spec fn spec_from_name(name: Seq<char>) -> Option<BuiltInType> {
        if name == STRING@ {
            Some(BuiltInType::String)
        } else if name == NUMBER@ {
            Some(BuiltInType::Number)
        } else if name == BOOL@ {
            Some(BuiltInType::Bool)
        } else {
            None
        }
    }

    /// The built-in type of a name, if it names one.
    pub fn from_name(name: &String) -> (r: Option<BuiltInType>)
        ensures
            r == BuiltInType::spec_from_name(name@),
    {
        let all = BuiltInType::into_iter();
        let mut i: usize = 0;
        while i < 3
            invariant
                i <= 3,
                all@ == seq![BuiltInType::String, BuiltInType::Number, BuiltInType::Bool],
                forall|j: int| 0 <= j < i ==> (#[trigger] all@[j]).spec_str() != name@,
            decreases 3 - i,
        {
            let built_in = all[i];
            if String::from_str(built_in.as_str()) == *name {
                assert(all@[0].spec_str() == STRING@);
                assert(all@[1].spec_str() == NUMBER@);
                assert(all@[2].spec_str() == BOOL@);
                proof {
                    lemma_names_differ();
                }
                return Some(built_in);
            }
            i += 1;
        }
        assert(all@[0].spec_str() == STRING@);
        assert(all@[1].spec_str() == NUMBER@);
        assert(all@[2].spec_str() == BOOL@);
        None
    }
}

/// The names of the built-in types differ from each other.
pub proof fn lemma_names_differ()
    ensures
        STRING@ != NUMBER@,
        STRING@ != BOOL@,
        NUMBER@ != BOOL@,
{
    reveal_strlit("String");
    reveal_strlit("Number");
    reveal_strlit("Bool");
    assert(STRING@.len() == 6);
    assert(NUMBER@.len() == 6);
    assert(BOOL@.len() == 4);
    assert(STRING@[0] == 'S');
    assert(NUMBER@[0] == 'N');
}

/// The state in which type analysis starts.
pub open spec fn spec_empty() -> TypesModel {
    TypesModel { rules: Seq::empty(), assertions: Seq::empty(), errors: Seq::empty() }
}

/// The table with the rule of a binding, where the binding has a name
/// and a rule.
pub open spec fn spec_bound(
    ident_rules: TableModel,
    module: Seq<Seq<char>>,
    name: Option<Ident>,
    rule: Option<RuleIndex>,
) -> TableModel {
    match (rule, name) {
        (Some(index), Some(ident)) => put(ident_rules, module.push(ident.name@), index),
        _ => ident_rules,
    }
}

/// The rules of the globals, built from first to last, and the rule of
/// each global name. A definition stands where a type is expected, a
/// let and an initializer where a value is.
pub open spec fn spec_build(
    globals: Seq<Global>,
    module: Seq<Seq<char>>,
    names: NameMap,
    bindings: BindingsModel,
) -> (TypesModel, TableModel)
    decreases globals.len(),
{
    if globals.len() == 0 {
        (spec_empty(), Seq::empty())
    } else {
        let (st, ident_rules) = spec_build(globals.drop_last(), module, names, bindings);
        match globals.last() {
            Global::Def(def) => {
                let (s1, rule) = spec_binding(
                    def.name,
                    def.type_expr,
                    def.expr,
                    Context::TypeExpr,
                    names,
                    bindings,
                    st,
                );
                (s1, spec_bound(ident_rules, module, def.name, rule))
            },
            Global::Let(l) => {
                let (s1, rule) = spec_binding(
                    l.name,
                    l.type_expr,
                    l.expr,
                    Context::Expr,
                    names,
                    bindings,
                    st,
                );
                (s1, spec_bound(ident_rules, module, l.name, rule))
            },
            Global::Init(init) => (spec_expr(init, Context::Expr, names, bindings, st).0, ident_rules),
            _ => (st, ident_rules),
        }
    }
}

/// What a name as it is written comes to, and the error if it is
/// defined nowhere. A name whose head is in the namespace stands for the
/// rule of its global name, and is unknown where that name has no rule.
/// A single name that is no such name stands for the built-in type of
/// that name. Any other name is undefined, and unknown.
pub open spec fn spec_validate_ident(
    head: Seq<char>,
    range: TokenRange,
    tail: Seq<Seq<char>>,
    names: NameMap,
    ident_rules: TableModel,
) -> (TypeView, Seq<ErrorView>) {
    if holds(names, head) {
        match lookup(ident_rules, lookup(names, head)->Some_0 + tail) {
            Some(index) => (TypeView::ValidIdent(index), Seq::empty()),
            None => (TypeView::Unknown, Seq::empty()),
        }
    } else if tail.len() == 0 && BuiltInType::spec_from_name(head) is Some {
        (TypeView::BuiltIn(BuiltInType::spec_from_name(head)->Some_0), Seq::empty())
    } else {
        (
            TypeView::Unknown,
            seq![ErrorView { message: ErrorMessageView::UndefinedIdent(head), range }],
        )
    }
}

/// What a description comes to when names are validated.
pub open spec fn spec_validate_description(
    description: TypeView,
    names: NameMap,
    ident_rules: TableModel,
) -> (TypeView, Seq<ErrorView>) {
    match description {
        TypeView::Ident(head, range, tail) => spec_validate_ident(
            head,
            range,
            tail,
            names,
            ident_rules,
        ),
        _ => (description, Seq::empty()),
    }
}

/// The state after the names in the first `n` rules were validated.
pub open spec fn spec_validate(st: TypesModel, names: NameMap, ident_rules: TableModel, n: int) -> TypesModel
    decreases n,
{
    if n <= 0 {
        st
    } else {
        let before = spec_validate(st, names, ident_rules, n - 1);
        let (description, errors) = spec_validate_description(
            st.rules[n - 1].description,
            names,
            ident_rules,
        );
        TypesModel {
            rules: before.rules.update(n - 1, RuleView { description, ..st.rules[n - 1] }),
            errors: before.errors + errors,
            ..before
        }
    }
}

/// What type analysis returns for a module: the rules are built, the
/// names in them validated, and the assertions checked.
pub open spec fn spec_analyze(
    globals: Seq<Global>,
    module: Seq<Seq<char>>,
    names: NameMap,
    bindings: BindingsModel,
) -> TypesModel {
    let (st, ident_rules) = spec_build(globals, module, names, bindings);
    spec_checked(spec_validate(st, names, ident_rules, st.rules.len() as int))
}

/// Analyzes the types of a module: builds the rules of its definitions,
/// lets and initializers, validates the names in them, and checks every
/// assertion.
pub fn analyze(module_ast: &ModuleAst, namespace: &Namespace, bindings: &BindingMap) -> (r: TypeInfo)
    ensures
        r@ == spec_analyze(
            module_ast.ast.globals@,
            module_ast.name@,
            names_model(namespace.entries@),
            bindings.model(),
        ),
        forall|n: int| #[trigger]
            globals_within(module_ast.ast.globals@, n) ==> errors_within(r.errors@, n),
{
    proof {
        assert forall|n: int| #[trigger]
            globals_within(module_ast.ast.globals@, n) implies views_within(
            spec_analyze(
                module_ast.ast.globals@,
                module_ast.name@,
                names_model(namespace.entries@),
                bindings.model(),
            ).errors,
            n,
        ) by {
            lemma_analyze_within(
                module_ast.ast.globals@,
                module_ast.name@,
                names_model(namespace.entries@),
                bindings.model(),
                n,
            );
        }
    }
    let globals = &module_ast.ast.globals;
    let ghost md = module_ast.name@;
    let ghost names = names_model(namespace.entries@);
    let mut type_info = TypeInfo { rules: Vec::new(), assertions: Vec::new(), errors: Vec::new() };
    let mut ident_rules: Table<GlobalIdent, RuleIndex> = Table::new();
    let mut i: usize = 0;
    proof {
        assert(globals@.take(0) =~= Seq::empty());
        assert(type_info@.rules =~= Seq::empty());
        assert(type_info@.errors =~= Seq::empty());
        assert(ident_rules.model() =~= Seq::empty());
    }
    while i < globals.len()
        invariant
            i <= globals@.len(),
            md == module_ast.name@,
            names == names_model(namespace.entries@),
            (type_info@, ident_rules.model()) == spec_build(
                globals@.take(i as int),
                md,
                names,
                bindings.model(),
            ),
            type_info@.wf(),
            table_wf(ident_rules.model(), type_info@.rules.len() as int),
        decreases globals@.len() - i,
    {
        proof {
            assert(globals@.take(i + 1).drop_last() =~= globals@.take(i as int));
            assert(globals@.take(i + 1).last() == globals@[i as int]);
        }
        let ghost rules_before = type_info@.rules.len() as int;
        let ghost table_before = ident_rules.model();
        match &globals[i] {
            Global::Def(def) => {
                let rule = analysis::analyze_def(def, &mut type_info, namespace, bindings);
                proof {
                    lemma_table_grows(table_before, rules_before, type_info@.rules.len() as int);
                }
                bind(&mut ident_rules, &module_ast.name, &def.name, rule, Ghost(type_info@.rules.len() as int));
            },
            Global::Let(l) => {
                let rule = analysis::analyze_let(l, &mut type_info, namespace, bindings);
                proof {
                    lemma_table_grows(table_before, rules_before, type_info@.rules.len() as int);
                }
                bind(&mut ident_rules, &module_ast.name, &l.name, rule, Ghost(type_info@.rules.len() as int));
            },
            Global::Init(init) => {
                analysis::analyze_expr(init, &mut type_info, Context::Expr, namespace, bindings);
                proof {
                    lemma_table_grows(table_before, rules_before, type_info@.rules.len() as int);
                }
            },
            _ => {},
        }
        i += 1;
    }
    proof {
        assert(globals@.take(i as int) =~= globals@);
    }
    validate_idents(&mut type_info, namespace, &ident_rules);
    assertions::check(&mut type_info);
    type_info
}

/// Gives the name of a binding its rule, where it has both.
fn bind(
    ident_rules: &mut Table<GlobalIdent, RuleIndex>,
    module: &GlobalIdent,
    name: &Option<Ident>,
    rule: Option<RuleIndex>,
    Ghost(rules): Ghost<int>,
)
    requires
        table_wf(old(ident_rules).model(), rules),
        rule matches Some(index) ==> index < rules,
    ensures
        final(ident_rules).model() == spec_bound(old(ident_rules).model(), module@, *name, rule),
        table_wf(final(ident_rules).model(), rules),
{
    match (rule, name) {
        (Some(index), Some(ident)) => {
            proof {
                lemma_put_wf(ident_rules.model(), module@.push(ident.name@), index, rules);
            }
            ident_rules.insert(module.duplicate().extend(ident.name.clone()), index);
        },
        _ => {},
    }
}

/// What a name as it is written comes to, and whether it is defined.
fn validate_ident(
    head: &Ident,
    tail: &Vec<String>,
    namespace: &Namespace,
    ident_rules: &Table<GlobalIdent, RuleIndex>,
) -> (r: (TypeDescription, bool))
    ensures
        r.0@ == spec_validate_ident(
            head.name@,
            head.info.range,
            strings_model(tail@),
            names_model(namespace.entries@),
            ident_rules.model(),
        ).0,
        r.1 == (spec_validate_ident(
            head.name@,
            head.info.range,
            strings_model(tail@),
            names_model(namespace.entries@),
            ident_rules.model(),
        ).1.len() == 0),
        r.0 matches TypeDescription::ValidIdent(index) ==> exists|k: int|
            0 <= k < ident_rules.model().len() && (#[trigger] ident_rules.model()[k]).1 == index,
{
    proof {
        lemma_names_hold(namespace.entries@, head.name@);
    }
    match namespace.position(&head.name) {
        Some(p) => {
            proof {
                lemma_names_lookup(namespace.entries@, head.name@);
            }
            let mut global = namespace.entries[p].1.duplicate();
            let ghost first = global@;
            let mut i: usize = 0;
            assert(strings_model(tail@).take(0) =~= Seq::empty());
            assert(first + Seq::<Seq<char>>::empty() =~= first);
            while i < tail.len()
                invariant
                    i <= tail@.len(),
                    global@ == first + strings_model(tail@).take(i as int),
                decreases tail@.len() - i,
            {
                global = global.extend(tail[i].clone());
                assert(global@ =~= first + strings_model(tail@).take(i + 1));
                i += 1;
            }
            assert(strings_model(tail@).take(i as int) =~= strings_model(tail@));
            match ident_rules.position(&global) {
                Some(k) => {
                    assert(ident_rules.model()[k as int].1 == ident_rules.entries@[k as int].1);
                    (TypeDescription::ValidIdent(ident_rules.entries[k].1), true)
                },
                None => (TypeDescription::Unknown, true),
            }
        },
        None => {
            let built_in = if tail.len() == 0 {
                BuiltInType::from_name(&head.name)
            } else {
                None
            };
            match built_in {
                Some(built_in) => (TypeDescription::BuiltIn(built_in), true),
                None => (TypeDescription::Unknown, false),
            }
        },
    }
}

/// Validates the names in the rules. A name that is defined is replaced
/// by the rule it stands for, or by its built-in type; a name that is
/// not is reported and replaced by `Unknown`.
fn validate_idents(
    type_info: &mut TypeInfo,
    namespace: &Namespace,
    ident_rules: &Table<GlobalIdent, RuleIndex>,
)
    requires
        old(type_info)@.wf(),
        table_wf(ident_rules.model(), old(type_info)@.rules.len() as int),
    ensures
        final(type_info)@ == spec_validate(
            old(type_info)@,
            names_model(namespace.entries@),
            ident_rules.model(),
            old(type_info)@.rules.len() as int,
        ),
        final(type_info)@.wf(),
{
    let ghost st = type_info@;
    let ghost names = names_model(namespace.entries@);
    let n = type_info.rules.len();
    let mut i: usize = 0;
    while i < n
        invariant
            i <= n,
            n == st.rules.len(),
            names == names_model(namespace.entries@),
            st.wf(),
            table_wf(ident_rules.model(), n as int),
            type_info@ == spec_validate(st, names, ident_rules.model(), i as int),
            type_info@.rules.len() == n,
            type_info@.assertions == st.assertions,
            type_info@.wf(),
            forall|j: int| i <= j < n ==> (#[trigger] type_info@.rules[j]) == st.rules[j],
        decreases n - i,
    {
        let ghost before = type_info@;
        assert(before.rules[i as int] == st.rules[i as int]);
        assert(type_info.rules@[i as int]@ == before.rules[i as int]);
        let replacement = match &type_info.rules[i].type_description {
            TypeDescription::Ident(head, tail) => Some(
                validate_ident(head, tail, namespace, ident_rules),
            ),
            _ => None,
        };
        match replacement {
            Some((description, defined)) => {
                let ghost range = type_info.rules@[i as int].type_description->Ident_0.info.range;
                if !defined {
                    let name = match &type_info.rules[i].type_description {
                        TypeDescription::Ident(head, _) => head.name.clone(),
                        _ => String::new(),
                    };
                    let range = match &type_info.rules[i].type_description {
                        TypeDescription::Ident(head, _) => head.info.to_token_range(),
                        _ => 0..0,
                    };
                    let error = Error::new(ErrorMessage::UndefinedIdent(name), range);
                    type_info.errors.push(error);
                    assert(type_info@.errors =~= before.errors + seq![error@]);
                } else {
                    assert(type_info@.errors =~= before.errors + Seq::<ErrorView>::empty());
                }
                let ghost new_description = description@;
                type_info.rules[i].type_description = description;
                proof {
                    assert(type_info@.rules =~= before.rules.update(
                        i as int,
                        RuleView { description: new_description, ..st.rules[i as int] },
                    ));
                    if new_description is ValidIdent {
                        let index = new_description->ValidIdent_0;
                        let k = choose|k: int|
                            0 <= k < ident_rules.model().len() && (
                            #[trigger] ident_rules.model()[k]).1 == index;
                        assert(index < n);
                    }
                    assert(new_description.below(n as int));
                    assert forall|j: int| 0 <= j < n implies (
                    #[trigger] type_info@.rules[j]).description.below(n as int) by {
                        if j != i {
                            assert(type_info@.rules[j] == before.rules[j]);
                            assert(before.rules[j].description.below(n as int));
                        }
                    }
                }
            },
            None => {
                proof {
                    assert(type_info@.errors =~= before.errors + Seq::<ErrorView>::empty());
                    assert(type_info@.rules =~= before.rules.update(
                        i as int,
                        RuleView {
                            description: st.rules[i as int].description,
                            ..st.rules[i as int]
                        },
                    ));
                }
            },
        }
        i += 1;
    }
}

/// The rules and errors that are built from globals that lie within
/// the first `n` tokens lie within them.
proof fn lemma_build_within(
    globals: Seq<Global>,
    module: Seq<Seq<char>>,
    names: NameMap,
    bindings: BindingsModel,
    n: int,
)
    requires
        globals_within(globals, n),
    ensures
        state_within(spec_build(globals, module, names, bindings).0, n),
    decreases globals.len(),
{
    if globals.len() > 0 {
        assert forall|i: int| 0 <= i < globals.drop_last().len() implies (
        #[trigger] globals.drop_last()[i]).within(n) by {
            assert(globals[i].within(n));
        }
        lemma_build_within(globals.drop_last(), module, names, bindings, n);
        assert(globals[globals.len() - 1].within(n));
        let (st, ident_rules) = spec_build(globals.drop_last(), module, names, bindings);
        match globals.last() {
            Global::Def(def) => {
                lemma_binding_within(
                    def.name,
                    def.type_expr,
                    def.expr,
                    Context::TypeExpr,
                    names,
                    bindings,
                    st,
                    n,
                );
            },
            Global::Let(l) => {
                lemma_binding_within(
                    l.name,
                    l.type_expr,
                    l.expr,
                    Context::Expr,
                    names,
                    bindings,
                    st,
                    n,
                );
            },
            Global::Init(init) => {
                lemma_expr_within(init, Context::Expr, names, bindings, st, n);
            },
            _ => {},
        }
    }
}

/// Validating names keeps the rules and errors within the tokens.
proof fn lemma_validate_within(
    st: TypesModel,
    names: NameMap,
    ident_rules: TableModel,
    count: int,
    n: int,
)
    requires
        state_within(st, n),
        count <= st.rules.len(),
    ensures
        state_within(spec_validate(st, names, ident_rules, count), n),
        spec_validate(st, names, ident_rules, count).rules.len() == st.rules.len(),
    decreases count,
{
    if count > 0 {
        lemma_validate_within(st, names, ident_rules, count - 1, n);
        let before = spec_validate(st, names, ident_rules, count - 1);
        let after = spec_validate(st, names, ident_rules, count);
        assert(rule_within(st.rules[count - 1], n));
        assert forall|i: int| 0 <= i < after.rules.len() implies rule_within(
            #[trigger] after.rules[i],
            n,
        ) by {
            if i != count - 1 {
                assert(rule_within(before.rules[i], n));
            }
        }
    }
}

/// The errors of type analysis lie within the tokens that the globals
/// lie within.
pub proof fn lemma_analyze_within(
    globals: Seq<Global>,
    module: Seq<Seq<char>>,
    names: NameMap,
    bindings: BindingsModel,
    n: int,
)
    requires
        globals_within(globals, n),
    ensures
        views_within(spec_analyze(globals, module, names, bindings).errors, n),
{
    lemma_build_within(globals, module, names, bindings, n);
    let (st, ident_rules) = spec_build(globals, module, names, bindings);
    lemma_validate_within(st, names, ident_rules, st.rules.len() as int, n);
    let validated = spec_validate(st, names, ident_rules, st.rules.len() as int);
    lemma_checked_within(validated, validated.assertions.len() as int, n);
}

} // verus!
