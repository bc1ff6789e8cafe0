//! The syntax tree: grammar nodes, each with the token range it spans.

pub mod bounds;
pub mod model;

use crate::token::{ToTokenRange, TokenRange, DOUBLE_COLON, FALSE, NULL, TRUE};
use vstd::prelude::*;
use vstd::string::*;
use vstd::utf8::encode_utf8;
use vstd::std_specs::cmp::PartialEqSpecImpl;

verus! {

/// Whitespace and comments in front of a node.
#[derive(Clone, Debug, Default, PartialEq, Eq)]
pub struct Prelude {
    pub comments: Vec<String>,
    pub range: TokenRange,
}

/// What every node carries: its prelude and the tokens it spans.
#[derive(Clone, Debug, PartialEq, Eq)]
pub struct AstInfo {
    pub prelude: Prelude,
    pub range: TokenRange,
}

/// The mathematical content of an [`AstInfo`].
pub ghost struct AstInfoView {
    pub comments: Seq<Seq<char>>,
    pub prelude: TokenRange,
    pub range: TokenRange,
}

impl View for AstInfo {
    type V = AstInfoView;

    open spec fn view(&self) -> AstInfoView {
        AstInfoView {
            comments: Seq::new(self.prelude.comments@.len(), |i: int| self.prelude.comments@[i]@),
            prelude: self.prelude.range,
            range: self.range,
        }
    }
}

impl Prelude {
    /// A prelude without comments.
    pub fn ranged(range: TokenRange) -> (r: Self)
        ensures
            r.range == range,
            r.comments@.len() == 0,
    {
        Self { comments: Vec::new(), range }
    }
}

impl ToTokenRange for AstInfo {
    open spec fn spec_token_range(&self) -> TokenRange {
        self.range
    }

    fn to_token_range(&self) -> (r: TokenRange) {
        self.range.clone()
    }
}

impl AstInfo {
    pub fn new(prelude: Prelude, range: TokenRange) -> (r: Self)
        ensures
            r.prelude == prelude,
            r.range == range,
    {
        Self { prelude, range }
    }

    /// A copy with the same content.
    pub fn duplicate(&self) -> (r: Self)
        ensures
            r@ == self@,
    {
        let mut comments: Vec<String> = Vec::new();
        let n = self.prelude.comments.len();
        let mut i: usize = 0;
        while i < n
            invariant
                n == self.prelude.comments@.len(),
                i <= n,
                comments@.len() == i,
                forall|j: int| 0 <= j < i ==> comments@[j]@ == self.prelude.comments@[j]@,
            decreases n - i,
        {
            comments.push(self.prelude.comments[i].clone());
            i += 1;
        }
        let r = Self {
            prelude: Prelude {
                comments,
                range: self.prelude.range.start..self.prelude.range.end,
            },
            range: self.range.start..self.range.end,
        };
        assert(r@.comments =~= self@.comments);
        r
    }
}

/// A node with an optional type and an optional value.
pub trait TypedExpr {
    /// The type that the node is annotated with.
    spec fn spec_type_expr(&self) -> Option<Expr>;

    /// The value that the node is given.
    spec fn spec_expr(&self) -> Option<Expr>;

    /// What the node carries.
    spec fn spec_info(&self) -> AstInfo;

    fn type_expr(&self) -> (r: Option<&Expr>)
        ensures
            r.is_some() == self.spec_type_expr().is_some(),
            r matches Some(e) ==> *e == self.spec_type_expr().unwrap(),
    ;

    fn expr(&self) -> (r: Option<&Expr>)
        ensures
            r.is_some() == self.spec_expr().is_some(),
            r matches Some(e) ==> *e == self.spec_expr().unwrap(),
    ;

    fn info(&self) -> (r: &AstInfo)
        ensures
            *r == self.spec_info(),
    ;
}

/// The root: the globals in source order.
#[derive(Debug, PartialEq, Eq)]
pub struct Ast {
    pub globals: Vec<Global>,
    pub info: AstInfo,
}

/// A top-level statement.
#[derive(Debug, PartialEq, Eq)]
pub enum Global {
    Use(Use),
    Def(Def),
    Let(Let),
    Init(Expr),
    Error(AstInfo),
}

/// `use name`, with a body if `::` follows.
#[derive(Debug, PartialEq, Eq)]
pub struct Use {
    pub use_kw: AstInfo,
    pub name: Option<Ident>,
    pub body: Option<UseBody>,
    pub alias: Option<Alias>,
    pub info: AstInfo,
}

/// The identifier that an alias gives, if it gives one.
pub open spec fn alias_ident(alias: Option<Alias>) -> Option<Ident> {
    match alias {
        Some(Alias { name: Some(AliasName::Ident(ident)), .. }) => Some(ident),
        _ => None,
    }
}

/// The string that an alias gives, if it gives one.
pub open spec fn alias_string(alias: Option<Alias>) -> Option<PrimitiveValue> {
    match alias {
        Some(Alias { name: Some(AliasName::String(value)), .. }) => Some(value),
        _ => None,
    }
}

impl Use {
    /// The identifier under which this use is known in its scope.
    pub open spec fn spec_identifier(&self) -> Option<Ident> {
        match alias_ident(self.alias) {
            Some(ident) => Some(ident),
            None => self.name,
        }
    }

    /// The identifier under which this use is known in its scope: the
    /// alias if a valid one is set, else the name.
    pub fn identifier(&self) -> (r: Option<&Ident>)
        ensures
            r.is_some() == self.spec_identifier().is_some(),
            r matches Some(ident) ==> *ident == self.spec_identifier().unwrap(),
    {
        match &self.alias {
            Some(Alias { name: Some(AliasName::Ident(ident)), .. }) => Some(ident),
            _ => self.name.as_ref(),
        }
    }
}

/// `::` and what is used.
#[derive(Debug, PartialEq, Eq)]
pub struct UseBody {
    pub double_colon: AstInfo,
    pub kind: Option<UseKind>,
    pub info: AstInfo,
}

/// What is used: everything, one item, or the items between braces.
#[derive(Debug, PartialEq, Eq)]
pub enum UseKind {
    All(AstInfo),
    Single(UseItem),
    Multiple(UseItems),
    Error(AstInfo),
}

/// A name that is used, with a body of its own or an alias.
#[derive(Debug, PartialEq, Eq)]
pub struct UseItem {
    pub name: Ident,
    pub body: Option<Box<UseBody>>,
    pub alias: Option<Alias>,
    pub info: AstInfo,
}

impl UseItem {
    /// The identifier under which this item is known in its scope.
    pub open spec fn spec_identifier(&self) -> Ident {
        match alias_ident(self.alias) {
            Some(ident) => ident,
            None => self.name,
        }
    }

    /// The identifier under which this item is known in its scope: the
    /// alias if a valid one is set, else the name.
    pub fn identifier(&self) -> (r: &Ident)
        ensures
            *r == self.spec_identifier(),
    {
        match &self.alias {
            Some(Alias { name: Some(AliasName::Ident(ident)), .. }) => ident,
            _ => &self.name,
        }
    }
}

/// A span that was skipped where a use item should stand.
#[derive(Clone, Debug, PartialEq, Eq)]
pub struct UseItemError {
    pub info: AstInfo,
}

/// The use items between braces.
#[derive(Debug, PartialEq, Eq)]
pub struct UseItems {
    pub lcurly: AstInfo,
    pub items: Vec<Result<UseItem, UseItemError>>,
    pub rcurly: Option<AstInfo>,
    pub info: AstInfo,
}

/// `def name: type = expr`, a binding where a type is expected.
#[derive(Debug, PartialEq, Eq)]
pub struct Def {
    pub def_kw: AstInfo,
    pub name: Option<Ident>,
    pub colon: Option<AstInfo>,
    pub type_expr: Option<Expr>,
    pub eq: Option<AstInfo>,
    pub expr: Option<Expr>,
    pub info: AstInfo,
}

impl TypedExpr for Def {
    open spec fn spec_type_expr(&self) -> Option<Expr> {
        self.type_expr
    }

    open spec fn spec_expr(&self) -> Option<Expr> {
        self.expr
    }

    open spec fn spec_info(&self) -> AstInfo {
        self.info
    }

    fn type_expr(&self) -> (r: Option<&Expr>) {
        self.type_expr.as_ref()
    }

    fn expr(&self) -> (r: Option<&Expr>) {
        self.expr.as_ref()
    }

    fn info(&self) -> (r: &AstInfo) {
        &self.info
    }
}

/// `let name: type = expr`, a binding where a value is expected.
#[derive(Debug, PartialEq, Eq)]
pub struct Let {
    pub let_kw: AstInfo,
    pub name: Option<Ident>,
    pub colon: Option<AstInfo>,
    pub type_expr: Option<Expr>,
    pub eq: Option<AstInfo>,
    pub expr: Option<Expr>,
    pub info: AstInfo,
}

impl TypedExpr for Let {
    open spec fn spec_type_expr(&self) -> Option<Expr> {
        self.type_expr
    }

    open spec fn spec_expr(&self) -> Option<Expr> {
        self.expr
    }

    open spec fn spec_info(&self) -> AstInfo {
        self.info
    }

    fn type_expr(&self) -> (r: Option<&Expr>) {
        self.type_expr.as_ref()
    }

    fn expr(&self) -> (r: Option<&Expr>) {
        self.expr.as_ref()
    }

    fn info(&self) -> (r: &AstInfo) {
        &self.info
    }
}

/// An expression: a union, a single expression, or a span that was
/// skipped where an expression should stand.
#[derive(Debug, PartialEq, Eq)]
pub enum Expr {
    Union(Union),
    Single(Single),
    Error(AstInfo),
}

impl Expr {
    pub open spec fn spec_info(&self) -> AstInfo {
        match self {
            Expr::Union(union) => union.info,
            Expr::Single(single) => single.spec_info(),
            Expr::Error(info) => *info,
        }
    }

    pub fn info(&self) -> (r: &AstInfo)
        ensures
            *r == self.spec_info(),
    {
        match self {
            Expr::Union(union) => &union.info,
            Expr::Single(single) => single.info(),
            Expr::Error(info) => info,
        }
    }
}

/// A single expression and its alternatives.
#[derive(Debug, PartialEq, Eq)]
pub struct Union {
    pub single: Single,
    pub alternatives: Vec<UnionAlternative>,
    pub info: AstInfo,
}

/// `|` and the single expression after it.
#[derive(Debug, PartialEq, Eq)]
pub struct UnionAlternative {
    pub pipe: AstInfo,
    pub single: Option<Single>,
    pub info: AstInfo,
}

/// An expression that is no union.
#[derive(Debug, PartialEq, Eq)]
pub enum Single {
    Struct(Struct),
    List(List),
    Named(Named),
    Primitive(Primitive),
}

impl Single {
    pub open spec fn spec_info(&self) -> AstInfo {
        match self {
            Single::Struct(s) => s.info,
            Single::List(l) => l.info,
            Single::Named(n) => n.info,
            Single::Primitive(p) => p.spec_info(),
        }
    }

    pub fn info(&self) -> (r: &AstInfo)
        ensures
            *r == self.spec_info(),
    {
        match self {
            Single::Struct(s) => &s.info,
            Single::List(l) => &l.info,
            Single::Named(n) => &n.info,
            Single::Primitive(p) => p.info(),
        }
    }
}

/// The fields between braces.
#[derive(Debug, PartialEq, Eq)]
pub struct Struct {
    pub lcurly: AstInfo,
    pub fields: Vec<Result<StructField, StructFieldError>>,
    pub rcurly: Option<AstInfo>,
    pub info: AstInfo,
}

/// `name: type = expr as alias`, of which only the name must be there.
#[derive(Debug, PartialEq, Eq)]
pub struct StructField {
    pub name: Ident,
    pub colon: Option<AstInfo>,
    pub type_expr: Option<Expr>,
    pub eq: Option<AstInfo>,
    pub expr: Option<Expr>,
    pub alias: Option<Alias>,
    pub info: AstInfo,
}

impl StructField {
    /// The name under which the field is emitted.
    pub open spec fn spec_emit_name(&self) -> Seq<char> {
        match alias_string(self.alias) {
            Some(value) => value.value@,
            None => self.name.name@,
        }
    }

    /// The name under which the field is emitted: the alias if a valid
    /// one is set, else the field's own name.
    pub fn emit_name(&self) -> (r: &str)
        ensures
            r@ == self.spec_emit_name(),
    {
        match &self.alias {
            Some(Alias { name: Some(AliasName::String(value)), .. }) => value.value.as_str(),
            _ => self.name.name.as_str(),
        }
    }
}

impl TypedExpr for StructField {
    open spec fn spec_type_expr(&self) -> Option<Expr> {
        self.type_expr
    }

    open spec fn spec_expr(&self) -> Option<Expr> {
        self.expr
    }

    open spec fn spec_info(&self) -> AstInfo {
        self.info
    }

    fn type_expr(&self) -> (r: Option<&Expr>) {
        self.type_expr.as_ref()
    }

    fn expr(&self) -> (r: Option<&Expr>) {
        self.expr.as_ref()
    }

    fn info(&self) -> (r: &AstInfo) {
        &self.info
    }
}

/// A span that was skipped where a field should stand.
#[derive(Clone, Debug, PartialEq, Eq)]
pub struct StructFieldError {
    pub info: AstInfo,
}

/// The expressions between brackets.
#[derive(Debug, PartialEq, Eq)]
pub struct List {
    pub lbracket: AstInfo,
    pub exprs: Vec<Expr>,
    pub rbracket: Option<AstInfo>,
    pub info: AstInfo,
}

/// A name, the inner names after it, and the struct or list that the
/// name is applied to.
#[derive(Debug, PartialEq, Eq)]
pub struct Named {
    pub name: Ident,
    pub inner_names: Vec<InnerName>,
    pub expr: Option<StructOrList>,
    pub info: AstInfo,
}

/// The name of an inner name; empty where the name is missing.
pub open spec fn inner_text(inner: InnerName) -> Seq<char> {
    match inner.name {
        Some(ident) => ident.name@,
        None => Seq::empty(),
    }
}

/// The inner names, each after a `::`.
pub open spec fn joined_inner(inner_names: Seq<InnerName>) -> Seq<char>
    decreases inner_names.len(),
{
    if inner_names.len() == 0 {
        Seq::empty()
    } else {
        joined_inner(inner_names.drop_last()) + DOUBLE_COLON@ + inner_text(inner_names.last())
    }
}

impl Named {
    /// The whole name as one: the name and the inner names, joined by
    /// `::`.
    pub open spec fn spec_flat_name(&self) -> Seq<char> {
        self.name.name@ + joined_inner(self.inner_names@)
    }

    /// The tokens of the whole name: from the start of the name to the
    /// end of the last inner name.
    pub open spec fn spec_flat_range(&self) -> TokenRange {
        if self.inner_names@.len() == 0 {
            self.name.info.range
        } else {
            self.name.info.range.start..self.inner_names@.last().info.range.end
        }
    }

    /// The whole name as one identifier: the name and the inner names,
    /// joined by `::`, spanning from the name to the last inner name.
    pub fn flatten_name(&self) -> (r: Ident)
        ensures
            r.name@ == self.spec_flat_name(),
            r.info.range == self.spec_flat_range(),
            r.info@.comments == self.name.info@.comments,
            r.info@.prelude == self.name.info@.prelude,
    {
        let mut name = self.name.name.clone();
        let mut info = self.name.info.duplicate();
        let mut i: usize = 0;
        proof {
            assert(self.inner_names@.take(0) =~= Seq::empty());
            assert(name@ + Seq::<char>::empty() =~= name@);
        }
        while i < self.inner_names.len()
            invariant
                i <= self.inner_names@.len(),
                name@ == self.name.name@ + joined_inner(self.inner_names@.take(i as int)),
            decreases self.inner_names@.len() - i,
        {
            proof {
                assert(self.inner_names@.take(i + 1).drop_last() =~= self.inner_names@.take(
                    i as int,
                ));
                assert(self.inner_names@.take(i + 1).last() == self.inner_names@[i as int]);
            }
            let ghost before = name@;
            name.append(DOUBLE_COLON);
            match &self.inner_names[i].name {
                Some(ident) => {
                    name.append(ident.name.as_str());
                },
                None => {
                    assert(name@ + Seq::<char>::empty() =~= name@);
                },
            }
            assert(name@ =~= self.name.name@ + joined_inner(self.inner_names@.take(i + 1)));
            i += 1;
        }
        proof {
            assert(self.inner_names@.take(i as int) =~= self.inner_names@);
        }
        let n = self.inner_names.len();
        if n > 0 {
            info.range = info.range.start..self.inner_names[n - 1].info.range.end;
        }
        Ident { name, info }
    }

    /// Whether the name and every inner name is there.
    pub open spec fn is_complete(&self) -> bool {
        forall|i: int| 0 <= i < self.inner_names@.len() ==> (#[trigger] self.inner_names@[i]).name is Some
    }

    /// The name followed by the inner names.
    pub open spec fn spec_names(&self) -> Seq<Seq<char>> {
        if self.is_complete() {
            seq![self.name.name@] + Seq::new(
                self.inner_names@.len(),
                |i: int| inner_text(self.inner_names@[i]),
            )
        } else {
            Seq::empty()
        }
    }

    /// The name followed by the inner names. Where an inner name is
    /// missing, the list is empty.
    pub fn names(&self) -> (r: Vec<&String>)
        ensures
            r@.len() == self.spec_names().len(),
            forall|i: int| 0 <= i < r@.len() ==> (#[trigger] r@[i])@ == self.spec_names()[i],
    {
        let mut names: Vec<&String> = Vec::new();
        names.push(&self.name.name);
        let mut i: usize = 0;
        while i < self.inner_names.len()
            invariant
                i <= self.inner_names@.len(),
                names@.len() == i + 1,
                names@[0]@ == self.name.name@,
                forall|j: int| 0 <= j < i ==> (#[trigger] self.inner_names@[j]).name is Some,
                forall|j: int|
                    0 <= j < i ==> (#[trigger] names@[j + 1])@ == inner_text(self.inner_names@[j]),
            decreases self.inner_names@.len() - i,
        {
            match &self.inner_names[i].name {
                Some(ident) => {
                    names.push(&ident.name);
                },
                None => {
                    return Vec::new();
                },
            }
            i += 1;
        }
        assert(self.is_complete());
        assert forall|k: int| 0 <= k < names@.len() implies (#[trigger] names@[k])@
            == self.spec_names()[k] by {
            if k > 0 {
                assert(names@[(k - 1) + 1]@ == inner_text(self.inner_names@[k - 1]));
            }
        }
        names
    }
}

/// `::` and the name after it.
#[derive(Clone, Debug, PartialEq, Eq)]
pub struct InnerName {
    pub double_colon: AstInfo,
    pub name: Option<Ident>,
    pub info: AstInfo,
}

/// What a name can be applied to.
#[derive(Debug, PartialEq, Eq)]
pub enum StructOrList {
    Struct(Struct),
    List(List),
}

/// A literal. Two literals are equal when they are of one kind and hold
/// the same.
#[derive(Clone, Debug, Eq)]
pub enum Primitive {
    String(PrimitiveValue),
    Char(PrimitiveValue),
    Number(PrimitiveValue),
    Bool(Bool),
    Null(AstInfo),
}

/// `as` and the name after it.
#[derive(Clone, Debug, PartialEq, Eq)]
pub struct Alias {
    pub as_kw: AstInfo,
    pub name: Option<AliasName>,
    pub info: AstInfo,
}

/// The name of an alias: a string or an identifier.
#[derive(Clone, Debug, PartialEq, Eq)]
pub enum AliasName {
    String(PrimitiveValue),
    Ident(Ident),
}

/// An identifier. Two identifiers are equal when their names are.
#[derive(Clone, Debug, Eq)]
pub struct Ident {
    pub name: String,
    pub info: AstInfo,
}

/// The raw lexeme of a literal. Two are equal when their lexemes are.
#[derive(Clone, Debug, Eq)]
pub struct PrimitiveValue {
    pub value: String,
    pub info: AstInfo,
}

/// The token `true` or `false`. Two are equal when their values are.
#[derive(Clone, Debug, Eq)]
pub struct Bool {
    pub value: bool,
    pub info: AstInfo,
}

/// Whether two colons follow each other somewhere in the bytes.
pub open spec fn has_double_colon(bytes: Seq<u8>) -> bool {
    exists|i: int| 0 <= i && i + 1 < bytes.len() && #[trigger] bytes[i] == 0x3a && bytes[i + 1] == 0x3a
}

impl Ident {
    /// A copy with the same content.
    pub fn duplicate(&self) -> (r: Self)
        ensures
            r.name@ == self.name@,
            r.info@ == self.info@,
            r.info.range == self.info.range,
    {
        Ident { name: self.name.clone(), info: self.info.duplicate() }
    }

    /// Whether the name holds `::`, as a flattened path does.
    pub open spec fn spec_is_flattened(&self) -> bool {
        has_double_colon(encode_utf8(self.name@))
    }

    /// Whether the name holds `::`, as a flattened path does.
    pub fn is_flattened(&self) -> (r: bool)
        ensures
            r == self.spec_is_flattened(),
    {
        let bytes = self.name.as_str().as_bytes();
        let n = bytes.len();
        if n < 2 {
            return false;
        }
        let mut i: usize = 0;
        while i < n - 1
            invariant
                n == bytes@.len(),
                n >= 2,
                i <= n - 1,
                bytes@ == encode_utf8(self.name@),
                forall|j: int| 0 <= j < i ==> !(#[trigger] bytes@[j] == 0x3a && bytes@[j + 1] == 0x3a),
            decreases n - i,
        {
            if bytes[i] == 0x3a && bytes[i + 1] == 0x3a {
                assert(bytes@[i as int] == 0x3a && bytes@[i + 1] == 0x3a);
                return true;
            }
            i += 1;
        }
        false
    }
}

impl PartialEq for Ident {
    fn eq(&self, other: &Self) -> (r: bool) {
        self.name == other.name
    }
}

impl PartialEqSpecImpl for Ident {
    open spec fn obeys_eq_spec() -> bool {
        true
    }

    open spec fn eq_spec(&self, other: &Self) -> bool {
        self.name@ == other.name@
    }
}

impl PartialEq for PrimitiveValue {
    fn eq(&self, other: &Self) -> (r: bool) {
        self.value == other.value
    }
}

impl PartialEqSpecImpl for PrimitiveValue {
    open spec fn obeys_eq_spec() -> bool {
        true
    }

    open spec fn eq_spec(&self, other: &Self) -> bool {
        self.value@ == other.value@
    }
}

impl PartialEq for Bool {
    fn eq(&self, other: &Self) -> (r: bool) {
        self.value == other.value
    }
}

impl PartialEqSpecImpl for Bool {
    open spec fn obeys_eq_spec() -> bool {
        true
    }

    open spec fn eq_spec(&self, other: &Self) -> bool {
        self.value == other.value
    }
}

impl PartialEq for Primitive {
    fn eq(&self, other: &Self) -> (r: bool) {
        match (self, other) {
            (Primitive::String(s1), Primitive::String(s2)) => s1.value == s2.value,
            (Primitive::Char(c1), Primitive::Char(c2)) => c1.value == c2.value,
            (Primitive::Number(n1), Primitive::Number(n2)) => n1.value == n2.value,
            (Primitive::Bool(b1), Primitive::Bool(b2)) => b1.value == b2.value,
            (Primitive::Null(_), Primitive::Null(_)) => true,
            _ => false,
        }
    }
}

impl PartialEqSpecImpl for Primitive {
    open spec fn obeys_eq_spec() -> bool {
        true
    }

    open spec fn eq_spec(&self, other: &Self) -> bool {
        match (*self, *other) {
            (Primitive::String(s1), Primitive::String(s2)) => s1.value@ == s2.value@,
            (Primitive::Char(c1), Primitive::Char(c2)) => c1.value@ == c2.value@,
            (Primitive::Number(n1), Primitive::Number(n2)) => n1.value@ == n2.value@,
            (Primitive::Bool(b1), Primitive::Bool(b2)) => b1.value == b2.value,
            (Primitive::Null(_), Primitive::Null(_)) => true,
            _ => false,
        }
    }
}

/// What a literal is, apart from where it stands.
pub ghost enum Literal {
    String(Seq<char>),
    Char(Seq<char>),
    Number(Seq<char>),
    Bool(bool),
    Null,
}

impl Literal {
    /// The literal as it is written.
    pub open spec fn text(self) -> Seq<char> {
        match self {
            Literal::String(value) => value,
            Literal::Char(value) => value,
            Literal::Number(value) => value,
            Literal::Bool(b) => if b { TRUE@ } else { FALSE@ },
            Literal::Null => NULL@,
        }
    }
}

/// The mathematical content of a [`Primitive`].
pub ghost struct PrimitiveView {
    pub literal: Literal,
    pub range: TokenRange,
}

impl View for Primitive {
    type V = PrimitiveView;

    open spec fn view(&self) -> PrimitiveView {
        PrimitiveView {
            literal: match self {
                Primitive::String(value) => Literal::String(value.value@),
                Primitive::Char(value) => Literal::Char(value.value@),
                Primitive::Number(value) => Literal::Number(value.value@),
                Primitive::Bool(b) => Literal::Bool(b.value),
                Primitive::Null(_) => Literal::Null,
            },
            range: self.spec_info().range,
        }
    }
}

impl Primitive {
    /// A copy with the same content.
    pub fn duplicate(&self) -> (r: Self)
        ensures
            r@ == self@,
            r.spec_str() == self.spec_str(),
    {
        match self {
            Primitive::String(value) => Primitive::String(
                PrimitiveValue { value: value.value.clone(), info: value.info.duplicate() },
            ),
            Primitive::Char(value) => Primitive::Char(
                PrimitiveValue { value: value.value.clone(), info: value.info.duplicate() },
            ),
            Primitive::Number(value) => Primitive::Number(
                PrimitiveValue { value: value.value.clone(), info: value.info.duplicate() },
            ),
            Primitive::Bool(b) => Primitive::Bool(Bool { value: b.value, info: b.info.duplicate() }),
            Primitive::Null(info) => Primitive::Null(info.duplicate()),
        }
    }

    /// The literal as it is written.
    pub open spec fn spec_str(&self) -> Seq<char> {
        match self {
            Primitive::String(value) => value.value@,
            Primitive::Char(value) => value.value@,
            Primitive::Number(value) => value.value@,
            Primitive::Bool(b) => if b.value { TRUE@ } else { FALSE@ },
            Primitive::Null(_) => NULL@,
        }
    }

    /// The literal as it is written.
    pub fn as_str(&self) -> (r: &str)
        ensures
            r@ == self.spec_str(),
    {
        match self {
            Primitive::String(value) => value.value.as_str(),
            Primitive::Char(value) => value.value.as_str(),
            Primitive::Number(value) => value.value.as_str(),
            Primitive::Bool(b) => if b.value { TRUE } else { FALSE },
            Primitive::Null(_) => NULL,
        }
    }

    pub open spec fn spec_info(&self) -> AstInfo {
        match self {
            Primitive::String(value) => value.info,
            Primitive::Char(value) => value.info,
            Primitive::Number(value) => value.info,
            Primitive::Bool(b) => b.info,
            Primitive::Null(info) => *info,
        }
    }

    pub fn info(&self) -> (r: &AstInfo)
        ensures
            *r == self.spec_info(),
    {
        match self {
            Primitive::String(value) => &value.info,
            Primitive::Char(value) => &value.info,
            Primitive::Number(value) => &value.info,
            Primitive::Bool(b) => &b.info,
            Primitive::Null(info) => info,
        }
    }
}

impl PrimitiveValue {
    pub fn new(tuple: (String, AstInfo)) -> (r: Self)
        ensures
            r.value == tuple.0,
            r.info == tuple.1,
    {
        let (value, info) = tuple;
        Self { value, info }
    }
}

impl Bool {
    pub fn new_true(info: AstInfo) -> (r: Self)
        ensures
            r.value,
            r.info == info,
    {
        Self { value: true, info }
    }

    pub fn new_false(info: AstInfo) -> (r: Self)
        ensures
            !r.value,
            r.info == info,
    {
        Self { value: false, info }
    }
}

} // verus!
