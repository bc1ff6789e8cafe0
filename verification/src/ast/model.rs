//! The mathematical content of the syntax tree: every node with its
//! strings as character sequences and its lists as sequences.

use crate::ast::{
    Alias, AliasName, Ast, AstInfo, AstInfoView, Bool, Def, Expr, Global, Ident, InnerName, Let,
    List, Named, Primitive, Single, Struct, StructField, StructFieldError,
    StructOrList, Union, UnionAlternative, Use, UseBody, UseItem, UseItemError, UseItems, UseKind,
};
use vstd::prelude::*;

verus! {

pub ghost struct IdentModel {
    pub name: Seq<char>,
    pub info: AstInfoView,
}

pub ghost enum AliasNameModel {
    String(Seq<char>, AstInfoView),
    Ident(IdentModel),
}

pub ghost struct AliasModel {
    pub as_kw: AstInfoView,
    pub name: Option<AliasNameModel>,
    pub info: AstInfoView,
}

pub ghost enum PrimitiveModel {
    String(Seq<char>, AstInfoView),
    Char(Seq<char>, AstInfoView),
    Number(Seq<char>, AstInfoView),
    Bool(bool, AstInfoView),
    Null(AstInfoView),
}

pub ghost struct InnerNameModel {
    pub double_colon: AstInfoView,
    pub name: Option<IdentModel>,
    pub info: AstInfoView,
}

pub ghost struct UseBodyModel {
    pub double_colon: AstInfoView,
    pub kind: Option<UseKindModel>,
    pub info: AstInfoView,
}

pub ghost enum UseKindModel {
    All(AstInfoView),
    Single(UseItemModel),
    Multiple(UseItemsModel),
    Error(AstInfoView),
}

pub ghost struct UseItemModel {
    pub name: IdentModel,
    pub body: Option<Box<UseBodyModel>>,
    pub alias: Option<AliasModel>,
    pub info: AstInfoView,
}

pub ghost struct UseItemsModel {
    pub lcurly: AstInfoView,
    pub items: Seq<Result<UseItemModel, AstInfoView>>,
    pub rcurly: Option<AstInfoView>,
    pub info: AstInfoView,
}

pub ghost struct UseModel {
    pub use_kw: AstInfoView,
    pub name: Option<IdentModel>,
    pub body: Option<UseBodyModel>,
    pub alias: Option<AliasModel>,
    pub info: AstInfoView,
}

/// The content of a definition or of a let.
pub ghost struct BindingModel {
    pub keyword: AstInfoView,
    pub name: Option<IdentModel>,
    pub colon: Option<AstInfoView>,
    pub type_expr: Option<ExprModel>,
    pub eq: Option<AstInfoView>,
    pub expr: Option<ExprModel>,
    pub info: AstInfoView,
}

pub ghost enum ExprModel {
    Union(UnionModel),
    Single(SingleModel),
    Error(AstInfoView),
}

pub ghost struct UnionModel {
    pub single: SingleModel,
    pub alternatives: Seq<AlternativeModel>,
    pub info: AstInfoView,
}

pub ghost struct AlternativeModel {
    pub pipe: AstInfoView,
    pub single: Option<SingleModel>,
    pub info: AstInfoView,
}

pub ghost enum SingleModel {
    Struct(StructModel),
    List(ListModel),
    Named(NamedModel),
    Primitive(PrimitiveModel),
}

pub ghost struct StructModel {
    pub lcurly: AstInfoView,
    pub fields: Seq<Result<FieldModel, AstInfoView>>,
    pub rcurly: Option<AstInfoView>,
    pub info: AstInfoView,
}

pub ghost struct FieldModel {
    pub name: IdentModel,
    pub colon: Option<AstInfoView>,
    pub type_expr: Option<ExprModel>,
    pub eq: Option<AstInfoView>,
    pub expr: Option<ExprModel>,
    pub alias: Option<AliasModel>,
    pub info: AstInfoView,
}

pub ghost struct ListModel {
    pub lbracket: AstInfoView,
    pub exprs: Seq<ExprModel>,
    pub rbracket: Option<AstInfoView>,
    pub info: AstInfoView,
}

pub ghost enum AppliedModel {
    Struct(StructModel),
    List(ListModel),
}

pub ghost struct NamedModel {
    pub name: IdentModel,
    pub inner_names: Seq<InnerNameModel>,
    pub expr: Option<AppliedModel>,
    pub info: AstInfoView,
}

pub ghost enum GlobalModel {
    Use(UseModel),
    Def(BindingModel),
    Let(BindingModel),
    Init(ExprModel),
    Error(AstInfoView),
}

pub ghost struct AstModel {
    pub globals: Seq<GlobalModel>,
    pub info: AstInfoView,
}

impl View for Ident {
    type V = IdentModel;

    open spec fn view(&self) -> IdentModel {
        IdentModel { name: self.name@, info: self.info@ }
    }
}

impl View for AliasName {
    type V = AliasNameModel;

    open spec fn view(&self) -> AliasNameModel {
        match self {
            AliasName::String(value) => AliasNameModel::String(value.value@, value.info@),
            AliasName::Ident(ident) => AliasNameModel::Ident(ident@),
        }
    }
}

/// The content of an optional alias.
pub open spec fn alias_model(alias: Option<Alias>) -> Option<AliasModel> {
    match alias {
        Some(a) => Some(a@),
        None => None,
    }
}

/// The content of an optional identifier.
pub open spec fn ident_model(ident: Option<Ident>) -> Option<IdentModel> {
    match ident {
        Some(i) => Some(i@),
        None => None,
    }
}

/// The content of what an optional node carries.
pub open spec fn info_model(info: Option<AstInfo>) -> Option<AstInfoView> {
    match info {
        Some(i) => Some(i@),
        None => None,
    }
}

impl View for Alias {
    type V = AliasModel;

    open spec fn view(&self) -> AliasModel {
        AliasModel {
            as_kw: self.as_kw@,
            name: match self.name {
                Some(name) => Some(name@),
                None => None,
            },
            info: self.info@,
        }
    }
}

impl Primitive {
    /// The content of the literal and of what it carries.
    pub open spec fn model(&self) -> PrimitiveModel {
        match self {
            Primitive::String(value) => PrimitiveModel::String(value.value@, value.info@),
            Primitive::Char(value) => PrimitiveModel::Char(value.value@, value.info@),
            Primitive::Number(value) => PrimitiveModel::Number(value.value@, value.info@),
            Primitive::Bool(b) => PrimitiveModel::Bool(b.value, b.info@),
            Primitive::Null(info) => PrimitiveModel::Null(info@),
        }
    }
}

impl View for InnerName {
    type V = InnerNameModel;

    open spec fn view(&self) -> InnerNameModel {
        InnerNameModel {
            double_colon: self.double_colon@,
            name: ident_model(self.name),
            info: self.info@,
        }
    }
}

/// The contents of the inner names of a name.
pub open spec fn inner_models(inner_names: Seq<InnerName>) -> Seq<InnerNameModel> {
    Seq::new(inner_names.len(), |i: int| inner_names[i]@)
}

impl UseBody {
    pub open spec fn model(&self) -> UseBodyModel
        decreases self,
    {
        UseBodyModel {
            double_colon: self.double_colon@,
            kind: match self.kind {
                Some(kind) => Some(kind.model()),
                None => None,
            },
            info: self.info@,
        }
    }
}

impl UseKind {
    pub open spec fn model(&self) -> UseKindModel
        decreases self,
    {
        match self {
            UseKind::All(info) => UseKindModel::All(info@),
            UseKind::Single(item) => UseKindModel::Single(item.model()),
            UseKind::Multiple(items) => UseKindModel::Multiple(items.model()),
            UseKind::Error(info) => UseKindModel::Error(info@),
        }
    }
}

impl UseItem {
    pub open spec fn model(&self) -> UseItemModel
        decreases self,
    {
        UseItemModel {
            name: self.name@,
            body: match self.body {
                Some(body) => Some(Box::new(body.model())),
                None => None,
            },
            alias: alias_model(self.alias),
            info: self.info@,
        }
    }
}

/// The content of an item between braces, or of a span that was
/// skipped in its place.
pub open spec fn item_entry_model(entry: Result<UseItem, UseItemError>) -> Result<
    UseItemModel,
    AstInfoView,
>
    decreases entry,
{
    match entry {
        Ok(item) => Ok(item.model()),
        Err(error) => Err(error.info@),
    }
}

impl UseItems {
    pub open spec fn model(&self) -> UseItemsModel
        decreases self,
    {
        UseItemsModel {
            lcurly: self.lcurly@,
            items: Seq::new(
                self.items@.len(),
                |i: int|
                    if 0 <= i < self.items@.len() {
                        item_entry_model(self.items@[i])
                    } else {
                        arbitrary()
                    },
            ),
            rcurly: info_model(self.rcurly),
            info: self.info@,
        }
    }
}

/// The contents of the items between braces.
pub open spec fn item_models(items: Seq<Result<UseItem, UseItemError>>) -> Seq<
    Result<UseItemModel, AstInfoView>,
> {
    Seq::new(items.len(), |i: int| item_entry_model(items[i]))
}

impl View for Use {
    type V = UseModel;

    open spec fn view(&self) -> UseModel {
        UseModel {
            use_kw: self.use_kw@,
            name: ident_model(self.name),
            body: match self.body {
                Some(body) => Some(body.model()),
                None => None,
            },
            alias: alias_model(self.alias),
            info: self.info@,
        }
    }
}

/// The content of an optional expression.
pub open spec fn expr_model(expr: Option<Expr>) -> Option<ExprModel>
    decreases expr,
{
    match expr {
        Some(e) => Some(e.model()),
        None => None,
    }
}

/// The content of an optional single expression.
pub open spec fn single_model(single: Option<Single>) -> Option<SingleModel>
    decreases single,
{
    match single {
        Some(s) => Some(s.model()),
        None => None,
    }
}

impl Expr {
    pub open spec fn model(&self) -> ExprModel
        decreases self,
    {
        match self {
            Expr::Union(union) => ExprModel::Union(union.model()),
            Expr::Single(single) => ExprModel::Single(single.model()),
            Expr::Error(info) => ExprModel::Error(info@),
        }
    }
}

impl UnionAlternative {
    pub open spec fn model(&self) -> AlternativeModel
        decreases self,
    {
        AlternativeModel { pipe: self.pipe@, single: single_model(self.single), info: self.info@ }
    }
}

impl Union {
    pub open spec fn model(&self) -> UnionModel
        decreases self,
    {
        UnionModel {
            single: self.single.model(),
            alternatives: Seq::new(
                self.alternatives@.len(),
                |i: int|
                    if 0 <= i < self.alternatives@.len() {
                        self.alternatives@[i].model()
                    } else {
                        arbitrary()
                    },
            ),
            info: self.info@,
        }
    }
}

/// The contents of the alternatives of a union.
pub open spec fn alternative_models(alternatives: Seq<UnionAlternative>) -> Seq<AlternativeModel> {
    Seq::new(alternatives.len(), |i: int| alternatives[i].model())
}

impl Single {
    pub open spec fn model(&self) -> SingleModel
        decreases self,
    {
        match self {
            Single::Struct(s) => SingleModel::Struct(s.model()),
            Single::List(l) => SingleModel::List(l.model()),
            Single::Named(n) => SingleModel::Named(n.model()),
            Single::Primitive(p) => SingleModel::Primitive(p.model()),
        }
    }
}

impl StructField {
    pub open spec fn model(&self) -> FieldModel
        decreases self,
    {
        FieldModel {
            name: self.name@,
            colon: info_model(self.colon),
            type_expr: expr_model(self.type_expr),
            eq: info_model(self.eq),
            expr: expr_model(self.expr),
            alias: alias_model(self.alias),
            info: self.info@,
        }
    }
}

/// The content of a field of a struct, or of a span that was skipped in
/// its place.
pub open spec fn field_entry_model(entry: Result<StructField, StructFieldError>) -> Result<
    FieldModel,
    AstInfoView,
>
    decreases entry,
{
    match entry {
        Ok(field) => Ok(field.model()),
        Err(error) => Err(error.info@),
    }
}

impl Struct {
    pub open spec fn model(&self) -> StructModel
        decreases self,
    {
        StructModel {
            lcurly: self.lcurly@,
            fields: Seq::new(
                self.fields@.len(),
                |i: int|
                    if 0 <= i < self.fields@.len() {
                        field_entry_model(self.fields@[i])
                    } else {
                        arbitrary()
                    },
            ),
            rcurly: info_model(self.rcurly),
            info: self.info@,
        }
    }
}

/// The contents of the fields of a struct.
pub open spec fn field_models(fields: Seq<Result<StructField, StructFieldError>>) -> Seq<
    Result<FieldModel, AstInfoView>,
> {
    Seq::new(fields.len(), |i: int| field_entry_model(fields[i]))
}

impl List {
    pub open spec fn model(&self) -> ListModel
        decreases self,
    {
        ListModel {
            lbracket: self.lbracket@,
            exprs: Seq::new(
                self.exprs@.len(),
                |i: int|
                    if 0 <= i < self.exprs@.len() {
                        self.exprs@[i].model()
                    } else {
                        arbitrary()
                    },
            ),
            rbracket: info_model(self.rbracket),
            info: self.info@,
        }
    }
}

/// The contents of the items of a list.
pub open spec fn expr_models(exprs: Seq<Expr>) -> Seq<ExprModel> {
    Seq::new(exprs.len(), |i: int| exprs[i].model())
}

impl StructOrList {
    pub open spec fn model(&self) -> AppliedModel
        decreases self,
    {
        match self {
            StructOrList::Struct(s) => AppliedModel::Struct(s.model()),
            StructOrList::List(l) => AppliedModel::List(l.model()),
        }
    }
}

impl Named {
    pub open spec fn model(&self) -> NamedModel
        decreases self,
    {
        NamedModel {
            name: self.name@,
            inner_names: inner_models(self.inner_names@),
            expr: match self.expr {
                Some(expr) => Some(expr.model()),
                None => None,
            },
            info: self.info@,
        }
    }
}

impl View for Def {
    type V = BindingModel;

    open spec fn view(&self) -> BindingModel {
        BindingModel {
            keyword: self.def_kw@,
            name: ident_model(self.name),
            colon: info_model(self.colon),
            type_expr: expr_model(self.type_expr),
            eq: info_model(self.eq),
            expr: expr_model(self.expr),
            info: self.info@,
        }
    }
}

impl View for Let {
    type V = BindingModel;

    open spec fn view(&self) -> BindingModel {
        BindingModel {
            keyword: self.let_kw@,
            name: ident_model(self.name),
            colon: info_model(self.colon),
            type_expr: expr_model(self.type_expr),
            eq: info_model(self.eq),
            expr: expr_model(self.expr),
            info: self.info@,
        }
    }
}

impl View for Global {
    type V = GlobalModel;

    open spec fn view(&self) -> GlobalModel {
        match self {
            Global::Use(u) => GlobalModel::Use(u@),
            Global::Def(d) => GlobalModel::Def(d@),
            Global::Let(l) => GlobalModel::Let(l@),
            Global::Init(e) => GlobalModel::Init(e.model()),
            Global::Error(info) => GlobalModel::Error(info@),
        }
    }
}

/// The contents of a list of globals.
pub open spec fn global_models(globals: Seq<Global>) -> Seq<GlobalModel> {
    Seq::new(globals.len(), |i: int| globals[i]@)
}

impl View for Ast {
    type V = AstModel;

    open spec fn view(&self) -> AstModel {
        AstModel { globals: global_models(self.globals@), info: self.info@ }
    }
}

/// The content of a struct holds the contents of its fields.
pub proof fn lemma_struct_model(s: Struct)
    ensures
        s.model().fields == field_models(s.fields@),
{
    assert(s.model().fields =~= field_models(s.fields@));
}

/// The content of a list holds the contents of its items.
pub proof fn lemma_list_model(l: List)
    ensures
        l.model().exprs == expr_models(l.exprs@),
{
    assert(l.model().exprs =~= expr_models(l.exprs@));
}

/// The content of a union holds the contents of its alternatives.
pub proof fn lemma_union_model(u: Union)
    ensures
        u.model().alternatives == alternative_models(u.alternatives@),
{
    assert(u.model().alternatives =~= alternative_models(u.alternatives@));
}

/// The content of the items between braces holds the content of each.
pub proof fn lemma_items_model(items: UseItems)
    ensures
        items.model().items == item_models(items.items@),
{
    assert(items.model().items =~= item_models(items.items@));
}

} // verus!
