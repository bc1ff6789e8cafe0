//! What it means that a tree lies within a number of tokens: every node
//! spans tokens before that number, and ends no earlier than it starts.

use crate::ast::{
    Alias, Ast, AstInfo, Def, Expr, Global, Ident, Let, List, Named, Primitive, Single,
    Struct, StructField, StructFieldError, StructOrList, Union, UnionAlternative, Use, UseBody,
    UseItem, UseItemError, UseItems, UseKind,
};
use crate::token::TokenRange;
use vstd::prelude::*;

verus! {

/// Whether a range ends no earlier than it starts, and within the first
/// `n` tokens.
pub open spec fn range_within(range: TokenRange, n: int) -> bool {
    range.start <= range.end <= n
}

/// Whether a node spans tokens among the first `n`.
pub open spec fn info_within(info: AstInfo, n: int) -> bool {
    range_within(info.range, n)
}

/// Whether a node that may be missing spans tokens among the first `n`.
pub open spec fn option_within(info: Option<AstInfo>, n: int) -> bool {
    match info {
        Some(i) => info_within(i, n),
        None => true,
    }
}

/// Whether an identifier that may be missing spans tokens among the
/// first `n`.
pub open spec fn ident_within(ident: Option<Ident>, n: int) -> bool {
    match ident {
        Some(i) => info_within(i.info, n),
        None => true,
    }
}

/// Whether an alias that may be missing spans tokens among the first
/// `n`.
pub open spec fn alias_within(alias: Option<Alias>, n: int) -> bool {
    match alias {
        Some(a) => info_within(a.info, n),
        None => true,
    }
}

/// Whether an expression that may be missing lies within the first `n`
/// tokens.
pub open spec fn expr_within(expr: Option<Expr>, n: int) -> bool
    decreases expr,
{
    match expr {
        Some(e) => e.within(n),
        None => true,
    }
}

impl Primitive {
    pub open spec fn within(&self, n: int) -> bool {
        info_within(self.spec_info(), n)
    }
}

impl Expr {
    /// Whether every node of the expression spans tokens among the
    /// first `n`.
    pub open spec fn within(&self, n: int) -> bool
        decreases self,
    {
        match self {
            Expr::Union(union) => union.within(n),
            Expr::Single(single) => single.within(n),
            Expr::Error(info) => info_within(*info, n),
        }
    }
}

impl UnionAlternative {
    pub open spec fn within(&self, n: int) -> bool
        decreases self,
    {
        info_within(self.info, n) && match self.single {
            Some(single) => single.within(n),
            None => true,
        }
    }
}

impl Union {
    pub open spec fn within(&self, n: int) -> bool
        decreases self,
    {
        &&& info_within(self.info, n)
        &&& self.single.within(n)
        &&& forall|i: int|
            0 <= i < self.alternatives@.len() ==> (#[trigger] self.alternatives@[i]).within(n)
    }
}

impl Single {
    pub open spec fn within(&self, n: int) -> bool
        decreases self,
    {
        match self {
            Single::Struct(s) => s.within(n),
            Single::List(l) => l.within(n),
            Single::Named(named) => named.within(n),
            Single::Primitive(p) => p.within(n),
        }
    }
}

impl StructField {
    pub open spec fn within(&self, n: int) -> bool
        decreases self,
    {
        &&& info_within(self.info, n)
        &&& info_within(self.name.info, n)
        &&& expr_within(self.type_expr, n)
        &&& expr_within(self.expr, n)
    }
}

/// Whether a field of a struct, or the span skipped in its place, lies
/// within the first `n` tokens.
pub open spec fn field_within(entry: Result<StructField, StructFieldError>, n: int) -> bool
    decreases entry,
{
    match entry {
        Ok(field) => field.within(n),
        Err(_) => true,
    }
}

impl Struct {
    pub open spec fn within(&self, n: int) -> bool
        decreases self,
    {
        &&& info_within(self.info, n)
        &&& forall|i: int|
            0 <= i < self.fields@.len() ==> field_within(#[trigger] self.fields@[i], n)
    }
}

impl List {
    pub open spec fn within(&self, n: int) -> bool
        decreases self,
    {
        &&& info_within(self.info, n)
        &&& forall|i: int| 0 <= i < self.exprs@.len() ==> (#[trigger] self.exprs@[i]).within(n)
    }
}

impl StructOrList {
    pub open spec fn within(&self, n: int) -> bool
        decreases self,
    {
        match self {
            StructOrList::Struct(s) => s.within(n),
            StructOrList::List(l) => l.within(n),
        }
    }
}

impl Named {
    /// Whether every node of the name spans tokens among the first `n`,
    /// and every inner name ends after the name starts.
    pub open spec fn within(&self, n: int) -> bool
        decreases self,
    {
        &&& info_within(self.info, n)
        &&& info_within(self.name.info, n)
        &&& forall|i: int|
            0 <= i < self.inner_names@.len() ==> self.name.info.range.start <= (
            #[trigger] self.inner_names@[i]).info.range.end <= n
        &&& match self.expr {
            Some(expr) => expr.within(n),
            None => true,
        }
    }
}

impl UseBody {
    pub open spec fn within(&self, n: int) -> bool
        decreases self,
    {
        match self.kind {
            Some(kind) => kind.within(n),
            None => true,
        }
    }
}

impl UseKind {
    pub open spec fn within(&self, n: int) -> bool
        decreases self,
    {
        match self {
            UseKind::All(info) => info_within(*info, n),
            UseKind::Single(item) => item.within(n),
            UseKind::Multiple(items) => items.within(n),
            UseKind::Error(_) => true,
        }
    }
}

impl UseItem {
    pub open spec fn within(&self, n: int) -> bool
        decreases self,
    {
        &&& info_within(self.info, n)
        &&& alias_within(self.alias, n)
        &&& match self.body {
            Some(body) => body.within(n),
            None => true,
        }
    }
}

/// Whether an item between braces, or the span skipped in its place,
/// lies within the first `n` tokens.
pub open spec fn item_within(entry: Result<UseItem, UseItemError>, n: int) -> bool
    decreases entry,
{
    match entry {
        Ok(item) => item.within(n),
        Err(_) => true,
    }
}

impl UseItems {
    pub open spec fn within(&self, n: int) -> bool
        decreases self,
    {
        forall|i: int| 0 <= i < self.items@.len() ==> item_within(#[trigger] self.items@[i], n)
    }
}

impl Use {
    pub open spec fn within(&self, n: int) -> bool {
        info_within(self.info, n) && match self.body {
            Some(body) => body.within(n),
            None => true,
        }
    }
}

impl Def {
    pub open spec fn within(&self, n: int) -> bool {
        &&& info_within(self.info, n)
        &&& ident_within(self.name, n)
        &&& expr_within(self.type_expr, n)
        &&& expr_within(self.expr, n)
    }
}

impl Let {
    pub open spec fn within(&self, n: int) -> bool {
        &&& info_within(self.info, n)
        &&& ident_within(self.name, n)
        &&& expr_within(self.type_expr, n)
        &&& expr_within(self.expr, n)
    }
}

impl Global {
    pub open spec fn within(&self, n: int) -> bool {
        match self {
            Global::Use(u) => u.within(n),
            Global::Def(d) => d.within(n),
            Global::Let(l) => l.within(n),
            Global::Init(e) => e.within(n),
            Global::Error(_) => true,
        }
    }
}

/// Whether each of the globals lies within the first `n` tokens.
pub open spec fn globals_within(globals: Seq<Global>, n: int) -> bool {
    forall|i: int| 0 <= i < globals.len() ==> (#[trigger] globals[i]).within(n)
}

impl Ast {
    /// Whether every node of the tree lies within the tokens that the
    /// tree spans.
    pub open spec fn wf(&self) -> bool {
        info_within(self.info, self.info.range.end as int) && globals_within(
            self.globals@,
            self.info.range.end as int,
        )
    }
}

} // verus!
