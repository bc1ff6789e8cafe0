//! Direct evaluation of an expression of the syntax tree: literals, lists
//! and structs become values, everything else is unknown.

pub mod value;

use crate::ast::{Expr, List, Named, Primitive, Single, Struct, StructField, StructFieldError, StructOrList};
use crate::eval::value::{fields_model, find_field, lemma_view_list, lemma_view_struct, list_model};
use crate::table::put;
pub use crate::eval::value::{Value, ValueView};
use vstd::prelude::*;
use vstd::string::*;

verus! {

/// The value of an optional expression: unknown where there is none.
pub open spec fn spec_eval_option(expr: Option<Expr>) -> ValueView
    decreases expr,
{
    match expr {
        Some(e) => e.spec_eval(),
        None => ValueView::Unknown,
    }
}

/// The fields that a struct's field list evaluates to: each field under
/// the name it is emitted as, a later field replacing an earlier one of
/// the same name.
pub open spec fn spec_eval_fields(
    fields: Seq<Result<StructField, StructFieldError>>,
) -> Seq<(Seq<char>, ValueView)>
    decreases fields,
{
    if fields.len() == 0 {
        Seq::empty()
    } else {
        let before = spec_eval_fields(fields.drop_last());
        match fields.last() {
            Ok(field) => put(before, field.spec_emit_name(), spec_eval_option(field.expr)),
            Err(_) => before,
        }
    }
}

impl Primitive {
    /// The value of a literal. A character literal is a string.
    pub open spec fn spec_eval(&self) -> ValueView {
        match self {
            Primitive::String(value) => ValueView::String(value.value@),
            Primitive::Char(value) => ValueView::String(value.value@),
            Primitive::Number(value) => ValueView::Number(value.value@),
            Primitive::Bool(b) => ValueView::Bool(b.value),
            Primitive::Null(_) => ValueView::Null,
        }
    }

    /// The value of a literal. A character literal is a string.
    pub fn eval(&self) -> (r: Value)
        ensures
            r@ == self.spec_eval(),
    {
        match self {
            Primitive::String(value) => Value::String(value.value.clone()),
            Primitive::Char(value) => Value::String(value.value.clone()),
            Primitive::Number(value) => Value::Number(value.value.clone()),
            Primitive::Bool(b) => Value::Bool(b.value),
            Primitive::Null(_) => Value::Null,
        }
    }
}

impl List {
    /// The list of the values of the items.
    pub open spec fn spec_eval(&self) -> ValueView
        decreases self,
    {
        ValueView::List(
            Seq::new(
                self.exprs@.len(),
                |i: int|
                    if 0 <= i < self.exprs@.len() {
                        self.exprs@[i].spec_eval()
                    } else {
                        ValueView::Unknown
                    },
            ),
        )
    }

    /// The list of the values of the items.
    pub fn eval(&self) -> (r: Value)
        ensures
            r@ == self.spec_eval(),
        decreases self,
    {
        let mut out: Vec<Value> = Vec::new();
        let mut i: usize = 0;
        while i < self.exprs.len()
            invariant
                i <= self.exprs@.len(),
                out@.len() == i,
                forall|j: int| 0 <= j < i ==> (#[trigger] out@[j])@ == self.exprs@[j].spec_eval(),
            decreases self.exprs@.len() - i,
        {
            out.push(self.exprs[i].eval());
            i += 1;
        }
        proof {
            lemma_view_list(out);
            assert(list_model(out@) =~= self.spec_eval()->List_0);
        }
        Value::List(out)
    }
}

impl Struct {
    /// The struct of the values of the fields.
    pub open spec fn spec_eval(&self) -> ValueView
        decreases self,
    {
        ValueView::Struct(spec_eval_fields(self.fields@))
    }

    /// The struct of the values of the fields: each under the name it is
    /// emitted as, unknown where the field has no value.
    pub fn eval(&self) -> (r: Value)
        ensures
            r@ == self.spec_eval(),
        decreases self,
    {
        let mut out: Vec<(String, Value)> = Vec::new();
        let mut i: usize = 0;
        assert(self.fields@.take(0) =~= Seq::empty());
        while i < self.fields.len()
            invariant
                i <= self.fields@.len(),
                fields_model(out@) == spec_eval_fields(self.fields@.take(i as int)),
            decreases self.fields@.len() - i,
        {
            proof {
                assert(self.fields@.take(i + 1).drop_last() =~= self.fields@.take(i as int));
                assert(self.fields@.take(i + 1).last() == self.fields@[i as int]);
            }
            let ghost before = fields_model(out@);
            match &self.fields[i] {
                Ok(field) => {
                    let value = match &field.expr {
                        Some(expr) => expr.eval(),
                        None => Value::Unknown,
                    };
                    let name = String::from_str(field.emit_name());
                    assert(value@ == spec_eval_option(field.expr));
                    match find_field(&out, &name) {
                        Some(j) => {
                            out[j] = (name, value);
                            assert(fields_model(out@) =~= before.update(j as int, (name@, value@)));
                        },
                        None => {
                            out.push((name, value));
                            assert(fields_model(out@) =~= before.push((name@, value@)));
                        },
                    }
                },
                Err(_) => {},
            }
            assert(fields_model(out@) == spec_eval_fields(self.fields@.take(i + 1)));
            i += 1;
        }
        proof {
            assert(self.fields@.take(i as int) =~= self.fields@);
            lemma_view_struct(out);
        }
        Value::Struct(out)
    }
}

impl Named {
    /// The value of the literal that a name is applied to; unknown for a
    /// bare name.
    pub open spec fn spec_eval(&self) -> ValueView
        decreases self,
    {
        match self.expr {
            Some(StructOrList::Struct(s)) => s.spec_eval(),
            Some(StructOrList::List(l)) => l.spec_eval(),
            None => ValueView::Unknown,
        }
    }

    /// The value of the literal that a name is applied to; unknown for a
    /// bare name.
    pub fn eval(&self) -> (r: Value)
        ensures
            r@ == self.spec_eval(),
        decreases self,
    {
        match &self.expr {
            Some(StructOrList::Struct(s)) => s.eval(),
            Some(StructOrList::List(l)) => l.eval(),
            None => Value::Unknown,
        }
    }
}

impl Single {
    pub open spec fn spec_eval(&self) -> ValueView
        decreases self,
    {
        match self {
            Single::Struct(s) => s.spec_eval(),
            Single::List(l) => l.spec_eval(),
            Single::Named(n) => n.spec_eval(),
            Single::Primitive(p) => p.spec_eval(),
        }
    }

    pub fn eval(&self) -> (r: Value)
        ensures
            r@ == self.spec_eval(),
        decreases self,
    {
        match self {
            Single::Struct(s) => s.eval(),
            Single::List(l) => l.eval(),
            Single::Named(n) => n.eval(),
            Single::Primitive(p) => p.eval(),
        }
    }
}

impl Expr {
    /// The value of an expression: that of a single expression; unknown
    /// for a union and for a span that was skipped.
    pub open spec fn spec_eval(&self) -> ValueView
        decreases self,
    {
        match self {
            Expr::Single(single) => single.spec_eval(),
            _ => ValueView::Unknown,
        }
    }

    /// The value of an expression: that of a single expression; unknown
    /// for a union and for a span that was skipped.
    pub fn eval(&self) -> (r: Value)
        ensures
            r@ == self.spec_eval(),
        decreases self,
    {
        match self {
            Expr::Single(single) => single.eval(),
            _ => Value::Unknown,
        }
    }
}

/// Evaluates an expression without regard to names: literals, lists and
/// structs become values, a name, a union or a skipped span is unknown.
pub fn eval(expr: &Expr) -> (r: Value)
    ensures
        r@ == expr.spec_eval(),
{
    expr.eval()
}

} // verus!
