//! The values that evaluation produces.

use crate::table::{holds, is_place, lemma_place, place};
use vstd::prelude::*;
use vstd::std_specs::cmp::PartialEqSpecImpl;
use vstd::std_specs::convert::FromSpecImpl;
use vstd::string::*;

verus! {

/// The result of evaluating an expression. A struct holds its fields in
/// the order in which they were first given. Two values are equal
/// whatever the order of the fields of their structs.
#[derive(Debug, Eq)]
pub enum Value {
    Unknown,
    Null,
    Bool(bool),
    Number(String),
    String(String),
    List(Vec<Value>),
    Struct(Vec<(String, Value)>),
}

/// The mathematical content of a [`Value`].
pub ghost enum ValueView {
    Unknown,
    Null,
    Bool(bool),
    Number(Seq<char>),
    String(Seq<char>),
    List(Seq<ValueView>),
    Struct(Seq<(Seq<char>, ValueView)>),
}

impl View for Value {
    type V = ValueView;

    open spec fn view(&self) -> ValueView {
        self.model()
    }
}

impl Value {
    /// The content of the value: strings as character sequences, lists and
    /// structs as sequences.
    pub open spec fn model(&self) -> ValueView
        decreases self,
    {
        match self {
            Value::Unknown => ValueView::Unknown,
            Value::Null => ValueView::Null,
            Value::Bool(b) => ValueView::Bool(*b),
            Value::Number(n) => ValueView::Number(n@),
            Value::String(s) => ValueView::String(s@),
            Value::List(l) => ValueView::List(
                Seq::new(
                    l@.len(),
                    |i: int|
                        if 0 <= i < l@.len() {
                            l@[i].model()
                        } else {
                            ValueView::Unknown
                        },
                ),
            ),
            Value::Struct(s) => ValueView::Struct(
                Seq::new(
                    s@.len(),
                    |i: int|
                        if 0 <= i < s@.len() {
                            (s@[i].0@, s@[i].1.model())
                        } else {
                            (Seq::empty(), ValueView::Unknown)
                        },
                ),
            ),
        }
    }
}

impl ValueView {
    /// Whether the value holds no `Unknown`.
    pub open spec fn is_known(self) -> bool
        decreases self,
    {
        match self {
            ValueView::Unknown => false,
            ValueView::List(l) => forall|i: int| 0 <= i < l.len() ==> (#[trigger] l[i]).is_known(),
            ValueView::Struct(s) => forall|i: int|
                0 <= i < s.len() ==> (#[trigger] s[i]).1.is_known(),
            _ => true,
        }
    }
}

/// The views of the items of a list.
pub open spec fn list_model(l: Seq<Value>) -> Seq<ValueView> {
    Seq::new(l.len(), |i: int| l[i]@)
}

/// The views of the fields of a struct.
pub open spec fn fields_model(s: Seq<(String, Value)>) -> Seq<(Seq<char>, ValueView)> {
    Seq::new(s.len(), |i: int| (s[i].0@, s[i].1@))
}

/// The view of a list is the list of its items' views.
pub proof fn lemma_view_list(l: Vec<Value>)
    ensures
        Value::List(l)@ == ValueView::List(list_model(l@)),
{
    reveal_with_fuel(Value::model, 2);
    assert(Value::List(l)@->List_0 =~= list_model(l@));
}

/// The view of a struct is the list of its fields' views.
pub proof fn lemma_view_struct(s: Vec<(String, Value)>)
    ensures
        Value::Struct(s)@ == ValueView::Struct(fields_model(s@)),
{
    reveal_with_fuel(Value::model, 2);
    assert(Value::Struct(s)@->Struct_0 =~= fields_model(s@));
}

impl ValueView {
    /// The value with the fields of `other` merged in: where both are
    /// structs, a field that only `other` has is added after the fields
    /// of `self`, and a field that both have keeps the value of `self`
    /// with the value of `other` merged into it. In every other case the
    /// value stays what it is.
    pub open spec fn merged(self, other: ValueView) -> ValueView
        decreases other, 0int,
    {
        match (self, other) {
            (ValueView::Struct(own), ValueView::Struct(sup)) => ValueView::Struct(
                ValueView::merged_fields(own, sup),
            ),
            _ => self,
        }
    }

    /// The fields `own` after each field of `sup` was merged in, in turn.
    pub open spec fn merged_fields(
        own: Seq<(Seq<char>, ValueView)>,
        sup: Seq<(Seq<char>, ValueView)>,
    ) -> Seq<(Seq<char>, ValueView)>
        decreases sup, 1int,
    {
        if sup.len() == 0 {
            own
        } else {
            let field = sup.last();
            let before = ValueView::merged_fields(own, sup.drop_last());
            if holds(before, field.0) {
                let i = place(before, field.0);
                before.update(i, (field.0, before[i].1.merged(field.1)))
            } else {
                before.push(field)
            }
        }
    }
}

/// The first place at which the fields hold the key, if they hold it.
pub fn find_field(fields: &Vec<(String, Value)>, key: &String) -> (r: Option<usize>)
    ensures
        r.is_some() == holds(fields_model(fields@), key@),
        r matches Some(i) ==> is_place(fields_model(fields@), key@, i as int) && i == place(
            fields_model(fields@),
            key@,
        ),
{
    let mut i: usize = 0;
    while i < fields.len()
        invariant
            i <= fields@.len(),
            forall|j: int| 0 <= j < i ==> (#[trigger] fields_model(fields@)[j]).0 != key@,
        decreases fields@.len() - i,
    {
        if fields[i].0 == *key {
            assert(is_place(fields_model(fields@), key@, i as int));
            return Some(i);
        }
        i += 1;
    }
    None
}

impl Value {
    /// Whether this value is entirely known: it holds no `Unknown`.
    pub fn is_known(&self) -> (r: bool)
        ensures
            r == self@.is_known(),
        decreases self,
    {
        match self {
            Value::Unknown => false,
            Value::Null | Value::Bool(_) | Value::Number(_) | Value::String(_) => true,
            Value::List(l) => {
                proof {
                    lemma_view_list(*l);
                }
                let mut i: usize = 0;
                while i < l.len()
                    invariant
                        i <= l@.len(),
                        *self == Value::List(*l),
                        forall|j: int| 0 <= j < i ==> (#[trigger] l@[j])@.is_known(),
                    decreases l@.len() - i,
                {
                    if !l[i].is_known() {
                        proof {
                            lemma_view_list(*l);
                            assert(self@->List_0[i as int] == l@[i as int]@);
                        }
                        return false;
                    }
                    i += 1;
                }
                true
            },
            Value::Struct(s) => {
                proof {
                    lemma_view_struct(*s);
                }
                let mut i: usize = 0;
                while i < s.len()
                    invariant
                        i <= s@.len(),
                        *self == Value::Struct(*s),
                        forall|j: int| 0 <= j < i ==> (#[trigger] s@[j]).1@.is_known(),
                    decreases s@.len() - i,
                {
                    if !s[i].1.is_known() {
                        proof {
                            lemma_view_struct(*s);
                            assert(self@->Struct_0[i as int].1 == s@[i as int].1@);
                        }
                        return false;
                    }
                    i += 1;
                }
                true
            },
        }
    }

    /// A copy with the same content.
    pub fn duplicate(&self) -> (r: Value)
        ensures
            r@ == self@,
        decreases self,
    {
        match self {
            Value::Unknown => Value::Unknown,
            Value::Null => Value::Null,
            Value::Bool(b) => Value::Bool(*b),
            Value::Number(n) => Value::Number(n.clone()),
            Value::String(s) => Value::String(s.clone()),
            Value::List(l) => {
                let mut out: Vec<Value> = Vec::new();
                let mut i: usize = 0;
                while i < l.len()
                    invariant
                        i <= l@.len(),
                        *self == Value::List(*l),
                        out@.len() == i,
                        forall|j: int| 0 <= j < i ==> (#[trigger] out@[j])@ == l@[j]@,
                    decreases l@.len() - i,
                {
                    assert(self->List_0 == *l);
                    out.push(l[i].duplicate());
                    i += 1;
                }
                proof {
                    lemma_view_list(*l);
                    lemma_view_list(out);
                    assert(list_model(out@) =~= list_model(l@));
                }
                Value::List(out)
            },
            Value::Struct(s) => {
                let mut out: Vec<(String, Value)> = Vec::new();
                let mut i: usize = 0;
                while i < s.len()
                    invariant
                        i <= s@.len(),
                        *self == Value::Struct(*s),
                        out@.len() == i,
                        forall|j: int|
                            0 <= j < i ==> (#[trigger] out@[j]).0@ == s@[j].0@ && out@[j].1@
                                == s@[j].1@,
                    decreases s@.len() - i,
                {
                    assert(self->Struct_0 == *s);
                    out.push((s[i].0.clone(), s[i].1.duplicate()));
                    i += 1;
                }
                proof {
                    lemma_view_struct(*s);
                    lemma_view_struct(out);
                    assert(fields_model(out@) =~= fields_model(s@));
                }
                Value::Struct(out)
            },
        }
    }

    /// Merges the fields of `other` into `self`. Fields that `self`
    /// already has are kept; where both values of a field are structs,
    /// they are merged in turn. If either value is no struct, nothing
    /// happens.
    pub fn merge_fields(&mut self, other: Self)
        ensures
            final(self)@ == old(self)@.merged(other@),
        decreases other@,
    {
        match self {
            Value::Struct(this) => {
                match &other {
                    Value::Struct(sup) => {
                        proof {
                            lemma_view_struct(*this);
                            lemma_view_struct(*sup);
                        }
                        let ghost own = fields_model(this@);
                        let mut i: usize = 0;
                        while i < sup.len()
                            invariant
                                i <= sup@.len(),
                                other == Value::Struct(*sup),
                                fields_model(this@) == ValueView::merged_fields(
                                    own,
                                    fields_model(sup@).take(i as int),
                                ),
                            decreases sup@.len() - i,
                        {
                            let ghost before = fields_model(this@);
                            let ghost field = fields_model(sup@)[i as int];
                            proof {
                                lemma_view_struct(*sup);
                                assert(fields_model(sup@).take(i + 1).drop_last()
                                    =~= fields_model(sup@).take(i as int));
                                assert(fields_model(sup@).take(i + 1).last() == field);
                            }
                            match find_field(this, &sup[i].0) {
                                Some(j) => {
                                    proof {
                                        assert(place(before, field.0) == j);
                                    }
                                    let value = sup[i].1.duplicate();
                                    proof {
                                        assert(other@->Struct_0 == fields_model(sup@));
                                        assert(value@ == other@->Struct_0[i as int].1);
                                    }
                                    this[j].1.merge_fields(value);
                                    assert(fields_model(this@) =~= before.update(
                                        j as int,
                                        (field.0, before[j as int].1.merged(field.1)),
                                    ));
                                },
                                None => {
                                    this.push((sup[i].0.clone(), sup[i].1.duplicate()));
                                    assert(fields_model(this@) =~= before.push(field));
                                },
                            }
                            i += 1;
                        }
                        proof {
                            assert(fields_model(sup@).take(i as int) =~= fields_model(sup@));
                            lemma_view_struct(*this);
                        }
                    },
                    _ => {},
                }
            },
            _ => {},
        }
    }
}


impl ValueView {
    /// Whether two values are the same: lists item by item, structs
    /// field by field whatever the order of the fields, anything else if
    /// it is equal.
    pub open spec fn same(self, other: ValueView) -> bool
        decreases self, 0nat,
    {
        match (self, other) {
            (ValueView::List(l1), ValueView::List(l2)) => l1.len() == l2.len()
                && ValueView::same_items(l1, l2, l1.len()),
            (ValueView::Struct(s1), ValueView::Struct(s2)) => ValueView::fields_within(
                s1,
                s2,
                s1.len(),
            ) && keys_within(s2, s1, s2.len()),
            (ValueView::List(_), _) => false,
            (ValueView::Struct(_), _) => false,
            _ => self == other,
        }
    }

    /// Whether the first `n` items of two lists are the same.
    pub open spec fn same_items(l1: Seq<ValueView>, l2: Seq<ValueView>, n: nat) -> bool
        decreases l1, n,
    {
        n == 0 || (n <= l1.len() && n <= l2.len() && ValueView::same_items(
            l1,
            l2,
            (n - 1) as nat,
        ) && l1[n - 1].same(l2[n - 1]))
    }

    /// Whether each of the first `n` fields of `s1` is a field of `s2`,
    /// with the same value.
    pub open spec fn fields_within(
        s1: Seq<(Seq<char>, ValueView)>,
        s2: Seq<(Seq<char>, ValueView)>,
        n: nat,
    ) -> bool
        decreases s1, n,
    {
        n == 0 || (n <= s1.len() && ValueView::fields_within(s1, s2, (n - 1) as nat) && holds(
            s2,
            s1[n - 1].0,
        ) && ({
            proof {
                assert(s1[n - 1].0 == s1[n - 1].0);
                lemma_place(s1, s1[n - 1].0);
            }
            s1[place(s1, s1[n - 1].0)].1.same(s2[place(s2, s1[n - 1].0)].1)
        }))
    }
}

/// Whether each of the first `n` fields of `s1` is a field of `s2`.
pub open spec fn keys_within(
    s1: Seq<(Seq<char>, ValueView)>,
    s2: Seq<(Seq<char>, ValueView)>,
    n: nat,
) -> bool
    decreases n,
{
    n == 0 || (n <= s1.len() && keys_within(s1, s2, (n - 1) as nat) && holds(s2, s1[n - 1].0))
}

impl Value {
    /// Whether two values are the same, whatever the order of the fields
    /// of their structs.
    pub fn same_as(&self, other: &Value) -> (r: bool)
        ensures
            r == self@.same(other@),
        decreases self,
    {
        match (self, other) {
            (Value::Unknown, Value::Unknown) => true,
            (Value::Null, Value::Null) => true,
            (Value::Bool(a), Value::Bool(b)) => *a == *b,
            (Value::Number(a), Value::Number(b)) => *a == *b,
            (Value::String(a), Value::String(b)) => *a == *b,
            (Value::List(l1), Value::List(l2)) => {
                proof {
                    lemma_view_list(*l1);
                    lemma_view_list(*l2);
                }
                if l1.len() != l2.len() {
                    return false;
                }
                let mut i: usize = 0;
                while i < l1.len()
                    invariant
                        i <= l1@.len(),
                        l1@.len() == l2@.len(),
                        *self == Value::List(*l1),
                        self@ == ValueView::List(list_model(l1@)),
                        other@ == ValueView::List(list_model(l2@)),
                        ValueView::same_items(list_model(l1@), list_model(l2@), i as nat),
                    decreases l1@.len() - i,
                {
                    assert(self->List_0 == *l1);
                    if !l1[i].same_as(&l2[i]) {
                        assert(!ValueView::same_items(
                            list_model(l1@),
                            list_model(l2@),
                            (i + 1) as nat,
                        ));
                        proof {
                            if ValueView::same_items(
                                list_model(l1@),
                                list_model(l2@),
                                l1@.len() as nat,
                            ) {
                                lemma_same_items_prefix(
                                    list_model(l1@),
                                    list_model(l2@),
                                    (i + 1) as nat,
                                    l1@.len() as nat,
                                );
                            }
                        }
                        return false;
                    }
                    i += 1;
                }
                true
            },
            (Value::Struct(s1), Value::Struct(s2)) => {
                proof {
                    lemma_view_struct(*s1);
                    lemma_view_struct(*s2);
                }
                let ghost m1 = fields_model(s1@);
                let ghost m2 = fields_model(s2@);
                let mut i: usize = 0;
                while i < s1.len()
                    invariant
                        i <= s1@.len(),
                        *self == Value::Struct(*s1),
                        self@ == ValueView::Struct(m1),
                        other@ == ValueView::Struct(m2),
                        m1 == fields_model(s1@),
                        m2 == fields_model(s2@),
                        ValueView::fields_within(m1, m2, i as nat),
                    decreases s1@.len() - i,
                {
                    assert(self->Struct_0 == *s1);
                    let key = &s1[i].0;
                    assert(m1[i as int].0 == key@);
                    let found = match (find_field(s1, key), find_field(s2, key)) {
                        (Some(p1), Some(p2)) => s1[p1].1.same_as(&s2[p2].1),
                        _ => false,
                    };
                    if !found {
                        assert(!ValueView::fields_within(m1, m2, (i + 1) as nat));
                        proof {
                            if ValueView::fields_within(m1, m2, m1.len()) {
                                lemma_fields_within_prefix(m1, m2, (i + 1) as nat, m1.len());
                            }
                        }
                        return false;
                    }
                    i += 1;
                }
                let mut k: usize = 0;
                while k < s2.len()
                    invariant
                        k <= s2@.len(),
                        self@ == ValueView::Struct(m1),
                        other@ == ValueView::Struct(m2),
                        m1 == fields_model(s1@),
                        m2 == fields_model(s2@),
                        ValueView::fields_within(m1, m2, m1.len()),
                        keys_within(m2, m1, k as nat),
                    decreases s2@.len() - k,
                {
                    let key = &s2[k].0;
                    assert(m2[k as int].0 == key@);
                    if find_field(s1, key).is_none() {
                        assert(!keys_within(m2, m1, (k + 1) as nat));
                        proof {
                            if keys_within(m2, m1, m2.len()) {
                                lemma_keys_within_prefix(m2, m1, (k + 1) as nat, m2.len());
                            }
                        }
                        return false;
                    }
                    k += 1;
                }
                true
            },
            _ => false,
        }
    }
}

/// Lists whose first items differ are not the same.
proof fn lemma_same_items_prefix(l1: Seq<ValueView>, l2: Seq<ValueView>, n: nat, m: nat)
    requires
        n <= m,
        ValueView::same_items(l1, l2, m),
    ensures
        ValueView::same_items(l1, l2, n),
    decreases m,
{
    if n < m {
        lemma_same_items_prefix(l1, l2, n, (m - 1) as nat);
    }
}

/// Fields that are all within are within for each prefix.
proof fn lemma_fields_within_prefix(
    s1: Seq<(Seq<char>, ValueView)>,
    s2: Seq<(Seq<char>, ValueView)>,
    n: nat,
    m: nat,
)
    requires
        n <= m,
        ValueView::fields_within(s1, s2, m),
    ensures
        ValueView::fields_within(s1, s2, n),
    decreases m,
{
    if n < m {
        lemma_fields_within_prefix(s1, s2, n, (m - 1) as nat);
    }
}

/// Keys that are all within are within for each prefix.
proof fn lemma_keys_within_prefix(
    s1: Seq<(Seq<char>, ValueView)>,
    s2: Seq<(Seq<char>, ValueView)>,
    n: nat,
    m: nat,
)
    requires
        n <= m,
        keys_within(s1, s2, m),
    ensures
        keys_within(s1, s2, n),
    decreases m,
{
    if n < m {
        lemma_keys_within_prefix(s1, s2, n, (m - 1) as nat);
    }
}

impl PartialEq for Value {
    fn eq(&self, other: &Self) -> (r: bool) {
        self.same_as(other)
    }
}

impl PartialEqSpecImpl for Value {
    open spec fn obeys_eq_spec() -> bool {
        true
    }

    open spec fn eq_spec(&self, other: &Self) -> bool {
        self@.same(other@)
    }
}

impl From<String> for Value {
    fn from(value: String) -> (r: Self) {
        Value::String(value)
    }
}

impl FromSpecImpl<String> for Value {
    open spec fn obeys_from_spec() -> bool {
        true
    }

    open spec fn from_spec(value: String) -> Self {
        Value::String(value)
    }
}

impl From<bool> for Value {
    fn from(value: bool) -> (r: Self) {
        Value::Bool(value)
    }
}

impl FromSpecImpl<bool> for Value {
    open spec fn obeys_from_spec() -> bool {
        true
    }

    open spec fn from_spec(value: bool) -> Self {
        Value::Bool(value)
    }
}

impl Clone for Value {
    fn clone(&self) -> (r: Self)
        ensures
            r@ == self@,
    {
        self.duplicate()
    }
}

} // verus!
