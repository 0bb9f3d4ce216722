//! Values, their mathematical model, and equality and copying decided on the model.

use vstd::prelude::*;
use crate::array::Array;

verus! {

/// A binary operator of an expression element.
#[derive(Clone, Copy, Debug, PartialEq, Eq, Structural, Hash, PartialOrd, Ord)]
pub enum Operator {
    Add,
    Sub,
    Mul,
}

/// A binary expression `l o r`; evaluation resolves it to a number.
#[derive(Debug, Hash, Ord)]
pub struct Expression {
    pub l: Value,
    pub o: Operator,
    pub r: Value,
}

/// A runtime value. `Param` names a variable binding of the context and
/// `Expression` is an unresolved operation; the others are concrete.
#[derive(Debug, Hash, Ord)]
pub enum Value {
    Null,
    Bool(bool),
    Number(i64),
    Strand(String),
    Param(String),
    Array(Array),
    Expression(Box<Expression>),
}

/// The mathematical model of a value: integers as `int`, text as `Seq<char>`,
/// arrays as sequences of models.
pub enum ValueView {
    Null,
    Bool(bool),
    Number(int),
    Strand(Seq<char>),
    Param(Seq<char>),
    Array(Seq<ValueView>),
    Expression(Box<ValueView>, Operator, Box<ValueView>),
}

pub open spec fn value_view(v: Value) -> ValueView
    decreases v,
{
    match v {
        Value::Null => ValueView::Null,
        Value::Bool(b) => ValueView::Bool(b),
        Value::Number(n) => ValueView::Number(n as int),
        Value::Strand(s) => ValueView::Strand(s@),
        Value::Param(s) => ValueView::Param(s@),
        Value::Array(a) => ValueView::Array(values_view(a.0@)),
        Value::Expression(e) => ValueView::Expression(
            Box::new(value_view(e.l)),
            e.o,
            Box::new(value_view(e.r)),
        ),
    }
}

/// The models of a sequence of values, element by element.
pub open spec fn values_view(s: Seq<Value>) -> Seq<ValueView>
    decreases s,
{
    if s.len() == 0 {
        Seq::empty()
    } else {
        values_view(s.drop_last()).push(value_view(s.last()))
    }
}

impl View for Value {
    type V = ValueView;

    open spec fn view(&self) -> ValueView {
        value_view(*self)
    }
}

pub proof fn lemma_values_view(s: Seq<Value>)
    ensures
        values_view(s) == s.map_values(|v: Value| v@),
    decreases s.len(),
{
    if s.len() > 0 {
        lemma_values_view(s.drop_last());
    }
    assert(values_view(s) =~= s.map_values(|v: Value| v@));
}

/// Structural equality of two values, decided on their models.
pub fn value_eq(a: &Value, b: &Value) -> (r: bool)
    ensures
        r == (a@ == b@),
    decreases a,
{
    match (a, b) {
        (Value::Null, Value::Null) => true,
        (Value::Bool(x), Value::Bool(y)) => *x == *y,
        (Value::Number(x), Value::Number(y)) => *x == *y,
        (Value::Strand(x), Value::Strand(y)) => *x == *y,
        (Value::Param(x), Value::Param(y)) => *x == *y,
        (Value::Array(x), Value::Array(y)) => {
            proof {
                lemma_values_view(x.0@);
                lemma_values_view(y.0@);
            }
            values_eq(&x.0, &y.0)
        },
        (Value::Expression(x), Value::Expression(y)) => {
            x.o == y.o && value_eq(&x.l, &y.l) && value_eq(&x.r, &y.r)
        },
        _ => false,
    }
}

/// Element-wise equality of two sequences of values, decided on their models.
pub fn values_eq(a: &Vec<Value>, b: &Vec<Value>) -> (r: bool)
    ensures
        r == (a@.map_values(|v: Value| v@) == b@.map_values(|v: Value| v@)),
    decreases a,
{
    if a.len() != b.len() {
        proof {
            assert(a@.map_values(|v: Value| v@).len() != b@.map_values(|v: Value| v@).len());
        }
        return false;
    }
    let mut i: usize = 0;
    while i < a.len()
        invariant
            a.len() == b.len(),
            i <= a.len(),
            forall|j: int| 0 <= j < i ==> a@[j]@ == b@[j]@,
        decreases a.len() - i,
    {
        if !value_eq(&a[i], &b[i]) {
            proof {
                assert(a@.map_values(|v: Value| v@)[i as int] != b@.map_values(|v: Value| v@)[i as int]);
            }
            return false;
        }
        i = i + 1;
    }
    assert(a@.map_values(|v: Value| v@) =~= b@.map_values(|v: Value| v@));
    true
}

/// A copy of a value with the same model.
pub fn value_clone(v: &Value) -> (r: Value)
    ensures
        r@ == v@,
    decreases v,
{
    match v {
        Value::Null => Value::Null,
        Value::Bool(b) => Value::Bool(*b),
        Value::Number(n) => Value::Number(*n),
        Value::Strand(s) => Value::Strand(s.clone()),
        Value::Param(s) => Value::Param(s.clone()),
        Value::Array(a) => {
            let c = values_clone(&a.0);
            proof {
                lemma_values_view(a.0@);
                lemma_values_view(c@);
            }
            Value::Array(Array(c))
        },
        Value::Expression(e) => {
            let l = value_clone(&e.l);
            let r = value_clone(&e.r);
            Value::Expression(Box::new(Expression { l, o: e.o, r }))
        },
    }
}

/// A copy of a sequence of values, element by element.
pub fn values_clone(s: &Vec<Value>) -> (r: Vec<Value>)
    ensures
        r@.map_values(|v: Value| v@) == s@.map_values(|v: Value| v@),
    decreases s,
{
    let mut out: Vec<Value> = Vec::with_capacity(s.len());
    let mut i: usize = 0;
    while i < s.len()
        invariant
            i <= s.len(),
            out.len() == i,
            forall|j: int| 0 <= j < i ==> out@[j]@ == s@[j]@,
        decreases s.len() - i,
    {
        let c = value_clone(&s[i]);
        out.push(c);
        i = i + 1;
    }
    assert(out@.map_values(|v: Value| v@) =~= s@.map_values(|v: Value| v@));
    out
}

impl Clone for Value {
    fn clone(&self) -> (r: Value)
        ensures
            r@ == self@,
    {
        value_clone(self)
    }
}

impl PartialEq for Value {
    fn eq(&self, o: &Value) -> (r: bool) {
        value_eq(self, o)
    }
}

impl vstd::std_specs::cmp::PartialEqSpecImpl for Value {
    open spec fn obeys_eq_spec() -> bool {
        true
    }

    open spec fn eq_spec(&self, o: &Value) -> bool {
        self@ == o@
    }
}

impl Eq for Value {
}

impl PartialEq for Expression {
    fn eq(&self, o: &Expression) -> (r: bool) {
        self.o == o.o && value_eq(&self.l, &o.l) && value_eq(&self.r, &o.r)
    }
}

impl vstd::std_specs::cmp::PartialEqSpecImpl for Expression {
    open spec fn obeys_eq_spec() -> bool {
        true
    }

    open spec fn eq_spec(&self, o: &Expression) -> bool {
        self.l@ == o.l@ && self.o == o.o && self.r@ == o.r@
    }
}

impl Eq for Expression {
}

} // verus!
