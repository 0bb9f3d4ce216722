//! The total order of values, consistent with equality.

use vstd::prelude::*;
use core::cmp::Ordering;
use crate::array::Array;
use crate::text::chars_of;
use crate::value::{lemma_values_view, Expression, Operator, Value, ValueView};

verus! {

/// The position of a value's kind in the order of kinds.
pub open spec fn rank(v: ValueView) -> int {
    match v {
        ValueView::Null => 0,
        ValueView::Bool(_) => 1,
        ValueView::Number(_) => 2,
        ValueView::Strand(_) => 3,
        ValueView::Param(_) => 4,
        ValueView::Array(_) => 5,
        ValueView::Expression(..) => 6,
    }
}

pub open spec fn op_rank(o: Operator) -> int {
    match o {
        Operator::Add => 0,
        Operator::Sub => 1,
        Operator::Mul => 2,
    }
}

pub open spec fn int_cmp(a: int, b: int) -> Ordering {
    if a < b {
        Ordering::Less
    } else if a > b {
        Ordering::Greater
    } else {
        Ordering::Equal
    }
}

/// Lexicographic order of texts by character, a proper prefix first.
pub open spec fn cmp_chars(a: Seq<char>, b: Seq<char>) -> Ordering
    decreases a.len(),
{
    if a.len() == 0 {
        if b.len() == 0 {
            Ordering::Equal
        } else {
            Ordering::Less
        }
    } else if b.len() == 0 {
        Ordering::Greater
    } else if a[0] != b[0] {
        int_cmp(a[0] as int, b[0] as int)
    } else {
        cmp_chars(a.drop_first(), b.drop_first())
    }
}

/// The total order of values: by kind, then by contents; arrays
/// lexicographically by element, a proper prefix first.
pub open spec fn cmp_view(a: ValueView, b: ValueView) -> Ordering
    decreases a,
{
    match (a, b) {
        (ValueView::Bool(x), ValueView::Bool(y)) => int_cmp(
            if x { 1 } else { 0 },
            if y { 1 } else { 0 },
        ),
        (ValueView::Number(x), ValueView::Number(y)) => int_cmp(x, y),
        (ValueView::Strand(x), ValueView::Strand(y)) => cmp_chars(x, y),
        (ValueView::Param(x), ValueView::Param(y)) => cmp_chars(x, y),
        (ValueView::Array(x), ValueView::Array(y)) => cmp_seq(x, y),
        (ValueView::Expression(l1, o1, r1), ValueView::Expression(l2, o2, r2)) => match cmp_view(
            *l1,
            *l2,
        ) {
            Ordering::Equal => match int_cmp(op_rank(o1), op_rank(o2)) {
                Ordering::Equal => cmp_view(*r1, *r2),
                o => o,
            },
            o => o,
        },
        _ => int_cmp(rank(a), rank(b)),
    }
}

/// Lexicographic order of sequences of values, a proper prefix first.
pub open spec fn cmp_seq(a: Seq<ValueView>, b: Seq<ValueView>) -> Ordering
    decreases a,
{
    if a.len() == 0 {
        if b.len() == 0 {
            Ordering::Equal
        } else {
            Ordering::Less
        }
    } else if b.len() == 0 {
        Ordering::Greater
    } else {
        match cmp_view(a[0], b[0]) {
            Ordering::Equal => cmp_seq(a.drop_first(), b.drop_first()),
            o => o,
        }
    }
}

fn text_cmp(a: &String, b: &String) -> (r: Ordering)
    ensures
        r == cmp_chars(a@, b@),
{
    let x = chars_of(a.as_str());
    let y = chars_of(b.as_str());
    let mut i: usize = 0;
    assert(x@.subrange(0, x.len() as int) =~= x@);
    assert(y@.subrange(0, y.len() as int) =~= y@);
    while i < x.len() && i < y.len() && x[i] == y[i]
        invariant
            i <= x.len(),
            i <= y.len(),
            cmp_chars(x@, y@) == cmp_chars(
                x@.subrange(i as int, x.len() as int),
                y@.subrange(i as int, y.len() as int),
            ),
        decreases x.len() - i,
    {
        assert(x@.subrange(i as int, x.len() as int).drop_first() =~= x@.subrange(i + 1, x.len() as int));
        assert(y@.subrange(i as int, y.len() as int).drop_first() =~= y@.subrange(i + 1, y.len() as int));
        i = i + 1;
    }
    let ghost xs = x@.subrange(i as int, x.len() as int);
    let ghost ys = y@.subrange(i as int, y.len() as int);
    assert(xs.len() == 0 ==> xs =~= Seq::<char>::empty());
    assert(xs.len() > 0 ==> xs[0] == x@[i as int]);
    assert(ys.len() > 0 ==> ys[0] == y@[i as int]);
    if i == x.len() {
        if i == y.len() {
            Ordering::Equal
        } else {
            Ordering::Less
        }
    } else if i == y.len() {
        Ordering::Greater
    } else if x[i] < y[i] {
        Ordering::Less
    } else {
        Ordering::Greater
    }
}

fn int_order(a: i64, b: i64) -> (r: Ordering)
    ensures
        r == int_cmp(a as int, b as int),
{
    if a < b {
        Ordering::Less
    } else if a > b {
        Ordering::Greater
    } else {
        Ordering::Equal
    }
}

fn kind_rank(v: &Value) -> (r: u8)
    ensures
        r as int == rank(v@),
{
    match v {
        Value::Null => 0,
        Value::Bool(_) => 1,
        Value::Number(_) => 2,
        Value::Strand(_) => 3,
        Value::Param(_) => 4,
        Value::Array(_) => 5,
        Value::Expression(_) => 6,
    }
}

fn op_order(a: Operator, b: Operator) -> (r: Ordering)
    ensures
        r == int_cmp(op_rank(a), op_rank(b)),
{
    let x: i64 = match a {
        Operator::Add => 0,
        Operator::Sub => 1,
        Operator::Mul => 2,
    };
    let y: i64 = match b {
        Operator::Add => 0,
        Operator::Sub => 1,
        Operator::Mul => 2,
    };
    int_order(x, y)
}

/// Where `a` stands against `b` in the total order of values.
pub fn value_cmp(a: &Value, b: &Value) -> (r: Ordering)
    ensures
        r == cmp_view(a@, b@),
    decreases a,
{
    match (a, b) {
        (Value::Bool(x), Value::Bool(y)) => int_order(
            if *x { 1 } else { 0 },
            if *y { 1 } else { 0 },
        ),
        (Value::Number(x), Value::Number(y)) => int_order(*x, *y),
        (Value::Strand(x), Value::Strand(y)) => text_cmp(x, y),
        (Value::Param(x), Value::Param(y)) => text_cmp(x, y),
        (Value::Array(x), Value::Array(y)) => {
            proof {
                lemma_values_view(x.0@);
                lemma_values_view(y.0@);
            }
            values_cmp(&x.0, &y.0)
        },
        (Value::Expression(x), Value::Expression(y)) => match value_cmp(&x.l, &y.l) {
            Ordering::Equal => match op_order(x.o, y.o) {
                Ordering::Equal => value_cmp(&x.r, &y.r),
                o => o,
            },
            o => o,
        },
        _ => int_order(kind_rank(a) as i64, kind_rank(b) as i64),
    }
}

/// Where `a` stands against `b` in the lexicographic order of sequences of values.
pub fn values_cmp(a: &Vec<Value>, b: &Vec<Value>) -> (r: Ordering)
    ensures
        r == cmp_seq(a@.map_values(|v: Value| v@), b@.map_values(|v: Value| v@)),
    decreases a,
{
    let ghost x = a@.map_values(|v: Value| v@);
    let ghost y = b@.map_values(|v: Value| v@);
    let mut i: usize = 0;
    assert(x.subrange(0, x.len() as int) =~= x);
    assert(y.subrange(0, y.len() as int) =~= y);
    while i < a.len() && i < b.len()
        invariant
            x == a@.map_values(|v: Value| v@),
            y == b@.map_values(|v: Value| v@),
            i <= a.len(),
            i <= b.len(),
            cmp_seq(x, y) == cmp_seq(
                x.subrange(i as int, x.len() as int),
                y.subrange(i as int, y.len() as int),
            ),
        decreases a.len() - i,
    {
        let ghost xs = x.subrange(i as int, x.len() as int);
        let ghost ys = y.subrange(i as int, y.len() as int);
        assert(xs.drop_first() =~= x.subrange(i + 1, x.len() as int));
        assert(ys.drop_first() =~= y.subrange(i + 1, y.len() as int));
        assert(xs[0] == a@[i as int]@);
        assert(ys[0] == b@[i as int]@);
        let c = value_cmp(&a[i], &b[i]);
        match c {
            Ordering::Equal => {},
            _ => {
                return c;
            },
        }
        i = i + 1;
    }
    if i == a.len() {
        if i == b.len() {
            Ordering::Equal
        } else {
            Ordering::Less
        }
    } else {
        Ordering::Greater
    }
}

proof fn lemma_cmp_chars_equal(a: Seq<char>, b: Seq<char>)
    ensures
        (cmp_chars(a, b) == Ordering::Equal) == (a == b),
    decreases a.len(),
{
    if a.len() > 0 && b.len() > 0 {
        lemma_cmp_chars_equal(a.drop_first(), b.drop_first());
        if a[0] == b[0] && a.drop_first() == b.drop_first() {
            assert forall|k: int| 0 <= k < a.len() implies a[k] == b[k] by {
                if k > 0 {
                    assert(a[k] == a.drop_first()[k - 1]);
                    assert(b[k] == b.drop_first()[k - 1]);
                }
            }
            assert(a =~= b);
        }
        if a == b {
            assert(a.drop_first() =~= b.drop_first());
        }
    } else if a.len() == 0 && b.len() == 0 {
        assert(a =~= b);
    }
}

proof fn lemma_cmp_view_equal(a: ValueView, b: ValueView)
    ensures
        (cmp_view(a, b) == Ordering::Equal) == (a == b),
    decreases a,
{
    match (a, b) {
        (ValueView::Strand(x), ValueView::Strand(y)) => lemma_cmp_chars_equal(x, y),
        (ValueView::Param(x), ValueView::Param(y)) => lemma_cmp_chars_equal(x, y),
        (ValueView::Array(x), ValueView::Array(y)) => lemma_cmp_seq_equal(x, y),
        (ValueView::Expression(l1, o1, r1), ValueView::Expression(l2, o2, r2)) => {
            lemma_cmp_view_equal(*l1, *l2);
            lemma_cmp_view_equal(*r1, *r2);
        },
        _ => {},
    }
}

proof fn lemma_cmp_seq_equal(a: Seq<ValueView>, b: Seq<ValueView>)
    ensures
        (cmp_seq(a, b) == Ordering::Equal) == (a == b),
    decreases a,
{
    if a.len() > 0 && b.len() > 0 {
        lemma_cmp_view_equal(a[0], b[0]);
        lemma_cmp_seq_equal(a.drop_first(), b.drop_first());
        if a[0] == b[0] && a.drop_first() == b.drop_first() {
            assert forall|k: int| 0 <= k < a.len() implies a[k] == b[k] by {
                if k > 0 {
                    assert(a[k] == a.drop_first()[k - 1]);
                    assert(b[k] == b.drop_first()[k - 1]);
                }
            }
            assert(a =~= b);
        }
        if a == b {
            assert(a.drop_first() =~= b.drop_first());
        }
    } else if a.len() == 0 && b.len() == 0 {
        assert(a =~= b);
    }
}

/// The order agrees with equality: two values compare equal exactly when
/// their models are equal.
pub proof fn order_agrees_with_equality(a: ValueView, b: ValueView)
    ensures
        (cmp_view(a, b) == Ordering::Equal) == (a == b),
{
    lemma_cmp_view_equal(a, b);
}

impl PartialOrd for Value {
    fn partial_cmp(&self, o: &Value) -> (r: Option<Ordering>) {
        Some(value_cmp(self, o))
    }
}

impl vstd::std_specs::cmp::PartialOrdSpecImpl for Value {
    open spec fn obeys_partial_cmp_spec() -> bool {
        true
    }

    open spec fn partial_cmp_spec(&self, o: &Value) -> Option<Ordering> {
        Some(cmp_view(self@, o@))
    }
}

impl PartialOrd for Expression {
    fn partial_cmp(&self, o: &Expression) -> (r: Option<Ordering>) {
        let c = match value_cmp(&self.l, &o.l) {
            Ordering::Equal => match op_order(self.o, o.o) {
                Ordering::Equal => value_cmp(&self.r, &o.r),
                c => c,
            },
            c => c,
        };
        Some(c)
    }
}

impl vstd::std_specs::cmp::PartialOrdSpecImpl for Expression {
    open spec fn obeys_partial_cmp_spec() -> bool {
        true
    }

    open spec fn partial_cmp_spec(&self, o: &Expression) -> Option<Ordering> {
        Some(
            cmp_view(
                ValueView::Expression(Box::new(self.l@), self.o, Box::new(self.r@)),
                ValueView::Expression(Box::new(o.l@), o.o, Box::new(o.r@)),
            ),
        )
    }
}

impl PartialOrd for Array {
    fn partial_cmp(&self, o: &Array) -> (r: Option<Ordering>) {
        Some(values_cmp(&self.0, &o.0))
    }
}

impl vstd::std_specs::cmp::PartialOrdSpecImpl for Array {
    open spec fn obeys_partial_cmp_spec() -> bool {
        true
    }

    open spec fn partial_cmp_spec(&self, o: &Array) -> Option<Ordering> {
        Some(cmp_seq(self@, o@))
    }
}

} // verus!
