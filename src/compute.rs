//! Evaluation of arrays in a context: in order, stopping at the first failure.

use vstd::prelude::*;
use crate::array::Array;
use crate::value::{lemma_values_view, value_clone, Operator, Value, ValueView};

verus! {

/// Why an evaluation failed.
#[derive(Debug)]
pub enum Error {
    /// The context was cancelled before an element was resolved.
    Cancelled,
    /// A parameter that the context does not bind.
    UndefinedParam(String),
    /// An operator applied to something other than two numbers.
    InvalidOperands,
    /// An operator whose result does not fit a 64-bit integer.
    Overflow,
}

/// The model of an evaluation error.
pub enum ErrorView {
    Cancelled,
    UndefinedParam(Seq<char>),
    InvalidOperands,
    Overflow,
}

impl View for Error {
    type V = ErrorView;

    open spec fn view(&self) -> ErrorView {
        match self {
            Error::Cancelled => ErrorView::Cancelled,
            Error::UndefinedParam(n) => ErrorView::UndefinedParam(n@),
            Error::InvalidOperands => ErrorView::InvalidOperands,
            Error::Overflow => ErrorView::Overflow,
        }
    }
}

/// A read-only evaluation environment: variable bindings, later ones
/// shadowing earlier ones of the same name, and a cancellation signal.
#[derive(Debug)]
pub struct Context {
    pub vars: Vec<(String, Value)>,
    pub cancelled: bool,
}

/// The model of a context.
pub struct ContextView {
    pub vars: Seq<(Seq<char>, ValueView)>,
    pub cancelled: bool,
}

impl View for Context {
    type V = ContextView;

    open spec fn view(&self) -> ContextView {
        ContextView {
            vars: self.vars@.map_values(|p: (String, Value)| (p.0@, p.1@)),
            cancelled: self.cancelled,
        }
    }
}

/// The value of the latest binding of `name`.
pub open spec fn lookup(vars: Seq<(Seq<char>, ValueView)>, name: Seq<char>) -> Option<ValueView>
    decreases vars.len(),
{
    if vars.len() == 0 {
        None
    } else if vars.last().0 == name {
        Some(vars.last().1)
    } else {
        lookup(vars.drop_last(), name)
    }
}

pub open spec fn apply_op(o: Operator, a: int, b: int) -> int {
    match o {
        Operator::Add => a + b,
        Operator::Sub => a - b,
        Operator::Mul => a * b,
    }
}

/// An operator applied to two resolved operands.
pub open spec fn arith(o: Operator, x: ValueView, y: ValueView) -> Result<ValueView, ErrorView> {
    match (x, y) {
        (ValueView::Number(a), ValueView::Number(b)) => {
            let n = apply_op(o, a, b);
            if i64::MIN <= n <= i64::MAX {
                Ok(ValueView::Number(n))
            } else {
                Err(ErrorView::Overflow)
            }
        },
        _ => Err(ErrorView::InvalidOperands),
    }
}

/// What a value resolves to in context `c`.
pub open spec fn eval_of(c: ContextView, v: ValueView) -> Result<ValueView, ErrorView>
    decreases v,
{
    match v {
        ValueView::Param(n) => match lookup(c.vars, n) {
            Some(x) => Ok(x),
            None => Err(ErrorView::UndefinedParam(n)),
        },
        ValueView::Array(s) => match eval_seq(c, s) {
            Ok(r) => Ok(ValueView::Array(r)),
            Err(e) => Err(e),
        },
        ValueView::Expression(l, o, r) => match eval_of(c, *l) {
            Err(e) => Err(e),
            Ok(x) => match eval_of(c, *r) {
                Err(e) => Err(e),
                Ok(y) => arith(o, x, y),
            },
        },
        _ => Ok(v),
    }
}

/// The elements of `s` resolved in order, or the error of the first that
/// fails; a cancelled context fails at the first element.
pub open spec fn eval_seq(c: ContextView, s: Seq<ValueView>) -> Result<Seq<ValueView>, ErrorView>
    decreases s,
{
    if s.len() == 0 {
        Ok(Seq::empty())
    } else {
        match eval_seq(c, s.drop_last()) {
            Err(e) => Err(e),
            Ok(r) => if c.cancelled {
                Err(ErrorView::Cancelled)
            } else {
                match eval_of(c, s.last()) {
                    Err(e) => Err(e),
                    Ok(x) => Ok(r.push(x)),
                }
            },
        }
    }
}

pub open spec fn result_view(r: Result<Value, Error>) -> Result<ValueView, ErrorView> {
    match r {
        Ok(v) => Ok(v@),
        Err(e) => Err(e@),
    }
}

/// A failure of a prefix is the failure of the whole sequence.
proof fn lemma_eval_seq_err(c: ContextView, s: Seq<ValueView>, k: int)
    requires
        0 <= k <= s.len(),
        eval_seq(c, s.subrange(0, k)) is Err,
    ensures
        eval_seq(c, s) == eval_seq(c, s.subrange(0, k)),
    decreases s.len(),
{
    if k == s.len() {
        assert(s.subrange(0, k) =~= s);
    } else {
        assert(s.drop_last().subrange(0, k) =~= s.subrange(0, k));
        lemma_eval_seq_err(c, s.drop_last(), k);
    }
}

impl Context {
    /// A context with no bindings, not cancelled.
    pub fn new() -> (r: Context)
        ensures
            r@.vars == Seq::<(Seq<char>, ValueView)>::empty(),
            !r@.cancelled,
    {
        let r = Context { vars: Vec::new(), cancelled: false };
        assert(r@.vars =~= Seq::<(Seq<char>, ValueView)>::empty());
        r
    }

    /// Binds `name` to `v`, shadowing an earlier binding of it.
    pub fn set(&mut self, name: String, v: Value)
        ensures
            final(self)@.vars == old(self)@.vars.push((name@, v@)),
            final(self)@.cancelled == old(self)@.cancelled,
    {
        let ghost o = self@.vars;
        let ghost p = (name@, v@);
        self.vars.push((name, v));
        assert(self@.vars =~= o.push(p));
    }

    /// Signals cancellation to every later evaluation in this context.
    pub fn cancel(&mut self)
        ensures
            final(self)@.vars == old(self)@.vars,
            final(self)@.cancelled,
    {
        self.cancelled = true;
    }

    /// A copy of the value of the latest binding of `name`.
    pub fn get(&self, name: &String) -> (r: Option<Value>)
        ensures
            match r {
                Some(x) => lookup(self@.vars, name@) == Some(x@),
                None => lookup(self@.vars, name@) is None,
            },
    {
        let ghost vs = self@.vars;
        let mut i: usize = self.vars.len();
        assert(vs.subrange(0, i as int) =~= vs);
        while i > 0
            invariant
                i <= self.vars.len(),
                vs == self@.vars,
                lookup(vs, name@) == lookup(vs.subrange(0, i as int), name@),
            decreases i,
        {
            assert(vs.subrange(0, i as int).drop_last() =~= vs.subrange(0, i - 1));
            assert(vs[i - 1] == (self.vars@[i - 1].0@, self.vars@[i - 1].1@));
            if self.vars[i - 1].0 == *name {
                return Some(value_clone(&self.vars[i - 1].1));
            }
            i = i - 1;
        }
        None
    }
}

/// Resolves a value in `ctx`: parameters to their bindings, expressions to
/// their results, arrays element by element.
pub fn evaluate(v: &Value, ctx: &Context) -> (r: Result<Value, Error>)
    ensures
        result_view(r) == eval_of(ctx@, v@),
    decreases v,
{
    match v {
        Value::Param(n) => match ctx.get(n) {
            Some(x) => Ok(x),
            None => Err(Error::UndefinedParam(n.clone())),
        },
        Value::Array(a) => {
            proof {
                lemma_values_view(a.0@);
            }
            a.compute(ctx)
        },
        Value::Expression(e) => {
            let x = match evaluate(&e.l, ctx) {
                Ok(x) => x,
                Err(err) => {
                    return Err(err);
                },
            };
            let y = match evaluate(&e.r, ctx) {
                Ok(y) => y,
                Err(err) => {
                    return Err(err);
                },
            };
            match (&x, &y) {
                (Value::Number(a), Value::Number(b)) => {
                    let n = match e.o {
                        Operator::Add => a.checked_add(*b),
                        Operator::Sub => a.checked_sub(*b),
                        Operator::Mul => a.checked_mul(*b),
                    };
                    match n {
                        Some(n) => Ok(Value::Number(n)),
                        None => Err(Error::Overflow),
                    }
                },
                _ => Err(Error::InvalidOperands),
            }
        },
        _ => Ok(value_clone(v)),
    }
}

impl Array {
    /// Resolves every element in order into a new array value; the first
    /// failure is returned as it is and nothing else.
    pub fn compute(&self, ctx: &Context) -> (r: Result<Value, Error>)
        ensures
            result_view(r) == eval_of(ctx@, ValueView::Array(self@)),
        decreases self,
    {
        let ghost s = self@;
        let n = self.0.len();
        let mut out: Vec<Value> = Vec::with_capacity(n);
        let mut i: usize = 0;
        assert(s.subrange(0, 0) =~= Seq::<ValueView>::empty());
        assert(out@.map_values(|v: Value| v@) =~= Seq::<ValueView>::empty());
        while i < n
            invariant
                n == self.0.len(),
                s == self@,
                i <= n,
                eval_seq(ctx@, s.subrange(0, i as int)) == Ok::<Seq<ValueView>, ErrorView>(
                    out@.map_values(|v: Value| v@),
                ),
            decreases n - i,
        {
            assert(s.subrange(0, i + 1).drop_last() =~= s.subrange(0, i as int));
            assert(s.subrange(0, i + 1).last() == s[i as int]);
            if ctx.cancelled {
                proof {
                    lemma_eval_seq_err(ctx@, s, i + 1);
                }
                return Err(Error::Cancelled);
            }
            match evaluate(&self.0[i], ctx) {
                Ok(x) => {
                    let ghost o = out@.map_values(|v: Value| v@);
                    out.push(x);
                    assert(out@.map_values(|v: Value| v@) =~= o.push(x@));
                },
                Err(e) => {
                    proof {
                        lemma_eval_seq_err(ctx@, s, i + 1);
                    }
                    return Err(e);
                },
            }
            i = i + 1;
        }
        assert(s.subrange(0, n as int) =~= s);
        proof {
            lemma_values_view(out@);
        }
        Ok(Value::Array(Array(out)))
    }
}

proof fn lemma_eval_seq_ok(c: ContextView, s: Seq<ValueView>)
    requires
        !c.cancelled,
        forall|j: int| 0 <= j < s.len() ==> eval_of(c, #[trigger] s[j]) is Ok,
    ensures
        eval_seq(c, s) is Ok,
    decreases s.len(),
{
    if s.len() > 0 {
        assert(eval_of(c, s[s.len() - 1]) is Ok);
        lemma_eval_seq_ok(c, s.drop_last());
    }
}

/// In a context that is not cancelled, an array whose elements before
/// position `k` resolve and whose element at `k` fails with `e` evaluates to
/// exactly `e`, and to no array.
pub proof fn compute_first_failure(c: ContextView, s: Seq<ValueView>, k: int, e: ErrorView)
    requires
        !c.cancelled,
        0 <= k < s.len(),
        forall|j: int| 0 <= j < k ==> eval_of(c, #[trigger] s[j]) is Ok,
        eval_of(c, s[k]) == Err::<ValueView, ErrorView>(e),
    ensures
        eval_of(c, ValueView::Array(s)) == Err::<ValueView, ErrorView>(e),
{
    let p = s.subrange(0, k);
    assert forall|j: int| 0 <= j < p.len() implies eval_of(c, #[trigger] p[j]) is Ok by {
        assert(p[j] == s[j]);
    }
    lemma_eval_seq_ok(c, p);
    assert(s.subrange(0, k + 1).drop_last() =~= p);
    assert(s.subrange(0, k + 1).last() == s[k]);
    lemma_eval_seq_err(c, s, k + 1);
}

} // verus!
