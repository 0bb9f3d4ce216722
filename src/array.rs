//! The array container: construction, access and conversions.

use vstd::prelude::*;
use crate::value::{Value, ValueView};

verus! {

/// An ordered sequence of values; order and duplicates are significant.
#[derive(Debug, Hash, Ord)]
pub struct Array(pub Vec<Value>);

impl View for Array {
    type V = Seq<ValueView>;

    open spec fn view(&self) -> Seq<ValueView> {
        self.0@.map_values(|v: Value| v@)
    }
}

impl Array {
    /// An empty array.
    pub fn new() -> (r: Array)
        ensures
            r@ == Seq::<ValueView>::empty(),
    {
        let r = Array(Vec::new());
        assert(r@ =~= Seq::<ValueView>::empty());
        r
    }

    /// An empty array with room reserved for `len` elements.
    pub fn with_capacity(len: usize) -> (r: Array)
        ensures
            r@ == Seq::<ValueView>::empty(),
    {
        let r = Array(Vec::with_capacity(len));
        assert(r@ =~= Seq::<ValueView>::empty());
        r
    }

    /// The number of elements.
    pub fn len(&self) -> (r: usize)
        ensures
            r == self@.len(),
    {
        self.0.len()
    }

    /// Whether there are no elements.
    pub fn is_empty(&self) -> (r: bool)
        ensures
            r == (self@.len() == 0),
    {
        self.0.len() == 0
    }

    /// The element at `i`.
    pub fn get(&self, i: usize) -> (r: Option<&Value>)
        ensures
            match r {
                Some(v) => i < self@.len() && v@ == self@[i as int],
                None => i >= self@.len(),
            },
    {
        if i < self.0.len() {
            Some(&self.0[i])
        } else {
            None
        }
    }

    /// Appends `v` at the end.
    pub fn push(&mut self, v: Value)
        ensures
            final(self)@ == old(self)@.push(v@),
    {
        let ghost o = self@;
        self.0.push(v);
        assert(self@ =~= o.push(v@));
    }

    /// The one-element array `[v]`.
    pub fn from_value(v: Value) -> (r: Array)
        ensures
            r@ == seq![v@],
    {
        let r = Array(vec![v]);
        assert(r@ =~= seq![v@]);
        r
    }

    /// An array of numbers, in order.
    pub fn from_ints(v: Vec<i32>) -> (r: Array)
        ensures
            r@ == v@.map_values(|n: i32| ValueView::Number(n as int)),
    {
        let mut out = Array::with_capacity(v.len());
        let mut i: usize = 0;
        while i < v.len()
            invariant
                i <= v.len(),
                out@ == v@.subrange(0, i as int).map_values(|n: i32| ValueView::Number(n as int)),
            decreases v.len() - i,
        {
            out.push(Value::Number(v[i] as i64));
            i = i + 1;
            assert(out@ =~= v@.subrange(0, i as int).map_values(|n: i32| ValueView::Number(n as int)));
        }
        assert(v@.subrange(0, v.len() as int) =~= v@);
        out
    }

    /// An array of strings, in order.
    pub fn from_strings(v: Vec<String>) -> (r: Array)
        ensures
            r@ == v@.map_values(|s: String| ValueView::Strand(s@)),
    {
        let ghost w = v@;
        let mut src = v;
        let mut out = Array::with_capacity(src.len());
        let n = src.len();
        let mut i: usize = 0;
        let mut rev: Vec<String> = Vec::new();
        while src.len() > 0
            invariant
                w.len() == n,
                src@.len() + rev@.len() == n,
                src@ == w.subrange(0, src@.len() as int),
                forall|k: int| 0 <= k < rev@.len() ==> rev@[k] == w[n - 1 - k],
            decreases src@.len(),
        {
            let s = src.pop().unwrap();
            rev.push(s);
        }
        while rev.len() > 0
            invariant
                w.len() == n,
                i + rev@.len() == n,
                forall|k: int| 0 <= k < rev@.len() ==> rev@[k] == w[n - 1 - k],
                out@ == w.subrange(0, i as int).map_values(|s: String| ValueView::Strand(s@)),
            decreases rev@.len(),
        {
            let s = rev.pop().unwrap();
            assert(s == w[i as int]);
            out.push(Value::Strand(s));
            i = i + 1;
            assert(out@ =~= w.subrange(0, i as int).map_values(|s: String| ValueView::Strand(s@)));
        }
        assert(w.subrange(0, n as int) =~= w);
        out
    }

    /// An array of strings, in order.
    pub fn from_strs(v: Vec<&str>) -> (r: Array)
        ensures
            r@ == v@.map_values(|s: &str| ValueView::Strand(s@)),
    {
        let mut out = Array::with_capacity(v.len());
        let mut i: usize = 0;
        while i < v.len()
            invariant
                i <= v.len(),
                out@ == v@.subrange(0, i as int).map_values(|s: &str| ValueView::Strand(s@)),
            decreases v.len() - i,
        {
            out.push(Value::Strand(v[i].to_string()));
            i = i + 1;
            assert(out@ =~= v@.subrange(0, i as int).map_values(|s: &str| ValueView::Strand(s@)));
        }
        assert(v@.subrange(0, v.len() as int) =~= v@);
        out
    }

    /// The elements, in order.
    pub fn into_vec(self) -> (r: Vec<Value>)
        ensures
            r@.map_values(|v: Value| v@) == self@,
    {
        self.0
    }
}

impl From<Vec<Value>> for Array {
    fn from(v: Vec<Value>) -> Array {
        Array(v)
    }
}

impl vstd::std_specs::convert::FromSpecImpl<Vec<Value>> for Array {
    open spec fn obeys_from_spec() -> bool {
        true
    }

    open spec fn from_spec(v: Vec<Value>) -> Array {
        Array(v)
    }
}

impl PartialEq for Array {
    fn eq(&self, o: &Array) -> (r: bool) {
        crate::value::values_eq(&self.0, &o.0)
    }
}

impl vstd::std_specs::cmp::PartialEqSpecImpl for Array {
    open spec fn obeys_eq_spec() -> bool {
        true
    }

    open spec fn eq_spec(&self, o: &Array) -> bool {
        self@ == o@
    }
}

impl Eq for Array {
}

impl Clone for Array {
    fn clone(&self) -> (r: Array)
        ensures
            r@ == self@,
    {
        Array(crate::value::values_clone(&self.0))
    }
}

} // verus!
