//! Set algebra on arrays: each operator consumes its operands and returns a new array.

use vstd::prelude::*;
use crate::abolish::{retained, Abolish};
use crate::array::Array;
use crate::value::{lemma_values_view, value_clone, value_eq, values_clone, Value, ValueView};

verus! {

/// `s` without the later occurrences of each element, first occurrences in order.
pub open spec fn uniq_of(s: Seq<ValueView>) -> Seq<ValueView>
    decreases s.len(),
{
    if s.len() == 0 {
        s
    } else {
        let u = uniq_of(s.drop_last());
        if s.drop_last().contains(s.last()) {
            u
        } else {
            u.push(s.last())
        }
    }
}

/// The elements of `a` that do not occur in `b`, in `a`'s order.
pub open spec fn complement_of(a: Seq<ValueView>, b: Seq<ValueView>) -> Seq<ValueView>
    decreases a.len(),
{
    if a.len() == 0 {
        a
    } else {
        let r = complement_of(a.drop_last(), b);
        if b.contains(a.last()) {
            r
        } else {
            r.push(a.last())
        }
    }
}

/// What one element contributes to a flattening: an array its elements,
/// anything else itself.
pub open spec fn spliced(v: ValueView) -> Seq<ValueView> {
    match v {
        ValueView::Array(s) => s,
        _ => seq![v],
    }
}

/// One level of un-nesting.
pub open spec fn flatten_of(a: Seq<ValueView>) -> Seq<ValueView>
    decreases a.len(),
{
    if a.len() == 0 {
        a
    } else {
        flatten_of(a.drop_last()) + spliced(a.last())
    }
}

/// The two-element array `[x, y]`.
pub open spec fn pair(x: ValueView, y: ValueView) -> ValueView {
    ValueView::Array(seq![x, y])
}

/// The cartesian product of `a` and `b` as pairs, outer over `a`, inner over `b`.
pub open spec fn combine_of(a: Seq<ValueView>, b: Seq<ValueView>) -> Seq<ValueView>
    decreases a.len(),
{
    if a.len() == 0 {
        a
    } else {
        combine_of(a.drop_last(), b) + b.map_values(|y: ValueView| pair(a.last(), y))
    }
}

/// `s` without its first occurrence of `x`, if any.
pub open spec fn remove_first(s: Seq<ValueView>, x: ValueView) -> Seq<ValueView>
    decreases s.len(),
{
    if s.len() == 0 {
        s
    } else if s[0] == x {
        s.drop_first()
    } else {
        seq![s[0]] + remove_first(s.drop_first(), x)
    }
}

/// The elements of `a` that consume a match in `b`, each match used once.
pub open spec fn intersect_of(a: Seq<ValueView>, b: Seq<ValueView>) -> Seq<ValueView>
    decreases a.len(),
{
    if a.len() == 0 {
        a
    } else if b.contains(a[0]) {
        seq![a[0]] + intersect_of(a.drop_first(), remove_first(b, a[0]))
    } else {
        intersect_of(a.drop_first(), b)
    }
}

/// The elements of `a` left without a match in `b`, each match used once,
/// followed by what is left of `b`.
pub open spec fn difference_of(a: Seq<ValueView>, b: Seq<ValueView>) -> Seq<ValueView>
    decreases a.len(),
{
    if a.len() == 0 {
        b
    } else if b.contains(a[0]) {
        difference_of(a.drop_first(), remove_first(b, a[0]))
    } else {
        seq![a[0]] + difference_of(a.drop_first(), b)
    }
}

/// `a` after removing, for each element of `b` in order, its first occurrence.
pub open spec fn subtract_of(a: Seq<ValueView>, b: Seq<ValueView>) -> Seq<ValueView>
    decreases b.len(),
{
    if b.len() == 0 {
        a
    } else {
        subtract_of(remove_first(a, b[0]), b.drop_first())
    }
}

proof fn lemma_retained_views(s: Seq<Value>, m: Seq<bool>)
    requires
        s.len() == m.len(),
    ensures
        retained(s, m).map_values(|v: Value| v@) == retained(s.map_values(|v: Value| v@), m),
    decreases s.len(),
{
    if s.len() > 0 {
        lemma_retained_views(s.drop_last(), m.drop_last());
        assert(s.map_values(|v: Value| v@).drop_last() =~= s.drop_last().map_values(|v: Value| v@));
        assert(retained(s, m).map_values(|v: Value| v@) =~= retained(s.map_values(|v: Value| v@), m));
    }
}

proof fn lemma_uniq_marks(t: Seq<ValueView>, m: Seq<bool>)
    requires
        m.len() == t.len(),
        forall|i: int| 0 <= i < t.len() ==> m[i] == t.subrange(0, i).contains(#[trigger] t[i]),
    ensures
        retained(t, m) == uniq_of(t),
    decreases t.len(),
{
    if t.len() > 0 {
        let n = t.len() - 1;
        assert forall|i: int| 0 <= i < n implies m.drop_last()[i] == t.drop_last().subrange(0, i).contains(
            #[trigger] t.drop_last()[i],
        ) by {
            assert(t.drop_last().subrange(0, i) =~= t.subrange(0, i));
            assert(m[i] == t.subrange(0, i).contains(t[i]));
        }
        lemma_uniq_marks(t.drop_last(), m.drop_last());
        assert(t.subrange(0, n) =~= t.drop_last());
        assert(m[n] == t.subrange(0, n).contains(t[n]));
    }
}


proof fn lemma_remove_first_at(s: Seq<ValueView>, x: ValueView, j: int)
    requires
        0 <= j < s.len(),
        s[j] == x,
        forall|k: int| 0 <= k < j ==> s[k] != x,
    ensures
        remove_first(s, x) == s.remove(j),
    decreases j,
{
    if j > 0 {
        assert(s[0] != x);
        lemma_remove_first_at(s.drop_first(), x, j - 1);
        assert(seq![s[0]] + s.drop_first().remove(j - 1) =~= s.remove(j));
    } else {
        assert(s.drop_first() =~= s.remove(0));
    }
}

proof fn lemma_remove_first_absent(s: Seq<ValueView>, x: ValueView)
    requires
        !s.contains(x),
    ensures
        remove_first(s, x) == s,
    decreases s.len(),
{
    if s.len() > 0 {
        assert(s[0] != x);
        assert(!s.drop_first().contains(x)) by {
            if s.drop_first().contains(x) {
                let k = choose|k: int| 0 <= k < s.drop_first().len() && s.drop_first()[k] == x;
                assert(s[k + 1] == x);
            }
        }
        lemma_remove_first_absent(s.drop_first(), x);
        assert(seq![s[0]] + s.drop_first() =~= s);
    }
}

/// Index of the first element of `s` whose model is that of `x`.
fn position(s: &Vec<Value>, x: &Value) -> (r: Option<usize>)
    ensures
        match r {
            Some(j) => j < s.len() && s@[j as int]@ == x@ && forall|k: int|
                0 <= k < j ==> s@[k]@ != x@,
            None => forall|k: int| 0 <= k < s.len() ==> s@[k]@ != x@,
        },
{
    let mut j: usize = 0;
    while j < s.len()
        invariant
            j <= s.len(),
            forall|k: int| 0 <= k < j ==> s@[k]@ != x@,
        decreases s.len() - j,
    {
        if value_eq(&s[j], x) {
            return Some(j);
        }
        j = j + 1;
    }
    None
}

/// What `position` finds, stated over the models: the first match and
/// what removing it leaves, or that there is none.
proof fn lemma_position_views(s: Seq<Value>, x: ValueView, r: Option<usize>)
    requires
        match r {
            Some(j) => j < s.len() && s[j as int]@ == x && forall|k: int|
                0 <= k < j ==> s[k]@ != x,
            None => forall|k: int| 0 <= k < s.len() ==> s[k]@ != x,
        },
    ensures
        match r {
            Some(j) => s.map_values(|v: Value| v@).contains(x) && remove_first(
                s.map_values(|v: Value| v@),
                x,
            ) == s.remove(j as int).map_values(|v: Value| v@),
            None => !s.map_values(|v: Value| v@).contains(x) && remove_first(
                s.map_values(|v: Value| v@),
                x,
            ) == s.map_values(|v: Value| v@),
        },
{
    let sv = s.map_values(|v: Value| v@);
    match r {
        Some(j) => {
            assert(sv[j as int] == x);
            lemma_remove_first_at(sv, x, j as int);
            assert(sv.remove(j as int) =~= s.remove(j as int).map_values(|v: Value| v@));
        },
        None => {
            assert(!sv.contains(x)) by {
                if sv.contains(x) {
                    let k = choose|k: int| 0 <= k < sv.len() && sv[k] == x;
                    assert(s[k]@ == x);
                }
            }
            lemma_remove_first_absent(sv, x);
        },
    }
}

impl Array {
    /// `self` without later duplicates; first occurrences keep their order.
    pub fn uniq(self) -> (r: Array)
        ensures
            r@ == uniq_of(self@),
    {
        let mut a = self;
        let ghost t = a@;
        let n = a.0.len();
        let mut marks: Vec<bool> = Vec::with_capacity(n);
        let mut i: usize = 0;
        while i < n
            invariant
                n == a.0.len(),
                t == a@,
                i <= n,
                marks.len() == i,
                forall|k: int| 0 <= k < i ==> marks@[k] == t.subrange(0, k).contains(#[trigger] t[k]),
            decreases n - i,
        {
            let mut dup = false;
            let mut j: usize = 0;
            while j < i
                invariant
                    n == a.0.len(),
                    t == a@,
                    i < n,
                    j <= i,
                    !dup ==> forall|k: int| 0 <= k < j ==> t[k] != t[i as int],
                    dup ==> t.subrange(0, i as int).contains(t[i as int]),
                decreases i - j,
            {
                if value_eq(&a.0[j], &a.0[i]) {
                    dup = true;
                    assert(t.subrange(0, i as int)[j as int] == t[i as int]);
                    j = i;
                } else {
                    j = j + 1;
                }
            }
            proof {
                if !dup {
                    assert forall|k: int| 0 <= k < i implies t.subrange(0, i as int)[k] != t[i as int] by {
                        assert(t[k] != t[i as int]);
                    }
                }
            }
            marks.push(dup);
            i = i + 1;
        }
        let m = &marks;
        let ghost orig = a.0@;
        let f = |i: usize| -> (b: bool)
            requires
                i < m.len(),
            ensures
                b == m@[i as int],
            { m[i] };
        a.0.abolish(f);
        proof {
            let mm = choose|mm: Seq<bool>|
                mm.len() == orig.len() && (forall|i: int|
                    0 <= i < mm.len() ==> f.ensures((i as usize,), #[trigger] mm[i]))
                    && a.0@ == retained(orig, mm);
            assert(mm =~= marks@);
            lemma_retained_views(orig, marks@);
            lemma_uniq_marks(t, marks@);
        }
        a
    }

    /// `other` appended after `self`.
    pub fn concat(self, other: Array) -> (r: Array)
        ensures
            r@ == self@ + other@,
    {
        let mut a = self;
        let mut b = other;
        let ghost (x, y) = (a@, b@);
        a.0.append(&mut b.0);
        assert(a@ =~= x + y);
        a
    }

    /// The elements of `self` then `other`, without later duplicates.
    pub fn union(self, other: Array) -> (r: Array)
        ensures
            r@ == uniq_of(self@ + other@),
    {
        self.concat(other).uniq()
    }

    /// `self` with `v` appended.
    pub fn add_value(self, v: Value) -> (r: Array)
        ensures
            r@ == self@.push(v@),
    {
        let mut a = self;
        let ghost x = a@;
        a.0.push(v);
        assert(a@ =~= x.push(v@));
        a
    }

    /// `self` without the first element equal to `v`, if there is one.
    pub fn sub_value(self, v: Value) -> (r: Array)
        ensures
            r@ == remove_first(self@, v@),
    {
        let mut a = self;
        let p = position(&a.0, &v);
        proof {
            lemma_position_views(a.0@, v@, p);
        }
        if let Some(j) = p {
            a.0.remove(j);
        }
        a
    }

    /// `self` after removing, for each element of `other` in order, the
    /// first element equal to it.
    pub fn sub_array(self, other: Array) -> (r: Array)
        ensures
            r@ == subtract_of(self@, other@),
    {
        let mut a = self;
        let ghost b = other@;
        let m = other.0.len();
        let mut j: usize = 0;
        assert(b.subrange(0, m as int) =~= b);
        while j < m
            invariant
                m == other.0.len(),
                b == other@,
                j <= m,
                subtract_of(a@, b.subrange(j as int, m as int)) == subtract_of(self@, b),
            decreases m - j,
        {
            assert(b.subrange(j as int, m as int).drop_first() =~= b.subrange(j + 1, m as int));
            let p = position(&a.0, &other.0[j]);
            proof {
                lemma_position_views(a.0@, other.0@[j as int]@, p);
            }
            if let Some(k) = p {
                a.0.remove(k);
            }
            j = j + 1;
        }
        proof {
            assert(b.subrange(m as int, m as int) =~= Seq::<ValueView>::empty());
        }
        assert(b.subrange(0, m as int) =~= b);
        a
    }

    /// The elements of `self` that do not occur in `other`, in order.
    pub fn complement(self, other: Array) -> (r: Array)
        ensures
            r@ == complement_of(self@, other@),
    {
        let ghost x = self@;
        let n = self.0.len();
        let mut out = Array::new();
        let mut i: usize = 0;
        while i < n
            invariant
                n == self.0.len(),
                x == self@,
                i <= n,
                out@ == complement_of(x.subrange(0, i as int), other@),
            decreases n - i,
        {
            assert(x.subrange(0, i + 1).drop_last() =~= x.subrange(0, i as int));
            let p = position(&other.0, &self.0[i]);
            proof {
                lemma_position_views(other.0@, x[i as int], p);
            }
            if p.is_none() {
                let ghost o = out@;
                let c = value_clone(&self.0[i]);
                out.0.push(c);
                assert(out@ =~= o.push(x[i as int]));
            }
            i = i + 1;
        }
        assert(x.subrange(0, n as int) =~= x);
        out
    }

    /// One level of un-nesting: an array element contributes its elements,
    /// any other element itself.
    pub fn flatten(self) -> (r: Array)
        ensures
            r@ == flatten_of(self@),
    {
        let ghost x = self@;
        let n = self.0.len();
        let mut out = Array::new();
        let mut i: usize = 0;
        while i < n
            invariant
                n == self.0.len(),
                x == self@,
                i <= n,
                out@ == flatten_of(x.subrange(0, i as int)),
            decreases n - i,
        {
            assert(x.subrange(0, i + 1).drop_last() =~= x.subrange(0, i as int));
            let ghost o = out@;
            match &self.0[i] {
                Value::Array(inner) => {
                    let mut c = values_clone(&inner.0);
                    proof {
                        lemma_values_view(inner.0@);
                    }
                    let ghost cv = c@.map_values(|v: Value| v@);
                    out.0.append(&mut c);
                    assert(out@ =~= o + cv);
                },
                v => {
                    let c = value_clone(v);
                    out.0.push(c);
                    assert(out@ =~= o + seq![x[i as int]]);
                },
            }
            i = i + 1;
        }
        assert(x.subrange(0, n as int) =~= x);
        out
    }

    /// The pairs `[a, b]` of an element of `self` and one of `other`, outer
    /// over `self`, inner over `other`.
    pub fn combine(self, other: Array) -> (r: Array)
        ensures
            r@ == combine_of(self@, other@),
    {
        let ghost x = self@;
        let ghost y = other@;
        let n = self.0.len();
        let m = other.0.len();
        let cap: usize = match n.checked_mul(m) {
            Some(c) => c,
            None => usize::MAX,
        };
        let mut out = Array::with_capacity(cap);
        let mut i: usize = 0;
        while i < n
            invariant
                n == self.0.len(),
                m == other.0.len(),
                x == self@,
                y == other@,
                i <= n,
                out@ == combine_of(x.subrange(0, i as int), y),
            decreases n - i,
        {
            let ghost before = out@;
            let mut j: usize = 0;
            while j < m
                invariant
                    n == self.0.len(),
                    m == other.0.len(),
                    x == self@,
                    y == other@,
                    i < n,
                    j <= m,
                    out@ == before + y.subrange(0, j as int).map_values(
                        |w: ValueView| pair(x[i as int], w),
                    ),
                decreases m - j,
            {
                let p = vec![value_clone(&self.0[i]), value_clone(&other.0[j])];
                proof {
                    lemma_values_view(p@);
                    assert(p@.map_values(|v: Value| v@) =~= seq![x[i as int], y[j as int]]);
                }
                let ghost o = out@;
                out.0.push(Value::Array(Array(p)));
                assert(out@ =~= o.push(pair(x[i as int], y[j as int])));
                j = j + 1;
                assert(out@ =~= before + y.subrange(0, j as int).map_values(
                    |w: ValueView| pair(x[i as int], w),
                ));
            }
            assert(x.subrange(0, i + 1).drop_last() =~= x.subrange(0, i as int));
            assert(y.subrange(0, m as int) =~= y);
            i = i + 1;
        }
        assert(x.subrange(0, n as int) =~= x);
        out
    }

    /// The elements of `self`, in order, that consume an unused equal element
    /// of `other`.
    pub fn intersect(self, other: Array) -> (r: Array)
        ensures
            r@ == intersect_of(self@, other@),
    {
        let ghost x = self@;
        let mut b = other;
        let n = self.0.len();
        let mut out = Array::new();
        let mut i: usize = 0;
        assert(x.subrange(0, n as int) =~= x);
        assert(out@ + intersect_of(x, b@) =~= intersect_of(x, b@));
        while i < n
            invariant
                n == self.0.len(),
                x == self@,
                i <= n,
                out@ + intersect_of(x.subrange(i as int, n as int), b@) == intersect_of(x, other@),
            decreases n - i,
        {
            let ghost s = x.subrange(i as int, n as int);
            assert(s.drop_first() =~= x.subrange(i + 1, n as int));
            assert(s[0] == x[i as int]);
            let p = position(&b.0, &self.0[i]);
            proof {
                lemma_position_views(b.0@, x[i as int], p);
            }
            if let Some(k) = p {
                let ghost o = out@;
                b.0.remove(k);
                let c = value_clone(&self.0[i]);
                out.0.push(c);
                assert(out@ =~= o.push(x[i as int]));
                assert(out@ + intersect_of(x.subrange(i + 1, n as int), b@) =~= o + (seq![x[i as int]]
                    + intersect_of(x.subrange(i + 1, n as int), b@)));
            }
            i = i + 1;
        }
        assert(x.subrange(0, n as int) =~= x);
        assert(out@ + Seq::<ValueView>::empty() =~= out@);
        out
    }

    /// The elements of `self` left without an equal element of `other`, each
    /// element of `other` matched once, followed by the unmatched rest of `other`.
    pub fn difference(self, other: Array) -> (r: Array)
        ensures
            r@ == difference_of(self@, other@),
    {
        let ghost x = self@;
        let mut b = other;
        let n = self.0.len();
        let mut out = Array::new();
        let mut i: usize = 0;
        assert(x.subrange(0, n as int) =~= x);
        assert(out@ + difference_of(x, b@) =~= difference_of(x, b@));
        while i < n
            invariant
                n == self.0.len(),
                x == self@,
                i <= n,
                out@ + difference_of(x.subrange(i as int, n as int), b@) == difference_of(x, other@),
            decreases n - i,
        {
            let ghost s = x.subrange(i as int, n as int);
            assert(s.drop_first() =~= x.subrange(i + 1, n as int));
            assert(s[0] == x[i as int]);
            let p = position(&b.0, &self.0[i]);
            proof {
                lemma_position_views(b.0@, x[i as int], p);
            }
            if let Some(k) = p {
                b.0.remove(k);
            } else {
                let ghost o = out@;
                let c = value_clone(&self.0[i]);
                out.0.push(c);
                assert(out@ =~= o.push(x[i as int]));
                assert(out@ + difference_of(x.subrange(i + 1, n as int), b@) =~= o + (seq![x[i as int]]
                    + difference_of(x.subrange(i + 1, n as int), b@)));
            }
            i = i + 1;
        }
        assert(x.subrange(0, n as int) =~= x);
        let ghost o = out@;
        let ghost bv = b@;
        out.0.append(&mut b.0);
        assert(x.subrange(n as int, n as int) =~= Seq::<ValueView>::empty());
        assert(out@ =~= o + bv);
        out
    }

}

} // verus!
