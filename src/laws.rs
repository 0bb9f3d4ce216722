//! Laws that relate the set-algebra operators to their models.

use vstd::prelude::*;
use crate::algebra::{flatten_of, intersect_of, remove_first, spliced, uniq_of};
use crate::value::ValueView;

verus! {

/// No element of `s` occurs twice.
pub open spec fn no_duplicates(s: Seq<ValueView>) -> bool {
    forall|i: int, j: int| 0 <= i < j < s.len() ==> s[i] != s[j]
}

/// `x` occurs in `s` before position `q`.
pub open spec fn occurs_before(s: Seq<ValueView>, x: ValueView, q: int) -> bool {
    exists|p: int| 0 <= p < q && s[p] == x
}

/// Each element of `u` occurs in `s` before every occurrence in `s` of each
/// later element of `u`.
pub open spec fn first_occurrence_order(u: Seq<ValueView>, s: Seq<ValueView>) -> bool {
    forall|i: int, j: int, q: int|
        #![trigger u[i], u[j], s[q]]
        0 <= i < j < u.len() && 0 <= q < s.len() && s[q] == u[j] ==> occurs_before(s, u[i], q)
}

/// `v` is an array.
pub open spec fn is_array(v: ValueView) -> bool {
    v is Array
}

proof fn lemma_uniq(s: Seq<ValueView>)
    ensures
        no_duplicates(uniq_of(s)),
        forall|x: ValueView| uniq_of(s).contains(x) <==> s.contains(x),
        first_occurrence_order(uniq_of(s), s),
    decreases s.len(),
{
    if s.len() > 0 {
        let t = s.drop_last();
        let x = s.last();
        let n = t.len() as int;
        lemma_uniq(t);
        let u = uniq_of(t);
        assert forall|y: ValueView| t.contains(y) implies s.contains(y) by {
            let k = choose|k: int| 0 <= k < t.len() && t[k] == y;
            assert(s[k] == y);
        }
        assert(s[n] == x);
        if t.contains(x) {
            assert(uniq_of(s) == u);
            assert forall|y: ValueView| s.contains(y) implies t.contains(y) by {
                let k = choose|k: int| 0 <= k < s.len() && s[k] == y;
                if k < n {
                    assert(t[k] == y);
                }
            }
            assert forall|i: int, j: int, q: int|
                #![trigger u[i], u[j], s[q]]
                0 <= i < j < u.len() && 0 <= q < s.len() && s[q] == u[j] implies occurs_before(s, u[i], q) by {
                let q2 = if q < n {
                    q
                } else {
                    choose|k: int| 0 <= k < t.len() && t[k] == x
                };
                assert(t[q2] == u[j]);
                assert(occurs_before(t, u[i], q2));
                let p = choose|p: int| 0 <= p < q2 && t[p] == u[i];
                assert(s[p] == u[i]);
            }
            assert(first_occurrence_order(u, s));
        } else {
            let w = u.push(x);
            assert(uniq_of(s) == w);
            assert forall|y: ValueView| w.contains(y) <==> s.contains(y) by {
                if w.contains(y) {
                    let k = choose|k: int| 0 <= k < w.len() && w[k] == y;
                    if k < u.len() {
                        assert(u[k] == y);
                        assert(u.contains(y));
                    } else {
                        assert(s[n] == y);
                    }
                }
                if s.contains(y) {
                    let k = choose|k: int| 0 <= k < s.len() && s[k] == y;
                    if k < n {
                        assert(t[k] == y);
                        assert(t.contains(y));
                        assert(u.contains(y));
                        let m = choose|m: int| 0 <= m < u.len() && u[m] == y;
                        assert(w[m] == y);
                    } else {
                        assert(w[u.len() as int] == y);
                    }
                }
            }
            assert forall|i: int, j: int| 0 <= i < j < w.len() implies w[i] != w[j] by {
                if j == u.len() {
                    assert(u.contains(w[i]));
                } else {
                    assert(u[i] != u[j]);
                }
            }
            assert forall|i: int, j: int, q: int|
                #![trigger w[i], w[j], s[q]]
                0 <= i < j < w.len() && 0 <= q < s.len() && s[q] == w[j] implies occurs_before(s, w[i], q) by {
                assert(w[i] == u[i]);
                assert(u.contains(u[i]));
                assert(t.contains(u[i]));
                if j == u.len() {
                    if q < n {
                        assert(t[q] == x);
                    }
                    let p = choose|p: int| 0 <= p < t.len() && t[p] == u[i];
                    assert(s[p] == w[i]);
                } else {
                    assert(u.contains(u[j]));
                    if q == n {
                        assert(t.contains(x));
                    }
                    assert(t[q] == u[j]);
                    assert(occurs_before(t, u[i], q));
                    let p = choose|p: int| 0 <= p < q && t[p] == u[i];
                    assert(s[p] == w[i]);
                }
            }
            assert(first_occurrence_order(w, s));
        }
    }
}

proof fn lemma_uniq_of_distinct(s: Seq<ValueView>)
    requires
        no_duplicates(s),
    ensures
        uniq_of(s) == s,
    decreases s.len(),
{
    if s.len() > 0 {
        let t = s.drop_last();
        assert(no_duplicates(t));
        lemma_uniq_of_distinct(t);
        if t.contains(s.last()) {
            let k = choose|k: int| 0 <= k < t.len() && t[k] == s.last();
            assert(s[k] == s[s.len() - 1]);
        }
        assert(t.push(s.last()) =~= s);
    }
}

/// A union holds each element of either operand once, and in the order of
/// its first occurrence in the first operand followed by the second.
pub proof fn union_law(a: Seq<ValueView>, b: Seq<ValueView>)
    ensures
        no_duplicates(uniq_of(a + b)),
        forall|x: ValueView| uniq_of(a + b).contains(x) <==> (a + b).contains(x),
        first_occurrence_order(uniq_of(a + b), a + b),
{
    lemma_uniq(a + b);
}

/// Removing duplicates twice removes no more than doing it once.
pub proof fn uniq_idempotent(a: Seq<ValueView>)
    ensures
        uniq_of(uniq_of(a)) == uniq_of(a),
{
    lemma_uniq(a);
    lemma_uniq_of_distinct(uniq_of(a));
}

proof fn lemma_remove_first_len(s: Seq<ValueView>, x: ValueView)
    ensures
        s.contains(x) ==> remove_first(s, x).len() == s.len() - 1,
        !s.contains(x) ==> remove_first(s, x).len() == s.len(),
    decreases s.len(),
{
    if s.len() > 0 {
        lemma_remove_first_len(s.drop_first(), x);
        if s[0] != x {
            if s.contains(x) {
                let k = choose|k: int| 0 <= k < s.len() && s[k] == x;
                assert(s.drop_first()[k - 1] == x);
            }
            if s.drop_first().contains(x) {
                let k = choose|k: int| 0 <= k < s.drop_first().len() && s.drop_first()[k] == x;
                assert(s[k + 1] == x);
            }
        } else {
            assert(s[0] == x);
        }
    }
}

/// An intersection is no longer than either operand, and each of its
/// elements occurs in the first one.
pub proof fn intersect_law(a: Seq<ValueView>, b: Seq<ValueView>)
    ensures
        intersect_of(a, b).len() <= a.len(),
        intersect_of(a, b).len() <= b.len(),
        forall|i: int| 0 <= i < intersect_of(a, b).len() ==> a.contains(#[trigger] intersect_of(a, b)[i]),
    decreases a.len(),
{
    if a.len() > 0 {
        let t = a.drop_first();
        let r = intersect_of(a, b);
        if b.contains(a[0]) {
            let b2 = remove_first(b, a[0]);
            lemma_remove_first_len(b, a[0]);
            intersect_law(t, b2);
            assert forall|i: int| 0 <= i < r.len() implies a.contains(#[trigger] r[i]) by {
                if i == 0 {
                    assert(a[0] == r[0]);
                } else {
                    assert(r[i] == intersect_of(t, b2)[i - 1]);
                    let k = choose|k: int| 0 <= k < t.len() && t[k] == r[i];
                    assert(a[k + 1] == r[i]);
                }
            }
        } else {
            intersect_law(t, b);
            assert forall|i: int| 0 <= i < r.len() implies a.contains(#[trigger] r[i]) by {
                let k = choose|k: int| 0 <= k < t.len() && t[k] == r[i];
                assert(a[k + 1] == r[i]);
            }
        }
    }
}

/// Flattening an array whose array elements hold no arrays leaves no array
/// among the elements.
pub proof fn flatten_law(a: Seq<ValueView>)
    requires
        forall|i: int, j: int|
            0 <= i < a.len() && (#[trigger] a[i] is Array) && 0 <= j < a[i]->Array_0.len()
                ==> !is_array(#[trigger] a[i]->Array_0[j]),
    ensures
        forall|k: int| 0 <= k < flatten_of(a).len() ==> !is_array(#[trigger] flatten_of(a)[k]),
    decreases a.len(),
{
    if a.len() > 0 {
        let t = a.drop_last();
        assert forall|i: int, j: int|
            0 <= i < t.len() && (#[trigger] t[i] is Array) && 0 <= j < t[i]->Array_0.len()
                implies !is_array(#[trigger] t[i]->Array_0[j]) by {
            assert(a[i] == t[i]);
        }
        flatten_law(t);
        let f = flatten_of(t);
        let l = a.last();
        assert(a[a.len() - 1] == l);
        assert forall|k: int| 0 <= k < flatten_of(a).len() implies !is_array(#[trigger] flatten_of(a)[k]) by {
            if k >= f.len() {
                assert(flatten_of(a)[k] == spliced(l)[k - f.len()]);
            } else {
                assert(flatten_of(a)[k] == f[k]);
            }
        }
    }
}

} // verus!
