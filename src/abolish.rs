//! Stable removal of elements chosen by index.

use vstd::prelude::*;

verus! {

/// The elements of `s` whose mark in `m` is false, in their order.
pub open spec fn retained<T>(s: Seq<T>, m: Seq<bool>) -> Seq<T>
    recommends
        s.len() == m.len(),
    decreases s.len(),
{
    if s.len() == 0 || m.len() == 0 {
        Seq::empty()
    } else {
        let r = retained(s.drop_last(), m.drop_last());
        if m.last() {
            r
        } else {
            r.push(s.last())
        }
    }
}

/// Stable removal of the elements whose index satisfies a predicate.
pub trait Abolish<T>: Sized + View<V = Seq<T>> {
    /// Calls `f` on each index in increasing order, then removes the elements
    /// on whose index it answered true; the others keep their order.
    fn abolish<F: Fn(usize) -> bool>(&mut self, f: F)
        requires
            forall|i: usize| i < old(self)@.len() ==> f.requires((i,)),
        ensures
            exists|m: Seq<bool>|
                m.len() == old(self)@.len() && (forall|i: int|
                    0 <= i < m.len() ==> f.ensures((i as usize,), #[trigger] m[i]))
                    && final(self)@ == retained(old(self)@, m),
    ;
}

impl<T> Abolish<T> for Vec<T> {
    fn abolish<F: Fn(usize) -> bool>(&mut self, f: F) {
        let n = self.len();
        let mut marks: Vec<bool> = Vec::with_capacity(n);
        let mut i: usize = 0;
        while i < n
            invariant
                n == self@.len(),
                i <= n,
                marks.len() == i,
                forall|i: usize| i < n ==> f.requires((i,)),
                forall|j: int| 0 <= j < i ==> f.ensures((j as usize,), #[trigger] marks@[j]),
            decreases n - i,
        {
            let b = f(i);
            marks.push(b);
            i = i + 1;
        }
        let ghost orig = self@;
        let mut k: usize = 0;
        i = 0;
        while i < n
            invariant
                n == orig.len(),
                marks.len() == n,
                i <= n,
                k <= i,
                k == retained(orig.subrange(0, i as int), marks@.subrange(0, i as int)).len(),
                self@ == retained(orig.subrange(0, i as int), marks@.subrange(0, i as int))
                    + orig.subrange(i as int, n as int),
            decreases n - i,
        {
            proof {
                assert(orig.subrange(0, i + 1).drop_last() =~= orig.subrange(0, i as int));
                assert(marks@.subrange(0, i + 1).drop_last() =~= marks@.subrange(0, i as int));
            }
            assert(self@.len() == k + (n - i));
            let ghost r = retained(orig.subrange(0, i as int), marks@.subrange(0, i as int));
            if marks[i] {
                self.remove(k);
                assert(self@ =~= r + orig.subrange(i + 1, n as int));
            } else {
                assert(self@ =~= r.push(orig[i as int]) + orig.subrange(i + 1, n as int));
                k = k + 1;
            }
            i = i + 1;
        }
        assert(orig.subrange(0, n as int) =~= orig);
        assert(marks@.subrange(0, n as int) =~= marks@);
        assert(self@ =~= retained(orig, marks@));
    }
}

} // verus!
