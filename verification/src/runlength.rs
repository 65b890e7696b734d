//! Run-length collapsing: turns a sequence of comparable elements into
//! (count, element) pairs, one pair per maximal run of consecutive equal
//! elements, consumed in a single forward pass.

use vstd::prelude::*;
use vstd::std_specs::cmp::PartialEqSpec;

verus! {

/// Length of the maximal run of elements equal to `s[0]` at the front of `s`
/// (zero for an empty sequence).
pub open spec fn run_front<T>(s: Seq<T>) -> nat
    decreases s.len(),
{
    if s.len() == 0 {
        0
    } else if s.len() >= 2 && s[1] == s[0] {
        (1 + run_front(s.drop_first())) as nat
    } else {
        1
    }
}

pub proof fn lemma_run_front_bounds<T>(s: Seq<T>)
    ensures
        s.len() == 0 ==> run_front(s) == 0,
        s.len() > 0 ==> 1 <= run_front(s) <= s.len(),
    decreases s.len(),
{
    if s.len() >= 2 && s[1] == s[0] {
        lemma_run_front_bounds(s.drop_first());
    }
}

/// All elements of the front run equal the first element, and the run is
/// maximal: the element just past it (if any) differs.
pub proof fn lemma_run_front_is_run<T>(s: Seq<T>)
    requires
        s.len() > 0,
    ensures
        1 <= run_front(s) <= s.len(),
        forall|i: int| 0 <= i < run_front(s) ==> #[trigger] s[i] == s[0],
        run_front(s) < s.len() ==> s[run_front(s) as int] != s[0],
    decreases s.len(),
{
    lemma_run_front_bounds(s);
    if s.len() >= 2 && s[1] == s[0] {
        lemma_run_front_is_run(s.drop_first());
        assert forall|i: int| 0 <= i < run_front(s) implies #[trigger] s[i] == s[0] by {
            if i >= 1 {
                assert(s.drop_first()[i - 1] == s.drop_first()[0]);
            }
        }
    }
}

/// The exact count that identifies the front run: `k` leading elements equal
/// to the first, followed by the end of the sequence or a different element.
pub proof fn lemma_run_front_char<T>(s: Seq<T>, k: int)
    requires
        0 < k <= s.len(),
        forall|i: int| 0 <= i < k ==> #[trigger] s[i] == s[0],
        k == s.len() || s[k] != s[0],
    ensures
        run_front(s) == k,
    decreases s.len(),
{
    if s.len() >= 2 && s[1] == s[0] {
        assert(k != 1);
        let t = s.drop_first();
        assert forall|i: int| 0 <= i < k - 1 implies #[trigger] t[i] == t[0] by {
            assert(t[i] == s[i + 1]);
        }
        lemma_run_front_char(t, k - 1);
    } else {
        if s.len() >= 2 && k >= 2 {
            assert(s[1] == s[0]);
        }
    }
}

/// Holds for element types whose `==` agrees with mathematical equality,
/// such as the integer types; the contracts below are exact only then.
pub open spec fn eq_is_structural<T: PartialEq>() -> bool {
    &&& T::obeys_eq_spec()
    &&& forall|a: T, b: T| #[trigger] a.eq_spec(&b) <==> a == b
}

/// A single-pass producer of (count, element) pairs over a sequence of
/// elements; each call to `next` consumes one maximal run.
pub struct RunLength<T> {
    items: Vec<T>,
    pos: usize,
}

impl<T> View for RunLength<T> {
    type V = Seq<T>;

    closed spec fn view(&self) -> Seq<T> {
        self.items@.skip(self.pos as int)
    }
}

impl<T> RunLength<T> {
    /// The position never runs past the end of the underlying elements.
    pub closed spec fn wf(self) -> bool {
        self.pos <= self.items@.len()
    }
}

impl<T: Copy + Eq> RunLength<T> {
    pub fn new(items: Vec<T>) -> (r: RunLength<T>)
        ensures
            r@ == items@,
            r.wf(),
    {
        RunLength { items, pos: 0 }
    }

    /// Consumes the maximal run of equal elements at the front and returns
    /// its length together with the repeated element; `None` once empty.
    pub fn next(&mut self) -> (r: Option<(usize, T)>)
        requires
            old(self).wf(),
        ensures
            final(self).wf(),
            old(self)@.len() == 0 ==> r is None && final(self)@ == old(self)@,
            old(self)@.len() > 0 ==> (r matches Some(p)
                && 1 <= p.0 <= old(self)@.len()
                && p.1 == old(self)@[0]
                && final(self)@ == old(self)@.skip(p.0 as int)),
            eq_is_structural::<T>() && old(self)@.len() > 0 ==> (r matches Some(p)
                && p.0 == run_front(old(self)@)),
    {
        if self.pos == self.items.len() {
            return None;
        }
        let ghost s0 = self@;
        let ghost items0 = self.items@;
        let start = self.pos;
        let current = self.items[self.pos];
        self.pos = self.pos + 1;
        let mut n: usize = 1;
        loop
            invariant
                self.items@ == items0,
                start < self.pos <= items0.len(),
                n == self.pos - start,
                current == items0[start as int],
                eq_is_structural::<T>() ==> (forall|j: int|
                    start <= j < self.pos ==> items0[j] == items0[start as int]),
            ensures
                self.items@ == items0,
                start < self.pos <= items0.len(),
                n == self.pos - start,
                eq_is_structural::<T>() ==> (forall|j: int|
                    start <= j < self.pos ==> items0[j] == items0[start as int]),
                eq_is_structural::<T>() ==> (self.pos == items0.len()
                    || items0[self.pos as int] != items0[start as int]),
            decreases items0.len() - self.pos,
        {
            if self.pos == self.items.len() {
                break;
            }
            let same = self.items[self.pos] == current;
            if !same {
                break;
            }
            self.pos = self.pos + 1;
            n = n + 1;
        }
        proof {
            assert(s0 == items0.skip(start as int));
            assert(self@ == items0.skip(self.pos as int));
            assert(s0.len() == items0.len() - start);
            assert(self@ =~= s0.skip(n as int));
            if eq_is_structural::<T>() {
                assert forall|i: int| 0 <= i < n implies #[trigger] s0[i] == s0[0] by {
                    assert(s0[i] == items0[start + i]);
                }
                assert(n == s0.len() || s0[n as int] != s0[0]);
                lemma_run_front_char(s0, n as int);
            }
        }
        Some((n, current))
    }
}

/// Entry point mirroring an iterator adaptor: anything that can hand over
/// its elements can be collapsed into run-length pairs.
pub trait RunLengthIterator<T>: Sized {
    spec fn elements(self) -> Seq<T>;

    fn run_length(self) -> (r: RunLength<T>)
        ensures
            r@ == self.elements(),
            r.wf(),
    ;
}

impl<T: Copy + Eq> RunLengthIterator<T> for Vec<T> {
    open spec fn elements(self) -> Seq<T> {
        self@
    }

    fn run_length(self) -> (r: RunLength<T>) {
        RunLength::new(self)
    }
}

} // verus!
