//! A without-replacement sampler over the indices `0..n`.
//!
//! The bag hands out every index exactly once per pass, in an order driven by
//! the pseudorandom generator; once a pass is exhausted the next draw starts a
//! fresh pass over the full collection. `reset` abandons the current pass.

use vstd::prelude::*;
use crate::rng::{next_of, XorShiftRng};

verus! {

/// A shuffle bag over the indices `0..size()`.
///
/// The indices still undrawn in the current pass sit in `items[0..remaining]`;
/// the indices already drawn sit behind them. Drawing picks a random pending
/// position, swaps it to the boundary and shrinks the pending prefix, which is
/// a draw-as-you-go uniform shuffle.
pub struct ShuffleBag {
    pub items: Vec<usize>,
    pub remaining: usize,
}

impl ShuffleBag {
    /// How many indices the bag cycles through.
    pub open spec fn size(self) -> nat {
        self.items@.len()
    }

    /// The bag always holds a permutation of `0..size()`, and the pending
    /// prefix never outgrows it.
    pub open spec fn wf(self) -> bool {
        &&& self.remaining <= self.items@.len()
        &&& self.items@.no_duplicates()
        &&& forall|i: int| 0 <= i < self.items@.len() ==> self.items@[i] < self.items@.len()
    }

    /// The indices not yet drawn in the current pass.
    pub open spec fn pending(self) -> Seq<usize> {
        self.items@.subrange(0, self.remaining as int)
    }

    /// A bag over `0..n` with a full pass ahead of it.
    pub fn new(n: usize) -> (bag: ShuffleBag)
        requires
            n >= 1,
        ensures
            bag.wf(),
            bag.size() == n,
            bag.remaining == n,
            forall|i: int| 0 <= i < n ==> bag.items@[i] == i,
    {
        let mut items: Vec<usize> = Vec::new();
        let mut i: usize = 0;
        while i < n
            invariant
                i <= n,
                items@.len() == i,
                forall|j: int| 0 <= j < i ==> items@[j] == j,
            decreases n - i,
        {
            items.push(i);
            i = i + 1;
        }
        ShuffleBag { items, remaining: n }
    }

    /// Forgets the current pass so that the next draw starts a fresh one.
    pub fn reset(&mut self)
        requires
            old(self).wf(),
        ensures
            final(self).wf(),
            final(self).items@ == old(self).items@,
            final(self).remaining == final(self).size(),
    {
        self.remaining = self.items.len();
    }

    /// Draws the next index: a pending one chosen by `rng`, or, when the pass
    /// is exhausted, the first index of a fresh pass over everything.
    ///
    /// The outcome is pinned exactly: the draw position comes from one `rng`
    /// step, the chosen index swaps with the end of the pending prefix, and
    /// the prefix shrinks by one, so the drawn index never reappears before
    /// the pass is exhausted.
    pub fn get_next(&mut self, rng: &mut XorShiftRng) -> (idx: usize)
        requires
            old(self).wf(),
            old(self).size() >= 1,
        ensures
            final(self).wf(),
            final(self).size() == old(self).size(),
            idx < old(self).size(),
            final(rng).state == next_of(old(rng).state),
            ({
                let start_rem: int = if old(self).remaining == 0 {
                    old(self).size() as int
                } else {
                    old(self).remaining as int
                };
                let j = next_of(old(rng).state) as int % start_rem;
                let chosen = old(self).items@[j];
                &&& idx == chosen
                &&& final(self).remaining == start_rem - 1
                &&& final(self).items@ == old(self).items@.update(j, old(self).items@[start_rem - 1]).update(
                    start_rem - 1,
                    chosen,
                )
                &&& final(self).items@[start_rem - 1] == idx
            }),
    {
        if self.remaining == 0 {
            self.remaining = self.items.len();
        }
        let j = rng.next_below(self.remaining);
        let last = self.remaining - 1;
        let chosen = self.items[j];
        let other = self.items[last];
        self.items[j] = other;
        self.items[last] = chosen;
        self.remaining = last;
        proof {
            let o = old(self).items@;
            let f = self.items@;
            assert(f =~= o.update(j as int, o[last as int]).update(last as int, o[j as int]));
            assert forall|p: int, q: int|
                0 <= p < f.len() && 0 <= q < f.len() && p != q implies f[p] != f[q] by {
                assert(o.no_duplicates());
            }
        }
        chosen
    }
}

} // verus!
