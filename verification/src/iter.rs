//! Rank-addressed range iteration: a finite cursor over a sub-range of the
//! map's in-order sequence, forward or reverse.

use vstd::prelude::*;
use vstd::math::min;
use core::ops::Range;
use crate::map::{TreapMap, push_pairs};

verus! {

/// Where a rank range's end lands once capped to the sequence's length.
pub open spec fn clamp_hi<V>(s: Seq<(u64, V)>, end: u32) -> int {
    min(end as int, s.len() as int)
}

/// Where a rank range's start lands: never past the capped end, so an empty
/// or inverted range yields nothing.
pub open spec fn clamp_lo<V>(s: Seq<(u64, V)>, start: u32, end: u32) -> int {
    min(start as int, clamp_hi(s, end))
}

/// A lazy, finite, non-restartable cursor over a rank range of a `TreapMap`,
/// fixed at construction: it borrows the map and yields each pair's key with
/// a borrowed value, at most `end - start` of them.
pub struct Iter<'a, V> {
    items: Vec<(u64, &'a V)>,
    pos: usize,
}

impl<'a, V> Iter<'a, V> {
    /// The pairs still to be yielded, in the order they will come.
    pub closed spec fn pending(&self) -> Seq<(u64, V)> {
        Seq::new(
            (self.items@.len() - self.pos) as nat,
            |i: int| (self.items@[self.pos + i].0, *self.items@[self.pos + i].1),
        )
    }

    /// The cursor's position has not run past its items.
    pub closed spec fn wf(&self) -> bool {
        self.pos <= self.items@.len()
    }

    /// How many pairs are still to come.
    pub fn remaining(&self) -> (r: usize)
        requires
            self.wf(),
        ensures
            r == self.pending().len(),
    {
        self.items.len() - self.pos
    }

    /// Yield the next pair, or nothing once the range is exhausted.
    pub fn next(&mut self) -> (r: Option<(u64, &'a V)>)
        requires
            old(self).wf(),
        ensures
            final(self).wf(),
            old(self).pending().len() == 0 ==> r is None
                && final(self).pending() == old(self).pending(),
            old(self).pending().len() > 0 ==> (r matches Some(p)
                && p.0 == old(self).pending()[0].0
                && *p.1 == old(self).pending()[0].1
                && final(self).pending() == old(self).pending().drop_first()),
    {
        if self.pos < self.items.len() {
            let p = self.items[self.pos];
            self.pos = self.pos + 1;
            proof {
                assert(final(self).pending() =~= old(self).pending().drop_first());
            }
            Some(p)
        } else {
            proof {
                assert(final(self).pending() =~= old(self).pending());
            }
            None
        }
    }
}

impl<V> TreapMap<V> {
    /// Forward iteration over the pairs whose ranks lie in `range`: the end
    /// is capped to the map's length, and a start at or past the capped end
    /// yields an empty cursor.
    pub fn slice(&self, range: Range<u32>) -> (it: Iter<'_, V>)
        requires
            self.wf(),
        ensures
            it.wf(),
            it.pending() == self@.subrange(
                clamp_lo(self@, range.start, range.end),
                clamp_hi(self@, range.end),
            ),
    {
        let ghost glo = clamp_lo(self@, range.start, range.end);
        let ghost ghi = clamp_hi(self@, range.end);
        let end = if range.end < self.len() {
            range.end
        } else {
            self.len()
        };
        let start = if range.start < end {
            range.start
        } else {
            end
        };
        let mut all: Vec<(u64, &V)> = Vec::new();
        push_pairs(self, &mut all);
        proof {
            assert forall|q: int| 0 <= q < all@.len()
                implies (#[trigger] all@[q]).0 == self@[q].0 && *all@[q].1 == self@[q].1 by {
                assert(all@[0 + q].0 == self@[q].0);
                assert(*all@[0 + q].1 == self@[q].1);
            }
        }
        let mut items: Vec<(u64, &V)> = Vec::new();
        let mut i = start as usize;
        while i < end as usize
            invariant
                glo == start && ghi == end,
                glo <= i <= ghi <= all@.len() == self@.len(),
                items@.len() == i - glo,
                forall|q: int| 0 <= q < all@.len()
                    ==> (#[trigger] all@[q]).0 == self@[q].0 && *all@[q].1 == self@[q].1,
                forall|q: int| 0 <= q < items@.len() ==> items@[q] == all@[glo + q],
            decreases end as int - i,
        {
            let p = all[i];
            items.push(p);
            i = i + 1;
        }
        let it = Iter { items, pos: 0 };
        proof {
            assert(it.pending() =~= self@.subrange(glo, ghi));
        }
        it
    }

    /// Reverse iteration over the same rank range: the pairs of
    /// `slice(range)` in the opposite order, largest rank first.
    pub fn rev_slice(&self, range: Range<u32>) -> (it: Iter<'_, V>)
        requires
            self.wf(),
        ensures
            it.wf(),
            it.pending() == self@.subrange(
                clamp_lo(self@, range.start, range.end),
                clamp_hi(self@, range.end),
            ).reverse(),
    {
        let ghost glo = clamp_lo(self@, range.start, range.end);
        let ghost ghi = clamp_hi(self@, range.end);
        let end = if range.end < self.len() {
            range.end
        } else {
            self.len()
        };
        let start = if range.start < end {
            range.start
        } else {
            end
        };
        let mut all: Vec<(u64, &V)> = Vec::new();
        push_pairs(self, &mut all);
        proof {
            assert forall|q: int| 0 <= q < all@.len()
                implies (#[trigger] all@[q]).0 == self@[q].0 && *all@[q].1 == self@[q].1 by {
                assert(all@[0 + q].0 == self@[q].0);
                assert(*all@[0 + q].1 == self@[q].1);
            }
        }
        let mut items: Vec<(u64, &V)> = Vec::new();
        let mut i = end as usize;
        while i > start as usize
            invariant
                glo == start && ghi == end,
                glo <= i <= ghi <= all@.len() == self@.len(),
                items@.len() == ghi - i,
                forall|q: int| 0 <= q < all@.len()
                    ==> (#[trigger] all@[q]).0 == self@[q].0 && *all@[q].1 == self@[q].1,
                forall|q: int| 0 <= q < items@.len() ==> items@[q] == all@[ghi - 1 - q],
            decreases i,
        {
            i = i - 1;
            let p = all[i];
            items.push(p);
        }
        let it = Iter { items, pos: 0 };
        proof {
            assert(it.pending() =~= self@.subrange(glo, ghi).reverse());
        }
        it
    }
}

} // verus!
