//! The ordered set: a key-only projection of the map, every value collapsed
//! to unit. No algorithm or state of its own — each operation delegates.

use vstd::prelude::*;
use vstd::math::min;
use crate::map::TreapMap;
use crate::model::{
    key_seq, ksorted_strict, ksorted, kcontains, krank_lt, krank_le, dedup_keys,
    sorted_strict, contains_key, rank_lt, lemma_key_seq_ranks, lemma_key_seq_dedup,
    lemma_rank_lt_bounds,
};

verus! {

/// An ordered set of `u64` keys, addressable by key and by rank. Its abstract
/// value is the strictly sorted sequence of its keys.
pub struct TreapSet {
    m: TreapMap<()>,
}

impl TreapSet {
    /// The abstract value of the set: its keys in increasing order.
    pub closed spec fn as_keys(self) -> Seq<u64> {
        key_seq(self.m@)
    }

    /// The set is well formed.
    pub closed spec fn wf(self) -> bool {
        self.m.wf()
    }
}

impl View for TreapSet {
    type V = Seq<u64>;

    open spec fn view(&self) -> Seq<u64> {
        self.as_keys()
    }
}

impl TreapSet {
    /// A well-formed set's keys are strictly increasing and fit the tree's
    /// `u32` sizes.
    pub proof fn lemma_sorted(self)
        requires
            self.wf(),
        ensures
            ksorted_strict(self@),
            self@.len() <= u32::MAX,
    {
        self.m.lemma_sorted();
    }

    /// The empty set.
    pub fn new() -> (r: Self)
        ensures
            r.wf(),
            r@ == Seq::<u64>::empty(),
    {
        let r = TreapSet { m: TreapMap::new() };
        proof {
            assert(r@ =~= Seq::<u64>::empty());
        }
        r
    }

    /// How many keys the set holds.
    pub fn len(&self) -> (r: u32)
        requires
            self.wf(),
        ensures
            r == self@.len(),
    {
        self.m.len()
    }

    /// Split by key: everything below `key` on the left, everything at or
    /// above it on the right.
    pub fn split(self, key: u64) -> (r: (Self, Self))
        requires
            self.wf(),
        ensures
            r.0.wf(),
            r.1.wf(),
            r.0@ == self@.take(krank_lt(self@, key)),
            r.1@ == self@.skip(krank_lt(self@, key)),
    {
        let ghost s = self.m@;
        proof {
            lemma_key_seq_ranks(s, key);
            lemma_rank_lt_bounds(s, key);
        }
        let (l, rr) = self.m.split_lt(key);
        let out = (TreapSet { m: l }, TreapSet { m: rr });
        proof {
            assert(out.0@ =~= key_seq(s).take(krank_lt(key_seq(s), key)));
            assert(out.1@ =~= key_seq(s).skip(krank_lt(key_seq(s), key)));
        }
        out
    }

    /// Split by rank: the `n` smallest keys on the left, the rest on the
    /// right.
    pub fn split_n(self, n: u32) -> (r: (Self, Self))
        requires
            self.wf(),
        ensures
            r.0.wf(),
            r.1.wf(),
            r.0@ == self@.take(min(n as int, self@.len() as int)),
            r.1@ == self@.skip(min(n as int, self@.len() as int)),
    {
        let ghost s = self.m@;
        let (l, rr) = self.m.split_n(n);
        let out = (TreapSet { m: l }, TreapSet { m: rr });
        proof {
            assert(out.0@ =~= key_seq(s).take(min(n as int, key_seq(s).len() as int)));
            assert(out.1@ =~= key_seq(s).skip(min(n as int, key_seq(s).len() as int)));
        }
        out
    }

    /// Recombine two sets, every key of `x` below every key of `y`: the
    /// result's keys are `x`'s followed by `y`'s.
    pub fn merge(x: Self, y: Self) -> (r: Self)
        requires
            x.wf(),
            y.wf(),
            forall|i: int, j: int|
                0 <= i < x@.len() && 0 <= j < y@.len() ==> x@[i] < y@[j],
            x@.len() + y@.len() <= u32::MAX,
        ensures
            r.wf(),
            r@ == x@ + y@,
    {
        let ghost xs = x.m@;
        let ghost ys = y.m@;
        proof {
            assert forall|i: int, j: int|
                0 <= i < xs.len() && 0 <= j < ys.len()
                    implies #[trigger] xs[i].0 < #[trigger] ys[j].0 by {
                assert(x@[i] == xs[i].0);
                assert(y@[j] == ys[j].0);
                assert(x@[i] < y@[j]);
            }
        }
        let r = TreapSet { m: TreapMap::merge(x.m, y.m) };
        proof {
            assert(r@ =~= key_seq(xs) + key_seq(ys));
        }
        r
    }

    /// Insert a key: the set is unchanged if it was already there, otherwise
    /// the key takes its place in order. Hands back whether it was new.
    pub fn insert(&mut self, key: u64) -> (r: bool)
        requires
            old(self).wf(),
            old(self)@.len() < u32::MAX,
        ensures
            final(self).wf(),
            r == !kcontains(old(self)@, key),
            kcontains(old(self)@, key) ==> final(self)@ == old(self)@,
            !kcontains(old(self)@, key) ==> final(self)@ == old(self)@.take(
                krank_lt(old(self)@, key),
            ) + seq![key] + old(self)@.skip(krank_lt(old(self)@, key)),
    {
        let ghost s0 = self.m@;
        proof {
            lemma_key_seq_ranks(s0, key);
            self.m.lemma_sorted();
            crate::model::lemma_rank_lt_split(s0, key);
            if !contains_key(s0, key) {
                crate::model::lemma_lookup_absent(s0, key);
            }
        }
        let prev = self.m.insert(key, ());
        proof {
            if contains_key(s0, key) {
                let cut = rank_lt(s0, key);
                assert(s0[cut] == (key, ()));
                assert(self.m@ =~= s0);
                assert(final(self)@ =~= old(self)@);
                crate::model::lemma_lookup_at(s0, key, cut);
                assert(prev is Some);
            } else {
                assert(final(self)@ =~= old(self)@.take(krank_lt(key_seq(s0), key))
                    + seq![key] + old(self)@.skip(krank_lt(key_seq(s0), key)));
            }
        }
        prev.is_none()
    }

    /// How many keys lie strictly below `key`.
    pub fn num_lt(&self, key: u64) -> (r: u32)
        requires
            self.wf(),
        ensures
            r == krank_lt(self@, key),
    {
        proof {
            lemma_key_seq_ranks(self.m@, key);
        }
        self.m.num_lt(key)
    }

    /// How many keys lie at or below `key`.
    pub fn num_le(&self, key: u64) -> (r: u32)
        requires
            self.wf(),
        ensures
            r == krank_le(self@, key),
    {
        proof {
            lemma_key_seq_ranks(self.m@, key);
        }
        self.m.num_le(key)
    }

    /// The key of rank `n`: the `n`-th smallest, if the set is that large.
    pub fn nth(&self, n: u32) -> (r: Option<u64>)
        requires
            self.wf(),
        ensures
            n < self@.len() ==> r == Some(self@[n as int]),
            n >= self@.len() ==> r is None,
    {
        match self.m.nth_kv(n) {
            Some(p) => Some(p.0),
            None => None,
        }
    }

    /// The smallest key, if any.
    pub fn min(&self) -> (r: Option<u64>)
        requires
            self.wf(),
        ensures
            self@.len() == 0 ==> r is None,
            self@.len() > 0 ==> r == Some(self@[0]),
    {
        self.m.min_key()
    }

    /// The largest key, if any.
    pub fn max(&self) -> (r: Option<u64>)
        requires
            self.wf(),
        ensures
            self@.len() == 0 ==> r is None,
            self@.len() > 0 ==> r == Some(self@.last()),
    {
        self.m.max_key()
    }

    /// Membership: the stored key itself when present, nothing otherwise.
    pub fn get(&self, key: u64) -> (r: Option<u64>)
        requires
            self.wf(),
        ensures
            r == (if kcontains(self@, key) {
                Some(key)
            } else {
                None::<u64>
            }),
    {
        proof {
            lemma_key_seq_ranks(self.m@, key);
        }
        match self.m.get(key) {
            Some(_) => Some(key),
            None => None,
        }
    }

    /// Bulk construction from keys sorted in increasing order, duplicates
    /// allowed: one of each run stays.
    pub fn from_sorted_iter(v: Vec<u64>) -> (r: Self)
        requires
            ksorted(v@),
            v@.len() <= u32::MAX,
        ensures
            r.wf(),
            r@ == dedup_keys(v@),
    {
        let pairs = keys_to_pairs(v);
        let ghost ps = pairs@;
        proof {
            assert forall|i: int, j: int| 0 <= i < j < ps.len()
                implies #[trigger] ps[i].0 <= #[trigger] ps[j].0 by {
                assert(key_seq(ps)[i] == ps[i].0);
                assert(key_seq(ps)[j] == ps[j].0);
                assert(v@[i] <= v@[j]);
            }
            assert(crate::model::sorted(ps));
        }
        let m = TreapMap::from_sorted_iter(pairs);
        let r = TreapSet { m };
        proof {
            lemma_key_seq_dedup(ps);
        }
        r
    }

    /// Bulk construction from strictly increasing keys, reproduced exactly.
    pub fn from_unique_sorted_iter(v: Vec<u64>) -> (r: Self)
        requires
            ksorted_strict(v@),
            v@.len() <= u32::MAX,
        ensures
            r.wf(),
            r@ == v@,
    {
        let pairs = keys_to_pairs(v);
        let ghost ps = pairs@;
        proof {
            assert forall|i: int, j: int| 0 <= i < j < ps.len()
                implies #[trigger] ps[i].0 < #[trigger] ps[j].0 by {
                assert(key_seq(ps)[i] == ps[i].0);
                assert(key_seq(ps)[j] == ps[j].0);
                assert(v@[i] < v@[j]);
            }
            assert(sorted_strict(ps));
        }
        let m = TreapMap::from_unique_sorted_iter(pairs);
        let r = TreapSet { m };
        proof {
            assert(r@ =~= key_seq(ps));
        }
        r
    }
}

impl Default for TreapSet {
    /// The default set is the empty one.
    fn default() -> (r: Self)
        ensures
            r.wf(),
            r@ == Seq::<u64>::empty(),
    {
        TreapSet::new()
    }
}

/// Pair each key with unit, keeping the order.
fn keys_to_pairs(v: Vec<u64>) -> (r: Vec<(u64, ())>)
    ensures
        key_seq(r@) == v@,
{
    let mut out: Vec<(u64, ())> = Vec::new();
    let mut i: usize = 0;
    while i < v.len()
        invariant
            i <= v@.len(),
            out@.len() == i,
            forall|q: int| 0 <= q < i ==> out@[q] == (v@[q], ()),
        decreases v@.len() - i,
    {
        out.push((v[i], ()));
        i = i + 1;
    }
    proof {
        assert(key_seq(out@) =~= v@);
    }
    out
}

} // verus!
