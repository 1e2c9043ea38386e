//! The treap-backed ordered map: key-ordered binary search tree shaped by
//! per-node random weights, with a cached subtree size at every node.

use vstd::prelude::*;
use vstd::math::min;
use crate::model::{
    sorted, dedup_first, lemma_dedup_first_sorted,
    sorted_strict, keys_below, keys_above, entirely_below, contains_key, rank_lt, rank_le,
    lookup, kv_insert, kv_remove,
    lemma_rank_lt_bounds, lemma_rank_lt_concat, lemma_rank_le_concat,
    lemma_rank_lt_none, lemma_rank_lt_all, lemma_rank_le_none, lemma_rank_le_all,
    lemma_rank_le_bounds,
    lemma_rank_lt_split, lemma_rank_le_split, lemma_lookup_absent, lemma_lookup_at,
    lemma_contains_concat, lemma_lookup_concat,
};
use crate::rng::fresh_weight;

verus! {

pub(crate) struct Node<V> {
    pub(crate) left: TreapMap<V>,
    pub(crate) right: TreapMap<V>,
    pub(crate) size: u32,
    pub(crate) key: u64,
    pub(crate) value: V,
    pub(crate) weight: u32,
}

/// An ordered map from `u64` keys to values of type `V`, addressable by key
/// and by rank. Its abstract value is the in-order sequence of key-value
/// pairs, strictly sorted by key.
pub struct TreapMap<V> {
    pub(crate) root: Option<Box<Node<V>>>,
}

/// The in-order sequence of the subtree hanging from `t`.
pub(crate) open spec fn inorder<V>(t: Option<Box<Node<V>>>) -> Seq<(u64, V)>
    decreases t,
{
    match t {
        None => Seq::empty(),
        Some(n) => inorder(n.left.root) + seq![(n.key, n.value)] + inorder(n.right.root),
    }
}

/// Structural well-formedness of the subtree hanging from `t`: the search
/// order holds at every node, and every cached size counts its own subtree.
pub(crate) open spec fn wf_tree<V>(t: Option<Box<Node<V>>>) -> bool
    decreases t,
{
    match t {
        None => true,
        Some(n) => {
            &&& wf_tree(n.left.root)
            &&& wf_tree(n.right.root)
            &&& keys_below(inorder(n.left.root), n.key)
            &&& keys_above(inorder(n.right.root), n.key)
            &&& n.size == inorder(n.left.root).len() + 1 + inorder(n.right.root).len()
        },
    }
}

impl<V> TreapMap<V> {
    /// The abstract value of the map: its in-order key-value sequence.
    pub closed spec fn as_seq(self) -> Seq<(u64, V)> {
        inorder(self.root)
    }

    /// The map is well formed: every constructor establishes this and every
    /// operation preserves it.
    pub closed spec fn wf(self) -> bool {
        wf_tree(self.root)
    }
}

impl<V> View for TreapMap<V> {
    type V = Seq<(u64, V)>;

    open spec fn view(&self) -> Seq<(u64, V)> {
        self.as_seq()
    }
}

pub(crate) proof fn lemma_wf_tree_sorted<V>(t: Option<Box<Node<V>>>)
    requires
        wf_tree(t),
    ensures
        sorted_strict(inorder(t)),
        inorder(t).len() <= u32::MAX,
    decreases t,
{
    if let Some(n) = t {
        lemma_wf_tree_sorted(n.left.root);
        lemma_wf_tree_sorted(n.right.root);
        let l = inorder(n.left.root);
        let r = inorder(n.right.root);
        let s = inorder(t);
        assert forall|i: int, j: int| 0 <= i < j < s.len() implies s[i].0 < s[j].0 by {
            if j < l.len() {
                assert(s[i] == l[i] && s[j] == l[j]);
            } else if j == l.len() {
                assert(s[i] == l[i]);
            } else if i < l.len() {
                assert(s[i] == l[i] && s[j] == r[j - l.len() - 1]);
            } else if i == l.len() {
                assert(s[j] == r[j - l.len() - 1]);
            } else {
                assert(s[i] == r[i - l.len() - 1] && s[j] == r[j - l.len() - 1]);
            }
        }
    }
}

impl<V> TreapMap<V> {
    /// A well-formed map is sorted strictly by key, and fits the `u32` sizes
    /// that the tree carries.
    pub proof fn lemma_sorted(self)
        requires
            self.wf(),
        ensures
            sorted_strict(self@),
            self@.len() <= u32::MAX,
    {
        lemma_wf_tree_sorted(self.root);
    }

    /// The empty map.
    pub fn new() -> (r: Self)
        ensures
            r.wf(),
            r@ == Seq::<(u64, V)>::empty(),
    {
        TreapMap { root: None }
    }

    /// How many pairs the map holds.
    pub fn len(&self) -> (r: u32)
        requires
            self.wf(),
        ensures
            r == self@.len(),
    {
        match &self.root {
            None => 0,
            Some(n) => n.size,
        }
    }

    /// Split by key, pivot going right: everything below `key` on the left,
    /// everything at or above it on the right. Consumes the map and returns
    /// two disjoint well-formed maps.
    pub fn split_lt(self, key: u64) -> (r: (Self, Self))
        requires
            self.wf(),
        ensures
            r.0.wf(),
            r.1.wf(),
            r.0@ == self@.take(rank_lt(self@, key)),
            r.1@ == self@.skip(rank_lt(self@, key)),
        decreases self@.len(),
    {
        let ghost whole = self@;
        match self.root {
            None => {
                assert(whole.take(rank_lt(whole, key)) =~= whole);
                assert(whole.skip(rank_lt(whole, key)) =~= whole);
                (TreapMap { root: None }, TreapMap { root: None })
            },
            Some(b) => {
                let Node { left, right, size: _, key: nk, value, weight } = *b;
                let ghost ls = left@;
                let ghost rs = right@;
                proof {
                    assert(whole =~= ls + (seq![(nk, value)] + rs));
                    lemma_rank_lt_concat(ls, seq![(nk, value)] + rs, key);
                    lemma_rank_lt_bounds(ls, key);
                    lemma_rank_lt_bounds(rs, key);
                }
                if key <= nk {
                    proof {
                        lemma_rank_lt_none(seq![(nk, value)] + rs, key);
                        assert(rank_lt(whole, key) == rank_lt(ls, key));
                    }
                    let (l, nl) = left.split_lt(key);
                    let sz = nl.len() + 1 + right.len();
                    let n2 = Node { left: nl, right, size: sz, key: nk, value, weight };
                    let r1 = TreapMap { root: Some(Box::new(n2)) };
                    proof {
                        let cut = rank_lt(ls, key);
                        assert(keys_below(nl@, nk)) by {
                            assert(forall|i: int| 0 <= i < nl@.len() ==> nl@[i] == ls[cut + i]);
                        }
                        assert(l@ =~= whole.take(rank_lt(whole, key)));
                        assert(r1@ =~= whole.skip(rank_lt(whole, key)));
                    }
                    (l, r1)
                } else {
                    proof {
                        lemma_rank_lt_all(ls, key);
                        lemma_rank_lt_concat(seq![(nk, value)], rs, key);
                        assert(rank_lt(seq![(nk, value)], key) == 1) by {
                            assert(seq![(nk, value)].drop_first() =~= Seq::<(u64, V)>::empty());
                            assert(rank_lt(Seq::<(u64, V)>::empty(), key) == 0);
                        }
                        assert(rank_lt(whole, key) == ls.len() + 1 + rank_lt(rs, key));
                    }
                    let (nr, r) = right.split_lt(key);
                    let sz = left.len() + 1 + nr.len();
                    let n2 = Node { left, right: nr, size: sz, key: nk, value, weight };
                    let l1 = TreapMap { root: Some(Box::new(n2)) };
                    proof {
                        let cut = rank_lt(rs, key);
                        assert(keys_above(nr@, nk)) by {
                            assert(forall|i: int| 0 <= i < nr@.len() ==> nr@[i] == rs[i]);
                        }
                        assert(l1@ =~= whole.take(rank_lt(whole, key)));
                        assert(r@ =~= whole.skip(rank_lt(whole, key)));
                    }
                    (l1, r)
                }
            },
        }
    }

    /// Split by key, pivot going left: everything at or below `key` on the
    /// left, everything above it on the right.
    pub fn split_le(self, key: u64) -> (r: (Self, Self))
        requires
            self.wf(),
        ensures
            r.0.wf(),
            r.1.wf(),
            r.0@ == self@.take(rank_le(self@, key)),
            r.1@ == self@.skip(rank_le(self@, key)),
        decreases self@.len(),
    {
        let ghost whole = self@;
        match self.root {
            None => {
                assert(whole.take(rank_le(whole, key)) =~= whole);
                assert(whole.skip(rank_le(whole, key)) =~= whole);
                (TreapMap { root: None }, TreapMap { root: None })
            },
            Some(b) => {
                let Node { left, right, size: _, key: nk, value, weight } = *b;
                let ghost ls = left@;
                let ghost rs = right@;
                proof {
                    assert(whole =~= ls + (seq![(nk, value)] + rs));
                    lemma_rank_le_concat(ls, seq![(nk, value)] + rs, key);
                    lemma_rank_le_bounds(ls, key);
                    lemma_rank_le_bounds(rs, key);
                }
                if key < nk {
                    proof {
                        lemma_rank_le_none(seq![(nk, value)] + rs, key);
                        assert(rank_le(whole, key) == rank_le(ls, key));
                    }
                    let (l, nl) = left.split_le(key);
                    let sz = nl.len() + 1 + right.len();
                    let n2 = Node { left: nl, right, size: sz, key: nk, value, weight };
                    let r1 = TreapMap { root: Some(Box::new(n2)) };
                    proof {
                        let cut = rank_le(ls, key);
                        assert(keys_below(nl@, nk)) by {
                            assert(forall|i: int| 0 <= i < nl@.len() ==> nl@[i] == ls[cut + i]);
                        }
                        assert(l@ =~= whole.take(rank_le(whole, key)));
                        assert(r1@ =~= whole.skip(rank_le(whole, key)));
                    }
                    (l, r1)
                } else {
                    proof {
                        lemma_rank_le_all(ls, key);
                        lemma_rank_le_concat(seq![(nk, value)], rs, key);
                        assert(rank_le(seq![(nk, value)], key) == 1) by {
                            assert(seq![(nk, value)].drop_first() =~= Seq::<(u64, V)>::empty());
                            assert(rank_le(Seq::<(u64, V)>::empty(), key) == 0);
                        }
                        assert(rank_le(whole, key) == ls.len() + 1 + rank_le(rs, key));
                    }
                    let (nr, r) = right.split_le(key);
                    let sz = left.len() + 1 + nr.len();
                    let n2 = Node { left, right: nr, size: sz, key: nk, value, weight };
                    let l1 = TreapMap { root: Some(Box::new(n2)) };
                    proof {
                        let cut = rank_le(rs, key);
                        assert(keys_above(nr@, nk)) by {
                            assert(forall|i: int| 0 <= i < nr@.len() ==> nr@[i] == rs[i]);
                        }
                        assert(l1@ =~= whole.take(rank_le(whole, key)));
                        assert(r@ =~= whole.skip(rank_le(whole, key)));
                    }
                    (l1, r)
                }
            },
        }
    }

    /// Split by rank: the first `n` pairs on the left, the remainder on the
    /// right. Asking for more pairs than the map holds yields the whole map
    /// on the left.
    pub fn split_n(self, n: u32) -> (r: (Self, Self))
        requires
            self.wf(),
        ensures
            r.0.wf(),
            r.1.wf(),
            r.0@ == self@.take(min(n as int, self@.len() as int)),
            r.1@ == self@.skip(min(n as int, self@.len() as int)),
        decreases self@.len(),
    {
        let ghost whole = self@;
        match self.root {
            None => {
                assert(whole.take(min(n as int, whole.len() as int)) =~= whole);
                assert(whole.skip(min(n as int, whole.len() as int)) =~= whole);
                (TreapMap { root: None }, TreapMap { root: None })
            },
            Some(b) => {
                if n >= b.size {
                    let whole_map = TreapMap { root: Some(b) };
                    proof {
                        assert(whole.take(min(n as int, whole.len() as int)) =~= whole);
                        assert(whole.skip(min(n as int, whole.len() as int))
                            =~= Seq::<(u64, V)>::empty());
                    }
                    return (whole_map, TreapMap { root: None });
                }
                let Node { left, right, size: _, key: nk, value, weight } = *b;
                let ghost ls = left@;
                let ghost rs = right@;
                let lsize = left.len();
                if n <= lsize {
                    let (l, nl) = left.split_n(n);
                    let sz = nl.len() + 1 + right.len();
                    let n2 = Node { left: nl, right, size: sz, key: nk, value, weight };
                    let r1 = TreapMap { root: Some(Box::new(n2)) };
                    proof {
                        assert(keys_below(nl@, nk)) by {
                            assert(forall|i: int| 0 <= i < nl@.len() ==> nl@[i] == ls[n + i]);
                        }
                        assert(l@ =~= whole.take(min(n as int, whole.len() as int)));
                        assert(r1@ =~= whole.skip(min(n as int, whole.len() as int)));
                    }
                    (l, r1)
                } else {
                    let (nr, r) = right.split_n(n - lsize - 1);
                    let sz = left.len() + 1 + nr.len();
                    let n2 = Node { left, right: nr, size: sz, key: nk, value, weight };
                    let l1 = TreapMap { root: Some(Box::new(n2)) };
                    proof {
                        let m = n - lsize - 1;
                        assert(keys_above(nr@, nk)) by {
                            assert(forall|i: int| 0 <= i < nr@.len() ==> nr@[i] == rs[i]);
                        }
                        assert(l1@ =~= whole.take(min(n as int, whole.len() as int)));
                        assert(r@ =~= whole.skip(min(n as int, whole.len() as int)));
                    }
                    (l1, r)
                }
            },
        }
    }

    /// Recombine two key-disjoint maps, every key of `x` below every key of
    /// `y`. The root with the smaller weight wins at every step: this single
    /// rule is the container's whole balancing mechanism. The result's
    /// sequence is exactly `x`'s followed by `y`'s.
    pub fn merge(x: Self, y: Self) -> (r: Self)
        requires
            x.wf(),
            y.wf(),
            entirely_below(x@, y@),
            x@.len() + y@.len() <= u32::MAX,
        ensures
            r.wf(),
            r@ == x@ + y@,
        decreases x@.len() + y@.len(),
    {
        let ghost xs = x@;
        let ghost ys = y@;
        match x.root {
            None => {
                assert(xs + ys =~= ys);
                y
            },
            Some(xb) => {
                match y.root {
                    None => {
                        assert(xs + ys =~= xs);
                        TreapMap { root: Some(xb) }
                    },
                    Some(yb) => {
                        if xb.weight < yb.weight {
                            let Node { left, right, size: _, key: nk, value, weight } = *xb;
                            let ghost rsub = right@;
                            proof {
                                assert(forall|i: int|
                                    0 <= i < rsub.len() ==> rsub[i] == xs[left@.len() + 1 + i]);
                                assert(entirely_below(rsub, ys));
                            }
                            let yt = TreapMap { root: Some(yb) };
                            let merged = Self::merge(right, yt);
                            let sz = left.len() + 1 + merged.len();
                            let n2 = Node { left, right: merged, size: sz, key: nk, value, weight };
                            let r = TreapMap { root: Some(Box::new(n2)) };
                            proof {
                                assert(xs[left@.len() as int].0 == nk);
                                assert(keys_above(merged@, nk));
                                assert(r@ =~= xs + ys);
                            }
                            r
                        } else {
                            let Node { left, right, size: _, key: nk, value, weight } = *yb;
                            let ghost lsub = left@;
                            proof {
                                assert(forall|j: int| 0 <= j < lsub.len() ==> lsub[j] == ys[j]);
                                assert(entirely_below(xs, lsub));
                            }
                            let xt = TreapMap { root: Some(xb) };
                            let merged = Self::merge(xt, left);
                            let sz = merged.len() + 1 + right.len();
                            let n2 = Node { left: merged, right, size: sz, key: nk, value, weight };
                            let r = TreapMap { root: Some(Box::new(n2)) };
                            proof {
                                assert(ys[lsub.len() as int].0 == nk);
                                assert(keys_below(merged@, nk));
                                assert(r@ =~= xs + ys);
                            }
                            r
                        }
                    },
                }
            },
        }
    }
}

impl<V> TreapMap<V> {
    /// Look a key up and borrow its value.
    pub fn get(&self, key: u64) -> (r: Option<&V>)
        requires
            self.wf(),
        ensures
            r is Some <==> contains_key(self@, key),
            match r {
                Some(v) => lookup(self@, key) == Some(*v),
                None => lookup(self@, key) is None,
            },
        decreases self@.len(),
    {
        let ghost whole = self@;
        match &self.root {
            None => {
                proof {
                    lemma_lookup_absent(whole, key);
                }
                None
            },
            Some(n) => {
                let ghost ls = n.left@;
                let ghost mid = seq![(n.key, n.value)];
                let ghost rs = n.right@;
                proof {
                    assert(whole =~= ls + (mid + rs));
                    lemma_contains_concat(ls, mid + rs, key);
                    lemma_contains_concat(mid, rs, key);
                    lemma_lookup_concat(ls, mid + rs, key);
                    lemma_lookup_concat(mid, rs, key);
                }
                if key == n.key {
                    proof {
                        assert(mid[0].0 == key);
                        assert(contains_key(mid, key));
                        assert(!contains_key(ls, key));
                        assert(lookup(mid, key) == Some(n.value));
                    }
                    Some(&n.value)
                } else if key < n.key {
                    proof {
                        assert(!contains_key(mid, key)) by {
                            if contains_key(mid, key) {
                                let w = choose|i: int| 0 <= i < mid.len() && mid[i].0 == key;
                            }
                        }
                        assert(!contains_key(rs, key));
                        if !contains_key(ls, key) {
                            lemma_lookup_absent(rs, key);
                        }
                    }
                    n.left.get(key)
                } else {
                    proof {
                        assert(!contains_key(ls, key));
                        assert(!contains_key(mid, key)) by {
                            if contains_key(mid, key) {
                                let w = choose|i: int| 0 <= i < mid.len() && mid[i].0 == key;
                            }
                        }
                    }
                    n.right.get(key)
                }
            },
        }
    }

    /// How many keys of the map lie strictly below `key`: the rank at which
    /// `key` stands or would be inserted.
    pub fn num_lt(&self, key: u64) -> (r: u32)
        requires
            self.wf(),
        ensures
            r == rank_lt(self@, key),
        decreases self@.len(),
    {
        let ghost whole = self@;
        match &self.root {
            None => 0,
            Some(n) => {
                let ghost ls = n.left@;
                let ghost mid = seq![(n.key, n.value)];
                let ghost rs = n.right@;
                proof {
                    assert(whole =~= ls + (mid + rs));
                    lemma_rank_lt_concat(ls, mid + rs, key);
                    lemma_rank_lt_concat(mid, rs, key);
                    lemma_rank_lt_bounds(ls, key);
                    lemma_rank_lt_bounds(rs, key);
                    assert(rank_lt(mid, key) == (if n.key < key { 1int } else { 0int })) by {
                        assert(mid.drop_first() =~= Seq::<(u64, V)>::empty());
                        assert(rank_lt(Seq::<(u64, V)>::empty(), key) == 0);
                    }
                }
                if key <= n.key {
                    proof {
                        lemma_rank_lt_none(rs, key);
                    }
                    n.left.num_lt(key)
                } else {
                    proof {
                        lemma_rank_lt_all(ls, key);
                    }
                    let ls_len = n.left.len();
                    ls_len + 1 + n.right.num_lt(key)
                }
            },
        }
    }

    /// How many keys of the map lie at or below `key`.
    pub fn num_le(&self, key: u64) -> (r: u32)
        requires
            self.wf(),
        ensures
            r == rank_le(self@, key),
        decreases self@.len(),
    {
        let ghost whole = self@;
        match &self.root {
            None => 0,
            Some(n) => {
                let ghost ls = n.left@;
                let ghost mid = seq![(n.key, n.value)];
                let ghost rs = n.right@;
                proof {
                    assert(whole =~= ls + (mid + rs));
                    lemma_rank_le_concat(ls, mid + rs, key);
                    lemma_rank_le_concat(mid, rs, key);
                    lemma_rank_le_bounds(ls, key);
                    lemma_rank_le_bounds(rs, key);
                    assert(rank_le(mid, key) == (if n.key <= key { 1int } else { 0int })) by {
                        assert(mid.drop_first() =~= Seq::<(u64, V)>::empty());
                        assert(rank_le(Seq::<(u64, V)>::empty(), key) == 0);
                    }
                }
                if key < n.key {
                    proof {
                        lemma_rank_le_none(rs, key);
                    }
                    n.left.num_le(key)
                } else {
                    proof {
                        lemma_rank_le_all(ls, key);
                    }
                    let ls_len = n.left.len();
                    ls_len + 1 + n.right.num_le(key)
                }
            },
        }
    }

    /// The key-value pair of rank `n` (0-indexed): the `n`-th smallest key.
    /// Nothing comes back when `n` is at or past the map's length.
    pub fn nth_kv(&self, n: u32) -> (r: Option<(u64, &V)>)
        requires
            self.wf(),
        ensures
            n < self@.len() ==> (r matches Some(p)
                && p.0 == self@[n as int].0 && *p.1 == self@[n as int].1),
            n >= self@.len() ==> r is None,
        decreases self@.len(),
    {
        let ghost whole = self@;
        match &self.root {
            None => None,
            Some(node) => {
                let ls_len = node.left.len();
                if n < ls_len {
                    node.left.nth_kv(n)
                } else if n == ls_len {
                    Some((node.key, &node.value))
                } else {
                    node.right.nth_kv(n - ls_len - 1)
                }
            },
        }
    }

    /// The value of rank `n`, without its key.
    pub fn nth(&self, n: u32) -> (r: Option<&V>)
        requires
            self.wf(),
        ensures
            n < self@.len() ==> (r matches Some(v) && *v == self@[n as int].1),
            n >= self@.len() ==> r is None,
    {
        match self.nth_kv(n) {
            Some(p) => Some(p.1),
            None => None,
        }
    }

    /// Swap a new value into the pair with the smallest key, handing the old
    /// value back. Keys and tree shape stay as they were.
    fn replace_min(self, v: V) -> (r: (Self, V))
        requires
            self.wf(),
            self@.len() > 0,
        ensures
            r.0.wf(),
            r.0@ == self@.update(0, (self@[0].0, v)),
            r.1 == self@[0].1,
        decreases self@.len(),
    {
        let ghost whole = self@;
        match self.root {
            None => vstd::pervasive::unreached(),
            Some(b) => {
                let Node { left, right, size, key: nk, value, weight } = *b;
                let ghost ls = left@;
                let ghost rs = right@;
                match left.root {
                    None => {
                        let n2 = Node {
                            left: TreapMap { root: None },
                            right,
                            size,
                            key: nk,
                            value: v,
                            weight,
                        };
                        let t = TreapMap { root: Some(Box::new(n2)) };
                        proof {
                            assert(whole[0] == (nk, value));
                            assert(t@ =~= whole.update(0, (whole[0].0, v)));
                        }
                        (t, value)
                    },
                    Some(lb) => {
                        let lt = TreapMap { root: Some(lb) };
                        let (nl, old_v) = lt.replace_min(v);
                        let n2 = Node { left: nl, right, size, key: nk, value, weight };
                        let t = TreapMap { root: Some(Box::new(n2)) };
                        proof {
                            assert(keys_below(nl@, nk)) by {
                                assert(forall|i: int|
                                    0 <= i < nl@.len() ==> nl@[i].0 == ls[i].0);
                            }
                            assert(whole[0] == ls[0]);
                            assert(t@ =~= whole.update(0, (whole[0].0, v)));
                        }
                        (t, old_v)
                    },
                }
            },
        }
    }

    /// Insert a pair. A key already present has its value replaced in place
    /// — no node is created, the old value comes back. A new key costs
    /// exactly one fresh node, spliced in by two merges, and nothing comes
    /// back.
    pub fn insert(&mut self, key: u64, value: V) -> (r: Option<V>)
        requires
            old(self).wf(),
            old(self)@.len() < u32::MAX,
        ensures
            final(self).wf(),
            final(self)@ == kv_insert(old(self)@, key, value),
            r == lookup(old(self)@, key),
    {
        let ghost s0 = self@;
        proof {
            lemma_wf_tree_sorted(self.root);
            lemma_rank_lt_split(s0, key);
        }
        let ghost cut = rank_lt(s0, key);
        let root = self.root.take();
        let t = TreapMap { root };
        let (l, r0) = t.split_lt(key);
        let hit = match r0.min_key() {
            Some(k0) => k0 == key,
            None => false,
        };
        proof {
            assert(hit <==> contains_key(s0, key));
        }
        if hit {
            let (r1, old_v) = r0.replace_min(value);
            proof {
                assert(entirely_below(l@, r1@)) by {
                    assert(forall|j: int| 0 <= j < r1@.len() ==> r1@[j].0 >= key);
                }
            }
            let merged = TreapMap::merge(l, r1);
            proof {
                assert(merged@ =~= kv_insert(s0, key, value));
                lemma_lookup_at(s0, key, cut);
            }
            *self = merged;
            Some(old_v)
        } else {
            proof {
                lemma_lookup_absent(s0, key);
            }
            let node = TreapMap {
                root: Some(Box::new(Node {
                    left: TreapMap { root: None },
                    right: TreapMap { root: None },
                    size: 1,
                    key,
                    value,
                    weight: fresh_weight(),
                })),
            };
            proof {
                assert(inorder::<V>(None) =~= Seq::<(u64, V)>::empty());
                assert(wf_tree::<V>(None));
                assert(node@ =~= seq![(key, value)]);
                assert(node.wf());
            }
            let lm = TreapMap::merge(l, node);
            proof {
                assert(entirely_below(lm@, r0@)) by {
                    assert(forall|j: int| 0 <= j < r0@.len() ==> r0@[j].0 > key);
                }
            }
            let merged = TreapMap::merge(lm, r0);
            proof {
                assert(merged@ =~= kv_insert(s0, key, value));
            }
            *self = merged;
            None
        }
    }

    /// Remove a key, handing its value back if it was there. The two splits
    /// isolate at most one matching node; what is left re-merges around it.
    pub fn remove(&mut self, key: u64) -> (r: Option<V>)
        requires
            old(self).wf(),
        ensures
            final(self).wf(),
            final(self)@ == kv_remove(old(self)@, key),
            r == lookup(old(self)@, key),
    {
        let ghost s0 = self@;
        proof {
            lemma_wf_tree_sorted(self.root);
            lemma_rank_lt_split(s0, key);
            lemma_rank_le_split(s0, key);
        }
        let ghost cut = rank_lt(s0, key);
        let root = self.root.take();
        let t = TreapMap { root };
        let (l, r0) = t.split_lt(key);
        proof {
            assert(s0 =~= l@ + r0@);
            lemma_rank_le_concat(l@, r0@, key);
            lemma_rank_le_all(l@, key);
            assert(rank_le(r0@, key) == (if contains_key(s0, key) { 1int } else { 0int }));
        }
        let (m, rest) = r0.split_le(key);
        let res = match m.root {
            Some(mb) => {
                let mn = *mb;
                proof {
                    assert(m@.len() == 1);
                    assert(m@[0] == (mn.key, mn.value));
                    assert(m@[0] == s0[cut]);
                    lemma_lookup_at(s0, key, cut);
                }
                Some(mn.value)
            },
            None => {
                proof {
                    assert(!contains_key(s0, key));
                    lemma_lookup_absent(s0, key);
                }
                None
            },
        };
        proof {
            assert(entirely_below(l@, rest@)) by {
                assert(forall|j: int| 0 <= j < rest@.len()
                    ==> rest@[j] == s0[cut + rank_le(r0@, key) + j] && rest@[j].0 > key);
            }
        }
        let merged = TreapMap::merge(l, rest);
        proof {
            assert(merged@ =~= kv_remove(s0, key));
        }
        *self = merged;
        res
    }

    /// The smallest key, if any: the in-order sequence's first.
    pub(crate) fn min_key(&self) -> (r: Option<u64>)
        requires
            self.wf(),
        ensures
            self@.len() == 0 ==> r is None,
            self@.len() > 0 ==> r == Some(self@[0].0),
        decreases self@.len(),
    {
        match &self.root {
            None => None,
            Some(n) => {
                match &n.left.root {
                    None => Some(n.key),
                    Some(_) => n.left.min_key(),
                }
            },
        }
    }

    /// The largest key, if any: the in-order sequence's last.
    pub(crate) fn max_key(&self) -> (r: Option<u64>)
        requires
            self.wf(),
        ensures
            self@.len() == 0 ==> r is None,
            self@.len() > 0 ==> r == Some(self@.last().0),
        decreases self@.len(),
    {
        match &self.root {
            None => None,
            Some(n) => {
                match &n.right.root {
                    None => Some(n.key),
                    Some(_) => n.right.max_key(),
                }
            },
        }
    }
}

/// What a builder-stack entry stands for: its left subtree's pairs followed
/// by its own. Entries on the stack never have a right child yet.
pub(crate) open spec fn seg<V>(n: Box<Node<V>>) -> Seq<(u64, V)> {
    inorder(n.left.root) + seq![(n.key, n.value)]
}

/// The pairs the whole builder stack stands for, bottom to top.
pub(crate) open spec fn segs<V>(st: Seq<Box<Node<V>>>) -> Seq<(u64, V)>
    decreases st.len(),
{
    if st.len() == 0 {
        Seq::empty()
    } else {
        segs(st.drop_last()) + seg(st.last())
    }
}

/// A builder-stack entry is sound: right child still empty, left subtree well
/// formed and entirely below its key, size counting both.
pub(crate) open spec fn entry_ok<V>(n: Box<Node<V>>) -> bool {
    &&& n.right.root is None
    &&& wf_tree(n.left.root)
    &&& keys_below(inorder(n.left.root), n.key)
    &&& n.size == inorder(n.left.root).len() + 1
}

/// Whether the top of the builder stack outweighs a fresh node's weight and
/// so must be folded beneath it.
fn top_heavier<V>(stack: &Vec<Box<Node<V>>>, w: u32) -> (r: bool)
    ensures
        r == (stack@.len() > 0 && stack@.last().weight > w),
{
    if stack.len() == 0 {
        false
    } else {
        let n = &stack[stack.len() - 1];
        n.weight > w
    }
}

impl<V> TreapMap<V> {
    /// Linear-time bulk construction from an already key-sorted,
    /// duplicate-free sequence of pairs, which the result reproduces exactly.
    /// A weight-ordered stack holds the growing right spine; each new node
    /// folds the heavier stack top beneath it as its left subtree, so the
    /// finished tree obeys the same weight-ordering rule that `merge`
    /// maintains, without probabilistic insertion.
    pub fn from_unique_sorted_iter(v: Vec<(u64, V)>) -> (r: Self)
        requires
            sorted_strict(v@),
            v@.len() <= u32::MAX,
        ensures
            r.wf(),
            r@ == v@,
    {
        let ghost vs = v@;
        let mut v = v;
        let mut stack: Vec<Box<Node<V>>> = Vec::new();
        proof {
            assert(segs(stack@) =~= vs.take(0));
        }
        while v.len() > 0
            invariant
                sorted_strict(vs),
                vs.len() <= u32::MAX,
                v@.len() <= vs.len(),
                v@ =~= vs.skip(vs.len() - v@.len()),
                forall|i: int| 0 <= i < stack@.len() ==> entry_ok(#[trigger] stack@[i]),
                segs(stack@) == vs.take(vs.len() - v@.len()),
            decreases v@.len(),
        {
            let ghost j: int = vs.len() - v@.len();
            let (k, val) = v.remove(0);
            proof {
                assert(vs.skip(j as int)[0] == vs[j as int]);
                assert(v@ =~= vs.skip(j + 1));
                assert((k, val) == vs[j as int]);
            }
            let w = fresh_weight();
            let mut chain = TreapMap { root: None };
            proof {
                assert(chain@ =~= Seq::<(u64, V)>::empty());
                assert(segs(stack@) + chain@ =~= vs.take(j as int));
            }
            while top_heavier(&stack, w)
                invariant
                    sorted_strict(vs),
                    vs.len() <= u32::MAX,
                    0 <= j < vs.len(),
                    (k, val) == vs[j as int],
                    forall|i: int| 0 <= i < stack@.len() ==> entry_ok(#[trigger] stack@[i]),
                    wf_tree(chain.root),
                    segs(stack@) + chain@ == vs.take(j as int),
                decreases stack@.len(),
            {
                let ghost st0 = stack@;
                let top = stack.pop().unwrap();
                let ghost gtop = top;
                proof {
                    assert(entry_ok(st0.last()));
                    assert(stack@ =~= st0.drop_last());
                    assert(segs(st0) == segs(stack@) + seg(gtop));
                    assert(seg(gtop).len() == inorder(gtop.left.root).len() + 1);
                    assert(seg(gtop).last() == (gtop.key, gtop.value));
                    let pre = vs.take(j as int);
                    let base = segs(st0).len() as int;
                    assert(segs(st0).len() + chain@.len() == pre.len());
                    assert(pre.len() == j);
                    assert(pre[base - 1] == (gtop.key, gtop.value));
                    assert(pre[base - 1] == vs[base - 1]);
                    assert forall|i: int| 0 <= i < chain@.len() implies chain@[i].0 > gtop.key by {
                        assert(chain@[i] == pre[base + i]);
                        assert(pre[base + i] == vs[base + i]);
                        assert(vs[base - 1].0 < vs[base + i].0);
                    }
                    assert(keys_above(chain@, gtop.key));
                    assert(inorder(gtop.left.root).len() + 1 + chain@.len() <= u32::MAX);
                }
                let Node { left, right: _, size: _, key: tk, value: tv, weight: tw } = *top;
                let csz = left.len() + 1 + chain.len();
                let n2 = Node { left, right: chain, size: csz, key: tk, value: tv, weight: tw };
                chain = TreapMap { root: Some(Box::new(n2)) };
                proof {
                    assert(chain@ =~= seg(gtop) + inorder(n2.right.root));
                    assert(segs(stack@) + chain@ =~= vs.take(j as int));
                }
            }
            proof {
                let pre = vs.take(j as int);
                assert(keys_below(chain@, k)) by {
                    assert(forall|i: int| 0 <= i < chain@.len()
                        ==> chain@[i] == pre[segs(stack@).len() + i]);
                    assert(forall|i: int| 0 <= i < pre.len() ==> pre[i].0 < k);
                }
            }
            let csz = chain.len() + 1;
            let node = Box::new(Node {
                left: chain,
                right: TreapMap { root: None },
                size: csz,
                key: k,
                value: val,
                weight: w,
            });
            let ghost st1 = stack@;
            let ghost gnode = node;
            stack.push(node);
            proof {
                assert(stack@.drop_last() =~= st1);
                assert(stack@.last() == gnode);
                assert(segs(stack@) == segs(st1) + seg(gnode));
                assert(segs(stack@) =~= vs.take(j + 1));
                assert(vs.len() - v@.len() == j + 1);
            }
        }
        let mut acc = TreapMap { root: None };
        proof {
            assert(vs.take(vs.len() as int) =~= vs);
            assert(acc@ =~= Seq::<(u64, V)>::empty());
            assert(segs(stack@) + acc@ =~= vs);
        }
        while stack.len() > 0
            invariant
                sorted_strict(vs),
                vs.len() <= u32::MAX,
                forall|i: int| 0 <= i < stack@.len() ==> entry_ok(#[trigger] stack@[i]),
                wf_tree(acc.root),
                segs(stack@) + acc@ == vs,
            decreases stack@.len(),
        {
            let ghost st0 = stack@;
            let top = stack.pop().unwrap();
            let ghost gtop = top;
            proof {
                assert(entry_ok(st0.last()));
                assert(stack@ =~= st0.drop_last());
                assert(segs(st0) == segs(stack@) + seg(gtop));
                assert(seg(gtop).len() == inorder(gtop.left.root).len() + 1);
                assert(seg(gtop).last() == (gtop.key, gtop.value));
                let base = segs(st0).len() as int;
                assert(segs(st0).len() + acc@.len() == vs.len());
                assert(vs[base - 1] == (gtop.key, gtop.value));
                assert forall|i: int| 0 <= i < acc@.len() implies acc@[i].0 > gtop.key by {
                    assert(acc@[i] == vs[base + i]);
                    assert(vs[base - 1].0 < vs[base + i].0);
                }
                assert(keys_above(acc@, gtop.key));
                assert(inorder(gtop.left.root).len() + 1 + acc@.len() <= u32::MAX);
            }
            let Node { left, right: _, size: _, key: tk, value: tv, weight: tw } = *top;
            let csz = left.len() + 1 + acc.len();
            let n2 = Node { left, right: acc, size: csz, key: tk, value: tv, weight: tw };
            acc = TreapMap { root: Some(Box::new(n2)) };
            proof {
                assert(acc@ =~= seg(gtop) + inorder(n2.right.root));
                assert(segs(stack@) + acc@ =~= vs);
            }
        }
        proof {
            assert(segs(stack@) =~= Seq::<(u64, V)>::empty());
            assert(acc@ =~= vs);
        }
        acc
    }

    /// Bulk construction from a key-sorted sequence that may repeat keys: of
    /// each run of equal keys the first pair wins, the rest are discarded.
    pub fn from_sorted_iter(v: Vec<(u64, V)>) -> (r: Self)
        requires
            sorted(v@),
            v@.len() <= u32::MAX,
        ensures
            r.wf(),
            r@ == dedup_first(v@),
    {
        let ghost vs = v@;
        proof {
            lemma_dedup_first_sorted(vs);
        }
        let mut v = v;
        let mut out_rev: Vec<(u64, V)> = Vec::new();
        proof {
            assert(v@ =~= vs.take(vs.len() as int));
            assert(dedup_first(vs) =~= dedup_first(vs.take(vs.len() as int)) + out_rev@.reverse());
        }
        while v.len() > 0
            invariant
                sorted(vs),
                v@.len() <= vs.len(),
                v@ == vs.take(v@.len() as int),
                dedup_first(vs) == dedup_first(vs.take(v@.len() as int)) + out_rev@.reverse(),
            decreases v@.len(),
        {
            let ghost m: int = v@.len() as int;
            let keep = if v.len() >= 2 {
                let prev = &v[v.len() - 2];
                let cur = &v[v.len() - 1];
                prev.0 != cur.0
            } else {
                true
            };
            let p = v.pop().unwrap();
            proof {
                assert(p == vs[m - 1]);
                assert(v@ =~= vs.take(m - 1));
                assert(vs.take(m).drop_last() =~= vs.take(m - 1));
                if m >= 2 {
                    assert(vs.take(m).last() == vs[m - 1]);
                    assert(vs.take(m)[m - 2] == vs[m - 2]);
                }
            }
            if keep {
                let ghost o0 = out_rev@;
                out_rev.push(p);
                proof {
                    if m >= 2 {
                        assert(dedup_first(vs.take(m))
                            == dedup_first(vs.take(m - 1)).push(p));
                    } else {
                        assert(vs.take(1) =~= seq![vs[0]]);
                        assert(dedup_first(vs.take(1)) == vs.take(1));
                        assert(vs.take(0) =~= Seq::<(u64, V)>::empty());
                        assert(dedup_first(vs.take(0)) == vs.take(0));
                        assert(dedup_first(vs.take(m))
                            =~= dedup_first(vs.take(m - 1)).push(p));
                    }
                    assert(out_rev@.reverse() =~= seq![p] + o0.reverse());
                    assert(dedup_first(vs.take(m - 1)).push(p) + o0.reverse()
                        =~= dedup_first(vs.take(m - 1)) + out_rev@.reverse());
                }
            } else {
                proof {
                    assert(dedup_first(vs.take(m)) == dedup_first(vs.take(m - 1)));
                }
            }
        }
        let mut out: Vec<(u64, V)> = Vec::new();
        proof {
            assert(vs.take(0) =~= Seq::<(u64, V)>::empty());
            assert(dedup_first(Seq::<(u64, V)>::empty()) == Seq::<(u64, V)>::empty());
            assert(out@ + out_rev@.reverse() =~= dedup_first(vs));
        }
        while out_rev.len() > 0
            invariant
                out@ + out_rev@.reverse() == dedup_first(vs),
            decreases out_rev@.len(),
        {
            let ghost o0 = out_rev@;
            let ghost b0 = out@;
            let p = out_rev.pop().unwrap();
            out.push(p);
            proof {
                assert(o0.reverse() =~= seq![p] + out_rev@.reverse());
                assert(out@ + out_rev@.reverse() =~= b0 + o0.reverse());
            }
        }
        proof {
            assert(out@ =~= dedup_first(vs));
            lemma_dedup_first_sorted(vs);
        }
        Self::from_unique_sorted_iter(out)
    }

    /// Bulk construction from pairs in any order, duplicate keys allowed: the
    /// first pair carrying a key wins, later ones are discarded. The result
    /// holds exactly the keys that occur in the input.
    pub fn from_pairs(v: Vec<(u64, V)>) -> (r: Self)
        requires
            v@.len() <= u32::MAX,
        ensures
            r.wf(),
            forall|k: u64| contains_key(r@, k) <==> contains_key(v@, k),
            forall|i: int|
                0 <= i < v@.len() && (forall|l: int| 0 <= l < i ==> v@[l].0 != v@[i].0)
                    ==> lookup(r@, v@[i].0) == Some(v@[i].1),
    {
        let ghost vs = v@;
        let mut v = v;
        let mut m = TreapMap { root: None };
        while v.len() > 0
            invariant
                vs.len() <= u32::MAX,
                v@.len() <= vs.len(),
                v@ =~= vs.skip(vs.len() - v@.len()),
                m.wf(),
                m@.len() <= vs.len() - v@.len(),
                forall|k: u64|
                    contains_key(m@, k) <==> contains_key(
                        vs.take(vs.len() - v@.len()),
                        k,
                    ),
                forall|i: int|
                    0 <= i < vs.len() - v@.len() && (forall|l: int|
                        0 <= l < i ==> vs[l].0 != vs[i].0)
                        ==> lookup(m@, vs[i].0) == Some(vs[i].1),
            decreases v@.len(),
        {
            let ghost j: int = vs.len() - v@.len();
            let ghost pre = vs.take(j as int);
            let (k, val) = v.remove(0);
            proof {
                assert(vs.skip(j as int)[0] == vs[j as int]);
                assert(v@ =~= vs.skip(j + 1));
                assert((k, val) == vs[j as int]);
                assert(vs.take(j + 1) =~= pre + seq![(k, val)]);
                lemma_contains_concat(pre, seq![(k, val)], k);
                assert(seq![(k, val)][0].0 == k);
                m.lemma_sorted();
            }
            let present = match m.get(k) {
                Some(_) => true,
                None => false,
            };
            if !present {
                proof {
                    crate::laws::lemma_insert_len(m@, k, val);
                    crate::laws::lemma_insert_lookup(m@, k, val);
                }
                let ghost m0 = m@;
                let _prev = m.insert(k, val);
                proof {
                    assert forall|k2: u64|
                        contains_key(m@, k2) <==> contains_key(vs.take(j + 1), k2) by {
                        lemma_contains_concat(pre, seq![(k, val)], k2);
                        assert(vs.take(j + 1) == pre + seq![(k, val)]);
                        assert(contains_key(vs.take(j + 1), k2)
                            <==> (contains_key(pre, k2) || contains_key(seq![(k, val)], k2)));
                        assert(contains_key(seq![(k, val)], k2) <==> k2 == k) by {
                            if contains_key(seq![(k, val)], k2) {
                                let w = choose|i: int|
                                    0 <= i < seq![(k, val)].len() && seq![(k, val)][i].0 == k2;
                                assert(w == 0);
                            }
                            if k2 == k {
                                assert(seq![(k, val)][0].0 == k2);
                            }
                        }
                        assert(contains_key(m0, k2) <==> contains_key(pre, k2));
                        if k2 == k {
                            assert(contains_key(m@, k2));
                        } else {
                            assert(contains_key(m@, k2) <==> contains_key(m0, k2));
                        }
                    }
                    assert forall|i: int|
                        0 <= i < j + 1 && (forall|l: int| 0 <= l < i ==> vs[l].0 != vs[i].0)
                            implies lookup(m@, vs[i].0) == Some(vs[i].1) by {
                        if i < j {
                            assert(vs[i].0 != k) by {
                                if vs[i].0 == k {
                                    assert(pre[i].0 == k);
                                    assert(contains_key(pre, k));
                                    assert(contains_key(m0, k));
                                }
                            }
                            assert(lookup(m0, vs[i].0) == Some(vs[i].1));
                        }
                    }
                }
            } else {
                proof {
                    let w = choose|i: int| 0 <= i < m@.len() && m@[i].0 == k;
                    assert(contains_key(pre, k));
                    let wp = choose|i: int| 0 <= i < pre.len() && pre[i].0 == k;
                    assert forall|k2: u64|
                        contains_key(m@, k2) <==> contains_key(vs.take(j + 1), k2) by {
                        lemma_contains_concat(pre, seq![(k, val)], k2);
                        assert(vs.take(j + 1) == pre + seq![(k, val)]);
                        assert(contains_key(vs.take(j + 1), k2)
                            <==> (contains_key(pre, k2) || contains_key(seq![(k, val)], k2)));
                        if contains_key(seq![(k, val)], k2) {
                            let w = choose|i: int|
                                0 <= i < seq![(k, val)].len() && seq![(k, val)][i].0 == k2;
                            assert(w == 0);
                            assert(k2 == k);
                            assert(contains_key(pre, k2));
                        }
                    }
                    assert forall|i: int|
                        0 <= i < j + 1 && (forall|l: int| 0 <= l < i ==> vs[l].0 != vs[i].0)
                            implies lookup(m@, vs[i].0) == Some(vs[i].1) by {
                        if i == j {
                            assert(vs[wp].0 == vs[i].0 && 0 <= wp < i);
                        }
                    }
                }
            }
        }
        proof {
            assert(vs.take(vs.len() - v@.len()) =~= vs);
        }
        m
    }
}

/// Descend to the node carrying `key` and hand back a mutable borrow of its
/// value. Only that value can change through the borrow: keys, shape and
/// sizes stay, so the tree stays well formed whatever is written.
fn get_mut_tree<V>(t: &mut Option<Box<Node<V>>>, key: u64) -> (r: Option<&mut V>)
    requires
        wf_tree(*old(t)),
    ensures
        wf_tree(*final(t)),
        !contains_key(inorder(*old(t)), key) ==> r is None && *final(t) == *old(t),
        contains_key(inorder(*old(t)), key) ==> (r matches Some(v)
            && *v == inorder(*old(t))[rank_lt(inorder(*old(t)), key)].1
            && inorder(*final(t)) =~= inorder(*old(t)).update(
                rank_lt(inorder(*old(t)), key),
                (key, *final(v)),
            )),
    decreases *old(t),
{
    let ghost s0 = inorder(*old(t));
    match t.as_mut() {
        None => None,
        Some(b) => {
            let ghost lroot = b.left.root;
            let ghost rroot = b.right.root;
            let ghost ls = inorder(b.left.root);
            let ghost rs = inorder(b.right.root);
            let ghost nk = b.key;
            let ghost nv = b.value;
            proof {
                assert(s0 =~= ls + (seq![(nk, nv)] + rs));
                lemma_contains_concat(ls, seq![(nk, nv)] + rs, key);
                lemma_contains_concat(seq![(nk, nv)], rs, key);
                lemma_rank_lt_concat(ls, seq![(nk, nv)] + rs, key);
                lemma_rank_lt_concat(seq![(nk, nv)], rs, key);
                lemma_rank_lt_bounds(ls, key);
                lemma_rank_lt_bounds(rs, key);
                assert(rank_lt(seq![(nk, nv)], key) == (if nk < key { 1int } else { 0int })) by {
                    assert(seq![(nk, nv)].drop_first() =~= Seq::<(u64, V)>::empty());
                    assert(rank_lt(Seq::<(u64, V)>::empty(), key) == 0);
                }
            }
            if key == b.key {
                proof {
                    assert(seq![(nk, nv)][0].0 == key);
                    assert(contains_key(seq![(nk, nv)], key));
                    lemma_rank_lt_all(ls, key);
                    lemma_rank_lt_none(rs, key);
                    assert(rank_lt(s0, key) == ls.len());
                    assert(s0[ls.len() as int] == (nk, nv));
                }
                let vref = &mut b.value;
                proof {
                    let ghost x = *final(vref);
                    assert((ls + (seq![(key, x)] + rs))
                        =~= (ls + (seq![(nk, nv)] + rs)).update(ls.len() as int, (key, x)));
                }
                Some(vref)
            } else if key < b.key {
                proof {
                    assert(!contains_key(seq![(nk, nv)], key)) by {
                        if contains_key(seq![(nk, nv)], key) {
                            let w = choose|i: int| 0 <= i < 1 && seq![(nk, nv)][i].0 == key;
                        }
                    }
                    assert(!contains_key(rs, key));
                    lemma_rank_lt_none(seq![(nk, nv)] + rs, key);
                    assert(rank_lt(s0, key) == rank_lt(ls, key));
                    if contains_key(ls, key) {
                        assert(s0[rank_lt(ls, key)] == ls[rank_lt(ls, key)]) by {
                            lemma_wf_tree_sorted(lroot);
                            lemma_rank_lt_split(ls, key);
                        }
                    }
                }
                let r = get_mut_tree(&mut b.left.root, key);
                proof {
                    if contains_key(ls, key) {
                        let cut = rank_lt(ls, key);
                        lemma_wf_tree_sorted(lroot);
                        lemma_rank_lt_split(ls, key);
                        let x = *final(r.unwrap());
                        assert((ls.update(cut, (key, x)) + (seq![(nk, nv)] + rs))
                            =~= (ls + (seq![(nk, nv)] + rs)).update(cut, (key, x)));
                        assert(keys_below(ls.update(cut, (key, x)), nk)) by {
                            assert(forall|i: int| 0 <= i < ls.len()
                                ==> (#[trigger] ls.update(cut, (key, x))[i]).0 == (if i == cut { key } else { ls[i].0 }));
                        }
                    }
                }
                r
            } else {
                proof {
                    assert(!contains_key(seq![(nk, nv)], key)) by {
                        if contains_key(seq![(nk, nv)], key) {
                            let w = choose|i: int| 0 <= i < 1 && seq![(nk, nv)][i].0 == key;
                        }
                    }
                    assert(!contains_key(ls, key));
                    lemma_rank_lt_all(ls, key);
                    assert(rank_lt(s0, key) == ls.len() + 1 + rank_lt(rs, key));
                    if contains_key(rs, key) {
                        assert(s0[ls.len() + 1 + rank_lt(rs, key)] == rs[rank_lt(rs, key)]) by {
                            lemma_wf_tree_sorted(rroot);
                            lemma_rank_lt_split(rs, key);
                        }
                    }
                }
                let r = get_mut_tree(&mut b.right.root, key);
                proof {
                    if contains_key(rs, key) {
                        let cut = rank_lt(rs, key);
                        lemma_wf_tree_sorted(rroot);
                        lemma_rank_lt_split(rs, key);
                        let x = *final(r.unwrap());
                        assert((ls + (seq![(nk, nv)] + rs.update(cut, (key, x))))
                            =~= (ls + (seq![(nk, nv)] + rs)).update(ls.len() + 1 + cut, (key, x)));
                        assert(keys_above(rs.update(cut, (key, x)), nk)) by {
                            assert(forall|i: int| 0 <= i < rs.len()
                                ==> (#[trigger] rs.update(cut, (key, x))[i]).0 == (if i == cut { key } else { rs[i].0 }));
                        }
                    }
                }
                r
            }
        },
    }
}

impl<V> TreapMap<V> {
    /// Look a key up and borrow its value mutably. Writing through the borrow
    /// changes that value alone: the new map is the old with the pair at the
    /// key's rank re-valued.
    pub fn get_mut(&mut self, key: u64) -> (r: Option<&mut V>)
        requires
            old(self).wf(),
        ensures
            final(self).wf(),
            !contains_key(old(self)@, key) ==> r is None && final(self)@ == old(self)@,
            contains_key(old(self)@, key) ==> (r matches Some(v)
                && *v == old(self)@[rank_lt(old(self)@, key)].1
                && final(self)@ == old(self)@.update(
                    rank_lt(old(self)@, key),
                    (key, *final(v)),
                )),
    {
        get_mut_tree(&mut self.root, key)
    }
}

impl<V> TreapMap<V> {
    /// The pair of rank `n`, its value borrowed mutably. Writing through the
    /// borrow re-values the pair at that rank and nothing else.
    pub fn nth_kv_mut(&mut self, n: u32) -> (r: Option<(u64, &mut V)>)
        requires
            old(self).wf(),
        ensures
            final(self).wf(),
            n >= old(self)@.len() ==> r is None && final(self)@ == old(self)@,
            n < old(self)@.len() ==> (r matches Some(p)
                && p.0 == old(self)@[n as int].0
                && *p.1 == old(self)@[n as int].1
                && final(self)@ == old(self)@.update(
                    n as int,
                    (old(self)@[n as int].0, *final(p.1)),
                )),
    {
        let k = match self.nth_kv(n) {
            Some(p) => p.0,
            None => {
                return None;
            },
        };
        proof {
            lemma_wf_tree_sorted(self.root);
            crate::laws::lemma_rank_of_nth(self@, n as int);
            assert(contains_key(self@, k));
        }
        match self.get_mut(k) {
            Some(v) => Some((k, v)),
            None => {
                proof {
                    assert(false);
                }
                None
            },
        }
    }

    /// The value of rank `n`, borrowed mutably, without its key.
    pub fn nth_mut(&mut self, n: u32) -> (r: Option<&mut V>)
        requires
            old(self).wf(),
        ensures
            final(self).wf(),
            n >= old(self)@.len() ==> r is None && final(self)@ == old(self)@,
            n < old(self)@.len() ==> (r matches Some(v)
                && *v == old(self)@[n as int].1
                && final(self)@ == old(self)@.update(
                    n as int,
                    (old(self)@[n as int].0, *final(v)),
                )),
    {
        match self.nth_kv_mut(n) {
            Some(p) => Some(p.1),
            None => None,
        }
    }
}

/// The height of the subtree hanging from `t`: zero for an empty tree.
pub(crate) open spec fn height_of<V>(t: Option<Box<Node<V>>>) -> nat
    decreases t,
{
    match t {
        None => 0,
        Some(n) => 1 + vstd::math::max(
            height_of(n.left.root) as int,
            height_of(n.right.root) as int,
        ) as nat,
    }
}

/// A tree is never taller than it is large.
pub(crate) proof fn lemma_height_le_len<V>(t: Option<Box<Node<V>>>)
    ensures
        height_of(t) <= inorder(t).len(),
    decreases t,
{
    if let Some(n) = t {
        lemma_height_le_len(n.left.root);
        lemma_height_le_len(n.right.root);
    }
}

impl<V> TreapMap<V> {
    /// The tree's height as the specification sees it.
    pub closed spec fn spec_height(self) -> nat {
        height_of(self.root)
    }

    /// The tree's height: how deep the deepest node stands. Under uniformly
    /// random weights this is expected to track the logarithm of the length,
    /// which the "smaller weight wins" merge rule alone maintains.
    pub fn height(&self) -> (r: u32)
        requires
            self.wf(),
        ensures
            r == self.spec_height(),
            r <= self@.len(),
        decreases self@.len(),
    {
        proof {
            lemma_height_le_len(self.root);
        }
        match &self.root {
            None => 0,
            Some(n) => {
                let lh = n.left.height();
                let rh = n.right.height();
                1 + (if lh >= rh {
                    lh
                } else {
                    rh
                })
            },
        }
    }
}

impl<V> Default for TreapMap<V> {
    /// The default map is the empty one.
    fn default() -> (r: Self)
        ensures
            r.wf(),
            r@ == Seq::<(u64, V)>::empty(),
    {
        TreapMap::new()
    }
}

/// Collect every pair of the subtree in order, borrowing the values, onto the
/// end of `out`.
pub(crate) fn push_pairs<'a, V>(t: &'a TreapMap<V>, out: &mut Vec<(u64, &'a V)>)
    requires
        t.wf(),
    ensures
        final(out)@.len() == old(out)@.len() + t@.len(),
        forall|i: int| 0 <= i < old(out)@.len() ==> final(out)@[i] == old(out)@[i],
        forall|i: int|
            0 <= i < t@.len()
                ==> (#[trigger] final(out)@[old(out)@.len() + i]).0 == t@[i].0
                    && *final(out)@[old(out)@.len() + i].1 == t@[i].1,
    decreases t@.len(),
{
    let ghost base = out@.len() as int;
    if let Some(n) = &t.root {
        let ghost ls = n.left@;
        let ghost rs = n.right@;
        proof {
            assert(t@ == ls + seq![(n.key, n.value)] + rs);
        }
        push_pairs(&n.left, out);
        let ghost mid1 = out@;
        out.push((n.key, &n.value));
        let ghost mid2 = out@;
        push_pairs(&n.right, out);
        proof {
            assert forall|i: int| 0 <= i < base implies out@[i] == old(out)@[i] by {
                assert(mid2[i] == mid1[i]);
            }
            assert forall|i: int| 0 <= i < t@.len()
                implies (#[trigger] out@[base + i]).0 == t@[i].0
                    && *out@[base + i].1 == t@[i].1 by {
                if i < ls.len() {
                    assert(t@[i] == ls[i]);
                    assert(out@[base + i] == mid2[base + i]);
                    assert(mid2[base + i] == mid1[base + i]);
                } else if i == ls.len() {
                    assert(t@[i] == (n.key, n.value));
                    assert(out@[base + i] == mid2[base + i]);
                    assert(mid2[base + i] == mid2.last());
                } else {
                    assert(t@[i] == rs[i - ls.len() - 1]);
                    assert(out@[base + i] == out@[mid2.len() + (i - ls.len() - 1)]);
                }
            }
        }
    }
}



} // verus!
