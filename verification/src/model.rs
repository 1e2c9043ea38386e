//! The mathematical model of the container: spec functions over the in-order
//! sequence of key-value pairs, and the lemmas that relate them.

use vstd::prelude::*;

verus! {

/// The keys of `s` are strictly increasing (the in-order sequence of a
/// well-formed tree always is).
pub open spec fn sorted_strict<V>(s: Seq<(u64, V)>) -> bool {
    forall|i: int, j: int| 0 <= i < j < s.len() ==> s[i].0 < s[j].0
}

/// The keys of `s` are non-decreasing: duplicates are allowed.
pub open spec fn sorted<V>(s: Seq<(u64, V)>) -> bool {
    forall|i: int, j: int| 0 <= i < j < s.len() ==> s[i].0 <= s[j].0
}

/// Every key of `s` is below `k`.
pub open spec fn keys_below<V>(s: Seq<(u64, V)>, k: u64) -> bool {
    forall|i: int| 0 <= i < s.len() ==> s[i].0 < k
}

/// Every key of `s` is above `k`.
pub open spec fn keys_above<V>(s: Seq<(u64, V)>, k: u64) -> bool {
    forall|i: int| 0 <= i < s.len() ==> s[i].0 > k
}

/// Every key of `a` is below every key of `b`: the precondition of `merge`.
pub open spec fn entirely_below<V>(a: Seq<(u64, V)>, b: Seq<(u64, V)>) -> bool {
    forall|i: int, j: int| 0 <= i < a.len() && 0 <= j < b.len() ==> a[i].0 < b[j].0
}

/// Some pair of `s` carries the key `k`.
pub open spec fn contains_key<V>(s: Seq<(u64, V)>, k: u64) -> bool {
    exists|i: int| 0 <= i < s.len() && s[i].0 == k
}

/// How many pairs of `s` have a key strictly below `k`. On a sorted sequence
/// this is the rank of `k`: the index where it stands or would be inserted.
pub open spec fn rank_lt<V>(s: Seq<(u64, V)>, k: u64) -> int
    decreases s.len(),
{
    if s.len() == 0 {
        0
    } else {
        (if s[0].0 < k { 1int } else { 0int }) + rank_lt(s.drop_first(), k)
    }
}

/// How many pairs of `s` have a key at or below `k`.
pub open spec fn rank_le<V>(s: Seq<(u64, V)>, k: u64) -> int
    decreases s.len(),
{
    if s.len() == 0 {
        0
    } else {
        (if s[0].0 <= k { 1int } else { 0int }) + rank_le(s.drop_first(), k)
    }
}

/// The value stored under `k`, if any: the first pair of `s` whose key is `k`.
pub open spec fn lookup<V>(s: Seq<(u64, V)>, k: u64) -> Option<V>
    decreases s.len(),
{
    if s.len() == 0 {
        None
    } else if s[0].0 == k {
        Some(s[0].1)
    } else {
        lookup(s.drop_first(), k)
    }
}

/// What inserting `(k, v)` does to a sorted sequence: replace the value in
/// place if the key is present, otherwise splice the pair in at its rank.
pub open spec fn kv_insert<V>(s: Seq<(u64, V)>, k: u64, v: V) -> Seq<(u64, V)> {
    if contains_key(s, k) {
        s.update(rank_lt(s, k), (k, v))
    } else {
        s.take(rank_lt(s, k)) + seq![(k, v)] + s.skip(rank_lt(s, k))
    }
}

/// What removing `k` does to a sorted sequence: drop the pair at its rank if
/// the key is present, otherwise leave the sequence alone.
pub open spec fn kv_remove<V>(s: Seq<(u64, V)>, k: u64) -> Seq<(u64, V)> {
    if contains_key(s, k) {
        s.remove(rank_lt(s, k))
    } else {
        s
    }
}

/// First-occurrence-wins deduplication of a sorted sequence: of each run of
/// equal keys only the earliest pair stays.
pub open spec fn dedup_first<V>(s: Seq<(u64, V)>) -> Seq<(u64, V)>
    decreases s.len(),
{
    if s.len() <= 1 {
        s
    } else if s.last().0 == s[s.len() - 2].0 {
        dedup_first(s.drop_last())
    } else {
        dedup_first(s.drop_last()).push(s.last())
    }
}

/// The keys of a pair sequence, in order.
pub open spec fn key_seq<V>(s: Seq<(u64, V)>) -> Seq<u64> {
    Seq::new(s.len(), |i: int| s[i].0)
}

/// A key sequence is strictly increasing.
pub open spec fn ksorted_strict(s: Seq<u64>) -> bool {
    forall|i: int, j: int| 0 <= i < j < s.len() ==> s[i] < s[j]
}

/// A key sequence is non-decreasing: duplicates are allowed.
pub open spec fn ksorted(s: Seq<u64>) -> bool {
    forall|i: int, j: int| 0 <= i < j < s.len() ==> s[i] <= s[j]
}

/// The key occurs in the sequence.
pub open spec fn kcontains(s: Seq<u64>, k: u64) -> bool {
    exists|i: int| 0 <= i < s.len() && s[i] == k
}

/// How many keys lie strictly below `k`.
pub open spec fn krank_lt(s: Seq<u64>, k: u64) -> int
    decreases s.len(),
{
    if s.len() == 0 {
        0
    } else {
        (if s[0] < k { 1int } else { 0int }) + krank_lt(s.drop_first(), k)
    }
}

/// How many keys lie at or below `k`.
pub open spec fn krank_le(s: Seq<u64>, k: u64) -> int
    decreases s.len(),
{
    if s.len() == 0 {
        0
    } else {
        (if s[0] <= k { 1int } else { 0int }) + krank_le(s.drop_first(), k)
    }
}

/// Deduplication of a sorted key sequence: of each run of equal keys one
/// stays.
pub open spec fn dedup_keys(s: Seq<u64>) -> Seq<u64>
    decreases s.len(),
{
    if s.len() <= 1 {
        s
    } else if s.last() == s[s.len() - 2] {
        dedup_keys(s.drop_last())
    } else {
        dedup_keys(s.drop_last()).push(s.last())
    }
}

/// The key-level rank functions agree with the pair-level ones through
/// `key_seq`.
pub proof fn lemma_key_seq_ranks<V>(s: Seq<(u64, V)>, k: u64)
    ensures
        krank_lt(key_seq(s), k) == rank_lt(s, k),
        krank_le(key_seq(s), k) == rank_le(s, k),
        kcontains(key_seq(s), k) <==> contains_key(s, k),
    decreases s.len(),
{
    if s.len() == 0 {
    } else {
        assert(key_seq(s).drop_first() =~= key_seq(s.drop_first()));
        lemma_key_seq_ranks(s.drop_first(), k);
        if contains_key(s, k) {
            let w = choose|i: int| 0 <= i < s.len() && s[i].0 == k;
            assert(key_seq(s)[w] == k);
        }
        if kcontains(key_seq(s), k) {
            let w = choose|i: int| 0 <= i < key_seq(s).len() && key_seq(s)[i] == k;
            assert(s[w].0 == k);
        }
    }
}

/// Key-level deduplication agrees with pair-level first-wins deduplication.
pub proof fn lemma_key_seq_dedup<V>(s: Seq<(u64, V)>)
    ensures
        key_seq(dedup_first(s)) == dedup_keys(key_seq(s)),
    decreases s.len(),
{
    if s.len() <= 1 {
        assert(key_seq(dedup_first(s)) =~= dedup_keys(key_seq(s)));
    } else {
        assert(key_seq(s).drop_last() =~= key_seq(s.drop_last()));
        lemma_key_seq_dedup(s.drop_last());
        assert(key_seq(s).last() == s.last().0);
        assert(key_seq(s)[s.len() - 2] == s[s.len() - 2].0);
        if s.last().0 == s[s.len() - 2].0 {
        } else {
            assert(key_seq(dedup_first(s.drop_last()).push(s.last()))
                =~= key_seq(dedup_first(s.drop_last())).push(s.last().0));
        }
    }
}

/// Deduplicating a sorted sequence leaves a strictly sorted one that ends on
/// the same key it started from, never longer than its input.
pub proof fn lemma_dedup_first_sorted<V>(s: Seq<(u64, V)>)
    requires
        sorted(s),
    ensures
        sorted_strict(dedup_first(s)),
        dedup_first(s).len() <= s.len(),
        s.len() > 0 ==> dedup_first(s).len() > 0 && dedup_first(s).last().0 == s.last().0,
    decreases s.len(),
{
    if s.len() <= 1 {
    } else {
        let d = dedup_first(s.drop_last());
        assert(sorted(s.drop_last()));
        lemma_dedup_first_sorted(s.drop_last());
        if s.last().0 == s[s.len() - 2].0 {
            assert(dedup_first(s) == d);
            assert(s.drop_last().last() == s[s.len() - 2]);
        } else {
            assert(s[s.len() - 2].0 < s.last().0);
            assert(d.last().0 == s[s.len() - 2].0);
            assert forall|i: int, j: int|
                0 <= i < j < d.push(s.last()).len()
                implies d.push(s.last())[i].0 < d.push(s.last())[j].0 by {
                if j < d.len() {
                    assert(d.push(s.last())[i] == d[i] && d.push(s.last())[j] == d[j]);
                } else {
                    assert(d.push(s.last())[j] == s.last());
                    if i < d.len() - 1 {
                        assert(d[i].0 < d[d.len() - 1].0);
                    }
                }
            }
        }
    }
}

pub proof fn lemma_rank_lt_bounds<V>(s: Seq<(u64, V)>, k: u64)
    ensures
        0 <= rank_lt(s, k) <= s.len(),
    decreases s.len(),
{
    if s.len() > 0 {
        lemma_rank_lt_bounds(s.drop_first(), k);
    }
}

pub proof fn lemma_rank_le_bounds<V>(s: Seq<(u64, V)>, k: u64)
    ensures
        0 <= rank_le(s, k) <= s.len(),
    decreases s.len(),
{
    if s.len() > 0 {
        lemma_rank_le_bounds(s.drop_first(), k);
    }
}

pub proof fn lemma_rank_lt_concat<V>(a: Seq<(u64, V)>, b: Seq<(u64, V)>, k: u64)
    ensures
        rank_lt(a + b, k) == rank_lt(a, k) + rank_lt(b, k),
    decreases a.len(),
{
    if a.len() == 0 {
        assert(a + b =~= b);
    } else {
        assert((a + b).drop_first() =~= a.drop_first() + b);
        lemma_rank_lt_concat(a.drop_first(), b, k);
    }
}

pub proof fn lemma_rank_le_concat<V>(a: Seq<(u64, V)>, b: Seq<(u64, V)>, k: u64)
    ensures
        rank_le(a + b, k) == rank_le(a, k) + rank_le(b, k),
    decreases a.len(),
{
    if a.len() == 0 {
        assert(a + b =~= b);
    } else {
        assert((a + b).drop_first() =~= a.drop_first() + b);
        lemma_rank_le_concat(a.drop_first(), b, k);
    }
}

/// On any sequence all of whose keys are at or above `k`, no key is below it.
pub proof fn lemma_rank_lt_none<V>(s: Seq<(u64, V)>, k: u64)
    requires
        forall|i: int| 0 <= i < s.len() ==> s[i].0 >= k,
    ensures
        rank_lt(s, k) == 0,
    decreases s.len(),
{
    if s.len() > 0 {
        lemma_rank_lt_none(s.drop_first(), k);
    }
}

/// On any sequence all of whose keys are below `k`, every key is below it.
pub proof fn lemma_rank_lt_all<V>(s: Seq<(u64, V)>, k: u64)
    requires
        keys_below(s, k),
    ensures
        rank_lt(s, k) == s.len(),
    decreases s.len(),
{
    if s.len() > 0 {
        lemma_rank_lt_all(s.drop_first(), k);
    }
}

pub proof fn lemma_rank_le_none<V>(s: Seq<(u64, V)>, k: u64)
    requires
        keys_above(s, k),
    ensures
        rank_le(s, k) == 0,
    decreases s.len(),
{
    if s.len() > 0 {
        lemma_rank_le_none(s.drop_first(), k);
    }
}

pub proof fn lemma_rank_le_all<V>(s: Seq<(u64, V)>, k: u64)
    requires
        forall|i: int| 0 <= i < s.len() ==> s[i].0 <= k,
    ensures
        rank_le(s, k) == s.len(),
    decreases s.len(),
{
    if s.len() > 0 {
        lemma_rank_le_all(s.drop_first(), k);
    }
}

/// On a sorted sequence, `rank_lt` is a split point: everything before it is
/// below `k`, everything at or after it is at or above `k`, and `k` is
/// present exactly when the pair at the split point carries it.
pub proof fn lemma_rank_lt_split<V>(s: Seq<(u64, V)>, k: u64)
    requires
        sorted_strict(s),
    ensures
        0 <= rank_lt(s, k) <= s.len(),
        forall|i: int| 0 <= i < rank_lt(s, k) ==> s[i].0 < k,
        forall|i: int| rank_lt(s, k) <= i < s.len() ==> s[i].0 >= k,
        contains_key(s, k) <==> (rank_lt(s, k) < s.len() && s[rank_lt(s, k)].0 == k),
    decreases s.len(),
{
    lemma_rank_lt_bounds(s, k);
    if s.len() > 0 {
        lemma_rank_lt_split(s.drop_first(), k);
        if s[0].0 < k {
            assert forall|i: int| rank_lt(s, k) <= i < s.len() implies s[i].0 >= k by {
                assert(s[i] == s.drop_first()[i - 1]);
            }
            assert forall|i: int| 0 <= i < rank_lt(s, k) implies s[i].0 < k by {
                if i > 0 {
                    assert(s[i] == s.drop_first()[i - 1]);
                }
            }
            if contains_key(s, k) {
                let w = choose|i: int| 0 <= i < s.len() && s[i].0 == k;
                assert(s.drop_first()[w - 1].0 == k);
                assert(contains_key(s.drop_first(), k));
            }
            if contains_key(s.drop_first(), k) {
                let w = choose|i: int| 0 <= i < s.drop_first().len() && s.drop_first()[i].0 == k;
                assert(s[w + 1].0 == k);
            }
        } else {
            // s[0].0 >= k: in a sorted sequence every key is then >= k.
            assert forall|i: int| 0 <= i < s.len() implies s[i].0 >= k by {
                if i > 0 {
                    assert(s[0].0 < s[i].0);
                }
            }
            lemma_rank_lt_none(s, k);
            if contains_key(s, k) {
                let w = choose|i: int| 0 <= i < s.len() && s[i].0 == k;
                assert(w == 0) by {
                    if w > 0 {
                        assert(s[0].0 < s[w].0);
                    }
                }
            }
        }
    }
}

/// On a sorted sequence, `rank_le` exceeds `rank_lt` by one exactly when the
/// key is present, and splits the sequence at or below / above `k`.
pub proof fn lemma_rank_le_split<V>(s: Seq<(u64, V)>, k: u64)
    requires
        sorted_strict(s),
    ensures
        0 <= rank_le(s, k) <= s.len(),
        forall|i: int| 0 <= i < rank_le(s, k) ==> s[i].0 <= k,
        forall|i: int| rank_le(s, k) <= i < s.len() ==> s[i].0 > k,
        rank_le(s, k) == rank_lt(s, k) + (if contains_key(s, k) { 1int } else { 0int }),
    decreases s.len(),
{
    lemma_rank_le_bounds(s, k);
    lemma_rank_lt_split(s, k);
    if s.len() > 0 {
        lemma_rank_le_split(s.drop_first(), k);
        if contains_key(s, k) {
            let w = choose|i: int| 0 <= i < s.len() && s[i].0 == k;
            if w > 0 {
                assert(s.drop_first()[w - 1].0 == k);
                assert(contains_key(s.drop_first(), k));
            }
        }
        if contains_key(s.drop_first(), k) {
            let w = choose|i: int| 0 <= i < s.drop_first().len() && s.drop_first()[i].0 == k;
            assert(s[w + 1].0 == k);
            assert(contains_key(s, k));
        }
        if s[0].0 == k && s.len() > 1 {
            if contains_key(s.drop_first(), k) {
                let w = choose|i: int| 0 <= i < s.drop_first().len() && s.drop_first()[i].0 == k;
                assert(s[0].0 < s[w + 1].0);
            }
        }
        assert forall|i: int| rank_le(s, k) <= i < s.len() implies s[i].0 > k by {
            if s[0].0 <= k && i > 0 {
                assert(s.drop_first()[i - 1].0 > k);
            }
        }
        assert forall|i: int| 0 <= i < rank_le(s, k) implies s[i].0 <= k by {
            if i > 0 {
                assert(s.drop_first()[i - 1].0 <= k);
            }
        }
    }
}

pub proof fn lemma_contains_concat<V>(a: Seq<(u64, V)>, b: Seq<(u64, V)>, k: u64)
    ensures
        contains_key(a + b, k) <==> (contains_key(a, k) || contains_key(b, k)),
{
    if contains_key(a, k) {
        let w = choose|i: int| 0 <= i < a.len() && a[i].0 == k;
        assert((a + b)[w].0 == k);
    }
    if contains_key(b, k) {
        let w = choose|i: int| 0 <= i < b.len() && b[i].0 == k;
        assert((a + b)[a.len() + w].0 == k);
    }
    if contains_key(a + b, k) {
        let w = choose|i: int| 0 <= i < (a + b).len() && (a + b)[i].0 == k;
        if w < a.len() {
            assert(a[w].0 == k);
        } else {
            assert(b[w - a.len()].0 == k);
        }
    }
}

/// Looking up in a concatenation searches the left part first.
pub proof fn lemma_lookup_concat<V>(a: Seq<(u64, V)>, b: Seq<(u64, V)>, k: u64)
    ensures
        lookup(a + b, k) == (if contains_key(a, k) {
            lookup(a, k)
        } else {
            lookup(b, k)
        }),
    decreases a.len(),
{
    if a.len() == 0 {
        assert(a + b =~= b);
    } else {
        assert((a + b).drop_first() =~= a.drop_first() + b);
        lemma_lookup_concat(a.drop_first(), b, k);
        if a[0].0 != k {
            assert(contains_key(a, k) <==> contains_key(a.drop_first(), k)) by {
                if contains_key(a, k) {
                    let w = choose|i: int| 0 <= i < a.len() && a[i].0 == k;
                    assert(a.drop_first()[w - 1].0 == k);
                }
                if contains_key(a.drop_first(), k) {
                    let w = choose|i: int|
                        0 <= i < a.drop_first().len() && a.drop_first()[i].0 == k;
                    assert(a[w + 1].0 == k);
                }
            }
        }
    }
}

/// A key that no pair carries looks up to nothing.
pub proof fn lemma_lookup_absent<V>(s: Seq<(u64, V)>, k: u64)
    requires
        !contains_key(s, k),
    ensures
        lookup(s, k) is None,
    decreases s.len(),
{
    if s.len() > 0 {
        assert(s[0].0 != k);
        assert forall|i: int| 0 <= i < s.drop_first().len() implies s.drop_first()[i].0 != k by {
            assert(s.drop_first()[i] == s[i + 1]);
        }
        lemma_lookup_absent(s.drop_first(), k);
    }
}

/// On a sorted sequence, looking a key up finds the pair at its index.
pub proof fn lemma_lookup_at<V>(s: Seq<(u64, V)>, k: u64, i: int)
    requires
        sorted_strict(s),
        0 <= i < s.len(),
        s[i].0 == k,
    ensures
        lookup(s, k) == Some(s[i].1),
    decreases s.len(),
{
    if i == 0 {
    } else {
        assert(s[0].0 < s[i].0);
        assert(s.drop_first()[i - 1] == s[i]);
        lemma_lookup_at(s.drop_first(), k, i - 1);
    }
}

} // verus!
