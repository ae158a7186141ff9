//! Sequences of entries in ascending key order: the model of what a node
//! and a tree hold.
use vstd::prelude::*;
use crate::order::{lt, total_order, lemma_lt_transitive, lemma_lt_trichotomy};

verus! {

/// The keys of `s` are strictly ascending.
pub open spec fn ascending<K: Ord, V>(s: Seq<(K, V)>) -> bool {
    forall|i: int, j: int| 0 <= i < j < s.len() ==> lt((#[trigger] s[i]).0, (#[trigger] s[j]).0)
}

/// The number of entries of `s` whose key is strictly below `k`. In an
/// ascending sequence this is the index at which `k` stands or belongs.
pub open spec fn rank<K: Ord, V>(s: Seq<(K, V)>, k: K) -> int
    decreases s.len(),
{
    if s.len() == 0 {
        0
    } else {
        rank(s.drop_last(), k) + if lt(s.last().0, k) {
            1int
        } else {
            0int
        }
    }
}

/// Some entry of `s` has the key `k`.
pub open spec fn has_key<K, V>(s: Seq<(K, V)>, k: K) -> bool {
    exists|i: int| 0 <= i < s.len() && (#[trigger] s[i]).0 == k
}

/// An index at which `s` has the key `k`.
pub open spec fn position<K, V>(s: Seq<(K, V)>, k: K) -> int {
    choose|i: int| 0 <= i < s.len() && (#[trigger] s[i]).0 == k
}

/// The value that `s` holds for `k`, if any.
pub open spec fn lookup<K, V>(s: Seq<(K, V)>, k: K) -> Option<V> {
    if has_key(s, k) {
        Some(s[position(s, k)].1)
    } else {
        None
    }
}

/// The finite map that the entries of `s` make up.
pub open spec fn as_map<K, V>(s: Seq<(K, V)>) -> Map<K, V> {
    Map::new(|k: K| has_key(s, k), |k: K| s[position(s, k)].1)
}

/// The rank is an index into the sequence, or its length.
pub proof fn lemma_rank_bounds<K: Ord, V>(s: Seq<(K, V)>, k: K)
    ensures
        0 <= rank(s, k) <= s.len(),
    decreases s.len(),
{
    if s.len() > 0 {
        lemma_rank_bounds(s.drop_last(), k);
    }
}

/// A cut point with only smaller keys before it and none after it is the rank.
pub proof fn lemma_rank_unique<K: Ord, V>(s: Seq<(K, V)>, k: K, p: int)
    requires
        0 <= p <= s.len(),
        forall|i: int| 0 <= i < p ==> lt((#[trigger] s[i]).0, k),
        forall|i: int| p <= i < s.len() ==> !lt((#[trigger] s[i]).0, k),
    ensures
        rank(s, k) == p,
    decreases s.len(),
{
    if s.len() > 0 {
        let t = s.drop_last();
        assert(forall|i: int| 0 <= i < t.len() ==> t[i] == s[i]);
        if p == s.len() {
            assert(lt(s[p - 1].0, k));
            lemma_rank_unique(t, k, p - 1);
        } else {
            assert(!lt(s[s.len() - 1].0, k));
            lemma_rank_unique(t, k, p);
        }
    }
}

/// The rank is additive over concatenation.
pub proof fn lemma_rank_concat<K: Ord, V>(a: Seq<(K, V)>, b: Seq<(K, V)>, k: K)
    ensures
        rank(a + b, k) == rank(a, k) + rank(b, k),
    decreases b.len(),
{
    if b.len() == 0 {
        assert(a + b =~= a);
    } else {
        assert((a + b).drop_last() =~= a + b.drop_last());
        assert((a + b).last() == b.last());
        lemma_rank_concat(a, b.drop_last(), k);
    }
}

/// In an ascending sequence the rank cuts the keys below `k` from the rest.
pub proof fn lemma_rank_cut<K: Ord, V>(s: Seq<(K, V)>, k: K)
    requires
        total_order::<K>(),
        ascending(s),
    ensures
        0 <= rank(s, k) <= s.len(),
        forall|i: int| 0 <= i < rank(s, k) ==> lt((#[trigger] s[i]).0, k),
        forall|i: int| rank(s, k) <= i < s.len() ==> !lt((#[trigger] s[i]).0, k),
    decreases s.len(),
{
    lemma_rank_bounds(s, k);
    if s.len() > 0 {
        let t = s.drop_last();
        let n = t.len() as int;
        assert(forall|i: int| 0 <= i < t.len() ==> t[i] == s[i]);
        assert(ascending(t));
        lemma_rank_cut(t, k);
        if lt(s.last().0, k) {
            assert forall|i: int| 0 <= i < n implies lt((#[trigger] s[i]).0, k) by {
                assert(lt(s[i].0, s[n].0));
                lemma_lt_transitive(s[i].0, s[n].0, k);
            }
            lemma_rank_unique(t, k, n);
        }
    }
}

/// In an ascending sequence no key occurs twice.
pub proof fn lemma_distinct<K: Ord, V>(s: Seq<(K, V)>, i: int, j: int)
    requires
        total_order::<K>(),
        ascending(s),
        0 <= i < s.len(),
        0 <= j < s.len(),
        s[i].0 == s[j].0,
    ensures
        i == j,
{
    if i < j {
        assert(lt(s[i].0, s[j].0));
        lemma_lt_trichotomy(s[i].0, s[j].0);
    } else if j < i {
        assert(lt(s[j].0, s[i].0));
        lemma_lt_trichotomy(s[j].0, s[i].0);
    }
}

/// Where an ascending sequence has a key, and what it holds there.
pub proof fn lemma_at<K: Ord, V>(s: Seq<(K, V)>, i: int)
    requires
        total_order::<K>(),
        ascending(s),
        0 <= i < s.len(),
    ensures
        has_key(s, s[i].0),
        position(s, s[i].0) == i,
        rank(s, s[i].0) == i,
        lookup(s, s[i].0) == Some(s[i].1),
        as_map(s).contains_key(s[i].0),
        as_map(s)[s[i].0] == s[i].1,
{
    let k = s[i].0;
    assert(has_key(s, k));
    lemma_distinct(s, i, position(s, k));
    assert forall|j: int| 0 <= j < i implies lt((#[trigger] s[j]).0, k) by {
        assert(lt(s[j].0, s[i].0));
    }
    assert forall|j: int| i <= j < s.len() implies !lt((#[trigger] s[j]).0, k) by {
        if i < j {
            assert(lt(s[i].0, s[j].0));
        }
        lemma_lt_trichotomy(s[j].0, k);
    }
    lemma_rank_unique(s, k, i);
}

/// In an ascending sequence a key is present exactly if it stands at its rank.
pub proof fn lemma_present<K: Ord, V>(s: Seq<(K, V)>, k: K)
    requires
        total_order::<K>(),
        ascending(s),
    ensures
        0 <= rank(s, k) <= s.len(),
        has_key(s, k) <==> (rank(s, k) < s.len() && s[rank(s, k)].0 == k),
        has_key(s, k) ==> position(s, k) == rank(s, k),
        rank(s, k) < s.len() && s[rank(s, k)].0 != k ==> lt(k, s[rank(s, k)].0),
{
    lemma_rank_cut(s, k);
    if has_key(s, k) {
        lemma_at(s, position(s, k));
    }
    let r = rank(s, k);
    if r < s.len() {
        assert(!lt(s[r].0, k));
        lemma_lt_trichotomy(s[r].0, k);
    }
}

/// A sequence whose last key is below `k` has none of its keys at or above `k`.
pub proof fn lemma_all_below<K: Ord, V>(s: Seq<(K, V)>, k: K)
    requires
        total_order::<K>(),
        ascending(s),
        s.len() > 0 ==> lt(s.last().0, k),
    ensures
        rank(s, k) == s.len(),
        !has_key(s, k),
{
    let n = s.len() as int;
    assert forall|i: int| 0 <= i < n implies lt((#[trigger] s[i]).0, k) by {
        if i < n - 1 {
            assert(lt(s[i].0, s[n - 1].0));
            lemma_lt_transitive(s[i].0, s[n - 1].0, k);
        }
    }
    lemma_rank_unique(s, k, n);
    if has_key(s, k) {
        let p = position(s, k);
        assert(lt(s[p].0, k));
        lemma_lt_trichotomy(s[p].0, k);
    }
}

/// A sequence whose first key is above `k` has none of its keys at or below `k`.
pub proof fn lemma_all_above<K: Ord, V>(s: Seq<(K, V)>, k: K)
    requires
        total_order::<K>(),
        ascending(s),
        s.len() > 0 ==> lt(k, s[0].0),
    ensures
        rank(s, k) == 0,
        !has_key(s, k),
        forall|i: int| 0 <= i < s.len() ==> lt(k, (#[trigger] s[i]).0),
{
    assert forall|i: int| 0 <= i < s.len() implies lt(k, (#[trigger] s[i]).0) by {
        if 0 < i {
            assert(lt(s[0].0, s[i].0));
            lemma_lt_transitive(k, s[0].0, s[i].0);
        }
    }
    assert forall|i: int| 0 <= i < s.len() implies !lt((#[trigger] s[i]).0, k) by {
        lemma_lt_trichotomy(s[i].0, k);
    }
    lemma_rank_unique(s, k, 0);
    if has_key(s, k) {
        let p = position(s, k);
        assert(lt(k, s[p].0));
        lemma_lt_trichotomy(s[p].0, k);
    }
}

/// The parts of an ascending sequence are ascending.
pub proof fn lemma_ascending_parts<K: Ord, V>(a: Seq<(K, V)>, b: Seq<(K, V)>)
    requires
        ascending(a + b),
    ensures
        ascending(a),
        ascending(b),
        a.len() > 0 && b.len() > 0 ==> lt(a.last().0, b[0].0),
{
    let s = a + b;
    let n = a.len() as int;
    assert forall|i: int, j: int| 0 <= i < j < a.len() implies lt(
        (#[trigger] a[i]).0,
        (#[trigger] a[j]).0,
    ) by {
        assert(s[i] == a[i] && s[j] == a[j]);
    }
    assert forall|i: int, j: int| 0 <= i < j < b.len() implies lt(
        (#[trigger] b[i]).0,
        (#[trigger] b[j]).0,
    ) by {
        assert(s[n + i] == b[i] && s[n + j] == b[j]);
    }
    if a.len() > 0 && b.len() > 0 {
        assert(s[n - 1] == a.last() && s[n] == b[0]);
    }
}

/// Two ascending sequences, the first ending below the start of the second,
/// make an ascending sequence.
pub proof fn lemma_ascending_concat<K: Ord, V>(a: Seq<(K, V)>, b: Seq<(K, V)>)
    requires
        total_order::<K>(),
        ascending(a),
        ascending(b),
        a.len() > 0 && b.len() > 0 ==> lt(a.last().0, b[0].0),
    ensures
        ascending(a + b),
{
    let s = a + b;
    let n = a.len() as int;
    assert forall|i: int, j: int| 0 <= i < j < s.len() implies lt(
        (#[trigger] s[i]).0,
        (#[trigger] s[j]).0,
    ) by {
        if j < n {
            assert(s[i] == a[i] && s[j] == a[j]);
        } else if i >= n {
            assert(s[i] == b[i - n] && s[j] == b[j - n]);
        } else {
            assert(s[i] == a[i] && s[j] == b[j - n]);
            if i < n - 1 {
                assert(lt(a[i].0, a[n - 1].0));
                lemma_lt_transitive(a[i].0, a[n - 1].0, b[0].0);
            }
            if j > n {
                assert(lt(b[0].0, b[j - n].0));
                lemma_lt_transitive(a[i].0, b[0].0, b[j - n].0);
            }
        }
    }
}

/// Putting a new key at its rank keeps the order and adds it to the map.
pub proof fn lemma_insert<K: Ord, V>(s: Seq<(K, V)>, k: K, v: V)
    requires
        total_order::<K>(),
        ascending(s),
        !has_key(s, k),
    ensures
        0 <= rank(s, k) <= s.len(),
        ascending(s.insert(rank(s, k), (k, v))),
        as_map(s.insert(rank(s, k), (k, v))) == as_map(s).insert(k, v),
        rank(s.insert(rank(s, k), (k, v)), k) == rank(s, k),
{
    lemma_rank_cut(s, k);
    let p = rank(s, k);
    let t = s.insert(p, (k, v));
    assert forall|i: int| p <= i < s.len() implies lt(k, (#[trigger] s[i]).0) by {
        lemma_lt_trichotomy(s[i].0, k);
    }
    assert forall|i: int, j: int| 0 <= i < j < t.len() implies lt(
        (#[trigger] t[i]).0,
        (#[trigger] t[j]).0,
    ) by {
        if j < p {
            assert(t[i] == s[i] && t[j] == s[j]);
        } else if j == p {
            assert(t[i] == s[i]);
        } else if i < p {
            assert(t[i] == s[i] && t[j] == s[j - 1]);
            lemma_lt_transitive(s[i].0, k, s[j - 1].0);
        } else if i == p {
            assert(t[j] == s[j - 1]);
        } else {
            assert(t[i] == s[i - 1] && t[j] == s[j - 1]);
        }
    }
    lemma_at(t, p);
    assert forall|x: K| has_key(t, x) <==> (x == k || has_key(s, x)) by {
        if has_key(t, x) {
            let i = position(t, x);
            if i < p {
                assert(s[i].0 == x);
            } else if i > p {
                assert(s[i - 1].0 == x);
            }
        }
        if has_key(s, x) {
            let i = position(s, x);
            if i < p {
                assert(t[i].0 == x);
            } else {
                assert(t[i + 1].0 == x);
            }
        }
        if x == k {
            assert(t[p].0 == x);
        }
    }
    assert forall|x: K| has_key(t, x) implies #[trigger] as_map(t)[x] == as_map(s).insert(
        k,
        v,
    )[x] by {
        if x != k {
            let i = position(s, x);
            lemma_at(s, i);
            if i < p {
                assert(t[i] == s[i]);
                lemma_at(t, i);
            } else {
                assert(t[i + 1] == s[i]);
                lemma_at(t, i + 1);
            }
        }
    }
    assert(as_map(t) =~= as_map(s).insert(k, v));
}

/// Replacing the value at a key keeps the order and updates the map.
pub proof fn lemma_update<K: Ord, V>(s: Seq<(K, V)>, k: K, v: V)
    requires
        total_order::<K>(),
        ascending(s),
        has_key(s, k),
    ensures
        0 <= rank(s, k) < s.len(),
        s[rank(s, k)].0 == k,
        ascending(s.update(rank(s, k), (k, v))),
        as_map(s.update(rank(s, k), (k, v))) == as_map(s).insert(k, v),
{
    lemma_present(s, k);
    let p = rank(s, k);
    let t = s.update(p, (k, v));
    assert forall|i: int, j: int| 0 <= i < j < t.len() implies lt(
        (#[trigger] t[i]).0,
        (#[trigger] t[j]).0,
    ) by {
        assert(t[i].0 == s[i].0 && t[j].0 == s[j].0);
    }
    assert forall|x: K| has_key(t, x) <==> has_key(s, x) by {
        if has_key(t, x) {
            let i = position(t, x);
            assert(s[i].0 == x);
        }
        if has_key(s, x) {
            let i = position(s, x);
            assert(t[i].0 == x);
        }
    }
    assert forall|x: K| has_key(t, x) implies #[trigger] as_map(t)[x] == as_map(s).insert(
        k,
        v,
    )[x] by {
        let i = position(s, x);
        lemma_at(s, i);
        assert(t[i].0 == x);
        lemma_at(t, i);
    }
    assert(as_map(t) =~= as_map(s).insert(k, v));
}

/// Taking out the entry at an index keeps the order and removes its key
/// from the map.
pub proof fn lemma_remove<K: Ord, V>(s: Seq<(K, V)>, p: int)
    requires
        total_order::<K>(),
        ascending(s),
        0 <= p < s.len(),
    ensures
        ascending(s.remove(p)),
        as_map(s.remove(p)) == as_map(s).remove(s[p].0),
        !has_key(s.remove(p), s[p].0),
{
    let t = s.remove(p);
    let k = s[p].0;
    assert forall|i: int, j: int| 0 <= i < j < t.len() implies lt(
        (#[trigger] t[i]).0,
        (#[trigger] t[j]).0,
    ) by {
        let si = if i < p { i } else { i + 1 };
        let sj = if j < p { j } else { j + 1 };
        assert(t[i] == s[si] && t[j] == s[sj]);
    }
    assert forall|x: K| has_key(t, x) <==> (x != k && has_key(s, x)) by {
        if has_key(t, x) {
            let i = position(t, x);
            let si = if i < p { i } else { i + 1 };
            assert(s[si].0 == x);
            if x == k {
                lemma_distinct(s, si, p);
            }
        }
        if x != k && has_key(s, x) {
            let i = position(s, x);
            if i < p {
                assert(t[i].0 == x);
            } else {
                assert(t[i - 1].0 == x);
            }
        }
    }
    assert forall|x: K| has_key(t, x) implies #[trigger] as_map(t)[x] == as_map(s).remove(k)[x] by {
        let i = position(s, x);
        lemma_at(s, i);
        if i < p {
            assert(t[i] == s[i]);
            lemma_at(t, i);
        } else {
            assert(t[i - 1] == s[i]);
            lemma_at(t, i - 1);
        }
    }
    assert(as_map(t) =~= as_map(s).remove(k));
}

/// The map of an ascending sequence has as many keys as the sequence has
/// entries, and the lookup reads it.
pub proof fn lemma_as_map<K: Ord, V>(s: Seq<(K, V)>)
    requires
        total_order::<K>(),
        ascending(s),
    ensures
        as_map(s).dom().finite(),
        as_map(s).len() == s.len(),
        forall|k: K| #[trigger] lookup(s, k) == if as_map(s).contains_key(k) {
            Some(as_map(s)[k])
        } else {
            None
        },
    decreases s.len(),
{
    if s.len() == 0 {
        assert(as_map(s) =~= Map::<K, V>::empty());
    } else {
        let p = s.len() - 1;
        let t = s.remove(p);
        lemma_remove(s, p);
        lemma_as_map(t);
        lemma_at(s, p);
        assert(as_map(s) =~= as_map(t).insert(s[p].0, s[p].1));
    }
}

} // verus!

verus! {

/// The keys of `ks` are strictly ascending.
pub open spec fn ascending_keys<K: Ord>(ks: Seq<K>) -> bool {
    forall|i: int, j: int| 0 <= i < j < ks.len() ==> lt(#[trigger] ks[i], #[trigger] ks[j])
}

/// The number of keys of `ks` that are strictly below `k`.
pub open spec fn below<K: Ord>(ks: Seq<K>, k: K) -> int
    decreases ks.len(),
{
    if ks.len() == 0 {
        0
    } else {
        below(ks.drop_last(), k) + if lt(ks.last(), k) {
            1int
        } else {
            0int
        }
    }
}

/// The count is an index into the keys, or their number.
pub proof fn lemma_below_bounds<K: Ord>(ks: Seq<K>, k: K)
    ensures
        0 <= below(ks, k) <= ks.len(),
    decreases ks.len(),
{
    if ks.len() > 0 {
        lemma_below_bounds(ks.drop_last(), k);
    }
}

/// A cut point with only smaller keys before it and none after it is the count.
pub proof fn lemma_below_unique<K: Ord>(ks: Seq<K>, k: K, p: int)
    requires
        0 <= p <= ks.len(),
        forall|i: int| 0 <= i < p ==> lt(#[trigger] ks[i], k),
        forall|i: int| p <= i < ks.len() ==> !lt(#[trigger] ks[i], k),
    ensures
        below(ks, k) == p,
    decreases ks.len(),
{
    if ks.len() > 0 {
        let t = ks.drop_last();
        assert(forall|i: int| 0 <= i < t.len() ==> t[i] == ks[i]);
        if p == ks.len() {
            assert(lt(ks[p - 1], k));
            lemma_below_unique(t, k, p - 1);
        } else {
            assert(!lt(ks[ks.len() - 1], k));
            lemma_below_unique(t, k, p);
        }
    }
}

/// The count is additive over concatenation.
pub proof fn lemma_below_concat<K: Ord>(a: Seq<K>, b: Seq<K>, k: K)
    ensures
        below(a + b, k) == below(a, k) + below(b, k),
    decreases b.len(),
{
    if b.len() == 0 {
        assert(a + b =~= a);
    } else {
        assert((a + b).drop_last() =~= a + b.drop_last());
        assert((a + b).last() == b.last());
        lemma_below_concat(a, b.drop_last(), k);
    }
}

/// Putting one more key in raises the count by one if that key is below `k`.
pub proof fn lemma_below_insert<K: Ord>(ks: Seq<K>, i: int, x: K, k: K)
    requires
        0 <= i <= ks.len(),
    ensures
        below(ks.insert(i, x), k) == below(ks, k) + if lt(x, k) {
            1int
        } else {
            0int
        },
{
    let a = ks.subrange(0, i);
    let b = ks.subrange(i, ks.len() as int);
    assert(ks =~= a + b);
    assert(ks.insert(i, x) =~= (a + seq![x]) + b);
    lemma_below_concat(a, b, k);
    lemma_below_concat(a + seq![x], b, k);
    lemma_below_concat(a, seq![x], k);
    assert(seq![x].drop_last() =~= Seq::<K>::empty());
    assert(below(seq![x].drop_last(), k) == 0);
    assert(seq![x].last() == x);
}

/// In ascending keys the count cuts the keys below `k` from the rest.
pub proof fn lemma_below_cut<K: Ord>(ks: Seq<K>, k: K)
    requires
        total_order::<K>(),
        ascending_keys(ks),
    ensures
        0 <= below(ks, k) <= ks.len(),
        forall|i: int| 0 <= i < below(ks, k) ==> lt(#[trigger] ks[i], k),
        forall|i: int| below(ks, k) <= i < ks.len() ==> !lt(#[trigger] ks[i], k),
    decreases ks.len(),
{
    lemma_below_bounds(ks, k);
    if ks.len() > 0 {
        let t = ks.drop_last();
        let n = t.len() as int;
        assert(forall|i: int| 0 <= i < t.len() ==> t[i] == ks[i]);
        assert(ascending_keys(t));
        lemma_below_cut(t, k);
        if lt(ks.last(), k) {
            assert forall|i: int| 0 <= i < n implies lt(#[trigger] ks[i], k) by {
                assert(lt(ks[i], ks[n]));
                lemma_lt_transitive(ks[i], ks[n], k);
            }
            lemma_below_unique(t, k, n);
        }
    }
}

/// A key is in a concatenation exactly if it is in one of the two parts.
pub proof fn lemma_has_key_concat<K, V>(a: Seq<(K, V)>, b: Seq<(K, V)>, k: K)
    ensures
        has_key(a + b, k) <==> has_key(a, k) || has_key(b, k),
{
    let s = a + b;
    let n = a.len() as int;
    if has_key(s, k) {
        let i = position(s, k);
        if i < n {
            assert(a[i].0 == k);
        } else {
            assert(b[i - n].0 == k);
        }
    }
    if has_key(a, k) {
        let i = position(a, k);
        assert(s[i].0 == k);
    }
    if has_key(b, k) {
        let i = position(b, k);
        assert(s[n + i].0 == k);
    }
}

/// A flattened sequence is what comes before a part, the part, and what
/// comes after it.
pub proof fn lemma_flatten_at<A>(p: Seq<Seq<A>>, i: int)
    requires
        0 <= i < p.len(),
    ensures
        p.flatten() == p.subrange(0, i).flatten() + p[i] + p.subrange(
            i + 1,
            p.len() as int,
        ).flatten(),
{
    let a = p.subrange(0, i);
    let m = seq![p[i]];
    let b = p.subrange(i + 1, p.len() as int);
    assert(p =~= (a + m) + b);
    vstd::seq_lib::lemma_flatten_concat(a + m, b);
    vstd::seq_lib::lemma_flatten_concat(a, m);
    m.lemma_flatten_one_element();
}

/// Replacing a run of parts by another run that flattens to the same leaves
/// the flattened sequence as it was.
pub proof fn lemma_flatten_replace<A>(
    p: Seq<Seq<A>>,
    q: Seq<Seq<A>>,
    i: int,
    j: int,
    mid: Seq<Seq<A>>,
)
    requires
        0 <= i <= j <= p.len(),
        q =~= p.subrange(0, i) + mid + p.subrange(j, p.len() as int),
        mid.flatten() == p.subrange(i, j).flatten(),
    ensures
        q.flatten() == p.flatten(),
{
    let a = p.subrange(0, i);
    let b = p.subrange(j, p.len() as int);
    let old_mid = p.subrange(i, j);
    assert(p =~= (a + old_mid) + b);
    vstd::seq_lib::lemma_flatten_concat(a + old_mid, b);
    vstd::seq_lib::lemma_flatten_concat(a, old_mid);
    vstd::seq_lib::lemma_flatten_concat(a + mid, b);
    vstd::seq_lib::lemma_flatten_concat(a, mid);
}

/// No parts flatten to nothing, and one part flattens to itself.
pub proof fn lemma_flatten_one<A>(a: Seq<A>)
    ensures
        seq![a].flatten() == a,
        Seq::<Seq<A>>::empty().flatten() == Seq::<A>::empty(),
{
    seq![a].lemma_flatten_one_element();
}

/// Two parts flatten to their concatenation.
pub proof fn lemma_flatten_two<A>(a: Seq<A>, b: Seq<A>)
    ensures
        seq![a, b].flatten() == a + b,
{
    seq![a].lemma_flatten_one_element();
    seq![b].lemma_flatten_one_element();
    assert(seq![a, b] =~= seq![a] + seq![b]);
    vstd::seq_lib::lemma_flatten_concat(seq![a], seq![b]);
}

/// Parts that are not empty flatten to at least as many elements as there
/// are parts, and the flattened sequence starts and ends as they do.
pub proof fn lemma_flatten_ends<A>(p: Seq<Seq<A>>)
    requires
        forall|i: int| 0 <= i < p.len() ==> (#[trigger] p[i]).len() > 0,
    ensures
        p.flatten().len() >= p.len(),
        p.len() > 0 ==> p.flatten().last() == p.last().last() && p.flatten()[0] == p[0][0],
    decreases p.len(),
{
    if p.len() > 0 {
        let n = p.len() as int;
        let a = p.subrange(0, n - 1);
        lemma_flatten_at(p, n - 1);
        assert(p.subrange(n, n) =~= Seq::<Seq<A>>::empty());
        lemma_flatten_ends(a);
        lemma_flatten_at(p, 0);
        assert(p.subrange(0, 0) =~= Seq::<Seq<A>>::empty());
    }
}

/// A run of parts flattens to no more than all of them.
pub proof fn lemma_flatten_prefix_len<A>(p: Seq<Seq<A>>, i: int)
    requires
        0 <= i <= p.len(),
    ensures
        p.subrange(0, i).flatten().len() <= p.flatten().len(),
        i < p.len() ==> p.subrange(0, i + 1).flatten() == p.subrange(0, i).flatten() + p[i],
{
    let a = p.subrange(0, i);
    let b = p.subrange(i, p.len() as int);
    assert(p =~= a + b);
    vstd::seq_lib::lemma_flatten_concat(a, b);
    if i < p.len() {
        assert(p.subrange(0, i + 1) =~= a + seq![p[i]]);
        vstd::seq_lib::lemma_flatten_concat(a, seq![p[i]]);
        seq![p[i]].lemma_flatten_one_element();
    }
}

/// In ascending keys, a cut point whose left neighbour is below `k` and
/// whose right neighbour is not is the count.
pub proof fn lemma_below_between<K: Ord>(ks: Seq<K>, k: K, p: int)
    requires
        total_order::<K>(),
        ascending_keys(ks),
        0 <= p <= ks.len(),
        p > 0 ==> lt(ks[p - 1], k),
        p < ks.len() ==> !lt(ks[p], k),
    ensures
        below(ks, k) == p,
{
    assert forall|i: int| 0 <= i < p implies lt(#[trigger] ks[i], k) by {
        if i < p - 1 {
            assert(lt(ks[i], ks[p - 1]));
            lemma_lt_transitive(ks[i], ks[p - 1], k);
        }
    }
    assert forall|i: int| p <= i < ks.len() implies !lt(#[trigger] ks[i], k) by {
        if p < i && lt(ks[i], k) {
            assert(lt(ks[p], ks[i]));
            lemma_lt_transitive(ks[p], ks[i], k);
        }
    }
    lemma_below_unique(ks, k, p);
}

/// What is left of an ascending sequence without its first entry: the
/// same keys but the first, with the same values, all above the first key.
pub proof fn lemma_drop_first<K: Ord, V>(s: Seq<(K, V)>)
    requires
        total_order::<K>(),
        ascending(s),
        s.len() > 0,
    ensures
        ascending(s.drop_first()),
        has_key(s, s[0].0),
        position(s, s[0].0) == 0,
        forall|k: K|
            #![trigger has_key(s.drop_first(), k)]
            #![trigger has_key(s, k)]
            has_key(s.drop_first(), k) <==> has_key(s, k) && k != s[0].0,
        forall|k: K| #[trigger]
            has_key(s.drop_first(), k) ==> lt(s[0].0, k) && s.drop_first()[position(
                s.drop_first(),
                k,
            )].1 == s[position(s, k)].1,
{
    let t = s.drop_first();
    assert forall|i: int, j: int| 0 <= i < j < t.len() implies lt(
        (#[trigger] t[i]).0,
        (#[trigger] t[j]).0,
    ) by {
        assert(t[i] == s[i + 1] && t[j] == s[j + 1]);
    }
    lemma_at(s, 0);
    assert forall|k: K| has_key(t, k) <==> has_key(s, k) && k != s[0].0 by {
        if has_key(t, k) {
            let i = position(t, k);
            assert(s[i + 1].0 == k);
            if k == s[0].0 {
                lemma_distinct(s, 0, i + 1);
            }
        }
        if has_key(s, k) && k != s[0].0 {
            let i = position(s, k);
            assert(t[i - 1].0 == k);
        }
    }
    assert forall|k: K| #[trigger] has_key(t, k) implies lt(s[0].0, k) && t[position(t, k)].1
        == s[position(s, k)].1 by {
        let i = position(t, k);
        assert(t[i] == s[i + 1]);
        assert(lt(s[0].0, s[i + 1].0));
        lemma_at(s, i + 1);
    }
}

/// What is left of ascending keys without the first: the same keys but the
/// first, all above it.
pub proof fn lemma_keys_drop_first<K: Ord>(ks: Seq<K>)
    requires
        total_order::<K>(),
        ascending_keys(ks),
        ks.len() > 0,
    ensures
        ascending_keys(ks.drop_first()),
        ks.contains(ks[0]),
        forall|k: K|
            #![trigger ks.drop_first().contains(k)]
            #![trigger ks.contains(k)]
            ks.drop_first().contains(k) <==> ks.contains(k) && k != ks[0],
        forall|k: K| #[trigger] ks.drop_first().contains(k) ==> lt(ks[0], k),
{
    let t = ks.drop_first();
    assert forall|i: int, j: int| 0 <= i < j < t.len() implies lt(
        #[trigger] t[i],
        #[trigger] t[j],
    ) by {
        assert(t[i] == ks[i + 1] && t[j] == ks[j + 1]);
    }
    assert(ks[0] == ks[0]);
    assert forall|k: K| t.contains(k) <==> ks.contains(k) && k != ks[0] by {
        if t.contains(k) {
            let i = choose|i: int| 0 <= i < t.len() && t[i] == k;
            assert(ks[i + 1] == k);
            assert(lt(ks[0], ks[i + 1]));
            lemma_lt_trichotomy(ks[0], k);
        }
        if ks.contains(k) && k != ks[0] {
            let i = choose|i: int| 0 <= i < ks.len() && ks[i] == k;
            assert(t[i - 1] == k);
        }
    }
    assert forall|k: K| #[trigger] t.contains(k) implies lt(ks[0], k) by {
        let i = choose|i: int| 0 <= i < t.len() && t[i] == k;
        assert(t[i] == ks[i + 1]);
        assert(lt(ks[0], ks[i + 1]));
    }
}

/// Where `then` is `first` with one element more after the one at `i`, and
/// `now` is `then` but for the element at `at`, which is `i` or `i + 1`,
/// `now` starts and ends as `first` does.
pub proof fn lemma_grown_around<A>(first: Seq<A>, then: Seq<A>, now: Seq<A>, i: int, at: int)
    requires
        0 <= i < first.len(),
        then.len() == first.len() + 1,
        now.len() == then.len(),
        at == i || at == i + 1,
        forall|j: int| 0 <= j < i ==> then[j] == first[j],
        forall|j: int| i + 2 <= j < then.len() ==> then[j] == first[j - 1],
        now.subrange(0, at) == then.subrange(0, at),
        now.subrange(at + 1, now.len() as int) == then.subrange(at + 1, then.len() as int),
    ensures
        now.subrange(0, i) == first.subrange(0, i),
        now.subrange(i + 2, now.len() as int) == first.subrange(i + 1, first.len() as int),
{
    let head_now = now.subrange(0, at);
    let head_then = then.subrange(0, at);
    let tail_now = now.subrange(at + 1, now.len() as int);
    let tail_then = then.subrange(at + 1, then.len() as int);
    assert forall|j: int| 0 <= j < i implies now[j] == first[j] by {
        assert(head_now[j] == now[j]);
        assert(head_then[j] == then[j]);
        assert(then[j] == first[j]);
    }
    assert forall|j: int| i + 2 <= j < now.len() implies now[j] == first[j - 1] by {
        assert(tail_now[j - at - 1] == now[j]);
        assert(tail_then[j - at - 1] == then[j]);
        assert(then[j] == first[j - 1]);
    }
    assert(now.subrange(0, i) =~= first.subrange(0, i));
    assert(now.subrange(i + 2, now.len() as int) =~= first.subrange(i + 1, first.len() as int));
}

} // verus!
