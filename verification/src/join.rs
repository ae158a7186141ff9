//! Merge joins: walks over what two ascending streams have in common.
use vstd::prelude::*;
use crate::order::{lt, total_order, exact_clone, compare, duplicate, Side,
    lemma_lt_transitive, lemma_lt_trichotomy, lemma_total_order_ref};
use crate::sorted::{ascending, ascending_keys, has_key, position, lemma_at, lemma_drop_first,
    lemma_keys_drop_first, lemma_ascending_concat, lemma_has_key_concat};
use crate::btree::{BTreeMapIterator, BTreeSetIterator, keys_of};

verus! {

/// A finite stream of items that is read once, front to back.
pub trait Stream {
    /// What the stream hands out.
    type Item;

    /// The stream is in a state in which it can be read.
    spec fn wf(&self) -> bool;

    /// The items still to come, in the order in which they come.
    spec fn rest(&self) -> Seq<Self::Item>;

    /// The next item, if any is left.
    fn next(&mut self) -> (r: Option<Self::Item>)
        requires
            old(self).wf(),
        ensures
            final(self).wf(),
            match r {
                Some(x) => {
                    &&& old(self).rest().len() > 0
                    &&& x == old(self).rest()[0]
                    &&& final(self).rest() == old(self).rest().drop_first()
                },
                None => old(self).rest().len() == 0 && final(self).rest().len() == 0,
            },
    ;
}

/// The entries of `s` by reference: what a walk over a map hands out.
pub open spec fn entry_refs<'a, K, V>(s: Seq<(K, V)>) -> Seq<(&'a K, &'a V)> {
    s.map_values(|e: (K, V)| (&e.0, &e.1))
}

/// The keys of `s` by reference: what a walk over a set hands out.
pub open spec fn key_refs<'a, T>(s: Seq<T>) -> Seq<&'a T> {
    s.map_values(|e: T| &e)
}

/// What a walk over a map or a set hands out ascends as the entries do, in
/// the order of the references, and a clone of a reference is that
/// reference: walks are streams that the joins accept.
pub proof fn lemma_walks_ascend<'a, K: Ord, V>(s: Seq<(K, V)>)
    requires
        total_order::<K>(),
        ascending(s),
    ensures
        total_order::<&'a K>(),
        exact_clone::<&'a V>(),
        ascending(entry_refs::<K, V>(s)),
        ascending_keys(key_refs::<K>(keys_of(s))),
{
    lemma_total_order_ref::<K>();
    assert forall|a: &'a V, b: &'a V| #[trigger] cloned(a, b) implies a == b by {}
    let e = entry_refs::<K, V>(s);
    assert forall|i: int, j: int| 0 <= i < j < e.len() implies lt(
        (#[trigger] e[i]).0,
        (#[trigger] e[j]).0,
    ) by {
        assert(lt(s[i].0, s[j].0));
    }
    let k = key_refs::<K>(keys_of(s));
    assert forall|i: int, j: int| 0 <= i < j < k.len() implies lt(
        #[trigger] k[i],
        #[trigger] k[j],
    ) by {
        assert(lt(s[i].0, s[j].0));
    }
}

impl<'a, K: Ord + Clone, V: Clone> Stream for BTreeMapIterator<'a, K, V> {
    type Item = (&'a K, &'a V);

    /// The walk stands inside a well-formed tree.
    open spec fn wf(&self) -> bool {
        BTreeMapIterator::wf(self)
    }

    /// The entries still to come, by reference.
    open spec fn rest(&self) -> Seq<(&'a K, &'a V)> {
        entry_refs(self.remaining())
    }

    /// The next entry of the walk.
    fn next(&mut self) -> (r: Option<(&'a K, &'a V)>) {
        let r = BTreeMapIterator::next(self);
        proof {
            if r is Some {
                assert(self.rest() =~= old(self).rest().drop_first());
            }
        }
        r
    }
}

impl<'a, T: Ord + Clone> Stream for BTreeSetIterator<'a, T> {
    type Item = &'a T;

    /// The walk stands inside a well-formed tree.
    open spec fn wf(&self) -> bool {
        BTreeSetIterator::wf(self)
    }

    /// The elements still to come, by reference.
    open spec fn rest(&self) -> Seq<&'a T> {
        key_refs(self.remaining())
    }

    /// The next element of the walk.
    fn next(&mut self) -> (r: Option<&'a T>) {
        let r = BTreeSetIterator::next(self);
        proof {
            if r is Some {
                assert(self.rest() =~= old(self).rest().drop_first());
            }
        }
        r
    }
}

/// An item that is held back, in front of the items still to come.
pub open spec fn held_then<T>(held: Option<T>, rest: Seq<T>) -> Seq<T> {
    match held {
        Some(x) => seq![x] + rest,
        None => rest,
    }
}

/// What a two-finger walk over `a` and `b` gives: for each entry of `a`
/// whose key the walk meets in `b`, the key with both values. The walk
/// moves on in `a` after a match, and in the stream with the smaller key
/// otherwise.
pub open spec fn joined_maps<K: Ord, A, B>(a: Seq<(K, A)>, b: Seq<(K, B)>) -> Seq<(K, (A, B))>
    decreases a.len() + b.len(),
{
    if a.len() == 0 || b.len() == 0 {
        Seq::empty()
    } else if lt(a[0].0, b[0].0) {
        joined_maps(a.drop_first(), b)
    } else if a[0].0 == b[0].0 {
        seq![(a[0].0, (a[0].1, b[0].1))] + joined_maps(a.drop_first(), b)
    } else {
        joined_maps(a, b.drop_first())
    }
}

/// What a two-finger walk over `a` and `b` gives: each key of `a` that the
/// walk meets in `b`.
pub open spec fn joined_sets<K: Ord>(a: Seq<K>, b: Seq<K>) -> Seq<K>
    decreases a.len() + b.len(),
{
    if a.len() == 0 || b.len() == 0 {
        Seq::empty()
    } else if lt(a[0], b[0]) {
        joined_sets(a.drop_first(), b)
    } else if a[0] == b[0] {
        seq![a[0]] + joined_sets(a.drop_first(), b)
    } else {
        joined_sets(a, b.drop_first())
    }
}

/// What a two-finger walk over the keys `s` and the entries `m` gives: for
/// each key of `s` that the walk meets in `m`, the key with the value.
pub open spec fn joined_set_map<K: Ord, D>(s: Seq<K>, m: Seq<(K, D)>) -> Seq<(K, D)>
    decreases s.len() + m.len(),
{
    if s.len() == 0 || m.len() == 0 {
        Seq::empty()
    } else if lt(s[0], m[0].0) {
        joined_set_map(s.drop_first(), m)
    } else if s[0] == m[0].0 {
        seq![(s[0], m[0].1)] + joined_set_map(s.drop_first(), m)
    } else {
        joined_set_map(s, m.drop_first())
    }
}

/// The join of two ascending sequences of entries ascends, and holds
/// exactly the keys that both hold, each with the values of both.
pub proof fn lemma_joined_maps<K: Ord, A, B>(a: Seq<(K, A)>, b: Seq<(K, B)>)
    requires
        total_order::<K>(),
        ascending(a),
        ascending(b),
    ensures
        ascending(joined_maps(a, b)),
        forall|k: K| #[trigger]
            has_key(joined_maps(a, b), k) <==> has_key(a, k) && has_key(b, k),
        forall|k: K| #[trigger]
            has_key(joined_maps(a, b), k) ==> joined_maps(a, b)[position(joined_maps(a, b), k)].1
                == (a[position(a, k)].1, b[position(b, k)].1),
    decreases a.len() + b.len(),
{
    let j = joined_maps(a, b);
    if a.len() == 0 || b.len() == 0 {
    } else if lt(a[0].0, b[0].0) {
        lemma_drop_first(a);
        lemma_joined_maps(a.drop_first(), b);
        lemma_drop_first(b);
        assert forall|k: K| has_key(b, k) implies k != a[0].0 by {
            if k != b[0].0 {
                assert(has_key(b.drop_first(), k));
                lemma_lt_transitive(a[0].0, b[0].0, k);
            }
            lemma_lt_trichotomy(a[0].0, k);
        }
        assert forall|k: K| #[trigger] has_key(j, k) implies j[position(j, k)].1 == (
            a[position(a, k)].1,
            b[position(b, k)].1,
        ) by {
            assert(has_key(a.drop_first(), k));
        }
    } else if a[0].0 == b[0].0 {
        let rest = joined_maps(a.drop_first(), b);
        let head = seq![(a[0].0, (a[0].1, b[0].1))];
        lemma_drop_first(a);
        lemma_drop_first(b);
        lemma_joined_maps(a.drop_first(), b);
        if rest.len() > 0 {
            assert(has_key(rest, rest[0].0));
            assert(has_key(a.drop_first(), rest[0].0));
        }
        lemma_ascending_concat(head, rest);
        assert forall|k: K| has_key(j, k) <==> has_key(a, k) && has_key(b, k) by {
            lemma_has_key_concat(head, rest, k);
            if has_key(head, k) {
                assert(position(head, k) == 0);
            }
            if k == a[0].0 {
                assert(head[0].0 == k);
            }
        }
        assert forall|k: K| #[trigger] has_key(j, k) implies j[position(j, k)].1 == (
            a[position(a, k)].1,
            b[position(b, k)].1,
        ) by {
            lemma_has_key_concat(head, rest, k);
            assert(j == head + rest);
            if k == a[0].0 {
                lemma_at(j, 0);
                assert(j[0] == head[0]);
                assert(position(a, k) == 0);
                assert(position(b, k) == 0);
            } else {
                if has_key(head, k) {
                    assert(position(head, k) == 0);
                    assert(head[0].0 == k);
                }
                assert(has_key(rest, k));
                assert(has_key(a.drop_first(), k));
                let i = position(rest, k);
                assert(j[i + 1] == rest[i]);
                lemma_at(j, i + 1);
            }
        }
    } else {
        lemma_lt_trichotomy(a[0].0, b[0].0);
        lemma_drop_first(b);
        lemma_joined_maps(a, b.drop_first());
        lemma_drop_first(a);
        assert forall|k: K| has_key(a, k) implies k != b[0].0 by {
            if k != a[0].0 {
                assert(has_key(a.drop_first(), k));
                lemma_lt_transitive(b[0].0, a[0].0, k);
            }
            lemma_lt_trichotomy(b[0].0, k);
        }
        assert forall|k: K| #[trigger] has_key(j, k) implies j[position(j, k)].1 == (
            a[position(a, k)].1,
            b[position(b, k)].1,
        ) by {
            assert(has_key(b.drop_first(), k));
        }
    }
}

/// The join of two ascending sequences of keys ascends, and holds exactly
/// the keys that both hold.
pub proof fn lemma_joined_sets<K: Ord>(a: Seq<K>, b: Seq<K>)
    requires
        total_order::<K>(),
        ascending_keys(a),
        ascending_keys(b),
    ensures
        ascending_keys(joined_sets(a, b)),
        forall|k: K| joined_sets(a, b).contains(k) <==> a.contains(k) && b.contains(k),
    decreases a.len() + b.len(),
{
    let j = joined_sets(a, b);
    if a.len() == 0 || b.len() == 0 {
    } else if lt(a[0], b[0]) {
        lemma_keys_drop_first(a);
        lemma_joined_sets(a.drop_first(), b);
        lemma_keys_drop_first(b);
        assert forall|k: K| b.contains(k) implies k != a[0] by {
            if k != b[0] {
                assert(b.drop_first().contains(k));
                lemma_lt_transitive(a[0], b[0], k);
            }
            lemma_lt_trichotomy(a[0], k);
        }
    } else if a[0] == b[0] {
        let rest = joined_sets(a.drop_first(), b);
        let head = seq![a[0]];
        lemma_keys_drop_first(a);
        lemma_keys_drop_first(b);
        lemma_joined_sets(a.drop_first(), b);
        assert forall|x: int, y: int| 0 <= x < y < j.len() implies lt(
            #[trigger] j[x],
            #[trigger] j[y],
        ) by {
            assert(j[y] == rest[y - 1]);
            assert(rest.contains(rest[y - 1]));
            if x > 0 {
                assert(j[x] == rest[x - 1]);
            } else {
                assert(a.drop_first().contains(rest[y - 1]));
            }
        }
        assert forall|k: K| j.contains(k) <==> a.contains(k) && b.contains(k) by {
            if j.contains(k) {
                let i = choose|i: int| 0 <= i < j.len() && j[i] == k;
                if i > 0 {
                    assert(rest[i - 1] == k);
                }
            }
            if a.contains(k) && b.contains(k) {
                if k == a[0] {
                    assert(j[0] == k);
                } else {
                    let i = choose|i: int| 0 <= i < rest.len() && rest[i] == k;
                    assert(j[i + 1] == k);
                }
            }
        }
    } else {
        lemma_lt_trichotomy(a[0], b[0]);
        lemma_keys_drop_first(b);
        lemma_joined_sets(a, b.drop_first());
        lemma_keys_drop_first(a);
        assert forall|k: K| a.contains(k) implies k != b[0] by {
            if k != a[0] {
                assert(a.drop_first().contains(k));
                lemma_lt_transitive(b[0], a[0], k);
            }
            lemma_lt_trichotomy(b[0], k);
        }
    }
}

/// The join of ascending keys with an ascending sequence of entries
/// ascends, and holds exactly the entries whose keys are among the keys.
pub proof fn lemma_joined_set_map<K: Ord, D>(s: Seq<K>, m: Seq<(K, D)>)
    requires
        total_order::<K>(),
        ascending_keys(s),
        ascending(m),
    ensures
        ascending(joined_set_map(s, m)),
        forall|k: K| #[trigger]
            has_key(joined_set_map(s, m), k) <==> s.contains(k) && has_key(m, k),
        forall|k: K| #[trigger]
            has_key(joined_set_map(s, m), k) ==> joined_set_map(s, m)[position(
                joined_set_map(s, m),
                k,
            )].1 == m[position(m, k)].1,
    decreases s.len() + m.len(),
{
    let j = joined_set_map(s, m);
    if s.len() == 0 || m.len() == 0 {
    } else if lt(s[0], m[0].0) {
        lemma_keys_drop_first(s);
        lemma_joined_set_map(s.drop_first(), m);
        lemma_drop_first(m);
        assert forall|k: K| has_key(m, k) implies k != s[0] by {
            if k != m[0].0 {
                assert(has_key(m.drop_first(), k));
                lemma_lt_transitive(s[0], m[0].0, k);
            }
            lemma_lt_trichotomy(s[0], k);
        }
    } else if s[0] == m[0].0 {
        let rest = joined_set_map(s.drop_first(), m);
        let head = seq![(s[0], m[0].1)];
        lemma_keys_drop_first(s);
        lemma_drop_first(m);
        lemma_joined_set_map(s.drop_first(), m);
        if rest.len() > 0 {
            assert(has_key(rest, rest[0].0));
            assert(s.drop_first().contains(rest[0].0));
        }
        lemma_ascending_concat(head, rest);
        assert forall|k: K| has_key(j, k) <==> s.contains(k) && has_key(m, k) by {
            lemma_has_key_concat(head, rest, k);
            assert(j == head + rest);
            if has_key(head, k) {
                assert(position(head, k) == 0);
                assert(head[0].0 == k);
            }
            if k == s[0] {
                assert(head[0].0 == k);
                assert(has_key(head, k));
                assert(has_key(m, m[0].0));
            } else {
                assert(s.drop_first().contains(k) == s.contains(k));
            }
        }
        assert forall|k: K| #[trigger] has_key(j, k) implies j[position(j, k)].1 == m[position(
            m,
            k,
        )].1 by {
            lemma_has_key_concat(head, rest, k);
            assert(j == head + rest);
            if k == s[0] {
                lemma_at(j, 0);
                assert(j[0] == head[0]);
                assert(position(m, k) == 0);
            } else {
                if has_key(head, k) {
                    assert(position(head, k) == 0);
                    assert(head[0].0 == k);
                }
                assert(has_key(rest, k));
                let i = position(rest, k);
                assert(j[i + 1] == rest[i]);
                lemma_at(j, i + 1);
            }
        }
    } else {
        lemma_lt_trichotomy(s[0], m[0].0);
        lemma_drop_first(m);
        lemma_joined_set_map(s, m.drop_first());
        lemma_keys_drop_first(s);
        assert forall|k: K| s.contains(k) implies k != m[0].0 by {
            if k != s[0] {
                assert(s.drop_first().contains(k));
                lemma_lt_transitive(m[0].0, s[0], k);
            }
            lemma_lt_trichotomy(m[0].0, k);
        }
        assert forall|k: K| #[trigger] has_key(j, k) implies j[position(j, k)].1 == m[position(
            m,
            k,
        )].1 by {
            assert(has_key(m.drop_first(), k));
        }
    }
}

/// The entries that two streams of entries have in common by key.
pub struct JoinMapIterator<A, B: Stream> {
    pub(crate) a: A,
    pub(crate) b: B,
    pub(crate) held: Option<B::Item>,
}

/// The keys that two streams of keys have in common.
pub struct JoinSetIterator<A, B: Stream> {
    pub(crate) a: A,
    pub(crate) b: B,
    pub(crate) held: Option<B::Item>,
}

/// The entries of a stream of entries whose keys a stream of keys has too.
pub struct JoinMapSetIterator<A, B: Stream> {
    pub(crate) set: A,
    pub(crate) map: B,
    pub(crate) held: Option<B::Item>,
}

/// Joins two streams of entries, each ascending by key.
pub fn join_maps<K, DA, DB, A, B>(a: A, b: B) -> (r: JoinMapIterator<A, B>) where
    K: Ord,
    DB: Clone,
    A: Stream<Item = (K, DA)>,
    B: Stream<Item = (K, DB)>,
    requires
        a.wf(),
        b.wf(),
        total_order::<K>(),
        exact_clone::<DB>(),
    ensures
        r.wf(),
        r.rest() == joined_maps(a.rest(), b.rest()),
{
    JoinMapIterator { a: a, b: b, held: None }
}

impl<K, DA, DB, A, B> Stream for JoinMapIterator<A, B> where
    K: Ord,
    DB: Clone,
    A: Stream<Item = (K, DA)>,
    B: Stream<Item = (K, DB)>,
{
    type Item = (K, (DA, DB));

    /// Both streams can be read, the keys are totally ordered, and a clone
    /// of a value of the right stream equals the value.
    closed spec fn wf(&self) -> bool {
        self.a.wf() && self.b.wf() && total_order::<K>() && exact_clone::<DB>()
    }

    /// The join of what the two streams still hold, an entry of the right
    /// stream that is held back coming first.
    closed spec fn rest(&self) -> Seq<(K, (DA, DB))> {
        joined_maps(self.a.rest(), held_then(self.held, self.b.rest()))
    }

    /// Walks on to the next key that both streams hold. The entry of the
    /// right stream is held back for the entry that follows on the left.
    fn next(&mut self) -> (r: Option<(K, (DA, DB))>) {
        let (mut key_a, mut data_a) = match self.a.next() {
            None => {
                return None;
            },
            Some((key, data)) => (key, data),
        };
        let (mut key_b, mut data_b) = match self.held.take() {
            Some((key, data)) => (key, data),
            None => match self.b.next() {
                None => {
                    return None;
                },
                Some((key, data)) => (key, data),
            },
        };
        proof {
            assert(seq![(key_a, data_a)] + self.a.rest() =~= old(self).a.rest());
            assert(seq![(key_b, data_b)] + self.b.rest() =~= held_then(
                old(self).held,
                old(self).b.rest(),
            ));
        }
        loop
            invariant
                self.a.wf(),
                self.b.wf(),
                self.held is None,
                total_order::<K>(),
                exact_clone::<DB>(),
                joined_maps(
                    seq![(key_a, data_a)] + self.a.rest(),
                    seq![(key_b, data_b)] + self.b.rest(),
                ) == old(self).rest(),
            decreases self.a.rest().len() + self.b.rest().len(),
        {
            let ghost left = seq![(key_a, data_a)] + self.a.rest();
            let ghost right = seq![(key_b, data_b)] + self.b.rest();
            proof {
                assert(left.drop_first() =~= self.a.rest());
                assert(right.drop_first() =~= self.b.rest());
                lemma_lt_trichotomy(key_a, key_b);
            }
            match compare(&key_a, &key_b) {
                Side::Below => {
                    match self.a.next() {
                        None => {
                            proof {
                                assert(joined_maps(left.drop_first(), right) =~= Seq::empty());
                            }
                            return None;
                        },
                        Some((key, data)) => {
                            key_a = key;
                            data_a = data;
                            proof {
                                assert(seq![(key_a, data_a)] + self.a.rest() =~= left.drop_first());
                            }
                        },
                    };
                },
                Side::Same => {
                    let data = duplicate(&data_b);
                    self.held = Some((key_b, data_b));
                    proof {
                        assert(old(self).rest().drop_first() =~= joined_maps(
                            left.drop_first(),
                            right,
                        ));
                    }
                    return Some((key_a, (data_a, data)));
                },
                Side::Above => {
                    match self.b.next() {
                        None => {
                            proof {
                                assert(joined_maps(left, right.drop_first()) =~= Seq::empty());
                            }
                            return None;
                        },
                        Some((key, data)) => {
                            key_b = key;
                            data_b = data;
                            proof {
                                assert(seq![(key_b, data_b)] + self.b.rest()
                                    =~= right.drop_first());
                            }
                        },
                    };
                },
            }
        }
    }
}

/// Joins two streams of keys, each ascending.
pub fn join_sets<K: Ord, A: Stream<Item = K>, B: Stream<Item = K>>(a: A, b: B) -> (r:
    JoinSetIterator<A, B>)
    requires
        a.wf(),
        b.wf(),
        total_order::<K>(),
    ensures
        r.wf(),
        r.rest() == joined_sets(a.rest(), b.rest()),
{
    JoinSetIterator { a: a, b: b, held: None }
}

impl<K: Ord, A: Stream<Item = K>, B: Stream<Item = K>> Stream for JoinSetIterator<A, B> {
    type Item = K;

    /// Both streams can be read, and the keys are totally ordered.
    closed spec fn wf(&self) -> bool {
        self.a.wf() && self.b.wf() && total_order::<K>()
    }

    /// The join of what the two streams still hold, a key of the right
    /// stream that is held back coming first.
    closed spec fn rest(&self) -> Seq<K> {
        joined_sets(self.a.rest(), held_then(self.held, self.b.rest()))
    }

    /// Walks on to the next key that both streams hold. The key of the
    /// right stream is held back for the key that follows on the left.
    fn next(&mut self) -> (r: Option<K>) {
        let mut key_a = match self.a.next() {
            None => {
                return None;
            },
            Some(key) => key,
        };
        let mut key_b = match self.held.take() {
            Some(key) => key,
            None => match self.b.next() {
                None => {
                    return None;
                },
                Some(key) => key,
            },
        };
        proof {
            assert(seq![key_a] + self.a.rest() =~= old(self).a.rest());
            assert(seq![key_b] + self.b.rest() =~= held_then(old(self).held, old(self).b.rest()));
        }
        loop
            invariant
                self.a.wf(),
                self.b.wf(),
                self.held is None,
                total_order::<K>(),
                joined_sets(seq![key_a] + self.a.rest(), seq![key_b] + self.b.rest())
                    == old(self).rest(),
            decreases self.a.rest().len() + self.b.rest().len(),
        {
            let ghost left = seq![key_a] + self.a.rest();
            let ghost right = seq![key_b] + self.b.rest();
            proof {
                assert(left.drop_first() =~= self.a.rest());
                assert(right.drop_first() =~= self.b.rest());
                lemma_lt_trichotomy(key_a, key_b);
            }
            match compare(&key_a, &key_b) {
                Side::Below => {
                    match self.a.next() {
                        None => {
                            proof {
                                assert(joined_sets(left.drop_first(), right) =~= Seq::empty());
                            }
                            return None;
                        },
                        Some(key) => {
                            key_a = key;
                            proof {
                                assert(seq![key_a] + self.a.rest() =~= left.drop_first());
                            }
                        },
                    };
                },
                Side::Same => {
                    self.held = Some(key_b);
                    proof {
                        assert(old(self).rest().drop_first() =~= joined_sets(
                            left.drop_first(),
                            right,
                        ));
                    }
                    return Some(key_a);
                },
                Side::Above => {
                    match self.b.next() {
                        None => {
                            proof {
                                assert(joined_sets(left, right.drop_first()) =~= Seq::empty());
                            }
                            return None;
                        },
                        Some(key) => {
                            key_b = key;
                            proof {
                                assert(seq![key_b] + self.b.rest() =~= right.drop_first());
                            }
                        },
                    };
                },
            }
        }
    }
}

/// Joins a stream of keys with a stream of entries, each ascending by key.
pub fn join_set_to_map<K: Ord, D: Clone, S: Stream<Item = K>, M: Stream<Item = (K, D)>>(
    set: S,
    map: M,
) -> (r: JoinMapSetIterator<S, M>)
    requires
        set.wf(),
        map.wf(),
        total_order::<K>(),
        exact_clone::<D>(),
    ensures
        r.wf(),
        r.rest() == joined_set_map(set.rest(), map.rest()),
{
    JoinMapSetIterator { set: set, map: map, held: None }
}

impl<K, D, S, M> Stream for JoinMapSetIterator<S, M> where
    K: Ord,
    D: Clone,
    S: Stream<Item = K>,
    M: Stream<Item = (K, D)>,
{
    type Item = (K, D);

    /// Both streams can be read, the keys are totally ordered, and a clone
    /// of a value equals the value.
    closed spec fn wf(&self) -> bool {
        self.set.wf() && self.map.wf() && total_order::<K>() && exact_clone::<D>()
    }

    /// The join of what the two streams still hold, an entry that is held
    /// back coming first.
    closed spec fn rest(&self) -> Seq<(K, D)> {
        joined_set_map(self.set.rest(), held_then(self.held, self.map.rest()))
    }

    /// Walks on to the next key that both streams hold. The entry is held
    /// back for the key that follows.
    fn next(&mut self) -> (r: Option<(K, D)>) {
        let mut key_set = match self.set.next() {
            None => {
                return None;
            },
            Some(key) => key,
        };
        let (mut key_map, mut data) = match self.held.take() {
            Some((key, d)) => (key, d),
            None => match self.map.next() {
                None => {
                    return None;
                },
                Some((key, d)) => (key, d),
            },
        };
        proof {
            assert(seq![key_set] + self.set.rest() =~= old(self).set.rest());
            assert(seq![(key_map, data)] + self.map.rest() =~= held_then(
                old(self).held,
                old(self).map.rest(),
            ));
        }
        loop
            invariant
                self.set.wf(),
                self.map.wf(),
                self.held is None,
                total_order::<K>(),
                exact_clone::<D>(),
                joined_set_map(
                    seq![key_set] + self.set.rest(),
                    seq![(key_map, data)] + self.map.rest(),
                ) == old(self).rest(),
            decreases self.set.rest().len() + self.map.rest().len(),
        {
            let ghost left = seq![key_set] + self.set.rest();
            let ghost right = seq![(key_map, data)] + self.map.rest();
            proof {
                assert(left.drop_first() =~= self.set.rest());
                assert(right.drop_first() =~= self.map.rest());
                lemma_lt_trichotomy(key_set, key_map);
            }
            match compare(&key_set, &key_map) {
                Side::Below => {
                    match self.set.next() {
                        None => {
                            proof {
                                assert(joined_set_map(left.drop_first(), right) =~= Seq::empty());
                            }
                            return None;
                        },
                        Some(key) => {
                            key_set = key;
                            proof {
                                assert(seq![key_set] + self.set.rest() =~= left.drop_first());
                            }
                        },
                    };
                },
                Side::Same => {
                    let found = duplicate(&data);
                    self.held = Some((key_map, data));
                    proof {
                        assert(old(self).rest().drop_first() =~= joined_set_map(
                            left.drop_first(),
                            right,
                        ));
                    }
                    return Some((key_set, found));
                },
                Side::Above => {
                    match self.map.next() {
                        None => {
                            proof {
                                assert(joined_set_map(left, right.drop_first()) =~= Seq::empty());
                            }
                            return None;
                        },
                        Some((key, d)) => {
                            key_map = key;
                            data = d;
                            proof {
                                assert(seq![(key_map, data)] + self.map.rest()
                                    =~= right.drop_first());
                            }
                        },
                    };
                },
            }
        }
    }
}

} // verus!
