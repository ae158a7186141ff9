//! Leaves: sorted runs of entries of bounded length.
use vstd::prelude::*;
use crate::order::{lt, total_order, exact_clone, lawful, compare, duplicate, Side,
    lemma_lt_transitive, lemma_lt_trichotomy};
use crate::sorted::{ascending, rank, has_key, lookup, position, lemma_rank_unique,
    lemma_at, lemma_insert, lemma_update, lemma_remove,
    lemma_ascending_parts};

verus! {

/// The most entries that a leaf holds.
pub const LEAF_SIZE: usize = 31;

/// The most children that an internal node has.
pub const INTERNAL_SIZE: usize = 42;

/// What an insertion into a node came to.
pub enum InsertAction<K, V> {
    /// The entry is in the node; the flag says whether its key was there before.
    InsertDone(bool),
    /// The node is full and unchanged; the entry is handed back.
    Split(K, V),
    /// The entry is in the node as its new largest, under the key given.
    InsertUpdateLeft(K),
}

/// What an insertion of `key` and `value` that came to `r` has made of the
/// entries `before`.
pub open spec fn inserted<K: Ord, V>(
    before: Seq<(K, V)>,
    after: Seq<(K, V)>,
    key: K,
    value: V,
    r: InsertAction<K, V>,
) -> bool {
    let p = rank(before, key);
    match r {
        InsertAction::Split(k, v) => k == key && v == value && after == before,
        InsertAction::InsertDone(true) => has_key(before, key) && after == before.update(
            p,
            (key, value),
        ),
        InsertAction::InsertDone(false) => !has_key(before, key) && p < before.len() && after
            == before.insert(p, (key, value)),
        InsertAction::InsertUpdateLeft(m) => !has_key(before, key) && p == before.len() && m == key
            && after == before.insert(p, (key, value)),
    }
}

/// What a removal of `key` that gave `repair` and `value` has made of the
/// entries `before`: the entry is gone and `value` is what it held; `repair`
/// is the new largest key where the largest was taken out and another is left.
pub open spec fn removed<K: Ord, V>(
    before: Seq<(K, V)>,
    after: Seq<(K, V)>,
    key: K,
    repair: Option<K>,
    value: Option<V>,
) -> bool {
    let p = rank(before, key);
    if has_key(before, key) {
        &&& 0 <= p < before.len()
        &&& before[p].0 == key
        &&& value == Some(before[p].1)
        &&& after == before.remove(p)
        &&& repair == if p == before.len() - 1 && p > 0 {
            Some(before[p - 1].0)
        } else {
            None
        }
    } else {
        value is None && repair is None && after == before
    }
}

/// The entries that keys and the values beside them make up.
pub open spec fn zip<K, V>(keys: Seq<K>, values: Seq<V>) -> Seq<(K, V)> {
    Seq::new(keys.len(), |i: int| (keys[i], values[i]))
}

/// A leaf: up to `LEAF_SIZE` entries in ascending key order.
pub struct NodeLeaf<K, V> {
    pub(crate) keys: Vec<K>,
    pub(crate) values: Vec<V>,
}

/// A cursor over the entries of a leaf.
pub struct LeafIterator<'a, K, V> {
    pub(crate) idx: usize,
    pub(crate) leaf: &'a NodeLeaf<K, V>,
}

impl<K: Ord + Clone, V: Clone> NodeLeaf<K, V> {
    /// The number of entries.
    pub open(crate) spec fn used(&self) -> nat {
        self.keys@.len()
    }

    /// The entries, in the order in which they are stored.
    pub open(crate) spec fn entries(&self) -> Seq<(K, V)> {
        zip(self.keys@, self.values@)
    }

    /// The two leaves hold the same keys and values.
    pub open(crate) spec fn same_as(&self, other: &NodeLeaf<K, V>) -> bool {
        self.keys@ == other.keys@ && self.values@ == other.values@
    }

    /// Leaves that hold the same are alike in all that is said of them.
    pub(crate) proof fn lemma_same(&self, other: &NodeLeaf<K, V>)
        requires
            self.same_as(other),
        ensures
            self.entries() == other.entries(),
            self.used() == other.used(),
            self.wf() == other.wf(),
    {
        assert(self.entries() =~= other.entries());
    }

    /// Keys and values go in pairs, fit the capacity, and the keys ascend.
    pub open(crate) spec fn wf(&self) -> bool {
        &&& self.keys@.len() == self.values@.len()
        &&& self.keys@.len() <= LEAF_SIZE
        &&& ascending(self.entries())
    }

    /// A leaf without entries.
    pub fn new() -> (r: NodeLeaf<K, V>)
        ensures
            r.wf(),
            r.entries() == Seq::<(K, V)>::empty(),
    {
        let r = NodeLeaf {
            keys: Vec::with_capacity(LEAF_SIZE),
            values: Vec::with_capacity(LEAF_SIZE),
        };
        assert(r.entries() =~= Seq::<(K, V)>::empty());
        r
    }

    /// Binary search: whether `key` is in the leaf, and the index at which it
    /// stands or belongs.
    pub fn search_key(&self, key: &K) -> (r: (bool, usize))
        requires
            self.wf(),
            total_order::<K>(),
        ensures
            r.0 == has_key(self.entries(), *key),
            r.1 == rank(self.entries(), *key),
            r.1 <= self.used(),
            r.0 ==> r.1 < self.used() && self.entries()[r.1 as int].0 == *key,
    {
        let mut start: usize = 0;
        let mut end: usize = self.keys.len();
        let ghost s = self.entries();
        while end > start
            invariant
                self.wf(),
                total_order::<K>(),
                s == self.entries(),
                start <= end <= self.keys@.len(),
                forall|i: int| 0 <= i < start ==> lt((#[trigger] s[i]).0, *key),
                forall|i: int| end <= i < s.len() ==> lt(*key, (#[trigger] s[i]).0),
            decreases end - start,
        {
            let mid: usize = start + (end - start) / 2;
            match compare(key, &self.keys[mid]) {
                Side::Below => {
                    proof {
                        assert forall|i: int| mid <= i < s.len() implies lt(
                            *key,
                            (#[trigger] s[i]).0,
                        ) by {
                            if mid < i {
                                assert(lt(s[mid as int].0, s[i].0));
                                lemma_lt_transitive(*key, s[mid as int].0, s[i].0);
                            }
                        }
                    }
                    end = mid;
                },
                Side::Same => {
                    proof {
                        lemma_at(s, mid as int);
                    }
                    return (true, mid);
                },
                Side::Above => {
                    proof {
                        assert forall|i: int| 0 <= i < mid + 1 implies lt(
                            (#[trigger] s[i]).0,
                            *key,
                        ) by {
                            if i < mid {
                                assert(lt(s[i].0, s[mid as int].0));
                                lemma_lt_transitive(s[i].0, s[mid as int].0, *key);
                            }
                        }
                    }
                    start = mid + 1;
                },
            }
        }
        proof {
            assert forall|i: int| start <= i < s.len() implies !lt((#[trigger] s[i]).0, *key) by {
                lemma_lt_trichotomy(s[i].0, *key);
            }
            lemma_rank_unique(s, *key, start as int);
            if has_key(s, *key) {
                let p = position(s, *key);
                lemma_lt_trichotomy(s[p].0, *key);
            }
        }
        (false, start)
    }

    /// The index of `key`, if the leaf has it.
    pub fn search(&self, key: &K) -> (r: Option<usize>)
        requires
            self.wf(),
            total_order::<K>(),
        ensures
            r is Some <==> has_key(self.entries(), *key),
            r matches Some(i) ==> i == rank(self.entries(), *key) && i < self.used()
                && self.entries()[i as int].0 == *key,
    {
        match self.search_key(key) {
            (true, idx) => Some(idx),
            (false, _) => None,
        }
    }

    /// Puts the entry in, unless the leaf is full.
    pub fn insert(&mut self, key: K, value: V) -> (r: InsertAction<K, V>)
        requires
            old(self).wf(),
            total_order::<K>(),
            exact_clone::<K>(),
        ensures
            final(self).wf(),
            r is Split <==> old(self).used() == LEAF_SIZE,
            inserted(old(self).entries(), final(self).entries(), key, value, r),
            final(self).used() >= old(self).used(),
            match r {
                InsertAction::Split(k, v) => k == key && v == value && *final(self) == *old(self),
                InsertAction::InsertDone(true) => {
                    &&& has_key(old(self).entries(), key)
                    &&& final(self).entries() == old(self).entries().update(
                        rank(old(self).entries(), key),
                        (key, value),
                    )
                },
                InsertAction::InsertDone(false) => {
                    &&& !has_key(old(self).entries(), key)
                    &&& rank(old(self).entries(), key) < old(self).used()
                    &&& final(self).entries() == old(self).entries().insert(
                        rank(old(self).entries(), key),
                        (key, value),
                    )
                },
                InsertAction::InsertUpdateLeft(m) => {
                    &&& !has_key(old(self).entries(), key)
                    &&& rank(old(self).entries(), key) == old(self).used()
                    &&& m == key
                    &&& final(self).entries() == old(self).entries().push((key, value))
                },
            },
    {
        if self.keys.len() == LEAF_SIZE {
            InsertAction::Split(key, value)
        } else {
            let (found, insert) = self.search_key(&key);
            let ghost s = self.entries();
            if found {
                proof {
                    lemma_update(s, key, value);
                }
                self.values[insert] = value;
                assert(self.entries() =~= s.update(insert as int, (key, value)));
                InsertAction::InsertDone(true)
            } else {
                proof {
                    lemma_insert(s, key, value);
                }
                if insert == self.keys.len() {
                    // the new entry becomes the largest
                    let largest = duplicate(&key);
                    self.keys.push(key);
                    self.values.push(value);
                    assert(self.entries() =~= s.push((key, value)));
                    assert(s.push((key, value)) =~= s.insert(insert as int, (key, value)));
                    InsertAction::InsertUpdateLeft(largest)
                } else {
                    self.keys.insert(insert, key);
                    self.values.insert(insert, value);
                    assert(self.entries() =~= s.insert(insert as int, (key, value)));
                    InsertAction::InsertDone(false)
                }
            }
        }
    }

    /// Takes the entry of `key` out. Gives the leaf's new largest key if the
    /// entry taken out was its largest and another is left, the value taken
    /// out, and whether the leaf is now less than half full.
    pub fn pop(&mut self, key: &K) -> (r: (Option<K>, Option<V>, bool))
        requires
            old(self).wf(),
            total_order::<K>(),
            exact_clone::<K>(),
        ensures
            final(self).wf(),
            removed(old(self).entries(), final(self).entries(), *key, r.0, r.1),
            final(self).used() + if r.1 is Some { 1nat } else { 0nat } == old(self).used(),
            r.1 is Some <==> has_key(old(self).entries(), *key),
            r.1 is None ==> *final(self) == *old(self) && r.0 is None && !r.2,
            r.1 matches Some(v) ==> {
                let p = rank(old(self).entries(), *key);
                &&& 0 <= p < old(self).used()
                &&& old(self).entries()[p] == (*key, v)
                &&& final(self).entries() == old(self).entries().remove(p)
                &&& r.0 == if p == old(self).used() - 1 && p > 0 {
                    Some(old(self).entries()[p - 1].0)
                } else {
                    None
                }
                &&& r.2 == (final(self).used() < LEAF_SIZE / 2)
            },
    {
        let idx = match self.search(key) {
            Some(idx) => idx,
            None => {
                return (None, None, false);
            },
        };
        let ghost s = self.entries();
        proof {
            lemma_remove(s, idx as int);
        }
        let _ = self.keys.remove(idx);
        let value = self.values.remove(idx);
        assert(self.entries() =~= s.remove(idx as int));
        let used = self.keys.len();
        let repair = if idx == used && used != 0 {
            Some(duplicate(&self.keys[used - 1]))
        } else {
            None
        };
        (repair, Some(value), used < LEAF_SIZE / 2)
    }

    /// The value under `key`.
    pub fn find(&self, key: &K) -> (r: Option<&V>)
        requires
            self.wf(),
            total_order::<K>(),
        ensures
            match r {
                Some(v) => lookup(self.entries(), *key) == Some(*v),
                None => lookup(self.entries(), *key) is None,
            },
    {
        match self.search(key) {
            Some(idx) => {
                proof {
                    lemma_at(self.entries(), idx as int);
                }
                Some(&self.values[idx])
            },
            None => None,
        }
    }

    /// Write access to the value under `key`.
    pub fn find_mut(&mut self, key: &K) -> (r: Option<&mut V>)
        requires
            old(self).wf(),
            total_order::<K>(),
        ensures
            match r {
                Some(v) => {
                    let p = rank(old(self).entries(), *key);
                    &&& has_key(old(self).entries(), *key)
                    &&& 0 <= p < old(self).used()
                    &&& *v == old(self).entries()[p].1
                    &&& final(self).entries() =~= old(self).entries().update(p, (*key, *final(v)))
                },
                None => !has_key(old(self).entries(), *key) && final(self).entries() == old(
                    self,
                ).entries(),
            },
            final(self).used() == old(self).used(),
            final(self).wf(),
    {
        let ghost s = self.entries();
        match self.search(key) {
            Some(idx) => {
                proof {
                    assert forall|x: V|
                        ascending(zip(self.keys@, #[trigger] self.values@.update(idx as int, x)))
                        && zip(self.keys@, self.values@.update(idx as int, x)) == s.update(
                            idx as int,
                            (*key, x),
                        ) by {
                        lemma_update(s, *key, x);
                        assert(zip(self.keys@, self.values@.update(idx as int, x)) =~= s.update(
                            idx as int,
                            (*key, x),
                        ));
                    }
                }
                Some(&mut self.values[idx])
            },
            None => None,
        }
    }

    /// Moves the upper half of a full leaf into a new leaf, and gives that
    /// leaf with the largest key that stays behind.
    pub fn split(&mut self) -> (r: (NodeLeaf<K, V>, K))
        requires
            old(self).wf(),
            old(self).used() == LEAF_SIZE,
            exact_clone::<K>(),
        ensures
            final(self).wf(),
            r.0.wf(),
            final(self).entries() + r.0.entries() == old(self).entries(),
            final(self).used() == LEAF_SIZE / 2,
            r.0.used() == LEAF_SIZE - LEAF_SIZE / 2,
            r.1 == final(self).entries().last().0,
    {
        let ghost s = self.entries();
        let keys = self.keys.split_off(LEAF_SIZE / 2);
        let values = self.values.split_off(LEAF_SIZE / 2);
        let right = NodeLeaf { keys, values };
        proof {
            assert(self.entries() + right.entries() =~= s);
            lemma_ascending_parts(self.entries(), right.entries());
        }
        let key = duplicate(&self.keys[LEAF_SIZE / 2 - 1]);
        (right, key)
    }

    /// The number of entries.
    pub fn len(&self) -> (r: usize)
        ensures
            r == self.used(),
    {
        self.keys.len()
    }

    /// Moves the first entry of `src`, the leaf to the right, to the end of
    /// this leaf, if `src` is more than half full.
    pub fn rotate_left(&mut self, src: &mut NodeLeaf<K, V>) -> (r: bool)
        requires
            old(self).wf(),
            old(src).wf(),
            old(self).used() < LEAF_SIZE,
            ascending(old(self).entries() + old(src).entries()),
        ensures
            final(self).wf(),
            final(src).wf(),
            r == (old(src).used() > LEAF_SIZE / 2),
            !r ==> *final(self) == *old(self) && *final(src) == *old(src),
            r ==> final(self).entries() == old(self).entries().push(old(src).entries()[0])
                && final(src).entries() == old(src).entries().remove(0),
    {
        if src.keys.len() > LEAF_SIZE / 2 {
            let ghost a = self.entries();
            let ghost b = src.entries();
            let k = src.keys.remove(0);
            let v = src.values.remove(0);
            self.keys.push(k);
            self.values.push(v);
            proof {
                assert(self.entries() =~= a.push(b[0]));
                assert(src.entries() =~= b.remove(0));
                assert(self.entries() + src.entries() =~= a + b);
                lemma_ascending_parts(self.entries(), src.entries());
            }
            true
        } else {
            false
        }
    }

    /// Moves the last entry of `src`, the leaf to the left, to the front of
    /// this leaf, if `src` is more than half full.
    pub fn rotate_right(&mut self, src: &mut NodeLeaf<K, V>) -> (r: bool)
        requires
            old(self).wf(),
            old(src).wf(),
            old(self).used() < LEAF_SIZE,
            ascending(old(src).entries() + old(self).entries()),
        ensures
            final(self).wf(),
            final(src).wf(),
            r == (old(src).used() > LEAF_SIZE / 2),
            !r ==> *final(self) == *old(self) && *final(src) == *old(src),
            r ==> final(self).entries() == old(self).entries().insert(0, old(src).entries().last())
                && final(src).entries() == old(src).entries().drop_last(),
    {
        if src.keys.len() > LEAF_SIZE / 2 {
            let ghost a = src.entries();
            let ghost b = self.entries();
            let last = src.keys.len() - 1;
            let k = src.keys.remove(last);
            let v = src.values.remove(last);
            self.keys.insert(0, k);
            self.values.insert(0, v);
            proof {
                assert(self.entries() =~= b.insert(0, a.last()));
                assert(src.entries() =~= a.drop_last());
                assert(src.entries() + self.entries() =~= a + b);
                lemma_ascending_parts(src.entries(), self.entries());
            }
            true
        } else {
            false
        }
    }

    /// Appends the entries of `src`, the leaf to the right, which is left empty.
    pub fn merge(&mut self, src: &mut NodeLeaf<K, V>)
        requires
            old(self).wf(),
            old(src).wf(),
            old(self).used() + old(src).used() <= LEAF_SIZE,
            ascending(old(self).entries() + old(src).entries()),
        ensures
            final(self).wf(),
            final(self).entries() == old(self).entries() + old(src).entries(),
    {
        let ghost a = self.entries();
        let ghost b = src.entries();
        self.keys.append(&mut src.keys);
        self.values.append(&mut src.values);
        assert(self.entries() =~= a + b);
    }

    /// The largest key.
    pub fn max_key(&self) -> (r: K)
        requires
            self.wf(),
            self.used() > 0,
            exact_clone::<K>(),
        ensures
            r == self.entries().last().0,
    {
        duplicate(&self.keys[self.keys.len() - 1])
    }

    /// A cursor at the first entry.
    pub fn iter<'a>(&'a self) -> (r: LeafIterator<'a, K, V>)
        ensures
            r.source() == *self,
            self.wf() ==> r.wf() && r.remaining() == self.entries(),
    {
        assert(self.entries().subrange(0, self.used() as int) =~= self.entries());
        LeafIterator { idx: 0, leaf: self }
    }
}

impl<K: Ord + Clone, V: Clone> Clone for NodeLeaf<K, V> {
    /// A leaf with clones of the entries.
    fn clone(&self) -> (r: NodeLeaf<K, V>)
        ensures
            lawful::<K, V>() ==> r.same_as(self),
    {
        let mut keys: Vec<K> = Vec::with_capacity(LEAF_SIZE);
        let mut values: Vec<V> = Vec::with_capacity(LEAF_SIZE);
        let mut i: usize = 0;
        while i < self.keys.len()
            invariant
                i <= self.keys@.len(),
                keys@.len() == i,
                lawful::<K, V>() ==> keys@ == self.keys@.subrange(0, i as int),
            decreases self.keys@.len() - i,
        {
            let k = self.keys[i].clone();
            proof {
                assert(cloned(self.keys@[i as int], k));
                if lawful::<K, V>() {
                    assert(keys@.push(k) =~= self.keys@.subrange(0, i + 1));
                }
            }
            keys.push(k);
            i = i + 1;
        }
        let mut j: usize = 0;
        while j < self.values.len()
            invariant
                j <= self.values@.len(),
                values@.len() == j,
                lawful::<K, V>() ==> values@ == self.values@.subrange(0, j as int),
            decreases self.values@.len() - j,
        {
            let v = self.values[j].clone();
            proof {
                assert(cloned(self.values@[j as int], v));
                if lawful::<K, V>() {
                    assert(values@.push(v) =~= self.values@.subrange(0, j + 1));
                }
            }
            values.push(v);
            j = j + 1;
        }
        proof {
            if lawful::<K, V>() {
                assert(keys@ =~= self.keys@);
                assert(values@ =~= self.values@);
            }
        }
        NodeLeaf { keys, values }
    }
}

impl<'a, K: Ord + Clone, V: Clone> LeafIterator<'a, K, V> {
    /// The leaf that the cursor walks.
    pub open(crate) spec fn source(&self) -> NodeLeaf<K, V> {
        *self.leaf
    }

    /// The cursor stands inside a well-formed leaf.
    pub open(crate) spec fn wf(&self) -> bool {
        self.leaf.wf() && self.idx <= self.leaf.used()
    }

    /// The entries still to come.
    pub open(crate) spec fn remaining(&self) -> Seq<(K, V)> {
        self.leaf.entries().subrange(self.idx as int, self.leaf.used() as int)
    }

    /// The next entry, if any is left.
    pub fn next(&mut self) -> (r: Option<(&'a K, &'a V)>)
        requires
            old(self).wf(),
        ensures
            final(self).wf(),
            final(self).source() == old(self).source(),
            match r {
                Some((k, v)) => old(self).remaining().len() > 0 && (*k, *v) == old(
                    self,
                ).remaining()[0] && final(self).remaining() == old(self).remaining().drop_first(),
                None => old(self).remaining().len() == 0 && *final(self) == *old(self),
            },
    {
        if self.idx < self.leaf.keys.len() {
            let idx = self.idx;
            self.idx = self.idx + 1;
            assert(self.remaining() =~= old(self).remaining().drop_first());
            Some((&self.leaf.keys[idx], &self.leaf.values[idx]))
        } else {
            None
        }
    }
}

} // verus!
