//! The map, the set on top of it, and the walks over both.
use vstd::prelude::*;
use crate::CowArc;
use crate::order::{lt, lawful, lawful_key, total_order, lemma_lawful_unit};
use crate::sorted::{ascending, ascending_keys, as_map, has_key, lookup, position, rank,
    lemma_as_map,
    lemma_insert, lemma_update, lemma_remove, lemma_present, lemma_at};
use crate::leaf::{LeafIterator, InsertAction};
use crate::node::{Node, NodeInternal, NodeIterator, NodeIteratorRes};

verus! {

/// An ordered map from `K` to `V`. A clone of it is a snapshot: it shares
/// all nodes with the map it was taken of, and neither sees what is written
/// to the other afterwards.
pub struct BTreeMap<K, V> {
    pub(crate) root: Node<K, V>,
}

/// A walk over the entries of a map, in ascending key order.
pub struct BTreeMapIterator<'a, K, V> {
    pub(crate) stack: Vec<NodeIterator<'a, K, V>>,
    pub(crate) leaf: Option<LeafIterator<'a, K, V>>,
    pub(crate) current: usize,
    pub(crate) end: usize,
}

impl<K: Ord + Clone, V: Clone> View for BTreeMap<K, V> {
    type V = Map<K, V>;

    /// The map as a mathematical map.
    closed spec fn view(&self) -> Map<K, V> {
        as_map(self.root.entries())
    }
}

impl<K: Ord + Clone, V: Clone> BTreeMap<K, V> {
    /// The entries in the order in which a walk gives them.
    pub closed spec fn entries(&self) -> Seq<(K, V)> {
        self.root.entries()
    }

    /// The tree is well-formed: every node is, the root is not a leaf
    /// without entries, and a root that is an internal node has two
    /// children or more.
    pub closed spec fn wf(&self) -> bool {
        &&& self.root.wf()
        &&& self.root is Internal ==> self.root.fill() >= 2
        &&& self.root is Leaf ==> self.root.fill() >= 1
    }

    /// The tree holds nothing: its root is the empty link.
    pub closed spec fn vacant(&self) -> bool {
        self.root is Empty
    }

    /// The number of internal nodes between the root and every leaf.
    pub closed spec fn height(&self) -> nat {
        self.root.height()
    }

    /// All leaves lie at one depth, and every node but the root is at least
    /// half full.
    pub closed spec fn balanced(&self) -> bool {
        self.root.leaves_at(self.height()) && self.root.filled_below()
    }

    /// In every internal node, each separator is the largest key under the
    /// child to its left, and below the smallest key under the child to its
    /// right.
    pub closed spec fn separated(&self) -> bool {
        self.root.separated()
    }

    /// A key has a value in the map exactly if a walk gives the key with
    /// that value.
    pub proof fn lemma_find_is_walk(&self, key: K, value: V)
        requires
            self.wf(),
            lawful::<K, V>(),
        ensures
            (self@.contains_key(key) && self@[key] == value) <==> self.entries().contains(
                (key, value),
            ),
    {
        let e = self.root.entries();
        self.root.lemma_ascending();
        if e.contains((key, value)) {
            let i = choose|i: int| 0 <= i < e.len() && e[i] == (key, value);
            lemma_at(e, i);
        }
        if self@.contains_key(key) && self@[key] == value {
            let p = position(e, key);
            lemma_at(e, p);
            assert(e[p] == (key, value));
        }
    }

    /// A walk gives the keys in strictly ascending order.
    pub proof fn lemma_walk_ascends(&self)
        requires
            self.wf(),
        ensures
            ascending(self.entries()),
    {
        self.root.lemma_ascending();
    }

    /// The map has as many keys as a walk gives entries.
    pub proof fn lemma_length_is_walk(&self)
        requires
            self.wf(),
            lawful::<K, V>(),
        ensures
            self@.dom().finite(),
            self@.len() == self.entries().len(),
    {
        self.root.lemma_ascending();
        lemma_as_map(self.root.entries());
    }

    /// A well-formed tree is balanced.
    pub proof fn lemma_balanced(&self)
        requires
            self.wf(),
            lawful::<K, V>(),
        ensures
            self.balanced(),
    {
        self.root.lemma_structure();
    }

    /// A well-formed tree keeps the separator discipline.
    pub proof fn lemma_separated(&self)
        requires
            self.wf(),
            lawful::<K, V>(),
        ensures
            self.separated(),
    {
        self.root.lemma_structure();
    }

    /// A well-formed tree whose map is empty is the empty tree.
    pub proof fn lemma_empty(&self)
        requires
            self.wf(),
            lawful::<K, V>(),
            self@ == Map::<K, V>::empty(),
        ensures
            self.vacant(),
            self.entries() == Seq::<(K, V)>::empty(),
    {
        let e = self.root.entries();
        self.root.lemma_ascending();
        self.root.lemma_entries_ge_fill();
        if e.len() > 0 {
            lemma_at(e, 0);
            assert(self@.contains_key(e[0].0));
        }
        assert(e =~= Seq::<(K, V)>::empty());
    }

    /// An empty map.
    pub fn new() -> (r: BTreeMap<K, V>)
        ensures
            r.wf(),
            r@ == Map::<K, V>::empty(),
            r.entries() == Seq::<(K, V)>::empty(),
    {
        let r = BTreeMap { root: Node::Empty };
        assert(r@ =~= Map::<K, V>::empty());
        r
    }

    /// The number of entries.
    pub fn len(&self) -> (r: usize)
        requires
            self.wf(),
            lawful::<K, V>(),
        ensures
            r == self.entries().len(),
            r == self@.len(),
    {
        proof {
            lemma_as_map(self.root.entries());
        }
        self.root.len()
    }

    /// The value under `key`.
    pub fn find(&self, key: &K) -> (r: Option<&V>)
        requires
            self.wf(),
            lawful::<K, V>(),
        ensures
            r == if self@.contains_key(*key) {
                Some(&self@[*key])
            } else {
                None
            },
    {
        let mut target = &self.root;
        proof {
            lemma_as_map(self.root.entries());
        }
        loop
            invariant
                target.wf(),
                total_order::<K>(),
                lookup(target.entries(), *key) == lookup(self.root.entries(), *key),
                lookup(self.root.entries(), *key) == if self@.contains_key(*key) {
                    Some(self@[*key])
                } else {
                    None
                },
            decreases target.height(),
        {
            match target {
                Node::Internal(node) => {
                    let inner = node.get();
                    proof {
                        inner.lemma_locate(*key, -1);
                    }
                    target = &inner.children[inner.search(key)];
                },
                Node::Leaf(leaf) => {
                    return leaf.get().find(key);
                },
                Node::Empty => {
                    return None;
                },
            }
        }
    }

    /// Whether `key` has a value.
    pub fn contains_key(&self, key: &K) -> (r: bool)
        requires
            self.wf(),
            lawful::<K, V>(),
        ensures
            r == self@.contains_key(*key),
    {
        self.find(key).is_some()
    }

    /// Takes every entry out.
    pub fn clear(&mut self)
        ensures
            final(self).wf(),
            final(self)@ == Map::<K, V>::empty(),
            final(self).entries() == Seq::<(K, V)>::empty(),
    {
        self.root = Node::Empty;
        assert(self@ =~= Map::<K, V>::empty());
    }

    /// Puts `value` under `key`, in place of what was there. Says whether
    /// `key` had a value before.
    pub fn insert(&mut self, key: K, value: V) -> (r: bool)
        requires
            old(self).wf(),
            lawful::<K, V>(),
            old(self).entries().len() < usize::MAX,
        ensures
            final(self).wf(),
            final(self)@ == old(self)@.insert(key, value),
            final(self)@.contains_key(key) && final(self)@[key] == value,
            r == old(self)@.contains_key(key),
            final(self).entries().len() == old(self).entries().len() + if r {
                0nat
            } else {
                1nat
            },
            final(self).entries() == if r {
                old(self).entries().update(rank(old(self).entries(), key), (key, value))
            } else {
                old(self).entries().insert(rank(old(self).entries(), key), (key, value))
            },
            final(self).balanced(),
            final(self).separated(),
            ascending(final(self).entries()),
    {
        let ghost e = self.root.entries();
        proof {
            lemma_present(e, key);
            if has_key(e, key) {
                lemma_update(e, key, value);
            } else {
                lemma_insert(e, key, value);
            }
        }
        let was_there = match self.root.insert(key, value) {
            InsertAction::InsertDone(update) => update,
            // the largest key changes only where an entry is new
            InsertAction::InsertUpdateLeft(_) => false,
            InsertAction::Split(key, value) => {
                let (right, split_key) = self.root.split();
                let mut left = Node::Empty;
                std::mem::swap(&mut self.root, &mut left);
                self.root = Node::Internal(CowArc::new(NodeInternal::new(split_key, left, right)));
                match self.root.insert(key, value) {
                    InsertAction::InsertDone(update) => update,
                    InsertAction::InsertUpdateLeft(_) => false,
                    InsertAction::Split(_, _) => vstd::pervasive::unreached(),
                }
            },
        };
        proof {
            self.lemma_balanced();
            self.lemma_separated();
            self.lemma_walk_ascends();
        }
        was_there
    }

    /// Write access to the value under `key`. What is written is not seen
    /// through any snapshot taken before.
    pub fn find_mut(&mut self, key: &K) -> (r: Option<&mut V>)
        requires
            old(self).wf(),
            lawful::<K, V>(),
        ensures
            match r {
                Some(v) => {
                    &&& old(self)@.contains_key(*key)
                    &&& *v == old(self)@[*key]
                    &&& final(self)@ == old(self)@.insert(*key, *final(v))
                    &&& final(self).entries() == old(self).entries().update(
                        rank(old(self).entries(), *key),
                        (*key, *final(v)),
                    )
                },
                None => !old(self)@.contains_key(*key) && final(self)@ == old(self)@
                    && final(self).entries() == old(self).entries(),
            },
            final(self).wf(),
            final(self).entries().len() == old(self).entries().len(),
    {
        let ghost e = self.root.entries();
        proof {
            lemma_present(e, *key);
            lemma_as_map(e);
            if has_key(e, *key) {
                lemma_at(e, rank(e, *key));
                assert forall|x: V|
                    as_map(#[trigger] e.update(rank(e, *key), (*key, x))) == as_map(e).insert(
                        *key,
                        x,
                    ) by {
                    lemma_update(e, *key, x);
                }
            }
        }
        self.root.find_mut(key)
    }

    /// Puts `value` under `key` and gives what was there before.
    pub fn swap(&mut self, key: K, value: V) -> (r: Option<V>)
        requires
            old(self).wf(),
            lawful::<K, V>(),
            old(self).entries().len() < usize::MAX,
        ensures
            final(self).wf(),
            final(self)@ == old(self)@.insert(key, value),
            final(self)@.contains_key(key) && final(self)@[key] == value,
            r == if old(self)@.contains_key(key) {
                Some(old(self)@[key])
            } else {
                None
            },
            final(self).entries().len() == old(self).entries().len() + if r is Some {
                0nat
            } else {
                1nat
            },
            final(self).balanced(),
            final(self).separated(),
            ascending(final(self).entries()),
    {
        match self.find_mut(&key) {
            Some(v) => {
                let mut value = value;
                std::mem::swap(&mut value, v);
                proof {
                    self.lemma_balanced();
                    self.lemma_separated();
                    self.lemma_walk_ascends();
                }
                return Some(value);
            },
            None => {},
        }
        self.insert(key, value);
        None
    }

    /// Takes the entry of `key` out and gives its value.
    pub fn pop(&mut self, key: &K) -> (r: Option<V>)
        requires
            old(self).wf(),
            lawful::<K, V>(),
        ensures
            final(self).wf(),
            final(self)@ == old(self)@.remove(*key),
            !final(self)@.contains_key(*key),
            r == if old(self)@.contains_key(*key) {
                Some(old(self)@[*key])
            } else {
                None
            },
            final(self).entries().len() + if r is Some {
                1nat
            } else {
                0nat
            } == old(self).entries().len(),
            final(self).entries() == if r is Some {
                old(self).entries().remove(rank(old(self).entries(), *key))
            } else {
                old(self).entries()
            },
            final(self).balanced(),
            final(self).separated(),
            ascending(final(self).entries()),
    {
        let ghost e = self.root.entries();
        proof {
            lemma_present(e, *key);
            lemma_as_map(e);
            if has_key(e, *key) {
                lemma_remove(e, rank(e, *key));
                lemma_at(e, rank(e, *key));
            } else {
                assert(as_map(e).remove(*key) =~= as_map(e));
            }
        }
        let (_, found, under) = self.root.pop(key);
        if under {
            self.root.lift();
        }
        proof {
            self.lemma_balanced();
            self.lemma_separated();
            self.lemma_walk_ascends();
        }
        found
    }

    /// Takes the entry of `key` out. Says whether there was one.
    pub fn remove(&mut self, key: &K) -> (r: bool)
        requires
            old(self).wf(),
            lawful::<K, V>(),
        ensures
            final(self).wf(),
            final(self)@ == old(self)@.remove(*key),
            !final(self)@.contains_key(*key),
            r == old(self)@.contains_key(*key),
            final(self).entries().len() + if r {
                1nat
            } else {
                0nat
            } == old(self).entries().len(),
            final(self).balanced(),
            final(self).separated(),
            ascending(final(self).entries()),
    {
        self.pop(key).is_some()
    }

    /// A walk over the entries, in ascending key order.
    pub fn iter<'a>(&'a self) -> (r: BTreeMapIterator<'a, K, V>)
        requires
            self.wf(),
        ensures
            r.wf(),
            r.remaining() == self.entries(),
    {
        let end = self.root.len();
        match &self.root {
            Node::Leaf(leaf) => {
                let it = BTreeMapIterator {
                    leaf: Some(leaf.get().iter()),
                    stack: Vec::new(),
                    current: 0,
                    end,
                };
                proof {
                    assert(stack_remaining(it.stack@) =~= Seq::<(K, V)>::empty());
                    assert(it.remaining() =~= self.entries());
                }
                it
            },
            Node::Internal(node) => {
                let mut stack = Vec::new();
                let top = node.get().iter();
                stack.push(top);
                let it = BTreeMapIterator { leaf: None, stack, current: 0, end };
                proof {
                    let q = top.node.parts();
                    assert(q.subrange(0, q.len() as int) =~= q);
                    assert(it.stack@.drop_last() =~= Seq::<NodeIterator<'a, K, V>>::empty());
                    assert(stack_remaining(it.stack@.drop_last()) =~= Seq::<(K, V)>::empty());
                    assert(it.stack@.last() == top);
                    assert(stack_remaining(it.stack@) =~= top.remaining());
                    assert(it.remaining() =~= self.entries());
                }
                it
            },
            Node::Empty => {
                let it = BTreeMapIterator { leaf: None, stack: Vec::new(), current: 0, end };
                proof {
                    assert(it.remaining() =~= self.entries());
                }
                it
            },
        }
    }
}

impl<K: Ord + Clone, V: Clone> Clone for BTreeMap<K, V> {
    /// A snapshot of the map. It takes one step, whatever the map holds.
    fn clone(&self) -> (r: BTreeMap<K, V>)
        ensures
            r@ == self@,
            r.entries() == self.entries(),
            r.wf() == self.wf(),
    {
        BTreeMap { root: self.root.clone() }
    }
}

impl<K: Ord + Clone, V: Clone> Default for BTreeMap<K, V> {
    /// An empty map.
    fn default() -> (r: BTreeMap<K, V>)
        ensures
            r.wf(),
            r@ == Map::<K, V>::empty(),
    {
        BTreeMap::new()
    }
}

/// The map that comes of putting the entries of `s` into `m`, one after the
/// other.
pub open spec fn insert_all<K, V>(m: Map<K, V>, s: Seq<(K, V)>) -> Map<K, V>
    decreases s.len(),
{
    if s.len() == 0 {
        m
    } else {
        insert_all(m, s.drop_last()).insert(s.last().0, s.last().1)
    }
}

/// The map that comes of taking the keys of `ks` out of `m`, one after the
/// other.
pub open spec fn remove_all<K, V>(m: Map<K, V>, ks: Seq<K>) -> Map<K, V>
    decreases ks.len(),
{
    if ks.len() == 0 {
        m
    } else {
        remove_all(m, ks.drop_last()).remove(ks.last())
    }
}

/// Only keys of `s` get into the map.
proof fn lemma_insert_all_dom<K, V>(s: Seq<(K, V)>, k: K)
    ensures
        insert_all(Map::<K, V>::empty(), s).contains_key(k) ==> keys_of(s).contains(k),
    decreases s.len(),
{
    if s.len() > 0 {
        lemma_insert_all_dom(s.drop_last(), k);
        let t = s.drop_last();
        if k == s.last().0 {
            assert(keys_of(s)[s.len() - 1] == k);
        } else if insert_all(Map::<K, V>::empty(), t).contains_key(k) {
            let i = choose|i: int| 0 <= i < keys_of(t).len() && keys_of(t)[i] == k;
            assert(keys_of(s)[i] == k);
        }
    }
}

/// The keys that are left are those of `m` that are not among `ks`.
proof fn lemma_remove_all_dom<K, V>(m: Map<K, V>, ks: Seq<K>, k: K)
    ensures
        remove_all(m, ks).contains_key(k) <==> m.contains_key(k) && !ks.contains(k),
    decreases ks.len(),
{
    if ks.len() > 0 {
        let t = ks.drop_last();
        lemma_remove_all_dom(m, t, k);
        if ks.contains(k) {
            let i = choose|i: int| 0 <= i < ks.len() && ks[i] == k;
            if i < ks.len() - 1 {
                assert(t[i] == k);
            }
        }
        if t.contains(k) {
            let i = choose|i: int| 0 <= i < t.len() && t[i] == k;
            assert(ks[i] == k);
        }
        if k == ks.last() {
            assert(ks[ks.len() - 1] == k);
        }
    }
}

/// Putting entries into an empty map and then taking out the same keys,
/// each as often and in any order, leaves the empty map.
pub proof fn lemma_round_trip<K, V>(ins: Seq<(K, V)>, del: Seq<K>)
    requires
        keys_of(ins).to_multiset() == del.to_multiset(),
    ensures
        remove_all(insert_all(Map::<K, V>::empty(), ins), del) == Map::<K, V>::empty(),
{
    let full = insert_all(Map::<K, V>::empty(), ins);
    let rest = remove_all(full, del);
    assert forall|k: K| !rest.contains_key(k) by {
        lemma_remove_all_dom(full, del, k);
        lemma_insert_all_dom(ins, k);
        keys_of(ins).to_multiset_ensures();
        del.to_multiset_ensures();
        if full.contains_key(k) {
            assert(keys_of(ins).contains(k));
            assert(keys_of(ins).to_multiset().count(k) > 0);
            assert(del.to_multiset().count(k) > 0);
            assert(del.contains(k));
        }
    }
    assert(rest =~= Map::<K, V>::empty());
}

/// The entries that the cursors of a walk have before them, the innermost
/// cursor being the last.
pub(crate) open spec fn stack_remaining<'a, K: Ord + Clone, V: Clone>(
    s: Seq<NodeIterator<'a, K, V>>,
) -> Seq<(K, V)>
    decreases s.len(),
{
    if s.len() == 0 {
        Seq::empty()
    } else {
        s.last().remaining() + stack_remaining(s.drop_last())
    }
}

/// A bound on the steps that the cursors of a walk take.
pub(crate) open spec fn stack_weight<'a, K: Ord + Clone, V: Clone>(
    s: Seq<NodeIterator<'a, K, V>>,
) -> nat
    decreases s.len(),
{
    if s.len() == 0 {
        0
    } else {
        s.last().weight() + stack_weight(s.drop_last())
    }
}

impl<'a, K: Ord + Clone, V: Clone> BTreeMapIterator<'a, K, V> {
    /// The entries still to come, in the order in which they come.
    pub closed spec fn remaining(&self) -> Seq<(K, V)> {
        (match self.leaf {
            Some(l) => l.remaining(),
            None => Seq::empty(),
        }) + stack_remaining(self.stack@)
    }

    /// The walk stands inside a well-formed tree.
    pub closed spec fn wf(&self) -> bool {
        &&& forall|i: int| 0 <= i < self.stack@.len() ==> (#[trigger] self.stack@[i]).wf()
        &&& self.leaf matches Some(l) ==> l.wf()
        &&& self.current + self.remaining().len() == self.end
    }

    /// A bound on the steps that the walk still takes.
    pub closed spec fn weight(&self) -> nat {
        (if self.leaf is Some {
            1nat
        } else {
            0nat
        }) + stack_weight(self.stack@)
    }

    /// The next entry, if any is left.
    pub fn next(&mut self) -> (r: Option<(&'a K, &'a V)>)
        requires
            old(self).wf(),
        ensures
            final(self).wf(),
            match r {
                Some((k, v)) => old(self).remaining().len() > 0 && (*k, *v) == old(
                    self,
                ).remaining()[0] && final(self).remaining() == old(self).remaining().drop_first(),
                None => old(self).remaining().len() == 0 && final(self).remaining().len() == 0,
            },
    {
        if self.current == self.end {
            return None;
        }
        loop
            invariant
                self.wf(),
                self.remaining() == old(self).remaining(),
            decreases self.weight(),
        {
            let res = match &mut self.leaf {
                Some(l) => l.next(),
                None => None,
            };
            if res.is_some() {
                self.current = self.current + 1;
                proof {
                    assert(self.remaining() =~= old(self).remaining().drop_first());
                }
                return res;
            } else {
                self.leaf = None;
                assert(self.remaining() =~= old(self).remaining());
            }
            if self.stack.len() == 0 {
                return None;
            } else {
                let last = self.stack.len() - 1;
                let ghost s = self.stack@;
                let step = self.stack[last].next();
                let ghost u = self.stack@;
                proof {
                    assert(u.drop_last() =~= s.drop_last());
                    assert(stack_remaining(s) == s.last().remaining() + stack_remaining(
                        s.drop_last(),
                    ));
                    assert(stack_remaining(u) == u.last().remaining() + stack_remaining(
                        u.drop_last(),
                    ));
                    assert(stack_weight(s) == s.last().weight() + stack_weight(s.drop_last()));
                    assert(stack_weight(u) == u.last().weight() + stack_weight(u.drop_last()));
                }
                match step {
                    Some(NodeIteratorRes::InternalIter(node)) => {
                        let ghost t = self.stack@;
                        self.stack.push(node);
                        proof {
                            assert(self.stack@.drop_last() =~= t);
                            assert(self.stack@.last() == node);
                            assert(stack_remaining(self.stack@) == node.remaining()
                                + stack_remaining(t));
                            assert(stack_weight(self.stack@) == node.weight() + stack_weight(t));
                            assert(self.remaining() =~= old(self).remaining());
                        }
                    },
                    Some(NodeIteratorRes::LeafIter(leaf)) => {
                        self.leaf = Some(leaf);
                        proof {
                            assert(self.remaining() =~= old(self).remaining());
                        }
                    },
                    None => {
                        let _ = self.stack.pop();
                        proof {
                            assert(self.stack@ =~= s.drop_last());
                            assert(self.remaining() =~= old(self).remaining());
                        }
                    },
                }
            }
        }
    }
}

/// An ordered set of `T`: a map from `T` to the unit type.
pub struct BTreeSet<T> {
    pub(crate) map: BTreeMap<T, ()>,
}

/// A walk over the elements of a set, in ascending order.
pub struct BTreeSetIterator<'a, T> {
    pub(crate) mapiter: BTreeMapIterator<'a, T, ()>,
}

/// The keys of a sequence of entries.
pub open spec fn keys_of<K, V>(s: Seq<(K, V)>) -> Seq<K> {
    s.map_values(|e: (K, V)| e.0)
}

impl<T: Ord + Clone> View for BTreeSet<T> {
    type V = Set<T>;

    /// The set as a mathematical set.
    closed spec fn view(&self) -> Set<T> {
        self.map@.dom()
    }
}

impl<T: Ord + Clone> BTreeSet<T> {
    /// The tree below the set is well-formed.
    pub closed spec fn wf(&self) -> bool {
        self.map.wf()
    }

    /// The elements in the order in which a walk gives them.
    pub closed spec fn elements(&self) -> Seq<T> {
        keys_of(self.map.entries())
    }

    /// A walk gives the elements of the set, each once, in strictly
    /// ascending order.
    pub proof fn lemma_walk_is_set(&self)
        requires
            self.wf(),
            lawful_key::<T>(),
        ensures
            ascending_keys(self.elements()),
            forall|value: T| self@.contains(value) <==> self.elements().contains(value),
            self@.finite(),
            self@.len() == self.elements().len(),
    {
        lemma_lawful_unit::<T>();
        let e = self.map.root.entries();
        let k = keys_of(e);
        self.map.root.lemma_ascending();
        lemma_as_map(e);
        assert forall|i: int, j: int| 0 <= i < j < k.len() implies lt(
            #[trigger] k[i],
            #[trigger] k[j],
        ) by {
            assert(lt(e[i].0, e[j].0));
        }
        assert forall|value: T| self@.contains(value) <==> k.contains(value) by {
            if self@.contains(value) {
                let p = position(e, value);
                assert(k[p] == value);
            }
            if k.contains(value) {
                let i = choose|i: int| 0 <= i < k.len() && k[i] == value;
                assert(e[i].0 == value);
            }
        }
    }

    /// An empty set.
    pub fn new() -> (r: BTreeSet<T>)
        ensures
            r.wf(),
            r@ == Set::<T>::empty(),
            r.elements() == Seq::<T>::empty(),
    {
        let r = BTreeSet { map: BTreeMap::new() };
        assert(r@ =~= Set::<T>::empty());
        assert(r.elements() =~= Seq::<T>::empty());
        r
    }

    /// A walk over the elements, in ascending order.
    pub fn iter<'a>(&'a self) -> (r: BTreeSetIterator<'a, T>)
        requires
            self.wf(),
        ensures
            r.wf(),
            r.remaining() == self.elements(),
    {
        BTreeSetIterator { mapiter: self.map.iter() }
    }

    /// The number of elements.
    pub fn len(&self) -> (r: usize)
        requires
            self.wf(),
            lawful_key::<T>(),
        ensures
            r == self@.len(),
            r == self.elements().len(),
    {
        proof {
            lemma_lawful_unit::<T>();
        }
        self.map.len()
    }

    /// Takes every element out.
    pub fn clear(&mut self)
        ensures
            final(self).wf(),
            final(self)@ == Set::<T>::empty(),
            final(self).elements() == Seq::<T>::empty(),
    {
        self.map.clear();
        assert(self@ =~= Set::<T>::empty());
        assert(self.elements() =~= Seq::<T>::empty());
    }

    /// Whether `value` is in the set.
    pub fn contains(&self, value: &T) -> (r: bool)
        requires
            self.wf(),
            lawful_key::<T>(),
        ensures
            r == self@.contains(*value),
    {
        proof {
            lemma_lawful_unit::<T>();
        }
        self.map.find(value).is_some()
    }

    /// Whether the two sets have no element in common.
    pub fn is_disjoint(&self, other: &BTreeSet<T>) -> (r: bool)
        requires
            self.wf(),
            other.wf(),
            lawful_key::<T>(),
        ensures
            r == self@.disjoint(other@),
    {
        let mut it = self.iter();
        let ghost all = self.map.entries();
        let ghost els = keys_of(all);
        let ghost seen: int = 0;
        proof {
            assert(els.subrange(0, els.len() as int) =~= els);
        }
        loop
            invariant
                self.wf(),
                other.wf(),
                lawful_key::<T>(),
                it.wf(),
                all == self.map.entries(),
                0 <= seen <= all.len(),
                els == keys_of(all),
                it.remaining() == els.subrange(seen, els.len() as int),
                forall|j: int| 0 <= j < seen ==> !other@.contains(#[trigger] els[j]),
            decreases all.len() - seen,
        {
            match it.next() {
                Some(v) => {
                    proof {
                        assert(els.subrange(seen, els.len() as int)[0] == els[seen]);
                        assert(els.subrange(seen, els.len() as int).drop_first() =~= els.subrange(
                            seen + 1,
                            els.len() as int,
                        ));
                        assert(els[seen] == all[seen].0);
                    }
                    if other.contains(v) {
                        proof {
                            assert(has_key(all, *v));
                        }
                        return false;
                    }
                    proof {
                        seen = seen + 1;
                    }
                },
                None => {
                    proof {
                        assert forall|x: T| !(self@.contains(x) && other@.contains(x)) by {
                            if self@.contains(x) {
                                let j = crate::sorted::position(all, x);
                                assert(els[j] == all[j].0);
                            }
                        }
                    }
                    return true;
                },
            }
        }
    }

    /// Whether every element of this set is in `other`.
    pub fn is_subset(&self, other: &BTreeSet<T>) -> (r: bool)
        requires
            self.wf(),
            other.wf(),
            lawful_key::<T>(),
        ensures
            r == self@.subset_of(other@),
    {
        let mut it = self.iter();
        let ghost all = self.map.entries();
        let ghost els = keys_of(all);
        let ghost seen: int = 0;
        proof {
            assert(els.subrange(0, els.len() as int) =~= els);
        }
        loop
            invariant
                self.wf(),
                other.wf(),
                lawful_key::<T>(),
                it.wf(),
                all == self.map.entries(),
                0 <= seen <= all.len(),
                els == keys_of(all),
                it.remaining() == els.subrange(seen, els.len() as int),
                forall|j: int| 0 <= j < seen ==> other@.contains(#[trigger] els[j]),
            decreases all.len() - seen,
        {
            match it.next() {
                Some(v) => {
                    proof {
                        assert(els.subrange(seen, els.len() as int)[0] == els[seen]);
                        assert(els.subrange(seen, els.len() as int).drop_first() =~= els.subrange(
                            seen + 1,
                            els.len() as int,
                        ));
                        assert(els[seen] == all[seen].0);
                    }
                    if !other.contains(v) {
                        proof {
                            assert(has_key(all, *v));
                        }
                        return false;
                    }
                    proof {
                        seen = seen + 1;
                    }
                },
                None => {
                    proof {
                        assert forall|x: T| self@.contains(x) implies other@.contains(x) by {
                            let j = crate::sorted::position(all, x);
                            assert(els[j] == all[j].0);
                        }
                    }
                    return true;
                },
            }
        }
    }

    /// Whether every element of `other` is in this set.
    pub fn is_superset(&self, other: &BTreeSet<T>) -> (r: bool)
        requires
            self.wf(),
            other.wf(),
            lawful_key::<T>(),
        ensures
            r == other@.subset_of(self@),
    {
        other.is_subset(self)
    }

    /// Puts `value` in. Says whether it was new to the set.
    pub fn insert(&mut self, value: T) -> (r: bool)
        requires
            old(self).wf(),
            lawful_key::<T>(),
            old(self).elements().len() < usize::MAX,
        ensures
            final(self).wf(),
            final(self)@ == old(self)@.insert(value),
            final(self)@.contains(value),
            r == !old(self)@.contains(value),
            final(self).elements().len() == old(self).elements().len() + if r {
                1nat
            } else {
                0nat
            },
    {
        proof {
            lemma_lawful_unit::<T>();
        }
        let ghost before = self.map@;
        let was_there = self.map.insert(value, ());
        assert(self.map@.dom() =~= before.dom().insert(value));
        !was_there
    }

    /// Takes `value` out. Says whether it was in the set.
    pub fn remove(&mut self, value: &T) -> (r: bool)
        requires
            old(self).wf(),
            lawful_key::<T>(),
        ensures
            final(self).wf(),
            final(self)@ == old(self)@.remove(*value),
            !final(self)@.contains(*value),
            r == old(self)@.contains(*value),
            final(self).elements().len() + if r {
                1nat
            } else {
                0nat
            } == old(self).elements().len(),
    {
        proof {
            lemma_lawful_unit::<T>();
        }
        let ghost before = self.map@;
        let r = self.map.remove(value);
        assert(self.map@.dom() =~= before.dom().remove(*value));
        r
    }
}

impl<T: Ord + Clone> Clone for BTreeSet<T> {
    /// A snapshot of the set.
    fn clone(&self) -> (r: BTreeSet<T>)
        ensures
            r@ == self@,
            r.elements() == self.elements(),
            r.wf() == self.wf(),
    {
        BTreeSet { map: self.map.clone() }
    }
}

impl<T: Ord + Clone> Default for BTreeSet<T> {
    /// An empty set.
    fn default() -> (r: BTreeSet<T>)
        ensures
            r.wf(),
            r@ == Set::<T>::empty(),
    {
        BTreeSet::new()
    }
}

impl<'a, T: Ord + Clone> BTreeSetIterator<'a, T> {
    /// The elements still to come, in the order in which they come.
    pub closed spec fn remaining(&self) -> Seq<T> {
        keys_of(self.mapiter.remaining())
    }

    /// The walk stands inside a well-formed tree.
    pub closed spec fn wf(&self) -> bool {
        self.mapiter.wf()
    }

    /// The next element, if any is left.
    pub fn next(&mut self) -> (r: Option<&'a T>)
        requires
            old(self).wf(),
        ensures
            final(self).wf(),
            match r {
                Some(k) => old(self).remaining().len() > 0 && *k == old(self).remaining()[0]
                    && final(self).remaining() == old(self).remaining().drop_first(),
                None => old(self).remaining().len() == 0 && final(self).remaining().len() == 0,
            },
    {
        match self.mapiter.next() {
            Some((k, _)) => {
                proof {
                    assert(self.remaining() =~= old(self).remaining().drop_first());
                }
                Some(k)
            },
            None => None,
        }
    }
}

/// An ordered map from `K` to `V`: a handle to the same copy-on-write tree
/// as [`BTreeMap`], with the operations of a map and nothing else.
pub struct BTree<K, V> {
    pub(crate) map: BTreeMap<K, V>,
}

impl<K: Ord + Clone, V: Clone> View for BTree<K, V> {
    type V = Map<K, V>;

    /// The map as a mathematical map.
    closed spec fn view(&self) -> Map<K, V> {
        self.map@
    }
}

impl<K: Ord + Clone, V: Clone> BTree<K, V> {
    /// The entries in the order in which a walk gives them.
    pub closed spec fn entries(&self) -> Seq<(K, V)> {
        self.map.entries()
    }

    /// The tree is well-formed.
    pub closed spec fn wf(&self) -> bool {
        self.map.wf()
    }

    /// The map behind the handle.
    pub closed spec fn tree(&self) -> BTreeMap<K, V> {
        self.map
    }

    /// The handle is its map: what holds of the map holds of the handle.
    pub proof fn lemma_is_tree(&self)
        ensures
            self@ == self.tree()@,
            self.entries() == self.tree().entries(),
            self.wf() == self.tree().wf(),
    {
    }

    /// A key has a value in the map exactly if a walk gives the key with
    /// that value.
    pub proof fn lemma_find_is_walk(&self, key: K, value: V)
        requires
            self.wf(),
            lawful::<K, V>(),
        ensures
            (self@.contains_key(key) && self@[key] == value) <==> self.entries().contains(
                (key, value),
            ),
    {
        self.map.lemma_find_is_walk(key, value);
    }

    /// A walk gives the keys in strictly ascending order.
    pub proof fn lemma_walk_ascends(&self)
        requires
            self.wf(),
        ensures
            ascending(self.entries()),
    {
        self.map.lemma_walk_ascends();
    }

    /// The map has as many keys as a walk gives entries.
    pub proof fn lemma_length_is_walk(&self)
        requires
            self.wf(),
            lawful::<K, V>(),
        ensures
            self@.dom().finite(),
            self@.len() == self.entries().len(),
    {
        self.map.lemma_length_is_walk();
    }

    /// A well-formed tree is balanced and keeps the separator discipline.
    pub proof fn lemma_structure(&self)
        requires
            self.wf(),
            lawful::<K, V>(),
        ensures
            self.tree().balanced(),
            self.tree().separated(),
    {
        self.map.lemma_balanced();
        self.map.lemma_separated();
    }

    /// A well-formed tree whose map is empty is the empty tree.
    pub proof fn lemma_empty(&self)
        requires
            self.wf(),
            lawful::<K, V>(),
            self@ == Map::<K, V>::empty(),
        ensures
            self.tree().vacant(),
            self.entries() == Seq::<(K, V)>::empty(),
    {
        self.map.lemma_empty();
    }

    /// An empty map.
    pub fn new() -> (r: BTree<K, V>)
        ensures
            r.wf(),
            r@ == Map::<K, V>::empty(),
            r.entries() == Seq::<(K, V)>::empty(),
    {
        BTree { map: BTreeMap::new() }
    }

    /// A walk over the entries, in ascending key order.
    pub fn iter<'a>(&'a self) -> (r: BTreeMapIterator<'a, K, V>)
        requires
            self.wf(),
        ensures
            r.wf(),
            r.remaining() == self.entries(),
    {
        self.map.iter()
    }

    /// The number of entries.
    pub fn len(&self) -> (r: usize)
        requires
            self.wf(),
            lawful::<K, V>(),
        ensures
            r == self.entries().len(),
            r == self@.len(),
    {
        self.map.len()
    }

    /// The value under `key`.
    pub fn find(&self, key: &K) -> (r: Option<&V>)
        requires
            self.wf(),
            lawful::<K, V>(),
        ensures
            r == if self@.contains_key(*key) {
                Some(&self@[*key])
            } else {
                None
            },
    {
        self.map.find(key)
    }

    /// Takes every entry out.
    pub fn clear(&mut self)
        ensures
            final(self).wf(),
            final(self)@ == Map::<K, V>::empty(),
            final(self).entries() == Seq::<(K, V)>::empty(),
    {
        self.map.clear();
    }

    /// Puts `value` under `key` and gives what was there before.
    pub fn swap(&mut self, key: K, value: V) -> (r: Option<V>)
        requires
            old(self).wf(),
            lawful::<K, V>(),
            old(self).entries().len() < usize::MAX,
        ensures
            final(self).wf(),
            final(self)@ == old(self)@.insert(key, value),
            final(self)@.contains_key(key) && final(self)@[key] == value,
            r == if old(self)@.contains_key(key) {
                Some(old(self)@[key])
            } else {
                None
            },
            final(self).entries().len() == old(self).entries().len() + if r is Some {
                0nat
            } else {
                1nat
            },
    {
        self.map.swap(key, value)
    }

    /// Takes the entry of `key` out and gives its value.
    pub fn pop(&mut self, key: &K) -> (r: Option<V>)
        requires
            old(self).wf(),
            lawful::<K, V>(),
        ensures
            final(self).wf(),
            final(self)@ == old(self)@.remove(*key),
            r == if old(self)@.contains_key(*key) {
                Some(old(self)@[*key])
            } else {
                None
            },
            final(self).entries().len() + if r is Some {
                1nat
            } else {
                0nat
            } == old(self).entries().len(),
    {
        self.map.pop(key)
    }

    /// Takes the entry of `key` out. Says whether there was one.
    pub fn remove(&mut self, key: &K) -> (r: bool)
        requires
            old(self).wf(),
            lawful::<K, V>(),
        ensures
            final(self).wf(),
            final(self)@ == old(self)@.remove(*key),
            !final(self)@.contains_key(*key),
            r == old(self)@.contains_key(*key),
            final(self).entries().len() + if r {
                1nat
            } else {
                0nat
            } == old(self).entries().len(),
    {
        self.map.remove(key)
    }

    /// Write access to the value under `key`.
    pub fn find_mut(&mut self, key: &K) -> (r: Option<&mut V>)
        requires
            old(self).wf(),
            lawful::<K, V>(),
        ensures
            match r {
                Some(v) => {
                    &&& old(self)@.contains_key(*key)
                    &&& *v == old(self)@[*key]
                    &&& final(self)@ == old(self)@.insert(*key, *final(v))
                },
                None => !old(self)@.contains_key(*key) && final(self)@ == old(self)@,
            },
            final(self).wf(),
            final(self).entries().len() == old(self).entries().len(),
    {
        self.map.find_mut(key)
    }

    /// Puts `value` under `key`, in place of what was there. Says whether
    /// `key` had a value before.
    pub fn insert(&mut self, key: K, value: V) -> (r: bool)
        requires
            old(self).wf(),
            lawful::<K, V>(),
            old(self).entries().len() < usize::MAX,
        ensures
            final(self).wf(),
            final(self)@ == old(self)@.insert(key, value),
            r == old(self)@.contains_key(key),
            final(self).entries().len() == old(self).entries().len() + if r {
                0nat
            } else {
                1nat
            },
    {
        self.map.insert(key, value)
    }
}

impl<K: Ord + Clone, V: Clone> Clone for BTree<K, V> {
    /// A snapshot of the map.
    fn clone(&self) -> (r: BTree<K, V>)
        ensures
            r@ == self@,
            r.entries() == self.entries(),
            r.wf() == self.wf(),
    {
        BTree { map: self.map.clone() }
    }
}

} // verus!
