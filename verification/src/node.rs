//! Internal nodes, and the links that hold a tree together.
use vstd::prelude::*;
use crate::CowArc;
use crate::order::{lt, total_order, exact_clone, lawful, compare, Side,
    lemma_lt_transitive, lemma_lt_trichotomy};
use crate::sorted::{ascending, ascending_keys, rank, below, has_key, lookup, position,
    lemma_at, lemma_all_below, lemma_all_above, lemma_ascending_parts,
    lemma_rank_concat, lemma_has_key_concat, lemma_below_cut,
    lemma_below_between, lemma_flatten_at, lemma_flatten_ends,
    lemma_flatten_prefix_len, lemma_flatten_one, lemma_flatten_two,
    lemma_flatten_replace, lemma_insert, lemma_update, lemma_remove,
    lemma_present, lemma_rank_cut, lemma_below_insert, lemma_grown_around};
use crate::leaf::{NodeLeaf, LeafIterator, InsertAction, inserted, removed, LEAF_SIZE,
    INTERNAL_SIZE};

verus! {

/// An internal node: up to `INTERNAL_SIZE` children, between each two of
/// them the largest key of the one to the left, and the number of entries
/// below the node.
pub struct NodeInternal<K, V> {
    pub(crate) keys: Vec<K>,
    pub(crate) children: Vec<Node<K, V>>,
    pub(crate) total_len: usize,
}

/// A link to a node. `Empty` is the root of a tree without entries.
pub enum Node<K, V> {
    Empty,
    Internal(CowArc<NodeInternal<K, V>>),
    Leaf(CowArc<NodeLeaf<K, V>>),
}

impl<K: Ord + Clone, V: Clone> Node<K, V> {
    /// The entries below the link, in order.
    pub open(crate) spec fn entries(&self) -> Seq<(K, V)>
        decreases self,
    {
        match self {
            Node::Empty => Seq::empty(),
            Node::Leaf(c) => c.x.data.entries(),
            Node::Internal(c) => c.x.data.parts().flatten(),
        }
    }

    /// The number of internal nodes on the way down to a leaf.
    pub open(crate) spec fn height(&self) -> nat
        decreases self,
    {
        match self {
            Node::Empty => 0,
            Node::Leaf(c) => 0,
            Node::Internal(c) => if c.x.data.children@.len() > 0 {
                1 + c.x.data.children@[0].height()
            } else {
                1
            },
        }
    }

    /// The children of an internal node; a leaf and the empty link have none.
    pub open(crate) spec fn children(&self) -> Seq<Node<K, V>> {
        match self {
            Node::Internal(c) => c.x.data.children@,
            _ => Seq::empty(),
        }
    }

    /// What a node hands to its left neighbour when it has one to spare:
    /// the first entry of a leaf, the entries under the first child of an
    /// internal node.
    pub open(crate) spec fn first_part(&self) -> Seq<(K, V)> {
        match self {
            Node::Empty => Seq::empty(),
            Node::Leaf(c) => c.x.data.entries().take(1),
            Node::Internal(c) => c.x.data.children@[0].entries(),
        }
    }

    /// What a node hands to its right neighbour when it has one to spare:
    /// the last entry of a leaf, the entries under the last child of an
    /// internal node.
    pub open(crate) spec fn last_part(&self) -> Seq<(K, V)> {
        match self {
            Node::Empty => Seq::empty(),
            Node::Leaf(c) => c.x.data.entries().skip(c.x.data.entries().len() - 1),
            Node::Internal(c) => c.x.data.children@.last().entries(),
        }
    }

    /// How many entries a leaf has, or children an internal node.
    pub open(crate) spec fn fill(&self) -> nat {
        match self {
            Node::Empty => 0,
            Node::Leaf(c) => c.x.data.keys@.len(),
            Node::Internal(c) => c.x.data.children@.len(),
        }
    }

    /// The fill below which a node that is not the root may not fall.
    pub open(crate) spec fn min_fill(&self) -> nat {
        match self {
            Node::Empty => 0,
            Node::Leaf(c) => (LEAF_SIZE / 2) as nat,
            Node::Internal(c) => (INTERNAL_SIZE / 2) as nat,
        }
    }

    /// The fill that a node cannot exceed.
    pub open(crate) spec fn max_fill(&self) -> nat {
        match self {
            Node::Empty => 0,
            Node::Leaf(c) => LEAF_SIZE as nat,
            Node::Internal(c) => INTERNAL_SIZE as nat,
        }
    }

    /// The node is at least half full.
    pub open(crate) spec fn half_full(&self) -> bool {
        !(self is Empty) && self.fill() >= self.min_fill()
    }

    /// The node, and every node below it, is well-formed.
    pub open(crate) spec fn wf(&self) -> bool
        decreases self,
    {
        match self {
            Node::Empty => true,
            Node::Leaf(c) => c.x.data.wf(),
            Node::Internal(c) => c.x.data.wf_but(-1),
        }
    }

    /// An insertion of `key` finds every node on its way full.
    pub open(crate) spec fn saturated(&self, key: K) -> bool
        decreases self,
    {
        match self {
            Node::Empty => false,
            Node::Leaf(c) => c.x.data.keys@.len() == LEAF_SIZE,
            Node::Internal(c) => c.x.data.saturated(key),
        }
    }

    /// A bound on the steps that a walk over the nodes below the link takes.
    pub open(crate) spec fn weight(&self) -> nat
        decreases self,
    {
        match self {
            Node::Empty => 1,
            Node::Leaf(c) => 2,
            Node::Internal(c) => 2 + c.x.data.weight_from(0),
        }
    }

    /// Every leaf below the link lies `d` internal nodes down.
    pub open(crate) spec fn leaves_at(&self, d: nat) -> bool
        decreases self,
    {
        match self {
            Node::Empty => true,
            Node::Leaf(c) => d == 0,
            Node::Internal(c) => d > 0 && forall|j: int|
                0 <= j < c.x.data.children@.len() ==> (#[trigger] c.x.data.children@[j]).leaves_at(
                    (d - 1) as nat,
                ),
        }
    }

    /// Every node below this one is at least half full.
    pub open(crate) spec fn filled_below(&self) -> bool
        decreases self,
    {
        match self {
            Node::Internal(c) => forall|j: int|
                0 <= j < c.x.data.children@.len() ==> (#[trigger] c.x.data.children@[j]).half_full()
                    && c.x.data.children@[j].filled_below(),
            _ => true,
        }
    }

    /// In every internal node at or below the link, each separator is the
    /// largest key under the child to its left, and below the smallest key
    /// under the child to its right.
    pub open(crate) spec fn separated(&self) -> bool
        decreases self,
    {
        match self {
            Node::Internal(c) => {
                &&& c.x.data.keys@.len() + 1 == c.x.data.children@.len()
                &&& forall|j: int|
                    0 <= j < c.x.data.children@.len() ==> (
                    #[trigger] c.x.data.children@[j]).separated()
                        && ascending(c.x.data.children@[j].entries())
                        && c.x.data.children@[j].entries().len() > 0
                &&& forall|j: int|
                    0 <= j < c.x.data.keys@.len() ==> (#[trigger] c.x.data.keys@[j])
                        == c.x.data.children@[j].entries().last().0 && lt(
                        c.x.data.keys@[j],
                        c.x.data.children@[j + 1].entries()[0].0,
                    )
            },
            _ => true,
        }
    }

    /// The entries below a well-formed link ascend.
    pub(crate) proof fn lemma_ascending(&self)
        requires
            self.wf(),
        ensures
            ascending(self.entries()),
    {
    }

    /// A well-formed tree is balanced, filled and separated.
    pub(crate) proof fn lemma_structure(&self)
        requires
            self.wf(),
            total_order::<K>(),
        ensures
            self.leaves_at(self.height()),
            self.filled_below(),
            self.separated(),
        decreases self,
    {
        match self {
            Node::Internal(c) => {
                let node = c.x.data;
                assert forall|j: int| 0 <= j < node.children@.len() implies {
                    &&& (#[trigger] node.children@[j]).leaves_at((self.height() - 1) as nat)
                    &&& node.children@[j].half_full()
                    &&& node.children@[j].filled_below()
                    &&& node.children@[j].separated()
                    &&& ascending(node.children@[j].entries())
                } by {
                    node.children@[j].lemma_structure();
                    node.children@[j].lemma_ascending();
                    assert(node.children@[j].height() == node.children@[0].height());
                }
                assert forall|j: int| 0 <= j < node.keys@.len() implies (#[trigger] node.keys@[j])
                    == node.children@[j].entries().last().0 && lt(
                    node.keys@[j],
                    node.children@[j + 1].entries()[0].0,
                ) by {
                    node.lemma_pair(j, -1);
                    lemma_ascending_parts(
                        node.children@[j].entries(),
                        node.children@[j + 1].entries(),
                    );
                    assert(node.children@[j].wf());
                    assert(node.children@[j + 1].wf());
                }
            },
            _ => {},
        }
    }

    /// A well-formed node has at least as many entries as its fill.
    pub(crate) proof fn lemma_entries_ge_fill(&self)
        requires
            self.wf(),
        ensures
            self.entries().len() >= self.fill(),
    {
        match self {
            Node::Empty => {},
            Node::Leaf(c) => {},
            Node::Internal(c) => {
                lemma_flatten_ends(c.x.data.parts());
            },
        }
    }

    /// The number of entries below the link.
    pub fn len(&self) -> (r: usize)
        requires
            self.wf(),
        ensures
            r == self.entries().len(),
    {
        match self {
            Node::Empty => 0,
            Node::Leaf(leaf) => leaf.get().len(),
            Node::Internal(node) => node.get().len(),
        }
    }

    /// The largest key below the link.
    pub fn max_key(&self) -> (r: K)
        requires
            self.wf(),
            !(self is Empty),
            self.entries().len() > 0,
            exact_clone::<K>(),
        ensures
            r == self.entries().last().0,
        decreases self.height(), 1nat,
    {
        match self {
            Node::Leaf(leaf) => leaf.get().max_key(),
            Node::Internal(node) => node.get().max_key(),
            Node::Empty => vstd::pervasive::unreached(),
        }
    }

    /// Moves the upper half of a full node into a new node, and gives the
    /// link to that node with the largest key that stays behind.
    pub fn split(&mut self) -> (r: (Node<K, V>, K))
        requires
            old(self).wf(),
            !(*old(self) is Empty),
            old(self).fill() == old(self).max_fill(),
            lawful::<K, V>(),
        ensures
            final(self).wf(),
            r.0.wf(),
            final(self).entries() + r.0.entries() == old(self).entries(),
            final(self).height() == old(self).height(),
            r.0.height() == old(self).height(),
            final(self).half_full(),
            r.0.half_full(),
            final(self).fill() < final(self).max_fill(),
            r.0.fill() < r.0.max_fill(),
            final(self).entries().len() > 0,
            r.0.entries().len() > 0,
            r.1 == final(self).entries().last().0,
    {
        match self {
            Node::Leaf(leaf) => {
                let ghost before = leaf.payload();
                let inner = leaf.get_mut();
                proof {
                    inner.lemma_same(&before);
                }
                let (right, key) = inner.split();
                (Node::Leaf(CowArc::new(right)), key)
            },
            Node::Internal(node) => {
                let ghost before = node.payload();
                let inner = node.get_mut();
                proof {
                    inner.lemma_same(&before);
                }
                let (right, key) = inner.split();
                let r = Node::Internal(CowArc::new(right));
                proof {
                    r.lemma_entries_ge_fill();
                }
                (r, key)
            },
            Node::Empty => vstd::pervasive::unreached(),
        }
    }

    /// Moves the first entry or child of `src`, the node to the right, to
    /// the end of this node, if `src` is more than half full.
    pub fn rotate_left(&mut self, src: &mut Node<K, V>) -> (r: bool)
        requires
            old(self).wf(),
            old(src).wf(),
            !(*old(self) is Empty),
            !(*old(src) is Empty),
            old(self).height() == old(src).height(),
            old(self).fill() < old(self).max_fill(),
            old(self).entries().len() > 0,
            old(src).half_full(),
            ascending(old(self).entries() + old(src).entries()),
            old(self).entries().len() + old(src).entries().len() <= usize::MAX,
            lawful::<K, V>(),
        ensures
            final(self).wf(),
            final(src).wf(),
            !(*final(self) is Empty),
            !(*final(src) is Empty),
            final(self).height() == old(self).height(),
            final(src).height() == old(src).height(),
            r == (old(src).fill() > old(src).min_fill()),
            final(self).entries() + final(src).entries() == old(self).entries() + old(
                src,
            ).entries(),
            final(self).entries().len() > 0,
            final(src).entries().len() > 0,
            final(self).fill() == old(self).fill() + if r { 1nat } else { 0nat },
            final(src).fill() + if r { 1nat } else { 0nat } == old(src).fill(),
            !r ==> final(self).entries() == old(self).entries() && final(src).entries() == old(
                src,
            ).entries(),
            r ==> final(self).entries() == old(self).entries() + old(src).first_part()
                && final(src).entries() == old(src).entries().skip(
                old(src).first_part().len() as int,
            ),
            r && *old(self) is Internal ==> final(self).children() == old(self).children().push(
                old(src).children()[0],
            ) && final(src).children() == old(src).children().remove(0),
            !r ==> final(self).children() == old(self).children() && final(src).children() == old(
                src,
            ).children(),
            final(self).min_fill() == old(self).min_fill(),
            final(src).min_fill() == old(src).min_fill(),
    {
        proof {
            src.lemma_entries_ge_fill();
        }
        match self {
            Node::Leaf(sink) => match src {
                Node::Leaf(from) => {
                    let ghost a = sink.payload();
                    let ghost b = from.payload();
                    let left = sink.get_mut();
                    let right = from.get_mut();
                    proof {
                        left.lemma_same(&a);
                        right.lemma_same(&b);
                        assert(a.entries().push(b.entries()[0]) =~= a.entries()
                            + b.entries().take(1));
                        assert(b.entries().remove(0) =~= b.entries().skip(1));
                    }
                    left.rotate_left(right)
                },
                _ => vstd::pervasive::unreached(),
            },
            Node::Internal(sink) => match src {
                Node::Internal(from) => {
                    let ghost a = sink.payload();
                    let ghost b = from.payload();
                    let left = sink.get_mut();
                    let right = from.get_mut();
                    proof {
                        left.lemma_same(&a);
                        right.lemma_same(&b);
                    }
                    let r = left.rotate_left(right);
                    proof {
                        lemma_flatten_ends(left.parts());
                        lemma_flatten_ends(right.parts());
                    }
                    r
                },
                _ => vstd::pervasive::unreached(),
            },
            Node::Empty => vstd::pervasive::unreached(),
        }
    }

    /// Moves the last entry or child of `src`, the node to the left, to the
    /// front of this node, if `src` is more than half full.
    pub fn rotate_right(&mut self, src: &mut Node<K, V>) -> (r: bool)
        requires
            old(self).wf(),
            old(src).wf(),
            !(*old(self) is Empty),
            !(*old(src) is Empty),
            old(self).height() == old(src).height(),
            old(self).fill() < old(self).max_fill(),
            old(self).entries().len() > 0,
            old(src).half_full(),
            ascending(old(src).entries() + old(self).entries()),
            old(self).entries().len() + old(src).entries().len() <= usize::MAX,
            lawful::<K, V>(),
        ensures
            final(self).wf(),
            final(src).wf(),
            !(*final(self) is Empty),
            !(*final(src) is Empty),
            final(self).height() == old(self).height(),
            final(src).height() == old(src).height(),
            r == (old(src).fill() > old(src).min_fill()),
            final(src).entries() + final(self).entries() == old(src).entries() + old(
                self,
            ).entries(),
            final(self).entries().len() > 0,
            final(src).entries().len() > 0,
            final(self).fill() == old(self).fill() + if r { 1nat } else { 0nat },
            final(src).fill() + if r { 1nat } else { 0nat } == old(src).fill(),
            !r ==> final(self).entries() == old(self).entries() && final(src).entries() == old(
                src,
            ).entries(),
            r ==> final(self).entries() == old(src).last_part() + old(self).entries()
                && final(src).entries() == old(src).entries().take(
                old(src).entries().len() - old(src).last_part().len(),
            ),
            r && *old(self) is Internal ==> final(self).children() == old(self).children().insert(
                0,
                old(src).children().last(),
            ) && final(src).children() == old(src).children().drop_last(),
            !r ==> final(self).children() == old(self).children() && final(src).children() == old(
                src,
            ).children(),
            final(self).min_fill() == old(self).min_fill(),
            final(src).min_fill() == old(src).min_fill(),
    {
        proof {
            src.lemma_entries_ge_fill();
        }
        match self {
            Node::Leaf(sink) => match src {
                Node::Leaf(from) => {
                    let ghost a = sink.payload();
                    let ghost b = from.payload();
                    let right = sink.get_mut();
                    let left = from.get_mut();
                    proof {
                        right.lemma_same(&a);
                        left.lemma_same(&b);
                        let n = b.entries().len() as int;
                        assert(a.entries().insert(0, b.entries().last()) =~= b.entries().skip(n - 1)
                            + a.entries());
                        assert(b.entries().drop_last() =~= b.entries().take(n - 1));
                    }
                    right.rotate_right(left)
                },
                _ => vstd::pervasive::unreached(),
            },
            Node::Internal(sink) => match src {
                Node::Internal(from) => {
                    let ghost a = sink.payload();
                    let ghost b = from.payload();
                    let right = sink.get_mut();
                    let left = from.get_mut();
                    proof {
                        right.lemma_same(&a);
                        left.lemma_same(&b);
                    }
                    let r = right.rotate_right(left);
                    proof {
                        lemma_flatten_ends(left.parts());
                        lemma_flatten_ends(right.parts());
                    }
                    r
                },
                _ => vstd::pervasive::unreached(),
            },
            Node::Empty => vstd::pervasive::unreached(),
        }
    }

    /// Appends what `src`, the node to the right, holds.
    pub fn merge(&mut self, src: Node<K, V>)
        requires
            old(self).wf(),
            src.wf(),
            !(*old(self) is Empty),
            !(src is Empty),
            old(self).height() == src.height(),
            old(self).fill() + src.fill() <= old(self).max_fill(),
            old(self).fill() > 0,
            ascending(old(self).entries() + src.entries()),
            old(self).entries().len() + src.entries().len() <= usize::MAX,
            lawful::<K, V>(),
        ensures
            final(self).wf(),
            !(*final(self) is Empty),
            final(self).height() == old(self).height(),
            final(self).entries() == old(self).entries() + src.entries(),
            final(self).fill() == old(self).fill() + src.fill(),
    {
        let mut src = src;
        match self {
            Node::Leaf(sink) => match &mut src {
                Node::Leaf(from) => {
                    let ghost a = sink.payload();
                    let ghost b = from.payload();
                    let left = sink.get_mut();
                    let right = from.get_mut();
                    proof {
                        left.lemma_same(&a);
                        right.lemma_same(&b);
                    }
                    left.merge(right);
                },
                _ => vstd::pervasive::unreached(),
            },
            Node::Internal(sink) => match &mut src {
                Node::Internal(from) => {
                    let ghost a = sink.payload();
                    let ghost b = from.payload();
                    let left = sink.get_mut();
                    let right = from.get_mut();
                    proof {
                        left.lemma_same(&a);
                        right.lemma_same(&b);
                    }
                    left.merge(right);
                },
                _ => vstd::pervasive::unreached(),
            },
            Node::Empty => vstd::pervasive::unreached(),
        }
    }

    /// Takes a root that has run out off the tree: an internal node with one
    /// child gives way to that child, a leaf without entries to `Empty`.
    pub fn lift(&mut self)
        requires
            old(self).wf(),
            lawful::<K, V>(),
        ensures
            final(self).wf(),
            final(self).entries() == old(self).entries(),
            match *old(self) {
                Node::Empty => *final(self) == *old(self),
                Node::Leaf(_) => if old(self).fill() == 0 {
                    *final(self) is Empty
                } else {
                    *final(self) == *old(self)
                },
                Node::Internal(_) => if old(self).fill() == 1 {
                    &&& *final(self) == old(self).children()[0]
                    &&& final(self).half_full()
                    &&& final(self).height() + 1 == old(self).height()
                } else {
                    *final(self) == *old(self)
                },
            },
    {
        let depleted = match self {
            Node::Internal(node) => node.get().children.len() == 1,
            Node::Leaf(leaf) => leaf.get().keys.len() == 0,
            Node::Empty => false,
        };
        if depleted {
            let mut child = Node::Empty;
            match self {
                Node::Internal(node) => {
                    let ghost before = node.payload();
                    let inner = node.get_mut();
                    proof {
                        inner.lemma_same(&before);
                        lemma_flatten_one(inner.children@[0].entries());
                        assert(inner.parts() =~= seq![inner.children@[0].entries()]);
                    }
                    std::mem::swap(&mut child, &mut inner.children[0]);
                },
                _ => {},
            }
            *self = child;
        }
    }

    /// Puts the entry in below the link, unless every node on the way is full.
    pub fn insert(&mut self, key: K, value: V) -> (r: InsertAction<K, V>)
        requires
            old(self).wf(),
            lawful::<K, V>(),
            old(self).entries().len() < usize::MAX,
        ensures
            final(self).wf(),
            !(*final(self) is Empty),
            final(self).height() == old(self).height(),
            final(self).fill() >= old(self).fill(),
            *old(self) is Internal ==> *final(self) is Internal,
            r is Split <==> old(self).saturated(key),
            r is Split ==> final(self).fill() == old(self).fill(),
            inserted(old(self).entries(), final(self).entries(), key, value, r),
        decreases old(self).height(), 2nat,
    {
        match self {
            Node::Empty => {
                let mut leaf = NodeLeaf::<K, V>::new();
                let r = leaf.insert(key, value);
                *self = Node::Leaf(CowArc::new(leaf));
                r
            },
            Node::Leaf(cell) => {
                let ghost before = cell.payload();
                let inner = cell.get_mut();
                proof {
                    inner.lemma_same(&before);
                }
                inner.insert(key, value)
            },
            Node::Internal(cell) => {
                let ghost before = cell.payload();
                let inner = cell.get_mut();
                proof {
                    inner.lemma_same(&before);
                }
                inner.insert(key, value)
            },
        }
    }

    /// Takes the entry of `key` out from below the link. Gives the new
    /// largest key, where the largest was taken out and another is left; the
    /// value taken out; and whether the node is now less than half full.
    pub fn pop(&mut self, key: &K) -> (r: (Option<K>, Option<V>, bool))
        requires
            old(self).wf(),
            lawful::<K, V>(),
            *old(self) is Internal ==> old(self).fill() >= 2,
        ensures
            final(self).wf(),
            final(self).height() == old(self).height(),
            (*old(self) is Empty) == (*final(self) is Empty),
            (*old(self) is Leaf) == (*final(self) is Leaf),
            final(self).min_fill() == old(self).min_fill(),
            final(self).fill() <= old(self).fill() <= final(self).fill() + 1,
            r.1 is None ==> final(self).fill() == old(self).fill(),
            *old(self) is Internal ==> final(self).fill() >= 1,
            removed(old(self).entries(), final(self).entries(), *key, r.0, r.1),
            r.2 == match *old(self) {
                Node::Empty => false,
                Node::Leaf(_) => r.1 is Some && final(self).fill() < LEAF_SIZE / 2,
                Node::Internal(_) => final(self).fill() < INTERNAL_SIZE / 2,
            },
        decreases old(self).height(), 2nat,
    {
        match self {
            Node::Empty => (None, None, false),
            Node::Leaf(cell) => {
                let ghost before = cell.payload();
                let inner = cell.get_mut();
                proof {
                    inner.lemma_same(&before);
                }
                inner.pop(key)
            },
            Node::Internal(cell) => {
                let ghost before = cell.payload();
                let inner = cell.get_mut();
                proof {
                    inner.lemma_same(&before);
                }
                inner.pop(key)
            },
        }
    }

    /// Write access to the value under `key`. Every node on the way to it
    /// is made this tree's own first.
    pub fn find_mut(&mut self, key: &K) -> (r: Option<&mut V>)
        requires
            old(self).wf(),
            lawful::<K, V>(),
        ensures
            match r {
                Some(v) => {
                    let p = rank(old(self).entries(), *key);
                    &&& has_key(old(self).entries(), *key)
                    &&& 0 <= p < old(self).entries().len()
                    &&& *v == old(self).entries()[p].1
                    &&& final(self).entries() == old(self).entries().update(p, (*key, *final(v)))
                },
                None => !has_key(old(self).entries(), *key) && final(self).entries() == old(
                    self,
                ).entries(),
            },
            final(self).wf(),
            final(self).height() == old(self).height(),
            final(self).fill() == old(self).fill(),
            (*old(self) is Empty) == (*final(self) is Empty),
            (*old(self) is Leaf) == (*final(self) is Leaf),
        decreases old(self).height(), 2nat,
    {
        match self {
            Node::Empty => None,
            Node::Leaf(cell) => {
                let ghost before = cell.payload();
                let inner = cell.get_mut();
                proof {
                    inner.lemma_same(&before);
                }
                inner.find_mut(key)
            },
            Node::Internal(cell) => {
                let ghost before = cell.payload();
                let inner = cell.get_mut();
                proof {
                    inner.lemma_same(&before);
                }
                inner.find_mut(key)
            },
        }
    }
}

impl<K: Ord + Clone, V: Clone> Clone for Node<K, V> {
    /// Another link to the same node.
    fn clone(&self) -> (r: Node<K, V>)
        ensures
            r == *self,
    {
        match self {
            Node::Empty => Node::Empty,
            Node::Internal(node) => Node::Internal(node.clone()),
            Node::Leaf(leaf) => Node::Leaf(leaf.clone()),
        }
    }
}

impl<K: Ord + Clone, V: Clone> NodeInternal<K, V> {
    /// The entries of each child.
    pub open(crate) spec fn parts(&self) -> Seq<Seq<(K, V)>>
        decreases self,
    {
        Seq::new(
            self.children@.len(),
            |i: int|
                if 0 <= i < self.children@.len() {
                    self.children@[i].entries()
                } else {
                    Seq::empty()
                },
        )
    }

    /// The entries below the node, in order.
    pub open(crate) spec fn entries(&self) -> Seq<(K, V)> {
        self.parts().flatten()
    }

    /// The entries below the children before the `i`-th.
    pub open(crate) spec fn head(&self, i: int) -> Seq<(K, V)> {
        self.parts().subrange(0, i).flatten()
    }

    /// The entries below the children after the `i`-th.
    pub open(crate) spec fn tail(&self, i: int) -> Seq<(K, V)> {
        self.parts().subrange(i + 1, self.parts().len() as int).flatten()
    }

    /// The weights of the children from the `i`-th on, added up.
    pub open(crate) spec fn weight_from(&self, i: nat) -> nat
        decreases self, self.used() - i,
    {
        if i >= self.children@.len() {
            0
        } else {
            self.children@[i as int].weight() + self.weight_from(i + 1)
        }
    }

    /// The number of children.
    pub open(crate) spec fn used(&self) -> nat {
        self.children@.len()
    }

    /// The cached number of entries below the node.
    pub open(crate) spec fn count(&self) -> nat {
        self.total_len as nat
    }

    /// The separator keys.
    pub open(crate) spec fn separators(&self) -> Seq<K> {
        self.keys@
    }

    /// The children.
    pub open(crate) spec fn links(&self) -> Seq<Node<K, V>> {
        self.children@
    }

    /// The index of the child under which `key` stands or belongs: the
    /// number of separators below `key`.
    pub open(crate) spec fn slot(&self, key: K) -> int {
        below(self.keys@, key)
    }

    /// An insertion of `key` finds this node and every node on its way
    /// below it full.
    pub open(crate) spec fn saturated(&self, key: K) -> bool
        decreases self,
    {
        let i = below(self.keys@, key);
        &&& self.children@.len() == INTERNAL_SIZE
        &&& 0 <= i < self.children@.len()
        &&& self.children@[i].saturated(key)
    }

    /// The number of internal nodes from here down to a leaf.
    pub open(crate) spec fn height(&self) -> nat {
        if self.children@.len() > 0 {
            1 + self.children@[0].height()
        } else {
            1
        }
    }

    /// The two nodes have the same separators, children and count.
    pub open(crate) spec fn same_as(&self, other: &NodeInternal<K, V>) -> bool {
        &&& self.keys@ == other.keys@
        &&& self.children@ == other.children@
        &&& self.total_len == other.total_len
    }

    /// Well-formed, but that the child at `weak` may be one short of half full.
    pub open(crate) spec fn wf_but(&self, weak: int) -> bool
        decreases self,
    {
        let n = self.children@.len();
        &&& 1 <= n <= INTERNAL_SIZE
        &&& self.keys@.len() + 1 == n
        &&& forall|j: int|
            0 <= j < n ==> {
                &&& (#[trigger] self.children@[j]).wf()
                &&& !(self.children@[j] is Empty)
                &&& self.children@[j].height() == self.children@[0].height()
                &&& self.children@[j].entries().len() > 0
                &&& (self.children@[j].fill() >= self.children@[j].min_fill() || (j == weak
                    && self.children@[j].fill() + 1 == self.children@[j].min_fill()))
            }
        &&& forall|j: int|
            0 <= j < n - 1 ==> self.keys@[j] == (#[trigger] self.children@[j]).entries().last().0
        &&& ascending(self.parts().flatten())
        &&& self.total_len == self.parts().flatten().len()
    }

    /// Every child is a well-formed node that is at least half full and not
    /// empty, all children are of one height, each separator is the largest
    /// key under the child to its left, the entries ascend, and the count is
    /// their number.
    pub open(crate) spec fn wf(&self) -> bool {
        self.wf_but(-1)
    }

    /// Nodes that hold the same are alike in all that is said of them.
    pub(crate) proof fn lemma_same(&self, other: &NodeInternal<K, V>)
        requires
            self.same_as(other),
        ensures
            self.parts() == other.parts(),
            self.entries() == other.entries(),
            self.height() == other.height(),
            forall|w: int| self.wf_but(w) == other.wf_but(w),
            self.wf() == other.wf(),
            forall|k: K| self.slot(k) == other.slot(k),
            forall|k: K| self.saturated(k) == other.saturated(k),
    {
        assert(self.parts() =~= other.parts());
    }

    /// The separators ascend.
    pub(crate) proof fn lemma_separators(&self, weak: int)
        requires
            self.wf_but(weak),
            total_order::<K>(),
        ensures
            ascending_keys(self.keys@),
    {
        let p = self.parts();
        let e = self.entries();
        let n = p.len() as int;
        assert forall|i: int, j: int| 0 <= i < j < self.keys@.len() implies lt(
            #[trigger] self.keys@[i],
            #[trigger] self.keys@[j],
        ) by {
            lemma_flatten_at(p, i);
            lemma_flatten_at(p, j);
            let oi = p.subrange(0, i).flatten().len() as int;
            let oj = p.subrange(0, j).flatten().len() as int;
            lemma_flatten_prefix_len(p, i);
            assert(p.subrange(0, j).subrange(0, i + 1) =~= p.subrange(0, i + 1));
            lemma_flatten_prefix_len(p.subrange(0, j), i + 1);
            assert(p[i] == self.children@[i].entries());
            assert(p[j] == self.children@[j].entries());
            let a = oi + p[i].len() - 1;
            let b = oj + p[j].len() - 1;
            assert(e[a] == p[i].last());
            assert(e[b] == p[j].last());
            assert(a < b);
            assert(lt(e[a].0, e[b].0));
        }
    }

    /// Where `key` stands or belongs in the node is where it stands or
    /// belongs under the child that the separators choose for it.
    pub(crate) proof fn lemma_locate(&self, key: K, weak: int)
        requires
            self.wf_but(weak),
            total_order::<K>(),
        ensures
            ({
                let i = self.slot(key);
                let m = self.children@[i].entries();
                &&& 0 <= i < self.children@.len()
                &&& i > 0 ==> lt(self.keys@[i - 1], key)
                &&& i < self.children@.len() - 1 ==> !lt(self.keys@[i], key)
                &&& self.parts()[i] == m
                &&& self.entries() == self.head(i) + m + self.tail(i)
                &&& ascending(self.head(i))
                &&& ascending(m)
                &&& ascending(self.tail(i))
                &&& rank(self.head(i), key) == self.head(i).len()
                &&& rank(self.tail(i), key) == 0
                &&& !has_key(self.head(i), key)
                &&& !has_key(self.tail(i), key)
                &&& rank(self.entries(), key) == self.head(i).len() + rank(m, key)
                &&& has_key(self.entries(), key) == has_key(m, key)
                &&& lookup(self.entries(), key) == lookup(m, key)
                &&& i < self.children@.len() - 1 ==> self.tail(i).len() > 0
            }),
    {
        let i = self.slot(key);
        let p = self.parts();
        let e = self.entries();
        let n = p.len() as int;
        self.lemma_separators(weak);
        lemma_below_cut(self.keys@, key);
        if i > 0 {
            assert(lt(self.keys@[i - 1], key));
        }
        if i < n - 1 {
            assert(!lt(self.keys@[i], key));
        }
        let a = self.head(i);
        let m = p[i];
        let b = self.tail(i);
        assert(m == self.children@[i].entries());
        lemma_flatten_at(p, i);
        lemma_ascending_parts(a + m, b);
        lemma_ascending_parts(a, m);
        assert forall|j: int| 0 <= j < p.len() implies (#[trigger] p[j]).len() > 0 by {
            assert(p[j] == self.children@[j].entries());
        }
        if i > 0 {
            let pa = p.subrange(0, i);
            lemma_flatten_ends(pa);
            assert(pa.last() == p[i - 1]);
            assert(p[i - 1] == self.children@[i - 1].entries());
            assert(a.last().0 == self.keys@[i - 1]);
        } else {
            assert(p.subrange(0, 0) =~= Seq::<Seq<(K, V)>>::empty());
            lemma_flatten_one(m);
        }
        lemma_all_below(a, key);
        if i < n - 1 {
            let pb = p.subrange(i + 1, n);
            lemma_flatten_ends(pb);
            assert(pb[0] == p[i + 1]);
            assert((a + m).last() == m.last());
            assert(m.last().0 == self.keys@[i]);
            lemma_lt_trichotomy(m.last().0, key);
            if lt(key, m.last().0) {
                lemma_lt_transitive(key, m.last().0, b[0].0);
            }
        } else {
            assert(p.subrange(n, n) =~= Seq::<Seq<(K, V)>>::empty());
            lemma_flatten_one(m);
        }
        lemma_all_above(b, key);
        lemma_rank_concat(a + m, b, key);
        lemma_rank_concat(a, m, key);
        lemma_has_key_concat(a + m, b, key);
        lemma_has_key_concat(a, m, key);
        if has_key(m, key) {
            let q = position(m, key);
            lemma_at(m, q);
            assert(e[a.len() + q] == m[q]);
            lemma_at(e, a.len() + q);
        }
    }

    /// A node without separators or children, to be filled.
    pub fn new_empty() -> (r: NodeInternal<K, V>)
        ensures
            r.separators() == Seq::<K>::empty(),
            r.links() == Seq::<Node<K, V>>::empty(),
            r.entries() == Seq::<(K, V)>::empty(),
            r.count() == 0,
    {
        let r = NodeInternal {
            keys: Vec::with_capacity(INTERNAL_SIZE - 1),
            children: Vec::with_capacity(INTERNAL_SIZE),
            total_len: 0,
        };
        proof {
            assert(r.parts() =~= Seq::<Seq<(K, V)>>::empty());
            lemma_flatten_one(r.entries());
        }
        r
    }

    /// The number of entries below the node.
    pub fn len(&self) -> (r: usize)
        requires
            self.wf(),
        ensures
            r == self.entries().len(),
    {
        self.total_len
    }

    /// `after` is `self` but for the value under `key`, which stands under
    /// the child that the separators choose for it.
    pub open(crate) spec fn value_written(&self, after: &NodeInternal<K, V>, key: K) -> bool {
        let i = self.slot(key);
        let m = self.children@[i].entries();
        let q = rank(m, key);
        let c = after.children@[i];
        &&& after.children@ == self.children@.update(i, c)
        &&& after.keys@ == self.keys@
        &&& after.total_len == self.total_len
        &&& c.wf()
        &&& !(c is Empty)
        &&& c.height() == self.children@[i].height()
        &&& c.fill() == self.children@[i].fill()
        &&& has_key(m, key) ==> c.entries() == m.update(q, (key, c.entries()[q].1))
        &&& !has_key(m, key) ==> c.entries() == m
    }

    /// A node of which only a value has been written to is well-formed as
    /// it was, and holds what it held but for that value.
    pub(crate) proof fn lemma_value_written(&self, after: &NodeInternal<K, V>, key: K)
        requires
            self.wf(),
            total_order::<K>(),
            self.value_written(after, key),
        ensures
            after.wf(),
            after.height() == self.height(),
            after.used() == self.used(),
            has_key(self.entries(), key) ==> after.entries() == self.entries().update(
                rank(self.entries(), key),
                (key, after.children@[self.slot(key)].entries()[rank(
                    self.children@[self.slot(key)].entries(),
                    key,
                )].1),
            ),
            !has_key(self.entries(), key) ==> after.entries() == self.entries(),
    {
        let i = self.slot(key);
        self.lemma_locate(key, -1);
        let e = self.entries();
        let a = self.head(i);
        let m = self.children@[i].entries();
        let b = self.tail(i);
        let q = rank(m, key);
        let m2 = after.children@[i].entries();
        if has_key(m, key) {
            let x = m2[q].1;
            lemma_present(m, key);
            lemma_update(e, key, x);
            assert(a + m2 + b =~= e.update(a.len() + q, (key, x)));
        } else {
            assert(a + m2 + b =~= e);
        }
        after.lemma_replace_child(self, i, -1);
    }

    /// Write access to the value under `key`.
    pub fn find_mut(&mut self, key: &K) -> (r: Option<&mut V>)
        requires
            old(self).wf(),
            lawful::<K, V>(),
        ensures
            match r {
                Some(v) => {
                    let p = rank(old(self).entries(), *key);
                    &&& has_key(old(self).entries(), *key)
                    &&& 0 <= p < old(self).entries().len()
                    &&& *v == old(self).entries()[p].1
                    &&& final(self).entries() == old(self).entries().update(p, (*key, *final(v)))
                },
                None => !has_key(old(self).entries(), *key) && final(self).entries() == old(
                    self,
                ).entries(),
            },
            final(self).wf(),
            final(self).height() == old(self).height(),
            final(self).used() == old(self).used(),
        decreases old(self).height(), 1nat,
    {
        let ghost before = *self;
        proof {
            before.lemma_locate(*key, -1);
            lemma_present(before.entries(), *key);
            lemma_present(before.children@[before.slot(*key)].entries(), *key);
            assert forall|after: NodeInternal<K, V>|
                #![trigger after.wf()]
                #![trigger after.entries()]
                before.value_written(&after, *key) implies {
                &&& after.wf()
                &&& after.height() == before.height()
                &&& after.used() == before.used()
                &&& has_key(before.entries(), *key) ==> after.entries() == before.entries().update(
                    rank(before.entries(), *key),
                    (*key, after.children@[before.slot(*key)].entries()[rank(
                        before.children@[before.slot(*key)].entries(),
                        *key,
                    )].1),
                )
                &&& !has_key(before.entries(), *key) ==> after.entries() == before.entries()
            } by {
                before.lemma_value_written(&after, *key);
            }
        }
        let idx = self.search(key);
        self.children[idx].find_mut(key)
    }

    /// The fill of each child.
    pub open(crate) spec fn fills(&self) -> Seq<nat> {
        Seq::new(self.children@.len(), |j: int| self.children@[j].fill())
    }

    /// There is a child at `j`, and it is more than half full: it has one
    /// to spare for a neighbour.
    pub open(crate) spec fn spare(&self, j: int) -> bool {
        &&& 0 <= j < self.children@.len()
        &&& self.children@[j].fill() > self.children@[j].min_fill()
    }

    /// `after` is what mending the child at `idx` makes of this node. Where
    /// the right neighbour has one to spare, its first entry or child has
    /// gone over to the end of the child. Else, where the left neighbour has
    /// one to spare, its last entry or child has gone over to the front of
    /// the child. Else the child and a neighbour, the right one if there is
    /// one, have become one child. No other child has changed.
    #[verifier::opaque]
    pub open(crate) spec fn redistributed(&self, after: &NodeInternal<K, V>, idx: int) -> bool {
        let p = self.parts();
        let f = self.fills();
        if self.spare(idx + 1) {
            let moved = self.children@[idx + 1].first_part();
            &&& after.parts() == p.update(idx, p[idx] + moved).update(
                idx + 1,
                p[idx + 1].skip(moved.len() as int),
            )
            &&& after.fills() == f.update(idx, f[idx] + 1).update(idx + 1, (f[idx + 1] - 1) as nat)
        } else if self.spare(idx - 1) {
            let moved = self.children@[idx - 1].last_part();
            &&& after.parts() == p.update(
                idx - 1,
                p[idx - 1].take(p[idx - 1].len() - moved.len()),
            ).update(idx, moved + p[idx])
            &&& after.fills() == f.update(idx - 1, (f[idx - 1] - 1) as nat).update(idx, f[idx] + 1)
        } else {
            let at = if idx + 1 < self.children@.len() {
                idx
            } else {
                idx - 1
            };
            &&& after.parts() == p.update(at, p[at] + p[at + 1]).remove(at + 1)
            &&& after.fills() == f.update(at, f[at] + f[at + 1]).remove(at + 1)
        }
    }

    /// `mid` is this node after the entry of `key` has been taken out from
    /// under the child that the separators choose, before that child is
    /// seen to: no other child has changed.
    pub open(crate) spec fn child_popped(&self, mid: &NodeInternal<K, V>, key: K) -> bool {
        let i = self.slot(key);
        let m = self.children@[i].entries();
        &&& mid.children@.len() == self.children@.len()
        &&& forall|j: int|
            0 <= j < self.children@.len() && j != i ==> mid.children@[j] == self.children@[j]
        &&& mid.children@[i].entries() == if has_key(m, key) {
            m.remove(rank(m, key))
        } else {
            m
        }
        &&& mid.children@[i].min_fill() == self.children@[i].min_fill()
        &&& mid.children@[i].fill() <= self.children@[i].fill() <= mid.children@[i].fill() + 1
    }

    /// `after` is this node once the child at `i` has been seen to: as it
    /// was where that child is at least half full, else with that child mended.
    pub open(crate) spec fn mended(&self, after: &NodeInternal<K, V>, i: int) -> bool {
        if self.children@[i].half_full() {
            after.children@ == self.children@
        } else {
            self.redistributed(after, i)
        }
    }

    /// `after` is this node after a neighbour of the child at `idx`, the one
    /// at `other`, was asked for one and had none to spare: the children
    /// hold what they held, and the child at `idx` is still short.
    pub open(crate) spec fn unmended(
        &self,
        after: &NodeInternal<K, V>,
        idx: int,
        other: int,
    ) -> bool {
        &&& after.wf_but(idx)
        &&& !after.children@[idx].half_full()
        &&& after.parts() == self.parts()
        &&& after.fills() == self.fills()
        &&& after.children@.len() == self.children@.len()
        &&& forall|j: int| 0 <= j < self.children@.len() ==> after.spare(j) == self.spare(j)
        &&& forall|j: int|
            0 <= j < self.children@.len() && j != idx && j != other ==> after.children@[j]
                == self.children@[j]
    }

    /// Whether an insertion of `key` finds the child that it goes to
    /// saturated: one if so, else zero.
    pub open(crate) spec fn pending(&self, key: K) -> nat {
        let i = self.slot(key);
        if 0 <= i < self.children@.len() && self.children@[i].saturated(key) {
            1
        } else {
            0
        }
    }

    /// The node that comes of a well-formed one when the child at `i` gives
    /// way to another of the same height is well-formed too, if what the
    /// node says of that child holds of the new one.
    pub(crate) proof fn lemma_replace_child(&self, before: &NodeInternal<K, V>, i: int, weak: int)
        requires
            before.wf(),
            0 <= i < before.children@.len(),
            self.children@ == before.children@.update(i, self.children@[i]),
            self.keys@.len() == before.keys@.len(),
            forall|j: int| 0 <= j < self.keys@.len() && j != i ==> self.keys@[j] == before.keys@[j],
            self.children@[i].wf(),
            !(self.children@[i] is Empty),
            self.children@[i].height() == before.children@[i].height(),
            self.children@[i].entries().len() > 0,
            self.children@[i].fill() >= self.children@[i].min_fill() || (i == weak
                && self.children@[i].fill() + 1 == self.children@[i].min_fill()),
            i < before.children@.len() - 1 ==> self.keys@[i]
                == self.children@[i].entries().last().0,
            ascending(before.head(i) + self.children@[i].entries() + before.tail(i)),
            self.total_len == (before.head(i) + self.children@[i].entries() + before.tail(i)).len(),
        ensures
            self.wf_but(weak),
            self.entries() == before.head(i) + self.children@[i].entries() + before.tail(i),
            self.height() == before.height(),
            self.used() == before.used(),
    {
        let p = before.parts();
        let q = self.parts();
        let n = p.len() as int;
        assert(q =~= p.update(i, self.children@[i].entries()));
        lemma_flatten_at(q, i);
        assert(q.subrange(0, i) =~= p.subrange(0, i));
        assert(q.subrange(i + 1, n) =~= p.subrange(i + 1, n));
        assert forall|j: int| 0 <= j < n implies {
            &&& (#[trigger] self.children@[j]).wf()
            &&& !(self.children@[j] is Empty)
            &&& self.children@[j].height() == self.children@[0].height()
            &&& self.children@[j].entries().len() > 0
            &&& (self.children@[j].fill() >= self.children@[j].min_fill() || (j == weak
                && self.children@[j].fill() + 1 == self.children@[j].min_fill()))
        } by {
            if j != i {
                assert(self.children@[j] == before.children@[j]);
            }
            assert(before.children@[i].height() == before.children@[0].height());
            if i != 0 {
                assert(self.children@[0] == before.children@[0]);
            }
        }
        assert forall|j: int| 0 <= j < n - 1 implies self.keys@[j] == (
        #[trigger] self.children@[j]).entries().last().0 by {
            if j != i {
                assert(self.children@[j] == before.children@[j]);
            }
        }
    }

    /// Where one child gives way to another, the children before it and
    /// after it are as they were.
    pub(crate) proof fn lemma_others_kept(&self, after: &NodeInternal<K, V>, i: int)
        requires
            0 <= i < self.children@.len(),
            after.children@ == self.children@.update(i, after.children@[i]),
        ensures
            after.children@.subrange(0, i) == self.children@.subrange(0, i),
            after.children@.subrange(i + 1, after.children@.len() as int)
                == self.children@.subrange(i + 1, self.children@.len() as int),
    {
        assert(after.children@.subrange(0, i) =~= self.children@.subrange(0, i));
        assert(after.children@.subrange(i + 1, after.children@.len() as int)
            =~= self.children@.subrange(i + 1, self.children@.len() as int));
    }

    /// Two neighbouring children lie in order, and hold no more than the node.
    pub(crate) proof fn lemma_pair(&self, i: int, weak: int)
        requires
            self.wf_but(weak),
            0 <= i < self.children@.len() - 1,
        ensures
            ascending(self.children@[i].entries() + self.children@[i + 1].entries()),
            self.children@[i].entries().len() + self.children@[i + 1].entries().len()
                <= self.entries().len(),
    {
        let p = self.parts();
        let n = p.len() as int;
        let x = p[i];
        let y = p[i + 1];
        let a = p.subrange(0, i);
        let c = p.subrange(i + 2, n);
        assert(p =~= (a + seq![x, y]) + c);
        vstd::seq_lib::lemma_flatten_concat(a + seq![x, y], c);
        vstd::seq_lib::lemma_flatten_concat(a, seq![x, y]);
        lemma_flatten_two(x, y);
        lemma_ascending_parts(a.flatten() + (x + y), c.flatten());
        lemma_ascending_parts(a.flatten(), x + y);
    }

    /// The node that comes of replacing two neighbouring children by two
    /// that hold the same entries between them is well-formed, if what the
    /// node says of its children holds of the new ones.
    pub(crate) proof fn lemma_replace_pair(
        &self,
        before: &NodeInternal<K, V>,
        i: int,
        was_weak: int,
        weak: int,
    )
        requires
            before.wf_but(was_weak),
            was_weak == i || was_weak == i + 1,
            0 <= i < before.children@.len() - 1,
            self.children@ =~= before.children@.update(i, self.children@[i]).update(
                i + 1,
                self.children@[i + 1],
            ),
            self.keys@.len() == before.keys@.len(),
            forall|j: int| 0 <= j < self.keys@.len() && j != i ==> self.keys@[j] == before.keys@[j],
            self.keys@[i] == self.children@[i].entries().last().0,
            self.total_len == before.total_len,
            self.children@[i].entries() + self.children@[i + 1].entries()
                == before.children@[i].entries() + before.children@[i + 1].entries(),
            self.children@[i].wf(),
            self.children@[i + 1].wf(),
            !(self.children@[i] is Empty),
            !(self.children@[i + 1] is Empty),
            self.children@[i].height() == before.children@[i].height(),
            self.children@[i + 1].height() == before.children@[i].height(),
            self.children@[i].entries().len() > 0,
            self.children@[i + 1].entries().len() > 0,
            self.children@[i].fill() >= self.children@[i].min_fill() || (i == weak
                && self.children@[i].fill() + 1 == self.children@[i].min_fill()),
            self.children@[i + 1].fill() >= self.children@[i + 1].min_fill() || (i + 1 == weak
                && self.children@[i + 1].fill() + 1 == self.children@[i + 1].min_fill()),
        ensures
            self.wf_but(weak),
            self.entries() == before.entries(),
            self.height() == before.height(),
            self.used() == before.used(),
            self.parts() == before.parts().update(i, self.children@[i].entries()).update(
                i + 1,
                self.children@[i + 1].entries(),
            ),
            self.fills() == before.fills().update(i, self.children@[i].fill()).update(
                i + 1,
                self.children@[i + 1].fill(),
            ),
    {
        let p = before.parts();
        let q = self.parts();
        let n = p.len() as int;
        let x = q[i];
        let y = q[i + 1];
        assert(x == self.children@[i].entries());
        assert(y == self.children@[i + 1].entries());
        assert(p[i] == before.children@[i].entries());
        assert(p[i + 1] == before.children@[i + 1].entries());
        assert(q =~= p.update(i, x).update(i + 1, y));
        assert(self.fills() =~= before.fills().update(i, self.children@[i].fill()).update(
            i + 1,
            self.children@[i + 1].fill(),
        ));
        assert(q =~= p.subrange(0, i) + seq![x, y] + p.subrange(i + 2, n));
        assert(p.subrange(i, i + 2) =~= seq![p[i], p[i + 1]]);
        lemma_flatten_two(x, y);
        lemma_flatten_two(p[i], p[i + 1]);
        lemma_flatten_replace(p, q, i, i + 2, seq![x, y]);
        assert forall|j: int| 0 <= j < n implies {
            &&& (#[trigger] self.children@[j]).wf()
            &&& !(self.children@[j] is Empty)
            &&& self.children@[j].height() == self.children@[0].height()
            &&& self.children@[j].entries().len() > 0
            &&& (self.children@[j].fill() >= self.children@[j].min_fill() || (j == weak
                && self.children@[j].fill() + 1 == self.children@[j].min_fill()))
        } by {
            if j != i && j != i + 1 {
                assert(self.children@[j] == before.children@[j]);
            }
            assert(before.children@[i].height() == before.children@[0].height());
            if i != 0 {
                assert(self.children@[0] == before.children@[0]);
            }
        }
        assert forall|j: int| 0 <= j < n - 1 implies self.keys@[j] == (
        #[trigger] self.children@[j]).entries().last().0 by {
            if j != i && j != i + 1 {
                assert(self.children@[j] == before.children@[j]);
            }
            if j == i + 1 {
                assert((x + y).last() == y.last());
                assert((p[i] + p[i + 1]).last() == p[i + 1].last());
                assert(before.keys@[j] == before.children@[j].entries().last().0);
            }
        }
    }

    /// The node that comes of splitting the child at `i` in two is
    /// well-formed and holds what it held.
    pub(crate) proof fn lemma_split_child(&self, before: &NodeInternal<K, V>, i: int)
        requires
            before.wf(),
            before.children@.len() < INTERNAL_SIZE,
            0 <= i < before.children@.len(),
            self.children@ =~= before.children@.update(i, self.children@[i]).insert(
                i + 1,
                self.children@[i + 1],
            ),
            self.keys@ =~= before.keys@.insert(i, self.children@[i].entries().last().0),
            self.total_len == before.total_len,
            self.children@[i].entries() + self.children@[i + 1].entries()
                == before.children@[i].entries(),
            self.children@[i].wf(),
            self.children@[i + 1].wf(),
            !(self.children@[i] is Empty),
            !(self.children@[i + 1] is Empty),
            self.children@[i].height() == before.children@[i].height(),
            self.children@[i + 1].height() == before.children@[i].height(),
            self.children@[i].entries().len() > 0,
            self.children@[i + 1].entries().len() > 0,
            self.children@[i].fill() >= self.children@[i].min_fill(),
            self.children@[i + 1].fill() >= self.children@[i + 1].min_fill(),
        ensures
            self.wf(),
            self.entries() == before.entries(),
            self.height() == before.height(),
            self.used() == before.used() + 1,
    {
        let p = before.parts();
        let q = self.parts();
        let n = p.len() as int;
        let x = q[i];
        let y = q[i + 1];
        assert(x == self.children@[i].entries());
        assert(y == self.children@[i + 1].entries());
        assert(p[i] == before.children@[i].entries());
        assert(q =~= p.subrange(0, i) + seq![x, y] + p.subrange(i + 1, n));
        assert(p.subrange(i, i + 1) =~= seq![p[i]]);
        lemma_flatten_two(x, y);
        lemma_flatten_one(p[i]);
        lemma_flatten_replace(p, q, i, i + 1, seq![x, y]);
        assert forall|j: int| 0 <= j < n + 1 implies {
            &&& (#[trigger] self.children@[j]).wf()
            &&& !(self.children@[j] is Empty)
            &&& self.children@[j].height() == self.children@[0].height()
            &&& self.children@[j].entries().len() > 0
            &&& self.children@[j].fill() >= self.children@[j].min_fill()
        } by {
            if j < i {
                assert(self.children@[j] == before.children@[j]);
            } else if j > i + 1 {
                assert(self.children@[j] == before.children@[j - 1]);
            }
            assert(before.children@[i].height() == before.children@[0].height());
            if i != 0 {
                assert(self.children@[0] == before.children@[0]);
            }
        }
        assert forall|j: int| 0 <= j < n implies self.keys@[j] == (
        #[trigger] self.children@[j]).entries().last().0 by {
            if j < i {
                assert(self.children@[j] == before.children@[j]);
                assert(self.keys@[j] == before.keys@[j]);
            } else if j > i + 1 {
                assert(self.children@[j] == before.children@[j - 1]);
                assert(self.keys@[j] == before.keys@[j - 1]);
            } else if j == i + 1 {
                assert(self.keys@[j] == before.keys@[i]);
                assert((x + y).last() == y.last());
            }
        }
    }

    /// The node that comes of merging the children at `i` and `i + 1` is
    /// well-formed and holds what it held.
    pub(crate) proof fn lemma_merge_children(
        &self,
        before: &NodeInternal<K, V>,
        i: int,
        was_weak: int,
    )
        requires
            before.wf_but(was_weak),
            was_weak == i || was_weak == i + 1,
            0 <= i < before.children@.len() - 1,
            self.children@ =~= before.children@.update(i, self.children@[i]).remove(i + 1),
            self.keys@ =~= before.keys@.remove(i),
            self.total_len == before.total_len,
            self.children@[i].entries() == before.children@[i].entries() + before.children@[i
                + 1].entries(),
            self.children@[i].wf(),
            !(self.children@[i] is Empty),
            self.children@[i].height() == before.children@[i].height(),
            self.children@[i].fill() >= self.children@[i].min_fill(),
        ensures
            self.wf(),
            self.entries() == before.entries(),
            self.height() == before.height(),
            self.used() + 1 == before.used(),
            self.parts() == before.parts().update(
                i,
                before.parts()[i] + before.parts()[i + 1],
            ).remove(i + 1),
            self.fills() == before.fills().update(i, self.children@[i].fill()).remove(i + 1),
    {
        let p = before.parts();
        let q = self.parts();
        let n = p.len() as int;
        let x = q[i];
        assert(x == self.children@[i].entries());
        assert(q =~= p.update(i, p[i] + p[i + 1]).remove(i + 1));
        assert(self.fills() =~= before.fills().update(i, self.children@[i].fill()).remove(i + 1));
        assert(p[i] == before.children@[i].entries());
        assert(p[i + 1] == before.children@[i + 1].entries());
        assert(q =~= p.subrange(0, i) + seq![x] + p.subrange(i + 2, n));
        assert(p.subrange(i, i + 2) =~= seq![p[i], p[i + 1]]);
        lemma_flatten_one(x);
        lemma_flatten_two(p[i], p[i + 1]);
        lemma_flatten_replace(p, q, i, i + 2, seq![x]);
        assert forall|j: int| 0 <= j < n - 1 implies {
            &&& (#[trigger] self.children@[j]).wf()
            &&& !(self.children@[j] is Empty)
            &&& self.children@[j].height() == self.children@[0].height()
            &&& self.children@[j].entries().len() > 0
            &&& self.children@[j].fill() >= self.children@[j].min_fill()
        } by {
            if j < i {
                assert(self.children@[j] == before.children@[j]);
            } else if j > i {
                assert(self.children@[j] == before.children@[j + 1]);
            }
            assert(before.children@[i].height() == before.children@[0].height());
            if i != 0 {
                assert(self.children@[0] == before.children@[0]);
            }
        }
        assert forall|j: int| 0 <= j < n - 2 implies self.keys@[j] == (
        #[trigger] self.children@[j]).entries().last().0 by {
            if j < i {
                assert(self.children@[j] == before.children@[j]);
                assert(self.keys@[j] == before.keys@[j]);
            } else if j > i {
                assert(self.children@[j] == before.children@[j + 1]);
                assert(self.keys@[j] == before.keys@[j + 1]);
            } else {
                assert(self.keys@[j] == before.keys@[i + 1]);
                assert((p[i] + p[i + 1]).last() == p[i + 1].last());
                assert(before.keys@[i + 1] == before.children@[i + 1].entries().last().0);
            }
        }
    }

    /// The node that comes of an insertion under the child that the
    /// separators choose, which did not split that child, is well-formed,
    /// and the insertion has come to the same for the node as for the child.
    pub(crate) proof fn lemma_child_inserted(
        &self,
        before: &NodeInternal<K, V>,
        key: K,
        value: V,
        res: InsertAction<K, V>,
    )
        requires
            before.wf(),
            total_order::<K>(),
            0 <= before.slot(key) < before.children@.len(),
            self.children@ == before.children@.update(
                before.slot(key),
                self.children@[before.slot(key)],
            ),
            self.keys@ == before.keys@,
            self.children@[before.slot(key)].wf(),
            !(self.children@[before.slot(key)] is Empty),
            self.children@[before.slot(key)].height() == before.children@[before.slot(
                key,
            )].height(),
            self.children@[before.slot(key)].fill() >= before.children@[before.slot(key)].fill(),
            inserted(
                before.children@[before.slot(key)].entries(),
                self.children@[before.slot(key)].entries(),
                key,
                value,
                res,
            ),
            self.total_len == before.total_len + if res is Split || res == InsertAction::<
                K,
                V,
            >::InsertDone(true) {
                0int
            } else {
                1int
            },
        ensures
            self.wf(),
            self.height() == before.height(),
            self.used() == before.used(),
            res is InsertUpdateLeft ==> before.slot(key) == before.children@.len() - 1,
            inserted(before.entries(), self.entries(), key, value, res),
            self.children@.subrange(0, before.slot(key)) == before.children@.subrange(
                0,
                before.slot(key),
            ),
            self.children@.subrange(before.slot(key) + 1, self.children@.len() as int)
                == before.children@.subrange(before.slot(key) + 1, before.children@.len() as int),
    {
        before.lemma_locate(key, -1);
        let i = before.slot(key);
        let e = before.entries();
        let a = before.head(i);
        let m = before.children@[i].entries();
        let b = before.tail(i);
        let q = rank(m, key);
        let m2 = self.children@[i].entries();
        lemma_rank_cut(m, key);
        match res {
            InsertAction::InsertDone(true) => {
                lemma_update(e, key, value);
                assert(a + m2 + b =~= e.update(a.len() + q, (key, value)));
            },
            InsertAction::Split(_, _) => {
                assert(a + m2 + b =~= e);
            },
            _ => {
                lemma_insert(e, key, value);
                assert(a + m2 + b =~= e.insert(a.len() + q, (key, value)));
            },
        }
        self.lemma_replace_child(before, i, -1);
        before.lemma_others_kept(self, i);
    }

    /// Splits the full child at `idx` in two, which take its place, with the
    /// largest key of the first as the separator between them.
    pub(crate) fn split_child(&mut self, idx: usize)
        requires
            old(self).wf(),
            old(self).used() < INTERNAL_SIZE,
            idx < old(self).used(),
            old(self).links()[idx as int].fill() == old(self).links()[idx as int].max_fill(),
            lawful::<K, V>(),
        ensures
            final(self).wf(),
            final(self).entries() == old(self).entries(),
            final(self).height() == old(self).height(),
            final(self).used() == old(self).used() + 1,
            final(self).separators() == old(self).separators().insert(
                idx as int,
                final(self).separators()[idx as int],
            ),
            forall|j: int| 0 <= j < idx ==> final(self).links()[j] == old(self).links()[j],
            forall|j: int|
                idx + 2 <= j < final(self).links().len() ==> final(self).links()[j] == old(
                    self,
                ).links()[j - 1],
            final(self).links()[idx as int].entries() + final(self).links()[idx
                + 1].entries() == old(self).links()[idx as int].entries(),
            final(self).links()[idx as int].fill() < final(self).links()[idx as int].max_fill(),
            final(self).links()[idx + 1].fill() < final(self).links()[idx + 1].max_fill(),
    {
        let ghost before = *self;
        let (right, split_key) = self.children[idx].split();
        self.keys.insert(idx, split_key);
        self.children.insert(idx + 1, right);
        proof {
            self.lemma_split_child(&before, idx as int);
            assert(self.keys@ =~= before.keys@.insert(idx as int, self.keys@[idx as int]));
        }
    }

    /// Puts the entry in under the child that the separators choose. Where
    /// that child is full and this node is not, the child is split and the
    /// entry put in again.
    pub fn insert(&mut self, key: K, value: V) -> (r: InsertAction<K, V>)
        requires
            old(self).wf(),
            lawful::<K, V>(),
            old(self).entries().len() < usize::MAX,
        ensures
            final(self).wf(),
            final(self).height() == old(self).height(),
            final(self).used() == old(self).used() + if old(self).pending(key) == 1 && old(
                self,
            ).used() < INTERNAL_SIZE {
                1nat
            } else {
                0nat
            },
            r is Split <==> old(self).saturated(key),
            inserted(old(self).entries(), final(self).entries(), key, value, r),
            final(self).links().subrange(0, old(self).slot(key)) == old(self).links().subrange(
                0,
                old(self).slot(key),
            ),
            final(self).links().subrange(
                old(self).slot(key) + 1 + (final(self).used() - old(self).used()),
                final(self).used() as int,
            ) == old(self).links().subrange(old(self).slot(key) + 1, old(self).used() as int),
        decreases old(self).height(), old(self).pending(key),
    {
        let ghost before = *self;
        proof {
            before.lemma_locate(key, -1);
        }
        let idx = self.search(&key);
        let n = self.children.len();
        let res = self.children[idx].insert(key, value);
        match res {
            InsertAction::InsertDone(updated) => {
                if !updated {
                    self.total_len = self.total_len + 1;
                }
                proof {
                    self.lemma_child_inserted(
                        &before,
                        key,
                        value,
                        InsertAction::InsertDone(updated),
                    );
                }
                InsertAction::InsertDone(updated)
            },
            InsertAction::Split(key2, value2) => {
                proof {
                    self.lemma_child_inserted(&before, key, value, InsertAction::Split(key2, value2));
                }
                if n == INTERNAL_SIZE {
                    InsertAction::Split(key2, value2)
                } else {
                    let ghost mid = *self;
                    self.split_child(idx);
                    proof {
                        lemma_below_insert(mid.keys@, idx as int, self.keys@[idx as int], key);
                        assert(self.slot(key) == idx || self.slot(key) == idx + 1);
                        assert(!self.children@[idx as int].saturated(key));
                        assert(!self.children@[idx + 1].saturated(key));
                    }
                    let ghost halved = *self;
                    let res = self.insert(key2, value2);
                    proof {
                        lemma_grown_around(
                            before.children@,
                            halved.children@,
                            self.children@,
                            idx as int,
                            halved.slot(key),
                        );
                    }
                    res
                }
            },
            InsertAction::InsertUpdateLeft(left) => {
                self.total_len = self.total_len + 1;
                proof {
                    self.lemma_child_inserted(
                        &before,
                        key,
                        value,
                        InsertAction::InsertUpdateLeft(left),
                    );
                }
                if idx + 1 != n {
                    // the separator follows the child's largest key
                    self.keys[idx] = left;
                    InsertAction::InsertDone(false)
                } else {
                    InsertAction::InsertUpdateLeft(left)
                }
            },
        }
    }

    /// Moves one entry or child from the right neighbour of the child at
    /// `idx` over to that child, if the neighbour has one to spare.
    pub(crate) fn take_right(&mut self, idx: usize) -> (moved: bool)
        requires
            old(self).wf_but(idx as int),
            idx + 1 < old(self).used(),
            !old(self).links()[idx as int].half_full(),
            lawful::<K, V>(),
        ensures
            moved == old(self).spare(idx + 1),
            final(self).entries() == old(self).entries(),
            final(self).height() == old(self).height(),
            final(self).used() == old(self).used(),
            moved ==> final(self).wf() && old(self).redistributed(final(self), idx as int),
            !moved ==> old(self).unmended(final(self), idx as int, idx + 1),
    {
        let ghost before = *self;
        let ghost p = self.parts();
        let ghost f = self.fills();
        proof {
            before.lemma_pair(idx as int, idx as int);
        }
        let mut right = Node::Empty;
        std::mem::swap(&mut right, &mut self.children[idx + 1]);
        let moved = self.children[idx].rotate_left(&mut right);
        std::mem::swap(&mut right, &mut self.children[idx + 1]);
        if moved {
            let key = self.children[idx].max_key();
            self.keys[idx] = key;
            proof {
                self.lemma_replace_pair(&before, idx as int, idx as int, -1);
                reveal(NodeInternal::redistributed);
            }
        } else {
            proof {
                self.lemma_replace_pair(&before, idx as int, idx as int, idx as int);
                assert(self.parts() =~= p);
                assert(self.fills() =~= f);
                assert forall|j: int| 0 <= j < before.children@.len() implies self.spare(j)
                    == before.spare(j) by {
                    if j != idx && j != idx + 1 {
                        assert(self.children@[j] == before.children@[j]);
                    }
                }
            }
        }
        moved
    }

    /// Moves one entry or child from the left neighbour of the child at
    /// `idx` over to that child, if the neighbour has one to spare.
    pub(crate) fn take_left(&mut self, idx: usize) -> (moved: bool)
        requires
            old(self).wf_but(idx as int),
            0 < idx < old(self).used(),
            !old(self).spare(idx + 1),
            !old(self).links()[idx as int].half_full(),
            lawful::<K, V>(),
        ensures
            moved == old(self).spare(idx - 1),
            final(self).entries() == old(self).entries(),
            final(self).height() == old(self).height(),
            final(self).used() == old(self).used(),
            moved ==> final(self).wf() && old(self).redistributed(final(self), idx as int),
            !moved ==> old(self).unmended(final(self), idx as int, idx - 1),
    {
        let ghost before = *self;
        let ghost p = self.parts();
        let ghost f = self.fills();
        proof {
            before.lemma_pair(idx - 1, idx as int);
        }
        let mut left = Node::Empty;
        std::mem::swap(&mut left, &mut self.children[idx - 1]);
        let moved = self.children[idx].rotate_right(&mut left);
        std::mem::swap(&mut left, &mut self.children[idx - 1]);
        if moved {
            let key = self.children[idx - 1].max_key();
            self.keys[idx - 1] = key;
            proof {
                self.lemma_replace_pair(&before, idx - 1, idx as int, -1);
                reveal(NodeInternal::redistributed);
            }
        } else {
            proof {
                self.lemma_replace_pair(&before, idx - 1, idx as int, idx as int);
                assert(self.parts() =~= p);
                assert(self.fills() =~= f);
                assert forall|j: int| 0 <= j < before.children@.len() implies self.spare(j)
                    == before.spare(j) by {
                    if j != idx && j != idx - 1 {
                        assert(self.children@[j] == before.children@[j]);
                    }
                }
            }
        }
        moved
    }

    /// Makes one child of the children at `at` and `at + 1`, one of which is
    /// one short of half full while the other has none to spare.
    pub(crate) fn merge_pair(&mut self, at: usize, weak: usize)
        requires
            old(self).wf_but(weak as int),
            at + 1 < old(self).used(),
            weak == at || weak == at + 1,
            !old(self).links()[weak as int].half_full(),
            !old(self).spare(at as int),
            !old(self).spare(at + 1),
            lawful::<K, V>(),
        ensures
            final(self).wf(),
            final(self).entries() == old(self).entries(),
            final(self).height() == old(self).height(),
            final(self).used() + 1 == old(self).used(),
            final(self).parts() == old(self).parts().update(
                at as int,
                old(self).parts()[at as int] + old(self).parts()[at + 1],
            ).remove(at + 1),
            final(self).fills() == old(self).fills().update(
                at as int,
                old(self).fills()[at as int] + old(self).fills()[at + 1],
            ).remove(at + 1),
    {
        let ghost before = *self;
        proof {
            before.lemma_pair(at as int, weak as int);
        }
        let child = self.children.remove(at + 1);
        self.children[at].merge(child);
        let _ = self.keys.remove(at);
        proof {
            self.lemma_merge_children(&before, at as int, weak as int);
        }
    }

    /// Brings the child at `idx`, which is one short of half full, back to
    /// half: by a child or entry from its right neighbour, else from its
    /// left neighbour, else by merging it with a neighbour, the right one if
    /// there is one.
    pub fn redist(&mut self, idx: usize)
        requires
            old(self).wf_but(idx as int),
            idx < old(self).used(),
            old(self).used() >= 2,
            !old(self).links()[idx as int].half_full(),
            lawful::<K, V>(),
        ensures
            final(self).wf(),
            final(self).entries() == old(self).entries(),
            final(self).height() == old(self).height(),
            final(self).used() + if old(self).spare(idx + 1) || old(self).spare(idx - 1) {
                0nat
            } else {
                1nat
            } == old(self).used(),
            old(self).redistributed(final(self), idx as int),
    {
        let n = self.children.len();
        if idx + 1 != n {
            if self.take_right(idx) {
                return ;
            }
        }
        if idx != 0 {
            if self.take_left(idx) {
                proof {
                    reveal(NodeInternal::redistributed);
                }
                return ;
            }
        }
        let insert: usize = if idx + 1 != n {
            idx
        } else {
            idx - 1
        };
        self.merge_pair(insert, idx);
        proof {
            reveal(NodeInternal::redistributed);
        }
    }

    /// The node that comes of a removal under the child that the separators
    /// choose is well-formed but for that child, which may be one short,
    /// and the removal has come to the same for the node as for the child;
    /// only the last child hands its new largest key on.
    pub(crate) proof fn lemma_child_removed(
        &self,
        before: &NodeInternal<K, V>,
        key: K,
        repair: Option<K>,
        value: Option<V>,
    )
        requires
            before.wf(),
            total_order::<K>(),
            0 <= before.slot(key) < before.children@.len(),
            self.children@ == before.children@.update(
                before.slot(key),
                self.children@[before.slot(key)],
            ),
            self.keys@.len() == before.keys@.len(),
            forall|j: int|
                0 <= j < self.keys@.len() && j != before.slot(key) ==> self.keys@[j]
                    == before.keys@[j],
            before.slot(key) < before.keys@.len() ==> self.keys@[before.slot(key)] == (match repair {
                Some(k) => k,
                None => before.keys@[before.slot(key)],
            }),
            self.children@[before.slot(key)].wf(),
            !(self.children@[before.slot(key)] is Empty),
            self.children@[before.slot(key)].height() == before.children@[before.slot(
                key,
            )].height(),
            self.children@[before.slot(key)].min_fill() == before.children@[before.slot(
                key,
            )].min_fill(),
            self.children@[before.slot(key)].fill() <= before.children@[before.slot(key)].fill()
                <= self.children@[before.slot(key)].fill() + 1,
            removed(
                before.children@[before.slot(key)].entries(),
                self.children@[before.slot(key)].entries(),
                key,
                repair,
                value,
            ),
            self.total_len + if value is Some {
                1int
            } else {
                0int
            } == before.total_len,
        ensures
            self.wf_but(before.slot(key)),
            self.height() == before.height(),
            self.used() == before.used(),
            removed(
                before.entries(),
                self.entries(),
                key,
                if before.slot(key) + 1 == before.children@.len() {
                    repair
                } else {
                    None
                },
                value,
            ),
            before.child_popped(self, key),
    {
        before.lemma_locate(key, -1);
        let i = before.slot(key);
        let n = before.children@.len() as int;
        before.children@[i].lemma_entries_ge_fill();
        let e = before.entries();
        let a = before.head(i);
        let m = before.children@[i].entries();
        let b = before.tail(i);
        let q = rank(m, key);
        let m2 = self.children@[i].entries();
        let after = a + m2 + b;
        assert(m.len() >= 2);
        if has_key(m, key) {
            lemma_present(m, key);
            lemma_remove(e, a.len() + q);
            assert(m2 == m.remove(q));
            assert(after =~= e.remove(a.len() + q));
            assert(e[a.len() + q] == m[q]);
            if q > 0 {
                assert(e[a.len() + q - 1] == m[q - 1]);
            }
            if i < n - 1 {
                assert(b.len() > 0);
                if q == m.len() - 1 {
                    assert(m2.last() == m[q - 1]);
                } else {
                    assert(m2.last() == m.last());
                }
            }
        } else {
            assert(m2 == m);
            assert(after =~= e);
        }
        assert(m2.len() > 0);
        assert(ascending(after));
        assert(self.total_len == after.len());
        assert(i < n - 1 ==> self.keys@[i] == m2.last().0);
        self.lemma_replace_child(before, i, i);
    }

    /// Takes the entry of `key` out from under the child that the
    /// separators choose, and mends that child if it falls below half.
    pub fn pop(&mut self, key: &K) -> (r: (Option<K>, Option<V>, bool))
        requires
            old(self).wf(),
            old(self).used() >= 2,
            lawful::<K, V>(),
        ensures
            final(self).wf(),
            final(self).height() == old(self).height(),
            final(self).used() <= old(self).used() <= final(self).used() + 1,
            r.1 is None ==> final(self).used() == old(self).used(),
            removed(old(self).entries(), final(self).entries(), *key, r.0, r.1),
            r.2 == (final(self).used() < INTERNAL_SIZE / 2),
            exists|mid: NodeInternal<K, V>| #[trigger]
                old(self).child_popped(&mid, *key) && mid.mended(
                    final(self),
                    old(self).slot(*key),
                ),
        decreases old(self).height(), 1nat,
    {
        let ghost before = *self;
        proof {
            before.lemma_locate(*key, -1);
        }
        let idx = self.search(key);
        let n = self.children.len();
        let (found, value, needs_merge) = self.children[idx].pop(key);
        let ghost handed = found;
        let repair = if idx + 1 != n {
            if let Some(k) = found {
                self.keys[idx] = k;
            }
            None
        } else {
            found
        };
        if value.is_some() {
            self.total_len = self.total_len - 1;
        }
        let ghost mid = *self;
        proof {
            self.lemma_child_removed(&before, *key, handed, value);
        }
        if needs_merge {
            self.redist(idx);
        }
        proof {
            assert(mid.mended(self, idx as int));
        }
        (repair, value, self.children.len() < INTERNAL_SIZE / 2)
    }

    /// A node above two children, with `key` as the separator between them.
    /// The node is well-formed where the children are at least half full,
    /// of one height and in order, and `key` is the largest key of the left
    /// one.
    pub fn new(key: K, left: Node<K, V>, right: Node<K, V>) -> (r: NodeInternal<K, V>)
        requires
            left.wf(),
            right.wf(),
            left.entries().len() + right.entries().len() <= usize::MAX,
        ensures
            r.separators() == seq![key],
            r.links() == seq![left, right],
            r.count() == left.entries().len() + right.entries().len(),
            r.entries() == left.entries() + right.entries(),
            r.used() == 2,
            r.height() == left.height() + 1,
            ({
                &&& left.half_full()
                &&& right.half_full()
                &&& left.height() == right.height()
                &&& left.entries().len() > 0
                &&& right.entries().len() > 0
                &&& key == left.entries().last().0
                &&& ascending(left.entries() + right.entries())
            }) ==> r.wf(),
    {
        let mut node = NodeInternal::<K, V>::new_empty();
        node.total_len = right.len() + left.len();
        node.keys.push(key);
        node.children.push(left);
        node.children.push(right);
        proof {
            assert(node.parts() =~= seq![left.entries(), right.entries()]);
            lemma_flatten_two(left.entries(), right.entries());
            assert(node.keys@ =~= seq![key]);
            assert(node.children@ =~= seq![left, right]);
        }
        node
    }

    /// Moves the upper half of the children of a full node into a new node,
    /// and gives that node with the separator between the two halves, which
    /// is the largest key that stays behind.
    pub fn split(&mut self) -> (r: (NodeInternal<K, V>, K))
        requires
            old(self).wf(),
            old(self).used() == INTERNAL_SIZE,
        ensures
            final(self).wf(),
            r.0.wf(),
            final(self).entries() + r.0.entries() == old(self).entries(),
            final(self).used() == INTERNAL_SIZE / 2,
            r.0.used() == INTERNAL_SIZE - INTERNAL_SIZE / 2,
            final(self).height() == old(self).height(),
            r.0.height() == old(self).height(),
            r.1 == final(self).entries().last().0,
            final(self).links() == old(self).links().subrange(0, (INTERNAL_SIZE / 2) as int),
            r.0.links() == old(self).links().subrange(
                (INTERNAL_SIZE / 2) as int,
                INTERNAL_SIZE as int,
            ),
            final(self).separators() == old(self).separators().subrange(
                0,
                INTERNAL_SIZE / 2 - 1,
            ),
            r.0.separators() == old(self).separators().subrange(
                (INTERNAL_SIZE / 2) as int,
                INTERNAL_SIZE - 1,
            ),
            r.1 == old(self).separators()[INTERNAL_SIZE / 2 - 1],
    {
        let ghost before = *self;
        let ghost p = self.parts();
        let half: usize = INTERNAL_SIZE / 2;
        let children = self.children.split_off(half);
        let keys = self.keys.split_off(half);
        let key = self.keys.remove(half - 1);
        let mut right = NodeInternal { keys, children, total_len: 0 };
        let ghost pl = p.subrange(0, half as int);
        let ghost pr = p.subrange(half as int, p.len() as int);
        proof {
            assert(self.parts() =~= pl);
            assert(right.parts() =~= pr);
            assert(p =~= pl + pr);
            vstd::seq_lib::lemma_flatten_concat(pl, pr);
            lemma_ascending_parts(pl.flatten(), pr.flatten());
            assert forall|j: int| 0 <= j < pl.len() implies (#[trigger] pl[j]).len() > 0 by {
                assert(pl[j] == before.children@[j].entries());
            }
            lemma_flatten_ends(pl);
            assert(pl.last() == before.children@[half - 1].entries());
            lemma_flatten_prefix_len(pr, pr.len() as int);
            assert(pr.subrange(0, pr.len() as int) =~= pr);
        }
        let mut moved: usize = 0;
        let mut i: usize = 0;
        while i < right.children.len()
            invariant
                i <= right.children@.len(),
                right.children@ == before.children@.subrange(half as int, INTERNAL_SIZE as int),
                before.wf(),
                before.children@.len() == INTERNAL_SIZE,
                half == INTERNAL_SIZE / 2,
                pr == right.parts(),
                moved == pr.subrange(0, i as int).flatten().len(),
                pr.flatten().len() <= usize::MAX,
            decreases right.children@.len() - i,
        {
            proof {
                assert(right.children@[i as int] == before.children@[half + i]);
                lemma_flatten_prefix_len(pr, i as int);
                lemma_flatten_prefix_len(pr, i + 1);
            }
            moved = moved + right.children[i].len();
            i = i + 1;
        }
        proof {
            assert(pr.subrange(0, pr.len() as int) =~= pr);
        }
        right.total_len = moved;
        self.total_len = self.total_len - moved;
        proof {
            assert(self.parts() =~= pl);
            assert(right.parts() =~= pr);
            assert forall|j: int| 0 <= j < right.children@.len() implies {
                &&& (#[trigger] right.children@[j]).wf()
                &&& !(right.children@[j] is Empty)
                &&& right.children@[j].height() == right.children@[0].height()
                &&& right.children@[j].entries().len() > 0
                &&& right.children@[j].fill() >= right.children@[j].min_fill()
            } by {
                assert(right.children@[j] == before.children@[half + j]);
                assert(right.children@[0] == before.children@[half + 0]);
            }
            assert forall|j: int| 0 <= j < right.children@.len() - 1 implies right.keys@[j] == (
            #[trigger] right.children@[j]).entries().last().0 by {
                assert(right.children@[j] == before.children@[half + j]);
                assert(right.keys@[j] == before.keys@[half + j]);
            }
            assert forall|j: int| 0 <= j < self.children@.len() implies {
                &&& (#[trigger] self.children@[j]).wf()
                &&& !(self.children@[j] is Empty)
                &&& self.children@[j].height() == self.children@[0].height()
                &&& self.children@[j].entries().len() > 0
                &&& self.children@[j].fill() >= self.children@[j].min_fill()
            } by {
                assert(self.children@[j] == before.children@[j]);
                assert(self.children@[0] == before.children@[0]);
            }
            assert forall|j: int| 0 <= j < self.children@.len() - 1 implies self.keys@[j] == (
            #[trigger] self.children@[j]).entries().last().0 by {
                assert(self.children@[j] == before.children@[j]);
                assert(self.keys@[j] == before.keys@[j]);
            }
        }
        (right, key)
    }

    /// Moves the first child of `src`, the node to the right, to the end of
    /// this node, if `src` is more than half full.
    pub fn rotate_left(&mut self, src: &mut NodeInternal<K, V>) -> (r: bool)
        requires
            old(self).wf(),
            old(src).wf(),
            old(self).used() < INTERNAL_SIZE,
            old(self).height() == old(src).height(),
            ascending(old(self).entries() + old(src).entries()),
            old(self).entries().len() + old(src).entries().len() <= usize::MAX,
            exact_clone::<K>(),
        ensures
            final(self).wf(),
            final(src).wf(),
            final(self).height() == old(self).height(),
            final(src).height() == old(src).height(),
            r == (old(src).used() > INTERNAL_SIZE / 2),
            final(self).entries() + final(src).entries() == old(self).entries() + old(
                src,
            ).entries(),
            final(self).used() == old(self).used() + if r { 1nat } else { 0nat },
            final(src).used() + if r { 1nat } else { 0nat } == old(src).used(),
            !r ==> final(self).entries() == old(self).entries() && final(src).entries() == old(
                src,
            ).entries(),
            !r ==> final(self).links() == old(self).links() && final(src).links() == old(
                src,
            ).links(),
            r ==> {
                &&& final(self).links() == old(self).links().push(old(src).links()[0])
                &&& final(src).links() == old(src).links().remove(0)
                &&& final(self).separators() == old(self).separators().push(
                    old(self).links().last().entries().last().0,
                )
                &&& final(src).separators() == old(src).separators().remove(0)
                &&& final(self).entries() == old(self).entries() + old(src).links()[0].entries()
                &&& final(src).entries() == old(src).entries().skip(
                    old(src).links()[0].entries().len() as int,
                )
            },
    {
        if src.children.len() > INTERNAL_SIZE / 2 {
            let ghost a = *self;
            let ghost b = *src;
            let ghost pa = self.parts();
            let ghost pb = src.parts();
            let sep = self.children[self.children.len() - 1].max_key();
            self.keys.push(sep);
            let child = src.children.remove(0);
            let _ = src.keys.remove(0);
            let size = child.len();
            self.children.push(child);
            proof {
                assert(pb[0] == child.entries());
                lemma_flatten_at(pb, 0);
                assert(pb.subrange(0, 0) =~= Seq::<Seq<(K, V)>>::empty());
                lemma_flatten_one(pb[0]);
                assert(self.parts() =~= pa.push(pb[0]));
                assert(src.parts() =~= pb.subrange(1, pb.len() as int));
                assert(pa.push(pb[0]) =~= pa + seq![pb[0]]);
                vstd::seq_lib::lemma_flatten_concat(pa, seq![pb[0]]);
                assert(self.parts().flatten() + src.parts().flatten() =~= pa.flatten()
                    + pb.flatten());
                lemma_ascending_parts(self.parts().flatten(), src.parts().flatten());
            }
            src.total_len = src.total_len - size;
            self.total_len = self.total_len + size;
            proof {
                assert forall|j: int| 0 <= j < self.children@.len() implies {
                    &&& (#[trigger] self.children@[j]).wf()
                    &&& !(self.children@[j] is Empty)
                    &&& self.children@[j].height() == self.children@[0].height()
                    &&& self.children@[j].entries().len() > 0
                    &&& self.children@[j].fill() >= self.children@[j].min_fill()
                } by {
                    if j < a.children@.len() {
                        assert(self.children@[j] == a.children@[j]);
                    } else {
                        assert(self.children@[j] == b.children@[0]);
                    }
                    assert(self.children@[0] == a.children@[0]);
                }
                assert forall|j: int| 0 <= j < self.children@.len() - 1 implies self.keys@[j] == (
                #[trigger] self.children@[j]).entries().last().0 by {
                    assert(self.children@[j] == a.children@[j]);
                    if j < a.keys@.len() {
                        assert(self.keys@[j] == a.keys@[j]);
                    }
                }
                assert forall|j: int| 0 <= j < src.children@.len() implies {
                    &&& (#[trigger] src.children@[j]).wf()
                    &&& !(src.children@[j] is Empty)
                    &&& src.children@[j].height() == src.children@[0].height()
                    &&& src.children@[j].entries().len() > 0
                    &&& src.children@[j].fill() >= src.children@[j].min_fill()
                } by {
                    assert(src.children@[j] == b.children@[j + 1]);
                    assert(src.children@[0] == b.children@[1]);
                }
                assert forall|j: int| 0 <= j < src.children@.len() - 1 implies src.keys@[j] == (
                #[trigger] src.children@[j]).entries().last().0 by {
                    assert(src.children@[j] == b.children@[j + 1]);
                    assert(src.keys@[j] == b.keys@[j + 1]);
                }
            }
            true
        } else {
            false
        }
    }

    /// Moves the last child of `src`, the node to the left, to the front of
    /// this node, if `src` is more than half full.
    pub fn rotate_right(&mut self, src: &mut NodeInternal<K, V>) -> (r: bool)
        requires
            old(self).wf(),
            old(src).wf(),
            old(self).used() < INTERNAL_SIZE,
            old(self).height() == old(src).height(),
            ascending(old(src).entries() + old(self).entries()),
            old(self).entries().len() + old(src).entries().len() <= usize::MAX,
            exact_clone::<K>(),
        ensures
            final(self).wf(),
            final(src).wf(),
            final(self).height() == old(self).height(),
            final(src).height() == old(src).height(),
            r == (old(src).used() > INTERNAL_SIZE / 2),
            final(src).entries() + final(self).entries() == old(src).entries() + old(
                self,
            ).entries(),
            final(self).used() == old(self).used() + if r { 1nat } else { 0nat },
            final(src).used() + if r { 1nat } else { 0nat } == old(src).used(),
            !r ==> final(self).entries() == old(self).entries() && final(src).entries() == old(
                src,
            ).entries(),
            !r ==> final(self).links() == old(self).links() && final(src).links() == old(
                src,
            ).links(),
            r ==> {
                &&& final(self).links() == old(self).links().insert(0, old(src).links().last())
                &&& final(src).links() == old(src).links().drop_last()
                &&& final(self).separators() == old(self).separators().insert(
                    0,
                    old(src).links().last().entries().last().0,
                )
                &&& final(src).separators() == old(src).separators().drop_last()
                &&& final(self).entries() == old(src).links().last().entries() + old(
                    self,
                ).entries()
                &&& final(src).entries() == old(src).entries().take(
                    old(src).entries().len() - old(src).links().last().entries().len(),
                )
            },
    {
        if src.children.len() > INTERNAL_SIZE / 2 {
            let ghost a = *src;
            let ghost b = *self;
            let ghost pa = src.parts();
            let ghost pb = self.parts();
            let last: usize = src.children.len() - 1;
            let child = src.children.remove(last);
            let _ = src.keys.remove(last - 1);
            let sep = child.max_key();
            self.keys.insert(0, sep);
            let size = child.len();
            self.children.insert(0, child);
            proof {
                assert(pa[last as int] == child.entries());
                lemma_flatten_at(pa, last as int);
                assert(pa.subrange(last + 1, pa.len() as int) =~= Seq::<Seq<(K, V)>>::empty());
                lemma_flatten_one(pa[0]);
                assert(src.parts() =~= pa.subrange(0, last as int));
                assert(self.parts() =~= seq![pa[last as int]] + pb);
                vstd::seq_lib::lemma_flatten_concat(seq![pa[last as int]], pb);
                lemma_flatten_one(pa[last as int]);
                assert(src.parts().flatten() + self.parts().flatten() =~= pa.flatten()
                    + pb.flatten());
                lemma_ascending_parts(src.parts().flatten(), self.parts().flatten());
            }
            src.total_len = src.total_len - size;
            self.total_len = self.total_len + size;
            proof {
                assert forall|j: int| 0 <= j < self.children@.len() implies {
                    &&& (#[trigger] self.children@[j]).wf()
                    &&& !(self.children@[j] is Empty)
                    &&& self.children@[j].height() == self.children@[0].height()
                    &&& self.children@[j].entries().len() > 0
                    &&& self.children@[j].fill() >= self.children@[j].min_fill()
                } by {
                    if j > 0 {
                        assert(self.children@[j] == b.children@[j - 1]);
                    } else {
                        assert(self.children@[j] == a.children@[last as int]);
                    }
                    assert(self.children@[0] == a.children@[last as int]);
                    assert(a.children@[last as int].height() == a.children@[0].height());
                }
                assert forall|j: int| 0 <= j < self.children@.len() - 1 implies self.keys@[j] == (
                #[trigger] self.children@[j]).entries().last().0 by {
                    if j > 0 {
                        assert(self.children@[j] == b.children@[j - 1]);
                        assert(self.keys@[j] == b.keys@[j - 1]);
                    }
                }
                assert forall|j: int| 0 <= j < src.children@.len() implies {
                    &&& (#[trigger] src.children@[j]).wf()
                    &&& !(src.children@[j] is Empty)
                    &&& src.children@[j].height() == src.children@[0].height()
                    &&& src.children@[j].entries().len() > 0
                    &&& src.children@[j].fill() >= src.children@[j].min_fill()
                } by {
                    assert(src.children@[j] == a.children@[j]);
                    assert(src.children@[0] == a.children@[0]);
                }
                assert forall|j: int| 0 <= j < src.children@.len() - 1 implies src.keys@[j] == (
                #[trigger] src.children@[j]).entries().last().0 by {
                    assert(src.children@[j] == a.children@[j]);
                    assert(src.keys@[j] == a.keys@[j]);
                }
            }
            true
        } else {
            false
        }
    }

    /// Appends the children of `src`, the node to the right, which is left
    /// without any.
    pub fn merge(&mut self, src: &mut NodeInternal<K, V>)
        requires
            old(self).wf(),
            old(src).wf(),
            old(self).used() + old(src).used() <= INTERNAL_SIZE,
            old(self).height() == old(src).height(),
            ascending(old(self).entries() + old(src).entries()),
            old(self).entries().len() + old(src).entries().len() <= usize::MAX,
            exact_clone::<K>(),
        ensures
            final(self).wf(),
            final(self).height() == old(self).height(),
            final(self).entries() == old(self).entries() + old(src).entries(),
            final(self).used() == old(self).used() + old(src).used(),
    {
        let ghost a = *self;
        let ghost b = *src;
        let ghost pa = self.parts();
        let ghost pb = src.parts();
        let sep = self.children[self.children.len() - 1].max_key();
        self.keys.push(sep);
        self.keys.append(&mut src.keys);
        self.children.append(&mut src.children);
        self.total_len = self.total_len + src.total_len;
        proof {
            let n = a.children@.len() as int;
            assert(self.parts() =~= pa + pb);
            vstd::seq_lib::lemma_flatten_concat(pa, pb);
            assert forall|j: int| 0 <= j < self.children@.len() implies {
                &&& (#[trigger] self.children@[j]).wf()
                &&& !(self.children@[j] is Empty)
                &&& self.children@[j].height() == self.children@[0].height()
                &&& self.children@[j].entries().len() > 0
                &&& self.children@[j].fill() >= self.children@[j].min_fill()
            } by {
                if j < n {
                    assert(self.children@[j] == a.children@[j]);
                } else {
                    assert(self.children@[j] == b.children@[j - n]);
                    assert(b.children@[j - n].height() == b.children@[0].height());
                }
                assert(self.children@[0] == a.children@[0]);
            }
            assert forall|j: int| 0 <= j < self.children@.len() - 1 implies self.keys@[j] == (
            #[trigger] self.children@[j]).entries().last().0 by {
                if j < n - 1 {
                    assert(self.children@[j] == a.children@[j]);
                    assert(self.keys@[j] == a.keys@[j]);
                } else if j == n - 1 {
                    assert(self.children@[j] == a.children@[j]);
                } else {
                    assert(self.children@[j] == b.children@[j - n]);
                    assert(self.keys@[j] == b.keys@[j - n]);
                }
            }
        }
    }

    /// The largest key below the node.
    pub fn max_key(&self) -> (r: K)
        requires
            self.wf(),
            exact_clone::<K>(),
        ensures
            r == self.entries().last().0,
        decreases self.height(), 0nat,
    {
        proof {
            let p = self.parts();
            assert forall|j: int| 0 <= j < p.len() implies (#[trigger] p[j]).len() > 0 by {
                assert(p[j] == self.children@[j].entries());
            }
            lemma_flatten_ends(p);
            assert(p.last() == self.children@[self.children@.len() - 1].entries());
        }
        self.children[self.children.len() - 1].max_key()
    }

    /// The index of the child under which `key` stands or belongs: the
    /// first whose separator is not below `key`, or the last child. Probes
    /// every eighth separator first, then walks.
    pub fn search(&self, key: &K) -> (r: usize)
        requires
            self.wf(),
            total_order::<K>(),
        ensures
            r == self.slot(*key),
            r < self.used(),
    {
        proof {
            self.lemma_separators(-1);
        }
        let ghost ks = self.keys@;
        let last: usize = self.keys.len();
        let mut end: usize = last;
        let mut start: usize = 0;
        let mut i: usize = 2;
        while i < end
            invariant
                total_order::<K>(),
                ascending_keys(ks),
                ks == self.keys@,
                last == ks.len(),
                last < INTERNAL_SIZE,
                last + 1 == self.children@.len(),
                start <= end <= last,
                start <= i,
                2 <= i,
                start > 0 ==> lt(ks[start - 1], *key),
                end < last ==> !lt(ks[end as int], *key),
            decreases end + 8 - i,
        {
            match compare(key, &self.keys[i]) {
                Side::Above => {
                    proof {
                        assert(lt(ks[i - 1], ks[i as int]));
                        lemma_lt_transitive(ks[i - 1], ks[i as int], *key);
                    }
                    start = i;
                    i = i + 8;
                },
                _ => {
                    proof {
                        lemma_lt_trichotomy(ks[i as int], *key);
                    }
                    end = i;
                },
            }
        }
        while end > start
            invariant
                total_order::<K>(),
                ascending_keys(ks),
                ks == self.keys@,
                last == ks.len(),
                last + 1 == self.children@.len(),
                start <= end <= last,
                start > 0 ==> lt(ks[start - 1], *key),
                end < last ==> !lt(ks[end as int], *key),
            decreases end - start,
        {
            match compare(key, &self.keys[start]) {
                Side::Above => {
                    start = start + 1;
                },
                _ => {
                    proof {
                        lemma_lt_trichotomy(ks[start as int], *key);
                        lemma_below_between(ks, *key, start as int);
                    }
                    return start;
                },
            }
        }
        if start != last {
            match compare(key, &self.keys[start]) {
                Side::Above => {
                    proof {
                        lemma_below_between(ks, *key, start + 1);
                    }
                    start + 1
                },
                _ => {
                    proof {
                        lemma_lt_trichotomy(ks[start as int], *key);
                        lemma_below_between(ks, *key, start as int);
                    }
                    start
                },
            }
        } else {
            proof {
                lemma_below_between(ks, *key, start as int);
            }
            start
        }
    }
}

impl<K: Ord + Clone, V: Clone> Clone for NodeInternal<K, V> {
    /// A node with clones of the separators and further links to the same
    /// children.
    fn clone(&self) -> (r: NodeInternal<K, V>)
        ensures
            lawful::<K, V>() ==> r.same_as(self),
    {
        let mut new = NodeInternal::<K, V>::new_empty();
        let mut i: usize = 0;
        while i < self.children.len()
            invariant
                i <= self.children@.len(),
                new.keys@.len() == 0,
                new.total_len == 0,
                new.children@ == self.children@.subrange(0, i as int),
            decreases self.children@.len() - i,
        {
            let c = self.children[i].clone();
            proof {
                assert(new.children@.push(c) =~= self.children@.subrange(0, i + 1));
            }
            new.children.push(c);
            i = i + 1;
        }
        let mut j: usize = 0;
        while j < self.keys.len()
            invariant
                j <= self.keys@.len(),
                new.keys@.len() == j,
                new.total_len == 0,
                new.children@ == self.children@.subrange(0, self.children@.len() as int),
                lawful::<K, V>() ==> new.keys@ == self.keys@.subrange(0, j as int),
            decreases self.keys@.len() - j,
        {
            let k = self.keys[j].clone();
            proof {
                assert(cloned(self.keys@[j as int], k));
                if lawful::<K, V>() {
                    assert(new.keys@.push(k) =~= self.keys@.subrange(0, j + 1));
                }
            }
            new.keys.push(k);
            j = j + 1;
        }
        new.total_len = self.total_len;
        proof {
            assert(new.children@ =~= self.children@);
            if lawful::<K, V>() {
                assert(new.keys@ =~= self.keys@);
            }
        }
        new
    }
}

/// A cursor over the children of an internal node.
pub(crate) struct NodeIterator<'a, K, V> {
    pub(crate) idx: usize,
    pub(crate) node: &'a NodeInternal<K, V>,
}

/// What a cursor over children hands out: a cursor over the next child.
pub(crate) enum NodeIteratorRes<'a, K, V> {
    InternalIter(NodeIterator<'a, K, V>),
    LeafIter(LeafIterator<'a, K, V>),
}

impl<K: Ord + Clone, V: Clone> NodeInternal<K, V> {
    /// A cursor at the first child.
    pub(crate) fn iter<'a>(&'a self) -> (r: NodeIterator<'a, K, V>)
        ensures
            r.idx == 0,
            r.node == self,
    {
        NodeIterator { idx: 0, node: self }
    }
}

impl<'a, K: Ord + Clone, V: Clone> NodeIterator<'a, K, V> {
    /// The cursor stands inside a well-formed node.
    pub(crate) open spec fn wf(&self) -> bool {
        self.node.wf() && self.idx <= self.node.children@.len()
    }

    /// The entries below the children still to come.
    pub(crate) open spec fn remaining(&self) -> Seq<(K, V)> {
        self.node.parts().subrange(self.idx as int, self.node.children@.len() as int).flatten()
    }

    /// A bound on the steps that the rest of the walk takes.
    pub(crate) open spec fn weight(&self) -> nat {
        1 + self.node.weight_from(self.idx as nat)
    }

    /// A cursor over the next child, if any is left.
    pub(crate) fn next(&mut self) -> (r: Option<NodeIteratorRes<'a, K, V>>)
        requires
            old(self).wf(),
        ensures
            final(self).wf(),
            final(self).node == old(self).node,
            match r {
                None => *final(self) == *old(self) && old(self).remaining().len() == 0
                    && old(self).weight() == 1,
                Some(NodeIteratorRes::LeafIter(l)) => {
                    &&& final(self).idx == old(self).idx + 1
                    &&& l.wf()
                    &&& old(self).remaining() == l.remaining() + final(self).remaining()
                    &&& old(self).weight() == final(self).weight() + 2
                },
                Some(NodeIteratorRes::InternalIter(it)) => {
                    &&& final(self).idx == old(self).idx + 1
                    &&& it.wf()
                    &&& old(self).remaining() == it.remaining() + final(self).remaining()
                    &&& old(self).weight() == final(self).weight() + it.weight() + 1
                },
            },
    {
        let node: &'a NodeInternal<K, V> = self.node;
        let ghost p = node.parts();
        let ghost n = p.len() as int;
        if self.idx < node.children.len() {
            let idx = self.idx;
            self.idx = self.idx + 1;
            proof {
                let rest = p.subrange(idx as int, n);
                lemma_flatten_at(rest, 0);
                assert(rest.subrange(0, 0) =~= Seq::<Seq<(K, V)>>::empty());
                lemma_flatten_one(rest[0]);
                assert(rest.subrange(1, rest.len() as int) =~= p.subrange(idx + 1, n));
                assert(rest[0] == node.children@[idx as int].entries());
                assert(node.children@[idx as int].wf());
                assert(!(node.children@[idx as int] is Empty));
                assert(node.weight_from(idx as nat) == node.children@[idx as int].weight()
                    + node.weight_from((idx + 1) as nat));
            }
            match &node.children[idx] {
                Node::Leaf(leaf) => {
                    let l = leaf.get().iter();
                    Some(NodeIteratorRes::LeafIter(l))
                },
                Node::Internal(inner) => {
                    let it = inner.get().iter();
                    proof {
                        let q = it.node.parts();
                        assert(q.subrange(0, q.len() as int) =~= q);
                    }
                    Some(NodeIteratorRes::InternalIter(it))
                },
                Node::Empty => None,
            }
        } else {
            proof {
                assert(p.subrange(n, n) =~= Seq::<Seq<(K, V)>>::empty());
                lemma_flatten_one(Seq::<(K, V)>::empty());
            }
            None
        }
    }
}

} // verus!
