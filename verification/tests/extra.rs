use cow::btree::{BTree, BTreeMap, BTreeSet};
use cow::join::{join_maps, join_set_to_map, join_sets, Stream};
use cow::leaf::{InsertAction, NodeLeaf, INTERNAL_SIZE, LEAF_SIZE};
use cow::node::{Node, NodeInternal};
use cow::order::{compare, duplicate, Side};
use cow::{CowArc, UnsafeArc};

fn filled_leaf(keys: std::ops::Range<usize>) -> NodeLeaf<usize, usize> {
    let mut leaf = NodeLeaf::new();
    for k in keys {
        leaf.insert(k * 10, k);
    }
    leaf
}

fn leaf_entries(leaf: &NodeLeaf<usize, usize>) -> Vec<(usize, usize)> {
    let mut out = Vec::new();
    let mut walk = leaf.iter();
    while let Some((k, v)) = walk.next() {
        out.push((*k, *v));
    }
    out
}

fn map_entries(map: &BTreeMap<usize, usize>) -> Vec<(usize, usize)> {
    let mut out = Vec::new();
    let mut walk = map.iter();
    while let Some((k, v)) = walk.next() {
        out.push((*k, *v));
    }
    out
}

#[test]
fn capacities() {
    assert_eq!(LEAF_SIZE, 31);
    assert_eq!(INTERNAL_SIZE, 42);
}

#[test]
fn compare_three_ways() {
    assert_eq!(compare(&1, &2), Side::Below);
    assert_eq!(compare(&2, &2), Side::Same);
    assert_eq!(compare(&3, &2), Side::Above);
    assert_eq!(duplicate(&7usize), 7);
}

#[test]
fn leaf_insert_signals() {
    let mut leaf: NodeLeaf<usize, usize> = NodeLeaf::new();
    assert!(matches!(leaf.insert(5, 50), InsertAction::InsertUpdateLeft(5)));
    assert!(matches!(leaf.insert(3, 30), InsertAction::InsertDone(false)));
    assert!(matches!(leaf.insert(9, 90), InsertAction::InsertUpdateLeft(9)));
    assert!(matches!(leaf.insert(5, 55), InsertAction::InsertDone(true)));
    assert_eq!(leaf.len(), 3);
    assert_eq!(leaf_entries(&leaf), vec![(3, 30), (5, 55), (9, 90)]);
    assert_eq!(leaf.find(&5), Some(&55));
    assert_eq!(leaf.find(&4), None);
    assert_eq!(leaf.max_key(), 9);
}

#[test]
fn leaf_search_positions() {
    let leaf = filled_leaf(0..10);
    assert_eq!(leaf.search_key(&0), (true, 0));
    assert_eq!(leaf.search_key(&90), (true, 9));
    assert_eq!(leaf.search_key(&45), (false, 5));
    assert_eq!(leaf.search_key(&1000), (false, 10));
    assert_eq!(leaf.search(&30), Some(3));
    assert_eq!(leaf.search(&31), None);
}

#[test]
fn leaf_full_hands_entry_back() {
    let mut leaf = filled_leaf(0..LEAF_SIZE);
    assert_eq!(leaf.len(), LEAF_SIZE);
    // a full leaf asks for a split, also where the key is there already
    assert!(matches!(leaf.insert(7, 700), InsertAction::Split(7, 700)));
    assert!(matches!(leaf.insert(0, 1), InsertAction::Split(0, 1)));
    assert_eq!(leaf.len(), LEAF_SIZE);
    assert_eq!(leaf.find(&0), Some(&0));
}

#[test]
fn leaf_split_halves() {
    let mut leaf = filled_leaf(0..LEAF_SIZE);
    let (right, separator) = leaf.split();
    assert_eq!(leaf.len(), 15);
    assert_eq!(right.len(), 16);
    assert_eq!(separator, 140);
    assert_eq!(leaf.max_key(), 140);
    assert_eq!(leaf_entries(&right)[0], (150, 15));
    assert_eq!(right.max_key(), 300);
}

#[test]
fn leaf_pop_signals() {
    let mut leaf = filled_leaf(0..16);
    // not there
    assert_eq!(leaf.pop(&5), (None, None, false));
    // in the middle: no new largest key, still half full
    assert_eq!(leaf.pop(&50), (None, Some(5), false));
    // the largest: the new largest key is handed up, and the leaf is short
    assert_eq!(leaf.pop(&150), (Some(140), Some(15), true));
    assert_eq!(leaf.len(), 14);
    let mut single: NodeLeaf<usize, usize> = NodeLeaf::new();
    single.insert(1, 1);
    assert_eq!(single.pop(&1), (None, Some(1), true));
    assert_eq!(single.len(), 0);
}

#[test]
fn leaf_find_mut_writes() {
    let mut leaf = filled_leaf(0..4);
    *leaf.find_mut(&20).unwrap() = 99;
    assert!(leaf.find_mut(&21).is_none());
    assert_eq!(leaf_entries(&leaf), vec![(0, 0), (10, 1), (20, 99), (30, 3)]);
}

#[test]
fn leaf_rotations() {
    let mut left = filled_leaf(0..14);
    let mut right = filled_leaf(14..30);
    assert!(left.rotate_left(&mut right));
    assert_eq!(left.len(), 15);
    assert_eq!(right.len(), 15);
    assert_eq!(left.max_key(), 140);
    assert_eq!(leaf_entries(&right)[0], (150, 15));
    // the neighbour is at half: nothing moves
    assert!(!left.rotate_left(&mut right));
    assert_eq!(left.len(), 15);

    let mut left = filled_leaf(0..16);
    let mut right = filled_leaf(16..30);
    assert!(right.rotate_right(&mut left));
    assert_eq!(left.len(), 15);
    assert_eq!(right.len(), 15);
    assert_eq!(leaf_entries(&right)[0], (150, 15));
    assert!(!right.rotate_right(&mut left));
}

#[test]
fn leaf_merge_appends() {
    let mut left = filled_leaf(0..14);
    let mut right = filled_leaf(14..29);
    left.merge(&mut right);
    assert_eq!(left.len(), 29);
    assert_eq!(right.len(), 0);
    let all = leaf_entries(&left);
    for (i, e) in all.iter().enumerate() {
        assert_eq!(*e, (i * 10, i));
    }
}

#[test]
fn leaf_clone_is_equal_and_apart() {
    let leaf = filled_leaf(0..5);
    let mut copy = leaf.clone();
    copy.insert(5, 5);
    assert_eq!(leaf.len(), 5);
    assert_eq!(copy.len(), 6);
}

fn leaf_link(keys: std::ops::Range<usize>) -> Node<usize, usize> {
    Node::Leaf(CowArc::new(filled_leaf(keys)))
}

#[test]
fn internal_node_over_two_leaves() {
    let node = NodeInternal::new(140, leaf_link(0..15), leaf_link(15..31));
    assert_eq!(node.len(), 31);
    assert_eq!(node.max_key(), 300);
    // the first child whose separator is not below the key, else the last
    assert_eq!(node.search(&0), 0);
    assert_eq!(node.search(&140), 0);
    assert_eq!(node.search(&141), 1);
    assert_eq!(node.search(&100_000), 1);
}

#[test]
fn internal_node_insert_and_pop() {
    let mut node = NodeInternal::new(140, leaf_link(0..15), leaf_link(15..31));
    assert!(matches!(node.insert(5, 5), InsertAction::InsertDone(false)));
    assert!(matches!(node.insert(0, 7), InsertAction::InsertDone(true)));
    assert!(matches!(node.insert(1000, 1), InsertAction::InsertUpdateLeft(1000)));
    assert_eq!(node.len(), 33);
    assert_eq!(node.max_key(), 1000);
    // the largest key below the node goes: the new largest is handed up
    let (repair, value, under) = node.pop(&1000);
    assert_eq!((repair, value), (Some(300), Some(1)));
    assert!(under);
    assert_eq!(node.len(), 32);
    // the largest key under the first child goes: its separator follows
    let (repair, value, _) = node.pop(&140);
    assert_eq!((repair, value), (None, Some(14)));
    assert_eq!(node.search(&135), 1);
    assert_eq!(node.search(&130), 0);
    *node.find_mut(&130).unwrap() = 77;
    assert!(node.find_mut(&131).is_none());
    assert_eq!(node.len(), 31);
}

#[test]
fn internal_node_splits_full_child() {
    let mut node = NodeInternal::new(300, leaf_link(0..31), leaf_link(31..46));
    // the first child is full: it is split, and the entry goes in after that
    assert!(matches!(node.insert(5, 5), InsertAction::InsertDone(false)));
    assert_eq!(node.len(), 47);
    assert_eq!(node.search(&140), 0);
    assert_eq!(node.search(&150), 1);
    assert_eq!(node.search(&310), 2);
}

#[test]
fn internal_node_redistributes() {
    // the left child falls short and takes an entry from the right one
    let mut node = NodeInternal::new(140, leaf_link(0..15), leaf_link(15..31));
    let (_, value, _) = node.pop(&0);
    assert_eq!(value, Some(0));
    assert_eq!(node.search(&150), 0);
    assert_eq!(node.search(&160), 1);
    // the right child falls short and takes an entry from the left one
    let mut node = NodeInternal::new(150, leaf_link(0..16), leaf_link(16..31));
    let (_, value, _) = node.pop(&300);
    assert_eq!(value, Some(30));
    assert_eq!(node.search(&140), 0);
    assert_eq!(node.search(&150), 1);
    // both are at half: they merge, and one child is left
    let mut node = NodeInternal::new(140, leaf_link(0..15), leaf_link(15..30));
    let (_, value, under) = node.pop(&0);
    assert_eq!(value, Some(0));
    assert!(under);
    assert_eq!(node.len(), 29);
    assert_eq!(node.search(&290), 0);
}

#[test]
fn link_insert_into_empty_and_lift() {
    let mut link: Node<usize, usize> = Node::Empty;
    assert_eq!(link.len(), 0);
    assert!(matches!(link.insert(1, 10), InsertAction::InsertUpdateLeft(1)));
    assert!(matches!(link, Node::Leaf(_)));
    assert_eq!(link.max_key(), 1);
    assert_eq!(link.pop(&1), (None, Some(10), true));
    link.lift();
    assert!(matches!(link, Node::Empty));
    assert_eq!(link.pop(&1), (None, None, false));
    assert!(link.find_mut(&1).is_none());

    let mut link = Node::Internal(CowArc::new(NodeInternal::new(
        140,
        leaf_link(0..15),
        leaf_link(15..30),
    )));
    let _ = link.pop(&0);
    link.lift();
    assert!(matches!(link, Node::Leaf(_)));
    assert_eq!(link.len(), 29);
}

#[test]
fn link_split_and_merge() {
    let mut link = leaf_link(0..31);
    let (right, separator) = link.split();
    assert_eq!(separator, 140);
    assert_eq!(link.len(), 15);
    assert_eq!(right.len(), 16);
    let mut right = right;
    // the left one is at half and the right one has one to spare
    assert!(!right.rotate_right(&mut link));
    let _ = link.pop(&0);
    assert!(link.rotate_left(&mut right));
    assert_eq!(link.len(), 15);
    assert_eq!(right.len(), 15);
    let _ = right.pop(&300);
    link.merge(right);
    assert_eq!(link.len(), 29);
    assert_eq!(link.max_key(), 290);
}

#[test]
fn forward_insert_small() {
    let mut map: BTreeMap<usize, usize> = BTreeMap::new();
    for i in 0..10 {
        map.insert(i, i);
    }
    assert_eq!(map.len(), 10);
    for i in 0..10 {
        assert_eq!(map.find(&i), Some(&i));
    }
    let expected: Vec<(usize, usize)> = (0..10).map(|i| (i, i)).collect();
    assert_eq!(map_entries(&map), expected);
}

#[test]
fn update_then_mutate() {
    let mut map: BTreeMap<usize, usize> = BTreeMap::new();
    for i in 0..120 {
        assert!(!map.insert(i, i));
    }
    for i in 0..120 {
        assert!(map.insert(i, i + 100));
    }
    for i in 0..120 {
        assert_eq!(map.find(&i), Some(&(i + 100)));
        assert_eq!(map.swap(i, 0), Some(i + 100));
        assert_eq!(map.find(&i), Some(&0));
    }
    assert_eq!(map.len(), 120);
}

#[test]
fn snapshot_divergence() {
    let mut map: BTreeMap<usize, usize> = BTreeMap::new();
    for i in 0..1100 {
        map.insert(i, i);
    }
    let snapshot = map.clone();
    for i in 1100..2200 {
        map.insert(i, i);
    }
    for i in 0..2200 {
        assert!(map.find(&i).is_some());
    }
    for i in 0..1100 {
        assert!(snapshot.find(&i).is_some());
    }
    for i in 1100..2200 {
        assert!(snapshot.find(&i).is_none());
    }
    assert_eq!(snapshot.len(), 1100);
    assert_eq!(map.len(), 2200);
}

#[test]
fn snapshot_survives_every_kind_of_write() {
    let mut map: BTreeMap<usize, usize> = BTreeMap::new();
    for i in 0..3000 {
        map.insert(i, i);
    }
    let snapshot = map.clone();
    let before = map_entries(&snapshot);
    for i in 0..3000 {
        if i % 3 == 0 {
            map.remove(&i);
        } else if i % 3 == 1 {
            *map.find_mut(&i).unwrap() += 1;
        } else {
            map.swap(i, 0);
        }
    }
    map.insert(5000, 1);
    assert_eq!(map_entries(&snapshot), before);
    // and the other way round
    let mut other = map.clone();
    let kept = map_entries(&map);
    other.clear();
    assert_eq!(other.len(), 0);
    assert_eq!(map_entries(&map), kept);
}

#[test]
fn walk_is_ascending_and_as_long_as_the_map() {
    let mut map: BTreeMap<usize, usize> = BTreeMap::new();
    let mut k = 7usize;
    for _ in 0..5000 {
        k = (k * 7919 + 13) % 10007;
        map.insert(k, k + 1);
    }
    let all = map_entries(&map);
    assert_eq!(all.len(), map.len());
    for pair in all.windows(2) {
        assert!(pair[0].0 < pair[1].0);
    }
    for (key, value) in all.iter() {
        assert_eq!(map.find(key), Some(value));
    }
    assert!(map.find(&10_007).is_none());
}

#[test]
fn length_follows_inserts_and_removals() {
    let mut map: BTreeMap<usize, usize> = BTreeMap::new();
    assert_eq!(map.len(), 0);
    assert!(!map.insert(1, 1));
    assert_eq!(map.len(), 1);
    assert!(map.insert(1, 2));
    assert_eq!(map.len(), 1);
    assert!(!map.remove(&2));
    assert_eq!(map.len(), 1);
    assert!(map.remove(&1));
    assert_eq!(map.len(), 0);
    assert!(map.find(&1).is_none());
    assert!(!map.contains_key(&1));
}

#[test]
fn round_trip_in_another_order() {
    let mut map: BTreeMap<usize, usize> = BTreeMap::new();
    for i in 0..4000 {
        map.insert((i * 37) % 4000, i);
    }
    assert_eq!(map.len(), 4000);
    for i in 0..4000 {
        assert!(map.remove(&((i * 113 + 5) % 4000)));
    }
    assert_eq!(map.len(), 0);
    assert!(map.iter().next().is_none());
    // the emptied tree takes entries again
    map.insert(3, 4);
    assert_eq!(map_entries(&map), vec![(3, 4)]);
}

#[test]
fn absent_keys() {
    let mut map: BTreeMap<usize, usize> = BTreeMap::new();
    assert_eq!(map.pop(&1), None);
    assert!(map.find_mut(&1).is_none());
    assert!(!map.remove(&1));
    assert_eq!(map.swap(1, 5), None);
    assert_eq!(map.find(&1), Some(&5));
    assert_eq!(map.pop(&1), Some(5));
    assert!(map.iter().next().is_none());
    let fresh: BTreeMap<usize, usize> = Default::default();
    assert_eq!(fresh.len(), 0);
}

#[test]
fn clear_empties() {
    let mut map: BTreeMap<usize, usize> = BTreeMap::new();
    for i in 0..100 {
        map.insert(i, i);
    }
    map.clear();
    assert_eq!(map.len(), 0);
    assert!(map.find(&5).is_none());
    assert!(map.iter().next().is_none());
}

#[test]
fn values_that_are_not_copied_bit_by_bit() {
    let mut map: BTreeMap<String, Vec<u8>> = BTreeMap::new();
    for i in 0..200u8 {
        map.insert(format!("{:03}", i), vec![i; 3]);
    }
    let snapshot = map.clone();
    map.find_mut(&"007".to_string()).unwrap().push(1);
    assert_eq!(map.find(&"007".to_string()), Some(&vec![7, 7, 7, 1]));
    assert_eq!(snapshot.find(&"007".to_string()), Some(&vec![7, 7, 7]));
    assert_eq!(map.pop(&"199".to_string()), Some(vec![199, 199, 199]));
    assert_eq!(snapshot.len(), 200);
}

#[test]
fn plain_handle() {
    let mut tree: BTree<usize, usize> = BTree::new();
    for i in 0..500 {
        assert!(!tree.insert(i, i));
    }
    let snapshot = tree.clone();
    assert_eq!(tree.swap(3, 9), Some(3));
    assert_eq!(tree.pop(&4), Some(4));
    assert!(tree.remove(&5));
    *tree.find_mut(&6).unwrap() = 0;
    assert_eq!(tree.len(), 498);
    assert_eq!(snapshot.len(), 500);
    assert_eq!(snapshot.find(&3), Some(&3));
    let mut walk = tree.iter();
    assert_eq!(walk.next(), Some((&0, &0)));
    tree.clear();
    assert_eq!(tree.len(), 0);
}

#[test]
fn set_operations() {
    let mut set: BTreeSet<usize> = BTreeSet::new();
    assert!(set.insert(3));
    assert!(!set.insert(3));
    assert!(set.insert(1));
    assert_eq!(set.len(), 2);
    assert!(set.contains(&1));
    assert!(!set.contains(&2));
    assert!(set.remove(&1));
    assert!(!set.remove(&1));
    assert_eq!(set.len(), 1);
    let snapshot = set.clone();
    set.clear();
    assert_eq!(set.len(), 0);
    assert!(snapshot.contains(&3));
    let fresh: BTreeSet<usize> = Default::default();
    assert_eq!(fresh.len(), 0);
}

#[test]
fn set_walk_ascends() {
    let mut set: BTreeSet<usize> = BTreeSet::new();
    for i in 0..1000 {
        set.insert((i * 7) % 1000);
    }
    let mut walk = set.iter();
    let mut expect = 0;
    while let Some(k) = walk.next() {
        assert_eq!(*k, expect);
        expect += 1;
    }
    assert_eq!(expect, 1000);
}

#[test]
fn set_relations() {
    let mut small: BTreeSet<usize> = BTreeSet::new();
    let mut large: BTreeSet<usize> = BTreeSet::new();
    let mut apart: BTreeSet<usize> = BTreeSet::new();
    let empty: BTreeSet<usize> = BTreeSet::new();
    for i in 0..100 {
        large.insert(i);
        if i % 2 == 0 {
            small.insert(i);
        }
        apart.insert(i + 100);
    }
    assert!(small.is_subset(&large));
    assert!(!large.is_subset(&small));
    assert!(large.is_superset(&small));
    assert!(!small.is_superset(&large));
    assert!(small.is_subset(&small));
    assert!(small.is_disjoint(&apart));
    assert!(!small.is_disjoint(&large));
    assert!(empty.is_subset(&small));
    assert!(empty.is_disjoint(&small));
    assert!(small.is_superset(&empty));
}

#[test]
fn join_intersections() {
    let mut a = BTreeSet::new();
    let mut b = BTreeSet::new();
    let mut map_a = BTreeMap::new();
    let mut map_b = BTreeMap::new();
    for i in 0..10usize {
        a.insert(i);
        map_a.insert(i, i);
        map_b.insert(i + 10, i + 10);
        if i % 2 == 0 {
            b.insert(i);
        }
    }
    let mut found = Vec::new();
    let mut joined = join_sets(a.iter(), b.iter());
    while let Some(k) = joined.next() {
        found.push(*k);
    }
    assert_eq!(found, vec![0, 2, 4, 6, 8]);

    let mut joined = join_maps(map_a.iter(), map_b.iter());
    assert!(joined.next().is_none());

    let mut found = Vec::new();
    let mut joined = join_set_to_map(b.iter(), map_a.iter());
    while let Some((k, v)) = joined.next() {
        found.push((*k, *v));
    }
    assert_eq!(found, vec![(0, 0), (2, 2), (4, 4), (6, 6), (8, 8)]);
}

#[test]
fn join_gives_values_of_both() {
    let mut a = BTreeMap::new();
    let mut b = BTreeMap::new();
    for i in 0..50usize {
        a.insert(i * 2, i);
        b.insert(i * 3, i + 1000);
    }
    let mut found = Vec::new();
    let mut joined = join_maps(a.iter(), b.iter());
    while let Some((k, (x, y))) = joined.next() {
        found.push((*k, *x, *y));
    }
    let expected: Vec<(usize, usize, usize)> =
        (0..17).map(|i| (i * 6, i * 3, i * 2 + 1000)).collect();
    assert_eq!(found, expected);
    assert!(joined.next().is_none());
}

#[test]
fn join_with_an_empty_side() {
    let a: BTreeSet<usize> = BTreeSet::new();
    let mut b: BTreeSet<usize> = BTreeSet::new();
    b.insert(1);
    assert!(join_sets(a.iter(), b.iter()).next().is_none());
    assert!(join_sets(b.iter(), a.iter()).next().is_none());
    let mut both = join_sets(b.iter(), b.iter());
    assert_eq!(both.next(), Some(&1));
    assert_eq!(both.next(), None);
    assert_eq!(both.next(), None);
}

#[test]
fn shared_cell_copies_on_write() {
    let mut first = CowArc::new(vec![1, 2, 3]);
    let second = first.clone();
    assert_eq!(*first.get(), vec![1, 2, 3]);
    first.get_mut().push(4);
    assert_eq!(*first.get(), vec![1, 2, 3, 4]);
    assert_eq!(*second.get(), vec![1, 2, 3]);
    // a cell with one owner is written in place
    let mut alone = CowArc::new(5);
    *alone.get_mut() += 1;
    assert_eq!(*alone.get(), 6);
}

#[test]
fn counted_pointer_handles() {
    let one = UnsafeArc::new(7);
    assert!(one.is_owned());
    assert_eq!(*one.get_immut(), 7);
    let two = one.clone();
    assert!(!one.is_owned());
    assert_eq!(*two.get_immut(), 7);
    drop(two);
    assert!(one.is_owned());

    let (a, b) = UnsafeArc::new2(String::from("x"));
    assert!(!a.is_owned());
    assert_eq!(a.get_immut(), b.get_immut());

    let none = UnsafeArc::newN(1, 0);
    assert_eq!(none.len(), 0);
    let many = UnsafeArc::newN(9, 3);
    assert_eq!(many.len(), 3);
    for handle in many.iter() {
        assert_eq!(*handle.get_immut(), 9);
        assert!(!handle.is_owned());
    }
    let single = UnsafeArc::newN(9, 1);
    assert!(single[0].is_owned());
}

#[test]
fn internal_node_over_small_leaves() {
    let mut l: Node<usize, usize> = Node::Empty;
    l.insert(1, 10);
    let mut r: Node<usize, usize> = Node::Empty;
    r.insert(2, 20);
    r.insert(3, 30);
    let n = NodeInternal::new(1, l, r);
    assert_eq!(n.len(), 3);
    assert_eq!(n.max_key(), 3);
    assert_eq!(n.search(&0), 0);
    assert_eq!(n.search(&1), 0);
    assert_eq!(n.search(&2), 1);
    let mut walk = Vec::new();
    let mut link = Node::Internal(CowArc::new(n));
    assert_eq!(link.len(), 3);
    *link.find_mut(&3).unwrap() += 1;
    for k in 1..4usize {
        walk.push(*link.find_mut(&k).unwrap());
    }
    assert_eq!(walk, vec![10, 20, 31]);
}

#[test]
fn internal_node_split_keeps_the_order_of_children() {
    // 42 leaves of 15 entries each under one node
    let mut map: BTreeMap<usize, usize> = BTreeMap::new();
    for i in 0..(42 * 16) {
        map.insert(i, i);
    }
    let before = map_entries(&map);
    for i in (42 * 16)..(42 * 16 + 2000) {
        map.insert(i, i);
    }
    let after = map_entries(&map);
    assert_eq!(&after[..before.len()], &before[..]);
    assert_eq!(after.len(), 42 * 16 + 2000);
}

#[test]
fn mending_takes_before_it_merges() {
    // the right neighbour has one to spare: nothing merges though all would fit
    let mut node = NodeInternal::new(140, leaf_link(0..15), leaf_link(15..31));
    let _ = node.pop(&0);
    assert_eq!(node.search(&150), 0);
    assert_eq!(node.search(&151), 1);
    // only the left neighbour has one to spare
    let mut node = NodeInternal::new(150, leaf_link(0..16), leaf_link(16..31));
    let _ = node.pop(&160);
    assert_eq!(node.search(&140), 0);
    assert_eq!(node.search(&150), 1);
    assert_eq!(node.len(), 30);
}
