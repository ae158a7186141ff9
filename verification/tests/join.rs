use cow::btree::{BTreeMap, BTreeSet};
use cow::join::{join_maps, join_set_to_map, join_sets, Stream};

#[test]
fn test_map_join_10_shared_set() {
    let mut a = BTreeMap::new();
    let mut b = BTreeMap::new();

    for i in 0..10 {
        a.insert(i, i);
        b.insert(i, i);
    }

    let mut r_iter = 0..10;

    let mut joined = join_maps(a.iter(), b.iter());
    while let Some((k, (data_a, data_b))) = joined.next() {
        let i = r_iter.next().unwrap();
        assert!(i == *k);
        assert!(i == *data_a);
        assert!(i == *data_b);
    }
}

#[test]
fn test_map_join_10_no_shared() {
    let mut a = BTreeMap::new();
    let mut b = BTreeMap::new();

    for i in 0..10 {
        a.insert(i, i);
    }

    for i in 10..20 {
        b.insert(i, i);
    }

    let mut joined = join_maps(a.iter(), b.iter());
    while let Some(_) = joined.next() {
        panic!("should not have found any shared items!");
    }
}

#[test]
fn test_map_join_10_even() {
    let mut a = BTreeMap::new();
    let mut b = BTreeMap::new();

    for i in 0..10 {
        a.insert(i, i);
    }

    for i in 0..10 {
        if i % 2 == 0 {
            b.insert(i, i);
        }
    }

    let mut joined = join_maps(a.iter(), b.iter());
    while let Some((k, _)) = joined.next() {
        assert!(k % 2 == 0);
    }
}

#[test]
fn test_set_join_10_shared_set() {
    let mut a = BTreeSet::new();
    let mut b = BTreeSet::new();

    for i in 0..10 {
        a.insert(i);
        b.insert(i);
    }

    let mut r_iter = 0..10;

    let mut joined = join_sets(a.iter(), b.iter());
    while let Some(k) = joined.next() {
        let i = r_iter.next().unwrap();
        assert!(i == *k);
    }
}

#[test]
fn test_set_join_10_no_shared() {
    let mut a = BTreeSet::new();
    let mut b = BTreeSet::new();

    for i in 0..10 {
        a.insert(i);
    }

    for i in 10..20 {
        b.insert(i);
    }

    let mut joined = join_sets(a.iter(), b.iter());
    while let Some(_) = joined.next() {
        panic!("should not have found any shared items!");
    }
}

#[test]
fn test_set_join_10_even() {
    let mut a = BTreeSet::new();
    let mut b = BTreeSet::new();

    for i in 0..10 {
        a.insert(i);
    }

    for i in 0..10 {
        if i % 2 == 0 {
            b.insert(i);
        }
    }

    let mut joined = join_sets(a.iter(), b.iter());
    while let Some(k) = joined.next() {
        assert!(k % 2 == 0);
    }
}

#[test]
fn test_map_and_set_join_10_shared_set() {
    let mut a = BTreeSet::new();
    let mut b = BTreeMap::new();

    for i in 0..10 {
        a.insert(i);
        b.insert(i, i);
    }

    let mut r_iter = 0..10;

    let mut joined = join_set_to_map(a.iter(), b.iter());
    while let Some((k, _)) = joined.next() {
        let i = r_iter.next().unwrap();
        assert!(i == *k);
    }
}

#[test]
fn test_map_and_set_join_10_no_shared() {
    let mut a = BTreeSet::new();
    let mut b = BTreeMap::new();

    for i in 0..10 {
        a.insert(i);
    }

    for i in 10..20 {
        b.insert(i, i);
    }

    let mut joined = join_set_to_map(a.iter(), b.iter());
    while let Some(_) = joined.next() {
        panic!("should not have found any shared items!");
    }
}

#[test]
fn test_map_and_set_join_10_even() {
    let mut a = BTreeSet::new();
    let mut b = BTreeMap::new();

    for i in 0..10 {
        a.insert(i);
    }

    for i in 0..10 {
        if i % 2 == 0 {
            b.insert(i, i);
        }
    }

    let mut joined = join_set_to_map(a.iter(), b.iter());
    while let Some((k, _)) = joined.next() {
        assert!(k % 2 == 0);
    }
}

#[test]
fn test_complex() {
    let mut a = BTreeSet::new();
    let mut b = BTreeSet::new();
    let mut c = BTreeMap::new();
    let mut d = BTreeMap::new();

    for i in 0..100 {
        a.insert(i);
        if i % 2 == 0 {
            b.insert(i);
        }
        if i % 3 == 0 {
            c.insert(i, i);
        }
        if i % 5 == 0 {
            d.insert(i, i);
        }
    }

    let mut joined = join_set_to_map(join_sets(a.iter(), b.iter()), join_maps(c.iter(), d.iter()));
    while let Some((k, _)) = joined.next() {
        assert!(k % 30 == 0);
    }
}
