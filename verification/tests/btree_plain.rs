use cow::btree::BTree;
use rand::seq::SliceRandom;
use rand::SeedableRng;
const NUM_TASKS: usize = 64;

fn check(btree: &BTree<usize, usize>, key: usize, expected: usize) {
    match btree.find(&key) {
        Some(val) => {
            if *val != expected {
                panic!("{:?} != {:?}", *val, expected);
            }
        }
        None => {
            panic!("key: {:?} not found", key);
        }
    }
}

fn shuffled(count: usize) -> Vec<usize> {
    let mut rng = rand::rngs::StdRng::seed_from_u64(60388);
    let mut build_arr: Vec<usize> = Vec::new();
    for i in 0..count {
        build_arr.push(i);
    }
    build_arr.shuffle(&mut rng);
    build_arr
}

fn insert_and_fetch_n(len: usize) {
    let mut btree: BTree<usize, usize> = BTree::new();

    for i in 0..len {
        btree.insert(i, i);
    }

    for i in 0..len {
        check(&btree, i, i);
    }
    assert!(len == btree.len());
}

fn insert_and_fetch_shuffle_n(len: usize) {
    let mut btree: BTree<usize, usize> = BTree::new();

    let build_arr = shuffled(len);

    for &b in build_arr.iter() {
        btree.insert(b, b);
    }

    for i in 0..len {
        check(&btree, i, i);
    }
    assert!(len == btree.len());
}

fn update_shuffle_n(len: usize) {
    let mut btree: BTree<usize, usize> = BTree::new();

    let build_arr = shuffled(len);

    for &b in build_arr.iter() {
        assert!(btree.insert(b, b) == false);
    }

    for i in 0..len {
        check(&btree, i, i);
    }

    for &b in build_arr.iter() {
        assert!(btree.insert(b, b + 100) == true);
    }

    for i in 0..len {
        check(&btree, i, i + 100);
    }
    assert!(len == btree.len());
}

fn remove_n(len: usize) {
    let mut btree: BTree<usize, usize> = BTree::new();

    let build_arr = shuffled(len);

    for &i in build_arr.iter() {
        btree.insert(i, i);
    }

    for &i in build_arr.iter() {
        check(&btree, i, i);
    }

    for &i in build_arr.iter() {
        assert!(btree.remove(&i) == true);
        assert!(btree.find(&i).is_none());
        assert!(btree.remove(&i) == false);
    }
    assert!(0 == btree.len())
}

fn pop_n(len: usize) {
    let mut btree: BTree<usize, usize> = BTree::new();

    let build_arr = shuffled(len);

    for &i in build_arr.iter() {
        btree.insert(i, i);
    }

    for &i in build_arr.iter() {
        check(&btree, i, i);
    }

    for &i in build_arr.iter() {
        assert!(btree.pop(&i).unwrap() == i);
        assert!(btree.find(&i).is_none());
    }

    assert!(0 == btree.len())
}

fn find_mut_n(len: usize) {
    let mut btree: BTree<usize, usize> = BTree::new();

    let build_arr = shuffled(len);

    for &i in build_arr.iter() {
        btree.insert(i, i);
    }

    for &i in build_arr.iter() {
        check(&btree, i, i);
    }

    for &i in build_arr.iter() {
        {
            let out = btree.find_mut(&i).unwrap();
            assert!(*out == i);
            *out += 100;
        }

        let out = btree.find(&i).unwrap();
        assert!(*out == i + 100)
    }
    assert!(len == btree.len())
}

fn swap_n(len: usize) {
    let mut btree: BTree<usize, usize> = BTree::new();

    let build_arr = shuffled(len);

    for &i in build_arr.iter() {
        btree.insert(i, i);
    }

    for &i in build_arr.iter() {
        check(&btree, i, i);
    }

    for &i in build_arr.iter() {
        let out = btree.swap(i, i + 100).unwrap();
        assert!(out == i);
        assert!(btree.swap(i, 0).unwrap() == i + 100)
    }
    assert!(len == btree.len())
}

fn insert_remove_shuffle_n(len: usize) {
    let mut btree: BTree<usize, usize> = BTree::new();

    let build_arr = shuffled(len * 4);

    for i in 0..4usize {
        for &b in build_arr[len * i..len * (i + 1)].iter() {
            btree.insert(b, b);
        }

        for &b in build_arr[len * i..len * (i + 1)].iter() {
            check(&btree, b, b);
        }
    }

    for &b in build_arr[0..len * 4].iter() {
        check(&btree, b, b);
    }

    for i in 0..4usize {
        for &b in build_arr[len * i..len * (i + 1)].iter() {
            btree.remove(&b);
        }

        for &b in build_arr[len * (i + 1)..len * 4].iter() {
            check(&btree, b, b);
        }
    }
}

fn iter_test_n(len: usize) {
    let mut btree: BTree<usize, usize> = BTree::new();
    let build_arr = shuffled(len);

    let mut value_sum = 0;

    for &b in build_arr.iter() {
        btree.insert(b, b);
        value_sum += b;
    }

    let mut walk = btree.iter();
    while let Some((&_, &v)) = walk.next() {
        value_sum -= v;
    }

    assert!(value_sum == 0);
}

fn cow_clone_body() {
    let mut btree: BTree<usize, usize> = BTree::new();

    for i in 0..1100usize {
        btree.insert(i, i);
    }

    for i in 0..1100usize {
        check(&btree, i, i);
    }

    let old = btree.clone();

    for i in 1100usize..2200usize {
        btree.insert(i, i);
        for j in 0..i + 1 {
            check(&btree, j, j);
        }
    }

    for i in 0..2200usize {
        check(&btree, i, i);
    }

    for i in 0..1100usize {
        check(&old, i, i);
    }

    for i in 1100usize..2200usize {
        assert!(old.find(&i).is_none());
    }
}

// Each task works on a snapshot of its own, one task after the other.
fn cow_tasks_append_n(count: usize) {
    let mut btree: BTree<usize, usize> = BTree::new();

    for i in 0..count {
        btree.insert(i, i);
    }

    for i in 0..count {
        check(&btree, i, i);
    }

    for offset in 1..NUM_TASKS + 1 {
        let new = btree.clone();
        let mut new = new;
        for i in count..count * 2 {
            new.insert(i, i + offset);
        }
        for i in 0..count {
            check(&new, i, i);
        }
        for i in count..count * 2 {
            check(&new, i, i + offset);
        }
    }

    for i in 0..count {
        check(&btree, i, i);
    }

    for i in count..count * 2 {
        assert!(btree.find(&i).is_none());
    }
}

fn cow_tasks_update_n(count: usize) {
    let mut btree: BTree<usize, usize> = BTree::new();

    for i in 0..count {
        btree.insert(i, i);
    }

    for i in 0..count {
        check(&btree, i, i);
    }

    for offset in 1..NUM_TASKS + 1 {
        let new = btree.clone();
        let mut new = new;
        for i in 0..count {
            new.insert(i, i + offset);
        }
        for i in 0..count {
            check(&new, i, i + offset);
        }
    }

    for i in 0..count {
        check(&btree, i, i);
    }
}

fn cow_tasks_remove_n(count: usize) {
    let mut btree: BTree<usize, usize> = BTree::new();

    for i in 0..count {
        btree.insert(i, i);
    }

    for i in 0..count {
        check(&btree, i, i);
    }

    for _ in 1..NUM_TASKS + 1 {
        let new = btree.clone();
        let mut new = new;
        for i in 0..count {
            new.remove(&i);
        }

        for i in 0..count {
            assert!(new.find(&i).is_none());
        }
    }

    for i in 0..count {
        check(&btree, i, i);
    }
}

fn cow_tasks_swap_n(count: usize) {
    let mut btree: BTree<usize, usize> = BTree::new();

    for i in 0..count {
        btree.insert(i, i);
    }

    for i in 0..count {
        check(&btree, i, i);
    }

    for offset in 1..NUM_TASKS + 1 {
        let new = btree.clone();
        let mut new = new;
        for i in 0..count {
            assert!(new.swap(i, i + offset).is_some());
        }
        for i in 0..count {
            check(&new, i, i + offset);
        }
    }

    for i in 0..count {
        check(&btree, i, i);
    }
}

fn cow_tasks_pop_n(count: usize) {
    let mut btree: BTree<usize, usize> = BTree::new();

    for i in 0..count {
        btree.insert(i, i);
    }

    for i in 0..count {
        check(&btree, i, i);
    }

    for _ in 1..NUM_TASKS + 1 {
        let new = btree.clone();
        let mut new = new;
        for i in 0..count {
            assert!(new.pop(&i).is_some());
        }
        for i in 0..count {
            assert!(new.pop(&i).is_none());
        }
    }

    for i in 0..count {
        check(&btree, i, i);
    }
}

fn cow_tasks_find_mut_n(count: usize) {
    let mut btree: BTree<usize, usize> = BTree::new();

    for i in 0..count {
        btree.insert(i, i);
    }

    for i in 0..count {
        check(&btree, i, i);
    }

    for offset in 1..NUM_TASKS + 1 {
        let new = btree.clone();
        let mut new = new;
        for i in 0..count {
            let val = new.find_mut(&i).unwrap();
            *val = i + offset;
        }
        for i in 0..count {
            check(&new, i, i + offset);
        }
    }

    for i in 0..count {
        check(&btree, i, i);
    }
}

#[test]
fn test_insert_and_fetch_10() {
    insert_and_fetch_n(10)
}

#[test]
fn test_insert_and_fetch_80() {
    insert_and_fetch_n(80)
}

#[test]
fn test_insert_and_fetch_120() {
    insert_and_fetch_n(120)
}

#[test]
fn test_insert_and_fetch_990() {
    insert_and_fetch_n(990)
}

#[test]
fn test_insert_and_fetch_2_500() {
    insert_and_fetch_n(2_500)
}

#[test]
fn test_insert_and_fetch_10_000() {
    insert_and_fetch_n(10_000)
}

#[test]
fn insert_and_fetch_40_000() {
    insert_and_fetch_n(40_000)
}

#[test]
fn test_insert_and_fetch_shuffle_10() {
    insert_and_fetch_shuffle_n(10)
}

#[test]
fn test_insert_and_fetch_shuffle_80() {
    insert_and_fetch_shuffle_n(80)
}

#[test]
fn test_insert_and_fetch_shuffle_120() {
    insert_and_fetch_shuffle_n(120)
}

#[test]
fn test_insert_and_fetch_shuffle_990() {
    insert_and_fetch_shuffle_n(990)
}

#[test]
fn test_insert_and_fetch_shuffle_2_500() {
    insert_and_fetch_shuffle_n(2_500)
}

#[test]
fn test_insert_and_fetch_shuffle_10_000() {
    insert_and_fetch_shuffle_n(10_000)
}

#[test]
fn insert_and_fetch_shuffle_40_000() {
    insert_and_fetch_shuffle_n(40_000)
}

#[test]
fn test_update_and_fetch_10() {
    update_shuffle_n(10)
}

#[test]
fn test_update_and_fetch_80() {
    update_shuffle_n(80)
}

#[test]
fn test_update_and_fetch_120() {
    update_shuffle_n(120)
}

#[test]
fn test_update_and_fetch_990() {
    update_shuffle_n(990)
}

#[test]
fn test_update_and_fetch_2_500() {
    update_shuffle_n(2_500)
}

#[test]
fn test_update_and_fetch_10_000() {
    update_shuffle_n(10_000)
}

#[test]
fn update_and_fetch_40_000() {
    update_shuffle_n(40_000)
}

#[test]
fn test_remove_10() {
    remove_n(10)
}

#[test]
fn test_remove_80() {
    remove_n(80)
}

#[test]
fn test_remove_120() {
    remove_n(120)
}

#[test]
fn test_remove_990() {
    remove_n(990)
}

#[test]
fn test_remove_2_500() {
    remove_n(2_500)
}

#[test]
fn test_remove_10_000() {
    remove_n(10_000)
}

#[test]
fn remove_40_000() {
    remove_n(40_000)
}

#[test]
fn test_pop_10() {
    pop_n(10)
}

#[test]
fn test_pop_80() {
    pop_n(80)
}

#[test]
fn test_pop_120() {
    pop_n(120)
}

#[test]
fn test_pop_990() {
    pop_n(990)
}

#[test]
fn test_pop_2_500() {
    pop_n(2_500)
}

#[test]
fn test_pop_10_000() {
    pop_n(10_000)
}

#[test]
fn pop_40_000() {
    pop_n(40_000)
}

#[test]
fn test_find_mut_10() {
    find_mut_n(10)
}

#[test]
fn test_find_mut_80() {
    find_mut_n(80)
}

#[test]
fn test_find_mut_120() {
    find_mut_n(120)
}

#[test]
fn test_find_mut_990() {
    find_mut_n(990)
}

#[test]
fn test_find_mut_2_500() {
    find_mut_n(2_500)
}

#[test]
fn test_find_mut_10_000() {
    find_mut_n(10_000)
}

#[test]
fn find_mut_40_000() {
    find_mut_n(40_000)
}

#[test]
fn test_swap_10() {
    swap_n(10)
}

#[test]
fn test_swap_80() {
    swap_n(80)
}

#[test]
fn test_swap_120() {
    swap_n(120)
}

#[test]
fn test_swap_990() {
    swap_n(990)
}

#[test]
fn test_swap_2_500() {
    swap_n(2_500)
}

#[test]
fn test_swap_10_000() {
    swap_n(10_000)
}

#[test]
fn swap_40_000() {
    swap_n(40_000)
}

#[test]
fn test_insert_remove_shuffle_10() {
    insert_remove_shuffle_n(10)
}

#[test]
fn test_insert_remove_shuffle_80() {
    insert_remove_shuffle_n(80)
}

#[test]
fn test_insert_remove_shuffle_120() {
    insert_remove_shuffle_n(120)
}

#[test]
fn test_insert_remove_shuffle_990() {
    insert_remove_shuffle_n(990)
}

#[test]
fn test_insert_remove_shuffle_2_500() {
    insert_remove_shuffle_n(2_500)
}

#[test]
fn test_insert_remove_shuffle_10_000() {
    insert_remove_shuffle_n(10_000)
}

#[test]
fn insert_remove_shuffle_40_000() {
    insert_remove_shuffle_n(40_000)
}

#[test]
fn test_iter_test_10() {
    iter_test_n(10)
}

#[test]
fn test_iter_test_80() {
    iter_test_n(80)
}

#[test]
fn test_iter_test_120() {
    iter_test_n(120)
}

#[test]
fn test_iter_test_990() {
    iter_test_n(990)
}

#[test]
fn test_iter_test_2_500() {
    iter_test_n(2_500)
}

#[test]
fn test_iter_test_10_000() {
    iter_test_n(10_000)
}

#[test]
fn iter_test_40_000() {
    iter_test_n(40_000)
}

#[test]
fn test_cow_clone() {
    cow_clone_body()
}

#[test]
fn test_cow_tasks_append_10() {
    cow_tasks_append_n(10)
}

#[test]
fn test_cow_tasks_append_80() {
    cow_tasks_append_n(80)
}

#[test]
fn test_cow_tasks_append_120() {
    cow_tasks_append_n(120)
}

#[test]
fn test_cow_tasks_append_990() {
    cow_tasks_append_n(990)
}

#[test]
fn test_cow_tasks_append_2_500() {
    cow_tasks_append_n(2_500)
}

#[test]
fn test_cow_tasks_append_10_000() {
    cow_tasks_append_n(10_000)
}

#[test]
fn cow_tasks_append_40_000() {
    cow_tasks_append_n(40_000)
}

#[test]
fn test_cow_tasks_update_10() {
    cow_tasks_update_n(10)
}

#[test]
fn test_cow_tasks_update_80() {
    cow_tasks_update_n(80)
}

#[test]
fn test_cow_tasks_update_120() {
    cow_tasks_update_n(120)
}

#[test]
fn test_cow_tasks_update_990() {
    cow_tasks_update_n(990)
}

#[test]
fn test_cow_tasks_update_2_500() {
    cow_tasks_update_n(2_500)
}

#[test]
fn test_cow_tasks_update_10_000() {
    cow_tasks_update_n(10_000)
}

#[test]
fn cow_tasks_update_40_000() {
    cow_tasks_update_n(40_000)
}

#[test]
fn test_cow_tasks_remove_10() {
    cow_tasks_remove_n(10)
}

#[test]
fn test_cow_tasks_remove_80() {
    cow_tasks_remove_n(80)
}

#[test]
fn test_cow_tasks_remove_120() {
    cow_tasks_remove_n(120)
}

#[test]
fn test_cow_tasks_remove_990() {
    cow_tasks_remove_n(990)
}

#[test]
fn test_cow_tasks_remove_2_500() {
    cow_tasks_remove_n(2_500)
}

#[test]
fn test_cow_tasks_remove_10_000() {
    cow_tasks_remove_n(10_000)
}

#[test]
fn cow_tasks_remove_40_000() {
    cow_tasks_remove_n(40_000)
}

#[test]
fn test_cow_tasks_swap_10() {
    cow_tasks_swap_n(10)
}

#[test]
fn test_cow_tasks_swap_80() {
    cow_tasks_swap_n(80)
}

#[test]
fn test_cow_tasks_swap_120() {
    cow_tasks_swap_n(120)
}

#[test]
fn test_cow_tasks_swap_990() {
    cow_tasks_swap_n(990)
}

#[test]
fn test_cow_tasks_swap_2_500() {
    cow_tasks_swap_n(2_500)
}

#[test]
fn test_cow_tasks_swap_10_000() {
    cow_tasks_swap_n(10_000)
}

#[test]
fn cow_tasks_swap_40_000() {
    cow_tasks_swap_n(40_000)
}

#[test]
fn test_cow_tasks_pop_10() {
    cow_tasks_pop_n(10)
}

#[test]
fn test_cow_tasks_pop_80() {
    cow_tasks_pop_n(80)
}

#[test]
fn test_cow_tasks_pop_120() {
    cow_tasks_pop_n(120)
}

#[test]
fn test_cow_tasks_pop_990() {
    cow_tasks_pop_n(990)
}

#[test]
fn test_cow_tasks_pop_2_500() {
    cow_tasks_pop_n(2_500)
}

#[test]
fn test_cow_tasks_pop_10_000() {
    cow_tasks_pop_n(10_000)
}

#[test]
fn cow_tasks_pop_40_000() {
    cow_tasks_pop_n(40_000)
}

#[test]
fn test_cow_tasks_find_mut_10() {
    cow_tasks_find_mut_n(10)
}

#[test]
fn test_cow_tasks_find_mut_80() {
    cow_tasks_find_mut_n(80)
}

#[test]
fn test_cow_tasks_find_mut_120() {
    cow_tasks_find_mut_n(120)
}

#[test]
fn test_cow_tasks_find_mut_990() {
    cow_tasks_find_mut_n(990)
}

#[test]
fn test_cow_tasks_find_mut_2_500() {
    cow_tasks_find_mut_n(2_500)
}

#[test]
fn test_cow_tasks_find_mut_10_000() {
    cow_tasks_find_mut_n(10_000)
}

#[test]
fn cow_tasks_find_mut_40_000() {
    cow_tasks_find_mut_n(40_000)
}
