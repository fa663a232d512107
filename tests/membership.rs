use btree::BTree;

fn tree_of(branch_factor: usize, keys: &[u64]) -> BTree {
    let mut tree = BTree::new(branch_factor);
    for &k in keys {
        tree.insert(k);
    }
    tree
}

#[test]
fn empty_tree_holds_nothing() {
    let tree = BTree::new(2);
    assert!(!tree.search(0));
    assert!(!tree.search(u64::MAX));
}

#[test]
fn delete_from_empty_tree_is_false() {
    let mut tree = BTree::new(3);
    assert!(!tree.delete(4));
    assert!(!tree.search(4));
}

#[test]
fn inserted_keys_are_found_and_others_not() {
    let keys: Vec<u64> = vec![50, 3, 99, 17, 42, 8, 61, 25, 77, 1, 0, u64::MAX];
    let tree = tree_of(2, &keys);
    for &k in &keys {
        assert!(tree.search(k));
    }
    for k in [2u64, 4, 16, 18, 43, 100, u64::MAX - 1] {
        assert!(!tree.search(k));
    }
}

#[test]
fn inserting_a_key_twice_keeps_one_copy() {
    let mut tree = tree_of(2, &[5, 9, 5, 9, 5]);
    assert!(tree.search(5));
    assert!(tree.delete(5));
    assert!(!tree.search(5));
    assert!(!tree.delete(5));
    assert!(tree.search(9));
}

#[test]
fn deleting_an_absent_key_changes_nothing() {
    let keys: Vec<u64> = (1..=40).map(|k| k * 2).collect();
    let mut tree = tree_of(2, &keys);
    assert!(!tree.delete(41));
    assert!(!tree.delete(0));
    for k in 0..=82u64 {
        assert_eq!(tree.search(k), k % 2 == 0 && k >= 2 && k <= 80);
    }
}

#[test]
fn deleting_returns_whether_the_key_was_there() {
    let mut tree = tree_of(3, &[1, 2, 3]);
    assert!(tree.delete(2));
    assert!(!tree.delete(2));
    assert!(tree.search(1));
    assert!(tree.search(3));
}

#[test]
fn root_with_one_key_collapses_into_merged_child() {
    // branch factor 2: a fourth key splits the root into [1] | 2 | [3, 4]
    let mut tree = tree_of(2, &[1, 2, 3, 4]);
    assert!(tree.delete(4));
    assert!(tree.delete(3));
    // the children [1] and [] merge with the separator and the root gives way
    for k in 1..=4u64 {
        assert_eq!(tree.search(k), k <= 2);
    }
    assert!(tree.delete(1));
    assert!(tree.delete(2));
    assert!(!tree.search(2));
}

#[test]
fn ascending_inserts_then_ascending_deletes() {
    let mut tree = BTree::new(2);
    for k in 1..=1000u64 {
        tree.insert(k);
        assert!(tree.search(k));
    }
    for k in 1..=1000u64 {
        assert!(tree.delete(k));
        assert!(!tree.search(k));
        if k < 1000 {
            assert!(tree.search(k + 1));
            assert!(tree.search(1000));
        }
    }
    for k in 1..=1000u64 {
        assert!(!tree.search(k));
    }
}

#[test]
fn descending_deletes_with_a_wider_tree() {
    let mut tree = BTree::new(3);
    for k in 0..500u64 {
        tree.insert(k * 7 % 500);
    }
    for k in (0..500u64).rev() {
        assert!(tree.delete(k));
        for probe in [0u64, k / 2, k] {
            assert_eq!(tree.search(probe), probe < k);
        }
    }
}

#[test]
fn interleaved_inserts_and_deletes_match_a_model() {
    let mut tree = BTree::new(2);
    let mut model = std::collections::BTreeSet::new();
    let mut x: u64 = 12345;
    for _ in 0..3000 {
        x = x.wrapping_mul(6364136223846793005).wrapping_add(1442695040888963407);
        let k = (x >> 33) % 300;
        if (x >> 20) % 3 == 0 {
            assert_eq!(tree.delete(k), model.remove(&k));
        } else {
            tree.insert(k);
            model.insert(k);
        }
    }
    for k in 0..300u64 {
        assert_eq!(tree.search(k), model.contains(&k));
    }
}
