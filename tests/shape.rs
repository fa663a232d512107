use btree::BTree;

fn tree_of(branch_factor: usize, keys: &[u64]) -> BTree {
    let mut tree = BTree::new(branch_factor);
    for &k in keys {
        tree.insert(k);
    }
    tree
}

#[test]
fn empty_tree_lists_nothing() {
    let tree = BTree::new(2);
    assert_eq!(tree.traverse(), Vec::<(u64, usize)>::new());
}

#[test]
fn full_root_splits_around_its_middle_key() {
    let tree = tree_of(2, &[1, 2, 3]);
    assert_eq!(tree.traverse(), vec![(1, 0), (2, 0), (3, 0)]);
    let tree = tree_of(2, &[1, 2, 3, 4]);
    assert_eq!(tree.traverse(), vec![(1, 1), (2, 0), (3, 1), (4, 1)]);
}

#[test]
fn scenario_inserts_give_three_levels() {
    let tree = tree_of(2, &[10, 20, 30, 5, 6, 7, 11, 12, 15]);
    assert_eq!(
        tree.traverse(),
        vec![(5, 2), (6, 1), (7, 2), (10, 0), (11, 2), (12, 2), (15, 2), (20, 1), (30, 2)]
    );
}

#[test]
fn deleting_the_root_key_takes_its_successor() {
    let mut tree = tree_of(2, &[10, 20, 30, 5, 6, 7, 11, 12, 15]);
    assert!(tree.delete(10));
    assert_eq!(
        tree.traverse(),
        vec![(5, 2), (6, 1), (7, 2), (11, 0), (12, 2), (15, 2), (20, 1), (30, 2)]
    );
}

#[test]
fn deleting_a_key_takes_its_predecessor_when_the_leaf_can_spare_one() {
    let mut tree = tree_of(2, &[1, 2, 3, 4, 5, 6]);
    // [2, 4] over [1], [3], [5, 6]; then 0 joins the first leaf
    tree.insert(0);
    assert_eq!(tree.traverse(), vec![(0, 1), (1, 1), (2, 0), (3, 1), (4, 0), (5, 1), (6, 1)]);
    assert!(tree.delete(2));
    assert_eq!(tree.traverse(), vec![(0, 1), (1, 0), (3, 1), (4, 0), (5, 1), (6, 1)]);
}

#[test]
fn root_collapse_lowers_the_tree() {
    let mut tree = tree_of(2, &[1, 2, 3, 4]);
    assert!(tree.delete(4));
    assert_eq!(tree.traverse(), vec![(1, 1), (2, 0), (3, 1)]);
    assert!(tree.delete(3));
    assert_eq!(tree.traverse(), vec![(1, 0), (2, 0)]);
}

#[test]
fn underflow_borrows_from_the_right_sibling() {
    let mut tree = tree_of(2, &[1, 2, 3, 4, 5]);
    // [2] over [1], [3, 4, 5]
    assert_eq!(tree.traverse(), vec![(1, 1), (2, 0), (3, 1), (4, 1), (5, 1)]);
    assert!(tree.delete(1));
    assert_eq!(tree.traverse(), vec![(2, 1), (3, 0), (4, 1), (5, 1)]);
}

#[test]
fn underflow_borrows_from_the_left_sibling() {
    let mut tree = tree_of(2, &[10, 20, 30, 40, 5, 6]);
    // [20] over [5, 6, 10], [30, 40]
    assert_eq!(tree.traverse(), vec![(5, 1), (6, 1), (10, 1), (20, 0), (30, 1), (40, 1)]);
    assert!(tree.delete(40));
    assert!(tree.delete(30));
    assert_eq!(tree.traverse(), vec![(5, 1), (6, 1), (10, 0), (20, 1)]);
}

#[test]
fn deleting_an_absent_key_keeps_the_shape() {
    let mut tree = tree_of(2, &[10, 20, 30, 5, 6, 7, 11, 12, 15]);
    let before = tree.traverse();
    assert!(!tree.delete(8));
    assert_eq!(tree.traverse(), before);
}
