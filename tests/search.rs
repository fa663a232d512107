use btree::BTree;

#[test]
fn test_search() {
    let mut tree = BTree::new(2);
    tree.insert(10);
    tree.insert(20);
    tree.insert(30);
    tree.insert(5);
    tree.insert(6);
    tree.insert(7);
    tree.insert(11);
    tree.insert(12);
    tree.insert(15);
    assert!(tree.search(15));
    assert_eq!(tree.search(16), false);
    tree.delete(10);
    assert_eq!(tree.search(10), false);
    assert!(tree.search(5));
    assert!(tree.search(7));
    assert!(tree.search(11));
    assert!(tree.search(12));
    assert!(tree.search(15));
    assert!(tree.search(30));
}
