use librualg::binary_tree::BinaryTree;

#[test]
fn mod_test() {
    let mut tree = BinaryTree::new();
    tree.add(3);
    tree.add(7);
    tree.add(2);

    assert_eq!(tree.get(&7), Some(&7));
    assert_eq!(tree.get(&8), None);
}

#[test]
fn binary_tree_test() {
    let mut tree = BinaryTree::new();
    tree.add(3);
    tree.add(7);
    tree.add(2);
    assert_eq!(tree.get(&7), Some(&7));
    assert_eq!(tree.get(&8), None);
}

#[test]
fn test_binary_tree_remove_leaf() {
    let mut tree = BinaryTree::new();
    tree.add(3);
    tree.add(7);
    assert_eq!(tree.get(&7), Some(&7));
    assert_eq!(tree.remove(&7), Some(7));
    assert_eq!(tree.get(&7), None);
    assert_eq!(tree.get(&3), Some(&3));
    assert_eq!(tree.remove(&8), None);
}
