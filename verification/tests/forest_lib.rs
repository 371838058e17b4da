use hhds::forest::Forest;

#[test]
fn test_structs() {
    let mut forest = Forest::new();
    let tree_ref = forest.create_tree(1);
    assert!(tree_ref < 0);
    let tree = forest.get_tree(tree_ref).unwrap();
    let mut a = tree.pre_ord_iter(false);
    // A tree that was created with payload 1 holds its root and nothing else.
    assert_eq!(a.next(), Some((tree.get_root(), 1)));
    assert_eq!(a.next(), None);
}

#[test]
fn lib_test_subtree_references() {
    let mut forest = Forest::new();
    let main_tree_ref = forest.create_tree(1);
    let sub_tree_ref = forest.create_tree(2);

    let main_root = forest.get_tree(main_tree_ref).unwrap().get_root();
    let sub_root = forest.get_tree(sub_tree_ref).unwrap().get_root();

    let child1 = forest.add_child(main_tree_ref, main_root, 10).unwrap();
    let _child2 = forest.add_child(main_tree_ref, main_root, 11).unwrap();
    let _sub_child = forest.add_child(sub_tree_ref, sub_root, 20).unwrap();
    forest.add_subtree_ref(main_tree_ref, child1, sub_tree_ref).unwrap();
    let deleted = forest.delete_tree(sub_tree_ref);
    assert!(!deleted);
    let still_there = forest.get_tree(sub_tree_ref).unwrap();
    assert_eq!(still_there.get_data(still_there.get_root()).unwrap(), 2);
    forest.delete_leaf(main_tree_ref, child1).unwrap();
    let deleted = forest.delete_tree(sub_tree_ref);
    assert!(deleted);
}

#[test]
fn lib_test_basic_forest_operations() {
    let mut forest = Forest::new();
    let tree1_ref = forest.create_tree(1);
    let tree2_ref = forest.create_tree(2);

    assert!(tree1_ref < 0);
    assert!(tree2_ref < 0);
    assert_ne!(tree1_ref, tree2_ref);
    let tree1 = forest.get_tree(tree1_ref).unwrap();
    let tree2 = forest.get_tree(tree2_ref).unwrap();

    let tree1_root = tree1.get_root();
    let tree2_root = tree2.get_root();

    assert_eq!(tree1.get_data(tree1_root).unwrap(), 1);
    assert_eq!(tree2.get_data(tree2_root).unwrap(), 2);
}
