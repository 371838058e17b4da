use hhds::forest::Forest;

fn pre_order_data(forest: &Forest, tree: i64, follow: bool) -> Vec<i32> {
    let mut it = forest.pre_ord_iter(tree, follow).unwrap();
    let mut out = Vec::new();
    while let Some((_pos, data)) = it.next() {
        out.push(data);
    }
    out
}

#[test]
fn test_tree_traversal_with_subtrees() {
    let mut forest = Forest::new();

    let main_tree_ref = forest.create_tree(1);
    let sub_tree_ref = forest.create_tree(10);

    let main_root = forest.get_tree(main_tree_ref).unwrap().get_root();
    let sub_root = forest.get_tree(sub_tree_ref).unwrap().get_root();

    // Build the trees
    let child1 = forest.add_child(main_tree_ref, main_root, 2).unwrap();
    forest.add_child(main_tree_ref, main_root, 3).unwrap();

    forest.add_child(sub_tree_ref, sub_root, 11).unwrap();
    forest.add_child(sub_tree_ref, sub_root, 12).unwrap();

    // Add the subtree reference
    forest.add_subtree_ref(main_tree_ref, child1, sub_tree_ref).unwrap();

    let main_tree = forest.get_tree(main_tree_ref).unwrap();
    let sub_tree = forest.get_tree(sub_tree_ref).unwrap();

    // Test subtree traversal
    let mut visited_values: Vec<i32> = Vec::new();
    let mut it = sub_tree.pre_ord_iter(true);
    while let Some((_pos, data)) = it.next() {
        visited_values.push(data);
    }
    assert_eq!(visited_values, vec![10, 11, 12]);

    // Test main tree traversal without following subtrees
    visited_values.clear();
    let mut it = main_tree.pre_ord_iter(false);
    while let Some((_pos, data)) = it.next() {
        visited_values.push(data);
    }
    assert_eq!(visited_values, vec![1, 2, 3]);

    // Test main tree traversal with following subtrees
    visited_values.clear();
    let mut it = main_tree.pre_ord_iter(true);
    while let Some((_pos, data)) = it.next() {
        visited_values.push(data);
    }
    assert_eq!(visited_values.len(), 6);
    assert_eq!(visited_values, vec![1, 2, 10, 11, 12, 3]);

    assert_eq!(pre_order_data(&forest, main_tree_ref, true), vec![1, 2, 10, 11, 12, 3]);
}

fn post_order_data(forest: &Forest, tree: i64, follow: bool) -> Vec<i32> {
    let mut it = forest.post_ord_iter(tree, follow).unwrap();
    let mut out = Vec::new();
    while let Some((_pos, data)) = it.next() {
        out.push(data);
    }
    out
}

#[test]
fn post_order_visits_children_before_parents() {
    let mut forest = Forest::new();
    let a = forest.create_tree(1);
    let b = forest.create_tree(10);
    let a_root = forest.get_tree(a).unwrap().get_root();
    let b_root = forest.get_tree(b).unwrap().get_root();
    let two = forest.add_child(a, a_root, 2).unwrap();
    forest.add_child(a, a_root, 3).unwrap();
    forest.add_child(a, two, 4).unwrap();
    forest.add_child(b, b_root, 11).unwrap();
    forest.add_child(b, b_root, 12).unwrap();
    forest.add_subtree_ref(a, two, b).unwrap();

    assert_eq!(post_order_data(&forest, b, true), vec![11, 12, 10]);
    assert_eq!(post_order_data(&forest, a, false), vec![4, 2, 3, 1]);
    assert_eq!(post_order_data(&forest, a, true), vec![11, 12, 10, 4, 2, 3, 1]);
    assert_eq!(pre_order_data(&forest, a, true), vec![1, 2, 10, 11, 12, 4, 3]);
}

#[test]
fn walks_end_where_trees_embed_each_other() {
    let mut forest = Forest::new();
    let a = forest.create_tree(1);
    let b = forest.create_tree(2);
    let a_root = forest.get_tree(a).unwrap().get_root();
    let b_root = forest.get_tree(b).unwrap().get_root();
    forest.add_subtree_ref(a, a_root, b).unwrap();
    forest.add_subtree_ref(b, b_root, a).unwrap();
    // Two slots: no walk nests deeper than two embeddings.
    assert_eq!(pre_order_data(&forest, a, true), vec![1, 2, 1]);
    assert_eq!(post_order_data(&forest, a, true), vec![1, 2, 1]);
    assert!(!forest.delete_tree(a));
    assert!(!forest.delete_tree(b));
}
