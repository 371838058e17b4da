use hhds::forest::Forest;
use std::collections::HashSet;

#[test]
fn forest_correctness_test_basic_forest_operations() {
    let mut forest = Forest::new();
    let tree1_ref = forest.create_tree(1);
    let tree2_ref = forest.create_tree(2);

    assert!(tree1_ref < 0);
    assert!(tree2_ref < 0);
    assert_ne!(tree1_ref, tree2_ref);
    let tree1 = forest.get_tree(tree1_ref).unwrap();
    let tree2 = forest.get_tree(tree2_ref).unwrap();

    let tree1_root = tree1.get_root();
    let tree2_root = tree2.get_root();

    assert_eq!(tree1.get_data(tree1_root).unwrap(), 1);
    assert_eq!(tree2.get_data(tree2_root).unwrap(), 2);
}

#[test]
fn forest_correctness_test_subtree_references() {
    let mut forest = Forest::new();

    let main_tree_ref = forest.create_tree(1);
    let sub_tree_ref = forest.create_tree(2);

    let main_root = forest.get_tree(main_tree_ref).unwrap().get_root();
    let sub_root = forest.get_tree(sub_tree_ref).unwrap().get_root();

    let child1 = forest.add_child(main_tree_ref, main_root, 10).unwrap();
    let _child2 = forest.add_child(main_tree_ref, main_root, 11).unwrap();

    let _sub_child = forest.add_child(sub_tree_ref, sub_root, 20).unwrap();

    // add subtree_reference
    forest.add_subtree_ref(main_tree_ref, child1, sub_tree_ref).unwrap();

    // verify reference counting - should return false and not delete
    let deleted = forest.delete_tree(sub_tree_ref);
    assert!(!deleted);

    // tree should still be accessible
    let still_there = forest.get_tree(sub_tree_ref).unwrap();
    assert_eq!(still_there.get_data(still_there.get_root()).unwrap(), 2);
    forest.delete_leaf(main_tree_ref, child1).unwrap();

    let deleted = forest.delete_tree(sub_tree_ref);
    assert!(deleted);
}

#[test]
fn test_complex_forest_operations() {
    let mut forest = Forest::new();

    let main_tree_ref = forest.create_tree(1);
    let sub_tree1_ref = forest.create_tree(1000);
    let sub_tree2_ref = forest.create_tree(2000);
    let sub_tree3_ref = forest.create_tree(3000);

    // build tree structures
    let mut main_nodes: Vec<i64> = Vec::new();
    let mut sub1_nodes: Vec<i64> = Vec::new();
    let mut sub2_nodes: Vec<i64> = Vec::new();
    let mut sub3_nodes: Vec<i64> = Vec::new();

    // create a deep main tree with multiple branches
    main_nodes.push(forest.get_tree(main_tree_ref).unwrap().get_root());
    for i in 0..100 {
        let parent = main_nodes[i / 3];
        let new_node = forest.add_child(main_tree_ref, parent, 2 + i as i32).unwrap();
        main_nodes.push(new_node);
    }

    // create wide sub_tree1 with many siblings
    let sub1_parent = forest.get_tree(sub_tree1_ref).unwrap().get_root();
    sub1_nodes.push(sub1_parent);
    for i in 0..50 {
        let new_node = forest.add_child(sub_tree1_ref, sub1_parent, 1100 + i).unwrap();
        sub1_nodes.push(new_node);
    }

    // create balanced sub_tree2
    sub2_nodes.push(forest.get_tree(sub_tree2_ref).unwrap().get_root());
    for i in 0..32 {
        let parent = sub2_nodes[i];
        let left = forest.add_child(sub_tree2_ref, parent, 2100 + i as i32 * 2).unwrap();
        let right = forest.add_child(sub_tree2_ref, parent, 2100 + i as i32 * 2 + 1).unwrap();
        sub2_nodes.push(left);
        sub2_nodes.push(right);
    }

    // create deep chain in sub_tree3
    let mut current = forest.get_tree(sub_tree3_ref).unwrap().get_root();
    sub3_nodes.push(current);
    for i in 0..100 {
        let new_node = forest.add_child(sub_tree3_ref, current, 3100 + i).unwrap();
        sub3_nodes.push(new_node);
        current = new_node;
    }

    // create complex reference pattern
    forest.add_subtree_ref(main_tree_ref, main_nodes[0], sub_tree1_ref).unwrap();
    forest.add_subtree_ref(sub_tree1_ref, sub1_nodes[0], sub_tree2_ref).unwrap();
    forest.add_subtree_ref(sub_tree2_ref, sub2_nodes[0], sub_tree3_ref).unwrap();

    let deleted = forest.delete_tree(sub_tree3_ref);
    assert!(!deleted);

    let mut unique_values = HashSet::new();
    let mut count = 0;
    let main_tree = forest.get_tree(main_tree_ref).unwrap();
    let mut it = main_tree.pre_ord_iter(true);
    while let Some((_pos, data)) = it.next() {
        unique_values.insert(data);
        count += 1;
        assert!(count <= 10_000);
    }
    assert!(
        count >= 318,
        "Should visit at least 318 nodes! Visited {} nodes.",
        count
    );
    assert!(
        unique_values.len() > 200,
        "Should see at least 200 unique values."
    );

    for i in (0..main_nodes.len() - 1).rev().step_by(10) {
        if i < main_nodes.len() {
            let _ = forest.delete_leaf(main_tree_ref, main_nodes[i]);
        }
    }
}
