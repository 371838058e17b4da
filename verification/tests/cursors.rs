use hhds::cursor::{PostOrderIterator, PreOrderIterator};
use hhds::error::TreeError;
use hhds::forest::Forest;
use hhds::tree::Tree;

fn two_trees() -> (Forest, i64, i64) {
    // a: 1 -> [2 -> [4], 3], node 2 embeds b; b: 10 -> [11, 12]
    let mut forest = Forest::new();
    let a = forest.create_tree(1);
    let b = forest.create_tree(10);
    let two = forest.add_child(a, 1, 2).unwrap();
    forest.add_child(a, 1, 3).unwrap();
    forest.add_child(a, two, 4).unwrap();
    forest.add_child(b, 1, 11).unwrap();
    forest.add_child(b, 1, 12).unwrap();
    forest.add_subtree_ref(a, two, b).unwrap();
    (forest, a, b)
}

#[test]
fn a_cursor_stands_on_what_it_yields_next() {
    let (forest, a, _b) = two_trees();
    let mut it = PreOrderIterator::in_forest(&forest, a, true).unwrap();
    assert_eq!(it.deref(), 1);
    assert_eq!(it.get_data(), Ok(1));
    assert_eq!(it.next(), Some((1, 1)));
    assert_eq!(it.deref(), 2);
    assert_eq!(it.get_data(), Ok(2));
    assert_eq!(it.next(), Some((2, 2)));
    // The walk is in the embedded tree now: its root is at position 1 there.
    assert_eq!(it.deref(), 1);
    assert_eq!(it.get_data(), Ok(10));
    assert_eq!(it.next(), Some((1, 10)));
    assert_eq!(it.next(), Some((2, 11)));
    assert_eq!(it.next(), Some((3, 12)));
    assert_eq!(it.next(), Some((4, 4)));
    assert_eq!(it.next(), Some((3, 3)));
    assert_eq!(it.deref(), 0);
    assert_eq!(it.get_data(), Err(TreeError::InvalidPosition));
    assert_eq!(it.next(), None);
    assert_eq!(it.next(), None);
    assert_eq!(it.deref(), 0);
}

#[test]
fn a_post_order_cursor_starts_at_the_bottom() {
    let (forest, a, _b) = two_trees();
    let mut it = PostOrderIterator::in_forest(&forest, a, true).unwrap();
    assert_eq!(it.deref(), 2);
    assert_eq!(it.get_data(), Ok(11));
    assert_eq!(it.next(), Some((2, 11)));
    assert_eq!(it.next(), Some((3, 12)));
    assert_eq!(it.next(), Some((1, 10)));
    assert_eq!(it.next(), Some((4, 4)));
    assert_eq!(it.next(), Some((2, 2)));
    assert_eq!(it.next(), Some((3, 3)));
    assert_eq!(it.deref(), 1);
    assert_eq!(it.next(), Some((1, 1)));
    assert_eq!(it.deref(), 0);
    assert_eq!(it.get_data(), Err(TreeError::InvalidPosition));
    assert_eq!(it.next(), None);
}

#[test]
fn embeddings_are_invisible_unless_followed() {
    let (forest, a, b) = two_trees();
    let pre = forest.pre_ord_iter(a, false).unwrap().rest();
    assert_eq!(pre, vec![(1, 1), (2, 2), (4, 4), (3, 3)]);
    let post = forest.post_ord_iter(a, false).unwrap().rest();
    assert_eq!(post, vec![(4, 4), (2, 2), (3, 3), (1, 1)]);
    let inner = forest.pre_ord_iter(b, true).unwrap().rest();
    assert_eq!(inner, vec![(1, 10), (2, 11), (3, 12)]);
}

#[test]
fn rest_returns_what_is_left() {
    let (forest, a, _b) = two_trees();
    let mut it = forest.pre_ord_iter(a, true).unwrap();
    it.next();
    it.next();
    assert_eq!(it.rest(), vec![(1, 10), (2, 11), (3, 12), (4, 4), (3, 3)]);
    assert_eq!(it.rest(), vec![]);
    assert_eq!(it.next(), None);
}

#[test]
fn a_tree_embedded_twice_is_walked_twice() {
    let mut forest = Forest::new();
    let a = forest.create_tree(1);
    let b = forest.create_tree(10);
    let x = forest.add_child(a, 1, 2).unwrap();
    let y = forest.add_child(a, 1, 3).unwrap();
    forest.add_subtree_ref(a, x, b).unwrap();
    forest.add_subtree_ref(a, y, b).unwrap();
    let walk = forest.pre_ord_iter(a, true).unwrap().rest();
    let data: Vec<i32> = walk.iter().map(|v| v.1).collect();
    assert_eq!(data, vec![1, 2, 10, 3, 10]);
    let walk = forest.post_ord_iter(a, true).unwrap().rest();
    let data: Vec<i32> = walk.iter().map(|v| v.1).collect();
    assert_eq!(data, vec![10, 2, 10, 3, 1]);
}

#[test]
fn nested_embeddings_are_followed_to_the_end() {
    let mut forest = Forest::new();
    let a = forest.create_tree(1);
    let b = forest.create_tree(2);
    let c = forest.create_tree(3);
    forest.add_child(a, 1, 11).unwrap();
    forest.add_child(b, 1, 21).unwrap();
    forest.add_child(c, 1, 31).unwrap();
    forest.add_subtree_ref(a, 1, b).unwrap();
    forest.add_subtree_ref(b, 1, c).unwrap();
    let walk = forest.pre_ord_iter(a, true).unwrap().rest();
    let data: Vec<i32> = walk.iter().map(|v| v.1).collect();
    assert_eq!(data, vec![1, 2, 3, 31, 21, 11]);
    let walk = forest.post_ord_iter(a, true).unwrap().rest();
    let data: Vec<i32> = walk.iter().map(|v| v.1).collect();
    assert_eq!(data, vec![31, 3, 21, 2, 11, 1]);
}

#[test]
fn a_deep_chain_is_walked_to_the_bottom_and_back() {
    let mut tree = Tree::new_no_ref();
    let mut current = tree.add_root(0);
    for i in 1..200 {
        current = tree.add_child(current, i).unwrap();
    }
    let pre: Vec<i32> = PreOrderIterator::new(&tree, false).rest().iter().map(|v| v.1).collect();
    assert_eq!(pre, (0..200).collect::<Vec<i32>>());
    let post: Vec<i32> = PostOrderIterator::new(&tree, false).rest().iter().map(|v| v.1).collect();
    assert_eq!(post, (0..200).rev().collect::<Vec<i32>>());
}

#[test]
fn a_walk_skips_what_was_deleted() {
    let (mut forest, a, _b) = two_trees();
    forest.delete_subtree(a, 2).unwrap();
    assert_eq!(forest.pre_ord_iter(a, true).unwrap().rest(), vec![(1, 1), (3, 3)]);
    assert_eq!(forest.post_ord_iter(a, true).unwrap().rest(), vec![(3, 3), (1, 1)]);
}

#[test]
fn a_walk_through_embedded_trees_visits_all_their_nodes() {
    let mut forest = Forest::new();
    let main = forest.create_tree(1);
    let wide = forest.create_tree(1000);
    let balanced = forest.create_tree(2000);
    let deep = forest.create_tree(3000);

    let mut main_nodes = vec![1i64];
    for i in 0..100usize {
        let parent = main_nodes[i / 3];
        main_nodes.push(forest.add_child(main, parent, 2 + i as i32).unwrap());
    }
    for i in 0..50 {
        forest.add_child(wide, 1, 1100 + i).unwrap();
    }
    let mut balanced_nodes = vec![1i64];
    for i in 0..32usize {
        let parent = balanced_nodes[i];
        balanced_nodes.push(forest.add_child(balanced, parent, 2100 + 2 * i as i32).unwrap());
        balanced_nodes.push(forest.add_child(balanced, parent, 2101 + 2 * i as i32).unwrap());
    }
    let mut current = 1;
    for i in 0..100 {
        current = forest.add_child(deep, current, 3100 + i).unwrap();
    }
    forest.add_subtree_ref(main, 1, wide).unwrap();
    forest.add_subtree_ref(wide, 1, balanced).unwrap();
    forest.add_subtree_ref(balanced, 1, deep).unwrap();

    let pre = forest.pre_ord_iter(main, true).unwrap().rest();
    let post = forest.post_ord_iter(main, true).unwrap().rest();
    assert_eq!(pre.len(), 101 + 51 + 65 + 101);
    assert_eq!(post.len(), 318);
    assert_eq!(pre[0], (1, 1));
    assert_eq!(pre[1], (1, 1000));
    assert_eq!(pre[2], (1, 2000));
    assert_eq!(pre[3], (1, 3000));
    assert_eq!(pre[4], (2, 3100));
    assert_eq!(post[0], (101, 3199));
    assert_eq!(post[317], (1, 1));
    let mut pre_data: Vec<i32> = pre.iter().map(|v| v.1).collect();
    let mut post_data: Vec<i32> = post.iter().map(|v| v.1).collect();
    pre_data.sort();
    post_data.sort();
    assert_eq!(pre_data, post_data);
    assert_eq!(forest.pre_ord_iter(main, false).unwrap().rest().len(), 101);
    assert_eq!(forest.pre_ord_iter(wide, true).unwrap().rest().len(), 51 + 65 + 101);
    assert_eq!(forest.ref_count(deep), Ok(1));
    assert!(!forest.delete_tree(deep));
}

#[test]
fn a_lone_walk_visits_every_live_node_once() {
    let mut tree = Tree::new_no_ref();
    tree.add_root(0);
    let mut nodes = vec![1i64];
    for i in 0..40usize {
        nodes.push(tree.add_child(nodes[i / 2], i as i32 + 1).unwrap());
    }
    tree.delete_subtree(nodes[5]).unwrap();
    let live: Vec<i64> = (1..=41).filter(|p| tree.contains(*p)).collect();
    let mut pre: Vec<i64> = tree.pre_ord_iter(false).rest().iter().map(|v| v.0).collect();
    let mut post: Vec<i64> = tree.post_ord_iter(false).rest().iter().map(|v| v.0).collect();
    pre.sort();
    post.sort();
    assert_eq!(pre, live);
    assert_eq!(post, live);
    assert!(live.len() < 41);
}
