use hhds::arena::Arena;
use hhds::error::TreeError;
use hhds::tree::Tree;

fn sample() -> (Tree, i64, i64, i64, i64, i64) {
    // root(1) -> a(10) -> d(40)
    //         -> b(20)
    //         -> c(30)
    let mut tree = Tree::new_no_ref();
    let root = tree.add_root(1);
    let a = tree.add_child(root, 10).unwrap();
    let c = tree.add_child(root, 30).unwrap();
    let b = tree.insert_next_sibling(a, 20).unwrap();
    let d = tree.add_child(a, 40).unwrap();
    (tree, root, a, b, c, d)
}

#[test]
fn arena_hands_out_increasing_positions() {
    let mut arena = Arena::new();
    assert_eq!(arena.len(), 1);
    assert_eq!(arena.allocate(7), 1);
    assert_eq!(arena.allocate(8), 2);
    assert_eq!(arena.len(), 3);
    assert_eq!(arena.get(1), Ok(7));
    assert_eq!(arena.get(2), Ok(8));
    assert_eq!(arena.get(0), Err(TreeError::InvalidPosition));
    assert_eq!(arena.get(3), Err(TreeError::InvalidPosition));
    assert_eq!(arena.get(-1), Err(TreeError::InvalidPosition));
    assert!(arena.contains(1));
    arena.release(1);
    assert!(!arena.contains(1));
    assert_eq!(arena.get(1), Err(TreeError::InvalidPosition));
    // A released position is not handed out again.
    assert_eq!(arena.allocate(9), 3);
    let node = arena.node(3);
    assert!(node.live);
    assert_eq!(node.data, 9);
    assert_eq!(node.parent, 0);
    assert_eq!(node.first_child, 0);
    assert_eq!(node.last_child, 0);
    assert_eq!(node.next_sibling, 0);
    assert_eq!(node.prev_sibling, 0);
    assert_eq!(node.subtree_ref, None);
}

#[test]
fn empty_tree_has_no_root() {
    let tree = Tree::new_no_ref();
    assert_eq!(tree.get_root(), 0);
    assert_eq!(tree.allocated(), 0);
    assert_eq!(tree.get_data(1), Err(TreeError::InvalidPosition));
    assert!(!tree.contains(0));
}

#[test]
fn second_root_changes_nothing() {
    let mut tree = Tree::new_no_ref();
    assert_eq!(tree.add_root(5), 1);
    assert_eq!(tree.add_root(6), 1);
    assert_eq!(tree.get_root(), 1);
    assert_eq!(tree.get_data(1), Ok(5));
    assert_eq!(tree.allocated(), 1);
}

#[test]
fn tree_navigation_follows_insertions() {
    let (tree, root, a, b, c, d) = sample();
    assert_eq!((root, a, c, b, d), (1, 2, 3, 4, 5));
    assert_eq!(tree.get_first_child(root), Ok(a));
    assert_eq!(tree.get_last_child(root), Ok(c));
    assert_eq!(tree.get_sibling_next(a), Ok(b));
    assert_eq!(tree.get_sibling_next(b), Ok(c));
    assert_eq!(tree.get_sibling_next(c), Ok(0));
    assert_eq!(tree.get_sibling_prev(c), Ok(b));
    assert_eq!(tree.get_sibling_prev(b), Ok(a));
    assert_eq!(tree.get_sibling_prev(a), Ok(0));
    assert_eq!(tree.get_parent(b), Ok(root));
    assert_eq!(tree.get_parent(d), Ok(a));
    assert_eq!(tree.get_parent(root), Ok(0));
    assert_eq!(tree.get_sibling_next(root), Ok(0));
    assert_eq!(tree.get_sibling_prev(root), Ok(0));
    assert_eq!(tree.get_first_child(d), Ok(0));
    assert_eq!(tree.get_last_child(d), Ok(0));
    assert_eq!(tree.get_first_child(a), Ok(d));
    assert_eq!(tree.get_last_child(a), Ok(d));
    assert_eq!(tree.get_data(b), Ok(20));
    assert_eq!(tree.get_data(d), Ok(40));
}

#[test]
fn parent_of_first_child_is_the_node() {
    let (tree, root, a, _b, _c, _d) = sample();
    for p in [root, a] {
        let first = tree.get_first_child(p).unwrap();
        assert_ne!(first, 0);
        assert_eq!(tree.get_parent(first), Ok(p));
        let last = tree.get_last_child(p).unwrap();
        assert_eq!(tree.get_parent(last), Ok(p));
    }
}

#[test]
fn sibling_links_are_mutual() {
    let (tree, _root, a, b, c, d) = sample();
    for n in [a, b, c, d] {
        let prev = tree.get_sibling_prev(n).unwrap();
        if prev != 0 {
            assert_eq!(tree.get_sibling_next(prev), Ok(n));
        }
        let next = tree.get_sibling_next(n).unwrap();
        if next != 0 {
            assert_eq!(tree.get_sibling_prev(next), Ok(n));
        }
    }
    assert_eq!(tree.get_sibling_prev(b), Ok(a));
    assert_eq!(tree.get_sibling_next(b), Ok(c));
}

#[test]
fn reading_twice_gives_the_same() {
    let (tree, root, a, b, c, d) = sample();
    for n in [0, root, a, b, c, d, 99, -1] {
        assert_eq!(tree.get_parent(n), tree.get_parent(n));
        assert_eq!(tree.get_first_child(n), tree.get_first_child(n));
        assert_eq!(tree.get_last_child(n), tree.get_last_child(n));
        assert_eq!(tree.get_sibling_next(n), tree.get_sibling_next(n));
        assert_eq!(tree.get_sibling_prev(n), tree.get_sibling_prev(n));
        assert_eq!(tree.get_data(n), tree.get_data(n));
    }
    assert_eq!(tree.get_root(), tree.get_root());
}

#[test]
fn positions_outside_the_tree_are_invalid() {
    let (mut tree, _root, _a, _b, _c, _d) = sample();
    for bad in [0, 6, 99, -1, i64::MIN, i64::MAX] {
        assert_eq!(tree.get_parent(bad), Err(TreeError::InvalidPosition));
        assert_eq!(tree.get_first_child(bad), Err(TreeError::InvalidPosition));
        assert_eq!(tree.get_last_child(bad), Err(TreeError::InvalidPosition));
        assert_eq!(tree.get_sibling_next(bad), Err(TreeError::InvalidPosition));
        assert_eq!(tree.get_sibling_prev(bad), Err(TreeError::InvalidPosition));
        assert_eq!(tree.get_data(bad), Err(TreeError::InvalidPosition));
        assert_eq!(tree.get_subtree_ref(bad), Err(TreeError::InvalidPosition));
        assert_eq!(tree.add_child(bad, 1), Err(TreeError::InvalidPosition));
        assert_eq!(tree.append_sibling(bad, 1), Err(TreeError::InvalidPosition));
        assert_eq!(tree.insert_next_sibling(bad, 1), Err(TreeError::InvalidPosition));
        assert_eq!(tree.add_subtree_ref(bad, -1), Err(TreeError::InvalidPosition));
        assert_eq!(tree.delete_leaf(bad), Err(TreeError::InvalidPosition));
        assert_eq!(tree.delete_subtree(bad), Err(TreeError::InvalidPosition));
    }
    assert_eq!(tree.allocated(), 5);
}

#[test]
fn nothing_goes_behind_the_root() {
    let (mut tree, root, _a, _b, _c, _d) = sample();
    assert_eq!(tree.append_sibling(root, 1), Err(TreeError::InvalidPosition));
    assert_eq!(tree.insert_next_sibling(root, 1), Err(TreeError::InvalidPosition));
    assert_eq!(tree.get_sibling_next(root), Ok(0));
}

#[test]
fn append_sibling_behind_the_last_child_moves_the_end() {
    let (mut tree, root, _a, _b, c, _d) = sample();
    let e = tree.append_sibling(c, 50).unwrap();
    assert_eq!(e, 6);
    assert_eq!(tree.get_last_child(root), Ok(e));
    assert_eq!(tree.get_sibling_next(c), Ok(e));
    assert_eq!(tree.get_sibling_prev(e), Ok(c));
    assert_eq!(tree.get_sibling_next(e), Ok(0));
    assert_eq!(tree.get_parent(e), Ok(root));
}

#[test]
fn both_names_insert_in_the_same_way() {
    let (mut one, _, a1, b1, _, _) = sample();
    let (mut two, _, a2, b2, _, _) = sample();
    let x = one.append_sibling(a1, 7).unwrap();
    let y = two.insert_next_sibling(a2, 7).unwrap();
    assert_eq!(x, y);
    assert_eq!(one.get_sibling_next(a1), Ok(x));
    assert_eq!(two.get_sibling_next(a2), Ok(y));
    assert_eq!(one.get_sibling_next(x), Ok(b1));
    assert_eq!(two.get_sibling_next(y), Ok(b2));
    assert_eq!(one.get_sibling_prev(b1), Ok(x));
    assert_eq!(two.get_sibling_prev(b2), Ok(y));
}

#[test]
fn delete_leaf_of_a_node_with_children_fails() {
    let (mut tree, root, a, _b, _c, d) = sample();
    assert_eq!(tree.delete_leaf(a), Err(TreeError::NotALeaf));
    assert_eq!(tree.delete_leaf(root), Err(TreeError::NotALeaf));
    assert_eq!(tree.get_first_child(a), Ok(d));
    assert_eq!(tree.get_data(a), Ok(10));
}

#[test]
fn the_root_cannot_be_deleted() {
    let (mut tree, root, _a, _b, _c, _d) = sample();
    assert_eq!(tree.delete_subtree(root).err(), Some(TreeError::CannotDeleteRoot));
    assert_eq!(tree.get_root(), root);
    let mut lone = Tree::new_no_ref();
    let r = lone.add_root(3);
    assert_eq!(lone.delete_leaf(r), Err(TreeError::CannotDeleteRoot));
    assert_eq!(lone.delete_subtree(r).err(), Some(TreeError::CannotDeleteRoot));
    assert_eq!(lone.get_data(r), Ok(3));
}

#[test]
fn delete_leaf_relinks_the_neighbours() {
    let (mut tree, root, a, b, c, d) = sample();
    assert_eq!(tree.delete_leaf(b), Ok(None));
    assert_eq!(tree.get_sibling_next(a), Ok(c));
    assert_eq!(tree.get_sibling_prev(c), Ok(a));
    assert_eq!(tree.get_data(b), Err(TreeError::InvalidPosition));
    assert_eq!(tree.delete_leaf(b), Err(TreeError::InvalidPosition));
    assert_eq!(tree.delete_leaf(c), Ok(None));
    assert_eq!(tree.get_last_child(root), Ok(a));
    assert_eq!(tree.get_sibling_next(a), Ok(0));
    assert_eq!(tree.delete_leaf(d), Ok(None));
    assert_eq!(tree.get_first_child(a), Ok(0));
    assert_eq!(tree.get_last_child(a), Ok(0));
    assert_eq!(tree.delete_leaf(a), Ok(None));
    assert_eq!(tree.get_first_child(root), Ok(0));
    assert_eq!(tree.get_last_child(root), Ok(0));
    // Positions are not reused.
    assert_eq!(tree.add_child(root, 9), Ok(6));
    assert_eq!(tree.get_first_child(root), Ok(6));
}

#[test]
fn delete_first_child_moves_the_front() {
    let (mut tree, root, a, b, _c, d) = sample();
    assert_eq!(tree.delete_leaf(d), Ok(None));
    assert_eq!(tree.delete_leaf(a), Ok(None));
    assert_eq!(tree.get_first_child(root), Ok(b));
    assert_eq!(tree.get_sibling_prev(b), Ok(0));
}

#[test]
fn delete_subtree_takes_everything_below() {
    let (mut tree, root, a, b, c, d) = sample();
    let e = tree.add_child(d, 50).unwrap();
    let f = tree.add_child(a, 60).unwrap();
    tree.add_subtree_ref(d, -3).unwrap();
    tree.add_subtree_ref(f, -4).unwrap();
    tree.add_subtree_ref(b, -5).unwrap();
    let mut released = tree.delete_subtree(a).unwrap();
    released.sort();
    assert_eq!(released, vec![-4, -3]);
    for gone in [a, d, e, f] {
        assert_eq!(tree.get_data(gone), Err(TreeError::InvalidPosition));
    }
    assert_eq!(tree.get_first_child(root), Ok(b));
    assert_eq!(tree.get_sibling_prev(b), Ok(0));
    assert_eq!(tree.get_sibling_next(b), Ok(c));
    assert_eq!(tree.get_last_child(root), Ok(c));
    assert_eq!(tree.get_subtree_ref(b), Ok(Some(-5)));
    assert_eq!(tree.held_refs(), vec![-5]);
    assert_eq!(tree.delete_subtree(a).err(), Some(TreeError::InvalidPosition));
}

#[test]
fn delete_subtree_of_a_leaf_is_delete_leaf() {
    let (mut tree, _root, a, b, c, _d) = sample();
    assert_eq!(tree.delete_subtree(b), Ok(vec![]));
    assert_eq!(tree.get_sibling_next(a), Ok(c));
    assert_eq!(tree.get_data(b), Err(TreeError::InvalidPosition));
}

#[test]
fn a_node_embeds_one_tree_at_a_time() {
    let (mut tree, _root, a, _b, _c, _d) = sample();
    assert_eq!(tree.get_subtree_ref(a), Ok(None));
    assert_eq!(tree.add_subtree_ref(a, -1), Ok(None));
    assert_eq!(tree.get_subtree_ref(a), Ok(Some(-1)));
    assert_eq!(tree.add_subtree_ref(a, -2), Ok(Some(-1)));
    assert_eq!(tree.get_subtree_ref(a), Ok(Some(-2)));
    assert_eq!(tree.held_refs(), vec![-2]);
}

#[test]
fn a_position_is_no_tree_identifier() {
    let (mut tree, _root, a, b, _c, _d) = sample();
    assert_eq!(tree.add_subtree_ref(a, b), Err(TreeError::UnknownTree));
    assert_eq!(tree.add_subtree_ref(a, 0), Err(TreeError::UnknownTree));
    assert_eq!(tree.get_subtree_ref(a), Ok(None));
}

#[test]
fn delete_leaf_gives_up_the_embedding() {
    let (mut tree, _root, _a, b, _c, _d) = sample();
    tree.add_subtree_ref(b, -7).unwrap();
    assert_eq!(tree.delete_leaf(b), Ok(Some(-7)));
    assert_eq!(tree.held_refs(), Vec::<i64>::new());
}

#[test]
fn lone_tree_walks() {
    let (mut tree, root, a, b, c, d) = sample();
    tree.add_subtree_ref(a, -1).unwrap();
    let pre = tree.pre_ord_iter(true).rest();
    assert_eq!(pre, vec![(root, 1), (a, 10), (d, 40), (b, 20), (c, 30)]);
    let pre_plain = tree.pre_ord_iter(false).rest();
    assert_eq!(pre, pre_plain);
    let post = tree.post_ord_iter(true).rest();
    assert_eq!(post, vec![(d, 40), (a, 10), (b, 20), (c, 30), (root, 1)]);
    let empty = Tree::new_no_ref();
    assert_eq!(empty.pre_ord_iter(false).rest(), vec![]);
    assert_eq!(empty.post_ord_iter(false).rest(), vec![]);
    assert_eq!(empty.pre_ord_iter(false).deref(), 0);
}

#[test]
fn every_error_has_its_message() {
    assert_eq!(TreeError::InvalidPosition.message(), "position does not address a live node");
    assert_eq!(TreeError::UnknownTree.message(), "identifier names no registered tree");
    assert_eq!(TreeError::NotALeaf.message(), "node has children");
    assert_eq!(TreeError::CannotDeleteRoot.message(), "the root cannot be deleted");
}

#[test]
fn the_crate_root_names_the_main_types() {
    let mut forest = hhds::Forest::new();
    let id = forest.create_tree(3);
    let handle: hhds::TreeHandle = forest.get_tree(id).unwrap();
    let mut pre: hhds::PreOrderIterator = handle.pre_ord_iter(false);
    assert_eq!(pre.next(), Some((1, 3)));
    let mut post: hhds::PostOrderIterator = handle.post_ord_iter(false);
    assert_eq!(post.next(), Some((1, 3)));
    let e: hhds::TreeError = handle.get_data(2).unwrap_err();
    assert_eq!(e, TreeError::InvalidPosition);
    let lone: hhds::Tree = hhds::Tree::new_no_ref();
    assert_eq!(lone.get_root(), 0);
}
