use hhds::error::TreeError;
use hhds::forest::Forest;

#[test]
fn identifiers_count_down_from_minus_one() {
    let mut forest = Forest::default();
    assert_eq!(forest.issued(), 0);
    assert_eq!(forest.create_tree(5), -1);
    assert_eq!(forest.create_tree(6), -2);
    assert_eq!(forest.create_tree(7), -3);
    assert_eq!(forest.issued(), 3);
    assert!(forest.delete_tree(-2));
    // The identifier of a deleted tree is not given out again.
    assert_eq!(forest.create_tree(8), -4);
    assert!(forest.contains(-1));
    assert!(!forest.contains(-2));
    assert!(forest.contains(-4));
    assert_eq!(forest.get_tree(-4).unwrap().get_data(1), Ok(8));
}

#[test]
fn a_new_tree_has_its_root_and_no_references() {
    let mut forest = Forest::new();
    let id = forest.create_tree(42);
    let tree = forest.get_tree(id).unwrap();
    assert_eq!(tree.get_root(), 1);
    assert_eq!(tree.get_data(1), Ok(42));
    assert_eq!(tree.get_first_child(1), Ok(0));
    assert_eq!(tree.allocated(), 1);
    assert_eq!(forest.ref_count(id), Ok(0));
}

#[test]
fn unknown_trees_are_reported() {
    let mut forest = Forest::new();
    let id = forest.create_tree(1);
    for bad in [0, 1, 5, -2, -100, i64::MIN, i64::MAX] {
        assert_eq!(forest.get_tree(bad).err(), Some(TreeError::UnknownTree));
        assert_eq!(forest.ref_count(bad), Err(TreeError::UnknownTree));
        assert_eq!(forest.add_child(bad, 1, 0), Err(TreeError::UnknownTree));
        assert_eq!(forest.append_sibling(bad, 1, 0), Err(TreeError::UnknownTree));
        assert_eq!(forest.insert_next_sibling(bad, 1, 0), Err(TreeError::UnknownTree));
        assert_eq!(forest.add_subtree_ref(bad, 1, id), Err(TreeError::UnknownTree));
        assert_eq!(forest.add_subtree_ref(id, 1, bad), Err(TreeError::UnknownTree));
        assert_eq!(forest.delete_leaf(bad, 1), Err(TreeError::UnknownTree));
        assert_eq!(forest.delete_subtree(bad, 1), Err(TreeError::UnknownTree));
        assert!(forest.pre_ord_iter(bad, true).is_err());
        assert!(forest.post_ord_iter(bad, true).is_err());
        assert!(!forest.delete_tree(bad));
        assert!(!forest.contains(bad));
    }
    assert_eq!(forest.ref_count(id), Ok(0));
    assert!(forest.delete_tree(id));
    assert_eq!(forest.get_tree(id).err(), Some(TreeError::UnknownTree));
    assert!(!forest.delete_tree(id));
}

#[test]
fn forest_operations_report_bad_positions() {
    let mut forest = Forest::new();
    let id = forest.create_tree(1);
    let other = forest.create_tree(2);
    assert_eq!(forest.add_child(id, 7, 0), Err(TreeError::InvalidPosition));
    assert_eq!(forest.add_child(id, other, 0), Err(TreeError::InvalidPosition));
    assert_eq!(forest.append_sibling(id, 1, 0), Err(TreeError::InvalidPosition));
    assert_eq!(forest.insert_next_sibling(id, 0, 0), Err(TreeError::InvalidPosition));
    assert_eq!(forest.add_subtree_ref(id, 7, other), Err(TreeError::InvalidPosition));
    assert_eq!(forest.add_subtree_ref(id, 7, 99), Err(TreeError::InvalidPosition));
    assert_eq!(forest.delete_leaf(id, 7), Err(TreeError::InvalidPosition));
    assert_eq!(forest.delete_subtree(id, 7), Err(TreeError::InvalidPosition));
    assert_eq!(forest.delete_leaf(id, 1), Err(TreeError::CannotDeleteRoot));
    assert_eq!(forest.delete_subtree(id, 1), Err(TreeError::CannotDeleteRoot));
    let child = forest.add_child(id, 1, 5).unwrap();
    assert_eq!(child, 2);
    assert_eq!(forest.delete_leaf(id, 1), Err(TreeError::NotALeaf));
    assert_eq!(forest.ref_count(other), Ok(0));
}

#[test]
fn a_referenced_tree_stays_until_the_reference_is_gone() {
    let mut forest = Forest::new();
    let a = forest.create_tree(1);
    let b = forest.create_tree(2);
    let n = forest.add_child(a, 1, 10).unwrap();
    forest.add_subtree_ref(a, n, b).unwrap();
    assert_eq!(forest.ref_count(b), Ok(1));
    assert!(!forest.delete_tree(b));
    assert!(!forest.delete_tree(b));
    assert!(forest.contains(b));
    forest.delete_leaf(a, n).unwrap();
    assert_eq!(forest.ref_count(b), Ok(0));
    assert!(forest.delete_tree(b));
    assert!(!forest.contains(b));
}

#[test]
fn deleting_a_subtree_gives_up_its_references() {
    let mut forest = Forest::new();
    let a = forest.create_tree(1);
    let b = forest.create_tree(2);
    let c = forest.create_tree(3);
    let n = forest.add_child(a, 1, 10).unwrap();
    let m = forest.add_child(a, n, 11).unwrap();
    let k = forest.add_child(a, n, 12).unwrap();
    forest.add_subtree_ref(a, n, b).unwrap();
    forest.add_subtree_ref(a, m, b).unwrap();
    forest.add_subtree_ref(a, k, c).unwrap();
    assert_eq!(forest.ref_count(b), Ok(2));
    assert_eq!(forest.ref_count(c), Ok(1));
    assert!(!forest.delete_tree(b));
    assert!(!forest.delete_tree(c));
    forest.delete_subtree(a, n).unwrap();
    assert_eq!(forest.ref_count(b), Ok(0));
    assert_eq!(forest.ref_count(c), Ok(0));
    assert!(forest.delete_tree(b));
    assert!(forest.delete_tree(c));
    assert_eq!(forest.get_tree(a).unwrap().get_first_child(1), Ok(0));
}

#[test]
fn a_new_target_replaces_the_old_one() {
    let mut forest = Forest::new();
    let a = forest.create_tree(1);
    let b = forest.create_tree(2);
    let c = forest.create_tree(3);
    forest.add_subtree_ref(a, 1, b).unwrap();
    assert_eq!(forest.ref_count(b), Ok(1));
    forest.add_subtree_ref(a, 1, c).unwrap();
    assert_eq!(forest.ref_count(b), Ok(0));
    assert_eq!(forest.ref_count(c), Ok(1));
    assert_eq!(forest.get_tree(a).unwrap().get_subtree_ref(1), Ok(Some(c)));
    // The same target again leaves the count as it is.
    forest.add_subtree_ref(a, 1, c).unwrap();
    assert_eq!(forest.ref_count(c), Ok(1));
    assert!(forest.delete_tree(b));
    assert!(!forest.delete_tree(c));
}

#[test]
fn a_deleted_tree_gives_up_what_it_held() {
    let mut forest = Forest::new();
    let a = forest.create_tree(1);
    let b = forest.create_tree(2);
    let n = forest.add_child(a, 1, 10).unwrap();
    forest.add_subtree_ref(a, 1, b).unwrap();
    forest.add_subtree_ref(a, n, b).unwrap();
    assert_eq!(forest.ref_count(b), Ok(2));
    assert!(forest.delete_tree(a));
    assert_eq!(forest.ref_count(b), Ok(0));
    assert!(forest.delete_tree(b));
}

#[test]
fn a_tree_that_embeds_itself_stays() {
    let mut forest = Forest::new();
    let a = forest.create_tree(1);
    let n = forest.add_child(a, 1, 10).unwrap();
    forest.add_subtree_ref(a, n, a).unwrap();
    assert_eq!(forest.ref_count(a), Ok(1));
    assert!(!forest.delete_tree(a));
    forest.delete_leaf(a, n).unwrap();
    assert!(forest.delete_tree(a));
}

#[test]
fn forest_insertions_keep_the_order() {
    let mut forest = Forest::new();
    let a = forest.create_tree(1);
    let x = forest.add_child(a, 1, 10).unwrap();
    let z = forest.add_child(a, 1, 30).unwrap();
    let y = forest.insert_next_sibling(a, x, 20).unwrap();
    let w = forest.append_sibling(a, z, 40).unwrap();
    let tree = forest.get_tree(a).unwrap();
    assert_eq!(tree.get_first_child(1), Ok(x));
    assert_eq!(tree.get_sibling_next(x), Ok(y));
    assert_eq!(tree.get_sibling_next(y), Ok(z));
    assert_eq!(tree.get_sibling_next(z), Ok(w));
    assert_eq!(tree.get_last_child(1), Ok(w));
    let mut it = forest.pre_ord_iter(a, false).unwrap();
    assert_eq!(it.rest(), vec![(1, 1), (x, 10), (y, 20), (z, 30), (w, 40)]);
}

#[test]
fn a_handle_reads_its_tree() {
    let mut forest = Forest::new();
    let a = forest.create_tree(1);
    let b = forest.create_tree(2);
    let x = forest.add_child(a, 1, 10).unwrap();
    let y = forest.add_child(a, 1, 20).unwrap();
    forest.add_subtree_ref(a, y, b).unwrap();
    let handle = forest.get_tree(a).unwrap();
    assert_eq!(handle.tree_id(), a);
    assert_eq!(handle.get_root(), 1);
    assert_eq!(handle.allocated(), 3);
    assert!(handle.contains(x));
    assert!(!handle.contains(9));
    assert_eq!(handle.get_data(x), Ok(10));
    assert_eq!(handle.get_parent(x), Ok(1));
    assert_eq!(handle.get_first_child(1), Ok(x));
    assert_eq!(handle.get_last_child(1), Ok(y));
    assert_eq!(handle.get_sibling_next(x), Ok(y));
    assert_eq!(handle.get_sibling_prev(y), Ok(x));
    assert_eq!(handle.get_subtree_ref(y), Ok(Some(b)));
    assert_eq!(handle.get_subtree_ref(x), Ok(None));
    assert_eq!(handle.held_refs(), vec![b]);
    assert_eq!(handle.get_data(9), Err(TreeError::InvalidPosition));
    assert_eq!(handle.get_parent(0), Err(TreeError::InvalidPosition));
    assert_eq!(handle.pre_ord_iter(true).rest(), vec![(1, 1), (x, 10), (y, 20), (1, 2)]);
    assert_eq!(handle.pre_ord_iter(false).rest(), vec![(1, 1), (x, 10), (y, 20)]);
    assert_eq!(handle.post_ord_iter(true).rest(), vec![(x, 10), (1, 2), (y, 20), (1, 1)]);
    assert_eq!(handle.post_ord_iter(false).rest(), vec![(x, 10), (y, 20), (1, 1)]);
}
