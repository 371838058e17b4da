use hhds::chain::chain;
use hhds::error::TreeError;

#[test]
fn a_chain_of_nothing_is_empty() {
    let tree = chain(0);
    assert_eq!(tree.get_root(), 0);
    assert_eq!(tree.allocated(), 0);
}

#[test]
fn a_chain_of_one_is_a_root() {
    let tree = chain(1);
    assert_eq!(tree.get_root(), 1);
    assert_eq!(tree.get_data(1), Ok(1));
    assert_eq!(tree.get_first_child(1), Ok(0));
    assert_eq!(tree.allocated(), 1);
}

#[test]
fn a_chain_hangs_each_node_under_the_one_before() {
    let tree = chain(10);
    assert_eq!(tree.allocated(), 10);
    assert_eq!(tree.get_data(1), Ok(1));
    for p in 2..=10i64 {
        assert_eq!(tree.get_parent(p), Ok(p - 1));
        assert_eq!(tree.get_first_child(p - 1), Ok(p));
        assert_eq!(tree.get_last_child(p - 1), Ok(p));
        assert_eq!(tree.get_sibling_next(p), Ok(0));
        assert_eq!(tree.get_data(p), Ok((p - 2) as i32));
    }
    assert_eq!(tree.get_first_child(10), Ok(0));
    assert_eq!(tree.get_data(11), Err(TreeError::InvalidPosition));
    let walk: Vec<i64> = tree.pre_ord_iter(false).rest().iter().map(|v| v.0).collect();
    assert_eq!(walk, (1..=10).collect::<Vec<i64>>());
}
