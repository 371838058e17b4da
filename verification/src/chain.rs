//! A tree of a given size in which every node but the last has one child.

use vstd::prelude::*;
use crate::model::TreeView;
use crate::tree::Tree;

verus! {

/// The chain of `n` nodes: the root at position 1 holds 1, and the node at
/// position `p + 1` hangs under the node at `p` and holds `p - 1`, cut to 32
/// bits.
pub open spec fn chain_view(n: nat) -> TreeView
    decreases n,
{
    if n == 0 {
        TreeView::empty()
    } else if n == 1 {
        TreeView::empty().with_root(1)
    } else {
        chain_view((n - 1) as nat).with_child(n - 1, ((n - 2) as u32) as i32)
    }
}

/// A chain is a well-formed tree whose last node is live.
pub proof fn lemma_chain_wf(n: nat)
    ensures
        chain_view(n).wf(),
        chain_view(n).nodes.len() == n + 1,
        n > 0 ==> chain_view(n).is_live(n as int),
    decreases n,
{
    if n == 0 {
    } else if n == 1 {
        TreeView::empty().lemma_with_root_wf(1);
    } else {
        lemma_chain_wf((n - 1) as nat);
        chain_view((n - 1) as nat).lemma_with_child_wf(n - 1, ((n - 2) as u32) as i32);
    }
}

/// Builds the chain of `num_nodes` nodes.
pub fn chain(num_nodes: u32) -> (tree: Tree)
    ensures
        tree.wf(),
        tree@ == chain_view(num_nodes as nat),
{
    let mut tree = Tree::new_no_ref();
    if num_nodes == 0 {
        return tree;
    }
    let root = tree.add_root(1);
    let mut current = root;
    let mut i: u32 = 0;
    while i < num_nodes - 1
        invariant
            tree.wf(),
            num_nodes > 0,
            i <= num_nodes - 1,
            current == i + 1,
            tree@ == chain_view((i + 1) as nat),
        decreases num_nodes - 1 - i,
    {
        proof {
            lemma_chain_wf((i + 1) as nat);
        }
        let added = tree.add_child(current, #[verifier::truncate] (i as i32));
        match added {
            Ok(pos) => {
                current = pos;
            },
            Err(_) => {},
        }
        i = i + 1;
    }
    tree
}

} // verus!
