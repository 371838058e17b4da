//! The depth bound of a walk that follows embeddings, and why it does not
//! matter where no tree embeds itself, directly or through others.

use vstd::prelude::*;
use crate::forest_model::ForestView;
use crate::model::TreeView;
use crate::traversal::{
    entered, post_children, post_from, postorder, pre_children, pre_from, preorder,
};

verus! {

/// `rank` puts every tree above the trees that its nodes embed. Such a rank
/// exists exactly where the embeddings form no cycle.
pub open spec fn ranks_embeddings(trees: Seq<Option<TreeView>>, rank: spec_fn(int) -> nat) -> bool {
    forall|a: int, p: int|
        0 <= a < trees.len() && trees[a] is Some && 0 <= p < trees[a]->0.nodes.len() ==> match (
        #[trigger] trees[a]->0.nodes[p]).subtree_ref {
            Some(id) => (ForestView { trees }).is_registered(id) ==> rank(ForestView::slot_of(id))
                < rank(a),
            None => true,
        }
}

/// With more depth than the rank of its tree, a pre-order walk from a node
/// is the same whatever the depth is: it never reaches the bound.
pub proof fn lemma_pre_from_depth_free(
    trees: Seq<Option<TreeView>>,
    rank: spec_fn(int) -> nat,
    a: int,
    n: int,
    follow: bool,
    d1: nat,
    d2: nat,
)
    requires
        (ForestView { trees }).wf(),
        ranks_embeddings(trees, rank),
        0 <= a < trees.len(),
        trees[a] is Some,
        0 <= n < trees[a]->0.nodes.len(),
        d1 > rank(a),
        d2 > rank(a),
    ensures
        pre_from(trees, trees[a]->0, n, follow, d1) == pre_from(
            trees,
            trees[a]->0,
            n,
            follow,
            d2,
        ),
    decreases d1, trees[a]->0.nodes.len() - n, trees[a]->0.children_of(n).len() + 1,
{
    let t = trees[a]->0;
    lemma_pre_children_depth_free(trees, rank, a, n, 0, follow, d1, d2);
    match entered(trees, t, n, follow, d1) {
        Some(inner) => {
            let id = t.nodes[n].subtree_ref->0;
            let b = ForestView::slot_of(id);
            assert(trees[a]->0.nodes[n].subtree_ref == Some(id));
            assert(rank(b) < rank(a));
            assert(entered(trees, t, n, follow, d2) == Some(inner));
            lemma_pre_from_depth_free(
                trees,
                rank,
                b,
                inner.root,
                follow,
                (d1 - 1) as nat,
                (d2 - 1) as nat,
            );
        },
        None => {
            assert(entered(trees, t, n, follow, d2) is None);
        },
    }
}

/// The same for the walks of the children from index `i` on.
pub proof fn lemma_pre_children_depth_free(
    trees: Seq<Option<TreeView>>,
    rank: spec_fn(int) -> nat,
    a: int,
    n: int,
    i: int,
    follow: bool,
    d1: nat,
    d2: nat,
)
    requires
        (ForestView { trees }).wf(),
        ranks_embeddings(trees, rank),
        0 <= a < trees.len(),
        trees[a] is Some,
        0 <= n < trees[a]->0.nodes.len(),
        d1 > rank(a),
        d2 > rank(a),
    ensures
        pre_children(trees, trees[a]->0, n, i, follow, d1) == pre_children(
            trees,
            trees[a]->0,
            n,
            i,
            follow,
            d2,
        ),
    decreases d1, trees[a]->0.nodes.len() - n, trees[a]->0.children_of(n).len() - i,
{
    let t = trees[a]->0;
    if 0 <= i < t.children_of(n).len() {
        let c = t.children_of(n)[i];
        if n < c < t.nodes.len() {
            lemma_pre_from_depth_free(trees, rank, a, c, follow, d1, d2);
        }
        lemma_pre_children_depth_free(trees, rank, a, n, i + 1, follow, d1, d2);
    }
}

/// With more depth than the rank of its tree, a post-order walk from a node
/// is the same whatever the depth is: it never reaches the bound.
pub proof fn lemma_post_from_depth_free(
    trees: Seq<Option<TreeView>>,
    rank: spec_fn(int) -> nat,
    a: int,
    n: int,
    follow: bool,
    d1: nat,
    d2: nat,
)
    requires
        (ForestView { trees }).wf(),
        ranks_embeddings(trees, rank),
        0 <= a < trees.len(),
        trees[a] is Some,
        0 <= n < trees[a]->0.nodes.len(),
        d1 > rank(a),
        d2 > rank(a),
    ensures
        post_from(trees, trees[a]->0, n, follow, d1) == post_from(
            trees,
            trees[a]->0,
            n,
            follow,
            d2,
        ),
    decreases d1, trees[a]->0.nodes.len() - n, trees[a]->0.children_of(n).len() + 1,
{
    let t = trees[a]->0;
    lemma_post_children_depth_free(trees, rank, a, n, 0, follow, d1, d2);
    match entered(trees, t, n, follow, d1) {
        Some(inner) => {
            let id = t.nodes[n].subtree_ref->0;
            let b = ForestView::slot_of(id);
            assert(trees[a]->0.nodes[n].subtree_ref == Some(id));
            assert(rank(b) < rank(a));
            assert(entered(trees, t, n, follow, d2) == Some(inner));
            lemma_post_from_depth_free(
                trees,
                rank,
                b,
                inner.root,
                follow,
                (d1 - 1) as nat,
                (d2 - 1) as nat,
            );
        },
        None => {
            assert(entered(trees, t, n, follow, d2) is None);
        },
    }
}

/// The same for the walks of the children from index `i` on.
pub proof fn lemma_post_children_depth_free(
    trees: Seq<Option<TreeView>>,
    rank: spec_fn(int) -> nat,
    a: int,
    n: int,
    i: int,
    follow: bool,
    d1: nat,
    d2: nat,
)
    requires
        (ForestView { trees }).wf(),
        ranks_embeddings(trees, rank),
        0 <= a < trees.len(),
        trees[a] is Some,
        0 <= n < trees[a]->0.nodes.len(),
        d1 > rank(a),
        d2 > rank(a),
    ensures
        post_children(trees, trees[a]->0, n, i, follow, d1) == post_children(
            trees,
            trees[a]->0,
            n,
            i,
            follow,
            d2,
        ),
    decreases d1, trees[a]->0.nodes.len() - n, trees[a]->0.children_of(n).len() - i,
{
    let t = trees[a]->0;
    if 0 <= i < t.children_of(n).len() {
        let c = t.children_of(n)[i];
        if n < c < t.nodes.len() {
            lemma_post_from_depth_free(trees, rank, a, c, follow, d1, d2);
        }
        lemma_post_children_depth_free(trees, rank, a, n, i + 1, follow, d1, d2);
    }
}

/// Where the embeddings of a forest form no cycle, a walk never reaches its
/// depth bound: with any greater bound it would visit the same nodes.
pub proof fn lemma_walk_depth_free(
    trees: Seq<Option<TreeView>>,
    rank: spec_fn(int) -> nat,
    id: i64,
    follow: bool,
    depth: nat,
)
    requires
        (ForestView { trees }).wf(),
        ranks_embeddings(trees, rank),
        (ForestView { trees }).is_registered(id),
        rank(ForestView::slot_of(id)) < trees.len(),
        depth >= trees.len(),
    ensures
        preorder(trees, (ForestView { trees }).tree(id), follow) == pre_from(
            trees,
            (ForestView { trees }).tree(id),
            (ForestView { trees }).tree(id).root,
            follow,
            depth,
        ),
        postorder(trees, (ForestView { trees }).tree(id), follow) == post_from(
            trees,
            (ForestView { trees }).tree(id),
            (ForestView { trees }).tree(id).root,
            follow,
            depth,
        ),
{
    let a = ForestView::slot_of(id);
    let t = trees[a]->0;
    lemma_pre_from_depth_free(trees, rank, a, t.root, follow, trees.len(), depth);
    lemma_post_from_depth_free(trees, rank, a, t.root, follow, trees.len(), depth);
}

} // verus!
