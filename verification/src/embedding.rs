//! What following embeddings changes in a walk: nothing where there is
//! nothing to follow, and never for the shorter.

use vstd::prelude::*;
use crate::model::TreeView;
use crate::traversal::{
    entered, post_children, post_from, postorder, pre_children, pre_from, preorder,
};

verus! {

/// A pre-order walk that enters no embedded tree is the walk of the tree
/// alone, whatever forest the tree is in.
pub proof fn lemma_pre_from_alone(
    trees: Seq<Option<TreeView>>,
    t: TreeView,
    n: int,
    follow: bool,
    depth: nat,
)
    requires
        !follow || depth == 0 || trees.len() == 0,
    ensures
        pre_from(trees, t, n, follow, depth) == pre_from(Seq::empty(), t, n, false, 0),
    decreases t.nodes.len() - n, t.children_of(n).len() + 1,
{
    assert(entered(trees, t, n, follow, depth) is None);
    lemma_pre_children_alone(trees, t, n, 0, follow, depth);
}

/// The same for the walks of the children from index `i` on.
pub proof fn lemma_pre_children_alone(
    trees: Seq<Option<TreeView>>,
    t: TreeView,
    n: int,
    i: int,
    follow: bool,
    depth: nat,
)
    requires
        !follow || depth == 0 || trees.len() == 0,
    ensures
        pre_children(trees, t, n, i, follow, depth) == pre_children(
            Seq::empty(),
            t,
            n,
            i,
            false,
            0,
        ),
    decreases t.nodes.len() - n, t.children_of(n).len() - i,
{
    if 0 <= i < t.children_of(n).len() {
        let c = t.children_of(n)[i];
        if n < c < t.nodes.len() {
            lemma_pre_from_alone(trees, t, c, follow, depth);
        }
        lemma_pre_children_alone(trees, t, n, i + 1, follow, depth);
    }
}

/// A post-order walk that enters no embedded tree is the walk of the tree
/// alone, whatever forest the tree is in.
pub proof fn lemma_post_from_alone(
    trees: Seq<Option<TreeView>>,
    t: TreeView,
    n: int,
    follow: bool,
    depth: nat,
)
    requires
        !follow || depth == 0 || trees.len() == 0,
    ensures
        post_from(trees, t, n, follow, depth) == post_from(Seq::empty(), t, n, false, 0),
    decreases t.nodes.len() - n, t.children_of(n).len() + 1,
{
    assert(entered(trees, t, n, follow, depth) is None);
    lemma_post_children_alone(trees, t, n, 0, follow, depth);
}

/// The same for the walks of the children from index `i` on.
pub proof fn lemma_post_children_alone(
    trees: Seq<Option<TreeView>>,
    t: TreeView,
    n: int,
    i: int,
    follow: bool,
    depth: nat,
)
    requires
        !follow || depth == 0 || trees.len() == 0,
    ensures
        post_children(trees, t, n, i, follow, depth) == post_children(
            Seq::empty(),
            t,
            n,
            i,
            false,
            0,
        ),
    decreases t.nodes.len() - n, t.children_of(n).len() - i,
{
    if 0 <= i < t.children_of(n).len() {
        let c = t.children_of(n)[i];
        if n < c < t.nodes.len() {
            lemma_post_from_alone(trees, t, c, follow, depth);
        }
        lemma_post_children_alone(trees, t, n, i + 1, follow, depth);
    }
}

/// Where embeddings are not followed, or where there is no forest to look
/// them up in, a walk visits the nodes of the tree alone: embeddings are
/// invisible to it.
pub proof fn lemma_walk_alone(trees: Seq<Option<TreeView>>, t: TreeView, follow: bool)
    requires
        !follow || trees.len() == 0,
    ensures
        preorder(trees, t, follow) == preorder(Seq::empty(), t, false),
        postorder(trees, t, follow) == postorder(Seq::empty(), t, false),
{
    if t.root != 0 {
        lemma_pre_from_alone(trees, t, t.root, follow, trees.len());
        lemma_post_from_alone(trees, t, t.root, follow, trees.len());
    }
}

/// A pre-order walk that follows embeddings visits no fewer nodes than the
/// walk of the tree alone.
pub proof fn lemma_pre_from_no_shorter(
    trees: Seq<Option<TreeView>>,
    t: TreeView,
    n: int,
    follow: bool,
    depth: nat,
)
    ensures
        pre_from(trees, t, n, follow, depth).len() >= pre_from(
            Seq::empty(),
            t,
            n,
            false,
            0,
        ).len(),
    decreases t.nodes.len() - n, t.children_of(n).len() + 1,
{
    lemma_pre_children_no_shorter(trees, t, n, 0, follow, depth);
    assert(entered(Seq::empty(), t, n, false, 0) is None);
}

/// The same for the walks of the children from index `i` on.
pub proof fn lemma_pre_children_no_shorter(
    trees: Seq<Option<TreeView>>,
    t: TreeView,
    n: int,
    i: int,
    follow: bool,
    depth: nat,
)
    ensures
        pre_children(trees, t, n, i, follow, depth).len() >= pre_children(
            Seq::empty(),
            t,
            n,
            i,
            false,
            0,
        ).len(),
    decreases t.nodes.len() - n, t.children_of(n).len() - i,
{
    if 0 <= i < t.children_of(n).len() {
        let c = t.children_of(n)[i];
        if n < c < t.nodes.len() {
            lemma_pre_from_no_shorter(trees, t, c, follow, depth);
        }
        lemma_pre_children_no_shorter(trees, t, n, i + 1, follow, depth);
    }
}

/// A post-order walk that follows embeddings visits no fewer nodes than the
/// walk of the tree alone.
pub proof fn lemma_post_from_no_shorter(
    trees: Seq<Option<TreeView>>,
    t: TreeView,
    n: int,
    follow: bool,
    depth: nat,
)
    ensures
        post_from(trees, t, n, follow, depth).len() >= post_from(
            Seq::empty(),
            t,
            n,
            false,
            0,
        ).len(),
    decreases t.nodes.len() - n, t.children_of(n).len() + 1,
{
    lemma_post_children_no_shorter(trees, t, n, 0, follow, depth);
    assert(entered(Seq::empty(), t, n, false, 0) is None);
}

/// The same for the walks of the children from index `i` on.
pub proof fn lemma_post_children_no_shorter(
    trees: Seq<Option<TreeView>>,
    t: TreeView,
    n: int,
    i: int,
    follow: bool,
    depth: nat,
)
    ensures
        post_children(trees, t, n, i, follow, depth).len() >= post_children(
            Seq::empty(),
            t,
            n,
            i,
            false,
            0,
        ).len(),
    decreases t.nodes.len() - n, t.children_of(n).len() - i,
{
    if 0 <= i < t.children_of(n).len() {
        let c = t.children_of(n)[i];
        if n < c < t.nodes.len() {
            lemma_post_from_no_shorter(trees, t, c, follow, depth);
        }
        lemma_post_children_no_shorter(trees, t, n, i + 1, follow, depth);
    }
}

/// A walk that follows embeddings visits at least as many nodes as one that
/// does not.
pub proof fn lemma_follow_visits_no_fewer(trees: Seq<Option<TreeView>>, t: TreeView)
    ensures
        preorder(trees, t, true).len() >= preorder(trees, t, false).len(),
        postorder(trees, t, true).len() >= postorder(trees, t, false).len(),
{
    lemma_walk_alone(trees, t, false);
    if t.root != 0 {
        lemma_pre_from_no_shorter(trees, t, t.root, true, trees.len());
        lemma_post_from_no_shorter(trees, t, t.root, true, trees.len());
    }
}

} // verus!
