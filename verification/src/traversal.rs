//! The order in which a walk visits the nodes of a tree, with or without the
//! trees that its nodes embed.
//!
//! A walk that follows embeddings never nests them deeper than the forest
//! has slots. Where no tree embeds itself, directly or through others, that
//! bound is never reached; where trees do, it ends the walk.

use vstd::prelude::*;
use crate::forest_model::ForestView;
use crate::model::TreeView;

verus! {

/// One step of a walk: the position of the node and its payload.
pub type Visit = (i64, i32);

/// A node whose embedded tree a walk has entered: the tree that the node is
/// in, and its position there.
pub struct Level {
    pub tree: TreeView,
    pub pos: int,
}

/// What a walk yields at the node `n` of `t`.
pub open spec fn visit_of(t: TreeView, n: int) -> Visit {
    (n as i64, t.nodes[n].data)
}

/// The tree that a walk enters at the node `n` of `t`, if it enters one: the
/// walk must follow embeddings, `depth` must allow one more, and the node must
/// embed a tree that is registered among `trees`.
pub open spec fn entered(
    trees: Seq<Option<TreeView>>,
    t: TreeView,
    n: int,
    follow: bool,
    depth: nat,
) -> Option<TreeView> {
    match t.nodes[n].subtree_ref {
        Some(id) => if follow && depth > 0 && (ForestView { trees }).is_registered(id)
            && (ForestView { trees }).tree(id).root != 0 {
            Some((ForestView { trees }).tree(id))
        } else {
            None
        },
        None => None,
    }
}

/// The pre-order walk of the node `n` of `t` and everything below it: the
/// node, then the tree that it embeds, then its children in turn.
pub open spec fn pre_from(
    trees: Seq<Option<TreeView>>,
    t: TreeView,
    n: int,
    follow: bool,
    depth: nat,
) -> Seq<Visit>
    decreases depth, t.nodes.len() - n, t.children_of(n).len() + 1,
{
    seq![visit_of(t, n)] + (match entered(trees, t, n, follow, depth) {
        Some(inner) => if depth > 0 {
            pre_from(trees, inner, inner.root, follow, (depth - 1) as nat)
        } else {
            Seq::empty()
        },
        None => Seq::empty(),
    }) + pre_children(trees, t, n, 0, follow, depth)
}

/// The pre-order walks of the children of `n` from the one at index `i` on.
pub open spec fn pre_children(
    trees: Seq<Option<TreeView>>,
    t: TreeView,
    n: int,
    i: int,
    follow: bool,
    depth: nat,
) -> Seq<Visit>
    decreases depth, t.nodes.len() - n, t.children_of(n).len() - i,
{
    if 0 <= i < t.children_of(n).len() {
        let c = t.children_of(n)[i];
        (if n < c < t.nodes.len() {
            pre_from(trees, t, c, follow, depth)
        } else {
            Seq::empty()
        }) + pre_children(trees, t, n, i + 1, follow, depth)
    } else {
        Seq::empty()
    }
}

/// The post-order walk of the node `n` of `t` and everything below it: the
/// tree that it embeds, then its children in turn, then the node.
pub open spec fn post_from(
    trees: Seq<Option<TreeView>>,
    t: TreeView,
    n: int,
    follow: bool,
    depth: nat,
) -> Seq<Visit>
    decreases depth, t.nodes.len() - n, t.children_of(n).len() + 1,
{
    (match entered(trees, t, n, follow, depth) {
        Some(inner) => if depth > 0 {
            post_from(trees, inner, inner.root, follow, (depth - 1) as nat)
        } else {
            Seq::empty()
        },
        None => Seq::empty(),
    }) + post_children(trees, t, n, 0, follow, depth) + seq![visit_of(t, n)]
}

/// The post-order walks of the children of `n` from the one at index `i` on.
pub open spec fn post_children(
    trees: Seq<Option<TreeView>>,
    t: TreeView,
    n: int,
    i: int,
    follow: bool,
    depth: nat,
) -> Seq<Visit>
    decreases depth, t.nodes.len() - n, t.children_of(n).len() - i,
{
    if 0 <= i < t.children_of(n).len() {
        let c = t.children_of(n)[i];
        (if n < c < t.nodes.len() {
            post_from(trees, t, c, follow, depth)
        } else {
            Seq::empty()
        }) + post_children(trees, t, n, i + 1, follow, depth)
    } else {
        Seq::empty()
    }
}

/// The pre-order walk of the whole tree `t`, in a forest with the slots
/// `trees`.
pub open spec fn preorder(trees: Seq<Option<TreeView>>, t: TreeView, follow: bool) -> Seq<Visit> {
    if t.root != 0 {
        pre_from(trees, t, t.root, follow, trees.len())
    } else {
        Seq::empty()
    }
}

/// The post-order walk of the whole tree `t`, in a forest with the slots
/// `trees`.
pub open spec fn postorder(trees: Seq<Option<TreeView>>, t: TreeView, follow: bool) -> Seq<Visit> {
    if t.root != 0 {
        post_from(trees, t, t.root, follow, trees.len())
    } else {
        Seq::empty()
    }
}

/// How many more embeddings a walk may enter below the levels in `stack`.
pub open spec fn depth_left(trees: Seq<Option<TreeView>>, stack: Seq<Level>) -> nat {
    if stack.len() <= trees.len() {
        (trees.len() - stack.len()) as nat
    } else {
        0
    }
}

/// What a pre-order walk still visits once it is done with the node `n` of
/// `t` and everything below it: the later siblings of `n`, then what follows
/// its parent; and for the root of an embedded tree, the children of the
/// embedding node and what follows that node.
pub open spec fn pre_after(
    trees: Seq<Option<TreeView>>,
    stack: Seq<Level>,
    t: TreeView,
    n: int,
    follow: bool,
) -> Seq<Visit>
    decreases stack.len(), n,
{
    if 0 < t.parent_of(n) < n {
        pre_children(
            trees,
            t,
            t.parent_of(n),
            t.rank_of(n) + 1,
            follow,
            depth_left(trees, stack),
        ) + pre_after(trees, stack, t, t.parent_of(n), follow)
    } else if stack.len() > 0 {
        let outer = stack.last();
        pre_children(
            trees,
            outer.tree,
            outer.pos,
            0,
            follow,
            depth_left(trees, stack.drop_last()),
        ) + pre_after(trees, stack.drop_last(), outer.tree, outer.pos, follow)
    } else {
        Seq::empty()
    }
}

/// What a post-order walk still visits once it has visited the node `n` of
/// `t`: the later siblings of `n` with what is below them, then its parent
/// and what follows that; and for the root of an embedded tree, the children
/// of the embedding node, that node, and what follows it.
pub open spec fn post_after(
    trees: Seq<Option<TreeView>>,
    stack: Seq<Level>,
    t: TreeView,
    n: int,
    follow: bool,
) -> Seq<Visit>
    decreases stack.len(), n,
{
    if 0 < t.parent_of(n) < n {
        post_children(
            trees,
            t,
            t.parent_of(n),
            t.rank_of(n) + 1,
            follow,
            depth_left(trees, stack),
        ) + seq![visit_of(t, t.parent_of(n))] + post_after(
            trees,
            stack,
            t,
            t.parent_of(n),
            follow,
        )
    } else if stack.len() > 0 {
        let outer = stack.last();
        post_children(
            trees,
            outer.tree,
            outer.pos,
            0,
            follow,
            depth_left(trees, stack.drop_last()),
        ) + seq![visit_of(outer.tree, outer.pos)] + post_after(
            trees,
            stack.drop_last(),
            outer.tree,
            outer.pos,
            follow,
        )
    } else {
        Seq::empty()
    }
}

} // verus!
