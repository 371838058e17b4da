//! How a walk goes on from one node to the next: what a cursor relies on
//! when it moves.

use vstd::prelude::*;
use crate::model::TreeView;
use crate::traversal::{
    depth_left, entered, post_after, post_children, post_from, pre_after, pre_children, pre_from,
    visit_of, Level, Visit,
};

verus! {

/// The walk of the children from index `i` on begins with the walk of the
/// child at `i`.
pub proof fn lemma_pre_children_unfold(
    trees: Seq<Option<TreeView>>,
    t: TreeView,
    n: int,
    i: int,
    follow: bool,
    depth: nat,
)
    requires
        t.wf(),
        t.is_live(n),
        0 <= i < t.children_of(n).len(),
    ensures
        pre_children(trees, t, n, i, follow, depth) == pre_from(
            trees,
            t,
            t.children_of(n)[i],
            follow,
            depth,
        ) + pre_children(trees, t, n, i + 1, follow, depth),
{
    assert(t.children_belong(n));
}

/// A pre-order walk that is done with the first child goes on as one that is
/// done with the node would, after the other children.
pub proof fn lemma_pre_step_down(
    trees: Seq<Option<TreeView>>,
    stack: Seq<Level>,
    t: TreeView,
    n: int,
    follow: bool,
)
    requires
        t.wf(),
        t.is_live(n),
        t.children_of(n).len() > 0,
    ensures
        t.is_live(t.first_child_of(n)),
        pre_children(trees, t, n, 0, follow, depth_left(trees, stack)) + pre_after(
            trees,
            stack,
            t,
            n,
            follow,
        ) == pre_from(trees, t, t.first_child_of(n), follow, depth_left(trees, stack)) + pre_after(
            trees,
            stack,
            t,
            t.first_child_of(n),
            follow,
        ),
{
    let c = t.first_child_of(n);
    let d = depth_left(trees, stack);
    t.lemma_rank_of_child(n, 0);
    lemma_pre_children_unfold(trees, t, n, 0, follow, d);
    assert(pre_after(trees, stack, t, c, follow) == pre_children(trees, t, n, 1, follow, d)
        + pre_after(trees, stack, t, n, follow));
    assert((pre_from(trees, t, c, follow, d) + pre_children(trees, t, n, 1, follow, d))
        + pre_after(trees, stack, t, n, follow) =~= pre_from(trees, t, c, follow, d) + (
    pre_children(trees, t, n, 1, follow, d) + pre_after(trees, stack, t, n, follow)));
}

/// After a node with a sibling behind it, a pre-order walk goes on with that
/// sibling; after a last child, it goes on as after the parent.
pub proof fn lemma_pre_step_along(
    trees: Seq<Option<TreeView>>,
    stack: Seq<Level>,
    t: TreeView,
    n: int,
    follow: bool,
)
    requires
        t.wf(),
        t.is_live(n),
        n != t.root,
    ensures
        t.is_live(t.parent_of(n)),
        0 < t.parent_of(n) < n,
        t.next_sibling_of(n) != 0 ==> t.is_live(t.next_sibling_of(n)) && pre_after(
            trees,
            stack,
            t,
            n,
            follow,
        ) == pre_from(trees, t, t.next_sibling_of(n), follow, depth_left(trees, stack))
            + pre_after(trees, stack, t, t.next_sibling_of(n), follow),
        t.next_sibling_of(n) == 0 ==> pre_after(trees, stack, t, n, follow) == pre_after(
            trees,
            stack,
            t,
            t.parent_of(n),
            follow,
        ),
{
    let parent = t.parent_of(n);
    let r = t.rank_of(n);
    let d = depth_left(trees, stack);
    t.lemma_rank(n);
    assert(t.children_belong(parent));
    if r + 1 < t.children_of(parent).len() {
        let s = t.next_sibling_of(n);
        t.lemma_rank_of_child(parent, r + 1);
        lemma_pre_children_unfold(trees, t, parent, r + 1, follow, d);
        assert(pre_after(trees, stack, t, s, follow) == pre_children(
            trees,
            t,
            parent,
            r + 2,
            follow,
            d,
        ) + pre_after(trees, stack, t, parent, follow));
        assert((pre_from(trees, t, s, follow, d) + pre_children(trees, t, parent, r + 2, follow, d))
            + pre_after(trees, stack, t, parent, follow) =~= pre_from(trees, t, s, follow, d) + (
        pre_children(trees, t, parent, r + 2, follow, d) + pre_after(
            trees,
            stack,
            t,
            parent,
            follow,
        )));
    } else {
        assert(pre_children(trees, t, parent, r + 1, follow, d) =~= Seq::empty());
        assert(Seq::<Visit>::empty() + pre_after(trees, stack, t, parent, follow) =~= pre_after(
            trees,
            stack,
            t,
            parent,
            follow,
        ));
    }
}

/// After the root of an embedded tree, a pre-order walk goes on with the
/// children of the embedding node; after the root of the outermost tree, it
/// is over.
pub proof fn lemma_pre_step_out(
    trees: Seq<Option<TreeView>>,
    stack: Seq<Level>,
    t: TreeView,
    follow: bool,
)
    requires
        t.wf(),
        t.root != 0,
    ensures
        stack.len() == 0 ==> pre_after(trees, stack, t, t.root, follow) == Seq::<Visit>::empty(),
        stack.len() > 0 ==> pre_after(trees, stack, t, t.root, follow) == pre_children(
            trees,
            stack.last().tree,
            stack.last().pos,
            0,
            follow,
            depth_left(trees, stack.drop_last()),
        ) + pre_after(trees, stack.drop_last(), stack.last().tree, stack.last().pos, follow),
{
}

/// The post-order walk of the children from index `i` on begins with the
/// walk of the child at `i`.
pub proof fn lemma_post_children_unfold(
    trees: Seq<Option<TreeView>>,
    t: TreeView,
    n: int,
    i: int,
    follow: bool,
    depth: nat,
)
    requires
        t.wf(),
        t.is_live(n),
        0 <= i < t.children_of(n).len(),
    ensures
        post_children(trees, t, n, i, follow, depth) == post_from(
            trees,
            t,
            t.children_of(n)[i],
            follow,
            depth,
        ) + post_children(trees, t, n, i + 1, follow, depth),
{
    assert(t.children_belong(n));
}

/// A post-order walk of a node that embeds a tree which the walk enters
/// begins with the walk of that tree.
pub proof fn lemma_post_step_in(
    trees: Seq<Option<TreeView>>,
    stack: Seq<Level>,
    t: TreeView,
    n: int,
    follow: bool,
    inner: TreeView,
)
    requires
        stack.len() < trees.len(),
        entered(trees, t, n, follow, depth_left(trees, stack)) == Some(inner),
        inner.wf(),
        inner.root != 0,
    ensures
        post_from(trees, t, n, follow, depth_left(trees, stack)) + post_after(
            trees,
            stack,
            t,
            n,
            follow,
        ) == post_from(
            trees,
            inner,
            inner.root,
            follow,
            depth_left(trees, stack.push(Level { tree: t, pos: n })),
        ) + post_after(trees, stack.push(Level { tree: t, pos: n }), inner, inner.root, follow),
{
    let d = depth_left(trees, stack);
    let stack2 = stack.push(Level { tree: t, pos: n });
    assert(stack2.drop_last() =~= stack);
    let e = post_from(trees, inner, inner.root, follow, (d - 1) as nat);
    let pc = post_children(trees, t, n, 0, follow, d);
    let v = seq![visit_of(t, n)];
    let pa = post_after(trees, stack, t, n, follow);
    assert(post_after(trees, stack2, inner, inner.root, follow) == (pc + v) + pa);
    assert(((e + pc) + v) + pa =~= e + ((pc + v) + pa));
}

/// A post-order walk of a node with children, whose embedded tree the walk
/// does not enter, begins with the walk of the first child.
pub proof fn lemma_post_step_down(
    trees: Seq<Option<TreeView>>,
    stack: Seq<Level>,
    t: TreeView,
    n: int,
    follow: bool,
)
    requires
        t.wf(),
        t.is_live(n),
        t.children_of(n).len() > 0,
    ensures
        t.is_live(t.first_child_of(n)),
        n < t.first_child_of(n),
        post_children(trees, t, n, 0, follow, depth_left(trees, stack)) + seq![visit_of(t, n)]
            + post_after(trees, stack, t, n, follow) == post_from(
            trees,
            t,
            t.first_child_of(n),
            follow,
            depth_left(trees, stack),
        ) + post_after(trees, stack, t, t.first_child_of(n), follow),
{
    let c = t.first_child_of(n);
    let d = depth_left(trees, stack);
    t.lemma_rank_of_child(n, 0);
    assert(t.children_belong(n));
    lemma_post_children_unfold(trees, t, n, 0, follow, d);
    let pf = post_from(trees, t, c, follow, d);
    let pc1 = post_children(trees, t, n, 1, follow, d);
    let v = seq![visit_of(t, n)];
    let pa = post_after(trees, stack, t, n, follow);
    assert(post_after(trees, stack, t, c, follow) == (pc1 + v) + pa);
    assert(((pf + pc1) + v) + pa =~= pf + ((pc1 + v) + pa));
}

/// After a node with a sibling behind it, a post-order walk goes on with the
/// walk of that sibling; after a last child, with the parent.
pub proof fn lemma_post_step_along(
    trees: Seq<Option<TreeView>>,
    stack: Seq<Level>,
    t: TreeView,
    n: int,
    follow: bool,
)
    requires
        t.wf(),
        t.is_live(n),
        n != t.root,
    ensures
        t.is_live(t.parent_of(n)),
        0 < t.parent_of(n) < n,
        t.next_sibling_of(n) != 0 ==> t.is_live(t.next_sibling_of(n)) && post_after(
            trees,
            stack,
            t,
            n,
            follow,
        ) == post_from(trees, t, t.next_sibling_of(n), follow, depth_left(trees, stack))
            + post_after(trees, stack, t, t.next_sibling_of(n), follow),
        t.next_sibling_of(n) == 0 ==> post_after(trees, stack, t, n, follow) == seq![
            visit_of(t, t.parent_of(n)),
        ] + post_after(trees, stack, t, t.parent_of(n), follow),
{
    let parent = t.parent_of(n);
    let r = t.rank_of(n);
    let d = depth_left(trees, stack);
    t.lemma_rank(n);
    assert(t.children_belong(parent));
    let v = seq![visit_of(t, parent)];
    let pa = post_after(trees, stack, t, parent, follow);
    if r + 1 < t.children_of(parent).len() {
        let s = t.next_sibling_of(n);
        t.lemma_rank_of_child(parent, r + 1);
        lemma_post_children_unfold(trees, t, parent, r + 1, follow, d);
        let pf = post_from(trees, t, s, follow, d);
        let pc2 = post_children(trees, t, parent, r + 2, follow, d);
        assert(post_after(trees, stack, t, s, follow) == (pc2 + v) + pa);
        assert(((pf + pc2) + v) + pa =~= pf + ((pc2 + v) + pa));
    } else {
        assert(post_children(trees, t, parent, r + 1, follow, d) =~= Seq::empty());
        assert((Seq::<Visit>::empty() + v) + pa =~= v + pa);
    }
}

/// After the root of an embedded tree, a post-order walk goes on with the
/// children of the embedding node, or with that node if it has none; after
/// the root of the outermost tree, it is over.
pub proof fn lemma_post_step_out(
    trees: Seq<Option<TreeView>>,
    stack: Seq<Level>,
    t: TreeView,
    follow: bool,
)
    requires
        t.wf(),
        t.root != 0,
        stack.len() > 0 ==> stack.last().tree.wf() && stack.last().tree.is_live(stack.last().pos),
    ensures
        stack.len() == 0 ==> post_after(trees, stack, t, t.root, follow) == Seq::<Visit>::empty(),
        stack.len() > 0 && stack.last().tree.children_of(stack.last().pos).len() > 0
            ==> post_after(trees, stack, t, t.root, follow) == post_from(
            trees,
            stack.last().tree,
            stack.last().tree.first_child_of(stack.last().pos),
            follow,
            depth_left(trees, stack.drop_last()),
        ) + post_after(
            trees,
            stack.drop_last(),
            stack.last().tree,
            stack.last().tree.first_child_of(stack.last().pos),
            follow,
        ),
        stack.len() > 0 && stack.last().tree.children_of(stack.last().pos).len() == 0
            ==> post_after(trees, stack, t, t.root, follow) == seq![
            visit_of(stack.last().tree, stack.last().pos),
        ] + post_after(trees, stack.drop_last(), stack.last().tree, stack.last().pos, follow),
{
    if stack.len() > 0 {
        let outer = stack.last();
        let rest = stack.drop_last();
        let v = seq![visit_of(outer.tree, outer.pos)];
        let pa = post_after(trees, rest, outer.tree, outer.pos, follow);
        let pc = post_children(trees, outer.tree, outer.pos, 0, follow, depth_left(trees, rest));
        assert(post_after(trees, stack, t, t.root, follow) == (pc + v) + pa);
        if outer.tree.children_of(outer.pos).len() > 0 {
            lemma_post_step_down(trees, rest, outer.tree, outer.pos, follow);
        } else {
            assert(pc =~= Seq::empty());
            assert((Seq::<Visit>::empty() + v) + pa =~= v + pa);
        }
    }
}

} // verus!
