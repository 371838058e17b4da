//! Subtrees in the model: which nodes lie below a node, and what a tree is
//! without them.

use vstd::prelude::*;
use crate::counting::{ref_weight, refs_among};
use crate::model::{NodeView, TreeView};

verus! {

impl TreeView {
    /// Whether the live node `n` is `p` or lies below `p`.
    pub open spec fn in_subtree(self, n: int, p: int) -> bool
        decreases n,
    {
        if !self.is_live(n) {
            false
        } else if n == p {
            true
        } else if 0 < self.parent_of(n) < n {
            self.in_subtree(self.parent_of(n), p)
        } else {
            false
        }
    }

    /// The tree after the node at `p` and everything below it was deleted.
    pub open spec fn without_subtree(self, p: int) -> TreeView {
        TreeView {
            nodes: Seq::new(
                self.nodes.len(),
                |x: int|
                    if self.in_subtree(x, p) {
                        NodeView::vacant()
                    } else if x == self.parent_of(p) {
                        self.nodes[x].with_children(
                            self.children_of(x).remove(self.rank_of(p)),
                        )
                    } else {
                        self.nodes[x]
                    },
            ),
            root: self.root,
        }
    }

    /// What lies below a node is younger than the node.
    pub proof fn lemma_in_subtree_younger(self, n: int, p: int)
        requires
            self.in_subtree(n, p),
        ensures
            p <= n,
            self.is_live(n),
        decreases n,
    {
        if n != p {
            self.lemma_in_subtree_younger(self.parent_of(n), p);
        }
    }

    /// A node with something below it has a child.
    pub proof fn lemma_subtree_has_child(self, n: int, p: int)
        requires
            self.wf(),
            self.in_subtree(n, p),
            n != p,
        ensures
            self.children_of(p).len() > 0,
            self.is_live(p),
        decreases n,
    {
        let parent = self.parent_of(n);
        assert(n != self.root);
        assert(self.hangs_under_parent(n));
        if parent == p {
            assert(self.children_of(p).contains(n));
        } else {
            self.lemma_subtree_has_child(parent, p);
        }
    }

    /// The child of a node in a subtree is in that subtree.
    pub proof fn lemma_child_in_subtree(self, n: int, i: int, p: int)
        requires
            self.wf(),
            self.in_subtree(n, p),
            0 <= i < self.children_of(n).len(),
        ensures
            self.in_subtree(self.children_of(n)[i], p),
    {
        assert(self.children_belong(n));
    }

    /// In a tree that lost nodes but kept the parents of the others, what is
    /// below `p` was below `p` before.
    pub proof fn lemma_in_subtree_before(self, before: TreeView, n: int, p: int)
        requires
            self.nodes.len() == before.nodes.len(),
            forall|z: int| #[trigger]
                self.is_live(z) ==> before.is_live(z) && self.parent_of(z) == before.parent_of(z),
            self.in_subtree(n, p),
        ensures
            before.in_subtree(n, p),
        decreases n,
    {
        assert(self.is_live(n));
        if n != p {
            self.lemma_in_subtree_before(before, self.parent_of(n), p);
        }
    }

    /// In a tree that lost nodes but kept the parents of the others, a node
    /// that is left and was below the live node `p` is still below it.
    pub proof fn lemma_in_subtree_kept(self, before: TreeView, n: int, p: int)
        requires
            self.wf(),
            self.nodes.len() == before.nodes.len(),
            forall|z: int| #[trigger]
                self.is_live(z) ==> before.is_live(z) && self.parent_of(z) == before.parent_of(z),
            self.is_live(n),
            before.in_subtree(n, p),
        ensures
            self.in_subtree(n, p),
        decreases n,
    {
        if n != p {
            assert(n != self.root);
            assert(self.hangs_under_parent(n));
            let parent = self.parent_of(n);
            assert(self.is_live(parent));
            self.lemma_in_subtree_kept(before, parent, p);
        }
    }

    /// Whether `n` is below `p` depends on the nodes up to `n` alone.
    pub proof fn lemma_in_subtree_local(self, other: TreeView, n: int, p: int)
        requires
            self.nodes.len() == other.nodes.len(),
            forall|z: int|
                0 < z <= n ==> (#[trigger] self.nodes[z]).live == other.nodes[z].live
                    && self.nodes[z].parent == other.nodes[z].parent,
        ensures
            self.in_subtree(n, p) == other.in_subtree(n, p),
        decreases n,
    {
        if self.is_live(n) && n != p && 0 < self.parent_of(n) < n {
            self.lemma_in_subtree_local(other, self.parent_of(n), p);
        }
    }

    /// Deleting the nodes below `p` one leaf at a time, and `p` last, leaves
    /// the tree without the subtree of `p`: `self` is the tree before the
    /// last of these deletions, `before` the tree before the first.
    pub proof fn lemma_subtree_gone(self, before: TreeView, p: int)
        requires
            before.wf(),
            self.wf(),
            self.root == before.root,
            self.nodes.len() == before.nodes.len(),
            before.is_live(p),
            p != before.root,
            self.is_live(p),
            self.children_of(p).len() == 0,
            forall|z: int| #[trigger]
                self.is_live(z) ==> before.is_live(z) && self.parent_of(z) == before.parent_of(z),
            forall|z: int|
                before.is_live(z) && !before.in_subtree(z, p) ==> #[trigger] self.nodes[z]
                    == before.nodes[z],
        ensures
            self.without_leaf(p) == before.without_subtree(p),
    {
        let a = self.without_leaf(p);
        let b = before.without_subtree(p);
        let parent = before.parent_of(p);
        before.lemma_rank(p);
        assert(self.is_live(p));
        assert(self.parent_of(p) == parent);
        assert(!before.in_subtree(parent, p)) by {
            if before.in_subtree(parent, p) {
                before.lemma_in_subtree_younger(parent, p);
            }
        }
        assert(self.nodes[parent] == before.nodes[parent]);
        assert forall|x: int| 0 <= x < a.nodes.len() implies a.nodes[x] == b.nodes[x] by {
            if before.in_subtree(x, p) {
                if x != p {
                    if self.is_live(x) {
                        self.lemma_in_subtree_kept(before, x, p);
                        self.lemma_subtree_has_child(x, p);
                    }
                    before.lemma_in_subtree_younger(x, p);
                }
            } else if x == parent {
            } else if before.is_live(x) {
            } else {
                assert(!self.is_live(x));
            }
        }
        assert(a.nodes =~= b.nodes);
    }
}

/// The number of nodes among the first `upto` positions of `t` that are `p`
/// or lie below `p` and embed `target`.
pub open spec fn refs_within_among(t: TreeView, p: int, target: i64, upto: nat) -> nat
    decreases upto,
{
    if upto == 0 {
        0
    } else {
        refs_within_among(t, p, target, (upto - 1) as nat) + if t.in_subtree(upto - 1, p) {
            ref_weight(t.nodes[upto - 1], target)
        } else {
            0
        }
    }
}

/// Deleting a subtree takes the references that it held from the first
/// `upto` positions.
proof fn lemma_without_subtree_among(t: TreeView, p: int, target: i64, upto: nat)
    requires
        t.wf(),
        t.is_live(p),
        p != t.root,
        upto <= t.nodes.len(),
    ensures
        refs_among(t.without_subtree(p).nodes, target, upto) + refs_within_among(
            t,
            p,
            target,
            upto,
        ) == refs_among(t.nodes, target, upto),
    decreases upto,
{
    if upto > 0 {
        lemma_without_subtree_among(t, p, target, (upto - 1) as nat);
        let x = upto - 1;
        if !t.in_subtree(x, p) && t.nodes[x].live {
            assert(t.is_live(x));
        }
    }
}

/// A position at or behind `upto` adds nothing to the count over the first
/// `upto` positions; the node `p` itself is counted once its position is
/// among them.
proof fn lemma_refs_within_holds(t: TreeView, p: int, target: i64, upto: nat)
    requires
        t.is_live(p),
        upto <= t.nodes.len(),
    ensures
        p < upto ==> refs_within_among(t, p, target, upto) >= ref_weight(t.nodes[p], target),
    decreases upto,
{
    if upto > 0 {
        lemma_refs_within_holds(t, p, target, (upto - 1) as nat);
    }
}

impl TreeView {
    /// The number of nodes that are `p` or lie below `p` and embed `target`.
    pub open spec fn refs_within(self, p: int, target: i64) -> nat {
        refs_within_among(self, p, target, self.nodes.len())
    }

    /// Deleting a subtree takes away exactly the references that the nodes
    /// in it held.
    pub proof fn lemma_without_subtree_counts(self, p: int, target: i64)
        requires
            self.wf(),
            self.is_live(p),
            p != self.root,
        ensures
            self.without_subtree(p).refs_to(target) + self.refs_within(p, target) == self.refs_to(
                target,
            ),
    {
        lemma_without_subtree_among(self, p, target, self.nodes.len());
    }

    /// The reference that a node holds is among those of its subtree.
    pub proof fn lemma_refs_within_self(self, p: int, target: i64)
        requires
            self.is_live(p),
        ensures
            self.refs_within(p, target) >= ref_weight(self.nodes[p], target),
    {
        lemma_refs_within_holds(self, p, target, self.nodes.len());
    }

    /// The subtree of a childless node is that node: deleting the one is
    /// deleting the other.
    pub proof fn lemma_subtree_of_leaf(self, p: int)
        requires
            self.wf(),
            self.is_live(p),
            p != self.root,
            self.children_of(p).len() == 0,
        ensures
            self.without_subtree(p) == self.without_leaf(p),
    {
        self.lemma_subtree_gone(self, p);
    }
}

} // verus!
