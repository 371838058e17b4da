//! Counting over the positions of a tree: how many nodes are live, and how
//! many embed a given tree.

use vstd::prelude::*;
use crate::model::{NodeView, TreeView};

verus! {

/// 1 if the node at a position is live, else 0.
pub open spec fn live_weight(n: NodeView) -> nat {
    if n.live {
        1
    } else {
        0
    }
}

/// 1 if the node at a position is live and embeds `target`, else 0.
pub open spec fn ref_weight(n: NodeView, target: i64) -> nat {
    if n.live && n.subtree_ref == Some(target) {
        1
    } else {
        0
    }
}

/// The number of live nodes among the first `upto` positions.
pub open spec fn live_among(nodes: Seq<NodeView>, upto: nat) -> nat
    decreases upto,
{
    if upto == 0 {
        0
    } else {
        live_among(nodes, (upto - 1) as nat) + live_weight(nodes[upto - 1])
    }
}

/// The number of live nodes among the first `upto` positions that embed
/// `target`.
pub open spec fn refs_among(nodes: Seq<NodeView>, target: i64, upto: nat) -> nat
    decreases upto,
{
    if upto == 0 {
        0
    } else {
        refs_among(nodes, target, (upto - 1) as nat) + ref_weight(nodes[upto - 1], target)
    }
}

/// How often `target` occurs in `list`.
pub open spec fn occurrences(list: Seq<i64>, target: i64) -> nat
    decreases list.len(),
{
    if list.len() == 0 {
        0
    } else {
        occurrences(list.drop_last(), target) + if list.last() == target {
            1nat
        } else {
            0nat
        }
    }
}

impl TreeView {
    /// The number of live nodes.
    pub open spec fn live_count(self) -> nat {
        live_among(self.nodes, self.nodes.len())
    }

    /// The number of live nodes that embed the tree `target`.
    pub open spec fn refs_to(self, target: i64) -> nat {
        refs_among(self.nodes, target, self.nodes.len())
    }
}

/// Appending to a list adds one occurrence of the appended item and none of
/// any other.
pub proof fn lemma_occurrences_push(list: Seq<i64>, item: i64, target: i64)
    ensures
        occurrences(list.push(item), target) == occurrences(list, target) + if item == target {
            1nat
        } else {
            0nat
        },
{
    assert(list.push(item).drop_last() =~= list);
}

/// Counts over a prefix depend on that prefix alone.
pub proof fn lemma_among_prefix(a: Seq<NodeView>, b: Seq<NodeView>, target: i64, upto: nat)
    requires
        upto <= a.len(),
        upto <= b.len(),
        forall|i: int| 0 <= i < upto ==> a[i] == b[i],
    ensures
        live_among(a, upto) == live_among(b, upto),
        refs_among(a, target, upto) == refs_among(b, target, upto),
    decreases upto,
{
    if upto > 0 {
        lemma_among_prefix(a, b, target, (upto - 1) as nat);
    }
}

/// No more nodes are counted than there are positions.
pub proof fn lemma_among_bound(a: Seq<NodeView>, target: i64, upto: nat)
    ensures
        live_among(a, upto) <= upto,
        refs_among(a, target, upto) <= live_among(a, upto),
    decreases upto,
{
    if upto > 0 {
        lemma_among_bound(a, target, (upto - 1) as nat);
    }
}

/// Replacing the view at one position changes the counts by the difference
/// in what that position weighs.
pub proof fn lemma_among_update(a: Seq<NodeView>, at: int, x: NodeView, target: i64, upto: nat)
    requires
        0 <= at < a.len(),
        upto <= a.len(),
    ensures
        live_among(a.update(at, x), upto) + (if at < upto {
            live_weight(a[at])
        } else {
            0
        }) == live_among(a, upto) + (if at < upto {
            live_weight(x)
        } else {
            0
        }),
        refs_among(a.update(at, x), target, upto) + (if at < upto {
            ref_weight(a[at], target)
        } else {
            0
        }) == refs_among(a, target, upto) + (if at < upto {
            ref_weight(x, target)
        } else {
            0
        }),
    decreases upto,
{
    if upto > 0 {
        lemma_among_update(a, at, x, target, (upto - 1) as nat);
    }
}

/// A new position adds what it weighs.
pub proof fn lemma_among_push(a: Seq<NodeView>, x: NodeView, target: i64)
    ensures
        live_among(a.push(x), a.len() + 1) == live_among(a, a.len()) + live_weight(x),
        refs_among(a.push(x), target, a.len() + 1) == refs_among(a, target, a.len()) + ref_weight(
            x,
            target,
        ),
{
    lemma_among_prefix(a.push(x), a, target, a.len());
}

impl TreeView {
    /// A new root embeds nothing.
    pub proof fn lemma_with_root_counts(self, data: i32, target: i64)
        ensures
            self.with_root(data).refs_to(target) == self.refs_to(target),
            self.with_root(data).live_count() == self.live_count() + 1,
    {
        lemma_among_push(self.nodes, NodeView::leaf(data, 0), target);
    }

    /// A new node in a child list embeds nothing.
    pub proof fn lemma_with_sibling_at_counts(self, parent: int, at: int, data: i32, target: i64)
        requires
            0 <= parent < self.nodes.len(),
        ensures
            self.with_sibling_at(parent, at, data).refs_to(target) == self.refs_to(target),
            self.with_sibling_at(parent, at, data).live_count() == self.live_count() + 1,
    {
        let changed = self.nodes[parent].with_children(
            self.children_of(parent).insert(at, self.next_pos()),
        );
        lemma_among_update(self.nodes, parent, changed, target, self.nodes.len());
        lemma_among_push(self.nodes.update(parent, changed), NodeView::leaf(data, parent), target);
    }

    /// A new last child embeds nothing.
    pub proof fn lemma_with_child_counts(self, parent: int, data: i32, target: i64)
        requires
            0 <= parent < self.nodes.len(),
        ensures
            self.with_child(parent, data).refs_to(target) == self.refs_to(target),
            self.with_child(parent, data).live_count() == self.live_count() + 1,
    {
        let k = self.children_of(parent);
        assert(k.insert(k.len() as int, self.next_pos()) =~= k.push(self.next_pos()));
        assert(self.with_child(parent, data) =~= self.with_sibling_at(
            parent,
            k.len() as int,
            data,
        ));
        self.lemma_with_sibling_at_counts(parent, k.len() as int, data, target);
    }

    /// A new sibling embeds nothing.
    pub proof fn lemma_with_sibling_after_counts(self, sibling: int, data: i32, target: i64)
        requires
            0 <= self.parent_of(sibling) < self.nodes.len(),
        ensures
            self.with_sibling_after(sibling, data).refs_to(target) == self.refs_to(target),
            self.with_sibling_after(sibling, data).live_count() == self.live_count() + 1,
    {
        self.lemma_with_sibling_at_counts(
            self.parent_of(sibling),
            self.rank_of(sibling) + 1,
            data,
            target,
        );
    }

    /// Recording an embedding of `to` at a live node adds one reference to
    /// `to` and takes away the one that the node held before.
    pub proof fn lemma_with_ref_counts(self, p: int, to: i64, target: i64)
        requires
            self.is_live(p),
        ensures
            self.with_ref(p, to).refs_to(target) + ref_weight(self.nodes[p], target)
                == self.refs_to(target) + if to == target {
                1nat
            } else {
                0nat
            },
            self.with_ref(p, to).live_count() == self.live_count(),
    {
        lemma_among_update(
            self.nodes,
            p,
            self.nodes[p].with_ref(Some(to)),
            target,
            self.nodes.len(),
        );
    }

    /// Deleting a leaf takes away the node and the reference that it held.
    pub proof fn lemma_without_leaf_counts(self, p: int, target: i64)
        requires
            self.wf(),
            self.is_live(p),
            p != self.root,
        ensures
            self.without_leaf(p).refs_to(target) + ref_weight(self.nodes[p], target)
                == self.refs_to(target),
            self.without_leaf(p).live_count() + 1 == self.live_count(),
    {
        self.lemma_rank(p);
        let parent = self.parent_of(p);
        let changed = self.nodes[parent].with_children(
            self.children_of(parent).remove(self.rank_of(p)),
        );
        lemma_among_update(self.nodes, parent, changed, target, self.nodes.len());
        lemma_among_update(
            self.nodes.update(parent, changed),
            p,
            NodeView::vacant(),
            target,
            self.nodes.len(),
        );
    }
}

} // verus!
