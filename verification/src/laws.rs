//! What navigation in a well-formed tree, and the counting of references in a
//! well-formed forest, always satisfy.

use vstd::prelude::*;
use crate::counting::ref_weight;
use crate::forest_model::{lemma_ref_counted, lemma_refs_in_slot, ForestView};
use crate::model::TreeView;

verus! {

impl TreeView {
    /// The first child of a node names that node as its parent: going down
    /// to the first child and up again ends where it began.
    pub proof fn lemma_parent_of_first_child(self, p: int)
        requires
            self.wf(),
            self.is_live(p),
            self.children_of(p).len() > 0,
        ensures
            self.is_live(self.first_child_of(p)),
            self.parent_of(self.first_child_of(p)) == p,
    {
        self.lemma_rank_of_child(p, 0);
    }

    /// The last child of a node names that node as its parent.
    pub proof fn lemma_parent_of_last_child(self, p: int)
        requires
            self.wf(),
            self.is_live(p),
            self.children_of(p).len() > 0,
        ensures
            self.is_live(self.last_child_of(p)),
            self.parent_of(self.last_child_of(p)) == p,
    {
        self.lemma_rank_of_child(p, self.children_of(p).len() - 1);
    }

    /// Where a live node has a sibling before it, the sibling after that one
    /// is the node itself.
    pub proof fn lemma_next_of_prev(self, n: int)
        requires
            self.wf(),
            self.is_live(n),
            self.prev_sibling_of(n) != 0,
        ensures
            self.is_live(self.prev_sibling_of(n)),
            self.next_sibling_of(self.prev_sibling_of(n)) == n,
    {
        let parent = self.parent_of(n);
        assert(n != self.root);
        self.lemma_rank(n);
        self.lemma_rank_of_child(parent, self.rank_of(n) - 1);
    }

    /// Where a live node has a sibling after it, the sibling before that one
    /// is the node itself.
    pub proof fn lemma_prev_of_next(self, n: int)
        requires
            self.wf(),
            self.is_live(n),
            self.next_sibling_of(n) != 0,
        ensures
            self.is_live(self.next_sibling_of(n)),
            self.prev_sibling_of(self.next_sibling_of(n)) == n,
    {
        let parent = self.parent_of(n);
        assert(n != self.root);
        self.lemma_rank(n);
        self.lemma_rank_of_child(parent, self.rank_of(n) + 1);
    }

    /// Siblings share their parent.
    pub proof fn lemma_sibling_parent(self, n: int)
        requires
            self.wf(),
            self.is_live(n),
        ensures
            self.next_sibling_of(n) != 0 ==> self.parent_of(self.next_sibling_of(n))
                == self.parent_of(n),
            self.prev_sibling_of(n) != 0 ==> self.parent_of(self.prev_sibling_of(n))
                == self.parent_of(n),
    {
        if n != self.root {
            self.lemma_rank(n);
            let parent = self.parent_of(n);
            if self.next_sibling_of(n) != 0 {
                self.lemma_rank_of_child(parent, self.rank_of(n) + 1);
            }
            if self.prev_sibling_of(n) != 0 {
                self.lemma_rank_of_child(parent, self.rank_of(n) - 1);
            }
        }
    }
}

impl ForestView {
    /// A tree that some live node of a registered tree embeds has a
    /// reference: it cannot be deleted.
    pub proof fn lemma_embedded_tree_is_referenced(self, id: i64, p: int, target: i64)
        requires
            self.is_registered(id),
            self.tree(id).is_live(p),
            self.tree(id).nodes[p].subtree_ref == Some(target),
        ensures
            self.refs_to(target) >= 1,
    {
        let tree = self.tree(id);
        lemma_ref_counted(tree.nodes, p, target, tree.nodes.len());
        lemma_refs_in_slot(self.trees, Self::slot_of(id), target, self.trees.len());
    }

    /// Once the one node that embeds a tree is deleted as a leaf, that tree
    /// has no reference left: it can be deleted.
    pub proof fn lemma_last_reference_gone_with_leaf(self, id: i64, p: int, target: i64)
        requires
            self.wf(),
            self.is_registered(id),
            self.tree(id).is_live(p),
            p != self.tree(id).root,
            self.tree(id).nodes[p].subtree_ref == Some(target),
            self.refs_to(target) == 1,
        ensures
            self.with_tree_at(id, self.tree(id).without_leaf(p)).refs_to(target) == 0,
    {
        let tree = self.tree(id);
        tree.lemma_without_leaf_counts(p, target);
        self.lemma_with_tree_at_refs(id, tree.without_leaf(p), target);
        self.lemma_embedded_tree_is_referenced(id, p, target);
        lemma_ref_counted(tree.nodes, p, target, tree.nodes.len());
        assert(ref_weight(tree.nodes[p], target) == 1);
    }

    /// Once the one node that embeds a tree is deleted with its subtree, that
    /// tree has no reference left: it can be deleted.
    pub proof fn lemma_last_reference_gone_with_subtree(self, id: i64, p: int, target: i64)
        requires
            self.wf(),
            self.is_registered(id),
            self.tree(id).is_live(p),
            p != self.tree(id).root,
            self.tree(id).nodes[p].subtree_ref == Some(target),
            self.refs_to(target) == 1,
        ensures
            self.with_tree_at(id, self.tree(id).without_subtree(p)).refs_to(target) == 0,
    {
        let tree = self.tree(id);
        tree.lemma_without_subtree_counts(p, target);
        tree.lemma_refs_within_self(p, target);
        self.lemma_with_tree_at_refs(id, tree.without_subtree(p), target);
        assert(ref_weight(tree.nodes[p], target) == 1);
    }
}

} // verus!
