//! The mathematical model of a forest: its trees by slot, and how many
//! references a tree has.

use vstd::prelude::*;
use crate::counting::{lemma_among_bound, ref_weight, refs_among};
use crate::model::TreeView;

verus! {

/// A forest as a sequence of slots. The tree with identifier `-1` lives in
/// slot 0, the one with `-2` in slot 1, and so on; a slot whose tree was
/// deleted stays empty, so that no identifier is ever given out twice.
pub struct ForestView {
    pub trees: Seq<Option<TreeView>>,
}

/// The number of references to `target` that the trees in the first `upto`
/// slots hold.
pub open spec fn refs_in(trees: Seq<Option<TreeView>>, target: i64, upto: nat) -> nat
    decreases upto,
{
    if upto == 0 {
        0
    } else {
        refs_in(trees, target, (upto - 1) as nat) + match trees[upto - 1] {
            Some(tree) => tree.refs_to(target),
            None => 0,
        }
    }
}

impl ForestView {
    /// The slot that the identifier `id` stands for.
    pub open spec fn slot_of(id: i64) -> int {
        -(id as int) - 1
    }

    /// The identifier of the tree in `slot`.
    pub open spec fn id_of(slot: int) -> int {
        -slot - 1
    }

    /// Whether `id` names a tree that is registered now.
    pub open spec fn is_registered(self, id: i64) -> bool {
        &&& id < 0
        &&& Self::slot_of(id) < self.trees.len()
        &&& self.trees[Self::slot_of(id)] is Some
    }

    /// The tree that `id` names.
    pub open spec fn tree(self, id: i64) -> TreeView {
        self.trees[Self::slot_of(id)]->0
    }

    /// The number of live nodes, over all registered trees, that embed the
    /// tree `target`.
    pub open spec fn refs_to(self, target: i64) -> nat {
        refs_in(self.trees, target, self.trees.len())
    }

    /// Whether `id` is an identifier that this forest has given out, for a
    /// tree that is registered still or was deleted since.
    pub open spec fn was_issued(self, id: i64) -> bool {
        id < 0 && Self::slot_of(id) < self.trees.len()
    }

    /// Every registered tree is well-formed and has its root, every
    /// identifier fits the identifier type, and nothing embeds a tree that
    /// this forest never held.
    pub open spec fn wf(self) -> bool {
        &&& self.trees.len() <= i64::MAX
        &&& forall|id: i64| !self.was_issued(id) ==> #[trigger] self.refs_to(id) == 0
        &&& forall|i: int|
            0 <= i < self.trees.len() && (#[trigger] self.trees[i]) is Some ==> {
                &&& self.trees[i]->0.wf()
                &&& self.trees[i]->0.root != 0
                &&& self.trees[i]->0.nodes.len() <= i64::MAX
            }
    }

    /// The forest without trees.
    pub open spec fn empty() -> ForestView {
        ForestView { trees: Seq::empty() }
    }

    /// The forest after a tree was registered in a new slot.
    pub open spec fn with_tree(self, tree: TreeView) -> ForestView {
        ForestView { trees: self.trees.push(Some(tree)) }
    }

    /// The forest after the tree `id` was replaced by `tree`.
    pub open spec fn with_tree_at(self, id: i64, tree: TreeView) -> ForestView {
        ForestView { trees: self.trees.update(Self::slot_of(id), Some(tree)) }
    }

    /// The forest after the tree `id` was removed.
    pub open spec fn without_tree(self, id: i64) -> ForestView {
        ForestView { trees: self.trees.update(Self::slot_of(id), None) }
    }
}

/// Counts over the first slots depend on those slots alone.
pub proof fn lemma_refs_in_prefix(
    a: Seq<Option<TreeView>>,
    b: Seq<Option<TreeView>>,
    target: i64,
    upto: nat,
)
    requires
        upto <= a.len(),
        upto <= b.len(),
        forall|i: int| 0 <= i < upto ==> a[i] == b[i],
    ensures
        refs_in(a, target, upto) == refs_in(b, target, upto),
    decreases upto,
{
    if upto > 0 {
        lemma_refs_in_prefix(a, b, target, (upto - 1) as nat);
    }
}

/// What one slot contributes to the references to `target`.
pub open spec fn slot_refs(slot: Option<TreeView>, target: i64) -> nat {
    match slot {
        Some(tree) => tree.refs_to(target),
        None => 0,
    }
}

/// Replacing one slot changes the count by the difference in what that slot
/// contributes.
pub proof fn lemma_refs_in_update(
    a: Seq<Option<TreeView>>,
    at: int,
    x: Option<TreeView>,
    target: i64,
    upto: nat,
)
    requires
        0 <= at < a.len(),
        upto <= a.len(),
    ensures
        refs_in(a.update(at, x), target, upto) + (if at < upto {
            slot_refs(a[at], target)
        } else {
            0
        }) == refs_in(a, target, upto) + (if at < upto {
            slot_refs(x, target)
        } else {
            0
        }),
    decreases upto,
{
    if upto > 0 {
        lemma_refs_in_update(a, at, x, target, (upto - 1) as nat);
    }
}

/// A new slot adds what it contributes.
pub proof fn lemma_refs_in_push(a: Seq<Option<TreeView>>, x: Option<TreeView>, target: i64)
    ensures
        refs_in(a.push(x), target, a.len() + 1) == refs_in(a, target, a.len()) + slot_refs(
            x,
            target,
        ),
{
    lemma_refs_in_prefix(a.push(x), a, target, a.len());
}

/// What one slot contributes is part of the whole.
pub proof fn lemma_refs_in_slot(a: Seq<Option<TreeView>>, at: int, target: i64, upto: nat)
    requires
        0 <= at < upto <= a.len(),
    ensures
        slot_refs(a[at], target) <= refs_in(a, target, upto),
    decreases upto,
{
    if at < upto - 1 {
        lemma_refs_in_slot(a, at, target, (upto - 1) as nat);
    }
}

/// A live node that embeds `target` is counted among the references to it.
pub proof fn lemma_ref_counted(nodes: Seq<crate::model::NodeView>, at: int, target: i64, upto: nat)
    requires
        0 <= at < upto <= nodes.len(),
    ensures
        ref_weight(nodes[at], target) <= refs_among(nodes, target, upto),
    decreases upto,
{
    if at < upto - 1 {
        lemma_ref_counted(nodes, at, target, (upto - 1) as nat);
    }
}

/// The references that the first slots hold are no more than their nodes:
/// fewer than `2^63` in each slot.
pub proof fn lemma_refs_in_bound(a: Seq<Option<TreeView>>, target: i64, upto: nat)
    requires
        upto <= a.len(),
        forall|i: int|
            0 <= i < a.len() && (#[trigger] a[i]) is Some ==> a[i]->0.nodes.len() <= i64::MAX,
    ensures
        refs_in(a, target, upto) <= upto * 0x8000_0000_0000_0000,
    decreases upto,
{
    if upto > 0 {
        lemma_refs_in_bound(a, target, (upto - 1) as nat);
        match a[upto - 1] {
            Some(tree) => {
                lemma_among_bound(tree.nodes, target, tree.nodes.len());
            },
            None => {},
        }
        assert(upto * 0x8000_0000_0000_0000 == (upto - 1) * 0x8000_0000_0000_0000
            + 0x8000_0000_0000_0000) by (nonlinear_arith);
    }
}

impl ForestView {
    /// Replacing a tree changes the references to `target` by the difference
    /// in what that tree holds.
    pub proof fn lemma_with_tree_at_refs(self, id: i64, tree: TreeView, target: i64)
        requires
            self.is_registered(id),
        ensures
            self.with_tree_at(id, tree).refs_to(target) + self.tree(id).refs_to(target)
                == self.refs_to(target) + tree.refs_to(target),
    {
        lemma_refs_in_update(
            self.trees,
            Self::slot_of(id),
            Some(tree),
            target,
            self.trees.len(),
        );
    }

    /// Removing a tree takes away the references that it holds.
    pub proof fn lemma_without_tree_refs(self, id: i64, target: i64)
        requires
            self.is_registered(id),
        ensures
            self.without_tree(id).refs_to(target) + self.tree(id).refs_to(target) == self.refs_to(
                target,
            ),
    {
        lemma_refs_in_update(self.trees, Self::slot_of(id), None, target, self.trees.len());
    }

    /// A new tree adds the references that it holds.
    pub proof fn lemma_with_tree_refs(self, tree: TreeView, target: i64)
        ensures
            self.with_tree(tree).refs_to(target) == self.refs_to(target) + tree.refs_to(target),
    {
        lemma_refs_in_push(self.trees, Some(tree), target);
    }

    /// No tree has `2^126` references or more.
    pub proof fn lemma_refs_bound(self, target: i64)
        requires
            self.wf(),
        ensures
            self.refs_to(target) <= 0x4000_0000_0000_0000_0000_0000_0000_0000,
    {
        lemma_refs_in_bound(self.trees, target, self.trees.len());
        let n = self.trees.len() as int;
        assert(n * 0x8000_0000_0000_0000 <= 0x8000_0000_0000_0000 * 0x8000_0000_0000_0000)
            by (nonlinear_arith)
            requires
                0 <= n <= 0x8000_0000_0000_0000,
        ;
    }
}

} // verus!
