//! The forest: a registry of trees, each under an identifier of its own, that
//! keeps count of the references between them.
//!
//! The trees of a forest are read through `get_tree` and changed through the
//! forest, which keeps the count of every tree in step: the number of live
//! nodes, in any registered tree, that embed it. A tree can be deleted while
//! that number is 0. Counts are wide enough that no forest can overflow them.

use vstd::prelude::*;
use crate::counting::{lemma_occurrences_push, occurrences, ref_weight};
use crate::cursor::{PostOrderIterator, PreOrderIterator};
use crate::error::TreeError;
use crate::forest_model::ForestView;
use crate::handle::TreeHandle;
use crate::model::TreeView;
use crate::traversal::{postorder, preorder};
use crate::tree::Tree;

verus! {

/// A forest. It owns the trees that it registers; a tree identifier is
/// negative, so that it is never taken for a position.
pub struct Forest {
    slots: Vec<Option<Tree>>,
    /// For each slot, the number of references to its tree.
    refs: Vec<u128>,
}

/// What a slot stands for.
spec fn slot_view(slot: Option<Tree>) -> Option<TreeView> {
    match slot {
        Some(tree) => Some(tree@),
        None => None,
    }
}

impl View for Forest {
    type V = ForestView;

    closed spec fn view(&self) -> ForestView {
        ForestView { trees: Seq::new(self.slots@.len(), |i: int| slot_view(self.slots@[i])) }
    }
}

impl Default for Forest {
    /// A forest without trees.
    fn default() -> (forest: Forest)
        ensures
            forest.wf(),
            forest@ == ForestView::empty(),
    {
        Forest::new()
    }
}

impl Forest {
    /// The stored counts are the true counts plus the references in
    /// `pending`, which were given up but not yet taken off.
    closed spec fn counts_off_by(&self, pending: Seq<i64>) -> bool {
        &&& self.refs@.len() == self.slots@.len()
        &&& forall|i: int|
            0 <= i < self.slots@.len() && (#[trigger] self.slots@[i]) is Some
                ==> self.slots@[i]->0.links_wf()
        &&& forall|i: int|
            0 <= i < self.refs@.len() ==> (#[trigger] self.refs@[i]) == self@.refs_to(
                ForestView::id_of(i) as i64,
            ) + occurrences(pending, ForestView::id_of(i) as i64)
        &&& forall|id: i64| !self@.was_issued(id) ==> #[trigger] occurrences(pending, id) == 0
    }

    /// The trees are represented faithfully, and the count stored for each
    /// slot is the number of references to its tree.
    pub closed spec fn counts_wf(&self) -> bool {
        self.counts_off_by(Seq::empty())
    }

    /// The invariant of a forest.
    pub open spec fn wf(&self) -> bool {
        &&& self@.wf()
        &&& self.counts_wf()
    }

    /// A forest without trees.
    pub fn new() -> (forest: Forest)
        ensures
            forest.wf(),
            forest@ == ForestView::empty(),
    {
        let forest = Forest { slots: Vec::new(), refs: Vec::new() };
        assert(forest@.trees =~= ForestView::empty().trees);
        forest
    }

    /// The number of identifiers given out so far.
    pub fn issued(&self) -> (n: usize)
        ensures
            n == self@.trees.len(),
    {
        self.slots.len()
    }

    /// The slot of the registered tree `id`.
    fn slot(&self, id: i64) -> (r: Option<usize>)
        requires
            self.wf(),
        ensures
            r is Some <==> self@.is_registered(id),
            r matches Some(s) ==> s == ForestView::slot_of(id) && self.slots@[s as int] is Some,
    {
        if id >= 0 {
            return None;
        }
        let s: i64 = -(id + 1);
        if s >= self.slots.len() as i64 {
            return None;
        }
        if self.slots[s as usize].is_some() {
            Some(s as usize)
        } else {
            None
        }
    }

    /// Whether `id` names a tree that is registered now.
    pub fn contains(&self, id: i64) -> (b: bool)
        requires
            self.wf(),
        ensures
            b == self@.is_registered(id),
    {
        self.slot(id).is_some()
    }

    /// Shared access to the tree `id`: a handle that reads the tree and walks
    /// it within this forest.
    pub fn get_tree(&self, id: i64) -> (r: Result<TreeHandle<'_>, TreeError>)
        requires
            self.wf(),
        ensures
            r is Ok <==> self@.is_registered(id),
            r matches Ok(handle) ==> handle.wf() && handle.id() == id && handle.forest() == self@
                && handle@ == self@.tree(id),
            r matches Err(e) ==> e == TreeError::UnknownTree,
    {
        match self.tree_at(id) {
            Ok(tree) => Ok(TreeHandle::new(self, tree, id)),
            Err(e) => Err(e),
        }
    }

    /// The tree `id` itself.
    pub(crate) fn tree_at(&self, id: i64) -> (r: Result<&Tree, TreeError>)
        requires
            self.wf(),
        ensures
            r is Ok <==> self@.is_registered(id),
            r matches Ok(tree) ==> tree.wf() && tree@ == self@.tree(id),
            r matches Err(e) ==> e == TreeError::UnknownTree,
    {
        match self.slot(id) {
            Some(s) => {
                match &self.slots[s] {
                    Some(tree) => Ok(tree),
                    None => Err(TreeError::UnknownTree),
                }
            },
            None => Err(TreeError::UnknownTree),
        }
    }

    /// The number of references to the tree `id`: the live nodes, in any
    /// registered tree, that embed it.
    pub fn ref_count(&self, id: i64) -> (r: Result<u128, TreeError>)
        requires
            self.wf(),
        ensures
            r == if self@.is_registered(id) {
                Ok::<u128, TreeError>(self@.refs_to(id) as u128)
            } else {
                Err::<u128, TreeError>(TreeError::UnknownTree)
            },
    {
        match self.slot(id) {
            Some(s) => {
                proof {
                    self@.lemma_refs_bound(id);
                }
                Ok(self.refs[s])
            },
            None => Err(TreeError::UnknownTree),
        }
    }

    /// Registers a new tree whose root holds `root_data` and returns its
    /// identifier. Nothing refers to the new tree yet.
    pub fn create_tree(&mut self, root_data: i32) -> (id: i64)
        requires
            old(self).wf(),
            old(self)@.trees.len() < i64::MAX,
        ensures
            final(self).wf(),
            id < 0,
            id == ForestView::id_of(old(self)@.trees.len() as int),
            final(self)@ == old(self)@.with_tree(TreeView::empty().with_root(root_data)),
            final(self)@.refs_to(id) == 0,
            forall|target: i64| #[trigger]
                final(self)@.refs_to(target) == old(self)@.refs_to(target),
    {
        let mut tree = Tree::new_no_ref();
        tree.add_root(root_data);
        let id: i64 = -(self.slots.len() as i64) - 1;
        self.slots.push(Some(tree));
        self.refs.push(0);
        proof {
            let v0 = old(self)@;
            let t = TreeView::empty().with_root(root_data);
            assert(self@.trees =~= v0.with_tree(t).trees);
            assert forall|target: i64| self@.refs_to(target) == v0.refs_to(target) by {
                v0.lemma_with_tree_refs(t, target);
                TreeView::empty().lemma_with_root_counts(root_data, target);
                assert(TreeView::empty().refs_to(target) == 0) by {
                    reveal_with_fuel(crate::counting::refs_among, 2);
                }
            }
            assert forall|i: int| 0 <= i < self.refs@.len() implies (#[trigger] self.refs@[i])
                == self@.refs_to(ForestView::id_of(i) as i64) + occurrences(
                Seq::empty(),
                ForestView::id_of(i) as i64,
            ) by {
                let id_i = ForestView::id_of(i) as i64;
                assert(self@.refs_to(id_i) == v0.refs_to(id_i));
                if i < old(self).refs@.len() {
                    assert(old(self).refs@[i] == self.refs@[i]);
                } else {
                    assert(!v0.was_issued(id_i));
                    assert(v0.refs_to(id_i) == 0);
                }
            }
            assert forall|t2: i64| !self@.was_issued(t2) implies #[trigger] self@.refs_to(t2)
                == 0 by {
                assert(!v0.was_issued(t2));
                assert(v0.refs_to(t2) == 0);
            }
            assert(!v0.was_issued(id));
            assert(v0.refs_to(id) == 0);
        }
        id
    }

    /// Takes the references in `pending` off the stored counts.
    fn settle(&mut self, pending: Vec<i64>)
        requires
            old(self)@.wf(),
            old(self).counts_off_by(pending@),
        ensures
            final(self)@ == old(self)@,
            final(self).counts_wf(),
    {
        let mut pending = pending;
        while pending.len() > 0
            invariant
                self@ == old(self)@,
                self@.wf(),
                self.counts_off_by(pending@),
            decreases pending@.len(),
        {
            let ghost before = pending@;
            let ghost refs_before = self.refs@;
            let target = pending.pop().unwrap();
            proof {
                assert(before.drop_last() =~= pending@);
                assert(occurrences(before, target) >= 1);
                assert(self@.was_issued(target));
                assert(ForestView::id_of(ForestView::slot_of(target)) as i64 == target);
                assert(self.slots@.len() == self.slots.len());
                assert(self.refs@[ForestView::slot_of(target)] >= 1);
            }
            let s = (-(target + 1)) as usize;
            let count = self.refs[s];
            self.refs.set(s, count - 1);
            proof {
                assert(self@.trees =~= old(self)@.trees);
                assert forall|i: int| 0 <= i < self.refs@.len() implies (#[trigger] self.refs@[i])
                    == self@.refs_to(ForestView::id_of(i) as i64) + occurrences(
                    pending@,
                    ForestView::id_of(i) as i64,
                ) by {
                    assert(refs_before[i] == self@.refs_to(ForestView::id_of(i) as i64)
                        + occurrences(before, ForestView::id_of(i) as i64));
                }
                assert forall|id: i64| !self@.was_issued(id) implies #[trigger] occurrences(
                    pending@,
                    id,
                ) == 0 by {
                    assert(occurrences(before, id) == 0);
                }
            }
        }
        proof {
            assert(pending@ =~= Seq::empty());
        }
    }

    /// What the stored counts owe after the tree `id` was changed in place:
    /// `self` is the forest before, `after` the forest with the changed tree
    /// and, where `gained` names a tree, one more in the count of that tree.
    proof fn lemma_slot_changed(
        &self,
        after: &Forest,
        id: i64,
        released: Seq<i64>,
        gained: Option<i64>,
    )
        requires
            self.wf(),
            self@.is_registered(id),
            gained matches Some(g) ==> self@.was_issued(g),
            after.slots@.len() == self.slots@.len(),
            after.refs@.len() == self.refs@.len(),
            forall|i: int|
                0 <= i < self.slots@.len() && i != ForestView::slot_of(id)
                    ==> #[trigger] after.slots@[i] == self.slots@[i],
            forall|i: int|
                0 <= i < self.refs@.len() ==> #[trigger] after.refs@[i] == self.refs@[i] + (
                if gained == Some(ForestView::id_of(i) as i64) {
                    1int
                } else {
                    0int
                }),
            after.slots@[ForestView::slot_of(id)] is Some,
            after.slots@[ForestView::slot_of(id)]->0.wf(),
            after.slots@[ForestView::slot_of(id)]->0@.root != 0,
            forall|target: i64|
                after.slots@[ForestView::slot_of(id)]->0@.refs_to(target) + occurrences(
                    released,
                    target,
                ) == self@.tree(id).refs_to(target) + (if gained == Some(target) {
                    1int
                } else {
                    0int
                }),
        ensures
            after@ == self@.with_tree_at(id, after.slots@[ForestView::slot_of(id)]->0@),
            after@.wf(),
            after.counts_off_by(released),
            forall|target: i64|
                (#[trigger] after@.refs_to(target)) + occurrences(released, target)
                    == self@.refs_to(target) + (if gained == Some(target) {
                    1int
                } else {
                    0int
                }),
    {
        let s = ForestView::slot_of(id);
        let tree = after.slots@[s]->0@;
        assert(after@.trees =~= self@.with_tree_at(id, tree).trees);
        assert forall|target: i64|
            after@.refs_to(target) + occurrences(released, target) == self@.refs_to(target) + (
            if gained == Some(target) {
                1int
            } else {
                0int
            }) by {
            self@.lemma_with_tree_at_refs(id, tree, target);
            assert(after.slots@[s]->0@.refs_to(target) + occurrences(released, target)
                == self@.tree(id).refs_to(target) + (if gained == Some(target) {
                1int
            } else {
                0int
            }));
        }
        assert forall|i: int| 0 <= i < after.refs@.len() implies (#[trigger] after.refs@[i])
            == after@.refs_to(ForestView::id_of(i) as i64) + occurrences(
            released,
            ForestView::id_of(i) as i64,
        ) by {
            let id_i = ForestView::id_of(i) as i64;
            assert(self.refs@[i] == self@.refs_to(id_i) + occurrences(Seq::empty(), id_i));
            assert(after@.refs_to(id_i) + occurrences(released, id_i) == self@.refs_to(id_i) + (
            if gained == Some(id_i) {
                1int
            } else {
                0int
            }));
        }
        assert forall|t: i64| !after@.was_issued(t) implies #[trigger] after@.refs_to(t) == 0 by {
            assert(self@.refs_to(t) == 0);
            assert(after@.refs_to(t) + occurrences(released, t) == self@.refs_to(t) + (if gained
                == Some(t) {
                1int
            } else {
                0int
            }));
        }
        assert forall|t: i64| !after@.was_issued(t) implies #[trigger] occurrences(released, t)
            == 0 by {
            assert(self@.refs_to(t) == 0);
            assert(after@.refs_to(t) + occurrences(released, t) == self@.refs_to(t) + (if gained
                == Some(t) {
                1int
            } else {
                0int
            }));
        }
        assert forall|i: int|
            0 <= i < after@.trees.len() && (#[trigger] after@.trees[i]) is Some implies {
            &&& after@.trees[i]->0.wf()
            &&& after@.trees[i]->0.root != 0
            &&& after@.trees[i]->0.nodes.len() <= i64::MAX
        } by {
            if i != s {
                assert(after.slots@[i] == self.slots@[i]);
                assert(self@.trees[i] is Some);
            }
        }
        let slots = after.slots@;
        assert forall|i: int|
            0 <= i < slots.len() && (#[trigger] slots[i]) is Some implies slots[i]->0.links_wf()
        by {
            if i != s {
                assert(slots[i] == self.slots@[i]);
            }
        }
    }

    /// Appends a new node with payload `data` as the last child of `parent`
    /// in the tree `tree_id`.
    pub fn add_child(&mut self, tree_id: i64, parent: i64, data: i32) -> (r: Result<i64, TreeError>)
        requires
            old(self).wf(),
            old(self)@.is_registered(tree_id) ==> old(self)@.tree(tree_id).next_pos() < i64::MAX,
        ensures
            final(self).wf(),
            r == if !old(self)@.is_registered(tree_id) {
                Err::<i64, TreeError>(TreeError::UnknownTree)
            } else if !old(self)@.tree(tree_id).is_live(parent as int) {
                Err::<i64, TreeError>(TreeError::InvalidPosition)
            } else {
                Ok::<i64, TreeError>(old(self)@.tree(tree_id).next_pos() as i64)
            },
            final(self)@ == if r is Ok {
                old(self)@.with_tree_at(
                    tree_id,
                    old(self)@.tree(tree_id).with_child(parent as int, data),
                )
            } else {
                old(self)@
            },
            forall|target: i64| #[trigger]
                final(self)@.refs_to(target) == old(self)@.refs_to(target),
    {
        let s = match self.slot(tree_id) {
            Some(s) => s,
            None => {
                return Err(TreeError::UnknownTree);
            },
        };
        let ghost tv = self@.tree(tree_id);
        let r = match &mut self.slots[s] {
            Some(tree) => tree.add_child(parent, data),
            None => Err(TreeError::UnknownTree),
        };
        proof {
            assert forall|target: i64|
                self.slots@[s as int]->0@.refs_to(target) + occurrences(Seq::empty(), target)
                    == tv.refs_to(target) by {
                if tv.is_live(parent as int) {
                    tv.lemma_with_child_counts(parent as int, data, target);
                }
            }
            old(self).lemma_slot_changed(self, tree_id, Seq::empty(), None);
            if r is Err {
                assert(self@.trees =~= old(self)@.trees);
            }
        }
        r
    }

    /// Puts a new node with payload `data` right behind `sibling` in the tree
    /// `tree_id`. Nothing can be put behind a root.
    pub fn insert_next_sibling(&mut self, tree_id: i64, sibling: i64, data: i32) -> (r: Result<
        i64,
        TreeError,
    >)
        requires
            old(self).wf(),
            old(self)@.is_registered(tree_id) ==> old(self)@.tree(tree_id).next_pos() < i64::MAX,
        ensures
            final(self).wf(),
            r == if !old(self)@.is_registered(tree_id) {
                Err::<i64, TreeError>(TreeError::UnknownTree)
            } else if !old(self)@.tree(tree_id).is_child(sibling as int) {
                Err::<i64, TreeError>(TreeError::InvalidPosition)
            } else {
                Ok::<i64, TreeError>(old(self)@.tree(tree_id).next_pos() as i64)
            },
            final(self)@ == if r is Ok {
                old(self)@.with_tree_at(
                    tree_id,
                    old(self)@.tree(tree_id).with_sibling_after(sibling as int, data),
                )
            } else {
                old(self)@
            },
            forall|target: i64| #[trigger]
                final(self)@.refs_to(target) == old(self)@.refs_to(target),
    {
        let s = match self.slot(tree_id) {
            Some(s) => s,
            None => {
                return Err(TreeError::UnknownTree);
            },
        };
        let ghost tv = self@.tree(tree_id);
        let r = match &mut self.slots[s] {
            Some(tree) => tree.insert_next_sibling(sibling, data),
            None => Err(TreeError::UnknownTree),
        };
        proof {
            assert forall|target: i64|
                self.slots@[s as int]->0@.refs_to(target) + occurrences(Seq::empty(), target)
                    == tv.refs_to(target) by {
                if tv.is_child(sibling as int) {
                    tv.lemma_rank(sibling as int);
                    tv.lemma_with_sibling_after_counts(sibling as int, data, target);
                }
            }
            old(self).lemma_slot_changed(self, tree_id, Seq::empty(), None);
            if r is Err {
                assert(self@.trees =~= old(self)@.trees);
            }
        }
        r
    }

    /// The same as `insert_next_sibling`, under its other name.
    pub fn append_sibling(&mut self, tree_id: i64, sibling: i64, data: i32) -> (r: Result<
        i64,
        TreeError,
    >)
        requires
            old(self).wf(),
            old(self)@.is_registered(tree_id) ==> old(self)@.tree(tree_id).next_pos() < i64::MAX,
        ensures
            final(self).wf(),
            r == if !old(self)@.is_registered(tree_id) {
                Err::<i64, TreeError>(TreeError::UnknownTree)
            } else if !old(self)@.tree(tree_id).is_child(sibling as int) {
                Err::<i64, TreeError>(TreeError::InvalidPosition)
            } else {
                Ok::<i64, TreeError>(old(self)@.tree(tree_id).next_pos() as i64)
            },
            final(self)@ == if r is Ok {
                old(self)@.with_tree_at(
                    tree_id,
                    old(self)@.tree(tree_id).with_sibling_after(sibling as int, data),
                )
            } else {
                old(self)@
            },
            forall|target: i64| #[trigger]
                final(self)@.refs_to(target) == old(self)@.refs_to(target),
    {
        self.insert_next_sibling(tree_id, sibling, data)
    }

    /// Makes the node at `pos` of the tree `tree_id` embed the tree `target`.
    /// The count of `target` goes up by one; where the node embedded a tree
    /// before, the count of that tree goes down by one.
    pub fn add_subtree_ref(&mut self, tree_id: i64, pos: i64, target: i64) -> (r: Result<
        (),
        TreeError,
    >)
        requires
            old(self).wf(),
        ensures
            final(self).wf(),
            r == if !old(self)@.is_registered(tree_id) {
                Err::<(), TreeError>(TreeError::UnknownTree)
            } else if !old(self)@.tree(tree_id).is_live(pos as int) {
                Err::<(), TreeError>(TreeError::InvalidPosition)
            } else if !old(self)@.is_registered(target) {
                Err::<(), TreeError>(TreeError::UnknownTree)
            } else {
                Ok::<(), TreeError>(())
            },
            final(self)@ == if r is Ok {
                old(self)@.with_tree_at(
                    tree_id,
                    old(self)@.tree(tree_id).with_ref(pos as int, target),
                )
            } else {
                old(self)@
            },
            r is Ok ==> forall|t: i64|
                (#[trigger] final(self)@.refs_to(t)) + ref_weight(
                    old(self)@.tree(tree_id).nodes[pos as int],
                    t,
                ) == old(self)@.refs_to(t) + (if t == target {
                    1int
                } else {
                    0int
                }),
    {
        let s = match self.slot(tree_id) {
            Some(s) => s,
            None => {
                return Err(TreeError::UnknownTree);
            },
        };
        let live = match &self.slots[s] {
            Some(tree) => tree.contains(pos),
            None => false,
        };
        if !live {
            return Err(TreeError::InvalidPosition);
        }
        let to = match self.slot(target) {
            Some(to) => to,
            None => {
                return Err(TreeError::UnknownTree);
            },
        };
        let ghost tv = self@.tree(tree_id);
        let previous = match &mut self.slots[s] {
            Some(tree) => tree.add_subtree_ref(pos, target),
            None => Err(TreeError::UnknownTree),
        };
        proof {
            old(self)@.lemma_refs_bound(target);
            assert(ForestView::id_of(to as int) as i64 == target);
        }
        let count = self.refs[to];
        self.refs.set(to, count + 1);
        let mut pending: Vec<i64> = Vec::new();
        match previous {
            Ok(Some(before)) => {
                pending.push(before);
            },
            _ => {},
        }
        proof {
            assert forall|t: i64|
                self.slots@[s as int]->0@.refs_to(t) + occurrences(pending@, t) == tv.refs_to(t)
                    + (if Some(target) == Some(t) {
                    1int
                } else {
                    0int
                }) by {
                tv.lemma_with_ref_counts(pos as int, target, t);
                match tv.nodes[pos as int].subtree_ref {
                    Some(before) => {
                        lemma_occurrences_push(Seq::empty(), before, t);
                    },
                    None => {},
                }
            }
            old(self).lemma_slot_changed(self, tree_id, pending@, Some(target));
            assert forall|t: i64|
                (#[trigger] self@.refs_to(t)) + ref_weight(tv.nodes[pos as int], t) == old(
                    self,
                )@.refs_to(t) + (if t == target {
                    1int
                } else {
                    0int
                }) by {
                match tv.nodes[pos as int].subtree_ref {
                    Some(before) => {
                        lemma_occurrences_push(Seq::empty(), before, t);
                    },
                    None => {},
                }
            }
        }
        self.settle(pending);
        Ok(())
    }

    /// Deletes the childless node at `pos` of the tree `tree_id`. Where the
    /// node embedded a tree, the count of that tree goes down by one.
    pub fn delete_leaf(&mut self, tree_id: i64, pos: i64) -> (r: Result<(), TreeError>)
        requires
            old(self).wf(),
        ensures
            final(self).wf(),
            r == if !old(self)@.is_registered(tree_id) {
                Err::<(), TreeError>(TreeError::UnknownTree)
            } else if !old(self)@.tree(tree_id).is_live(pos as int) {
                Err::<(), TreeError>(TreeError::InvalidPosition)
            } else if old(self)@.tree(tree_id).children_of(pos as int).len() > 0 {
                Err::<(), TreeError>(TreeError::NotALeaf)
            } else if pos == old(self)@.tree(tree_id).root {
                Err::<(), TreeError>(TreeError::CannotDeleteRoot)
            } else {
                Ok::<(), TreeError>(())
            },
            final(self)@ == if r is Ok {
                old(self)@.with_tree_at(tree_id, old(self)@.tree(tree_id).without_leaf(pos as int))
            } else {
                old(self)@
            },
            r is Ok ==> forall|t: i64|
                (#[trigger] final(self)@.refs_to(t)) + ref_weight(
                    old(self)@.tree(tree_id).nodes[pos as int],
                    t,
                ) == old(self)@.refs_to(t),
    {
        let s = match self.slot(tree_id) {
            Some(s) => s,
            None => {
                return Err(TreeError::UnknownTree);
            },
        };
        let ghost tv = self@.tree(tree_id);
        let outcome = match &mut self.slots[s] {
            Some(tree) => tree.delete_leaf(pos),
            None => Err(TreeError::UnknownTree),
        };
        let mut pending: Vec<i64> = Vec::new();
        let r = match outcome {
            Ok(Some(target)) => {
                pending.push(target);
                Ok(())
            },
            Ok(None) => Ok(()),
            Err(e) => Err(e),
        };
        proof {
            assert forall|t: i64|
                self.slots@[s as int]->0@.refs_to(t) + occurrences(pending@, t) == tv.refs_to(
                    t,
                ) by {
                if outcome is Ok {
                    tv.lemma_without_leaf_counts(pos as int, t);
                    match tv.nodes[pos as int].subtree_ref {
                        Some(target) => {
                            lemma_occurrences_push(Seq::empty(), target, t);
                        },
                        None => {},
                    }
                }
            }
            old(self).lemma_slot_changed(self, tree_id, pending@, None);
            if r is Err {
                assert(self@.trees =~= old(self)@.trees);
            } else {
                assert forall|t: i64|
                    (#[trigger] self@.refs_to(t)) + ref_weight(tv.nodes[pos as int], t) == old(
                        self,
                    )@.refs_to(t) by {
                    match tv.nodes[pos as int].subtree_ref {
                        Some(target) => {
                            lemma_occurrences_push(Seq::empty(), target, t);
                        },
                        None => {},
                    }
                }
            }
        }
        self.settle(pending);
        r
    }

    /// Deletes the node at `pos` of the tree `tree_id` and everything below
    /// it. For each deleted node that embedded a tree, the count of that tree
    /// goes down by one.
    pub fn delete_subtree(&mut self, tree_id: i64, pos: i64) -> (r: Result<(), TreeError>)
        requires
            old(self).wf(),
        ensures
            final(self).wf(),
            r == if !old(self)@.is_registered(tree_id) {
                Err::<(), TreeError>(TreeError::UnknownTree)
            } else if !old(self)@.tree(tree_id).is_live(pos as int) {
                Err::<(), TreeError>(TreeError::InvalidPosition)
            } else if pos == old(self)@.tree(tree_id).root {
                Err::<(), TreeError>(TreeError::CannotDeleteRoot)
            } else {
                Ok::<(), TreeError>(())
            },
            final(self)@ == if r is Ok {
                old(self)@.with_tree_at(
                    tree_id,
                    old(self)@.tree(tree_id).without_subtree(pos as int),
                )
            } else {
                old(self)@
            },
            r is Ok ==> forall|t: i64|
                (#[trigger] final(self)@.refs_to(t)) + old(self)@.tree(tree_id).refs_within(
                    pos as int,
                    t,
                ) == old(self)@.refs_to(t),
    {
        let s = match self.slot(tree_id) {
            Some(s) => s,
            None => {
                return Err(TreeError::UnknownTree);
            },
        };
        let ghost tv = self@.tree(tree_id);
        let outcome = match &mut self.slots[s] {
            Some(tree) => tree.delete_subtree(pos),
            None => Err(TreeError::UnknownTree),
        };
        match outcome {
            Ok(pending) => {
                proof {
                    assert forall|t: i64|
                        self.slots@[s as int]->0@.refs_to(t) + occurrences(pending@, t)
                            == tv.refs_to(t) by {
                        tv.lemma_without_subtree_counts(pos as int, t);
                    }
                    old(self).lemma_slot_changed(self, tree_id, pending@, None);
                }
                self.settle(pending);
                Ok(())
            },
            Err(e) => {
                proof {
                    old(self).lemma_slot_changed(self, tree_id, Seq::empty(), None);
                    assert(self@.trees =~= old(self)@.trees);
                }
                Err(e)
            },
        }
    }

    /// Removes the tree `id` if nothing refers to it, and says whether it
    /// did. A tree that is still embedded somewhere stays as it is; once the
    /// embedding nodes are deleted, a later call removes it. The references
    /// that the removed tree held are given up with it.
    pub fn delete_tree(&mut self, id: i64) -> (deleted: bool)
        requires
            old(self).wf(),
        ensures
            final(self).wf(),
            deleted == (old(self)@.is_registered(id) && old(self)@.refs_to(id) == 0),
            final(self)@ == if deleted {
                old(self)@.without_tree(id)
            } else {
                old(self)@
            },
            deleted ==> forall|t: i64|
                (#[trigger] final(self)@.refs_to(t)) + old(self)@.tree(id).refs_to(t) == old(
                    self,
                )@.refs_to(t),
    {
        let s = match self.slot(id) {
            Some(s) => s,
            None => {
                return false;
            },
        };
        proof {
            assert(ForestView::id_of(s as int) as i64 == id);
            old(self)@.lemma_refs_bound(id);
        }
        if self.refs[s] != 0 {
            return false;
        }
        let ghost tv = self@.tree(id);
        let pending = match &self.slots[s] {
            Some(tree) => tree.held_refs(),
            None => Vec::new(),
        };
        self.slots.set(s, None);
        proof {
            let v0 = old(self)@;
            assert(self@.trees =~= v0.without_tree(id).trees);
            assert forall|t: i64| self@.refs_to(t) + occurrences(pending@, t) == v0.refs_to(t) by {
                v0.lemma_without_tree_refs(id, t);
            }
            assert forall|i: int| 0 <= i < self.refs@.len() implies (#[trigger] self.refs@[i])
                == self@.refs_to(ForestView::id_of(i) as i64) + occurrences(
                pending@,
                ForestView::id_of(i) as i64,
            ) by {
                let id_i = ForestView::id_of(i) as i64;
                assert(old(self).refs@[i] == v0.refs_to(id_i) + occurrences(Seq::empty(), id_i));
                assert(self@.refs_to(id_i) + occurrences(pending@, id_i) == v0.refs_to(id_i));
            }
            assert forall|t: i64| !self@.was_issued(t) implies #[trigger] self@.refs_to(t)
                == 0 by {
                assert(v0.refs_to(t) == 0);
                assert(self@.refs_to(t) + occurrences(pending@, t) == v0.refs_to(t));
            }
            assert forall|t: i64| !self@.was_issued(t) implies #[trigger] occurrences(pending@, t)
                == 0 by {
                assert(v0.refs_to(t) == 0);
                assert(self@.refs_to(t) + occurrences(pending@, t) == v0.refs_to(t));
            }
            assert forall|i: int|
                0 <= i < self@.trees.len() && (#[trigger] self@.trees[i]) is Some implies {
                &&& self@.trees[i]->0.wf()
                &&& self@.trees[i]->0.root != 0
                &&& self@.trees[i]->0.nodes.len() <= i64::MAX
            } by {
                assert(v0.trees[i] is Some);
            }
        }
        self.settle(pending);
        true
    }

    /// A pre-order cursor over the tree `tree_id`. Where `follow_subtrees` is
    /// set, the walk enters the trees that nodes embed.
    pub fn pre_ord_iter(&self, tree_id: i64, follow_subtrees: bool) -> (r: Result<
        PreOrderIterator<'_>,
        TreeError,
    >)
        requires
            self.wf(),
        ensures
            r is Ok <==> self@.is_registered(tree_id),
            r matches Ok(it) ==> it.wf() && it.slots() == self@.trees && it.follows()
                == follow_subtrees && it.remaining() == preorder(
                self@.trees,
                self@.tree(tree_id),
                follow_subtrees,
            ),
            r matches Err(e) ==> e == TreeError::UnknownTree,
    {
        PreOrderIterator::in_forest(self, tree_id, follow_subtrees)
    }

    /// A post-order cursor over the tree `tree_id`. Where `follow_subtrees`
    /// is set, the walk enters the trees that nodes embed.
    pub fn post_ord_iter(&self, tree_id: i64, follow_subtrees: bool) -> (r: Result<
        PostOrderIterator<'_>,
        TreeError,
    >)
        requires
            self.wf(),
        ensures
            r is Ok <==> self@.is_registered(tree_id),
            r matches Ok(it) ==> it.wf() && it.slots() == self@.trees && it.follows()
                == follow_subtrees && it.remaining() == postorder(
                self@.trees,
                self@.tree(tree_id),
                follow_subtrees,
            ),
            r matches Err(e) ==> e == TreeError::UnknownTree,
    {
        PostOrderIterator::in_forest(self, tree_id, follow_subtrees)
    }
}

} // verus!
