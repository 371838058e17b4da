//! A handle on one tree of a forest: shared access to the tree, together with
//! the forest in which the trees that its nodes embed are found.

use vstd::prelude::*;
use crate::counting::occurrences;
use crate::cursor::{PostOrderIterator, PreOrderIterator};
use crate::error::TreeError;
use crate::forest::Forest;
use crate::forest_model::ForestView;
use crate::model::TreeView;
use crate::traversal::{postorder, preorder};
use crate::tree::Tree;

verus! {

/// Shared access to a registered tree. It reads as the tree does; its walks
/// can follow embeddings, since it knows the forest.
pub struct TreeHandle<'a> {
    forest: &'a Forest,
    tree: &'a Tree,
    id: i64,
}

impl<'a> View for TreeHandle<'a> {
    type V = TreeView;

    closed spec fn view(&self) -> TreeView {
        self.tree@
    }
}

impl<'a> TreeHandle<'a> {
    /// The forest that the tree is registered in.
    pub closed spec fn forest(&self) -> ForestView {
        self.forest@
    }

    /// The identifier of the tree.
    pub closed spec fn id(&self) -> i64 {
        self.id
    }

    /// The invariant of a handle: it names a registered tree of a
    /// well-formed forest.
    pub closed spec fn wf(&self) -> bool {
        &&& self.forest.wf()
        &&& self.tree.wf()
        &&& self.forest@.is_registered(self.id)
        &&& self.tree@ == self.forest@.tree(self.id)
    }

    /// What a handle always knows of its tree.
    pub proof fn lemma_wf(&self)
        requires
            self.wf(),
        ensures
            self.forest().wf(),
            self.forest().is_registered(self.id()),
            self@ == self.forest().tree(self.id()),
            self@.wf(),
            self@.root != 0,
    {
    }

    /// The handle on the tree `id` of `forest`.
    pub(crate) fn new(forest: &'a Forest, tree: &'a Tree, id: i64) -> (handle: Self)
        requires
            forest.wf(),
            tree.wf(),
            forest@.is_registered(id),
            tree@ == forest@.tree(id),
        ensures
            handle.wf(),
            handle.id() == id,
            handle.forest() == forest@,
            handle@ == tree@,
    {
        TreeHandle { forest, tree, id }
    }

    /// The identifier of the tree.
    pub fn tree_id(&self) -> (id: i64)
        requires
            self.wf(),
        ensures
            id == self.id(),
    {
        self.id
    }

    /// The number of positions handed out so far.
    pub fn allocated(&self) -> (n: usize)
        requires
            self.wf(),
        ensures
            n == self@.nodes.len() - 1,
    {
        self.tree.allocated()
    }

    /// The position of the root.
    pub fn get_root(&self) -> (pos: i64)
        requires
            self.wf(),
        ensures
            pos == self@.root,
            pos != 0,
    {
        self.tree.get_root()
    }

    /// Whether `pos` addresses a node of the tree that exists now.
    pub fn contains(&self, pos: i64) -> (b: bool)
        requires
            self.wf(),
        ensures
            b == self@.is_live(pos as int),
    {
        self.tree.contains(pos)
    }

    /// The payload of the node at `pos`.
    pub fn get_data(&self, pos: i64) -> (r: Result<i32, TreeError>)
        requires
            self.wf(),
        ensures
            r == if self@.is_live(pos as int) {
                Ok::<i32, TreeError>(self@.nodes[pos as int].data)
            } else {
                Err::<i32, TreeError>(TreeError::InvalidPosition)
            },
    {
        self.tree.get_data(pos)
    }

    /// The tree that the node at `pos` embeds, if any.
    pub fn get_subtree_ref(&self, pos: i64) -> (r: Result<Option<i64>, TreeError>)
        requires
            self.wf(),
        ensures
            r == if self@.is_live(pos as int) {
                Ok::<Option<i64>, TreeError>(self@.nodes[pos as int].subtree_ref)
            } else {
                Err::<Option<i64>, TreeError>(TreeError::InvalidPosition)
            },
    {
        self.tree.get_subtree_ref(pos)
    }

    /// The parent of the node at `pos`, the null position for the root.
    pub fn get_parent(&self, pos: i64) -> (r: Result<i64, TreeError>)
        requires
            self.wf(),
        ensures
            r == if self@.is_live(pos as int) {
                Ok::<i64, TreeError>(self@.parent_of(pos as int) as i64)
            } else {
                Err::<i64, TreeError>(TreeError::InvalidPosition)
            },
    {
        self.tree.get_parent(pos)
    }

    /// The first child of the node at `pos`, the null position if it has none.
    pub fn get_first_child(&self, pos: i64) -> (r: Result<i64, TreeError>)
        requires
            self.wf(),
        ensures
            r == if self@.is_live(pos as int) {
                Ok::<i64, TreeError>(self@.first_child_of(pos as int) as i64)
            } else {
                Err::<i64, TreeError>(TreeError::InvalidPosition)
            },
    {
        self.tree.get_first_child(pos)
    }

    /// The last child of the node at `pos`, the null position if it has none.
    pub fn get_last_child(&self, pos: i64) -> (r: Result<i64, TreeError>)
        requires
            self.wf(),
        ensures
            r == if self@.is_live(pos as int) {
                Ok::<i64, TreeError>(self@.last_child_of(pos as int) as i64)
            } else {
                Err::<i64, TreeError>(TreeError::InvalidPosition)
            },
    {
        self.tree.get_last_child(pos)
    }

    /// The sibling after the node at `pos`, the null position if there is none.
    pub fn get_sibling_next(&self, pos: i64) -> (r: Result<i64, TreeError>)
        requires
            self.wf(),
        ensures
            r == if self@.is_live(pos as int) {
                Ok::<i64, TreeError>(self@.next_sibling_of(pos as int) as i64)
            } else {
                Err::<i64, TreeError>(TreeError::InvalidPosition)
            },
    {
        self.tree.get_sibling_next(pos)
    }

    /// The sibling before the node at `pos`, the null position if there is none.
    pub fn get_sibling_prev(&self, pos: i64) -> (r: Result<i64, TreeError>)
        requires
            self.wf(),
        ensures
            r == if self@.is_live(pos as int) {
                Ok::<i64, TreeError>(self@.prev_sibling_of(pos as int) as i64)
            } else {
                Err::<i64, TreeError>(TreeError::InvalidPosition)
            },
    {
        self.tree.get_sibling_prev(pos)
    }

    /// The trees that the nodes of the tree embed, one entry for each node
    /// that embeds one.
    pub fn held_refs(&self) -> (held: Vec<i64>)
        requires
            self.wf(),
        ensures
            forall|target: i64| occurrences(held@, target) == self@.refs_to(target),
    {
        self.tree.held_refs()
    }

    /// A pre-order cursor over the tree. Where `follow_subtrees` is set, the
    /// walk enters the trees that nodes embed.
    pub fn pre_ord_iter(&self, follow_subtrees: bool) -> (it: PreOrderIterator<'a>)
        requires
            self.wf(),
        ensures
            it.wf(),
            it.slots() == self.forest().trees,
            it.follows() == follow_subtrees,
            it.remaining() == preorder(self.forest().trees, self@, follow_subtrees),
    {
        PreOrderIterator::at_root(self.forest, self.tree, follow_subtrees)
    }

    /// A post-order cursor over the tree. Where `follow_subtrees` is set,
    /// the walk enters the trees that nodes embed.
    pub fn post_ord_iter(&self, follow_subtrees: bool) -> (it: PostOrderIterator<'a>)
        requires
            self.wf(),
        ensures
            it.wf(),
            it.slots() == self.forest().trees,
            it.follows() == follow_subtrees,
            it.remaining() == postorder(self.forest().trees, self@, follow_subtrees),
    {
        PostOrderIterator::at_root(self.forest, self.tree, follow_subtrees)
    }
}

} // verus!
