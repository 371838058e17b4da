//! The mathematical model of a tree: what its nodes are and how they hang
//! together, with the links of the arena left out.

use vstd::prelude::*;
use crate::lists::distinct;

verus! {

/// What one position of a tree stands for.
pub struct NodeView {
    pub live: bool,
    pub data: i32,
    /// The position of the parent, 0 for the root.
    pub parent: int,
    /// The positions of the children, first to last.
    pub children: Seq<int>,
    /// The tree that this node embeds, if any.
    pub subtree_ref: Option<i64>,
}

/// A tree as a sequence of node views indexed by position. Index 0 is the null
/// position and holds no node.
pub struct TreeView {
    pub nodes: Seq<NodeView>,
    /// The position of the root, 0 while the tree has none.
    pub root: int,
}

impl NodeView {
    /// The view of a position that holds no node.
    pub open spec fn vacant() -> NodeView {
        NodeView { live: false, data: 0, parent: 0, children: Seq::empty(), subtree_ref: None }
    }

    /// The view of a new node under `parent`.
    pub open spec fn leaf(data: i32, parent: int) -> NodeView {
        NodeView { live: true, data, parent, children: Seq::empty(), subtree_ref: None }
    }

    /// This node with another list of children.
    pub open spec fn with_children(self, children: Seq<int>) -> NodeView {
        NodeView { children, ..self }
    }

    /// This node with another embedding, or none.
    pub open spec fn with_ref(self, target: Option<i64>) -> NodeView {
        NodeView { subtree_ref: target, ..self }
    }
}

impl TreeView {
    /// The tree without nodes.
    pub open spec fn empty() -> TreeView {
        TreeView { nodes: seq![NodeView::vacant()], root: 0 }
    }

    /// Whether `p` addresses a node that exists now.
    pub open spec fn is_live(self, p: int) -> bool {
        0 < p < self.nodes.len() && self.nodes[p].live
    }

    /// Whether `p` is a live node that stands in a child list: any live node
    /// but the root.
    pub open spec fn is_child(self, p: int) -> bool {
        self.is_live(p) && p != self.root
    }

    /// The position that the next new node will get.
    pub open spec fn next_pos(self) -> int {
        self.nodes.len() as int
    }

    /// The parent of `p`, 0 for the root.
    pub open spec fn parent_of(self, p: int) -> int {
        self.nodes[p].parent
    }

    /// The children of `p`, first to last.
    pub open spec fn children_of(self, p: int) -> Seq<int> {
        self.nodes[p].children
    }

    /// The first child of `p`, 0 if it has none.
    pub open spec fn first_child_of(self, p: int) -> int {
        if self.children_of(p).len() > 0 {
            self.children_of(p).first()
        } else {
            0
        }
    }

    /// The last child of `p`, 0 if it has none.
    pub open spec fn last_child_of(self, p: int) -> int {
        if self.children_of(p).len() > 0 {
            self.children_of(p).last()
        } else {
            0
        }
    }

    /// The place of `p` among the children of its parent, counted from 0.
    pub open spec fn rank_of(self, p: int) -> int {
        self.children_of(self.parent_of(p)).index_of(p)
    }

    /// The sibling right behind `p`, 0 for a last child and for the root.
    pub open spec fn next_sibling_of(self, p: int) -> int {
        let siblings = self.children_of(self.parent_of(p));
        if self.parent_of(p) != 0 && self.rank_of(p) + 1 < siblings.len() {
            siblings[self.rank_of(p) + 1]
        } else {
            0
        }
    }

    /// The sibling right before `p`, 0 for a first child and for the root.
    pub open spec fn prev_sibling_of(self, p: int) -> int {
        let siblings = self.children_of(self.parent_of(p));
        if self.parent_of(p) != 0 && self.rank_of(p) > 0 {
            siblings[self.rank_of(p) - 1]
        } else {
            0
        }
    }

    /// A node other than the root hangs under a live node that is older than
    /// itself and lists it as a child.
    pub open spec fn hangs_under_parent(self, p: int) -> bool {
        &&& 0 < self.parent_of(p) < p
        &&& self.nodes[self.parent_of(p)].live
        &&& self.children_of(self.parent_of(p)).contains(p)
    }

    /// The children of a node are live, younger than the node, name it as
    /// their parent, and none is listed twice.
    pub open spec fn children_belong(self, p: int) -> bool {
        &&& distinct(self.children_of(p))
        &&& forall|i: int|
            0 <= i < self.children_of(p).len() ==> {
                &&& p < #[trigger] self.children_of(p)[i] < self.nodes.len()
                &&& self.nodes[self.children_of(p)[i]].live
                &&& self.parent_of(self.children_of(p)[i]) == p
            }
    }

    /// The shape that every tree keeps: one root, every other node under
    /// exactly one parent, and child lists that agree with the parents.
    pub open spec fn wf(self) -> bool {
        &&& self.nodes.len() >= 1
        &&& 0 <= self.root < self.nodes.len()
        &&& self.root != 0 ==> self.nodes[self.root].live && self.parent_of(self.root) == 0
        &&& self.root == 0 ==> self.nodes.len() == 1
        &&& !self.nodes[0].live
        &&& forall|p: int|
            0 <= p < self.nodes.len() && !(#[trigger] self.nodes[p]).live ==> self.nodes[p]
                == NodeView::vacant()
        &&& forall|p: int| #[trigger]
            self.is_live(p) && p != self.root ==> self.hangs_under_parent(p)
        &&& forall|p: int| #[trigger] self.is_live(p) ==> self.children_belong(p)
    }
}

impl TreeView {
    /// The tree after its root was created with payload `data`.
    pub open spec fn with_root(self, data: i32) -> TreeView {
        TreeView { nodes: self.nodes.push(NodeView::leaf(data, 0)), root: self.next_pos() }
    }

    /// The tree after a new node with payload `data` became the last child of
    /// `parent`.
    pub open spec fn with_child(self, parent: int, data: i32) -> TreeView {
        TreeView {
            nodes: self.nodes.update(
                parent,
                self.nodes[parent].with_children(self.children_of(parent).push(self.next_pos())),
            ).push(NodeView::leaf(data, parent)),
            root: self.root,
        }
    }

    /// The tree after a new node with payload `data` was put at index `at` of
    /// the child list of `parent`.
    pub open spec fn with_sibling_at(self, parent: int, at: int, data: i32) -> TreeView {
        TreeView {
            nodes: self.nodes.update(
                parent,
                self.nodes[parent].with_children(
                    self.children_of(parent).insert(at, self.next_pos()),
                ),
            ).push(NodeView::leaf(data, parent)),
            root: self.root,
        }
    }

    /// The tree after a new node with payload `data` was put right behind
    /// `sibling` in the child list that `sibling` stands in.
    pub open spec fn with_sibling_after(self, sibling: int, data: i32) -> TreeView {
        self.with_sibling_at(self.parent_of(sibling), self.rank_of(sibling) + 1, data)
    }

    /// The tree after the node at `p` was made to embed the tree `target`.
    pub open spec fn with_ref(self, p: int, target: i64) -> TreeView {
        TreeView {
            nodes: self.nodes.update(p, self.nodes[p].with_ref(Some(target))),
            root: self.root,
        }
    }

    /// The tree after the childless node at `p` was taken out of its parent's
    /// child list and deleted.
    pub open spec fn without_leaf(self, p: int) -> TreeView {
        let parent = self.parent_of(p);
        TreeView {
            nodes: self.nodes.update(
                parent,
                self.nodes[parent].with_children(self.children_of(parent).remove(self.rank_of(p))),
            ).update(p, NodeView::vacant()),
            root: self.root,
        }
    }
}

} // verus!
