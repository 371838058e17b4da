//! The node arena: a flat store of node records addressed by position.
//!
//! Positions are handed out in increasing order and never handed out twice, so
//! a position that outlives its node is recognised as stale for good.

use vstd::prelude::*;
use crate::error::TreeError;

verus! {

/// The null position: "no such node".
pub const NULL_POS: i64 = 0;

/// One node record. The links hold positions within the same arena, or
/// `NULL_POS`.
#[derive(Clone, Copy, Debug)]
pub struct Node {
    pub live: bool,
    pub data: i32,
    pub parent: i64,
    pub first_child: i64,
    pub last_child: i64,
    pub next_sibling: i64,
    pub prev_sibling: i64,
    pub subtree_ref: Option<i64>,
}

impl Node {
    /// The record of a slot that holds no node.
    pub open spec fn vacant() -> Node {
        Node {
            live: false,
            data: 0,
            parent: 0,
            first_child: 0,
            last_child: 0,
            next_sibling: 0,
            prev_sibling: 0,
            subtree_ref: None,
        }
    }

    /// The record of a node that was just allocated: live, with no links.
    pub open spec fn fresh(data: i32) -> Node {
        Node {
            live: true,
            data,
            parent: 0,
            first_child: 0,
            last_child: 0,
            next_sibling: 0,
            prev_sibling: 0,
            subtree_ref: None,
        }
    }
}

/// A growing sequence of node records. Slot 0 stands for the null position and
/// never holds a node.
pub struct Arena {
    nodes: Vec<Node>,
}

impl View for Arena {
    type V = Seq<Node>;

    closed spec fn view(&self) -> Seq<Node> {
        self.nodes@
    }
}

impl Arena {
    /// Slot 0 is vacant, and every position fits the position type.
    pub open spec fn wf(&self) -> bool {
        &&& 1 <= self@.len() <= i64::MAX
        &&& self@[0] == Node::vacant()
    }

    /// Whether `pos` addresses a node that exists now.
    pub open spec fn is_live(&self, pos: int) -> bool {
        0 < pos < self@.len() && self@[pos].live
    }

    /// An arena with no nodes.
    pub fn new() -> (arena: Arena)
        ensures
            arena.wf(),
            arena@ == seq![Node::vacant()],
    {
        let mut nodes: Vec<Node> = Vec::new();
        nodes.push(
            Node {
                live: false,
                data: 0,
                parent: 0,
                first_child: 0,
                last_child: 0,
                next_sibling: 0,
                prev_sibling: 0,
                subtree_ref: None,
            },
        );
        Arena { nodes }
    }

    /// The number of slots, the null slot included: one more than the number
    /// of positions handed out so far.
    pub fn len(&self) -> (n: usize)
        ensures
            n == self@.len(),
    {
        self.nodes.len()
    }

    /// Reserves a slot for a new node with all links null and returns its
    /// position, which no earlier node ever had.
    pub fn allocate(&mut self, data: i32) -> (pos: i64)
        requires
            old(self).wf(),
            old(self)@.len() < i64::MAX,
        ensures
            final(self).wf(),
            pos == old(self)@.len(),
            final(self)@ == old(self)@.push(Node::fresh(data)),
    {
        let pos: i64 = self.nodes.len() as i64;
        self.nodes.push(
            Node {
                live: true,
                data,
                parent: 0,
                first_child: 0,
                last_child: 0,
                next_sibling: 0,
                prev_sibling: 0,
                subtree_ref: None,
            },
        );
        pos
    }

    /// Whether `pos` addresses a node that exists now.
    pub fn contains(&self, pos: i64) -> (b: bool)
        requires
            self.wf(),
        ensures
            b == self.is_live(pos as int),
    {
        pos > 0 && pos < self.nodes.len() as i64 && self.nodes[pos as usize].live
    }

    /// The payload of the node at `pos`.
    pub fn get(&self, pos: i64) -> (r: Result<i32, TreeError>)
        requires
            self.wf(),
        ensures
            r == if self.is_live(pos as int) {
                Ok::<i32, TreeError>(self@[pos as int].data)
            } else {
                Err::<i32, TreeError>(TreeError::InvalidPosition)
            },
    {
        if self.contains(pos) {
            Ok(self.node(pos).data)
        } else {
            Err(TreeError::InvalidPosition)
        }
    }

    /// A copy of the record in slot `pos`.
    pub fn node(&self, pos: i64) -> (n: Node)
        requires
            self.wf(),
            0 <= pos < self@.len(),
        ensures
            n == self@[pos as int],
    {
        assert(self.nodes@.len() == self.nodes.len());
        self.nodes[pos as usize]
    }

    /// Overwrites the record of the node at `pos`.
    pub fn put(&mut self, pos: i64, n: Node)
        requires
            old(self).wf(),
            0 < pos < old(self)@.len(),
        ensures
            final(self).wf(),
            final(self)@ == old(self)@.update(pos as int, n),
    {
        assert(self.nodes@.len() == self.nodes.len());
        self.nodes.set(pos as usize, n);
    }

    /// Gives up the node at `pos`. Its slot stays vacant from now on.
    pub fn release(&mut self, pos: i64)
        requires
            old(self).wf(),
            0 < pos < old(self)@.len(),
        ensures
            final(self).wf(),
            final(self)@ == old(self)@.update(pos as int, Node::vacant()),
    {
        assert(self.nodes@.len() == self.nodes.len());
        self.nodes.set(
            pos as usize,
            Node {
                live: false,
                data: 0,
                parent: 0,
                first_child: 0,
                last_child: 0,
                next_sibling: 0,
                prev_sibling: 0,
                subtree_ref: None,
            },
        );
    }
}

} // verus!
