//! The ways in which an operation on a tree or a forest is turned down.

use vstd::prelude::*;

verus! {

/// Why an operation did nothing. Each of these is an ordinary, recoverable
/// answer; none of them leaves the structure changed.
#[derive(Clone, Copy, Debug, PartialEq, Eq, Structural)]
pub enum TreeError {
    /// The position is the null position, was never handed out by this tree,
    /// or its node has been deleted.
    InvalidPosition,
    /// The identifier names no registered tree.
    UnknownTree,
    /// A leaf was asked for, but the node has children.
    NotALeaf,
    /// The root of a tree stays for as long as the tree does.
    CannotDeleteRoot,
}

impl TreeError {
    /// What `message` says of each error.
    pub open spec fn message_text(self) -> Seq<char> {
        match self {
            TreeError::InvalidPosition => "position does not address a live node"@,
            TreeError::UnknownTree => "identifier names no registered tree"@,
            TreeError::NotALeaf => "node has children"@,
            TreeError::CannotDeleteRoot => "the root cannot be deleted"@,
        }
    }

    /// A short description of the error.
    pub fn message(&self) -> (text: &'static str)
        ensures
            text@ == self.message_text(),
    {
        match self {
            TreeError::InvalidPosition => "position does not address a live node",
            TreeError::UnknownTree => "identifier names no registered tree",
            TreeError::NotALeaf => "node has children",
            TreeError::CannotDeleteRoot => "the root cannot be deleted",
        }
    }
}

} // verus!
