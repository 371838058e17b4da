//! A forest of position-addressed trees.
//!
//! Every tree keeps its nodes in an arena and addresses them by position, a
//! positive integer; position `0` means "no node". A forest registers trees
//! under negative identifiers, lets a node of one tree embed another tree by
//! reference, and counts those references so that a tree is only removed once
//! nothing embeds it. Cursors walk a tree in pre-order or post-order and can
//! splice embedded trees into the walk.
//!
//! The modules, by what they hold:
//!
//! - what runs: `arena`, `tree`, `forest`, `handle`, `cursor`, `chain`,
//!   `error`;
//! - the mathematical models that the contracts speak of: `model` (a tree),
//!   `forest_model` (a forest), `subtree`, `counting`, `traversal` (the order
//!   of a walk);
//! - what holds of those models: `laws` (navigation and reference counts),
//!   `visits` (a walk visits every node once), `embedding` and `depth` (what
//!   following embeddings changes);
//! - proofs that the code relies on: `lists`, `shape`, `steps`.

use vstd::prelude::*;

pub mod arena;
pub mod chain;
pub mod counting;
pub mod cursor;
pub mod depth;
pub mod embedding;
pub mod error;
pub mod forest;
pub mod forest_model;
pub mod handle;
pub mod laws;
pub mod lists;
pub mod model;
pub mod shape;
pub mod steps;
pub mod subtree;
pub mod traversal;
pub mod tree;
pub mod visits;

pub use crate::cursor::{PostOrderIterator, PreOrderIterator};
pub use crate::error::TreeError;
pub use crate::forest::Forest;
pub use crate::handle::TreeHandle;
pub use crate::tree::Tree;

verus! {

/// Sum of two counters.
pub fn add(left: u64, right: u64) -> (sum: u64)
    requires
        left + right <= u64::MAX,
    ensures
        sum == left + right,
{
    left + right
}

} // verus!
