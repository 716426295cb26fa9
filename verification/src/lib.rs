//! Flameview: a model of folded ("collapsed") stack profiles as a counted
//! call tree, with a verified loader and summary traversal.
use vstd::prelude::*;

pub mod arena;
pub mod coverage;
pub mod subtree;
pub mod text;
pub mod loader;
pub mod summarize;
pub mod summary_totals;
pub mod cli;
pub mod viewer;

pub use arena::{FlameTree, Node, NodeId};
/// Parse collapsed stacks from any buffered reader.
pub use loader::collapsed::load_stream;

verus! {

/// Adds one to `x`, wrapping around at `i32::MAX`.
pub fn add_one(x: i32) -> (r: i32)
    ensures
        r as int == if x == i32::MAX { i32::MIN as int } else { x + 1 },
{
    x.wrapping_add(1)
}

} // verus!
