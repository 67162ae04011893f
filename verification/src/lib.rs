//! Grand Pattern: the discrete core of a cellular graph of rooms that
//! perceive, predict and gossip.
//!
//! The verified library holds the parts of the system whose behaviour does
//! not depend on floating-point arithmetic: the room graph, the id-tagged
//! vector store, the grouping, pruning and routing decisions of garbage
//! collection and gossip, and the integer seed stream that initialises a
//! predictor's weights.
use vstd::prelude::*;

pub mod gc;
pub mod gossip;
pub mod graph;
pub mod seed;
pub mod vector_db;

verus! {

/// Identifier of a room in the cellular graph.
pub type RoomId = u64;

/// The three sides of a room's double-entry ledger.
#[derive(Clone, Copy, Debug, PartialEq, Eq, Structural)]
pub enum EntryKind {
    Perception,
    Prediction,
    Surprise,
}

} // verus!
