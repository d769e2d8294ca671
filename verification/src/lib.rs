//! A block-synchronous signal-flow graph engine for real-time audio.
//!
//! Nodes are unit generators joined by directed edges that carry fixed-size
//! blocks of samples. A graph owns its nodes, keeps a cached topological
//! order, and evaluates one block per tick; edit commands mutate the graph
//! between blocks and each one is answered by exactly one reply.

use vstd::prelude::*;

pub mod sample;
pub mod node;
pub mod behavior;
pub mod graph;
pub mod message;
pub mod engine;
pub mod transport;
pub mod dot;
pub mod laws;

verus! {

/// Number of samples in one block, for every port of every node.
pub const BUFFER_SIZE: usize = 256;

} // verus!
