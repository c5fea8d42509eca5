//! A small dataflow-graph evaluation engine.
//!
//! A directed graph of signal-processing nodes is evaluated once per discrete
//! block: the traversal engine walks backward through the predecessor
//! structure from a designated root, then replays forward in reverse
//! post-order, invoking each node's processing operation with its
//! predecessors' cached outputs and writing the result into the store.

pub mod node;
pub mod graph;
pub mod order;
pub mod eval;
pub mod processor;
pub mod context;
