//! The compute graph engine: user-facing graph nodes, the graph transposer,
//! the chain compactor and the fork/join scheduler.

pub mod concurrent;
pub mod easy_functions;
pub mod io_graph;
