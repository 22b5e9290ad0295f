//! A small dataflow execution engine.
//!
//! A computation is described as a directed acyclic graph of pure transform
//! stages.  The engine turns the user-authored, child-pointing graph into an
//! execution-oriented plan annotated with fan-in and fan-out information,
//! compacts linear runs of stages into single schedulable chains, and runs a
//! breadth-first scheduling loop that synchronizes exactly at join points
//! (nodes with more than one incoming branch).
//!
//! Beside the graph engine the crate carries a few independent utilities that
//! sit next to it: a sequential stage pipeline, a simple map/shuffle/reduce
//! pipeline used for word counting, a one-shot future cell, and the value
//! types of the serialization example stages.

pub mod compute;
pub mod future;
pub mod graph;
pub mod pipeline;
pub mod stupid_work;
pub mod transform;
