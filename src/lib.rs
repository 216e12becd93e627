//! Consensus core of a blockDAG node: block relations, a reachability index
//! answering ancestor queries, GHOSTDAG ordering data, and the sequential
//! header-processing step that keeps them in agreement.
pub mod dag;
pub mod reachability;
pub mod ghostdag;
pub mod model;
pub mod pipeline;
