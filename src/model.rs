//! Values that flow into and out of the header-processing pipeline.
use vstd::prelude::*;

verus! {

/// A block header: its hash, the hashes of its parents, and metadata.
#[derive(Clone, Debug)]
pub struct Header {
    pub hash: u64,
    pub version: u16,
    pub parents: Vec<u64>,
    pub timestamp: u64,
    pub nonce: u64,
    /// The proof-of-work weight that the header's difficulty target stands for.
    pub work: u64,
}

/// A block as submitted to the pipeline; only its header is processed here.
#[derive(Clone, Debug)]
pub struct Block {
    pub header: Header,
}

/// The processing state of a known block.
#[derive(Clone, Copy, Debug, PartialEq, Eq, Structural)]
pub enum BlockStatus {
    /// The header was processed; the body was not looked at yet.
    StatusHeaderOnly,
    /// The block was found invalid.
    StatusInvalid,
}

/// A unit of pipeline work.
#[derive(Clone, Debug)]
pub enum BlockTask {
    Process(Block),
    Exit,
}

/// What the worker does after a task.
#[derive(Clone, Copy, Debug, PartialEq, Eq, Structural)]
pub enum WorkerAction {
    Continue,
    Stop,
}

/// Outcome of processing a header that was not rejected.
#[derive(Clone, Copy, Debug, PartialEq, Eq, Structural)]
pub enum ProcessOutcome {
    /// The block was added to every store.
    Processed,
    /// The block was already known; nothing changed.
    AlreadyKnown,
}

/// Why a header was rejected; no store is changed when one is.
#[derive(Clone, Copy, Debug, PartialEq, Eq, Structural)]
pub enum RuleError {
    /// A block of this hash is stored with other parents or another work.
    ConflictingHeader(u64),
    /// A block other than genesis must have at least one parent.
    NoParents,
    /// A declared parent has not been processed.
    MissingParent(u64),
    /// The blue score would not fit in a `u64`, or the blue work in a `u128`.
    ScoreOverflow,
    /// The reachability numbering space is used up.
    ReachabilityCapacity,
}

/// Consensus parameters.
#[derive(Clone, Debug)]
pub struct Params {
    pub genesis_hash: u64,
    pub genesis_work: u64,
    /// The anticone bound of the blue/red classification.
    pub ghostdag_k: u64,
}

/// Counters of the pipeline's work.
#[derive(Clone, Copy, Debug, PartialEq, Eq, Structural)]
pub struct ProcessingCounters {
    pub blocks_submitted: u64,
    pub headers_processed: u64,
    pub headers_rejected: u64,
}

impl ProcessingCounters {
    pub fn new() -> (r: Self)
        ensures
            r.blocks_submitted == 0,
            r.headers_processed == 0,
            r.headers_rejected == 0,
    {
        ProcessingCounters { blocks_submitted: 0, headers_processed: 0, headers_rejected: 0 }
    }
}

} // verus!
