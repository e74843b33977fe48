//! The engine's refusals.
use vstd::prelude::*;

verus! {

/// Why an operation was refused. Every refusal is recoverable: the caller
/// switches to its reference implementation.
#[derive(Debug, PartialEq, Eq, Structural, Clone, Copy)]
pub enum EngineError {
    /// The heap could not be grown enough for a merge of `log_count` records
    /// estimated at `needed_bytes`.
    InsufficientMemory { needed_bytes: usize, log_count: usize },
    /// Tracked usage is too close to the heap's size for the operation.
    MemoryPressure,
}

} // verus!
