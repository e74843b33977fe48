//! An acceleration engine for a log-viewing panel.
//!
//! It merges two batches of log records into one batch ordered by time and
//! sequence number, keeps a position index that maps rows to scroll offsets
//! for a virtualized list, and guards both operations with a budget over a
//! growable, page-granular heap whose size and growth belong to the host.
//!
//! Lengths along the scroll axis (row heights, offsets) are integers in
//! hundredths of a pixel. Timestamps and rendered heights that the host holds
//! as 64-bit floats are carried as their IEEE-754 bit patterns.
use vstd::prelude::*;

pub mod budget;
pub mod error;
pub mod merge;
pub mod position;
pub mod record;
pub mod text;
pub mod tracker;

pub use budget::{
    ensure_sufficient_memory, estimate_memory_for_logs, estimate_memory_size_from_tracker,
    get_memory_size_bytes, get_memory_usage, reset_internal_allocation_stats, MemoryEstimate,
    MemoryUsage, Recommendation, RiskTier,
};
pub use error::EngineError;
pub use merge::{merge_insert_logs, sort_logs, standard_merge, MergePath};
pub use position::{find_log_at_scroll_position, recalculate_positions, PositionIndex};
pub use record::{
    display_level, display_message, display_sequence, estimate_log_message_size, ExtraValue,
    LogMessage,
};
pub use text::{contains_text_simd, display_time_of};
pub use tracker::{AllocationTracker, GrowthTrend, TrackerStats};

verus! {

} // verus!
