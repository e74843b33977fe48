//! Admission control over the host's growable heap.
//!
//! The host owns the heap: it reports its size and grows it by pages. The
//! functions here take what the host reported as plain values, and take the
//! growth primitive as a closure that answers whether the growth succeeded.
use vstd::prelude::*;
use crate::tracker::{AllocationTracker, TrackerView};

verus! {

/// Bytes in one page of the heap.
pub const PAGE_SIZE: usize = 65536;

/// Extra headroom requested on top of a shortfall when the heap is grown.
pub const GROWTH_HEADROOM: usize = 2 * 1024 * 1024;

/// Heap size assumed when the host reports none and nothing has been tracked.
pub const DEFAULT_HEAP_BYTES: usize = 16 * 1024 * 1024;

/// Bytes per record assumed when estimating the cost of a batch.
pub const BYTES_PER_LOG: usize = 250;

/// Batches below this many records are always considered safe.
pub const SMALL_BATCH: usize = 500;

/// Batches above this many records must fit without a safety margin; those in
/// between need a quarter more than their estimate.
pub const LARGE_BATCH: usize = 5000;

/// `a + b`, or `usize::MAX` where that does not fit.
pub open spec fn sat_sum(a: int, b: int) -> int {
    if a + b <= usize::MAX {
        a + b
    } else {
        usize::MAX as int
    }
}

/// `a * b`, or `usize::MAX` where that does not fit.
pub open spec fn sat_product(a: int, b: int) -> int {
    if a * b <= usize::MAX {
        a * b
    } else {
        usize::MAX as int
    }
}

/// Computes `sat_product`.
pub fn saturating_product(a: usize, b: usize) -> (r: usize)
    ensures
        r == sat_product(a as int, b as int),
{
    match a.checked_mul(b) {
        Some(p) => p,
        None => usize::MAX,
    }
}

/// Bytes of the heap not believed in use; none where usage exceeds the heap.
pub open spec fn available_bytes(heap_bytes: usize, used_bytes: usize) -> int {
    if heap_bytes > used_bytes {
        heap_bytes - used_bytes
    } else {
        0
    }
}

/// Bytes an operation of `needed_bytes` must find free: half again as much.
pub open spec fn required_bytes(needed_bytes: usize) -> int {
    sat_sum(needed_bytes as int, needed_bytes as int / 2)
}

/// Whether the heap must grow before an operation of `needed_bytes`.
pub open spec fn needs_growth(heap_bytes: usize, used_bytes: usize, needed_bytes: usize) -> bool {
    available_bytes(heap_bytes, used_bytes) < required_bytes(needed_bytes)
}

/// Pages requested to cover the shortfall and the headroom, rounded up.
pub open spec fn growth_pages(heap_bytes: usize, used_bytes: usize, needed_bytes: usize) -> int {
    let shortfall = required_bytes(needed_bytes) - available_bytes(heap_bytes, used_bytes);
    let wanted = sat_sum(shortfall, GROWTH_HEADROOM as int);
    if wanted % (PAGE_SIZE as int) == 0 {
        wanted / (PAGE_SIZE as int)
    } else {
        wanted / (PAGE_SIZE as int) + 1
    }
}

/// Makes sure an operation of `needed_bytes` can proceed, growing the heap
/// through `grow` if the free part of a heap of `heap_bytes` is short of what
/// the operation requires. `grow` receives a page count and answers whether
/// the host grew the heap. Returns whether the operation may proceed; a
/// refused growth is counted, never raised.
pub fn ensure_sufficient_memory<G: FnOnce(usize) -> bool>(
    tracker: &mut AllocationTracker,
    heap_bytes: usize,
    needed_bytes: usize,
    now_ms: u64,
    grow: G,
) -> (r: bool)
    requires
        old(tracker)@.wf(),
        forall|pages: usize| grow.requires((pages,)),
    ensures
        final(tracker)@.wf(),
        !needs_growth(heap_bytes, old(tracker)@.active_bytes, needed_bytes) ==> {
            &&& r
            &&& final(tracker)@ == old(tracker)@
        },
        needs_growth(heap_bytes, old(tracker)@.active_bytes, needed_bytes) ==> {
            let pages = growth_pages(heap_bytes, old(tracker)@.active_bytes, needed_bytes);
            &&& 0 < pages <= usize::MAX
            &&& grow.ensures((pages as usize,), r)
            &&& final(tracker)@ == old(tracker)@.after_growth(r, now_ms)
        },
{
    let used = tracker.active_bytes();
    let required = needed_bytes.saturating_add(needed_bytes / 2);
    let available: usize = if heap_bytes > used {
        heap_bytes - used
    } else {
        0
    };
    if available < required {
        let wanted = (required - available).saturating_add(GROWTH_HEADROOM);
        let pages: usize = if wanted % PAGE_SIZE == 0 {
            wanted / PAGE_SIZE
        } else {
            wanted / PAGE_SIZE + 1
        };
        let grew = grow(pages);
        tracker.record_growth(grew, now_ms);
        grew
    } else {
        true
    }
}

/// Heap size estimated from the tracker alone: twice the peak usage, or the
/// default size when nothing has been tracked.
pub open spec fn tracker_heap_estimate(t: TrackerView) -> int {
    if t.peak_bytes > 0 {
        sat_product(t.peak_bytes as int, 2)
    } else {
        DEFAULT_HEAP_BYTES as int
    }
}

/// Computes `tracker_heap_estimate`.
pub fn estimate_memory_size_from_tracker(tracker: &AllocationTracker) -> (r: usize)
    ensures
        r == tracker_heap_estimate(tracker@),
{
    let peak = tracker.peak_bytes();
    if peak > 0 {
        saturating_product(peak, 2)
    } else {
        DEFAULT_HEAP_BYTES
    }
}

/// The heap size by the first source that knows it: the byte length of the
/// heap's buffer, then the page count the host reported, then the tracker.
pub open spec fn heap_size_spec(
    t: TrackerView,
    buffer_bytes: Option<usize>,
    probed_pages: Option<u32>,
) -> int {
    match (buffer_bytes, probed_pages) {
        (Some(b), _) if b > 0 => b as int,
        (_, Some(p)) if p > 0 => sat_product(p as int, PAGE_SIZE as int),
        _ => tracker_heap_estimate(t),
    }
}

/// Determines the heap size from what the host could report. `buffer_bytes`
/// is the byte length of the heap's buffer, `probed_pages` the page count
/// from a zero-page growth request; either is `None` where the host could not
/// answer.
pub fn get_memory_size_bytes(
    tracker: &AllocationTracker,
    buffer_bytes: Option<usize>,
    probed_pages: Option<u32>,
) -> (r: usize)
    ensures
        r == heap_size_spec(tracker@, buffer_bytes, probed_pages),
        r > 0,
{
    if let Some(b) = buffer_bytes {
        if b > 0 {
            return b;
        }
    }
    if let Some(p) = probed_pages {
        if p > 0 {
            return saturating_product(p as usize, PAGE_SIZE);
        }
    }
    estimate_memory_size_from_tracker(tracker)
}

/// How close the heap is to exhaustion.
#[derive(Debug, PartialEq, Eq, Structural, Clone, Copy)]
pub enum RiskTier {
    Low,
    Moderate,
    High,
}

/// What a caller should do with an operation.
#[derive(Debug, PartialEq, Eq, Structural, Clone, Copy)]
pub enum Recommendation {
    Proceed,
    ProceedWithCaution,
    UseFallback,
}

/// Whether `used / heap` exceeds `num / den`; a heap of zero bytes is
/// treated as not utilized at all.
pub open spec fn utilization_above(used: int, heap: int, num: int, den: int) -> bool {
    heap > 0 && used * den > heap * num
}

/// The risk tier of using `used` of `heap` bytes: high above 95 %, moderate
/// from 85 %, low below.
pub open spec fn risk_spec(used: int, heap: int) -> RiskTier {
    if utilization_above(used, heap, 95, 100) {
        RiskTier::High
    } else if heap > 0 && used * 100 >= heap * 85 {
        RiskTier::Moderate
    } else {
        RiskTier::Low
    }
}

/// Computes `risk_spec` for usage `used` of a heap of `heap` bytes.
pub fn risk_tier(used: usize, heap: usize) -> (r: RiskTier)
    ensures
        r == risk_spec(used as int, heap as int),
{
    let u = used as u128;
    let h = heap as u128;
    if h > 0 && u * 100 > h * 95 {
        RiskTier::High
    } else if h > 0 && u * 100 >= h * 85 {
        RiskTier::Moderate
    } else {
        RiskTier::Low
    }
}

/// Heap usage as the engine sees it.
#[derive(Debug, PartialEq, Eq)]
pub struct MemoryUsage {
    /// Whether the host could report the heap; when not, the sizes below are
    /// the defaults.
    pub available: bool,
    pub total_bytes: usize,
    pub current_pages: usize,
    pub page_size_bytes: usize,
    /// Tracked usage, capped at the heap size; utilization is this over
    /// `total_bytes`.
    pub used_bytes: usize,
    pub peak_bytes: usize,
    pub allocation_count: usize,
    pub risk: RiskTier,
}

/// `a` or `b`, whichever is smaller.
pub open spec fn min_of(a: int, b: int) -> int {
    if a <= b {
        a
    } else {
        b
    }
}

/// Reports heap usage. `buffer_bytes` is the byte length of the heap's
/// buffer, or `None` where the host could not report it; the report then
/// says so and carries default sizes with no usage.
pub fn get_memory_usage(tracker: &AllocationTracker, buffer_bytes: Option<usize>) -> (r:
    MemoryUsage)
    ensures
        r.page_size_bytes == PAGE_SIZE,
        r.peak_bytes == tracker@.peak_bytes,
        r.allocation_count == tracker@.allocation_count,
        r.current_pages == r.total_bytes / PAGE_SIZE,
        r.risk == risk_spec(r.used_bytes as int, r.total_bytes as int),
        match buffer_bytes {
            Some(total) => {
                &&& r.available
                &&& r.total_bytes == total
                &&& r.used_bytes == min_of(tracker@.active_bytes as int, total as int)
            },
            None => {
                &&& !r.available
                &&& r.total_bytes == DEFAULT_HEAP_BYTES
                &&& r.used_bytes == 0
            },
        },
{
    let (available, total, used) = match buffer_bytes {
        Some(total) => {
            let active = tracker.active_bytes();
            let used = if active <= total {
                active
            } else {
                total
            };
            (true, total, used)
        },
        None => (false, DEFAULT_HEAP_BYTES, 0),
    };
    MemoryUsage {
        available,
        total_bytes: total,
        current_pages: total / PAGE_SIZE,
        page_size_bytes: PAGE_SIZE,
        used_bytes: used,
        peak_bytes: tracker.peak_bytes(),
        allocation_count: tracker.allocation_count(),
        risk: risk_tier(used, total),
    }
}

/// The cost of loading a batch of records and what to do about it.
#[derive(Debug, PartialEq, Eq)]
pub struct MemoryEstimate {
    pub log_count: usize,
    pub estimated_bytes: usize,
    pub current_available: usize,
    pub would_fit: bool,
    pub total_bytes: usize,
    pub current_pages: usize,
    pub page_size_bytes: usize,
    pub risk: RiskTier,
    pub recommendation: Recommendation,
}

/// Whether a batch of `count` records costing `estimated` bytes fits in
/// `available` bytes: small batches always do, medium ones need a quarter
/// more than their estimate, large ones their estimate.
pub open spec fn batch_fits(count: int, estimated: int, available: int) -> bool {
    if count < SMALL_BATCH {
        true
    } else if count > LARGE_BATCH {
        available >= estimated
    } else {
        available >= sat_sum(estimated, estimated / 4)
    }
}

/// Fallback when the batch does not fit; caution when usage after the batch
/// would exceed 90 % of the heap; otherwise proceed.
pub open spec fn recommendation_spec(fits: bool, used: int, estimated: int, heap: int)
    -> Recommendation {
    if !fits {
        Recommendation::UseFallback
    } else if (used + estimated) * 10 > heap * 9 {
        Recommendation::ProceedWithCaution
    } else {
        Recommendation::Proceed
    }
}

/// Estimates the cost of loading `log_count` records into a heap of
/// `heap_bytes`, judged against the tracked usage.
pub fn estimate_memory_for_logs(tracker: &AllocationTracker, heap_bytes: usize, log_count: usize)
    -> (r: MemoryEstimate)
    ensures
        ({
            let used = min_of(tracker@.active_bytes as int, heap_bytes as int);
            let estimated = sat_product(log_count as int, BYTES_PER_LOG as int);
            let available = heap_bytes - used;
            &&& r.log_count == log_count
            &&& r.estimated_bytes == estimated
            &&& r.current_available == available
            &&& r.would_fit == batch_fits(log_count as int, estimated, available)
            &&& r.total_bytes == heap_bytes
            &&& r.current_pages == heap_bytes / PAGE_SIZE
            &&& r.page_size_bytes == PAGE_SIZE
            &&& r.risk == risk_spec(used, heap_bytes as int)
            &&& r.recommendation == recommendation_spec(
                r.would_fit,
                used,
                estimated,
                heap_bytes as int,
            )
        }),
{
    let estimated = saturating_product(log_count, BYTES_PER_LOG);
    let active = tracker.active_bytes();
    let used = if active <= heap_bytes {
        active
    } else {
        heap_bytes
    };
    let available = heap_bytes - used;
    let fits = if log_count < SMALL_BATCH {
        true
    } else if log_count > LARGE_BATCH {
        available >= estimated
    } else {
        available >= estimated.saturating_add(estimated / 4)
    };
    let recommendation = if !fits {
        Recommendation::UseFallback
    } else if (used as u128 + estimated as u128) * 10 > heap_bytes as u128 * 9 {
        Recommendation::ProceedWithCaution
    } else {
        Recommendation::Proceed
    };
    MemoryEstimate {
        log_count,
        estimated_bytes: estimated,
        current_available: available,
        would_fit: fits,
        total_bytes: heap_bytes,
        current_pages: heap_bytes / PAGE_SIZE,
        page_size_bytes: PAGE_SIZE,
        risk: risk_tier(used, heap_bytes),
        recommendation,
    }
}

/// Clears the tracked usage for a fresh baseline at `now_ms`. This reclaims
/// no memory: the heap is untouched.
pub fn reset_internal_allocation_stats(tracker: &mut AllocationTracker, now_ms: u64)
    requires
        old(tracker)@.wf(),
    ensures
        final(tracker)@ == old(tracker)@.after_reset(now_ms),
        final(tracker)@.wf(),
{
    tracker.reset(now_ms);
}

} // verus!
