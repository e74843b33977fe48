//! The position index of a virtualized list: where each row starts, and
//! which row lies at a given scroll offset.
//!
//! Heights and offsets are in hundredths of a pixel. Rows are keyed by their
//! records' sequence numbers (an absent one counts as zero).
use vstd::prelude::*;
use std::collections::HashMap;
use crate::budget::{sat_product, saturating_product};
use crate::error::EngineError;
use crate::record::{LogMessage, sequence_of};
use crate::tracker::{AllocationTracker, TrackerView};

verus! {

broadcast use vstd::std_specs::hash::group_hash_axioms;

/// Hundredths of a pixel in one pixel.
pub const UNITS_PER_PIXEL: i64 = 100;

/// Smallest height given to a row whose height is not known (20 px).
pub const MIN_DEFAULT_HEIGHT: i64 = 2000;

/// Largest height given to a row whose height is not known (100 px).
pub const MAX_DEFAULT_HEIGHT: i64 = 10000;

/// Bytes the tracker is told a scroll lookup uses before it reads its inputs.
pub const LOOKUP_SCRATCH_BYTES: usize = 32;

/// The height used for a row whose height is not known: the average height
/// plus the buffer, kept between 20 and 100 pixels.
pub open spec fn default_height(avg: i32, buffer: i32) -> int {
    let h = avg + buffer;
    if h < MIN_DEFAULT_HEIGHT {
        MIN_DEFAULT_HEIGHT as int
    } else if h > MAX_DEFAULT_HEIGHT {
        MAX_DEFAULT_HEIGHT as int
    } else {
        h
    }
}

/// The height a row of sequence number `seq` takes in the index: its known
/// height if it has one, else the default; a height that is not positive is
/// replaced by the larger of the average and 20 pixels.
pub open spec fn row_height(heights: Map<u32, i32>, seq: u32, avg: i32, buffer: i32) -> int {
    let h = if heights.contains_key(seq) {
        heights[seq] as int
    } else {
        default_height(avg, buffer)
    };
    if h > 0 {
        h
    } else if avg > MIN_DEFAULT_HEIGHT {
        avg as int
    } else {
        MIN_DEFAULT_HEIGHT as int
    }
}

/// Total height of the rows of `logs`, top to bottom.
pub open spec fn extent(logs: Seq<LogMessage>, heights: Map<u32, i32>, avg: i32, buffer: i32)
    -> int
    decreases logs.len(),
{
    if logs.len() == 0 {
        0
    } else {
        extent(logs.drop_last(), heights, avg, buffer) + row_height(
            heights,
            sequence_of(logs.last()),
            avg,
            buffer,
        )
    }
}

/// The offset at which each row starts, keyed by sequence number: the total
/// height of the rows above it. Where two rows share a sequence number the
/// lower one's offset is kept.
pub open spec fn position_map(
    logs: Seq<LogMessage>,
    heights: Map<u32, i32>,
    avg: i32,
    buffer: i32,
) -> Map<u32, i64>
    decreases logs.len(),
{
    if logs.len() == 0 {
        Map::empty()
    } else {
        position_map(logs.drop_last(), heights, avg, buffer).insert(
            sequence_of(logs.last()),
            extent(logs.drop_last(), heights, avg, buffer) as i64,
        )
    }
}

/// A rebuilt position index.
#[derive(Debug)]
pub struct PositionIndex {
    /// Offset of each row's top, keyed by sequence number.
    pub positions: HashMap<u32, i64>,
    /// Height of all rows together.
    pub total_height: i64,
}

/// `r` is the position index of `logs` under `heights`, `avg` and `buffer`.
pub open spec fn is_index_of(
    r: PositionIndex,
    logs: Seq<LogMessage>,
    heights: Map<u32, i32>,
    avg: i32,
    buffer: i32,
) -> bool {
    &&& r.positions@ == position_map(logs, heights, avg, buffer)
    &&& r.total_height == extent(logs, heights, avg, buffer)
}

/// A row's height is positive and at most `i32::MAX`.
proof fn lemma_row_height_bounds(heights: Map<u32, i32>, seq: u32, avg: i32, buffer: i32)
    ensures
        0 < row_height(heights, seq, avg, buffer) <= i32::MAX,
{
}

/// Rows stack without overflow: `n` rows take at most `n * i32::MAX`.
proof fn lemma_extent_bounds(logs: Seq<LogMessage>, heights: Map<u32, i32>, avg: i32, buffer: i32)
    ensures
        0 <= extent(logs, heights, avg, buffer) <= logs.len() * (i32::MAX as int),
    decreases logs.len(),
{
    if logs.len() > 0 {
        lemma_extent_bounds(logs.drop_last(), heights, avg, buffer);
        lemma_row_height_bounds(heights, sequence_of(logs.last()), avg, buffer);
    }
}

/// Computes `row_height`.
fn resolve_height(heights: &HashMap<u32, i32>, seq: u32, avg: i32, buffer: i32) -> (r: i64)
    ensures
        r == row_height(heights@, seq, avg, buffer),
{
    let h: i64 = match heights.get(&seq) {
        Some(known) => *known as i64,
        None => {
            let wanted = avg as i64 + buffer as i64;
            if wanted < MIN_DEFAULT_HEIGHT {
                MIN_DEFAULT_HEIGHT
            } else if wanted > MAX_DEFAULT_HEIGHT {
                MAX_DEFAULT_HEIGHT
            } else {
                wanted
            }
        },
    };
    if h > 0 {
        h
    } else if avg as i64 > MIN_DEFAULT_HEIGHT {
        avg as i64
    } else {
        MIN_DEFAULT_HEIGHT
    }
}

/// The tracker after an index rebuild over `n` records and a height map of
/// `m` entries.
pub open spec fn rebuild_tracking(t: TrackerView, n: nat, m: nat, now_ms: u64) -> TrackerView {
    t.after_allocation(
        sat_product(n as int, vstd::layout::size_of::<LogMessage>() as int) as usize,
        now_ms,
    ).after_allocation(
        sat_product(m as int, vstd::layout::size_of::<(u32, i32)>() as int) as usize,
        now_ms,
    ).after_allocation(
        sat_product(n as int, vstd::layout::size_of::<(u32, i64)>() as int) as usize,
        now_ms,
    )
}

/// Rebuilds the position index of `logs`, in their order top to bottom.
///
/// Each row starts where the rows above it end; its height is its known
/// height from `heights`, else the average plus the buffer kept between 20
/// and 100 pixels; a height that is not positive is replaced by the larger of
/// the average and 20 pixels. The tracker starts a fresh baseline at `now_ms`
/// and records the inputs and the index.
///
/// A list holds at most `u32::MAX` rows, as the host's arrays do; with row
/// heights below `2^31` the offsets then stay within `i64`.
pub fn recalculate_positions(
    tracker: &mut AllocationTracker,
    logs: &Vec<LogMessage>,
    heights: &HashMap<u32, i32>,
    avg_log_height: i32,
    position_buffer: i32,
    now_ms: u64,
) -> (r: PositionIndex)
    requires
        old(tracker)@.wf(),
        logs@.len() <= u32::MAX,
    ensures
        final(tracker)@.wf(),
        final(tracker)@ == rebuild_tracking(
            old(tracker)@.after_reset(now_ms),
            logs@.len(),
            heights@.len(),
            now_ms,
        ),
        is_index_of(r, logs@, heights@, avg_log_height, position_buffer),
{
    tracker.reset(now_ms);
    tracker.track_allocation(
        saturating_product(logs.len(), core::mem::size_of::<LogMessage>()),
        now_ms,
    );
    tracker.track_allocation(
        saturating_product(heights.len(), core::mem::size_of::<(u32, i32)>()),
        now_ms,
    );
    tracker.track_allocation(
        saturating_product(logs.len(), core::mem::size_of::<(u32, i64)>()),
        now_ms,
    );
    let mut positions: HashMap<u32, i64> = HashMap::new();
    let mut current: i64 = 0;
    let mut i: usize = 0;
    while i < logs.len()
        invariant
            i <= logs@.len() <= u32::MAX,
            current == extent(logs@.subrange(0, i as int), heights@, avg_log_height, position_buffer),
            positions@ == position_map(
                logs@.subrange(0, i as int),
                heights@,
                avg_log_height,
                position_buffer,
            ),
        decreases logs@.len() - i,
    {
        let ghost prefix = logs@.subrange(0, i as int);
        let ghost next = logs@.subrange(0, i + 1);
        proof {
            assert(next.drop_last() =~= prefix);
            lemma_extent_bounds(next, heights@, avg_log_height, position_buffer);
            assert(next.len() * (i32::MAX as int) <= (u32::MAX as int) * (i32::MAX as int))
                by (nonlinear_arith)
                requires
                    next.len() <= u32::MAX,
            ;
        }
        let seq: u32 = match logs[i].sequence {
            Some(s) => s,
            None => 0,
        };
        positions.insert(seq, current);
        let h = resolve_height(heights, seq, avg_log_height, position_buffer);
        current = current + h;
        i += 1;
    }
    proof {
        assert(logs@.subrange(0, i as int) =~= logs@);
    }
    PositionIndex { positions, total_height: current }
}

/// Where a lookup takes row `i` to start: its indexed offset, else `i`
/// times the average height plus the buffer.
pub open spec fn probe_start(
    logs: Seq<LogMessage>,
    positions: Map<u32, i64>,
    avg: i32,
    buffer: i32,
    i: int,
) -> int {
    let seq = sequence_of(logs[i]);
    if positions.contains_key(seq) {
        positions[seq] as int
    } else {
        i * (avg + buffer)
    }
}

/// The height a lookup takes row `i` to have: its known height, else the
/// average height plus the buffer.
pub open spec fn probe_height(
    logs: Seq<LogMessage>,
    heights: Map<u32, i32>,
    avg: i32,
    buffer: i32,
    i: int,
) -> int {
    let seq = sequence_of(logs[i]);
    if heights.contains_key(seq) {
        heights[seq] as int
    } else {
        avg + buffer
    }
}

/// Row `i` covers the offset `q`: `start ≤ q < start + height`.
pub open spec fn row_covers(
    logs: Seq<LogMessage>,
    positions: Map<u32, i64>,
    heights: Map<u32, i32>,
    avg: i32,
    buffer: i32,
    i: int,
    q: int,
) -> bool {
    let start = probe_start(logs, positions, avg, buffer, i);
    start <= q < start + probe_height(logs, heights, avg, buffer, i)
}

/// The row a binary search between rows `low` and `high` settles on for
/// offset `q`: a row that covers `q` if the probes meet one, else the row
/// where the search stopped, kept within the list.
pub open spec fn search_rows(
    logs: Seq<LogMessage>,
    positions: Map<u32, i64>,
    heights: Map<u32, i32>,
    avg: i32,
    buffer: i32,
    q: int,
    low: int,
    high: int,
) -> int
    decreases high + 1 - low,
{
    let last = logs.len() - 1;
    let stop = if low < last {
        low
    } else {
        last
    };
    if low > high || low < 0 || high > last {
        stop
    } else {
        let mid = low + (high - low) / 2;
        let start = probe_start(logs, positions, avg, buffer, mid);
        if row_covers(logs, positions, heights, avg, buffer, mid, q) {
            mid
        } else if q < start {
            if mid == 0 {
                stop
            } else {
                search_rows(logs, positions, heights, avg, buffer, q, low, mid - 1)
            }
        } else {
            search_rows(logs, positions, heights, avg, buffer, q, mid + 1, high)
        }
    }
}

/// The row a lookup of the scroll offset `q` returns, before any window
/// offset is added.
pub open spec fn row_at(
    logs: Seq<LogMessage>,
    positions: Map<u32, i64>,
    heights: Map<u32, i32>,
    avg: i32,
    buffer: i32,
    q: int,
) -> int {
    search_rows(logs, positions, heights, avg, buffer, q, 0, logs.len() - 1)
}

/// The absolute value of a scroll offset.
pub open spec fn abs_offset(x: i64) -> int {
    if x < 0 {
        -x
    } else {
        x as int
    }
}

/// Usage of `used` bytes of a heap of `heap` bytes exceeds 90 %; an unknown
/// heap (zero bytes) counts as full.
pub open spec fn under_pressure(used: usize, heap: usize) -> bool {
    let in_use = if used <= heap {
        used as int
    } else {
        heap as int
    };
    heap == 0 || in_use * 10 > heap * 9
}

/// The tracker after a lookup has recorded its record list and, for a
/// non-empty list, its two maps.
pub open spec fn lookup_tracking(t: TrackerView, n: nat, p: nat, m: nat, now_ms: u64)
    -> TrackerView {
    let t2 = t.after_allocation(
        sat_product(n as int, vstd::layout::size_of::<LogMessage>() as int) as usize,
        now_ms,
    );
    if n == 0 {
        t2
    } else {
        t2.after_allocation(
            sat_product(p as int, vstd::layout::size_of::<(u32, i64)>() as int) as usize,
            now_ms,
        ).after_allocation(
            sat_product(m as int, vstd::layout::size_of::<(u32, i32)>() as int) as usize,
            now_ms,
        )
    }
}

/// Finds the row at scroll offset `scroll_top` (taken as its absolute
/// value) by binary search over `logs`, whose rows start at the offsets in
/// `positions` and have the heights in `heights`, or the average height plus
/// the buffer where those do not say. Returns a row that covers the offset
/// if the search meets one, else the nearest row where it stopped, plus
/// `start_offset` when the list is a window of a longer one; an empty list
/// gives 0.
///
/// The lookup is refused with `MemoryPressure` when tracked usage exceeds
/// 90 % of a heap of `heap_bytes`, or the heap size is unknown (zero). A list
/// holds at most `u32::MAX` rows, as the host's arrays do.
pub fn find_log_at_scroll_position(
    tracker: &mut AllocationTracker,
    heap_bytes: usize,
    logs: &Vec<LogMessage>,
    positions: &HashMap<u32, i64>,
    heights: &HashMap<u32, i32>,
    scroll_top: i64,
    avg_log_height: i32,
    position_buffer: i32,
    start_offset: Option<u32>,
    now_ms: u64,
) -> (r: Result<u64, EngineError>)
    requires
        old(tracker)@.wf(),
        logs@.len() <= u32::MAX,
    ensures
        final(tracker)@.wf(),
        ({
            let t = old(tracker)@.after_allocation(LOOKUP_SCRATCH_BYTES, now_ms);
            if under_pressure(t.active_bytes, heap_bytes) {
                &&& r == Err::<u64, EngineError>(EngineError::MemoryPressure)
                &&& final(tracker)@ == t
            } else {
                &&& final(tracker)@ == lookup_tracking(
                    t,
                    logs@.len(),
                    positions@.len(),
                    heights@.len(),
                    now_ms,
                )
                &&& logs@.len() == 0 ==> r == Ok::<u64, EngineError>(0)
                &&& logs@.len() > 0 ==> r == Ok::<u64, EngineError>(
                    (row_at(
                        logs@,
                        positions@,
                        heights@,
                        avg_log_height,
                        position_buffer,
                        abs_offset(scroll_top),
                    ) + match start_offset {
                        Some(o) => o as int,
                        None => 0,
                    }) as u64,
                )
            }
        }),
{
    tracker.track_allocation(LOOKUP_SCRATCH_BYTES, now_ms);
    let active = tracker.active_bytes();
    let in_use: usize = if active <= heap_bytes {
        active
    } else {
        heap_bytes
    };
    if heap_bytes == 0 || (in_use as u128) * 10 > (heap_bytes as u128) * 9 {
        return Err(EngineError::MemoryPressure);
    }
    tracker.track_allocation(
        saturating_product(logs.len(), core::mem::size_of::<LogMessage>()),
        now_ms,
    );
    if logs.len() == 0 {
        return Ok(0);
    }
    tracker.track_allocation(
        saturating_product(positions.len(), core::mem::size_of::<(u32, i64)>()),
        now_ms,
    );
    tracker.track_allocation(
        saturating_product(heights.len(), core::mem::size_of::<(u32, i32)>()),
        now_ms,
    );
    let q: i128 = if scroll_top < 0 {
        -(scroll_top as i128)
    } else {
        scroll_top as i128
    };
    let step: i128 = avg_log_height as i128 + position_buffer as i128;
    let ghost n = logs@.len() as int;
    let ghost target = row_at(
        logs@,
        positions@,
        heights@,
        avg_log_height,
        position_buffer,
        q as int,
    );
    let mut low: usize = 0;
    let mut high: usize = logs.len() - 1;
    let mut found: Option<usize> = None;
    while low <= high
        invariant_except_break
            found is None,
        invariant
            n == logs@.len(),
            0 < n <= u32::MAX,
            low <= n,
            high < n,
            q == abs_offset(scroll_top),
            step == avg_log_height + position_buffer,
            search_rows(
                logs@,
                positions@,
                heights@,
                avg_log_height,
                position_buffer,
                q as int,
                low as int,
                high as int,
            ) == target,
        ensures
            match found {
                Some(m) => m == target && m < n,
                None => (if low < n - 1 {
                    low as int
                } else {
                    n - 1
                }) == target,
            },
        decreases high + 1 - low,
    {
        let mid = low + (high - low) / 2;
        proof {
            assert(mid as int * (step as int) <= u32::MAX as int * 0x1_0000_0000) by (nonlinear_arith)
                requires
                    0 <= mid <= u32::MAX,
                    -0x1_0000_0000 <= step <= 0x1_0000_0000,
            ;
            assert(mid as int * (step as int) >= -(u32::MAX as int * 0x1_0000_0000)) by (
            nonlinear_arith)
                requires
                    0 <= mid <= u32::MAX,
                    -0x1_0000_0000 <= step <= 0x1_0000_0000,
            ;
        }
        let seq: u32 = match logs[mid].sequence {
            Some(s) => s,
            None => 0,
        };
        let start: i128 = match positions.get(&seq) {
            Some(p) => *p as i128,
            None => mid as i128 * step,
        };
        let height: i128 = match heights.get(&seq) {
            Some(h) => *h as i128,
            None => step,
        };
        if q >= start && q < start + height {
            found = Some(mid);
            break;
        }
        if q < start {
            if mid == 0 {
                break;
            }
            high = mid - 1;
        } else {
            low = mid + 1;
        }
    }
    let index: usize = match found {
        Some(m) => m,
        None => if low < logs.len() - 1 {
            low
        } else {
            logs.len() - 1
        },
    };
    assert(index == target);
    let shift: u64 = match start_offset {
        Some(o) => o as u64,
        None => 0,
    };
    Ok(index as u64 + shift)
}

/// Rebuilding the index twice from the same records, heights, average and
/// buffer gives the same positions and the same total height, whatever the
/// tracker held before each rebuild.
pub proof fn lemma_rebuild_idempotent(
    logs: Seq<LogMessage>,
    heights: Map<u32, i32>,
    avg: i32,
    buffer: i32,
    first: PositionIndex,
    second: PositionIndex,
)
    requires
        is_index_of(first, logs, heights, avg, buffer),
        is_index_of(second, logs, heights, avg, buffer),
    ensures
        first.positions@ == second.positions@,
        first.total_height == second.total_height,
{
}

/// Where a lookup takes row `i` to end.
pub open spec fn probe_end(
    logs: Seq<LogMessage>,
    positions: Map<u32, i64>,
    heights: Map<u32, i32>,
    avg: i32,
    buffer: i32,
    i: int,
) -> int {
    probe_start(logs, positions, avg, buffer, i) + probe_height(logs, heights, avg, buffer, i)
}

/// Rows lower in the list start and end no higher than rows above them.
pub open spec fn layout_is_ordered(
    logs: Seq<LogMessage>,
    positions: Map<u32, i64>,
    heights: Map<u32, i32>,
    avg: i32,
    buffer: i32,
) -> bool {
    forall|i: int, j: int|
        0 <= i <= j < logs.len() ==> {
            &&& probe_start(logs, positions, avg, buffer, i) <= probe_start(
                logs,
                positions,
                avg,
                buffer,
                j,
            )
            &&& #[trigger] probe_end(logs, positions, heights, avg, buffer, i) <= #[trigger] probe_end(
                logs,
                positions,
                heights,
                avg,
                buffer,
                j,
            )
        }
}

proof fn lemma_ordered_rows(
    logs: Seq<LogMessage>,
    positions: Map<u32, i64>,
    heights: Map<u32, i32>,
    avg: i32,
    buffer: i32,
    i: int,
    j: int,
)
    requires
        layout_is_ordered(logs, positions, heights, avg, buffer),
        0 <= i <= j < logs.len(),
    ensures
        probe_start(logs, positions, avg, buffer, i) <= probe_start(logs, positions, avg, buffer, j),
        probe_end(logs, positions, heights, avg, buffer, i) <= probe_end(logs, positions, heights, avg, buffer, j),
{
    assert(probe_end(logs, positions, heights, avg, buffer, i) <= probe_end(logs, positions, heights, avg, buffer, j));
}

proof fn lemma_search_rows(
    logs: Seq<LogMessage>,
    positions: Map<u32, i64>,
    heights: Map<u32, i32>,
    avg: i32,
    buffer: i32,
    q: int,
    low: int,
    high: int,
)
    requires
        logs.len() > 0,
        0 <= low <= high + 1,
        high < logs.len(),
        layout_is_ordered(logs, positions, heights, avg, buffer),
        forall|j: int| 0 <= j < low ==> #[trigger] probe_end(logs, positions, heights, avg, buffer, j) <= q,
        forall|j: int| high < j < logs.len() ==> q < #[trigger] probe_start(logs, positions, avg, buffer, j),
    ensures
        ({
            let r = search_rows(logs, positions, heights, avg, buffer, q, low, high);
            &&& 0 <= r < logs.len()
            &&& (exists|i: int| 0 <= i < logs.len() && #[trigger] row_covers(logs, positions, heights, avg, buffer, i, q))
                ==> row_covers(logs, positions, heights, avg, buffer, r, q)
            &&& !(exists|i: int| 0 <= i < logs.len() && #[trigger] row_covers(logs, positions, heights, avg, buffer, i, q))
                ==> {
                &&& forall|j: int| 0 <= j < r ==> #[trigger] probe_end(logs, positions, heights, avg, buffer, j) <= q
                &&& r < logs.len() - 1 ==> q < probe_start(logs, positions, avg, buffer, r)
            }
        }),
    decreases high + 1 - low,
{
    let n = logs.len();
    if low > high {
        assert forall|i: int| 0 <= i < n implies !row_covers(logs, positions, heights, avg, buffer, i, q) by {
            if i < low {
                assert(probe_end(logs, positions, heights, avg, buffer, i) <= q);
            } else {
                assert(q < probe_start(logs, positions, avg, buffer, i));
            }
        }
    } else {
        let mid = low + (high - low) / 2;
        let start = probe_start(logs, positions, avg, buffer, mid);
        if row_covers(logs, positions, heights, avg, buffer, mid, q) {
        } else if q < start {
            assert forall|j: int| mid - 1 < j < n implies q < #[trigger] probe_start(logs, positions, avg, buffer, j) by {
                lemma_ordered_rows(logs, positions, heights, avg, buffer, mid, j);
            }
            if mid == 0 {
                assert forall|i: int| 0 <= i < n implies !row_covers(logs, positions, heights, avg, buffer, i, q) by {
                    lemma_ordered_rows(logs, positions, heights, avg, buffer, 0, i);
                }
            } else {
                lemma_search_rows(logs, positions, heights, avg, buffer, q, low, mid - 1);
            }
        } else {
            assert forall|j: int| 0 <= j < mid + 1 implies #[trigger] probe_end(logs, positions, heights, avg, buffer, j) <= q by {
                if j < mid {
                    lemma_ordered_rows(logs, positions, heights, avg, buffer, j, mid);
                }
            }
            lemma_search_rows(logs, positions, heights, avg, buffer, q, mid + 1, high);
        }
    }
}

/// Over rows laid out in order, a scroll lookup at offset `q` returns a row
/// that covers `q` whenever some row does; otherwise it returns the closest
/// row: every row above it ends at or before `q`, and unless it is the last
/// row it starts below `q`.
pub proof fn lemma_scroll_lookup_finds_row(
    logs: Seq<LogMessage>,
    positions: Map<u32, i64>,
    heights: Map<u32, i32>,
    avg: i32,
    buffer: i32,
    q: int,
)
    requires
        logs.len() > 0,
        layout_is_ordered(logs, positions, heights, avg, buffer),
    ensures
        ({
            let r = row_at(logs, positions, heights, avg, buffer, q);
            &&& 0 <= r < logs.len()
            &&& (exists|i: int| 0 <= i < logs.len() && #[trigger] row_covers(logs, positions, heights, avg, buffer, i, q))
                ==> row_covers(logs, positions, heights, avg, buffer, r, q)
            &&& !(exists|i: int| 0 <= i < logs.len() && #[trigger] row_covers(logs, positions, heights, avg, buffer, i, q))
                ==> {
                &&& forall|j: int| 0 <= j < r ==> #[trigger] probe_end(logs, positions, heights, avg, buffer, j) <= q
                &&& r < logs.len() - 1 ==> q < probe_start(logs, positions, avg, buffer, r)
            }
        }),
{
    lemma_search_rows(logs, positions, heights, avg, buffer, q, 0, logs.len() - 1);
}

/// Height of the first `i` rows of `logs`.
pub open spec fn prefix_extent(
    logs: Seq<LogMessage>,
    heights: Map<u32, i32>,
    avg: i32,
    buffer: i32,
    i: int,
) -> int {
    extent(logs.subrange(0, i), heights, avg, buffer)
}

/// Every row has a sequence number of its own.
pub open spec fn distinct_sequences(logs: Seq<LogMessage>) -> bool {
    forall|i: int, j: int|
        0 <= i < j < logs.len() ==> sequence_of(#[trigger] logs[i]) != sequence_of(
            #[trigger] logs[j],
        )
}

/// Every row's height is known and positive.
pub open spec fn heights_known(logs: Seq<LogMessage>, heights: Map<u32, i32>) -> bool {
    forall|i: int|
        0 <= i < logs.len() ==> heights.contains_key(sequence_of(#[trigger] logs[i]))
            && heights[sequence_of(logs[i])] > 0
}

proof fn lemma_prefix_step(
    logs: Seq<LogMessage>,
    heights: Map<u32, i32>,
    avg: i32,
    buffer: i32,
    i: int,
)
    requires
        0 <= i < logs.len(),
    ensures
        prefix_extent(logs, heights, avg, buffer, i + 1) == prefix_extent(
            logs,
            heights,
            avg,
            buffer,
            i,
        ) + row_height(heights, sequence_of(logs[i]), avg, buffer),
{
    assert(logs.subrange(0, i + 1).drop_last() =~= logs.subrange(0, i));
}

proof fn lemma_prefix_monotone(
    logs: Seq<LogMessage>,
    heights: Map<u32, i32>,
    avg: i32,
    buffer: i32,
    i: int,
    j: int,
)
    requires
        0 <= i <= j <= logs.len(),
    ensures
        prefix_extent(logs, heights, avg, buffer, i) <= prefix_extent(logs, heights, avg, buffer, j),
    decreases j - i,
{
    if i < j {
        lemma_prefix_monotone(logs, heights, avg, buffer, i, j - 1);
        lemma_prefix_step(logs, heights, avg, buffer, j - 1);
    }
}

/// With distinct sequence numbers, the index holds each row's start: the
/// height of the rows above it.
proof fn lemma_position_of_row(
    logs: Seq<LogMessage>,
    heights: Map<u32, i32>,
    avg: i32,
    buffer: i32,
    i: int,
)
    requires
        distinct_sequences(logs),
        0 <= i < logs.len(),
    ensures
        position_map(logs, heights, avg, buffer).contains_key(sequence_of(logs[i])),
        position_map(logs, heights, avg, buffer)[sequence_of(logs[i])] == prefix_extent(
            logs,
            heights,
            avg,
            buffer,
            i,
        ) as i64,
    decreases logs.len(),
{
    let rest = logs.drop_last();
    if i == logs.len() - 1 {
        assert(logs.subrange(0, i) =~= rest);
    } else {
        assert(sequence_of(logs[i]) != sequence_of(logs[logs.len() - 1]));
        assert forall|a: int, b: int| 0 <= a < b < rest.len() implies sequence_of(
            #[trigger] rest[a],
        ) != sequence_of(#[trigger] rest[b]) by {
            assert(rest[a] == logs[a] && rest[b] == logs[b]);
        }
        lemma_position_of_row(rest, heights, avg, buffer, i);
        assert(rest[i] == logs[i]);
        assert(rest.subrange(0, i) =~= logs.subrange(0, i));
    }
}

/// An offset within the first `m` rows lies in one of them.
proof fn lemma_offset_in_some_row(
    logs: Seq<LogMessage>,
    heights: Map<u32, i32>,
    avg: i32,
    buffer: i32,
    q: int,
    m: int,
) -> (i: int)
    requires
        0 <= m <= logs.len(),
        0 <= q < prefix_extent(logs, heights, avg, buffer, m),
    ensures
        0 <= i < m,
        prefix_extent(logs, heights, avg, buffer, i) <= q < prefix_extent(
            logs,
            heights,
            avg,
            buffer,
            i + 1,
        ),
    decreases m,
{
    if m == 0 {
        assert(logs.subrange(0, 0).len() == 0);
        0
    } else if q >= prefix_extent(logs, heights, avg, buffer, m - 1) {
        m - 1
    } else {
        lemma_offset_in_some_row(logs, heights, avg, buffer, q, m - 1)
    }
}

/// In an index rebuilt from rows with distinct sequence numbers and known,
/// positive heights, rows lie in order, and a lookup of any offset within the
/// total height returns the row that covers it.
pub proof fn lemma_lookup_in_rebuilt_index(
    logs: Seq<LogMessage>,
    heights: Map<u32, i32>,
    avg: i32,
    buffer: i32,
    q: int,
)
    requires
        logs.len() <= u32::MAX,
        distinct_sequences(logs),
        heights_known(logs, heights),
    ensures
        layout_is_ordered(logs, position_map(logs, heights, avg, buffer), heights, avg, buffer),
        0 <= q < extent(logs, heights, avg, buffer) ==> {
            let positions = position_map(logs, heights, avg, buffer);
            row_covers(
                logs,
                positions,
                heights,
                avg,
                buffer,
                row_at(logs, positions, heights, avg, buffer, q),
                q,
            )
        },
{
    let positions = position_map(logs, heights, avg, buffer);
    assert forall|i: int| 0 <= i < logs.len() implies probe_start(logs, positions, avg, buffer, i)
        == prefix_extent(logs, heights, avg, buffer, i) && probe_end(
        logs,
        positions,
        heights,
        avg,
        buffer,
        i,
    ) == prefix_extent(logs, heights, avg, buffer, i + 1) by {
        lemma_position_of_row(logs, heights, avg, buffer, i);
        lemma_extent_bounds(logs.subrange(0, i), heights, avg, buffer);
        assert(logs.subrange(0, i).len() * (i32::MAX as int) <= (u32::MAX as int) * (
        i32::MAX as int)) by (nonlinear_arith)
            requires
                logs.subrange(0, i).len() <= u32::MAX,
        ;
        lemma_prefix_step(logs, heights, avg, buffer, i);
    }
    assert forall|i: int, j: int| 0 <= i <= j < logs.len() implies {
        &&& probe_start(logs, positions, avg, buffer, i) <= probe_start(
            logs,
            positions,
            avg,
            buffer,
            j,
        )
        &&& #[trigger] probe_end(logs, positions, heights, avg, buffer, i) <= #[trigger] probe_end(
            logs,
            positions,
            heights,
            avg,
            buffer,
            j,
        )
    } by {
        lemma_prefix_monotone(logs, heights, avg, buffer, i, j);
        lemma_prefix_monotone(logs, heights, avg, buffer, i + 1, j + 1);
    }
    if 0 <= q < extent(logs, heights, avg, buffer) {
        assert(logs.subrange(0, logs.len() as int) =~= logs);
        let i = lemma_offset_in_some_row(logs, heights, avg, buffer, q, logs.len() as int);
        assert(row_covers(logs, positions, heights, avg, buffer, i, q));
        lemma_scroll_lookup_finds_row(logs, positions, heights, avg, buffer, q);
    }
}

} // verus!
