//! Heuristic bookkeeping of the bytes the engine believes it is using.
//!
//! The counts are estimates fed by the engine's own operations; nothing here
//! allocates or frees memory. A reset clears the current usage but keeps the
//! peak and the recent history for trend analysis.
use vstd::prelude::*;

verus! {

/// Number of recent allocation sizes kept in the circular history.
pub const HISTORY_LEN: usize = 10;

/// Weight, in tenths, of the previous rate in the moving average of the
/// allocation rate; the new sample gets the remaining tenths.
pub const RATE_KEEP_TENTHS: u128 = 7;

/// Weight, in tenths, of a new sample in the moving average of the rate.
pub const RATE_SAMPLE_TENTHS: u128 = 3;

/// The tracker's state as a mathematical value.
pub ghost struct TrackerView {
    pub active_bytes: usize,
    pub peak_bytes: usize,
    pub allocation_count: usize,
    pub history: Seq<usize>,
    pub cursor: usize,
    pub average_allocation: usize,
    pub sample_count: usize,
    /// Moving average of the allocation rate, in bytes per second.
    pub allocation_rate: u64,
    pub last_allocation_time: Option<u64>,
    pub last_reset_time: u64,
    pub reset_count: usize,
    pub growth_events: usize,
    pub growth_failures: usize,
    pub last_growth_time: u64,
}

/// `a + b`, or `usize::MAX` where that does not fit.
pub open spec fn sat_add(a: usize, b: usize) -> usize {
    if a + b <= usize::MAX {
        (a + b) as usize
    } else {
        usize::MAX
    }
}

/// One more than `a`, or `usize::MAX` where that does not fit.
pub open spec fn sat_inc(a: usize) -> usize {
    sat_add(a, 1)
}

/// Bytes per second of an allocation of `bytes` made `elapsed_ms` after the
/// previous one, capped at `u64::MAX`.
pub open spec fn rate_sample(bytes: usize, elapsed_ms: u64) -> u64 {
    let rate = (bytes as int * 1000) / elapsed_ms as int;
    if rate <= u64::MAX {
        rate as u64
    } else {
        u64::MAX
    }
}

/// The moving average of the rate after a sample: seven tenths of the old
/// rate plus three tenths of the sample.
pub open spec fn blended_rate(rate: u64, sample: u64) -> u64 {
    ((RATE_KEEP_TENTHS * rate as int + RATE_SAMPLE_TENTHS * sample as int) / 10) as u64
}

impl TrackerView {
    /// The history has its fixed length and the cursor points into it.
    pub open spec fn wf(self) -> bool {
        &&& self.history.len() == HISTORY_LEN
        &&& self.cursor < HISTORY_LEN
    }

    /// The state after an allocation of `bytes` at time `now_ms`.
    pub open spec fn after_allocation(self, bytes: usize, now_ms: u64) -> TrackerView {
        let active = sat_add(self.active_bytes, bytes);
        let samples = sat_inc(self.sample_count);
        let rate = match self.last_allocation_time {
            Some(last) if now_ms > last => blended_rate(
                self.allocation_rate,
                rate_sample(bytes, (now_ms - last) as u64),
            ),
            _ => self.allocation_rate,
        };
        TrackerView {
            active_bytes: active,
            peak_bytes: if active > self.peak_bytes {
                active
            } else {
                self.peak_bytes
            },
            allocation_count: sat_inc(self.allocation_count),
            history: self.history.update(self.cursor as int, bytes),
            cursor: ((self.cursor + 1) % (HISTORY_LEN as int)) as usize,
            average_allocation: ((self.average_allocation as int * (samples - 1) + bytes)
                / samples as int) as usize,
            sample_count: samples,
            allocation_rate: rate,
            last_allocation_time: Some(now_ms),
            ..self
        }
    }

    /// The state after `bytes` are released; usage never drops below zero.
    pub open spec fn after_deallocation(self, bytes: usize) -> TrackerView {
        TrackerView {
            active_bytes: if bytes <= self.active_bytes {
                (self.active_bytes - bytes) as usize
            } else {
                0
            },
            ..self
        }
    }

    /// The state after a reset at `now_ms`: usage and the allocation count
    /// start over, the reset is counted, peak and history stay.
    pub open spec fn after_reset(self, now_ms: u64) -> TrackerView {
        TrackerView {
            active_bytes: 0,
            allocation_count: 0,
            last_reset_time: now_ms,
            reset_count: sat_inc(self.reset_count),
            ..self
        }
    }

    /// The state after a request to grow the heap that did or did not succeed.
    pub open spec fn after_growth(self, grew: bool, now_ms: u64) -> TrackerView {
        if grew {
            TrackerView {
                growth_events: sat_inc(self.growth_events),
                last_growth_time: now_ms,
                ..self
            }
        } else {
            TrackerView { growth_failures: sat_inc(self.growth_failures), ..self }
        }
    }
}

/// Sums over the non-zero slots among the first `m` of the history, with the
/// slot's position (counting from 1) as x and its size as y: the count, and
/// the sums of x, y, x·y and x².
pub open spec fn trend_sums(history: Seq<usize>, m: int) -> (int, int, int, int, int)
    decreases m,
{
    if m <= 0 {
        (0, 0, 0, 0, 0)
    } else {
        let (n, sx, sy, sxy, sxx) = trend_sums(history, m - 1);
        let y = history[m - 1] as int;
        if y != 0 {
            (n + 1, sx + m, sy + y, sxy + m * y, sxx + m * m)
        } else {
            (n, sx, sy, sxy, sxx)
        }
    }
}

/// A slope, as the exact ratio `rise / run`.
#[derive(Debug, PartialEq, Eq, Structural, Clone, Copy)]
pub struct GrowthTrend {
    pub rise: i128,
    pub run: i128,
}

/// The least-squares slope of allocation size over history position: zero
/// (as 0 / 1) with fewer than two non-zero samples or no spread in position.
pub open spec fn trend_spec(history: Seq<usize>) -> (int, int) {
    let (n, sx, sy, sxy, sxx) = trend_sums(history, HISTORY_LEN as int);
    let run = n * sxx - sx * sx;
    if n < 2 || run == 0 {
        (0, 1)
    } else {
        (n * sxy - sx * sy, run)
    }
}

/// What the tracker reports about itself at a given time.
#[derive(Debug, PartialEq, Eq, Structural, Clone, Copy)]
pub struct TrackerStats {
    pub active_bytes: usize,
    pub peak_bytes: usize,
    pub allocation_count: usize,
    pub average_allocation: usize,
    /// Moving average of the allocation rate, in bytes per second.
    pub allocation_rate: u64,
    pub reset_count: usize,
    pub time_since_last_reset: u64,
    pub growth_events: usize,
    pub growth_failures: usize,
    pub time_since_last_growth: u64,
}

/// `now - then`, or zero where `then` is later.
pub open spec fn elapsed(now: u64, then: u64) -> u64 {
    if now >= then {
        (now - then) as u64
    } else {
        0
    }
}

/// Bookkeeping of estimated memory use, owned by the caller and passed to
/// every operation that consults or feeds it.
pub struct AllocationTracker {
    active_bytes: usize,
    peak_bytes: usize,
    allocation_count: usize,
    history: Vec<usize>,
    cursor: usize,
    average_allocation: usize,
    sample_count: usize,
    allocation_rate: u64,
    last_allocation_time: Option<u64>,
    last_reset_time: u64,
    reset_count: usize,
    growth_events: usize,
    growth_failures: usize,
    last_growth_time: u64,
}

impl View for AllocationTracker {
    type V = TrackerView;

    closed spec fn view(&self) -> TrackerView {
        TrackerView {
            active_bytes: self.active_bytes,
            peak_bytes: self.peak_bytes,
            allocation_count: self.allocation_count,
            history: self.history@,
            cursor: self.cursor,
            average_allocation: self.average_allocation,
            sample_count: self.sample_count,
            allocation_rate: self.allocation_rate,
            last_allocation_time: self.last_allocation_time,
            last_reset_time: self.last_reset_time,
            reset_count: self.reset_count,
            growth_events: self.growth_events,
            growth_failures: self.growth_failures,
            last_growth_time: self.last_growth_time,
        }
    }
}

/// Floor of the running mean after one more sample never exceeds the larger
/// of the old mean and the sample.
proof fn lemma_mean_bounded(avg: int, samples: int, bytes: int, bound: int)
    requires
        samples >= 1,
        0 <= avg <= bound,
        0 <= bytes <= bound,
    ensures
        0 <= (avg * (samples - 1) + bytes) / samples <= bound,
{
    assert(avg * (samples - 1) <= bound * (samples - 1)) by (nonlinear_arith)
        requires
            samples >= 1,
            0 <= avg <= bound,
    ;
    assert(0 <= avg * (samples - 1)) by (nonlinear_arith)
        requires
            samples >= 1,
            0 <= avg,
    ;
    assert(bound * samples == bound * (samples - 1) + bound) by (nonlinear_arith);
    assert((avg * (samples - 1) + bytes) / samples <= bound) by (nonlinear_arith)
        requires
            samples >= 1,
            avg * (samples - 1) + bytes <= bound * samples,
    ;
}

impl AllocationTracker {
    /// A tracker with nothing recorded.
    pub fn new() -> (t: AllocationTracker)
        ensures
            t@.wf(),
            t@.active_bytes == 0,
            t@.peak_bytes == 0,
            t@.allocation_count == 0,
            t@.history == Seq::new(HISTORY_LEN as nat, |i: int| 0usize),
            t@.cursor == 0,
            t@.average_allocation == 0,
            t@.sample_count == 0,
            t@.allocation_rate == 0,
            t@.last_allocation_time is None,
            t@.last_reset_time == 0,
            t@.reset_count == 0,
            t@.growth_events == 0,
            t@.growth_failures == 0,
            t@.last_growth_time == 0,
    {
        let mut history: Vec<usize> = Vec::new();
        let mut i: usize = 0;
        while i < HISTORY_LEN
            invariant
                i <= HISTORY_LEN,
                history@ == Seq::new(i as nat, |j: int| 0usize),
            decreases HISTORY_LEN - i,
        {
            history.push(0);
            i += 1;
        }
        AllocationTracker {
            active_bytes: 0,
            peak_bytes: 0,
            allocation_count: 0,
            history,
            cursor: 0,
            average_allocation: 0,
            sample_count: 0,
            allocation_rate: 0,
            last_allocation_time: None,
            last_reset_time: 0,
            reset_count: 0,
            growth_events: 0,
            growth_failures: 0,
            last_growth_time: 0,
        }
    }

    /// Records an allocation of `bytes` made at time `now_ms`.
    pub fn track_allocation(&mut self, bytes: usize, now_ms: u64)
        requires
            old(self)@.wf(),
        ensures
            final(self)@ == old(self)@.after_allocation(bytes, now_ms),
            final(self)@.wf(),
    {
        self.active_bytes = self.active_bytes.saturating_add(bytes);
        self.allocation_count = self.allocation_count.saturating_add(1);
        if self.active_bytes > self.peak_bytes {
            self.peak_bytes = self.active_bytes;
        }
        self.history.set(self.cursor, bytes);
        self.cursor = (self.cursor + 1) % HISTORY_LEN;
        self.sample_count = self.sample_count.saturating_add(1);
        let samples = self.sample_count;
        proof {
            lemma_mean_bounded(
                self.average_allocation as int,
                samples as int,
                bytes as int,
                usize::MAX as int,
            );
            assert(self.average_allocation as int * (samples - 1) <= usize::MAX as int * (
            samples - 1)) by (nonlinear_arith)
                requires
                    samples >= 1,
                    self.average_allocation <= usize::MAX,
            ;
            assert(usize::MAX as int * (samples - 1) + usize::MAX <= u128::MAX) by (
            nonlinear_arith)
                requires
                    1 <= samples <= usize::MAX,
                    usize::MAX == 0xffff_ffff_ffff_ffff || usize::MAX == 0xffff_ffff,
            ;
        }
        let total: u128 = (self.average_allocation as u128) * ((samples - 1) as u128)
            + bytes as u128;
        self.average_allocation = (total / samples as u128) as usize;
        match self.last_allocation_time {
            Some(last) => {
                if now_ms > last {
                    let elapsed = now_ms - last;
                    let per_second: u128 = (bytes as u128) * 1000 / elapsed as u128;
                    let sample: u64 = if per_second <= u64::MAX as u128 {
                        per_second as u64
                    } else {
                        u64::MAX
                    };
                    let blended: u128 = (RATE_KEEP_TENTHS * self.allocation_rate as u128
                        + RATE_SAMPLE_TENTHS * sample as u128) / 10;
                    self.allocation_rate = blended as u64;
                }
            },
            None => {},
        }
        self.last_allocation_time = Some(now_ms);
    }

    /// Records that `bytes` were released; usage never drops below zero.
    pub fn track_deallocation(&mut self, bytes: usize)
        requires
            old(self)@.wf(),
        ensures
            final(self)@ == old(self)@.after_deallocation(bytes),
            final(self)@.wf(),
    {
        if bytes <= self.active_bytes {
            self.active_bytes = self.active_bytes - bytes;
        } else {
            self.active_bytes = 0;
        }
    }

    /// Starts a fresh baseline at `now_ms`. No memory is reclaimed: only the
    /// current usage and the allocation count are cleared.
    pub fn reset(&mut self, now_ms: u64)
        requires
            old(self)@.wf(),
        ensures
            final(self)@ == old(self)@.after_reset(now_ms),
            final(self)@.wf(),
    {
        self.active_bytes = 0;
        self.allocation_count = 0;
        self.last_reset_time = now_ms;
        self.reset_count = self.reset_count.saturating_add(1);
    }

    /// Records the outcome of a request to grow the heap made at `now_ms`.
    pub fn record_growth(&mut self, grew: bool, now_ms: u64)
        requires
            old(self)@.wf(),
        ensures
            final(self)@ == old(self)@.after_growth(grew, now_ms),
            final(self)@.wf(),
    {
        if grew {
            self.growth_events = self.growth_events.saturating_add(1);
            self.last_growth_time = now_ms;
        } else {
            self.growth_failures = self.growth_failures.saturating_add(1);
        }
    }

    /// Whether an operation of `estimated_bytes`, with a fifth more as a
    /// safety margin, fits in the part of a heap of `heap_size` bytes not
    /// believed in use. Never when usage already exceeds the heap.
    pub fn would_operation_fit(&self, estimated_bytes: usize, heap_size: usize) -> (r: bool)
        ensures
            r == (heap_size >= self@.active_bytes && estimated_bytes * 6 <= (heap_size
                - self@.active_bytes) * 5),
    {
        if heap_size < self.active_bytes {
            return false;
        }
        let free = (heap_size - self.active_bytes) as u128;
        (estimated_bytes as u128) * 6 <= free * 5
    }

    /// Bytes currently believed in use.
    pub fn active_bytes(&self) -> (r: usize)
        ensures
            r == self@.active_bytes,
    {
        self.active_bytes
    }

    /// Largest usage observed.
    pub fn peak_bytes(&self) -> (r: usize)
        ensures
            r == self@.peak_bytes,
    {
        self.peak_bytes
    }

    /// Allocations recorded since the last reset.
    pub fn allocation_count(&self) -> (r: usize)
        ensures
            r == self@.allocation_count,
    {
        self.allocation_count
    }

    /// The tracker's figures at time `now_ms`.
    pub fn get_stats(&self, now_ms: u64) -> (r: TrackerStats)
        ensures
            r.active_bytes == self@.active_bytes,
            r.peak_bytes == self@.peak_bytes,
            r.allocation_count == self@.allocation_count,
            r.average_allocation == self@.average_allocation,
            r.allocation_rate == self@.allocation_rate,
            r.reset_count == self@.reset_count,
            r.time_since_last_reset == elapsed(now_ms, self@.last_reset_time),
            r.growth_events == self@.growth_events,
            r.growth_failures == self@.growth_failures,
            r.time_since_last_growth == elapsed(now_ms, self@.last_growth_time),
    {
        TrackerStats {
            active_bytes: self.active_bytes,
            peak_bytes: self.peak_bytes,
            allocation_count: self.allocation_count,
            average_allocation: self.average_allocation,
            allocation_rate: self.allocation_rate,
            reset_count: self.reset_count,
            time_since_last_reset: now_ms.saturating_sub(self.last_reset_time),
            growth_events: self.growth_events,
            growth_failures: self.growth_failures,
            time_since_last_growth: now_ms.saturating_sub(self.last_growth_time),
        }
    }

    /// The least-squares slope of the recent allocation sizes against their
    /// position in the history.
    pub fn growth_trend(&self) -> (r: GrowthTrend)
        requires
            self@.wf(),
        ensures
            (r.rise as int, r.run as int) == trend_spec(self@.history),
    {
        let mut n: i128 = 0;
        let mut sx: i128 = 0;
        let mut sy: i128 = 0;
        let mut sxy: i128 = 0;
        let mut sxx: i128 = 0;
        let mut i: usize = 0;
        while i < HISTORY_LEN
            invariant
                i <= HISTORY_LEN,
                self.history@.len() == HISTORY_LEN,
                (n as int, sx as int, sy as int, sxy as int, sxx as int) == trend_sums(
                    self.history@,
                    i as int,
                ),
                0 <= n <= i,
                0 <= sx <= 10 * i,
                0 <= sy <= i * 0x1_0000_0000_0000_0000,
                0 <= sxy <= 10 * i * 0x1_0000_0000_0000_0000,
                0 <= sxx <= 100 * i,
            decreases HISTORY_LEN - i,
        {
            let y = self.history[i];
            if y != 0 {
                let x: i128 = (i + 1) as i128;
                proof {
                    assert(x * (y as int) <= 10 * 0x1_0000_0000_0000_0000) by (nonlinear_arith)
                        requires
                            1 <= x <= 10,
                            0 <= y <= 0xffff_ffff_ffff_ffff,
                    ;
                    assert(0 <= x * (y as int)) by (nonlinear_arith)
                        requires
                            1 <= x,
                            0 <= y,
                    ;
                    assert(x * x <= 100) by (nonlinear_arith)
                        requires
                            1 <= x <= 10,
                    ;
                }
                n = n + 1;
                sx = sx + x;
                sy = sy + y as i128;
                sxy = sxy + x * y as i128;
                sxx = sxx + x * x;
            }
            i += 1;
        }
        proof {
            assert(n * sxx <= 10 * 1000) by (nonlinear_arith)
                requires
                    0 <= n <= 10,
                    0 <= sxx <= 1000,
            ;
            assert(sx * sx <= 100 * 100) by (nonlinear_arith)
                requires
                    0 <= sx <= 100,
            ;
            assert(0 <= n * sxy <= 10 * (100 * 0x1_0000_0000_0000_0000)) by (nonlinear_arith)
                requires
                    0 <= n <= 10,
                    0 <= sxy <= 100 * 0x1_0000_0000_0000_0000,
            ;
            assert(0 <= sx * sy <= 100 * (10 * 0x1_0000_0000_0000_0000)) by (nonlinear_arith)
                requires
                    0 <= sx <= 100,
                    0 <= sy <= 10 * 0x1_0000_0000_0000_0000,
            ;
            assert(0 <= n * sxx) by (nonlinear_arith)
                requires
                    0 <= n,
                    0 <= sxx,
            ;
            assert(0 <= sx * sx) by (nonlinear_arith);
        }
        let run = n * sxx - sx * sx;
        if n < 2 || run == 0 {
            GrowthTrend { rise: 0, run: 1 }
        } else {
            GrowthTrend { rise: n * sxy - sx * sy, run }
        }
    }
}

} // verus!
