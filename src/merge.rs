//! Merging two batches of records into one batch in the total order.
//!
//! Records are moved, never copied: each batch is turned into a queue, sorted
//! stably by a merge sort, and the two runs are merged with the existing
//! batch winning ties.
use vstd::prelude::*;
use std::collections::VecDeque;
use crate::budget::{
    ensure_sufficient_memory, growth_pages, needs_growth, sat_product, sat_sum,
    saturating_product,
};
use crate::error::EngineError;
use crate::record::{
    LogMessage, capped, estimate_log_message_size, is_nan_bits, is_nan_time, order_key,
    order_key_of, rank_of_time_bits, record_bytes, time_bits_of, time_rank,
};
use crate::tracker::{AllocationTracker, TrackerView};

verus! {

/// The records of `s` whose order key is `k`, in their order in `s`.
pub open spec fn keyed(s: Seq<LogMessage>, k: int) -> Seq<LogMessage>
    decreases s.len(),
{
    if s.len() == 0 {
        Seq::empty()
    } else {
        let rest = keyed(s.drop_last(), k);
        if order_key(s.last()) == k {
            rest.push(s.last())
        } else {
            rest
        }
    }
}

/// `s` is non-decreasing in the total order.
pub open spec fn is_ordered(s: Seq<LogMessage>) -> bool {
    forall|i: int, j: int|
        0 <= i < j < s.len() ==> order_key(#[trigger] s[i]) <= order_key(#[trigger] s[j])
}

/// `r` is the ordered merge of `existing` and `new`: it is in order, and the
/// records sharing any one key appear as they did in `existing`, followed by
/// those of `new`.
pub open spec fn is_ordered_merge(
    existing: Seq<LogMessage>,
    new: Seq<LogMessage>,
    r: Seq<LogMessage>,
) -> bool {
    &&& is_ordered(r)
    &&& forall|k: int| #[trigger] keyed(r, k) == keyed(existing, k) + keyed(new, k)
}

proof fn lemma_keyed_push(s: Seq<LogMessage>, x: LogMessage, k: int)
    ensures
        keyed(s.push(x), k) == if order_key(x) == k {
            keyed(s, k).push(x)
        } else {
            keyed(s, k)
        },
{
    assert(s.push(x).drop_last() =~= s);
}

proof fn lemma_keyed_concat(a: Seq<LogMessage>, b: Seq<LogMessage>, k: int)
    ensures
        keyed(a + b, k) == keyed(a, k) + keyed(b, k),
    decreases b.len(),
{
    if b.len() == 0 {
        assert(a + b =~= a);
        assert(keyed(a, k) + keyed(b, k) =~= keyed(a, k));
    } else {
        assert((a + b).drop_last() =~= a + b.drop_last());
        lemma_keyed_concat(a, b.drop_last(), k);
        assert((a + b).last() == b.last());
        if order_key(b.last()) == k {
            assert(keyed(a, k) + keyed(b.drop_last(), k).push(b.last()) =~= (keyed(a, k)
                + keyed(b.drop_last(), k)).push(b.last()));
        }
    }
}

proof fn lemma_keyed_absent(s: Seq<LogMessage>, k: int)
    requires
        forall|i: int| 0 <= i < s.len() ==> order_key(#[trigger] s[i]) != k,
    ensures
        keyed(s, k) == Seq::<LogMessage>::empty(),
    decreases s.len(),
{
    if s.len() > 0 {
        lemma_keyed_absent(s.drop_last(), k);
    }
}

proof fn lemma_keyed_prefix(s: Seq<LogMessage>, i: int, k: int)
    requires
        0 <= i < s.len(),
    ensures
        keyed(s.subrange(0, i + 1), k) == if order_key(s[i]) == k {
            keyed(s.subrange(0, i), k).push(s[i])
        } else {
            keyed(s.subrange(0, i), k)
        },
{
    assert(s.subrange(0, i + 1) =~= s.subrange(0, i).push(s[i]));
    lemma_keyed_push(s.subrange(0, i), s[i], k);
}

/// Moves the items of a vector into a queue, keeping their order.
fn into_queue<T>(v: Vec<T>) -> (q: VecDeque<T>)
    ensures
        q@ == v@,
{
    let ghost all = v@;
    let mut v = v;
    let mut q: VecDeque<T> = VecDeque::new();
    while v.len() > 0
        invariant
            v@.len() + q@.len() == all.len(),
            v@ == all.subrange(0, v@.len() as int),
            q@ == all.subrange(v@.len() as int, all.len() as int),
        decreases v@.len(),
    {
        let ghost n = v@.len() as int;
        match v.pop() {
            Some(x) => {
                q.push_front(x);
                assert(q@ =~= all.subrange(n - 1, all.len() as int));
            },
            None => {},
        }
    }
    assert(q@ =~= all);
    q
}

/// Moves the items of a queue into a vector, keeping their order.
fn into_vector<T>(q: VecDeque<T>) -> (v: Vec<T>)
    ensures
        v@ == q@,
{
    let ghost all = q@;
    let mut q = q;
    let mut v: Vec<T> = Vec::new();
    while q.len() > 0
        invariant
            v@.len() + q@.len() == all.len(),
            v@ == all.subrange(0, v@.len() as int),
            q@ == all.subrange(v@.len() as int, all.len() as int),
        decreases q@.len(),
    {
        let ghost n = v@.len() as int;
        match q.pop_front() {
            Some(x) => {
                v.push(x);
                assert(v@ =~= all.subrange(0, n + 1));
            },
            None => {},
        }
    }
    assert(v@ =~= all);
    v
}

/// Merges two ordered runs; on equal keys the record of `a` comes first.
fn merge_runs(a: VecDeque<LogMessage>, b: VecDeque<LogMessage>) -> (r: VecDeque<LogMessage>)
    requires
        is_ordered(a@),
        is_ordered(b@),
    ensures
        is_ordered_merge(a@, b@, r@),
        r@.len() == a@.len() + b@.len(),
{
    let ghost sa = a@;
    let ghost sb = b@;
    let mut a = a;
    let mut b = b;
    let mut out: VecDeque<LogMessage> = VecDeque::new();
    let ghost mut i: int = 0;
    let ghost mut j: int = 0;
    proof {
        assert forall|k: int| #[trigger]
            keyed(out@, k) == keyed(sa.subrange(0, i), k) + keyed(sb.subrange(0, j), k) by {
            assert(sa.subrange(0, 0).len() == 0);
            assert(sb.subrange(0, 0).len() == 0);
            assert(keyed(out@, k) =~= keyed(sa.subrange(0, i), k) + keyed(sb.subrange(0, j), k));
        }
    }
    while a.len() > 0 || b.len() > 0
        invariant
            0 <= i <= sa.len(),
            0 <= j <= sb.len(),
            a@ == sa.subrange(i, sa.len() as int),
            b@ == sb.subrange(j, sb.len() as int),
            is_ordered(sa),
            is_ordered(sb),
            is_ordered(out@),
            forall|k: int| #[trigger]
                keyed(out@, k) == keyed(sa.subrange(0, i), k) + keyed(sb.subrange(0, j), k),
            out@.len() > 0 && i < sa.len() ==> order_key(out@.last()) <= order_key(sa[i]),
            out@.len() > 0 && j < sb.len() ==> order_key(out@.last()) <= order_key(sb[j]),
            j > 0 && i < sa.len() ==> order_key(sb[j - 1]) < order_key(sa[i]),
            out@.len() == i + j,
        decreases a@.len() + b@.len(),
    {
        let take_a = if a.len() == 0 {
            false
        } else if b.len() == 0 {
            true
        } else {
            order_key_of(&a[0]) <= order_key_of(&b[0])
        };
        let ghost before = out@;
        if take_a {
            let x = a.pop_front().unwrap();
            proof {
                assert(x == sa[i]);
                assert forall|t: int| 0 <= t < j implies order_key(
                    #[trigger] sb.subrange(0, j)[t],
                ) != order_key(x) by {
                    assert(sb.subrange(0, j)[t] == sb[t]);
                    if t < j - 1 {
                        assert(order_key(sb[t]) <= order_key(sb[j - 1]));
                    }
                }
                lemma_keyed_absent(sb.subrange(0, j), order_key(x));
                assert forall|k: int| #[trigger]
                    keyed(before.push(x), k) == keyed(sa.subrange(0, i + 1), k) + keyed(
                        sb.subrange(0, j),
                        k,
                    ) by {
                    lemma_keyed_push(before, x, k);
                    lemma_keyed_prefix(sa, i, k);
                    if order_key(x) == k {
                        assert(keyed(sa.subrange(0, i), k).push(x) + keyed(sb.subrange(0, j), k)
                            =~= (keyed(sa.subrange(0, i), k) + keyed(sb.subrange(0, j), k)).push(
                            x,
                        ));
                    }
                }
                if i + 1 < sa.len() {
                    assert(order_key(sa[i]) <= order_key(sa[i + 1]));
                }
            }
            out.push_back(x);
            proof {
                assert(out@ == before.push(x));
                assert forall|p: int, q: int|
                    0 <= p < q < out@.len() implies order_key(#[trigger] out@[p]) <= order_key(
                    #[trigger] out@[q],
                ) by {
                    if q == out@.len() - 1 && p < before.len() - 1 {
                        assert(order_key(before[p]) <= order_key(before.last()));
                    }
                }
                i = i + 1;
                assert(a@ =~= sa.subrange(i, sa.len() as int));
            }
        } else {
            let x = b.pop_front().unwrap();
            proof {
                assert(x == sb[j]);
                assert forall|k: int| #[trigger]
                    keyed(before.push(x), k) == keyed(sa.subrange(0, i), k) + keyed(
                        sb.subrange(0, j + 1),
                        k,
                    ) by {
                    lemma_keyed_push(before, x, k);
                    lemma_keyed_prefix(sb, j, k);
                    if order_key(x) == k {
                        assert((keyed(sa.subrange(0, i), k) + keyed(sb.subrange(0, j), k)).push(x)
                            =~= keyed(sa.subrange(0, i), k) + keyed(sb.subrange(0, j), k).push(
                            x,
                        ));
                    }
                }
                if j + 1 < sb.len() {
                    assert(order_key(sb[j]) <= order_key(sb[j + 1]));
                }
            }
            out.push_back(x);
            proof {
                assert(out@ == before.push(x));
                assert forall|p: int, q: int|
                    0 <= p < q < out@.len() implies order_key(#[trigger] out@[p]) <= order_key(
                    #[trigger] out@[q],
                ) by {
                    if q == out@.len() - 1 && p < before.len() - 1 {
                        assert(order_key(before[p]) <= order_key(before.last()));
                    }
                }
                j = j + 1;
                assert(b@ =~= sb.subrange(j, sb.len() as int));
            }
        }
    }
    proof {
        assert(sa.subrange(0, i) =~= sa);
        assert(sb.subrange(0, j) =~= sb);
    }
    out
}

/// Sorts a run stably by merge sort.
fn sort_run(q: VecDeque<LogMessage>) -> (r: VecDeque<LogMessage>)
    ensures
        is_ordered(r@),
        forall|k: int| #[trigger] keyed(r@, k) == keyed(q@, k),
        r@.len() == q@.len(),
    decreases q@.len(),
{
    if q.len() <= 1 {
        return q;
    }
    let mut left = q;
    let ghost whole = left@;
    let mid = left.len() / 2;
    let right = left.split_off(mid);
    let ghost (l, rt) = (left@, right@);
    let sorted_left = sort_run(left);
    let sorted_right = sort_run(right);
    let merged = merge_runs(sorted_left, sorted_right);
    proof {
        assert(l + rt =~= whole);
        assert forall|k: int| #[trigger] keyed(merged@, k) == keyed(whole, k) by {
            lemma_keyed_concat(l, rt, k);
        }
    }
    merged
}

/// Sorts records stably by time, then sequence number.
pub fn sort_logs(logs: &mut Vec<LogMessage>)
    ensures
        is_ordered(final(logs)@),
        forall|k: int| #[trigger] keyed(final(logs)@, k) == keyed(old(logs)@, k),
        final(logs)@.len() == old(logs)@.len(),
{
    let mut taken: Vec<LogMessage> = Vec::new();
    std::mem::swap(logs, &mut taken);
    let sorted = sort_run(into_queue(taken));
    *logs = into_vector(sorted);
}

/// Sorts both batches and merges them, the existing batch winning ties.
pub fn standard_merge(existing_logs: Vec<LogMessage>, new_logs: Vec<LogMessage>) -> (r: Vec<
    LogMessage,
>)
    ensures
        is_ordered_merge(existing_logs@, new_logs@, r@),
        r@.len() == existing_logs@.len() + new_logs@.len(),
{
    let sorted_existing = sort_run(into_queue(existing_logs));
    let sorted_new = sort_run(into_queue(new_logs));
    into_vector(merge_runs(sorted_existing, sorted_new))
}

/// Bytes per record assumed when admitting a merge.
pub const MERGE_BYTES_PER_LOG: usize = 256;

/// `a ≤ b` between two doubles given by their bits; false when either is
/// not-a-number.
pub open spec fn time_le(a: u64, b: u64) -> bool {
    !is_nan_bits(a) && !is_nan_bits(b) && time_rank(a) <= time_rank(b)
}

/// Both batches are non-empty and `second` starts no earlier than `first`
/// ends.
pub open spec fn follows(first: Seq<LogMessage>, second: Seq<LogMessage>) -> bool {
    &&& first.len() > 0
    &&& second.len() > 0
    &&& time_le(time_bits_of(first.last()), time_bits_of(second[0]))
}

/// How a merge proceeds.
#[derive(Debug, PartialEq, Eq, Structural, Clone, Copy)]
pub enum MergePath {
    /// One batch is empty; the other is the result.
    Trivial,
    /// The new batch follows the existing one.
    Append,
    /// The existing batch follows the new one.
    Prepend,
    /// Both batches are sorted and merged.
    General,
}

/// The path a merge of `existing` and `new` takes, cheapest first.
pub open spec fn merge_path(existing: Seq<LogMessage>, new: Seq<LogMessage>) -> MergePath {
    if existing.len() == 0 || new.len() == 0 {
        MergePath::Trivial
    } else if follows(existing, new) {
        MergePath::Append
    } else if follows(new, existing) {
        MergePath::Prepend
    } else {
        MergePath::General
    }
}

/// What a merge that takes a shortcut returns.
pub open spec fn shortcut_result(existing: Seq<LogMessage>, new: Seq<LogMessage>) -> Seq<
    LogMessage,
> {
    if new.len() == 0 {
        existing
    } else if existing.len() == 0 {
        new
    } else if follows(existing, new) {
        existing + new
    } else {
        new + existing
    }
}

/// `r` is what a successful merge of `existing` and `new` returns.
pub open spec fn is_merge_of(
    existing: Seq<LogMessage>,
    new: Seq<LogMessage>,
    r: Seq<LogMessage>,
) -> bool {
    if merge_path(existing, new) == MergePath::General {
        is_ordered_merge(existing, new, r)
    } else {
        r == shortcut_result(existing, new)
    }
}

/// Estimated bytes of a batch: the sum of its records' estimates.
pub open spec fn batch_bytes(s: Seq<LogMessage>) -> nat
    decreases s.len(),
{
    if s.len() == 0 {
        0
    } else {
        batch_bytes(s.drop_last()) + record_bytes(s.last())
    }
}

/// Bytes a merge of `count` records asks the budget for.
pub open spec fn merge_cost(count: int) -> int {
    sat_product(count, MERGE_BYTES_PER_LOG as int)
}

/// The tracker after the general path has recorded the two batches and the
/// merged result.
pub open spec fn merge_tracking(
    t: TrackerView,
    existing: Seq<LogMessage>,
    new: Seq<LogMessage>,
    now_ms: u64,
) -> TrackerView {
    let count = sat_sum(existing.len() as int, new.len() as int);
    t.after_allocation(capped(batch_bytes(existing) as int) as usize, now_ms).after_allocation(
        capped(batch_bytes(new) as int) as usize,
        now_ms,
    ).after_allocation(
        sat_product(count, vstd::layout::size_of::<LogMessage>() as int) as usize,
        now_ms,
    )
}

/// Computes `time_le` for the times of two records.
fn times_in_order(a: &LogMessage, b: &LogMessage) -> (r: bool)
    ensures
        r == time_le(time_bits_of(*a), time_bits_of(*b)),
{
    let ta: u64 = match a.unix_time_bits {
        Some(t) => t,
        None => 0,
    };
    let tb: u64 = match b.unix_time_bits {
        Some(t) => t,
        None => 0,
    };
    !is_nan_time(ta) && !is_nan_time(tb) && rank_of_time_bits(ta) <= rank_of_time_bits(tb)
}

/// Computes `follows` for two non-empty batches.
fn batch_follows(first: &Vec<LogMessage>, second: &Vec<LogMessage>) -> (r: bool)
    requires
        first@.len() > 0,
        second@.len() > 0,
    ensures
        r == follows(first@, second@),
{
    times_in_order(&first[first.len() - 1], &second[0])
}

/// Estimated bytes of a batch, capped at `usize::MAX`.
fn estimate_batch_size(logs: &Vec<LogMessage>) -> (r: usize)
    ensures
        r == capped(batch_bytes(logs@) as int),
{
    let mut total: usize = 0;
    let mut i: usize = 0;
    while i < logs.len()
        invariant
            i <= logs@.len(),
            total == capped(batch_bytes(logs@.subrange(0, i as int)) as int),
        decreases logs@.len() - i,
    {
        proof {
            assert(logs@.subrange(0, i + 1).drop_last() =~= logs@.subrange(0, i as int));
        }
        total = total.saturating_add(estimate_log_message_size(&logs[i]));
        i += 1;
    }
    proof {
        assert(logs@.subrange(0, i as int) =~= logs@);
    }
    total
}

/// Merges a new batch of records into an existing one.
///
/// The tracker starts a fresh baseline at `now_ms`. If either batch is empty
/// the other is returned; if the new batch follows the existing one, or the
/// existing one follows the new one, the two are concatenated in that order.
/// Otherwise the merge asks the budget, against a heap of `heap_bytes` and
/// through the growth primitive `grow`, for room for all records; if the
/// heap cannot be grown it fails with `InsufficientMemory` and returns
/// nothing, else it returns the ordered merge.
pub fn merge_insert_logs<G: FnOnce(usize) -> bool>(
    tracker: &mut AllocationTracker,
    existing_logs: Vec<LogMessage>,
    new_logs: Vec<LogMessage>,
    heap_bytes: usize,
    now_ms: u64,
    grow: G,
) -> (r: Result<Vec<LogMessage>, EngineError>)
    requires
        old(tracker)@.wf(),
        forall|pages: usize| grow.requires((pages,)),
    ensures
        final(tracker)@.wf(),
        r is Ok ==> r->Ok_0@.len() == existing_logs@.len() + new_logs@.len(),
        r is Ok ==> is_merge_of(existing_logs@, new_logs@, r->Ok_0@),
        merge_path(existing_logs@, new_logs@) != MergePath::General ==> {
            &&& r is Ok
            &&& final(tracker)@ == old(tracker)@.after_reset(now_ms)
        },
        merge_path(existing_logs@, new_logs@) == MergePath::General ==> {
            let t = old(tracker)@.after_reset(now_ms);
            let count = sat_sum(existing_logs@.len() as int, new_logs@.len() as int);
            let needed = merge_cost(count);
            let grows = needs_growth(heap_bytes, t.active_bytes, needed as usize);
            let pages = growth_pages(heap_bytes, t.active_bytes, needed as usize);
            match r {
                Ok(_) => {
                    &&& grows ==> grow.ensures((pages as usize,), true)
                    &&& final(tracker)@ == merge_tracking(
                        if grows {
                            t.after_growth(true, now_ms)
                        } else {
                            t
                        },
                        existing_logs@,
                        new_logs@,
                        now_ms,
                    )
                },
                Err(e) => {
                    &&& grows
                    &&& grow.ensures((pages as usize,), false)
                    &&& e == EngineError::InsufficientMemory {
                        needed_bytes: needed as usize,
                        log_count: count as usize,
                    }
                    &&& final(tracker)@ == t.after_growth(false, now_ms)
                },
            }
        },
{
    tracker.reset(now_ms);
    if new_logs.len() == 0 {
        return Ok(existing_logs);
    }
    if existing_logs.len() == 0 {
        return Ok(new_logs);
    }
    if batch_follows(&existing_logs, &new_logs) {
        let mut merged = existing_logs;
        let mut tail = new_logs;
        merged.append(&mut tail);
        return Ok(merged);
    }
    if batch_follows(&new_logs, &existing_logs) {
        let mut merged = new_logs;
        let mut tail = existing_logs;
        merged.append(&mut tail);
        return Ok(merged);
    }
    let count = existing_logs.len().saturating_add(new_logs.len());
    let needed = saturating_product(count, MERGE_BYTES_PER_LOG);
    if !ensure_sufficient_memory(tracker, heap_bytes, needed, now_ms, grow) {
        return Err(EngineError::InsufficientMemory { needed_bytes: needed, log_count: count });
    }
    let existing_size = estimate_batch_size(&existing_logs);
    tracker.track_allocation(existing_size, now_ms);
    let new_size = estimate_batch_size(&new_logs);
    tracker.track_allocation(new_size, now_ms);
    let result_size = saturating_product(count, core::mem::size_of::<LogMessage>());
    tracker.track_allocation(result_size, now_ms);
    Ok(standard_merge(existing_logs, new_logs))
}

proof fn lemma_ordered_drop_last(s: Seq<LogMessage>)
    requires
        is_ordered(s),
        s.len() > 0,
    ensures
        is_ordered(s.drop_last()),
{
    assert forall|i: int, j: int| 0 <= i < j < s.drop_last().len() implies order_key(
        #[trigger] s.drop_last()[i],
    ) <= order_key(#[trigger] s.drop_last()[j]) by {
        assert(s.drop_last()[i] == s[i] && s.drop_last()[j] == s[j]);
    }
}

/// Two ordered sequences that hold the same records under every key, in the
/// same order, are equal.
proof fn lemma_ordered_unique(r1: Seq<LogMessage>, r2: Seq<LogMessage>)
    requires
        is_ordered(r1),
        is_ordered(r2),
        forall|k: int| #[trigger] keyed(r1, k) == keyed(r2, k),
    ensures
        r1 == r2,
    decreases r1.len() + r2.len(),
{
    if r1.len() == 0 && r2.len() == 0 {
        assert(r1 =~= r2);
    } else if r1.len() == 0 {
        let k = order_key(r2.last());
        assert(keyed(r2, k).len() > 0);
        lemma_keyed_absent(r1, k);
        assert(keyed(r1, k) == keyed(r2, k));
    } else if r2.len() == 0 {
        let k = order_key(r1.last());
        assert(keyed(r1, k).len() > 0);
        lemma_keyed_absent(r2, k);
        assert(keyed(r1, k) == keyed(r2, k));
    } else {
        let x1 = r1.last();
        let x2 = r2.last();
        let k1 = order_key(x1);
        let k2 = order_key(x2);
        assert(keyed(r1, k1).len() > 0);
        assert(keyed(r2, k2).len() > 0);
        if k1 > k2 {
            assert forall|i: int| 0 <= i < r2.len() implies order_key(#[trigger] r2[i]) != k1 by {
                if i < r2.len() - 1 {
                    assert(order_key(r2[i]) <= order_key(r2[r2.len() - 1]));
                }
            }
            lemma_keyed_absent(r2, k1);
            assert(keyed(r1, k1) == keyed(r2, k1));
        }
        if k2 > k1 {
            assert forall|i: int| 0 <= i < r1.len() implies order_key(#[trigger] r1[i]) != k2 by {
                if i < r1.len() - 1 {
                    assert(order_key(r1[i]) <= order_key(r1[r1.len() - 1]));
                }
            }
            lemma_keyed_absent(r1, k2);
            assert(keyed(r1, k2) == keyed(r2, k2));
        }
        assert(k1 == k2);
        assert(keyed(r1, k1) == keyed(r2, k1));
        assert(keyed(r1, k1).last() == x1);
        assert(keyed(r2, k1).last() == x2);
        assert forall|k: int| #[trigger]
            keyed(r1.drop_last(), k) == keyed(r2.drop_last(), k) by {
            assert(keyed(r1, k) == keyed(r2, k));
            if k == k1 {
                assert(keyed(r1.drop_last(), k) =~= keyed(r1, k).drop_last());
                assert(keyed(r2.drop_last(), k) =~= keyed(r2, k).drop_last());
            }
        }
        lemma_ordered_drop_last(r1);
        lemma_ordered_drop_last(r2);
        lemma_ordered_unique(r1.drop_last(), r2.drop_last());
        assert(r1 =~= r1.drop_last().push(x1));
        assert(r2 =~= r2.drop_last().push(x2));
    }
}

/// A merge returns its records in order whenever any shortcut it takes
/// returns them in order: an empty batch beside an ordered one, or batches
/// whose concatenation in the chosen order is ordered.
pub proof fn lemma_merge_is_ordered(
    existing: Seq<LogMessage>,
    new: Seq<LogMessage>,
    r: Seq<LogMessage>,
)
    requires
        is_merge_of(existing, new, r),
        new.len() == 0 ==> is_ordered(existing),
        existing.len() == 0 ==> is_ordered(new),
        follows(existing, new) ==> is_ordered(existing + new),
        follows(new, existing) && !follows(existing, new) ==> is_ordered(new + existing),
    ensures
        is_ordered(r),
{
}

/// Where the new batch follows the existing one and the two together are
/// already in order, the general path returns exactly their concatenation,
/// which is what the append shortcut returns.
pub proof fn lemma_append_matches_general(
    existing: Seq<LogMessage>,
    new: Seq<LogMessage>,
    general: Seq<LogMessage>,
)
    requires
        follows(existing, new),
        is_ordered(existing + new),
        is_ordered_merge(existing, new, general),
    ensures
        general == existing + new,
        general == shortcut_result(existing, new),
{
    assert forall|k: int| #[trigger] keyed(general, k) == keyed(existing + new, k) by {
        lemma_keyed_concat(existing, new, k);
    }
    lemma_ordered_unique(general, existing + new);
}

} // verus!
