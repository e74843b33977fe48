use log_engine::{
    merge_insert_logs, sort_logs, standard_merge, AllocationTracker, EngineError, ExtraValue,
    LogMessage,
};

fn record(time: Option<f64>, sequence: u32) -> LogMessage {
    LogMessage {
        level: None,
        message: None,
        time: None,
        behavior: None,
        sequence: Some(sequence),
        unix_time_bits: time.map(f64::to_bits),
        original_time: None,
        visible: None,
        height_bits: None,
        extra_fields: Vec::new(),
    }
}

fn at(time: f64, sequence: u32) -> LogMessage {
    record(Some(time), sequence)
}

fn tagged(time: f64, sequence: u32, tag: &str) -> LogMessage {
    let mut r = at(time, sequence);
    r.extra_fields.push(("origin".to_string(), ExtraValue::Text(tag.to_string())));
    r
}

fn sequences(logs: &[LogMessage]) -> Vec<u32> {
    logs.iter().map(|r| r.sequence.unwrap()).collect()
}

fn scrambled_batches() -> (Vec<LogMessage>, Vec<LogMessage>) {
    let mut existing: Vec<LogMessage> = (0..40).map(|i| at(((i * 7 + 3) % 13) as f64, i)).collect();
    existing.push(at(12.5, 999));
    let mut new: Vec<LogMessage> = (0..25).map(|i| at(((i * 5 + 1) % 11) as f64, 100 + i)).collect();
    new.push(at(20.0, 998));
    (existing, new)
}

fn merge_with_room(existing: Vec<LogMessage>, new: Vec<LogMessage>) -> Vec<LogMessage> {
    let mut tracker = AllocationTracker::new();
    merge_insert_logs(&mut tracker, existing, new, 64 * 1024 * 1024, 1_000, |_| true).unwrap()
}

#[test]
fn merge_tie_broken_by_sequence() {
    let existing = vec![at(1.0, 1), at(2.0, 2)];
    let new = vec![at(2.0, 3), at(3.0, 4)];
    let merged = merge_with_room(existing, new);
    assert_eq!(sequences(&merged), vec![1, 2, 3, 4]);
}

#[test]
fn merge_general_path_interleaves() {
    let existing = vec![at(1.0, 1), at(3.0, 2)];
    let new = vec![at(2.0, 3), at(4.0, 4)];
    let merged = merge_with_room(existing, new);
    assert_eq!(sequences(&merged), vec![1, 3, 2, 4]);
}

#[test]
fn merge_general_path_sorts_each_batch() {
    let existing = vec![at(1.0, 1), at(5.0, 2), at(3.0, 3)];
    let new = vec![at(2.0, 4), at(0.0, 6), at(6.0, 5)];
    let merged = merge_with_room(existing, new);
    assert_eq!(sequences(&merged), vec![6, 1, 4, 3, 2, 5]);
}

#[test]
fn merge_empty_new_returns_existing_unchanged() {
    let existing = vec![at(5.0, 1), at(1.0, 2)];
    let merged = merge_with_room(existing, Vec::new());
    assert_eq!(sequences(&merged), vec![1, 2]);
}

#[test]
fn merge_empty_existing_returns_new_unchanged() {
    let new = vec![at(9.0, 7), at(3.0, 8)];
    let merged = merge_with_room(Vec::new(), new);
    assert_eq!(sequences(&merged), vec![7, 8]);
}

#[test]
fn merge_both_empty() {
    let merged = merge_with_room(Vec::new(), Vec::new());
    assert!(merged.is_empty());
}

#[test]
fn merge_prepend_puts_new_first() {
    let existing = vec![at(5.0, 1), at(6.0, 2)];
    let new = vec![at(1.0, 3), at(2.0, 4)];
    let merged = merge_with_room(existing, new);
    assert_eq!(sequences(&merged), vec![3, 4, 1, 2]);
}

#[test]
fn merge_append_keeps_boundary_tie_as_given() {
    let existing = vec![at(1.0, 1), at(2.0, 9)];
    let new = vec![at(2.0, 3)];
    let merged = merge_with_room(existing, new);
    assert_eq!(sequences(&merged), vec![1, 9, 3]);
}

#[test]
fn merge_equal_keys_keep_existing_first() {
    let existing = vec![tagged(1.0, 5, "existing"), tagged(3.0, 6, "existing")];
    let new = vec![tagged(1.0, 5, "new"), tagged(2.0, 7, "new")];
    let merged = merge_with_room(existing, new);
    assert_eq!(sequences(&merged), vec![5, 5, 7, 6]);
    assert_eq!(merged[0].extra_fields[0].1, ExtraValue::Text("existing".to_string()));
    assert_eq!(merged[1].extra_fields[0].1, ExtraValue::Text("new".to_string()));
}

#[test]
fn merge_not_a_number_sorts_first() {
    let existing = vec![at(1.0, 1), at(3.0, 2)];
    let new = vec![at(2.0, 3), at(f64::NAN, 4)];
    let merged = merge_with_room(existing, new);
    assert_eq!(sequences(&merged), vec![4, 1, 3, 2]);
}

#[test]
fn merge_absent_time_counts_as_zero() {
    let existing = vec![at(-3.0, 2), at(1.0, 1)];
    let new = vec![record(None, 3), at(-1.0, 4)];
    let merged = merge_with_room(existing, new);
    assert_eq!(sequences(&merged), vec![2, 4, 3, 1]);
}

#[test]
fn merge_negative_zero_ties_with_zero() {
    let existing = vec![at(-0.0, 1), at(5.0, 9)];
    let new = vec![at(0.0, 0), at(6.0, 8)];
    let merged = merge_with_room(existing, new);
    assert_eq!(sequences(&merged), vec![0, 1, 9, 8]);
}

#[test]
fn merge_length_is_sum_of_inputs() {
    let (existing, new) = scrambled_batches();
    let merged = merge_with_room(existing, new);
    assert_eq!(merged.len(), 67);
}

#[test]
fn merge_output_is_ordered() {
    let (existing, new) = scrambled_batches();
    let merged = merge_with_room(existing, new);
    for pair in merged.windows(2) {
        let a = (f64::from_bits(pair[0].unix_time_bits.unwrap()), pair[0].sequence.unwrap());
        let b = (f64::from_bits(pair[1].unix_time_bits.unwrap()), pair[1].sequence.unwrap());
        assert!(a.0 < b.0 || (a.0 == b.0 && a.1 <= b.1));
    }
}

#[test]
fn merge_append_equals_general_path() {
    let existing = vec![at(1.0, 1), at(2.0, 2)];
    let new = vec![at(2.0, 3), at(3.0, 4)];
    let general = standard_merge(vec![at(1.0, 1), at(2.0, 2)], vec![at(2.0, 3), at(3.0, 4)]);
    let shortcut = merge_with_room(existing, new);
    assert_eq!(shortcut, general);
}

#[test]
fn merge_fails_when_heap_cannot_grow() {
    let mut tracker = AllocationTracker::new();
    let existing = vec![at(1.0, 1), at(3.0, 2)];
    let new = vec![at(2.0, 3), at(4.0, 4)];
    let result = merge_insert_logs(&mut tracker, existing, new, 100, 5, |_| false);
    assert_eq!(
        result,
        Err(EngineError::InsufficientMemory { needed_bytes: 1024, log_count: 4 })
    );
    assert_eq!(tracker.get_stats(5).growth_failures, 1);
}

#[test]
fn merge_grows_heap_when_short() {
    let mut tracker = AllocationTracker::new();
    let mut asked: Option<usize> = None;
    let existing = vec![at(1.0, 1), at(3.0, 2)];
    let new = vec![at(2.0, 3), at(4.0, 4)];
    let result = merge_insert_logs(&mut tracker, existing, new, 100, 5, |pages| {
        asked = Some(pages);
        true
    });
    assert_eq!(sequences(&result.unwrap()), vec![1, 3, 2, 4]);
    assert_eq!(asked, Some(33));
    assert_eq!(tracker.get_stats(5).growth_events, 1);
}

#[test]
fn merge_shortcut_never_asks_for_memory() {
    let mut tracker = AllocationTracker::new();
    let result = merge_insert_logs(
        &mut tracker,
        vec![at(1.0, 1)],
        vec![at(2.0, 2)],
        0,
        5,
        |_| panic!("no growth is needed for a shortcut"),
    );
    assert_eq!(sequences(&result.unwrap()), vec![1, 2]);
    assert_eq!(tracker.get_stats(5).allocation_count, 0);
}

#[test]
fn merge_tracks_batches_and_result() {
    let mut tracker = AllocationTracker::new();
    tracker.track_allocation(500, 0);
    let existing = vec![at(1.0, 1), at(3.0, 2)];
    let new = vec![at(2.0, 3)];
    merge_insert_logs(&mut tracker, existing, new, 64 * 1024 * 1024, 7, |_| true).unwrap();
    let stats = tracker.get_stats(7);
    let record_size = std::mem::size_of::<LogMessage>();
    assert_eq!(stats.allocation_count, 3);
    assert_eq!(stats.active_bytes, 2 * record_size + record_size + 3 * record_size);
    assert_eq!(stats.reset_count, 1);
}

#[test]
fn sort_logs_is_stable() {
    let mut logs = vec![
        tagged(2.0, 1, "a"),
        tagged(1.0, 1, "b"),
        tagged(2.0, 1, "c"),
        tagged(1.0, 0, "d"),
    ];
    sort_logs(&mut logs);
    let tags: Vec<String> = logs
        .iter()
        .map(|r| match &r.extra_fields[0].1 {
            ExtraValue::Text(t) => t.clone(),
            ExtraValue::Json(_) => String::new(),
        })
        .collect();
    assert_eq!(tags, vec!["d", "b", "a", "c"]);
}
