use log_engine::{
    find_log_at_scroll_position, recalculate_positions, AllocationTracker, EngineError,
    LogMessage,
};
use std::collections::HashMap;

const HEAP: usize = 64 * 1024 * 1024;

fn row(sequence: Option<u32>) -> LogMessage {
    LogMessage {
        level: None,
        message: None,
        time: None,
        behavior: None,
        sequence,
        unix_time_bits: None,
        original_time: None,
        visible: None,
        height_bits: None,
        extra_fields: Vec::new(),
    }
}

fn rows(n: u32) -> Vec<LogMessage> {
    (1..=n).map(|s| row(Some(s))).collect()
}

fn offsets(index: &HashMap<u32, i64>, n: u32) -> Vec<i64> {
    (1..=n).map(|s| index[&s]).collect()
}

#[test]
fn recalculate_five_default_rows() {
    let mut tracker = AllocationTracker::new();
    let index = recalculate_positions(&mut tracker, &rows(5), &HashMap::new(), 2500, 200, 0);
    assert_eq!(offsets(&index.positions, 5), vec![0, 2700, 5400, 8100, 10800]);
    assert_eq!(index.total_height, 13500);
}

#[test]
fn find_offset_inside_third_row() {
    let mut tracker = AllocationTracker::new();
    let logs = rows(5);
    let index = recalculate_positions(&mut tracker, &logs, &HashMap::new(), 2500, 200, 0);
    let found = find_log_at_scroll_position(
        &mut tracker, HEAP, &logs, &index.positions, &HashMap::new(), 6400, 2500, 200, None, 0,
    );
    assert_eq!(found, Ok(2));
}

#[test]
fn recalculate_twice_gives_same_index() {
    let mut tracker = AllocationTracker::new();
    let logs = rows(4);
    let mut heights = HashMap::new();
    heights.insert(2u32, 4100i32);
    let first = recalculate_positions(&mut tracker, &logs, &heights, 2500, 200, 0);
    tracker.track_allocation(12345, 3);
    let second = recalculate_positions(&mut tracker, &logs, &heights, 2500, 200, 9);
    assert_eq!(first.positions, second.positions);
    assert_eq!(first.total_height, second.total_height);
}

#[test]
fn recalculate_clamps_small_default_height() {
    let mut tracker = AllocationTracker::new();
    let index = recalculate_positions(&mut tracker, &rows(3), &HashMap::new(), 500, 100, 0);
    assert_eq!(offsets(&index.positions, 3), vec![0, 2000, 4000]);
    assert_eq!(index.total_height, 6000);
}

#[test]
fn recalculate_clamps_large_default_height() {
    let mut tracker = AllocationTracker::new();
    let index = recalculate_positions(&mut tracker, &rows(2), &HashMap::new(), 20000, 0, 0);
    assert_eq!(offsets(&index.positions, 2), vec![0, 10000]);
    assert_eq!(index.total_height, 20000);
}

#[test]
fn recalculate_uses_known_heights() {
    let mut tracker = AllocationTracker::new();
    let mut heights = HashMap::new();
    heights.insert(2u32, 5000i32);
    let index = recalculate_positions(&mut tracker, &rows(3), &heights, 2500, 200, 0);
    assert_eq!(offsets(&index.positions, 3), vec![0, 2700, 7700]);
    assert_eq!(index.total_height, 10400);
}

#[test]
fn recalculate_replaces_non_positive_height() {
    let mut tracker = AllocationTracker::new();
    let mut heights = HashMap::new();
    heights.insert(1u32, -5i32);
    heights.insert(2u32, 0i32);
    let index = recalculate_positions(&mut tracker, &rows(3), &heights, 3000, 0, 0);
    assert_eq!(offsets(&index.positions, 3), vec![0, 3000, 6000]);
    let low_average = recalculate_positions(&mut tracker, &rows(3), &heights, 1000, 0, 0);
    assert_eq!(offsets(&low_average.positions, 3), vec![0, 2000, 4000]);
}

#[test]
fn recalculate_duplicate_sequence_keeps_lower_row() {
    let mut tracker = AllocationTracker::new();
    let logs = vec![row(Some(7)), row(Some(7))];
    let index = recalculate_positions(&mut tracker, &logs, &HashMap::new(), 2500, 200, 0);
    assert_eq!(index.positions.len(), 1);
    assert_eq!(index.positions[&7], 2700);
    assert_eq!(index.total_height, 5400);
}

#[test]
fn recalculate_absent_sequence_is_zero() {
    let mut tracker = AllocationTracker::new();
    let index = recalculate_positions(&mut tracker, &vec![row(None)], &HashMap::new(), 2500, 0, 0);
    assert_eq!(index.positions[&0], 0);
}

#[test]
fn recalculate_empty_list() {
    let mut tracker = AllocationTracker::new();
    let index = recalculate_positions(&mut tracker, &Vec::new(), &HashMap::new(), 2500, 200, 0);
    assert!(index.positions.is_empty());
    assert_eq!(index.total_height, 0);
}

#[test]
fn recalculate_resets_and_tracks() {
    let mut tracker = AllocationTracker::new();
    tracker.track_allocation(999, 0);
    recalculate_positions(&mut tracker, &rows(2), &HashMap::new(), 2500, 200, 50);
    let stats = tracker.get_stats(50);
    assert_eq!(stats.allocation_count, 3);
    assert_eq!(
        stats.active_bytes,
        2 * std::mem::size_of::<LogMessage>() + 2 * std::mem::size_of::<(u32, i64)>()
    );
    assert_eq!(stats.time_since_last_reset, 0);
}

fn spaced_layout() -> (Vec<LogMessage>, HashMap<u32, i64>, HashMap<u32, i32>) {
    let logs = rows(3);
    let positions: HashMap<u32, i64> = [(1, 1000), (2, 2000), (3, 3000)].into_iter().collect();
    let heights: HashMap<u32, i32> = [(1, 500), (2, 500), (3, 500)].into_iter().collect();
    (logs, positions, heights)
}

#[test]
fn find_negative_scroll_uses_absolute_value() {
    let mut tracker = AllocationTracker::new();
    let logs = rows(5);
    let index = recalculate_positions(&mut tracker, &logs, &HashMap::new(), 2500, 200, 0);
    let found = find_log_at_scroll_position(
        &mut tracker, HEAP, &logs, &index.positions, &HashMap::new(), -6400, 2500, 200, None, 0,
    );
    assert_eq!(found, Ok(2));
}

#[test]
fn find_adds_window_offset() {
    let mut tracker = AllocationTracker::new();
    let logs = rows(5);
    let index = recalculate_positions(&mut tracker, &logs, &HashMap::new(), 2500, 200, 0);
    let found = find_log_at_scroll_position(
        &mut tracker, HEAP, &logs, &index.positions, &HashMap::new(), 6400, 2500, 200, Some(10), 0,
    );
    assert_eq!(found, Ok(12));
}

#[test]
fn find_empty_list_is_zero() {
    let mut tracker = AllocationTracker::new();
    let found = find_log_at_scroll_position(
        &mut tracker, HEAP, &Vec::new(), &HashMap::new(), &HashMap::new(), 500, 2500, 200, Some(4), 0,
    );
    assert_eq!(found, Ok(0));
}

#[test]
fn find_past_the_end_gives_last_row() {
    let mut tracker = AllocationTracker::new();
    let logs = rows(5);
    let index = recalculate_positions(&mut tracker, &logs, &HashMap::new(), 2500, 200, 0);
    let found = find_log_at_scroll_position(
        &mut tracker, HEAP, &logs, &index.positions, &HashMap::new(), 1_000_000, 2500, 200, None, 0,
    );
    assert_eq!(found, Ok(4));
}

#[test]
fn find_in_gap_gives_next_row() {
    let mut tracker = AllocationTracker::new();
    let (logs, positions, heights) = spaced_layout();
    let found = find_log_at_scroll_position(
        &mut tracker, HEAP, &logs, &positions, &heights, 1700, 2500, 200, None, 0,
    );
    assert_eq!(found, Ok(1));
}

#[test]
fn find_above_first_row_gives_first_row() {
    let mut tracker = AllocationTracker::new();
    let (logs, positions, heights) = spaced_layout();
    let found = find_log_at_scroll_position(
        &mut tracker, HEAP, &logs, &positions, &heights, 0, 2500, 200, None, 0,
    );
    assert_eq!(found, Ok(0));
}

#[test]
fn find_estimates_missing_positions() {
    let mut tracker = AllocationTracker::new();
    let logs = rows(4);
    let found = find_log_at_scroll_position(
        &mut tracker, HEAP, &logs, &HashMap::new(), &HashMap::new(), 3000, 1000, 0, None, 0,
    );
    assert_eq!(found, Ok(3));
}

#[test]
fn find_refuses_under_memory_pressure() {
    let mut tracker = AllocationTracker::new();
    tracker.track_allocation(1000, 0);
    let logs = rows(2);
    let found = find_log_at_scroll_position(
        &mut tracker, 1000, &logs, &HashMap::new(), &HashMap::new(), 0, 2500, 200, None, 0,
    );
    assert_eq!(found, Err(EngineError::MemoryPressure));
}

#[test]
fn find_refuses_when_heap_unknown() {
    let mut tracker = AllocationTracker::new();
    let found = find_log_at_scroll_position(
        &mut tracker, 0, &rows(2), &HashMap::new(), &HashMap::new(), 0, 2500, 200, None, 0,
    );
    assert_eq!(found, Err(EngineError::MemoryPressure));
}

#[test]
fn find_in_rebuilt_index_with_known_heights() {
    let mut tracker = AllocationTracker::new();
    let logs = rows(3);
    let heights: HashMap<u32, i32> = [(1, 2000), (2, 4100), (3, 3000)].into_iter().collect();
    let index = recalculate_positions(&mut tracker, &logs, &heights, 2500, 200, 0);
    assert_eq!(offsets(&index.positions, 3), vec![0, 2000, 6100]);
    assert_eq!(index.total_height, 9100);
    let expected = [(0, 0), (1999, 0), (2000, 1), (6099, 1), (6100, 2), (9099, 2)];
    for (offset, row) in expected {
        let found = find_log_at_scroll_position(
            &mut tracker, HEAP, &logs, &index.positions, &heights, offset, 2500, 200, None, 0,
        );
        assert_eq!(found, Ok(row));
    }
}
