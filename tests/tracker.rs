use log_engine::{AllocationTracker, GrowthTrend};

#[test]
fn tracker_starts_empty() {
    let tracker = AllocationTracker::new();
    let stats = tracker.get_stats(0);
    assert_eq!(stats.active_bytes, 0);
    assert_eq!(stats.peak_bytes, 0);
    assert_eq!(stats.allocation_count, 0);
    assert_eq!(stats.allocation_rate, 0);
    assert_eq!(tracker.growth_trend(), GrowthTrend { rise: 0, run: 1 });
}

#[test]
fn tracker_running_average() {
    let mut tracker = AllocationTracker::new();
    tracker.track_allocation(100, 0);
    assert_eq!(tracker.get_stats(0).average_allocation, 100);
    tracker.track_allocation(300, 0);
    assert_eq!(tracker.get_stats(0).average_allocation, 200);
    tracker.track_allocation(0, 0);
    assert_eq!(tracker.get_stats(0).average_allocation, 133);
}

#[test]
fn tracker_peak_survives_deallocation() {
    let mut tracker = AllocationTracker::new();
    tracker.track_allocation(100, 0);
    tracker.track_deallocation(50);
    tracker.track_allocation(20, 0);
    let stats = tracker.get_stats(0);
    assert_eq!(stats.active_bytes, 70);
    assert_eq!(stats.peak_bytes, 100);
    assert_eq!(stats.allocation_count, 2);
}

#[test]
fn tracker_deallocation_floors_at_zero() {
    let mut tracker = AllocationTracker::new();
    tracker.track_allocation(10, 0);
    tracker.track_deallocation(25);
    assert_eq!(tracker.active_bytes(), 0);
}

#[test]
fn tracker_reset_keeps_peak_and_history() {
    let mut tracker = AllocationTracker::new();
    tracker.track_allocation(100, 0);
    tracker.track_allocation(200, 0);
    tracker.reset(40);
    let stats = tracker.get_stats(100);
    assert_eq!(stats.active_bytes, 0);
    assert_eq!(stats.allocation_count, 0);
    assert_eq!(stats.peak_bytes, 300);
    assert_eq!(stats.reset_count, 1);
    assert_eq!(stats.time_since_last_reset, 60);
    assert_eq!(tracker.growth_trend(), GrowthTrend { rise: 100, run: 1 });
}

#[test]
fn tracker_allocation_rate_moving_average() {
    let mut tracker = AllocationTracker::new();
    tracker.track_allocation(1000, 0);
    assert_eq!(tracker.get_stats(0).allocation_rate, 0);
    tracker.track_allocation(1000, 1000);
    assert_eq!(tracker.get_stats(0).allocation_rate, 300);
    tracker.track_allocation(2000, 2000);
    assert_eq!(tracker.get_stats(0).allocation_rate, 810);
    tracker.track_allocation(5000, 2000);
    assert_eq!(tracker.get_stats(0).allocation_rate, 810);
}

#[test]
fn tracker_growth_trend_of_rising_sizes() {
    let mut tracker = AllocationTracker::new();
    tracker.track_allocation(100, 0);
    tracker.track_allocation(200, 0);
    tracker.track_allocation(300, 0);
    assert_eq!(tracker.growth_trend(), GrowthTrend { rise: 600, run: 6 });
}

#[test]
fn tracker_growth_trend_skips_empty_slots() {
    let mut tracker = AllocationTracker::new();
    tracker.track_allocation(100, 0);
    tracker.track_allocation(0, 0);
    tracker.track_allocation(300, 0);
    assert_eq!(tracker.growth_trend(), GrowthTrend { rise: 400, run: 4 });
}

#[test]
fn tracker_history_wraps_around() {
    let mut tracker = AllocationTracker::new();
    for _ in 0..10 {
        tracker.track_allocation(5, 0);
    }
    tracker.track_allocation(50, 0);
    assert_eq!(tracker.growth_trend(), GrowthTrend { rise: -2025, run: 825 });
}

#[test]
fn tracker_stats_before_reset_time() {
    let mut tracker = AllocationTracker::new();
    tracker.reset(500);
    tracker.record_growth(true, 700);
    let stats = tracker.get_stats(100);
    assert_eq!(stats.time_since_last_reset, 0);
    assert_eq!(stats.time_since_last_growth, 0);
    assert_eq!(stats.growth_events, 1);
}

#[test]
fn tracker_operation_fit_needs_a_fifth_more() {
    let mut tracker = AllocationTracker::new();
    tracker.track_allocation(400, 0);
    assert!(tracker.would_operation_fit(500, 1000));
    assert!(!tracker.would_operation_fit(501, 1000));
    assert!(tracker.would_operation_fit(0, 400));
    assert!(!tracker.would_operation_fit(0, 399));
}
