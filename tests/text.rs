use log_engine::{contains_text_simd, display_time_of};

#[test]
fn contains_finds_substring() {
    assert!(contains_text_simd("hello world", "lo w"));
    assert!(!contains_text_simd("hello world", "low"));
}

#[test]
fn contains_empty_needle() {
    assert!(contains_text_simd("abc", ""));
    assert!(contains_text_simd("", ""));
}

#[test]
fn contains_longer_needle() {
    assert!(!contains_text_simd("abc", "abcd"));
}

#[test]
fn contains_non_ascii() {
    assert!(contains_text_simd("héllo", "él"));
    assert!(!contains_text_simd("héllo", "el"));
}

#[test]
fn display_time_keeps_clock_text() {
    assert_eq!(display_time_of("19:08:10"), Some("19:08:10".to_string()));
}

#[test]
fn display_time_from_iso_with_fraction() {
    assert_eq!(display_time_of("2024-05-01T12:34:56.789Z"), Some("12:34:56".to_string()));
}

#[test]
fn display_time_from_iso_with_offset() {
    assert_eq!(display_time_of("2024-05-01T12:34:56+02:00"), Some("12:34:56".to_string()));
}

#[test]
fn display_time_from_iso_with_zone_letter() {
    assert_eq!(display_time_of("2024-05-01T07:00:01Z"), Some("07:00:01".to_string()));
}

#[test]
fn display_time_needs_host_for_short_time() {
    assert_eq!(display_time_of("2024-05-01T12:34"), None);
}

#[test]
fn display_time_needs_host_without_separator() {
    assert_eq!(display_time_of("May 1 2024 12:34:56"), None);
    assert_eq!(display_time_of("12:34:5"), None);
}
