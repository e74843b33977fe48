use log_engine::{
    display_level, display_message, display_sequence, estimate_log_message_size, ExtraValue,
    LogMessage,
};

fn bare() -> LogMessage {
    LogMessage {
        level: None,
        message: None,
        time: None,
        behavior: None,
        sequence: None,
        unix_time_bits: None,
        original_time: None,
        visible: None,
        height_bits: None,
        extra_fields: Vec::new(),
    }
}

#[test]
fn estimate_counts_texts_and_extras() {
    let mut r = bare();
    r.level = Some("info".to_string());
    r.message = Some("héllo".to_string());
    r.original_time = Some("t0".to_string());
    r.extra_fields.push(("k".to_string(), ExtraValue::Text("vv".to_string())));
    r.extra_fields.push(("j".to_string(), ExtraValue::Json(serde_json::Value::Null)));
    let expected = std::mem::size_of::<LogMessage>()
        + 4
        + 6
        + 2
        + 1
        + 2
        + 1
        + std::mem::size_of::<serde_json::Value>();
    assert_eq!(estimate_log_message_size(&r), expected);
}

#[test]
fn estimate_of_bare_record_is_its_size() {
    assert_eq!(estimate_log_message_size(&bare()), std::mem::size_of::<LogMessage>());
}

#[test]
fn display_defaults() {
    let r = bare();
    assert_eq!(display_level(&r), "info");
    assert_eq!(display_message(&r), "");
    assert_eq!(display_sequence(&r, 7), 7);
}

#[test]
fn display_own_values() {
    let mut r = bare();
    r.level = Some("warn".to_string());
    r.message = Some("disk full".to_string());
    r.sequence = Some(42);
    assert_eq!(display_level(&r), "warn");
    assert_eq!(display_message(&r), "disk full");
    assert_eq!(display_sequence(&r, 7), 42);
}
