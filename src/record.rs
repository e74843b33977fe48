//! Log records and the total order in which the engine arranges them.
use vstd::prelude::*;

verus! {

/// Declares `serde_json::Value` so that a record can carry structured
/// attributes it does not interpret.
#[verifier::external_type_specification]
#[verifier::external_body]
pub struct ExJsonValue(serde_json::Value);

/// The value of an attribute that the engine does not interpret.
#[derive(Debug, PartialEq)]
pub enum ExtraValue {
    /// A string value; its length counts toward the size estimate.
    Text(String),
    /// Any other value, carried through unchanged.
    Json(serde_json::Value),
}

/// One log line.
///
/// `unix_time_bits` and `height_bits` hold the IEEE-754 bit patterns of the
/// host's floating-point values: seconds since the epoch and the last rendered
/// height in pixels. The engine orders by the first and carries the second.
#[derive(Debug, PartialEq)]
pub struct LogMessage {
    pub level: Option<String>,
    pub message: Option<String>,
    pub time: Option<String>,
    pub behavior: Option<String>,
    pub sequence: Option<u32>,
    pub unix_time_bits: Option<u64>,
    pub original_time: Option<String>,
    pub visible: Option<bool>,
    pub height_bits: Option<u64>,
    /// Further named attributes, in the order the host supplied them.
    pub extra_fields: Vec<(String, ExtraValue)>,
}

/// Bit of a double that holds its sign.
pub const SIGN_BIT: u64 = 0x8000_0000_0000_0000;

/// Magnitude bits of positive infinity; larger magnitudes are not-a-number.
pub const INFINITY_BITS: u64 = 0x7FF0_0000_0000_0000;

/// Rank given to a not-a-number time: below every well-formed time.
pub const NAN_RANK: i64 = -0x8000_0000_0000_0000;

/// Distance between consecutive time ranks in an order key, so that the
/// sequence number breaks ties without ever outweighing the time.
pub const SEQUENCE_SPAN: i128 = 0x1_0000_0000;

/// Whether the bit pattern is a not-a-number double.
pub open spec fn is_nan_bits(bits: u64) -> bool {
    bits % SIGN_BIT > INFINITY_BITS
}

/// The rank of a double given by its bits: not-a-number ranks below every
/// other value; otherwise ranks are ordered as the values are, and the two
/// zeros share rank 0.
pub open spec fn time_rank(bits: u64) -> int {
    let magnitude = bits % SIGN_BIT;
    if magnitude > INFINITY_BITS {
        NAN_RANK as int
    } else if bits >= SIGN_BIT {
        -(magnitude as int)
    } else {
        magnitude as int
    }
}

/// The time a record is ordered by; an absent time counts as zero.
pub open spec fn time_bits_of(r: LogMessage) -> u64 {
    match r.unix_time_bits {
        Some(bits) => bits,
        None => 0,
    }
}

/// The sequence number a record is ordered by; an absent one counts as zero.
pub open spec fn sequence_of(r: LogMessage) -> u32 {
    match r.sequence {
        Some(s) => s,
        None => 0,
    }
}

/// The record's place in the total order: time first, sequence number second.
pub open spec fn order_key(r: LogMessage) -> int {
    time_rank(time_bits_of(r)) * SEQUENCE_SPAN + sequence_of(r)
}

/// Computes `is_nan_bits`.
pub fn is_nan_time(bits: u64) -> (r: bool)
    ensures
        r == is_nan_bits(bits),
{
    bits % SIGN_BIT > INFINITY_BITS
}

/// Computes `time_rank` of a bit pattern.
pub fn rank_of_time_bits(bits: u64) -> (r: i64)
    ensures
        r == time_rank(bits),
{
    let magnitude = bits % SIGN_BIT;
    if magnitude > INFINITY_BITS {
        NAN_RANK
    } else if bits >= SIGN_BIT {
        -(magnitude as i64)
    } else {
        magnitude as i64
    }
}

/// Computes the order key of a record.
pub fn order_key_of(r: &LogMessage) -> (k: i128)
    ensures
        k == order_key(*r),
{
    let bits: u64 = match r.unix_time_bits {
        Some(b) => b,
        None => 0,
    };
    let sequence: u32 = match r.sequence {
        Some(s) => s,
        None => 0,
    };
    let rank = rank_of_time_bits(bits);
    (rank as i128) * SEQUENCE_SPAN + sequence as i128
}

/// Bytes of a text in UTF-8, as a machine word.
pub open spec fn utf8_len(s: Seq<char>) -> nat {
    vstd::utf8::encode_utf8(s).len() as usize as nat
}

/// Bytes of an optional text; none when absent.
pub open spec fn text_bytes(s: Option<String>) -> nat {
    match s {
        Some(t) => utf8_len(t@),
        None => 0,
    }
}

/// Bytes attributed to an extra attribute: its name, and its text or the
/// size of a structured value.
pub open spec fn extra_bytes(field: (String, ExtraValue)) -> nat {
    utf8_len(field.0@) + match field.1 {
        ExtraValue::Text(t) => utf8_len(t@),
        ExtraValue::Json(_) => vstd::layout::size_of::<serde_json::Value>(),
    }
}

/// Total bytes of the extra attributes `fields[..n]`.
pub open spec fn extras_bytes(fields: Seq<(String, ExtraValue)>, n: int) -> nat
    decreases n,
{
    if n <= 0 {
        0
    } else {
        extras_bytes(fields, n - 1) + extra_bytes(fields[n - 1])
    }
}

/// Estimated footprint of a record: its fixed size, its texts, and its extra
/// attributes.
pub open spec fn record_bytes(r: LogMessage) -> nat {
    vstd::layout::size_of::<LogMessage>() + text_bytes(r.level) + text_bytes(r.message)
        + text_bytes(r.time) + text_bytes(r.behavior) + text_bytes(r.original_time)
        + extras_bytes(r.extra_fields@, r.extra_fields@.len() as int)
}

/// `x`, or `usize::MAX` where that is smaller.
pub open spec fn capped(x: int) -> int {
    if x <= usize::MAX {
        x
    } else {
        usize::MAX as int
    }
}

/// Bytes of an optional text, computed.
fn text_len(s: &Option<String>) -> (r: usize)
    ensures
        r == text_bytes(*s),
{
    match s {
        Some(t) => t.as_str().len(),
        None => 0,
    }
}

/// Estimates the footprint of a record, capped at `usize::MAX`.
pub fn estimate_log_message_size(log_msg: &LogMessage) -> (r: usize)
    ensures
        r == capped(record_bytes(*log_msg) as int),
{
    let mut total: usize = core::mem::size_of::<LogMessage>();
    total = total.saturating_add(text_len(&log_msg.level));
    total = total.saturating_add(text_len(&log_msg.message));
    total = total.saturating_add(text_len(&log_msg.time));
    total = total.saturating_add(text_len(&log_msg.behavior));
    total = total.saturating_add(text_len(&log_msg.original_time));
    let ghost fixed: int = vstd::layout::size_of::<LogMessage>() as int + text_bytes(log_msg.level)
        + text_bytes(log_msg.message) + text_bytes(log_msg.time) + text_bytes(log_msg.behavior)
        + text_bytes(log_msg.original_time) as int;
    assert(total == capped(fixed));
    let fields = &log_msg.extra_fields;
    let mut i: usize = 0;
    while i < fields.len()
        invariant
            i <= fields@.len(),
            total == capped(fixed + extras_bytes(fields@, i as int)),
        decreases fields@.len() - i,
    {
        let field = &fields[i];
        let value_len: usize = match &field.1 {
            ExtraValue::Text(t) => t.as_str().len(),
            ExtraValue::Json(_) => core::mem::size_of::<serde_json::Value>(),
        };
        total = total.saturating_add(field.0.as_str().len());
        total = total.saturating_add(value_len);
        i += 1;
    }
    total
}

/// The level shown for a record: its own, or `info` when it has none.
pub fn display_level(log_msg: &LogMessage) -> (r: String)
    ensures
        r@ == match log_msg.level {
            Some(l) => l@,
            None => "info"@,
        },
{
    match &log_msg.level {
        Some(l) => l.clone(),
        None => String::from_str("info"),
    }
}

/// The message shown for a record: its own, or the empty text.
pub fn display_message(log_msg: &LogMessage) -> (r: String)
    ensures
        r@ == match log_msg.message {
            Some(m) => m@,
            None => Seq::<char>::empty(),
        },
{
    match &log_msg.message {
        Some(m) => m.clone(),
        None => String::new(),
    }
}

/// The sequence number shown for the record at `index` of a batch: its own,
/// or its index when it has none.
pub fn display_sequence(log_msg: &LogMessage, index: u32) -> (r: u32)
    ensures
        r == match log_msg.sequence {
            Some(s) => s,
            None => index,
        },
{
    match log_msg.sequence {
        Some(s) => s,
        None => index,
    }
}

} // verus!
