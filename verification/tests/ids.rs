//! Identifier parsing and rendering.

use hindsight::ids::{IdParseError, SpanId, Timestamp, TraceId};

#[test]
fn trace_id_renders_canonical_lowercase_hex() {
    let id = TraceId(0xa1b2c3d4e5f6789012345678901234ab);
    assert_eq!(id.to_hex(), "a1b2c3d4e5f6789012345678901234ab");
}

#[test]
fn trace_id_renders_leading_zeros() {
    let id = TraceId(0x2a);
    assert_eq!(id.to_hex(), "0000000000000000000000000000002a");
}

#[test]
fn span_id_renders_sixteen_digits() {
    let id = SpanId(0x1234567890abcdef);
    assert_eq!(id.to_hex(), "1234567890abcdef");
    assert_eq!(SpanId(0).to_hex(), "0000000000000000");
}

#[test]
fn trace_id_round_trips_through_hex() {
    let id = TraceId(0xdeadbeef12345678901234567890abcd);
    let parsed = TraceId::from_hex(&id.to_hex()).unwrap();
    assert_eq!(parsed, id);
}

#[test]
fn span_id_round_trips_through_hex() {
    let id = SpanId(0xfedcba9876543210);
    let parsed = SpanId::from_hex(&id.to_hex()).unwrap();
    assert_eq!(parsed, id);
}

#[test]
fn parsing_accepts_uppercase() {
    let parsed = TraceId::from_hex("A1B2C3D4E5F6789012345678901234AB").unwrap();
    assert_eq!(parsed, TraceId(0xa1b2c3d4e5f6789012345678901234ab));
}

#[test]
fn parsing_rejects_wrong_length() {
    assert_eq!(
        TraceId::from_hex("a1b2c3"),
        Err(IdParseError::MalformedIdentifier)
    );
    assert_eq!(
        SpanId::from_hex("a1b2c3d4e5f6789012345678901234ab"),
        Err(IdParseError::MalformedIdentifier)
    );
    assert_eq!(TraceId::from_hex(""), Err(IdParseError::MalformedIdentifier));
}

#[test]
fn parsing_rejects_non_hex_characters() {
    assert_eq!(
        TraceId::from_hex("g1b2c3d4e5f6789012345678901234ab"),
        Err(IdParseError::MalformedIdentifier)
    );
    assert_eq!(
        SpanId::from_hex("1234 67890abcdef"),
        Err(IdParseError::MalformedIdentifier)
    );
}

#[test]
fn saturating_subtraction_tolerates_backwards_clock() {
    assert_eq!(Timestamp(100).saturating_nanos_since(Timestamp(40)), 60);
    assert_eq!(Timestamp(40).saturating_nanos_since(Timestamp(100)), 0);
}

#[test]
fn wall_clock_is_past_epoch() {
    // The test machine's clock reads after the Unix epoch.
    assert!(Timestamp::now().0 > 0);
}
