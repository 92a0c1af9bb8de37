use effectful::traceparent::{SpanContext, SpanId, TraceFlags, TraceId, TraceParentParseError};

fn sampled_context() -> SpanContext {
    SpanContext {
        trace_id: TraceId::from_bytes([1; 16]),
        span_id: SpanId::from_bytes([2; 8]),
        trace_flags: TraceFlags::sampled_only(),
    }
}

#[test]
fn span_context_renders_and_parses_traceparent() {
    let context = sampled_context();
    let header = context.to_traceparent();
    assert_eq!(header, "00-01010101010101010101010101010101-0202020202020202-01");
    assert_eq!(SpanContext::from_traceparent(&header), Ok(context));
}

#[test]
fn from_traceparent_accepts_uppercase_hex() {
    let context = SpanContext {
        trace_id: TraceId::from_bytes([0xAB; 16]),
        span_id: SpanId::from_bytes([0xCD; 8]),
        trace_flags: TraceFlags::sampled_only(),
    };
    assert_eq!(
        SpanContext::from_traceparent("00-ABABABABABABABABABABABABABABABAB-CDCDCDCDCDCDCDCD-01"),
        Ok(context)
    );
}

#[test]
fn from_traceparent_parses_unsampled_flag() {
    let context = SpanContext {
        trace_id: TraceId::from_bytes([1; 16]),
        span_id: SpanId::from_bytes([2; 8]),
        trace_flags: TraceFlags::unsampled(),
    };
    assert_eq!(
        SpanContext::from_traceparent("00-01010101010101010101010101010101-0202020202020202-00"),
        Ok(context)
    );
}

#[test]
fn trace_flags_default_is_not_sampled() {
    assert!(!TraceFlags::unsampled().sampled());
    assert_eq!(TraceFlags::unsampled().bits(), 0);
}

#[test]
fn trace_flags_sampled_is_sampled() {
    assert!(TraceFlags::sampled_only().sampled());
    assert_eq!(TraceFlags::sampled_only().bits(), 1);
}

#[test]
fn trace_flags_from_bits_roundtrips() {
    let flags = TraceFlags::from_bits(0x03);
    assert_eq!(flags.bits(), 0x03);
    assert!(flags.sampled());
}

#[test]
fn trace_id_display_renders_lowercase_hex() {
    assert_eq!(TraceId::from_bytes([0xAB; 16]).to_string(), "abababababababababababababababab");
}

#[test]
fn span_id_display_renders_lowercase_hex() {
    assert_eq!(SpanId::from_bytes([0xCD; 8]).to_string(), "cdcdcdcdcdcdcdcd");
}

#[test]
fn trace_flags_display_renders_two_digit_hex() {
    assert_eq!(TraceFlags::from_bits(0x0F).to_string(), "0f");
    assert_eq!(TraceFlags::from_bits(0xFF).to_string(), "ff");
}

fn rejects(input: &str, expected: TraceParentParseError) {
    assert_eq!(SpanContext::from_traceparent(input), Err(expected));
}

#[test]
fn from_traceparent_rejects_all_zero_trace_id() {
    rejects("00-00000000000000000000000000000000-0202020202020202-01", TraceParentParseError::AllZeroId);
}

#[test]
fn from_traceparent_rejects_all_zero_span_id() {
    rejects("00-01010101010101010101010101010101-0000000000000000-01", TraceParentParseError::AllZeroId);
}

#[test]
fn from_traceparent_rejects_too_many_fields() {
    rejects(
        "00-01010101010101010101010101010101-0202020202020202-01-extra",
        TraceParentParseError::InvalidFieldCount,
    );
}

#[test]
fn from_traceparent_rejects_too_few_fields() {
    rejects("00-01010101010101010101010101010101-0202020202020202", TraceParentParseError::InvalidFieldCount);
}

#[test]
fn from_traceparent_rejects_unsupported_version() {
    rejects("01-01010101010101010101010101010101-0202020202020202-01", TraceParentParseError::UnsupportedVersion);
}

#[test]
fn from_traceparent_rejects_short_trace_id() {
    rejects("00-0101010101010101010101010101010-0202020202020202-01", TraceParentParseError::InvalidLength);
}

#[test]
fn from_traceparent_rejects_short_span_id() {
    rejects("00-01010101010101010101010101010101-020202020202020-01", TraceParentParseError::InvalidLength);
}

#[test]
fn from_traceparent_rejects_short_flags() {
    rejects("00-01010101010101010101010101010101-0202020202020202-1", TraceParentParseError::InvalidLength);
}

#[test]
fn from_traceparent_rejects_hex_errors_in_each_field() {
    rejects("00-0101010101010101010101010101010g-0202020202020202-01", TraceParentParseError::InvalidHex);
    rejects("00-01010101010101010101010101010101-020202020202020g-01", TraceParentParseError::InvalidHex);
    rejects("00-01010101010101010101010101010101-0202020202020202-0g", TraceParentParseError::InvalidHex);
}

#[test]
fn rendering_then_parsing_gives_back_the_context() {
    let context = SpanContext {
        trace_id: TraceId::from_bytes([0x0f, 0xa0, 1, 2, 3, 4, 5, 6, 7, 8, 9, 10, 11, 12, 13, 0xff]),
        span_id: SpanId::from_bytes([0, 0, 0, 0, 0, 0, 0, 1]),
        trace_flags: TraceFlags::from_bits(0xfe),
    };
    let header = context.to_traceparent();
    assert_eq!(header, "00-0fa00102030405060708090a0b0c0dff-0000000000000001-fe");
    assert_eq!(SpanContext::from_traceparent(&header), Ok(context));
}

#[test]
fn ids_round_trip_through_bytes() {
    let t = [7u8; 16];
    let s = [9u8; 8];
    assert_eq!(TraceId::from_bytes(t).to_bytes(), t);
    assert_eq!(SpanId::from_bytes(s).to_bytes(), s);
}

#[test]
fn rendered_header_has_fifty_five_characters() {
    let ctx = SpanContext {
        trace_id: TraceId::from_bytes([0xab; 16]),
        span_id: SpanId::from_bytes([0xcd; 8]),
        trace_flags: TraceFlags::sampled_only(),
    };
    assert_eq!(ctx.to_traceparent().len(), 55);
}
