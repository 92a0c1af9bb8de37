use effectful::spans::{EffectEvent, FiberEvent, SpanLevel, SpanStatus};
use effectful::trace_log::{SpanRecord, TraceLog};
use effectful::traceparent::{SpanContext, SpanId, TraceFlags, TraceId};

type Attrs = Vec<(String, String)>;

fn ctx(span: u8) -> SpanContext {
    SpanContext {
        trace_id: TraceId::from_bytes([1; 16]),
        span_id: SpanId::from_bytes([span; 8]),
        trace_flags: TraceFlags::sampled_only(),
    }
}

fn record(name: &str, span: u8, started_at: u64) -> SpanRecord<u64, Attrs> {
    SpanRecord {
        name: name.to_string(),
        context: ctx(span),
        parent_span_id: None,
        level: SpanLevel::Info,
        status: SpanStatus::Unset,
        attributes: vec![],
        events: vec![],
        started_at,
        ended_at: None,
    }
}

#[test]
fn span_id_is_same_compares_bytes() {
    assert!(SpanId::from_bytes([3; 8]).is_same(&SpanId::from_bytes([3; 8])));
    assert!(!SpanId::from_bytes([3; 8]).is_same(&SpanId::from_bytes([3, 3, 3, 3, 3, 3, 3, 4])));
}

#[test]
fn ended_span_gets_status_attributes_and_end_time() {
    let mut log: TraceLog<u64, Attrs> = TraceLog::new();
    log.span_started(record("outer", 1, 10));
    log.span_started(record("inner", 2, 11));
    log.span_ended(SpanId::from_bytes([2; 8]), vec![("k".to_string(), "v".to_string())], SpanStatus::Okay, 20);
    assert_eq!(log.spans.len(), 2);
    assert_eq!(log.spans[0].status, SpanStatus::Unset);
    assert_eq!(log.spans[0].ended_at, None);
    assert_eq!(log.spans[1].status, SpanStatus::Okay);
    assert_eq!(log.spans[1].ended_at, Some(20));
    assert_eq!(log.spans[1].attributes, vec![("k".to_string(), "v".to_string())]);
    assert_eq!(log.spans[1].started_at, 11);
    assert_eq!(log.spans[1].name, "inner");
}

#[test]
fn ending_uses_the_most_recent_span_with_that_id() {
    let mut log: TraceLog<u64, Attrs> = TraceLog::new();
    log.span_started(record("first", 7, 1));
    log.span_started(record("second", 7, 2));
    log.span_ended(SpanId::from_bytes([7; 8]), vec![], SpanStatus::Error, 3);
    assert_eq!(log.spans[0].ended_at, None);
    assert_eq!(log.spans[1].ended_at, Some(3));
    assert_eq!(log.spans[1].status, SpanStatus::Error);
}

#[test]
fn ending_an_unknown_span_changes_nothing() {
    let mut log: TraceLog<u64, Attrs> = TraceLog::new();
    log.span_started(record("only", 1, 1));
    log.span_ended(SpanId::from_bytes([9; 8]), vec![], SpanStatus::Okay, 5);
    assert_eq!(log.spans.len(), 1);
    assert_eq!(log.spans[0].ended_at, None);
    assert_eq!(log.spans[0].status, SpanStatus::Unset);
}

#[test]
fn span_events_attach_to_the_latest_matching_span() {
    let mut log: TraceLog<u64, Attrs> = TraceLog::new();
    log.span_started(record("a", 1, 1));
    log.span_started(record("b", 2, 2));
    log.span_event(SpanId::from_bytes([1; 8]), "loaded".to_string(), vec![], 4);
    log.span_event(SpanId::from_bytes([1; 8]), "stored".to_string(), vec![], 5);
    log.span_event(SpanId::from_bytes([8; 8]), "lost".to_string(), vec![], 6);
    assert_eq!(log.spans[0].events.len(), 2);
    assert_eq!(log.spans[0].events[0].name, "loaded");
    assert_eq!(log.spans[0].events[1].name, "stored");
    assert_eq!(log.spans[0].events[1].occurred_at, 5);
    assert_eq!(log.spans[1].events.len(), 0);
}

#[test]
fn lifecycle_events_are_kept_in_order() {
    let mut log: TraceLog<u64, Attrs> = TraceLog::new();
    log.effect_event(EffectEvent::Start { span: "s".to_string() });
    log.fiber_event(FiberEvent::Spawn { fiber_id: "f".to_string() });
    log.effect_event(EffectEvent::Success { span: "s".to_string() });
    assert_eq!(
        log.effect_events,
        vec![EffectEvent::Start { span: "s".to_string() }, EffectEvent::Success { span: "s".to_string() }]
    );
    assert_eq!(log.fiber_events, vec![FiberEvent::Spawn { fiber_id: "f".to_string() }]);
    assert!(log.spans.is_empty());
}

#[test]
fn attribute_updates_reach_the_latest_matching_span() {
    let mut log: TraceLog<u64, Attrs> = TraceLog::new();
    log.span_started(record("a", 1, 1));
    log.span_started(record("b", 1, 2));
    log.update_attributes(SpanId::from_bytes([1; 8]), |mut m: Attrs| {
        m.push(("market".to_string(), "SOL-PERP".to_string()));
        m
    });
    log.update_attributes(SpanId::from_bytes([5; 8]), |mut m: Attrs| {
        m.push(("lost".to_string(), "x".to_string()));
        m
    });
    assert!(log.spans[0].attributes.is_empty());
    assert_eq!(log.spans[1].attributes, vec![("market".to_string(), "SOL-PERP".to_string())]);
    assert_eq!(log.spans[1].name, "b");
}

#[test]
fn clear_forgets_everything() {
    let mut log: TraceLog<u64, Attrs> = TraceLog::new();
    log.span_started(record("a", 1, 1));
    log.effect_event(EffectEvent::Start { span: "a".to_string() });
    log.fiber_event(FiberEvent::Complete { fiber_id: "f".to_string() });
    log.clear();
    assert!(log.spans.is_empty());
    assert!(log.effect_events.is_empty());
    assert!(log.fiber_events.is_empty());
}
