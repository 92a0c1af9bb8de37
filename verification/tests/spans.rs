use effectful::spans::{
    counter_to_trace_bytes, flushes_on_completion, sample_step, saturating_nanos, span_outcome, span_parent,
    span_route, status_label, to_be_bytes, EffectEvent, SequentialTraceContextProvider, SpanLevel, SpanRoute,
    SpanStatus, TracingMode, SAMPLING_NEVER, span_run_step, SpanPhase, SpanRunAction, SpanRunEvent,
};
use effectful::traceparent::{SpanContext, SpanId, TraceFlags, TraceId};

#[test]
fn tracing_mode_from_config_follows_the_flags() {
    assert_eq!(TracingMode::from_config(false, true, true, true), TracingMode::Disabled);
    assert_eq!(TracingMode::from_config(true, false, false, true), TracingMode::Disabled);
    assert_eq!(TracingMode::from_config(true, true, false, false), TracingMode::Disabled);
    assert_eq!(TracingMode::from_config(true, true, false, true), TracingMode::BridgeOnly);
    assert_eq!(TracingMode::from_config(true, false, true, false), TracingMode::Snapshot);
    assert_eq!(TracingMode::from_config(true, true, true, false), TracingMode::SnapshotBridge);
    assert!(TracingMode::Disabled.is_disabled());
    assert!(TracingMode::BridgeOnly.is_bridge_only());
    assert!(!TracingMode::Snapshot.is_bridge_only());
}

#[test]
fn tracing_mode_codes_round_trip() {
    for m in [
        TracingMode::Disabled,
        TracingMode::BridgeOnly,
        TracingMode::BridgeOnlyNoSubscriber,
        TracingMode::Snapshot,
        TracingMode::SnapshotBridge,
    ] {
        assert_eq!(TracingMode::from_code(m.code()), m);
    }
    assert_eq!(TracingMode::from_code(99), TracingMode::Disabled);
}

#[test]
fn sampling_by_mask() {
    assert_eq!(sample_step(0, 5), (true, 5));
    assert_eq!(sample_step(SAMPLING_NEVER, 5), (false, 5));
    assert_eq!(sample_step(1, 4), (true, 5));
    assert_eq!(sample_step(1, 5), (false, 6));
    assert_eq!(sample_step(3, u64::MAX), (false, 0));
}

#[test]
fn sequential_ids() {
    assert_eq!(counter_to_trace_bytes(0x0102), [0, 0, 0, 0, 0, 0, 0, 0, 0, 0, 0, 0, 0, 0, 1, 2]);
    assert_eq!(to_be_bytes(0x0102030405060708), 0x0102030405060708u64.to_be_bytes());
    let mut p = SequentialTraceContextProvider::new();
    let root = p.root_context(0);
    assert_eq!(root.trace_id, TraceId::from_bytes(counter_to_trace_bytes(1)));
    assert_eq!(root.span_id, SpanId::from_bytes(1u64.to_be_bytes()));
    assert_eq!(root.trace_flags, TraceFlags::unsampled());
    let child = p.child_context(&root, 1);
    assert_eq!(child.trace_id, root.trace_id);
    assert_eq!(child.span_id, SpanId::from_bytes(2u64.to_be_bytes()));
    let second = p.root_context(2);
    assert_eq!(second.trace_id, TraceId::from_bytes(counter_to_trace_bytes(2)));
    assert_eq!(second.to_traceparent(), "00-00000000000000000000000000000002-0000000000000003-00");
}

#[test]
fn span_decisions() {
    assert_eq!(span_route(TracingMode::Disabled, true), SpanRoute::Plain);
    assert_eq!(span_route(TracingMode::Snapshot, false), SpanRoute::Plain);
    assert_eq!(span_route(TracingMode::BridgeOnly, true), SpanRoute::BridgeOnly);
    assert_eq!(span_route(TracingMode::SnapshotBridge, true), SpanRoute::Recorded);
    let a = SpanContext::from_traceparent("00-01010101010101010101010101010101-0202020202020202-01").unwrap();
    let b = SpanContext::from_traceparent("00-03030303030303030303030303030303-0404040404040404-00").unwrap();
    assert_eq!(span_parent(Some(a), Some(b)), Some(a));
    assert_eq!(span_parent(None, Some(b)), Some(b));
    assert_eq!(span_parent(None, None), None);
    assert_eq!(span_outcome("s".to_string(), true), (SpanStatus::Okay, EffectEvent::Success { span: "s".to_string() }));
    assert_eq!(span_outcome("s".to_string(), false), (SpanStatus::Error, EffectEvent::Failure { span: "s".to_string() }));
    assert!(flushes_on_completion(false, false));
    assert!(!flushes_on_completion(true, false));
    assert!(flushes_on_completion(true, true));
    assert_eq!(status_label(SpanStatus::Unset), "unset");
    assert_eq!(status_label(SpanStatus::Okay), "ok");
    assert_eq!(status_label(SpanStatus::Error), "error");
    assert_eq!(saturating_nanos(5), 5);
    assert_eq!(saturating_nanos(u128::MAX), u64::MAX);
    assert_eq!(SpanLevel::default(), SpanLevel::Info);
    assert_eq!(SpanStatus::default(), SpanStatus::Unset);
}

#[test]
fn only_snapshot_modes_record_in_memory() {
    assert!(TracingMode::Snapshot.records_in_memory());
    assert!(TracingMode::SnapshotBridge.records_in_memory());
    assert!(!TracingMode::BridgeOnly.records_in_memory());
    assert!(!TracingMode::BridgeOnlyNoSubscriber.records_in_memory());
    assert!(!TracingMode::Disabled.records_in_memory());
    assert!(TracingMode::from_config(true, false, true, false).records_in_memory());
    assert!(!TracingMode::from_config(true, true, false, true).records_in_memory());
}

#[test]
fn span_run_opens_then_closes_with_the_outcome() {
    let begin = SpanRunEvent::Begin { bridge_to_tracing: false, mode: TracingMode::Snapshot };
    let (p1, a1) = span_run_step(SpanPhase::Ready, begin, "load".to_string());
    assert_eq!(a1, SpanRunAction::Open { bridge: false });
    assert_eq!(p1, SpanPhase::Running { bridged: false });
    let (p2, a2) = span_run_step(p1, SpanRunEvent::Finish { succeeded: false, tracing_enabled: false }, "load".to_string());
    assert_eq!(p2, SpanPhase::Finished);
    assert_eq!(
        a2,
        SpanRunAction::Close {
            flush: true,
            status: SpanStatus::Error,
            event: EffectEvent::Failure { span: "load".to_string() },
        }
    );
    let (p3, a3) = span_run_step(p2, begin, "load".to_string());
    assert_eq!((p3, a3), (SpanPhase::Finished, SpanRunAction::Nothing));
}

#[test]
fn bridged_span_with_tracing_disabled_runs_plain_and_flushes_only_when_enabled() {
    let begin = SpanRunEvent::Begin { bridge_to_tracing: true, mode: TracingMode::Disabled };
    assert_eq!(
        span_run_step(SpanPhase::Ready, begin, "x".to_string()),
        (SpanPhase::Finished, SpanRunAction::RunPlain)
    );
    let done = SpanRunEvent::Finish { succeeded: true, tracing_enabled: false };
    let (_, a) = span_run_step(SpanPhase::Running { bridged: true }, done, "x".to_string());
    assert_eq!(
        a,
        SpanRunAction::Close { flush: false, status: SpanStatus::Okay, event: EffectEvent::Success { span: "x".to_string() } }
    );
}
