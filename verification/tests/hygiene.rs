use effectful::hygiene::HygieneCounters;

#[test]
fn fresh_counters_pass_every_check() {
    let c = HygieneCounters::new();
    assert_eq!(c.leaked_fibers_failure(), None);
    assert_eq!(c.unclosed_scopes_failure(), None);
    assert_eq!(c.run_failure(), None);
}

#[test]
fn leaked_fiber_fails_with_its_count() {
    let mut c = HygieneCounters::new();
    c.record_leaked_fiber();
    c.record_leaked_fiber();
    assert_eq!(
        c.leaked_fibers_failure(),
        Some("deterministic test harness detected leaked fibers: 2".to_string())
    );
    assert_eq!(c.unclosed_scopes_failure(), None);
}

#[test]
fn unclosed_scope_fails_with_its_count() {
    let mut c = HygieneCounters::new();
    c.record_unclosed_scope();
    assert_eq!(
        c.unclosed_scopes_failure(),
        Some("deterministic test harness detected unclosed scopes: 1".to_string())
    );
    assert_eq!(c.run_failure(), Some("deterministic test harness detected unclosed scopes: 1".to_string()));
}

#[test]
fn leaked_fibers_are_reported_before_unclosed_scopes() {
    let mut c = HygieneCounters::new();
    c.record_unclosed_scope();
    c.record_leaked_fiber();
    assert_eq!(c.run_failure(), Some("deterministic test harness detected leaked fibers: 1".to_string()));
}

#[test]
fn counters_saturate() {
    let mut c = HygieneCounters { leaked_fibers: usize::MAX, unclosed_scopes: 0 };
    c.record_leaked_fiber();
    assert_eq!(c.leaked_fibers, usize::MAX);
    assert_eq!(c.unclosed_scopes, 0);
}
