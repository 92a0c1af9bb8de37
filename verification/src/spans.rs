//! Decisions made when effects run inside spans: which tracing mode a
//! configuration selects, whether a span is sampled, which context a new span
//! gets, and how a finished span is reported.
use vstd::prelude::*;

use crate::traceparent::{SpanContext, SpanId, TraceFlags, TraceId};

verus! {

/// How span work is done for the installed configuration.
#[derive(Clone, Copy, Debug, PartialEq, Eq)]
pub enum TracingMode {
    /// Tracing is disabled: all span work is a no-op.
    Disabled,
    /// Forward to Rust `tracing` only: no in-memory recording, no span stack.
    BridgeOnly,
    /// Bridge-only without a subscriber: fully no-op.
    BridgeOnlyNoSubscriber,
    /// Full in-memory recording.
    Snapshot,
    /// Full in-memory recording, also bridged to Rust `tracing`.
    SnapshotBridge,
}

impl TracingMode {
    /// The mode selected by the configuration flags and whether a `tracing`
    /// subscriber is installed.
    pub fn from_config(enabled: bool, bridge_to_tracing: bool, record_in_memory: bool, subscriber_available: bool) -> (m: Self)
        ensures
            m == mode_for(enabled, bridge_to_tracing, record_in_memory, subscriber_available),
    {
        if !enabled {
            return TracingMode::Disabled;
        }
        if !record_in_memory {
            if !bridge_to_tracing || !subscriber_available {
                return TracingMode::Disabled;
            }
            return TracingMode::BridgeOnly;
        }
        if bridge_to_tracing {
            TracingMode::SnapshotBridge
        } else {
            TracingMode::Snapshot
        }
    }

    /// True for [`TracingMode::Disabled`].
    pub fn is_disabled(self) -> (b: bool)
        ensures
            b == (self == TracingMode::Disabled),
    {
        matches!(self, TracingMode::Disabled)
    }

    /// True for the modes that keep spans and events in memory:
    /// [`TracingMode::Snapshot`] and [`TracingMode::SnapshotBridge`].
    pub fn records_in_memory(self) -> (b: bool)
        ensures
            b == (self == TracingMode::Snapshot || self == TracingMode::SnapshotBridge),
    {
        matches!(self, TracingMode::Snapshot | TracingMode::SnapshotBridge)
    }

    /// True for [`TracingMode::BridgeOnly`].
    pub fn is_bridge_only(self) -> (b: bool)
        ensures
            b == (self == TracingMode::BridgeOnly),
    {
        matches!(self, TracingMode::BridgeOnly)
    }

    /// The stored code of the mode.
    pub fn code(self) -> (c: u64)
        ensures
            c == self.code_spec(),
    {
        match self {
            TracingMode::Disabled => 0,
            TracingMode::BridgeOnly => 1,
            TracingMode::BridgeOnlyNoSubscriber => 2,
            TracingMode::Snapshot => 3,
            TracingMode::SnapshotBridge => 4,
        }
    }

    /// The mode stored as `raw`; unknown codes read as disabled.
    pub fn from_code(raw: u64) -> (m: Self)
        ensures
            raw > 4 ==> m == TracingMode::Disabled,
            raw <= 4 ==> m.code_spec() == raw,
    {
        match raw {
            0 => TracingMode::Disabled,
            1 => TracingMode::BridgeOnly,
            2 => TracingMode::BridgeOnlyNoSubscriber,
            3 => TracingMode::Snapshot,
            4 => TracingMode::SnapshotBridge,
            _ => TracingMode::Disabled,
        }
    }

    /// The stored code of the mode, in specifications.
    pub open spec fn code_spec(self) -> u64 {
        match self {
            TracingMode::Disabled => 0,
            TracingMode::BridgeOnly => 1,
            TracingMode::BridgeOnlyNoSubscriber => 2,
            TracingMode::Snapshot => 3,
            TracingMode::SnapshotBridge => 4,
        }
    }
}

/// Span severity level.
#[derive(Clone, Copy, Debug, Default, PartialEq, Eq, Hash)]
pub enum SpanLevel {
    /// Trace-level span.
    Trace,
    /// Debug-level span.
    Debug,
    /// Info-level span.
    #[default]
    Info,
    /// Warning-level span.
    Warn,
    /// Error-level span.
    Error,
}

/// OTel-shaped span status.
#[derive(Clone, Copy, Debug, Default, PartialEq, Eq)]
pub enum SpanStatus {
    /// Span has not completed yet or did not set an explicit status.
    #[default]
    Unset,
    /// Span completed successfully.
    Okay,
    /// Span completed with an error. Error values are intentionally not captured.
    Error,
}

/// Lifecycle markers for effects run inside a span.
#[derive(Clone, Debug, PartialEq, Eq)]
pub enum EffectEvent {
    /// Entered a named span.
    Start {
        /// Span name.
        span: String,
    },
    /// Effect under the span completed successfully.
    Success {
        /// Span name.
        span: String,
    },
    /// Effect under the span failed.
    Failure {
        /// Span name.
        span: String,
    },
}

/// Coarse fiber lifecycle signals.
#[derive(Clone, Debug, PartialEq, Eq)]
pub enum FiberEvent {
    /// Fiber started work.
    Spawn {
        /// Opaque fiber identifier string.
        fiber_id: String,
    },
    /// Fiber finished normally.
    Complete {
        /// Opaque fiber identifier string.
        fiber_id: String,
    },
    /// Fiber was interrupted.
    Interrupt {
        /// Opaque fiber identifier string.
        fiber_id: String,
    },
}

// ---------------------------------------------------------------------------
// Sampling.

/// The sampling mask meaning "never sample".
pub const SAMPLING_NEVER: u64 = 0xffff_ffff_ffff_ffff;

/// One sampling decision with the per-thread span counter: mask `0` always
/// samples, [`SAMPLING_NEVER`] never does (the counter stays), any other mask
/// samples when `counter & mask` is zero and advances the counter (wrapping).
pub fn sample_step(mask: u64, counter: u64) -> (r: (bool, u64))
    ensures
        mask == 0 ==> r == (true, counter),
        mask == SAMPLING_NEVER ==> r == (false, counter),
        mask != 0 && mask != SAMPLING_NEVER ==> r == ((counter & mask) == 0, if counter == u64::MAX {
            0u64
        } else {
            (counter + 1) as u64
        }),
{
    if mask == 0 {
        return (true, counter);
    }
    if mask == SAMPLING_NEVER {
        return (false, counter);
    }
    let next = counter.wrapping_add(1);
    ((counter & mask) == 0, next)
}

// ---------------------------------------------------------------------------
// Trace and span identity.

/// Byte `j` (most significant first) of `x`.
pub open spec fn be_byte(x: u64, j: int) -> u8 {
    ((x >> ((7 - j) * 8) as u64) & 0xff) as u8
}

/// The 8 big-endian bytes of `x`.
pub open spec fn be_bytes(x: u64) -> Seq<u8> {
    Seq::new(8, |j: int| be_byte(x, j))
}

/// The 8 big-endian bytes of `x` (`u64::to_be_bytes`).
pub fn to_be_bytes(x: u64) -> (b: [u8; 8])
    ensures
        b@ == be_bytes(x),
{
    let b = [
        ((x >> 56u64) & 0xff) as u8,
        ((x >> 48u64) & 0xff) as u8,
        ((x >> 40u64) & 0xff) as u8,
        ((x >> 32u64) & 0xff) as u8,
        ((x >> 24u64) & 0xff) as u8,
        ((x >> 16u64) & 0xff) as u8,
        ((x >> 8u64) & 0xff) as u8,
        (x & 0xff) as u8,
    ];
    assert(b@ =~= be_bytes(x)) by {
        assert(x >> 0u64 == x) by (bit_vector);
    }
    b
}

/// A trace id holding `counter` in its last 8 bytes, big-endian.
pub open spec fn counter_trace_bytes(counter: u64) -> Seq<u8> {
    Seq::new(8, |j: int| 0u8) + be_bytes(counter)
}

/// Trace id bytes for a sequential counter: 8 zero bytes, then the counter big-endian.
pub fn counter_to_trace_bytes(counter: u64) -> (bytes: [u8; 16])
    ensures
        bytes@ == counter_trace_bytes(counter),
{
    let c = to_be_bytes(counter);
    let bytes = [0u8, 0u8, 0u8, 0u8, 0u8, 0u8, 0u8, 0u8, c[0], c[1], c[2], c[3], c[4], c[5], c[6], c[7]];
    assert(bytes@ =~= counter_trace_bytes(counter));
    bytes
}

/// Deterministic monotonic identities: trace counters start at 1. Span ids
/// come from a process-wide sequence, handed in as the value it had before
/// this span.
#[derive(Debug, Default)]
pub struct SequentialTraceContextProvider {
    next_trace: u64,
}

impl SequentialTraceContextProvider {
    /// Trace counters handed out so far.
    pub closed spec fn issued(self) -> u64 {
        self.next_trace
    }

    /// A provider whose first trace counter is `1`.
    pub fn new() -> (p: Self)
        ensures
            p.issued() == 0,
    {
        SequentialTraceContextProvider { next_trace: 0 }
    }

    /// Trace counters handed out so far.
    pub fn issued_count(&self) -> (n: u64)
        ensures
            n == self.issued(),
    {
        self.next_trace
    }

    /// The next trace id.
    pub fn next_trace_id(&mut self) -> (t: TraceId)
        requires
            old(self).issued() < u64::MAX,
        ensures
            final(self).issued() == old(self).issued() + 1,
            t@ == counter_trace_bytes((old(self).issued() + 1) as u64),
    {
        self.next_trace = self.next_trace + 1;
        TraceId::from_bytes(counter_to_trace_bytes(self.next_trace))
    }

    /// The span id following the sequence value `previous`.
    pub fn span_id_after(previous: u64) -> (s: SpanId)
        requires
            previous < u64::MAX,
        ensures
            s@ == be_bytes((previous + 1) as u64),
    {
        SpanId::from_bytes(to_be_bytes(previous + 1))
    }

    /// Context for a new root span: a fresh trace, the next span id, default flags.
    pub fn root_context(&mut self, span_sequence: u64) -> (c: SpanContext)
        requires
            old(self).issued() < u64::MAX,
            span_sequence < u64::MAX,
        ensures
            final(self).issued() == old(self).issued() + 1,
            c@ == (counter_trace_bytes((old(self).issued() + 1) as u64), be_bytes((span_sequence + 1) as u64), 0u8),
    {
        let trace_id = self.next_trace_id();
        SpanContext { trace_id, span_id: Self::span_id_after(span_sequence), trace_flags: TraceFlags::unsampled() }
    }

    /// Context for a child of `parent`: same trace and flags, the next span id.
    pub fn child_context(&self, parent: &SpanContext, span_sequence: u64) -> (c: SpanContext)
        requires
            span_sequence < u64::MAX,
        ensures
            c@ == (parent@.0, be_bytes((span_sequence + 1) as u64), parent@.2),
    {
        SpanContext { trace_id: parent.trace_id, span_id: Self::span_id_after(span_sequence), trace_flags: parent.trace_flags }
    }
}

// ---------------------------------------------------------------------------
// Running an effect inside a span.

/// How an effect is run for a span.
#[derive(Clone, Copy, Debug, PartialEq, Eq)]
pub enum SpanRoute {
    /// Run the effect as is.
    Plain,
    /// Run it inside a Rust `tracing` span only.
    BridgeOnly,
    /// Record the span (and bridge it when configured).
    Recorded,
}

/// The route for a span under `mode`; `sampled` is the sampling decision,
/// which is only taken when the mode is not disabled.
pub fn span_route(mode: TracingMode, sampled: bool) -> (r: SpanRoute)
    ensures
        r == (if mode == TracingMode::Disabled || !sampled {
            SpanRoute::Plain
        } else if mode == TracingMode::BridgeOnly {
            SpanRoute::BridgeOnly
        } else {
            SpanRoute::Recorded
        }),
{
    if mode.is_disabled() || !sampled {
        SpanRoute::Plain
    } else if mode.is_bridge_only() {
        SpanRoute::BridgeOnly
    } else {
        SpanRoute::Recorded
    }
}

/// The parent of a new span: the innermost active span, else the parent
/// handed in (a parsed remote context), else none.
pub fn span_parent(stack_top: Option<SpanContext>, initial_parent: Option<SpanContext>) -> (p: Option<SpanContext>)
    ensures
        p == (if stack_top is Some { stack_top } else { initial_parent }),
{
    match stack_top {
        Some(c) => Some(c),
        None => initial_parent,
    }
}

/// Status and lifecycle event of a span whose effect finished, succeeding or not.
pub fn span_outcome(span: String, succeeded: bool) -> (r: (SpanStatus, EffectEvent))
    ensures
        succeeded ==> r.0 == SpanStatus::Okay && r.1 == (EffectEvent::Success { span }),
        !succeeded ==> r.0 == SpanStatus::Error && r.1 == (EffectEvent::Failure { span }),
{
    if succeeded {
        (SpanStatus::Okay, EffectEvent::Success { span })
    } else {
        (SpanStatus::Error, EffectEvent::Failure { span })
    }
}

/// Whether a finished span's attributes, status and end are flushed: always
/// when recording without the bridge, otherwise only while tracing is enabled.
pub fn flushes_on_completion(bridge_to_tracing: bool, tracing_enabled: bool) -> (b: bool)
    ensures
        b == (!bridge_to_tracing || tracing_enabled),
{
    !bridge_to_tracing || tracing_enabled
}

/// Where a recorded span run stands.
#[derive(Clone, Copy, Debug, PartialEq, Eq)]
pub enum SpanPhase {
    /// Not started.
    Ready,
    /// The span is open and its effect runs; `bridged` says whether it is
    /// also forwarded to Rust `tracing`.
    Running {
        /// The span is bridged to Rust `tracing`.
        bridged: bool,
    },
    /// The run is over.
    Finished,
}

/// What happens to a span run.
#[derive(Clone, Copy, Debug, PartialEq, Eq)]
pub enum SpanRunEvent {
    /// The run begins under the installed `mode`.
    Begin {
        /// The span is to be bridged to Rust `tracing`.
        bridge_to_tracing: bool,
        /// The installed tracing mode.
        mode: TracingMode,
    },
    /// The span's effect finished.
    Finish {
        /// Whether it succeeded.
        succeeded: bool,
        /// Whether tracing is enabled when it finished.
        tracing_enabled: bool,
    },
}

/// What the runtime does for one step of a span run.
#[derive(Clone, Debug, PartialEq, Eq)]
pub enum SpanRunAction {
    /// Run the effect with no span at all.
    RunPlain,
    /// Pick the span's context, record its start and a `Start` event, push it
    /// on the span stack (and open the bridged span), then run the effect.
    Open {
        /// Open a Rust `tracing` span too.
        bridge: bool,
    },
    /// Close the span: when `flush`, record its attributes, `status` and end
    /// time; then record `event` and pop the span stack.
    Close {
        /// Record attributes, status and end time.
        flush: bool,
        /// Final status.
        status: SpanStatus,
        /// Lifecycle event to record.
        event: EffectEvent,
    },
    /// Nothing to do (an event that does not fit the phase).
    Nothing,
}

/// The next phase and action of a span run named `span` on `event`.
pub open spec fn span_run_next(phase: SpanPhase, event: SpanRunEvent, span: String) -> (SpanPhase, SpanRunAction) {
    match (phase, event) {
        (SpanPhase::Ready, SpanRunEvent::Begin { bridge_to_tracing, mode }) => if bridge_to_tracing && mode
            == TracingMode::Disabled {
            (SpanPhase::Finished, SpanRunAction::RunPlain)
        } else {
            (SpanPhase::Running { bridged: bridge_to_tracing }, SpanRunAction::Open { bridge: bridge_to_tracing })
        },
        (SpanPhase::Running { bridged }, SpanRunEvent::Finish { succeeded, tracing_enabled }) => (
            SpanPhase::Finished,
            SpanRunAction::Close {
                flush: !bridged || tracing_enabled,
                status: if succeeded { SpanStatus::Okay } else { SpanStatus::Error },
                event: if succeeded { EffectEvent::Success { span } } else { EffectEvent::Failure { span } },
            },
        ),
        _ => (phase, SpanRunAction::Nothing),
    }
}

/// One step of a recorded span run: from its phase and what happened, the
/// next phase and what the runtime does.
pub fn span_run_step(phase: SpanPhase, event: SpanRunEvent, span: String) -> (r: (SpanPhase, SpanRunAction))
    ensures
        r == span_run_next(phase, event, span),
{
    match (phase, event) {
        (SpanPhase::Ready, SpanRunEvent::Begin { bridge_to_tracing, mode }) => {
            if bridge_to_tracing && mode.is_disabled() {
                (SpanPhase::Finished, SpanRunAction::RunPlain)
            } else {
                (SpanPhase::Running { bridged: bridge_to_tracing }, SpanRunAction::Open { bridge: bridge_to_tracing })
            }
        },
        (SpanPhase::Running { bridged }, SpanRunEvent::Finish { succeeded, tracing_enabled }) => {
            let (status, ev) = span_outcome(span, succeeded);
            (
                SpanPhase::Finished,
                SpanRunAction::Close { flush: flushes_on_completion(bridged, tracing_enabled), status, event: ev },
            )
        },
        _ => (phase, SpanRunAction::Nothing),
    }
}

/// The status label recorded on a bridged span.
pub fn status_label(status: SpanStatus) -> (s: &'static str)
    ensures
        s@ == (match status {
            SpanStatus::Unset => "unset"@,
            SpanStatus::Okay => "ok"@,
            SpanStatus::Error => "error"@,
        }),
{
    match status {
        SpanStatus::Unset => "unset",
        SpanStatus::Okay => "ok",
        SpanStatus::Error => "error",
    }
}

/// A duration in nanoseconds, saturated to `u64::MAX`.
pub fn saturating_nanos(nanos: u128) -> (n: u64)
    ensures
        n == (if nanos > u64::MAX { u64::MAX } else { nanos as u64 }),
{
    if nanos > u64::MAX as u128 {
        u64::MAX
    } else {
        nanos as u64
    }
}

// ---------------------------------------------------------------------------
// Laws.

/// The mode a configuration selects, as a spec function of its flags.
pub open spec fn mode_for(enabled: bool, bridge_to_tracing: bool, record_in_memory: bool, subscriber_available: bool) -> TracingMode {
    if !enabled {
        TracingMode::Disabled
    } else if !record_in_memory {
        if !bridge_to_tracing || !subscriber_available {
            TracingMode::Disabled
        } else {
            TracingMode::BridgeOnly
        }
    } else if bridge_to_tracing {
        TracingMode::SnapshotBridge
    } else {
        TracingMode::Snapshot
    }
}

/// No configuration selects bridge-only mode without a subscriber, recording
/// in memory is never disabled while tracing is enabled, and a mode keeps
/// spans in memory exactly when tracing is enabled with in-memory recording.
pub proof fn law_configured_modes(enabled: bool, bridge_to_tracing: bool, record_in_memory: bool, subscriber_available: bool)
    ensures
        mode_for(enabled, bridge_to_tracing, record_in_memory, subscriber_available) != TracingMode::BridgeOnlyNoSubscriber,
        enabled && record_in_memory ==> mode_for(enabled, bridge_to_tracing, record_in_memory, subscriber_available)
            != TracingMode::Disabled,
        !enabled ==> mode_for(enabled, bridge_to_tracing, record_in_memory, subscriber_available) == TracingMode::Disabled,
        (mode_for(enabled, bridge_to_tracing, record_in_memory, subscriber_available) == TracingMode::Snapshot || mode_for(
            enabled,
            bridge_to_tracing,
            record_in_memory,
            subscriber_available,
        ) == TracingMode::SnapshotBridge) <==> (enabled && record_in_memory),
{
}

/// Reading back the stored code of a mode gives the mode.
pub proof fn law_mode_code_round_trip(m: TracingMode)
    ensures
        m.code_spec() <= 4,
        (match m.code_spec() {
            0 => TracingMode::Disabled,
            1 => TracingMode::BridgeOnly,
            2 => TracingMode::BridgeOnlyNoSubscriber,
            3 => TracingMode::Snapshot,
            _ => TracingMode::SnapshotBridge,
        }) == m,
{
}

/// With mask `1` (rate one half) exactly one of two consecutive counters is sampled.
pub proof fn law_half_rate_alternates(counter: u64)
    requires
        counter < u64::MAX,
    ensures
        ((counter & 1) == 0) != (((counter + 1) as u64 & 1) == 0),
{
    assert(counter < 0xffff_ffff_ffff_ffffu64 ==> (((counter & 1u64) == 0u64) != ((((counter + 1) as u64) & 1u64) == 0u64))) by (bit_vector);
}

/// What a configuration's mode does: it keeps spans in memory exactly when
/// tracing is enabled with in-memory recording; it forwards to Rust
/// `tracing` exactly when tracing is enabled, bridging is asked for, and
/// either spans are kept in memory or a subscriber is there to receive them.
/// Those two answers fix the mode; whether a subscriber is there matters
/// only when nothing is kept in memory.
pub proof fn law_mode_records_and_bridges_as_configured(
    enabled: bool,
    bridge_to_tracing: bool,
    record_in_memory: bool,
    subscriber_available: bool,
)
    ensures
        ({
            let m = mode_for(enabled, bridge_to_tracing, record_in_memory, subscriber_available);
            let records = m == TracingMode::Snapshot || m == TracingMode::SnapshotBridge;
            let bridges = m == TracingMode::BridgeOnly || m == TracingMode::SnapshotBridge;
            &&& records <==> (enabled && record_in_memory)
            &&& bridges <==> (enabled && bridge_to_tracing && (record_in_memory || subscriber_available))
            &&& m != TracingMode::BridgeOnlyNoSubscriber
            &&& (!records && !bridges) ==> m == TracingMode::Disabled
        }),
        enabled && record_in_memory ==> mode_for(enabled, bridge_to_tracing, record_in_memory, true) == mode_for(
            enabled,
            bridge_to_tracing,
            record_in_memory,
            false,
        ),
{
}

/// A span that was opened is closed exactly once: its run finishes with one
/// lifecycle event matching the outcome, and later events change nothing.
pub proof fn law_opened_span_closes_once(
    bridge_to_tracing: bool,
    mode: TracingMode,
    succeeded: bool,
    tracing_enabled: bool,
    later: SpanRunEvent,
    span: String,
)
    requires
        !(bridge_to_tracing && mode == TracingMode::Disabled),
    ensures
        ({
            let (p1, a1) = span_run_next(SpanPhase::Ready, SpanRunEvent::Begin { bridge_to_tracing, mode }, span);
            let (p2, a2) = span_run_next(p1, SpanRunEvent::Finish { succeeded, tracing_enabled }, span);
            &&& a1 == SpanRunAction::Open { bridge: bridge_to_tracing }
            &&& p2 == SpanPhase::Finished
            &&& a2 matches SpanRunAction::Close { status, event, .. } && (succeeded ==> status == SpanStatus::Okay
                && event == EffectEvent::Success { span }) && (!succeeded ==> status == SpanStatus::Error && event
                == EffectEvent::Failure { span })
            &&& span_run_next(p2, later, span) == (SpanPhase::Finished, SpanRunAction::Nothing)
        }),
{
}

} // verus!
