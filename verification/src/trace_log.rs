//! The in-memory trace log kept by the default collector: started spans in
//! order, their completion, their events, and the effect and fiber lifecycle
//! events. `T` is the clock's instant type and `M` the attribute map type; the
//! log only moves them around.
use vstd::prelude::*;

use crate::spans::{EffectEvent, FiberEvent, SpanLevel, SpanStatus};
use crate::traceparent::{SpanContext, SpanId};

verus! {

/// A named event recorded inside a span.
pub struct SpanEvent<T, M> {
    /// Event name.
    pub name: String,
    /// Event attributes.
    pub attributes: M,
    /// When the event happened.
    pub occurred_at: T,
}

/// One recorded span.
pub struct SpanRecord<T, M> {
    /// Span name.
    pub name: String,
    /// Span context.
    pub context: SpanContext,
    /// Parent span id, when this span is nested under another span.
    pub parent_span_id: Option<SpanId>,
    /// Span level.
    pub level: SpanLevel,
    /// Final span status.
    pub status: SpanStatus,
    /// Attributes merged from the initial options and current-span annotations.
    pub attributes: M,
    /// Span events, in the order they happened.
    pub events: Vec<SpanEvent<T, M>>,
    /// Start timestamp.
    pub started_at: T,
    /// End timestamp, present after completion.
    pub ended_at: Option<T>,
}

/// Everything the default collector has recorded.
pub struct TraceLog<T, M> {
    /// Effect lifecycle events, in order.
    pub effect_events: Vec<EffectEvent>,
    /// Fiber lifecycle events, in order.
    pub fiber_events: Vec<FiberEvent>,
    /// Spans in the order they started.
    pub spans: Vec<SpanRecord<T, M>>,
}

/// Index of the most recently started span whose id is `id`.
pub open spec fn latest_index<T, M>(spans: Seq<SpanRecord<T, M>>, id: Seq<u8>) -> Option<int>
    decreases spans.len(),
{
    if spans.len() == 0 {
        None
    } else if spans.last().context.span_id@ == id {
        Some(spans.len() - 1)
    } else {
        latest_index(spans.drop_last(), id)
    }
}

/// `r` completed with the given attributes, status and end time.
pub open spec fn ended_record<T, M>(r: SpanRecord<T, M>, attributes: M, status: SpanStatus, ended_at: T) -> SpanRecord<
    T,
    M,
> {
    SpanRecord {
        name: r.name,
        context: r.context,
        parent_span_id: r.parent_span_id,
        level: r.level,
        status: status,
        attributes: attributes,
        events: r.events,
        started_at: r.started_at,
        ended_at: Some(ended_at),
    }
}

/// The spans after completing the latest span with id `id`; unchanged when
/// no span has that id.
pub open spec fn spans_after_end<T, M>(
    spans: Seq<SpanRecord<T, M>>,
    id: Seq<u8>,
    attributes: M,
    status: SpanStatus,
    ended_at: T,
) -> Seq<SpanRecord<T, M>> {
    match latest_index(spans, id) {
        Some(k) => spans.update(k, ended_record(spans[k], attributes, status, ended_at)),
        None => spans,
    }
}

/// `after` is `before` with the event `e` appended to its events.
pub open spec fn event_appended<T, M>(before: SpanRecord<T, M>, after: SpanRecord<T, M>, e: SpanEvent<T, M>) -> bool {
    &&& after.name == before.name
    &&& after.context == before.context
    &&& after.parent_span_id == before.parent_span_id
    &&& after.level == before.level
    &&& after.status == before.status
    &&& after.attributes == before.attributes
    &&& after.events@ == before.events@.push(e)
    &&& after.started_at == before.started_at
    &&& after.ended_at == before.ended_at
}

/// `after` is `before` with `e` appended to the events of the latest span
/// with id `id`; unchanged when no span has that id.
pub open spec fn spans_after_event<T, M>(
    before: Seq<SpanRecord<T, M>>,
    after: Seq<SpanRecord<T, M>>,
    id: Seq<u8>,
    e: SpanEvent<T, M>,
) -> bool {
    match latest_index(before, id) {
        Some(k) => {
            &&& after.len() == before.len()
            &&& forall|j: int| 0 <= j < before.len() && j != k ==> after[j] == before[j]
            &&& event_appended(before[k], after[k], e)
        },
        None => after == before,
    }
}

/// `after` is `before` with its attributes replaced by a result of `update`
/// on them.
pub open spec fn attributes_updated<T, M, F: FnOnce(M) -> M>(before: SpanRecord<T, M>, after: SpanRecord<T, M>, update: F) -> bool {
    &&& after.name == before.name
    &&& after.context == before.context
    &&& after.parent_span_id == before.parent_span_id
    &&& after.level == before.level
    &&& after.status == before.status
    &&& call_ensures(update, (before.attributes,), after.attributes)
    &&& after.events == before.events
    &&& after.started_at == before.started_at
    &&& after.ended_at == before.ended_at
}

/// What `latest_index` finds: a span with that id and none after it, or no
/// span with that id at all.
pub proof fn lemma_latest_index<T, M>(spans: Seq<SpanRecord<T, M>>, id: Seq<u8>)
    ensures
        match latest_index(spans, id) {
            Some(k) => {
                &&& 0 <= k < spans.len()
                &&& spans[k].context.span_id@ == id
                &&& forall|j: int| k < j < spans.len() ==> spans[j].context.span_id@ != id
            },
            None => forall|j: int| 0 <= j < spans.len() ==> spans[j].context.span_id@ != id,
        },
    decreases spans.len(),
{
    if spans.len() > 0 && spans.last().context.span_id@ != id {
        lemma_latest_index(spans.drop_last(), id);
        assert forall|j: int| 0 <= j < spans.len() - 1 implies spans[j] == spans.drop_last()[j] by {}
    }
}

/// Position of the most recently started span with id `id`.
fn find_latest<T, M>(spans: &Vec<SpanRecord<T, M>>, id: &SpanId) -> (r: Option<usize>)
    ensures
        match r {
            Some(k) => latest_index(spans@, id@) == Some(k as int),
            None => latest_index(spans@, id@) is None,
        },
{
    let mut i = spans.len();
    proof {
        assert(spans@.take(i as int) =~= spans@);
    }
    while i > 0
        invariant
            i <= spans@.len(),
            latest_index(spans@, id@) == latest_index(spans@.take(i as int), id@),
        decreases i,
    {
        let ghost prefix = spans@.take(i as int);
        if spans[i - 1].context.span_id.is_same(id) {
            proof {
                assert(prefix.last() == spans@[i - 1]);
            }
            return Some(i - 1);
        }
        proof {
            assert(prefix.last() == spans@[i - 1]);
            assert(prefix.drop_last() =~= spans@.take(i - 1));
        }
        i = i - 1;
    }
    None
}

impl<T, M> TraceLog<T, M> {
    /// An empty log.
    pub fn new() -> (l: Self)
        ensures
            l.effect_events@ == Seq::<EffectEvent>::empty(),
            l.fiber_events@ == Seq::<FiberEvent>::empty(),
            l.spans@ == Seq::<SpanRecord<T, M>>::empty(),
    {
        TraceLog { effect_events: Vec::new(), fiber_events: Vec::new(), spans: Vec::new() }
    }

    /// Records a span that has just started.
    pub fn span_started(&mut self, span: SpanRecord<T, M>)
        ensures
            final(self).spans@ == old(self).spans@.push(span),
            final(self).effect_events@ == old(self).effect_events@,
            final(self).fiber_events@ == old(self).fiber_events@,
    {
        self.spans.push(span);
    }

    /// Completes the most recently started span with id `span_id`: its
    /// attributes, status and end time are set. Nothing changes when no span
    /// has that id.
    pub fn span_ended(&mut self, span_id: SpanId, attributes: M, status: SpanStatus, ended_at: T)
        ensures
            final(self).spans@ == spans_after_end(old(self).spans@, span_id@, attributes, status, ended_at),
            final(self).effect_events@ == old(self).effect_events@,
            final(self).fiber_events@ == old(self).fiber_events@,
    {
        match find_latest(&self.spans, &span_id) {
            Some(k) => {
                let ghost before = self.spans@;
                proof {
                    lemma_latest_index(before, span_id@);
                }
                let mut rec = self.spans.remove(k);
                rec.attributes = attributes;
                rec.status = status;
                rec.ended_at = Some(ended_at);
                self.spans.insert(k, rec);
                proof {
                    assert(self.spans@ =~= before.update(
                        k as int,
                        ended_record(before[k as int], attributes, status, ended_at),
                    ));
                }
            },
            None => {},
        }
    }

    /// Appends an event to the most recently started span with id `span_id`.
    /// Nothing changes when no span has that id.
    pub fn span_event(&mut self, span_id: SpanId, name: String, attributes: M, occurred_at: T)
        ensures
            spans_after_event(
                old(self).spans@,
                final(self).spans@,
                span_id@,
                SpanEvent { name: name, attributes: attributes, occurred_at: occurred_at },
            ),
            final(self).effect_events@ == old(self).effect_events@,
            final(self).fiber_events@ == old(self).fiber_events@,
    {
        let ghost e = SpanEvent { name: name, attributes: attributes, occurred_at: occurred_at };
        match find_latest(&self.spans, &span_id) {
            Some(k) => {
                let ghost before = self.spans@;
                proof {
                    lemma_latest_index(before, span_id@);
                }
                let mut rec = self.spans.remove(k);
                rec.events.push(SpanEvent { name, attributes, occurred_at });
                self.spans.insert(k, rec);
                proof {
                    assert forall|j: int| 0 <= j < before.len() && j != k implies self.spans@[j] == before[j] by {
                        if j < k {
                        } else {
                            assert(self.spans@[j] == before.remove(k as int)[j - 1]);
                        }
                    }
                    assert(self.spans@[k as int].events@ == before[k as int].events@.push(e));
                }
            },
            None => {},
        }
    }

    /// Replaces the attributes of the most recently started span with id
    /// `span_id` by `update` applied to them (how an annotation of the
    /// current span reaches the log). Nothing changes when no span has that id.
    pub fn update_attributes<F: FnOnce(M) -> M>(&mut self, span_id: SpanId, update: F)
        requires
            forall|m: M| call_requires(update, (m,)),
        ensures
            match latest_index(old(self).spans@, span_id@) {
                Some(k) => {
                    &&& final(self).spans@.len() == old(self).spans@.len()
                    &&& forall|j: int| 0 <= j < old(self).spans@.len() && j != k ==> final(self).spans@[j] == old(self).spans@[j]
                    &&& attributes_updated(old(self).spans@[k], final(self).spans@[k], update)
                },
                None => final(self).spans@ == old(self).spans@,
            },
            final(self).effect_events@ == old(self).effect_events@,
            final(self).fiber_events@ == old(self).fiber_events@,
    {
        match find_latest(&self.spans, &span_id) {
            Some(k) => {
                let ghost before = self.spans@;
                proof {
                    lemma_latest_index(before, span_id@);
                }
                let rec = self.spans.remove(k);
                let SpanRecord {
                    name,
                    context,
                    parent_span_id,
                    level,
                    status,
                    attributes,
                    events,
                    started_at,
                    ended_at,
                } = rec;
                let attributes = update(attributes);
                self.spans.insert(
                    k,
                    SpanRecord {
                        name,
                        context,
                        parent_span_id,
                        level,
                        status,
                        attributes,
                        events,
                        started_at,
                        ended_at,
                    },
                );
                proof {
                    assert forall|j: int| 0 <= j < before.len() && j != k implies self.spans@[j] == before[j] by {
                        if j > k {
                            assert(self.spans@[j] == before.remove(k as int)[j - 1]);
                        }
                    }
                }
            },
            None => {},
        }
    }

    /// Forgets everything recorded (a fresh installation of tracing).
    pub fn clear(&mut self)
        ensures
            final(self).effect_events@ == Seq::<EffectEvent>::empty(),
            final(self).fiber_events@ == Seq::<FiberEvent>::empty(),
            final(self).spans@ == Seq::<SpanRecord<T, M>>::empty(),
    {
        self.effect_events.clear();
        self.fiber_events.clear();
        self.spans.clear();
    }

    /// Records an effect lifecycle event.
    pub fn effect_event(&mut self, event: EffectEvent)
        ensures
            final(self).effect_events@ == old(self).effect_events@.push(event),
            final(self).fiber_events@ == old(self).fiber_events@,
            final(self).spans@ == old(self).spans@,
    {
        self.effect_events.push(event);
    }

    /// Records a fiber lifecycle event.
    pub fn fiber_event(&mut self, event: FiberEvent)
        ensures
            final(self).fiber_events@ == old(self).fiber_events@.push(event),
            final(self).effect_events@ == old(self).effect_events@,
            final(self).spans@ == old(self).spans@,
    {
        self.fiber_events.push(event);
    }
}

// ---------------------------------------------------------------------------
// Laws.

/// Ending a span right after it started completes that span, at the end of
/// the log, and leaves every earlier span as it was.
pub proof fn law_end_after_start_completes_it<T, M>(
    spans: Seq<SpanRecord<T, M>>,
    span: SpanRecord<T, M>,
    attributes: M,
    status: SpanStatus,
    ended_at: T,
)
    ensures
        spans_after_end(spans.push(span), span.context.span_id@, attributes, status, ended_at) == spans.push(
            ended_record(span, attributes, status, ended_at),
        ),
{
    assert(spans.push(span).last() == span);
    assert(spans.push(span).update(spans.len() as int, ended_record(span, attributes, status, ended_at)) =~= spans.push(
        ended_record(span, attributes, status, ended_at),
    ));
}

/// Ending spans never adds or drops a span, and only the latest span with
/// the ended id changes.
pub proof fn law_end_changes_only_the_latest_match<T, M>(
    spans: Seq<SpanRecord<T, M>>,
    id: Seq<u8>,
    attributes: M,
    status: SpanStatus,
    ended_at: T,
    j: int,
)
    requires
        0 <= j < spans.len(),
        latest_index(spans, id) != Some(j),
    ensures
        spans_after_end(spans, id, attributes, status, ended_at).len() == spans.len(),
        spans_after_end(spans, id, attributes, status, ended_at)[j] == spans[j],
{
    lemma_latest_index(spans, id);
}

} // verus!
