//! Composable log backends: an ordered fan-out list of sinks, and the line
//! format used when forwarding records to a text logger.
use vstd::prelude::*;

use crate::text::{join_strings, joined};

verus! {

/// Severity of a log line.
#[derive(Clone, Copy, Debug, PartialEq, Eq)]
pub enum LogLevel {
    /// Finest detail.
    Trace,
    /// Debugging detail.
    Debug,
    /// Normal operation.
    Info,
    /// Something unexpected.
    Warn,
    /// A failure.
    Error,
    /// A failure that stops the program.
    Fatal,
    /// Logging switched off for this line.
    Off,
}

/// Why a log sink failed.
#[derive(Clone, Debug, PartialEq, Eq)]
pub enum EffectLoggerError {
    /// The sink could not take the line.
    Sink(String),
}

/// One log event passed to each backend in a [`CompositeLogBackend`].
#[derive(Clone, Debug)]
pub struct LogRecord {
    /// Severity of this line.
    pub level: LogLevel,
    /// Human-readable message body.
    pub message: String,
    /// Structured key/value fields merged into the formatted line, in order
    /// (the record's field map as its entries; the writer of a record keeps
    /// each key once).
    pub annotations: Vec<(String, String)>,
    /// Active span names from outermost to innermost.
    pub spans: Vec<String>,
}

/// Sink for [`LogRecord`] values (text logger, JSON file, tests, ...).
pub trait LogBackend {
    /// Deliver one record to this sink.
    fn emit(&self, rec: &LogRecord) -> Result<(), EffectLoggerError>;
}

/// Composable logger: add, replace and remove backends of an ordered list.
pub trait Logger<B> {
    /// Append a backend to the ordered fan-out list.
    fn add(&mut self, backend: B) -> Result<(), EffectLoggerError>;

    /// Swap the backend at `idx` without changing the list length.
    fn replace(&mut self, idx: usize, backend: B) -> Result<(), EffectLoggerError>;

    /// Remove the backend at `idx`, shifting later entries down.
    fn remove(&mut self, idx: usize) -> Result<(), EffectLoggerError>;
}

// ---------------------------------------------------------------------------
// Decimal numbers.

/// The decimal digits of `n`.
pub open spec fn decimal_text(n: nat) -> Seq<char>
    decreases n,
{
    if n < 10 {
        seq![((n + 48) as u8) as char]
    } else {
        decimal_text(n / 10).push((((n % 10) + 48) as u8) as char)
    }
}

/// `n` in decimal.
pub fn decimal(n: usize) -> (s: String)
    ensures
        s@ == decimal_text(n as nat),
    decreases n,
{
    let d = ((n % 10) as u8 + 48u8) as char;
    if n < 10 {
        let mut s = String::new();
        crate::text::push_char(&mut s, d);
        proof {
            assert(s@ =~= decimal_text(n as nat));
        }
        s
    } else {
        let mut s = decimal(n / 10);
        crate::text::push_char(&mut s, d);
        s
    }
}

/// Message for an index past the end of the backend list.
pub open spec fn out_of_bounds_text(op: Seq<char>, idx: usize, len: nat) -> Seq<char> {
    "logger "@ + op + ": index "@ + decimal_text(idx as nat) + " out of bounds (len "@ + decimal_text(len) + ")"@
}

fn out_of_bounds(op: &str, idx: usize, len: usize) -> (e: EffectLoggerError)
    ensures
        e matches EffectLoggerError::Sink(m) && m@ == out_of_bounds_text(op@, idx, len as nat),
{
    let mut m = String::from_str("logger ");
    m.append(op);
    m.append(": index ");
    let i = decimal(idx);
    m.append(i.as_str());
    m.append(" out of bounds (len ");
    let l = decimal(len);
    m.append(l.as_str());
    m.append(")");
    EffectLoggerError::Sink(m)
}

// ---------------------------------------------------------------------------
// The composite backend.

/// Ordered list of backends; also a [`LogBackend`] by fan-out.
pub struct CompositeLogBackend<B> {
    backends: Vec<B>,
}

impl<B> View for CompositeLogBackend<B> {
    type V = Seq<B>;

    closed spec fn view(&self) -> Seq<B> {
        self.backends@
    }
}

impl<B> CompositeLogBackend<B> {
    /// Empty backend list; use [`Logger::add`] to register sinks.
    pub fn new() -> (c: Self)
        ensures
            c@ == Seq::<B>::empty(),
    {
        CompositeLogBackend { backends: Vec::new() }
    }

    /// Number of registered backends.
    pub fn len(&self) -> (n: usize)
        ensures
            n == self@.len(),
    {
        self.backends.len()
    }
}

/// Delivering `rec` to the backend `b` can answer `r`.
pub open spec fn emit_gives<B: LogBackend>(b: B, rec: LogRecord, r: Result<(), EffectLoggerError>) -> bool {
    call_ensures(B::emit, (&b, &rec), r)
}

/// The answer of a fan-out over `backends`: `Ok` when every backend took the
/// record, else the error of the first backend that refused it (all before
/// it took the record).
pub open spec fn fan_out_gives<B: LogBackend>(backends: Seq<B>, rec: LogRecord, r: Result<(), EffectLoggerError>) -> bool {
    match r {
        Ok(_) => forall|i: int| 0 <= i < backends.len() ==> emit_gives(#[trigger] backends[i], rec, Ok(())),
        Err(e) => exists|i: int|
            0 <= i < backends.len() && emit_gives(#[trigger] backends[i], rec, Err(e)) && forall|j: int|
                0 <= j < i ==> emit_gives(#[trigger] backends[j], rec, Ok(())),
    }
}

impl<B: LogBackend> CompositeLogBackend<B> {
    /// Emit to every registered backend in order, stopping at the first error.
    pub fn emit_all(&self, rec: &LogRecord) -> (r: Result<(), EffectLoggerError>)
        ensures
            self@.len() == 0 ==> r is Ok,
            fan_out_gives(self@, *rec, r),
    {
        let mut i: usize = 0;
        while i < self.backends.len()
            invariant
                i <= self@.len(),
                forall|j: int| 0 <= j < i ==> emit_gives(#[trigger] self@[j], *rec, Ok(())),
            decreases self@.len() - i,
        {
            let emit = B::emit;
            let r = emit(&self.backends[i], rec);
            match r {
                Ok(u) => {
                    proof {
                        assert(u == ());
                        assert(r == Ok::<(), EffectLoggerError>(u));
                        assert(emit_gives(self@[i as int], *rec, Ok(())));
                    }
                },
                Err(e) => {
                    proof {
                        assert(emit_gives(self@[i as int], *rec, Err(e)));
                    }
                    return Err(e);
                },
            }
            i = i + 1;
        }
        Ok(())
    }
}

impl<B> Logger<B> for CompositeLogBackend<B> {
    fn add(&mut self, backend: B) -> (r: Result<(), EffectLoggerError>)
        ensures
            r is Ok,
            final(self)@ == old(self)@.push(backend),
    {
        self.backends.push(backend);
        Ok(())
    }

    fn replace(&mut self, idx: usize, backend: B) -> (r: Result<(), EffectLoggerError>)
        ensures
            idx < old(self)@.len() ==> r is Ok && final(self)@ == old(self)@.update(idx as int, backend),
            idx >= old(self)@.len() ==> final(self)@ == old(self)@ && (r matches Err(EffectLoggerError::Sink(m))
                && m@ == out_of_bounds_text("replace"@, idx, old(self)@.len())),
    {
        if idx >= self.backends.len() {
            return Err(out_of_bounds("replace", idx, self.backends.len()));
        }
        self.backends.set(idx, backend);
        Ok(())
    }

    fn remove(&mut self, idx: usize) -> (r: Result<(), EffectLoggerError>)
        ensures
            idx < old(self)@.len() ==> r is Ok && final(self)@ == old(self)@.remove(idx as int),
            idx >= old(self)@.len() ==> final(self)@ == old(self)@ && (r matches Err(EffectLoggerError::Sink(m))
                && m@ == out_of_bounds_text("remove"@, idx, old(self)@.len())),
    {
        if idx >= self.backends.len() {
            return Err(out_of_bounds("remove", idx, self.backends.len()));
        }
        self.backends.remove(idx);
        Ok(())
    }
}

impl<B: LogBackend> LogBackend for CompositeLogBackend<B> {
    fn emit(&self, rec: &LogRecord) -> (r: Result<(), EffectLoggerError>)
        ensures
            self@.len() == 0 ==> r is Ok,
            fan_out_gives(self@, *rec, r),
    {
        self.emit_all(rec)
    }
}

// ---------------------------------------------------------------------------
// Text lines.

/// ` key=value` for each annotation, in order.
pub open spec fn annotation_text(a: Seq<(String, String)>) -> Seq<char>
    decreases a.len(),
{
    if a.len() == 0 {
        Seq::empty()
    } else {
        annotation_text(a.drop_last()) + " "@ + a.last().0@ + "="@ + a.last().1@
    }
}

/// The line forwarded to a text logger: `[outer > inner] ` when spans are
/// active, the message, then ` key=value` per annotation.
pub open spec fn tracing_line_text(rec: LogRecord) -> Seq<char> {
    (if rec.spans@.len() > 0 { "["@ + joined(rec.spans.deep_view(), " > "@) + "] "@ } else { Seq::empty() })
        + rec.message@ + annotation_text(rec.annotations@)
}

/// Formats a record as one text line.
pub fn format_tracing_line(rec: &LogRecord) -> (s: String)
    ensures
        s@ == tracing_line_text(*rec),
{
    let mut full = String::new();
    if rec.spans.len() > 0 {
        full.append("[");
        let j = join_strings(&rec.spans, " > ");
        full.append(j.as_str());
        full.append("] ");
    }
    full.append(rec.message.as_str());
    let ghost head = full@;
    let mut i: usize = 0;
    proof {
        assert(rec.annotations@.take(0) =~= Seq::<(String, String)>::empty());
        assert(full@ =~= head + annotation_text(rec.annotations@.take(0)));
    }
    while i < rec.annotations.len()
        invariant
            i <= rec.annotations@.len(),
            full@ == head + annotation_text(rec.annotations@.take(i as int)),
        decreases rec.annotations@.len() - i,
    {
        let (k, v) = &rec.annotations[i];
        full.append(" ");
        full.append(k.as_str());
        full.append("=");
        full.append(v.as_str());
        proof {
            assert(rec.annotations@.take(i as int + 1).drop_last() =~= rec.annotations@.take(i as int));
            assert(rec.annotations@.take(i as int + 1).last() == rec.annotations@[i as int]);
        }
        i = i + 1;
    }
    proof {
        assert(rec.annotations@.take(i as int) =~= rec.annotations@);
    }
    full
}

// ---------------------------------------------------------------------------
// Laws.

/// Removing the backend that was just added restores the list, and replacing
/// a backend keeps the list's length.
pub proof fn law_remove_undoes_add<B>(backends: Seq<B>, b: B, idx: int, c: B)
    ensures
        backends.push(b).remove(backends.len() as int) == backends,
        0 <= idx < backends.len() ==> backends.update(idx, c).len() == backends.len(),
{
    assert(backends.push(b).remove(backends.len() as int) =~= backends);
}

/// A record with no spans and no fields is printed as its message alone.
pub proof fn law_bare_record_line_is_its_message(rec: LogRecord)
    requires
        rec.spans@.len() == 0,
        rec.annotations@.len() == 0,
    ensures
        tracing_line_text(rec) == rec.message@,
{
    assert(tracing_line_text(rec) =~= rec.message@);
}

/// Adding a field to a record appends ` key=value` to its line, whether or
/// not the record carries spans; everything before stays as it was.
pub proof fn law_each_field_appends_key_value(r1: LogRecord, r2: LogRecord, key: String, value: String)
    requires
        r2.message@ == r1.message@,
        r2.spans.deep_view() == r1.spans.deep_view(),
        r2.annotations@ == r1.annotations@.push((key, value)),
    ensures
        tracing_line_text(r2) == tracing_line_text(r1) + " "@ + key@ + "="@ + value@,
{
    assert(r2.spans@.len() == r2.spans.deep_view().len());
    assert(r1.spans@.len() == r1.spans.deep_view().len());
    assert(r2.annotations@.drop_last() =~= r1.annotations@);
    assert(r2.annotations@.last() == (key, value));
    assert(tracing_line_text(r2) =~= tracing_line_text(r1) + " "@ + key@ + "="@ + value@);
}

/// A record with spans is printed as `[outer > inner] ` followed by the line
/// the same record has without spans.
pub proof fn law_spans_prefix_the_line(r1: LogRecord, r2: LogRecord)
    requires
        r1.spans@.len() == 0,
        r2.spans@.len() > 0,
        r2.message@ == r1.message@,
        r2.annotations@ == r1.annotations@,
    ensures
        tracing_line_text(r2) == "["@ + joined(r2.spans.deep_view(), " > "@) + "] "@ + tracing_line_text(r1),
{
    assert(tracing_line_text(r2) =~= "["@ + joined(r2.spans.deep_view(), " > "@) + "] "@ + tracing_line_text(r1));
}

} // verus!
