use std::cell::RefCell;

use effectful::logger::{
    decimal, format_tracing_line, CompositeLogBackend, EffectLoggerError, LogBackend, LogLevel, LogRecord, Logger,
};

struct Recording {
    name: &'static str,
    fail: bool,
    seen: RefCell<Vec<String>>,
}

impl LogBackend for Recording {
    fn emit(&self, rec: &LogRecord) -> Result<(), EffectLoggerError> {
        self.seen.borrow_mut().push(format!("{}:{}", self.name, rec.message));
        if self.fail {
            Err(EffectLoggerError::Sink(format!("{} failed", self.name)))
        } else {
            Ok(())
        }
    }
}

fn backend(name: &'static str, fail: bool) -> Recording {
    Recording { name, fail, seen: RefCell::new(Vec::new()) }
}

fn record(message: &str) -> LogRecord {
    LogRecord { level: LogLevel::Info, message: message.to_string(), annotations: Vec::new(), spans: Vec::new() }
}

#[test]
fn composite_fans_out_in_order_and_stops_at_first_error() {
    let mut c = CompositeLogBackend::new();
    c.add(backend("a", false)).unwrap();
    c.add(backend("b", true)).unwrap();
    c.add(backend("c", false)).unwrap();
    assert_eq!(c.len(), 3);
    assert_eq!(c.emit_all(&record("hi")), Err(EffectLoggerError::Sink("b failed".to_string())));
    assert_eq!(c.remove(1), Ok(()));
    assert_eq!(c.emit(&record("again")), Ok(()));
}

#[test]
fn composite_rejects_out_of_range_indices() {
    let mut c: CompositeLogBackend<Recording> = CompositeLogBackend::new();
    c.add(backend("a", false)).unwrap();
    assert_eq!(
        c.replace(3, backend("x", false)),
        Err(EffectLoggerError::Sink("logger replace: index 3 out of bounds (len 1)".to_string()))
    );
    assert_eq!(
        c.remove(10),
        Err(EffectLoggerError::Sink("logger remove: index 10 out of bounds (len 1)".to_string()))
    );
    assert_eq!(c.replace(0, backend("z", true)), Ok(()));
    assert!(c.emit_all(&record("m")).is_err());
    assert_eq!(c.len(), 1);
}

#[test]
fn tracing_line_shows_spans_message_and_fields() {
    let rec = LogRecord {
        level: LogLevel::Warn,
        message: "loaded".to_string(),
        annotations: vec![("rows".to_string(), "3".to_string()), ("db".to_string(), "main".to_string())],
        spans: vec!["outer".to_string(), "inner".to_string()],
    };
    assert_eq!(format_tracing_line(&rec), "[outer > inner] loaded rows=3 db=main");
    assert_eq!(format_tracing_line(&record("plain")), "plain");
}

#[test]
fn decimal_renders_like_display() {
    for n in [0usize, 7, 10, 99, 100, 12345, usize::MAX] {
        assert_eq!(decimal(n), n.to_string());
    }
}

#[test]
fn removing_the_backend_just_added_restores_the_list() {
    let mut c = CompositeLogBackend::new();
    c.add(backend("a", false)).unwrap();
    c.add(backend("bad", true)).unwrap();
    assert!(c.emit_all(&record("x")).is_err());
    assert_eq!(c.remove(1), Ok(()));
    assert_eq!(c.len(), 1);
    assert_eq!(c.emit_all(&record("x")), Ok(()));
}
