# effectful (verified core)

The logic of the effectful workspace, written in Verus with its behaviour
stated as `requires` / `ensures` contracts and proved.

- `src/` — the verified library:
  - `traceparent`: W3C `traceparent` rendering and parsing, trace/span ids and flags.
  - `spans`, `trace_log`: tracing modes, sampling, span routing decisions, the
    step function of a span run, and the in-memory trace log (spans, span
    events, lifecycle events).
  - `layer_graph`, `typed_layer`: dependency planning of layers (topological build
    order, duplicate/conflict/missing/cycle errors, diagnostics) and typed layers
    with provided/required service sets, merging and memoization.
  - `collections`: `Chunk`, `MutableList`, `ChunkBuilder`, a character `Trie`, and
    persistent / mutable hash sets.
  - `config`: typed reads of configuration values (strings, integers, booleans, lists).
  - `logger`: composite log backends and the text line format; a record's
    structured fields are a list of key/value pairs, in the order they are given.
  - `tagged`: dispatch of tagged errors to their registered handlers.
  - `hygiene`: leaked-fiber and unclosed-scope checks of the test harness.
  - `pubsub`: ring sizes and publish decisions of broadcast hubs.
  - `lint_text`, `lint_rules`: the source-text checks and decisions of the style lints.
  - `text`, `order`: shared helpers and lemmas on characters and lexicographic order.
- `tests/` — tests run against the compiled library.
- `app/` — runtime glue that the verifier does not see: process-wide tracing state,
  the shared trace log, per-thread hygiene counters, the type-erased service context,
  a floating-point configuration read and JSON schema fragments.
