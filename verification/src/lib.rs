//! Verified core of the effectful workspace: trace context headers and the
//! trace log, layer dependency planning, collections, configuration reads,
//! composable logging, tagged error dispatch, test-harness hygiene checks and
//! the decisions of the style lints.
use vstd::prelude::*;

pub mod collections;
pub mod config;
pub mod hygiene;
pub mod layer_graph;
pub mod lint_rules;
pub mod lint_text;
pub mod logger;
pub mod order;
pub mod pubsub;
pub mod spans;
pub mod tagged;
pub mod text;
pub mod trace_log;
pub mod traceparent;
pub mod typed_layer;

verus! {

} // verus!
