//! Value types shared by the ingestion pipeline and the topology store,
//! together with the spec-level derivations (node ids, edge keys, label
//! and duration arithmetic) that the contracts are stated over.
//!
//! Times and durations are carried in integer nanoseconds; presentation
//! layers may divide into milliseconds when rendering.

use vstd::prelude::*;

verus! {

/// A topology vertex, keyed by its `id` (the resolved `target::name` of
/// the spans aggregated under it).
pub struct Node {
    pub id: String,
    pub label: String,
    pub category: String,
    pub span_count: u64,
}

/// A directed topology edge from `source` to `target`, counting how many
/// child spans flowed across it.
pub struct Edge {
    pub source: String,
    pub target: String,
    pub flow_count: u64,
}

/// A single decoded span, as handed to ingestion.  Identifiers are the
/// lowercase-hex renderings of the wire bytes; an empty parent id on the
/// wire becomes `parent_span_id == None`.
pub struct SpanEvent {
    pub trace_id: String,
    pub span_id: String,
    pub parent_span_id: Option<String>,
    pub name: String,
    pub target: String,
    pub start_time_unix_nano: u64,
    pub end_time_unix_nano: u64,
    pub attributes: Vec<(String, String)>,
    pub status: String,
    pub service_name: String,
}

/// The lightweight per-span event fanned out to subscribers.  Attributes
/// are deliberately omitted; `from_node` and `edge_latency_nanos` are
/// resolved against the span indexes at ingest time.
pub struct SpanArrivedPayload {
    pub trace_id: String,
    pub span_id: String,
    pub parent_span_id: Option<String>,
    pub name: String,
    pub target: String,
    pub start_time_unix_nano: u64,
    pub end_time_unix_nano: u64,
    pub status: String,
    pub service_name: String,
    pub from_node: Option<String>,
    pub to_node: String,
    pub edge_latency_nanos: Option<u64>,
}

/// A finalized trace: its spans sorted by ascending start time, plus the
/// derived summary fields.
pub struct TraceComplete {
    pub trace_id: String,
    pub spans: Vec<SpanEvent>,
    pub root_span_name: String,
    pub duration_nanos: u64,
    pub started_at: u64,
}

/// A snapshot of the current topology, either sent to a newly connected
/// client or broadcast after the throttle gate opens.
pub struct TopologyUpdate {
    pub nodes: Vec<Node>,
    pub edges: Vec<Edge>,
}

/// Everything one export call produces for broadcasting: at most one
/// batch message with every span payload, at most one throttled
/// topology update, and the traces finalized by root arrival.
pub struct ExportOutcome {
    pub batch_message: Option<Vec<SpanArrivedPayload>>,
    pub topology: Option<TopologyUpdate>,
    pub completed: Vec<TraceComplete>,
}

/// The periodic statistics heartbeat.
pub struct StatsSnapshot {
    pub total_traces: u64,
    pub active_nodes: usize,
    pub timestamp_ms: u64,
}

/// The node id a span aggregates under: `target::name`.
pub open spec fn node_id_of(target: Seq<char>, name: Seq<char>) -> Seq<char> {
    target + "::"@ + name
}

/// Sum of `span_count` over a sequence of nodes.
pub open spec fn sum_span_counts(nodes: Seq<Node>) -> int
    decreases nodes.len(),
{
    if nodes.len() == 0 {
        0
    } else {
        sum_span_counts(nodes.drop_last()) + nodes.last().span_count
    }
}

/// Sum of `flow_count` over a sequence of edges.
pub open spec fn sum_flow_counts(edges: Seq<Edge>) -> int
    decreases edges.len(),
{
    if edges.len() == 0 {
        0
    } else {
        sum_flow_counts(edges.drop_last()) + edges.last().flow_count
    }
}

/// The delay from a parent span's start to its child's start, clamped at
/// zero when the child's clock reads earlier.
pub open spec fn latency_nanos(child_start: u64, parent_start: u64) -> u64 {
    if child_start >= parent_start {
        (child_start - parent_start) as u64
    } else {
        0
    }
}

} // verus!
