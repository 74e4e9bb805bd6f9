//! The shared application store and every transition on it: span
//! ingestion, the throttled topology broadcast gate, trace finalization,
//! and stale-trace eviction.
//!
//! The store is a plain value; callers that share it across tasks
//! serialize access around it and inject clock readings, so that every
//! transition here is specified and proved as a function of its inputs.

use vstd::multiset::Multiset;
use vstd::prelude::*;

use crate::model::{
    Edge, ExportOutcome, Node, SpanArrivedPayload, SpanEvent, StatsSnapshot, TopologyUpdate,
    TraceComplete, latency_nanos, node_id_of, sum_flow_counts, sum_span_counts,
};

verus! {

/// One entry of the span-name index: span id to the node id
/// (`target::name`) of that span, used for parent-edge discovery.
pub struct NameEntry {
    pub span_id: String,
    pub node_id: String,
}

/// One entry of the span-start index: span id to its start time, used
/// for edge-latency derivation.
pub struct StartEntry {
    pub span_id: String,
    pub start_nanos: u64,
}

/// One in-flight trace: every span of it ingested so far, keyed by span
/// id (ids are unique within an entry).
pub struct TraceEntry {
    pub trace_id: String,
    pub spans: Vec<SpanEvent>,
}

/// The shared store: cumulative topology, in-flight traces, the two
/// span indexes, the counters, and the topology-broadcast throttle.
pub struct AppState {
    pub nodes: Vec<Node>,
    pub edges: Vec<Edge>,
    pub in_flight: Vec<TraceEntry>,
    pub span_names: Vec<NameEntry>,
    pub span_starts: Vec<StartEntry>,
    pub total_spans: u64,
    pub total_traces: u64,
    pub last_topo_ms: u64,
}

/// Minimum spacing, in milliseconds, between two topology broadcasts.
pub const TOPOLOGY_INTERVAL_MS: u64 = 500;

// ---------------------------------------------------------------------
// Lookup predicates over the keyed sequences.
// ---------------------------------------------------------------------

pub open spec fn has_node(nodes: Seq<Node>, id: Seq<char>) -> bool {
    exists|i: int| 0 <= i < nodes.len() && nodes[i].id@ == id
}

pub open spec fn node_index(nodes: Seq<Node>, id: Seq<char>) -> int {
    choose|i: int| 0 <= i < nodes.len() && nodes[i].id@ == id
}

pub open spec fn has_edge(edges: Seq<Edge>, src: Seq<char>, dst: Seq<char>) -> bool {
    exists|i: int| 0 <= i < edges.len() && edges[i].source@ == src && edges[i].target@ == dst
}

pub open spec fn edge_index(edges: Seq<Edge>, src: Seq<char>, dst: Seq<char>) -> int {
    choose|i: int| 0 <= i < edges.len() && edges[i].source@ == src && edges[i].target@ == dst
}

pub open spec fn has_trace(traces: Seq<TraceEntry>, tid: Seq<char>) -> bool {
    exists|i: int| 0 <= i < traces.len() && traces[i].trace_id@ == tid
}

pub open spec fn trace_index(traces: Seq<TraceEntry>, tid: Seq<char>) -> int {
    choose|i: int| 0 <= i < traces.len() && traces[i].trace_id@ == tid
}

pub open spec fn has_name(names: Seq<NameEntry>, sid: Seq<char>) -> bool {
    exists|i: int| 0 <= i < names.len() && names[i].span_id@ == sid
}

pub open spec fn name_index(names: Seq<NameEntry>, sid: Seq<char>) -> int {
    choose|i: int| 0 <= i < names.len() && names[i].span_id@ == sid
}

pub open spec fn has_start(starts: Seq<StartEntry>, sid: Seq<char>) -> bool {
    exists|i: int| 0 <= i < starts.len() && starts[i].span_id@ == sid
}

pub open spec fn start_index(starts: Seq<StartEntry>, sid: Seq<char>) -> int {
    choose|i: int| 0 <= i < starts.len() && starts[i].span_id@ == sid
}

pub open spec fn has_span(spans: Seq<SpanEvent>, sid: Seq<char>) -> bool {
    exists|i: int| 0 <= i < spans.len() && spans[i].span_id@ == sid
}

pub open spec fn span_index(spans: Seq<SpanEvent>, sid: Seq<char>) -> int {
    choose|i: int| 0 <= i < spans.len() && spans[i].span_id@ == sid
}

/// The node id the span-name index resolves a span id to, if any.
pub open spec fn lookup_name(names: Seq<NameEntry>, sid: Seq<char>) -> Option<Seq<char>> {
    if has_name(names, sid) {
        Some(names[name_index(names, sid)].node_id@)
    } else {
        None
    }
}

/// The start time the span-start index resolves a span id to, if any.
pub open spec fn lookup_start(starts: Seq<StartEntry>, sid: Seq<char>) -> Option<u64> {
    if has_start(starts, sid) {
        Some(starts[start_index(starts, sid)].start_nanos)
    } else {
        None
    }
}

/// The view of an optional owned string.
pub open spec fn opt_view(o: Option<String>) -> Option<Seq<char>> {
    match o {
        Some(s) => Some(s@),
        None => None,
    }
}

// ---------------------------------------------------------------------
// Well-formedness.
// ---------------------------------------------------------------------

pub open spec fn nodes_distinct(nodes: Seq<Node>) -> bool {
    forall|i: int, j: int|
        0 <= i < j < nodes.len() ==> nodes[i].id@ != nodes[j].id@
}

pub open spec fn edges_distinct(edges: Seq<Edge>) -> bool {
    forall|i: int, j: int|
        0 <= i < j < edges.len()
            ==> !(edges[i].source@ == edges[j].source@ && edges[i].target@ == edges[j].target@)
}

/// No edge ever connects a node to itself.
pub open spec fn no_self_edges(edges: Seq<Edge>) -> bool {
    forall|i: int| 0 <= i < edges.len() ==> edges[i].source@ != edges[i].target@
}

pub open spec fn traces_distinct(traces: Seq<TraceEntry>) -> bool {
    forall|i: int, j: int|
        0 <= i < j < traces.len() ==> traces[i].trace_id@ != traces[j].trace_id@
}

pub open spec fn spans_distinct(spans: Seq<SpanEvent>) -> bool {
    forall|i: int, j: int|
        0 <= i < j < spans.len() ==> spans[i].span_id@ != spans[j].span_id@
}

pub open spec fn names_distinct(names: Seq<NameEntry>) -> bool {
    forall|i: int, j: int|
        0 <= i < j < names.len() ==> names[i].span_id@ != names[j].span_id@
}

pub open spec fn starts_distinct(starts: Seq<StartEntry>) -> bool {
    forall|i: int, j: int|
        0 <= i < j < starts.len() ==> starts[i].span_id@ != starts[j].span_id@
}

impl AppState {
    /// Well-formedness of the store.  Beyond key uniqueness it carries
    /// the counting invariants: the node span counts always add up to
    /// `total_spans`, the edge flow counts never exceed it, and no edge
    /// is a self-loop.
    pub open spec fn wf(self) -> bool {
        &&& nodes_distinct(self.nodes@)
        &&& edges_distinct(self.edges@)
        &&& no_self_edges(self.edges@)
        &&& traces_distinct(self.in_flight@)
        &&& forall|i: int|
            0 <= i < self.in_flight@.len()
                ==> (#[trigger] self.in_flight@[i]).spans@.len() >= 1
        &&& forall|i: int|
            0 <= i < self.in_flight@.len()
                ==> spans_distinct((#[trigger] self.in_flight@[i]).spans@)
        &&& names_distinct(self.span_names@)
        &&& starts_distinct(self.span_starts@)
        &&& sum_span_counts(self.nodes@) == self.total_spans
        &&& sum_flow_counts(self.edges@) <= self.total_spans
    }

    /// A fresh, empty store.
    pub fn new() -> (s: AppState)
        ensures
            s.wf(),
            s.nodes@.len() == 0,
            s.edges@.len() == 0,
            s.in_flight@.len() == 0,
            s.span_names@.len() == 0,
            s.span_starts@.len() == 0,
            s.total_spans == 0,
            s.total_traces == 0,
            s.last_topo_ms == 0,
    {
        AppState {
            nodes: Vec::new(),
            edges: Vec::new(),
            in_flight: Vec::new(),
            span_names: Vec::new(),
            span_starts: Vec::new(),
            total_spans: 0,
            total_traces: 0,
            last_topo_ms: 0,
        }
    }
}

// ---------------------------------------------------------------------
// Counting lemmas.
// ---------------------------------------------------------------------

/// Replacing one node changes the span-count sum by the difference at
/// that position.
pub proof fn lemma_sum_span_counts_update(nodes: Seq<Node>, i: int, n: Node)
    requires
        0 <= i < nodes.len(),
    ensures
        sum_span_counts(nodes.update(i, n))
            == sum_span_counts(nodes) - nodes[i].span_count + n.span_count,
    decreases nodes.len(),
{
    if i == nodes.len() - 1 {
        assert(nodes.update(i, n).drop_last() =~= nodes.drop_last());
    } else {
        assert(nodes.update(i, n).drop_last() =~= nodes.drop_last().update(i, n));
        lemma_sum_span_counts_update(nodes.drop_last(), i, n);
    }
}

/// Appending a node adds its count to the sum.
pub proof fn lemma_sum_span_counts_push(nodes: Seq<Node>, n: Node)
    ensures
        sum_span_counts(nodes.push(n)) == sum_span_counts(nodes) + n.span_count,
{
    assert(nodes.push(n).drop_last() =~= nodes);
}

/// Every node's count is bounded by the sum.
pub proof fn lemma_sum_span_counts_bound(nodes: Seq<Node>, i: int)
    requires
        0 <= i < nodes.len(),
    ensures
        nodes[i].span_count <= sum_span_counts(nodes),
    decreases nodes.len(),
{
    lemma_sum_span_counts_nonneg(nodes.drop_last());
    if i < nodes.len() - 1 {
        lemma_sum_span_counts_bound(nodes.drop_last(), i);
    }
}

pub proof fn lemma_sum_span_counts_nonneg(nodes: Seq<Node>)
    ensures
        sum_span_counts(nodes) >= 0,
    decreases nodes.len(),
{
    if nodes.len() > 0 {
        lemma_sum_span_counts_nonneg(nodes.drop_last());
    }
}

/// Replacing one edge changes the flow-count sum by the difference at
/// that position.
pub proof fn lemma_sum_flow_counts_update(edges: Seq<Edge>, i: int, e: Edge)
    requires
        0 <= i < edges.len(),
    ensures
        sum_flow_counts(edges.update(i, e))
            == sum_flow_counts(edges) - edges[i].flow_count + e.flow_count,
    decreases edges.len(),
{
    if i == edges.len() - 1 {
        assert(edges.update(i, e).drop_last() =~= edges.drop_last());
    } else {
        assert(edges.update(i, e).drop_last() =~= edges.drop_last().update(i, e));
        lemma_sum_flow_counts_update(edges.drop_last(), i, e);
    }
}

/// Appending an edge adds its count to the sum.
pub proof fn lemma_sum_flow_counts_push(edges: Seq<Edge>, e: Edge)
    ensures
        sum_flow_counts(edges.push(e)) == sum_flow_counts(edges) + e.flow_count,
{
    assert(edges.push(e).drop_last() =~= edges);
}

/// Every edge's count is bounded by the sum.
pub proof fn lemma_sum_flow_counts_bound(edges: Seq<Edge>, i: int)
    requires
        0 <= i < edges.len(),
    ensures
        edges[i].flow_count <= sum_flow_counts(edges),
    decreases edges.len(),
{
    lemma_sum_flow_counts_nonneg(edges.drop_last());
    if i < edges.len() - 1 {
        lemma_sum_flow_counts_bound(edges.drop_last(), i);
    }
}

pub proof fn lemma_sum_flow_counts_nonneg(edges: Seq<Edge>)
    ensures
        sum_flow_counts(edges) >= 0,
    decreases edges.len(),
{
    if edges.len() > 0 {
        lemma_sum_flow_counts_nonneg(edges.drop_last());
    }
}

// ---------------------------------------------------------------------
// Keyed lookups (linear scans over the association vectors).
// ---------------------------------------------------------------------

fn find_node(nodes: &Vec<Node>, id: &String) -> (r: Option<usize>)
    requires
        nodes_distinct(nodes@),
    ensures
        match r {
            Some(i) => has_node(nodes@, id@) && i as int == node_index(nodes@, id@)
                && i < nodes@.len() && nodes@[i as int].id@ == id@,
            None => !has_node(nodes@, id@),
        },
{
    let mut i: usize = 0;
    while i < nodes.len()
        invariant
            i <= nodes@.len(),
            nodes_distinct(nodes@),
            forall|j: int| 0 <= j < i ==> nodes@[j].id@ != id@,
        decreases nodes@.len() - i,
    {
        if nodes[i].id == *id {
            proof {
                let c = node_index(nodes@, id@);
                assert(0 <= c < nodes@.len() && nodes@[c].id@ == id@);
                assert(c == i);
            }
            return Some(i);
        }
        i = i + 1;
    }
    None
}

fn find_edge(edges: &Vec<Edge>, src: &String, dst: &String) -> (r: Option<usize>)
    requires
        edges_distinct(edges@),
    ensures
        match r {
            Some(i) => has_edge(edges@, src@, dst@) && i as int == edge_index(edges@, src@, dst@)
                && i < edges@.len() && edges@[i as int].source@ == src@
                && edges@[i as int].target@ == dst@,
            None => !has_edge(edges@, src@, dst@),
        },
{
    let mut i: usize = 0;
    while i < edges.len()
        invariant
            i <= edges@.len(),
            edges_distinct(edges@),
            forall|j: int|
                0 <= j < i ==> !(edges@[j].source@ == src@ && edges@[j].target@ == dst@),
        decreases edges@.len() - i,
    {
        if edges[i].source == *src && edges[i].target == *dst {
            proof {
                let c = edge_index(edges@, src@, dst@);
                assert(0 <= c < edges@.len() && edges@[c].source@ == src@
                    && edges@[c].target@ == dst@);
                assert(c == i);
            }
            return Some(i);
        }
        i = i + 1;
    }
    None
}

fn find_trace(traces: &Vec<TraceEntry>, tid: &String) -> (r: Option<usize>)
    requires
        traces_distinct(traces@),
    ensures
        match r {
            Some(i) => has_trace(traces@, tid@) && i as int == trace_index(traces@, tid@)
                && i < traces@.len() && traces@[i as int].trace_id@ == tid@,
            None => !has_trace(traces@, tid@),
        },
{
    let mut i: usize = 0;
    while i < traces.len()
        invariant
            i <= traces@.len(),
            traces_distinct(traces@),
            forall|j: int| 0 <= j < i ==> traces@[j].trace_id@ != tid@,
        decreases traces@.len() - i,
    {
        if traces[i].trace_id == *tid {
            proof {
                let c = trace_index(traces@, tid@);
                assert(0 <= c < traces@.len() && traces@[c].trace_id@ == tid@);
                assert(c == i);
            }
            return Some(i);
        }
        i = i + 1;
    }
    None
}

fn find_span(spans: &Vec<SpanEvent>, sid: &String) -> (r: Option<usize>)
    requires
        spans_distinct(spans@),
    ensures
        match r {
            Some(i) => has_span(spans@, sid@) && i as int == span_index(spans@, sid@)
                && i < spans@.len() && spans@[i as int].span_id@ == sid@,
            None => !has_span(spans@, sid@),
        },
{
    let mut i: usize = 0;
    while i < spans.len()
        invariant
            i <= spans@.len(),
            spans_distinct(spans@),
            forall|j: int| 0 <= j < i ==> spans@[j].span_id@ != sid@,
        decreases spans@.len() - i,
    {
        if spans[i].span_id == *sid {
            proof {
                let c = span_index(spans@, sid@);
                assert(0 <= c < spans@.len() && spans@[c].span_id@ == sid@);
                assert(c == i);
            }
            return Some(i);
        }
        i = i + 1;
    }
    None
}

/// Resolve a span id to its node id through the span-name index.
fn index_name(names: &Vec<NameEntry>, sid: &String) -> (r: Option<String>)
    requires
        names_distinct(names@),
    ensures
        opt_view(r) == lookup_name(names@, sid@),
{
    let mut i: usize = 0;
    while i < names.len()
        invariant
            i <= names@.len(),
            names_distinct(names@),
            forall|j: int| 0 <= j < i ==> names@[j].span_id@ != sid@,
        decreases names@.len() - i,
    {
        if names[i].span_id == *sid {
            proof {
                let c = name_index(names@, sid@);
                assert(0 <= c < names@.len() && names@[c].span_id@ == sid@);
                assert(c == i);
            }
            return Some(names[i].node_id.clone());
        }
        i = i + 1;
    }
    None
}

/// Resolve a span id to its start time through the span-start index.
fn index_start(starts: &Vec<StartEntry>, sid: &String) -> (r: Option<u64>)
    requires
        starts_distinct(starts@),
    ensures
        r == lookup_start(starts@, sid@),
{
    let mut i: usize = 0;
    while i < starts.len()
        invariant
            i <= starts@.len(),
            starts_distinct(starts@),
            forall|j: int| 0 <= j < i ==> starts@[j].span_id@ != sid@,
        decreases starts@.len() - i,
    {
        if starts[i].span_id == *sid {
            proof {
                let c = start_index(starts@, sid@);
                assert(0 <= c < starts@.len() && starts@[c].span_id@ == sid@);
                assert(c == i);
            }
            return Some(starts[i].start_nanos);
        }
        i = i + 1;
    }
    None
}

/// Build the `target::name` node id of a span.
fn node_id_string(target: &String, name: &String) -> (r: String)
    ensures
        r@ == node_id_of(target@, name@),
{
    let mut s = target.clone();
    s.append("::");
    s.append(name.as_str());
    s
}

// ---------------------------------------------------------------------
// Upserts.
// ---------------------------------------------------------------------

/// Count a span under its node, creating the node on first sight.
fn upsert_node(nodes: &mut Vec<Node>, node_id: String, name: &String, target: &String)
    requires
        nodes_distinct(old(nodes)@),
        sum_span_counts(old(nodes)@) < u64::MAX,
        node_id@ == node_id_of(target@, name@),
    ensures
        nodes_distinct(final(nodes)@),
        sum_span_counts(final(nodes)@) == sum_span_counts(old(nodes)@) + 1,
        has_node(old(nodes)@, node_id@) ==> final(nodes)@ =~= old(nodes)@.update(
            node_index(old(nodes)@, node_id@),
            Node {
                span_count: (old(nodes)@[node_index(old(nodes)@, node_id@)].span_count + 1) as u64,
                ..old(nodes)@[node_index(old(nodes)@, node_id@)]
            },
        ),
        !has_node(old(nodes)@, node_id@) ==> {
            &&& final(nodes)@.len() == old(nodes)@.len() + 1
            &&& final(nodes)@.drop_last() =~= old(nodes)@
            &&& final(nodes)@.last().id@ == node_id@
            &&& final(nodes)@.last().label@ == crate::label::label_of(name@)
            &&& final(nodes)@.last().category@ == target@
            &&& final(nodes)@.last().span_count == 1
        },
{
    match find_node(nodes, &node_id) {
        Some(i) => {
            proof {
                lemma_sum_span_counts_bound(nodes@, i as int);
            }
            let c = nodes[i].span_count;
            nodes[i].span_count = c + 1;
            proof {
                lemma_sum_span_counts_update(
                    old(nodes)@,
                    i as int,
                    final(nodes)@[i as int],
                );
                assert forall|a: int, b: int|
                    0 <= a < b < final(nodes)@.len() implies final(nodes)@[a].id@
                    != final(nodes)@[b].id@ by {
                    assert(final(nodes)@[a].id == old(nodes)@[a].id
                        || final(nodes)@[a].id == old(nodes)@[a].id);
                }
            }
        }
        None => {
            let label = crate::label::short_label(name.as_str());
            nodes.push(
                Node { id: node_id, label, category: target.clone(), span_count: 1 },
            );
            proof {
                lemma_sum_span_counts_push(old(nodes)@, final(nodes)@.last());
                assert(final(nodes)@.drop_last() =~= old(nodes)@);
            }
        }
    }
}

/// Count a parent-to-child flow on its edge, creating the edge on first
/// sight.  Self-edges are the caller's responsibility to exclude.
fn upsert_edge(edges: &mut Vec<Edge>, src: &String, dst: &String)
    requires
        edges_distinct(old(edges)@),
        no_self_edges(old(edges)@),
        src@ != dst@,
        sum_flow_counts(old(edges)@) < u64::MAX,
    ensures
        edges_distinct(final(edges)@),
        no_self_edges(final(edges)@),
        sum_flow_counts(final(edges)@) == sum_flow_counts(old(edges)@) + 1,
        has_edge(old(edges)@, src@, dst@) ==> final(edges)@ =~= old(edges)@.update(
            edge_index(old(edges)@, src@, dst@),
            Edge {
                flow_count: (old(edges)@[edge_index(old(edges)@, src@, dst@)].flow_count
                    + 1) as u64,
                ..old(edges)@[edge_index(old(edges)@, src@, dst@)]
            },
        ),
        !has_edge(old(edges)@, src@, dst@) ==> {
            &&& final(edges)@.len() == old(edges)@.len() + 1
            &&& final(edges)@.drop_last() =~= old(edges)@
            &&& final(edges)@.last().source@ == src@
            &&& final(edges)@.last().target@ == dst@
            &&& final(edges)@.last().flow_count == 1
        },
{
    match find_edge(edges, src, dst) {
        Some(i) => {
            proof {
                lemma_sum_flow_counts_bound(edges@, i as int);
            }
            let c = edges[i].flow_count;
            edges[i].flow_count = c + 1;
            proof {
                lemma_sum_flow_counts_update(
                    old(edges)@,
                    i as int,
                    final(edges)@[i as int],
                );
            }
        }
        None => {
            edges.push(
                Edge { source: src.clone(), target: dst.clone(), flow_count: 1 },
            );
            proof {
                lemma_sum_flow_counts_push(old(edges)@, final(edges)@.last());
                assert(final(edges)@.drop_last() =~= old(edges)@);
            }
        }
    }
}

/// Record a span under its trace's in-flight entry, creating the entry
/// on the trace's first span; a re-ingested span id replaces the
/// earlier span.
fn insert_in_flight(traces: &mut Vec<TraceEntry>, span: SpanEvent)
    requires
        traces_distinct(old(traces)@),
        forall|i: int|
            0 <= i < old(traces)@.len()
                ==> (#[trigger] old(traces)@[i]).spans@.len() >= 1,
        forall|i: int|
            0 <= i < old(traces)@.len()
                ==> spans_distinct((#[trigger] old(traces)@[i]).spans@),
    ensures
        traces_distinct(final(traces)@),
        forall|i: int|
            0 <= i < final(traces)@.len()
                ==> (#[trigger] final(traces)@[i]).spans@.len() >= 1,
        forall|i: int|
            0 <= i < final(traces)@.len()
                ==> spans_distinct((#[trigger] final(traces)@[i]).spans@),
        has_trace(final(traces)@, span.trace_id@),
        has_trace(old(traces)@, span.trace_id@) ==> {
            let t = trace_index(old(traces)@, span.trace_id@);
            let e = old(traces)@[t].spans@;
            &&& final(traces)@.len() == old(traces)@.len()
            &&& forall|j: int|
                0 <= j < old(traces)@.len() && j != t
                    ==> final(traces)@[j] == old(traces)@[j]
            &&& final(traces)@[t].trace_id@ == span.trace_id@
            &&& (has_span(e, span.span_id@) ==> final(traces)@[t].spans@ =~= e.update(
                span_index(e, span.span_id@),
                span,
            ))
            &&& (!has_span(e, span.span_id@) ==> final(traces)@[t].spans@ =~= e.push(span))
        },
        !has_trace(old(traces)@, span.trace_id@) ==> {
            &&& final(traces)@.len() == old(traces)@.len() + 1
            &&& final(traces)@.drop_last() =~= old(traces)@
            &&& final(traces)@.last().trace_id@ == span.trace_id@
            &&& final(traces)@.last().spans@ =~= seq![span]
        },
{
    let tid = span.trace_id.clone();
    match find_trace(traces, &tid) {
        Some(t) => {
            match find_span(&traces[t].spans, &span.span_id) {
                Some(k) => {
                    traces[t].spans[k] = span;
                }
                None => {
                    traces[t].spans.push(span);
                }
            }
            proof {
                assert(traces@[t as int].trace_id@ == span.trace_id@);
            }
        }
        None => {
            let sid = span.trace_id.clone();
            let mut spans: Vec<SpanEvent> = Vec::new();
            spans.push(span);
            traces.push(TraceEntry { trace_id: sid, spans });
            proof {
                assert(traces@[traces@.len() - 1].trace_id@ == span.trace_id@);
            }
        }
    }
}

// ---------------------------------------------------------------------
// Ingestion.
// ---------------------------------------------------------------------

/// What the span-name index resolves the span's parent id to, if
/// anything: the parent's node id.
pub open spec fn parent_lookup(s: AppState, span: SpanEvent) -> Option<Seq<char>> {
    match span.parent_span_id {
        Some(p) => lookup_name(s.span_names@, p@),
        None => None,
    }
}

/// The edge latency derived for the span when its parent's start time
/// is indexed: child start minus parent start, clamped at zero.
pub open spec fn parent_latency(s: AppState, span: SpanEvent) -> Option<u64> {
    match span.parent_span_id {
        Some(p) => match lookup_start(s.span_starts@, p@) {
            Some(ps) => Some(latency_nanos(span.start_time_unix_nano, ps)),
            None => None,
        },
        None => None,
    }
}

impl AppState {
    /// Ingest one span: count it (`total_spans` and its node's
    /// `span_count`), resolve its parent through the span indexes,
    /// record the parent edge unless it would be a self-edge, file the
    /// span under its in-flight trace, and return the lightweight
    /// payload for broadcasting.
    pub fn ingest_span(&mut self, span: SpanEvent) -> (payload: SpanArrivedPayload)
        requires
            old(self).wf(),
            old(self).total_spans < u64::MAX,
        ensures
            final(self).wf(),
            final(self).total_spans == old(self).total_spans + 1,
            final(self).total_traces == old(self).total_traces,
            final(self).last_topo_ms == old(self).last_topo_ms,
            final(self).span_names@ == old(self).span_names@,
            final(self).span_starts@ == old(self).span_starts@,
            payload.trace_id@ == span.trace_id@,
            payload.span_id@ == span.span_id@,
            opt_view(payload.parent_span_id) == opt_view(span.parent_span_id),
            payload.name@ == span.name@,
            payload.target@ == span.target@,
            payload.start_time_unix_nano == span.start_time_unix_nano,
            payload.end_time_unix_nano == span.end_time_unix_nano,
            payload.status@ == span.status@,
            payload.service_name@ == span.service_name@,
            payload.to_node@ == node_id_of(span.target@, span.name@),
            opt_view(payload.from_node) == parent_lookup(*old(self), span),
            payload.edge_latency_nanos == parent_latency(*old(self), span),
            sum_flow_counts(final(self).edges@) == sum_flow_counts(old(self).edges@) + (
            match parent_lookup(*old(self), span) {
                Some(f) => if f != node_id_of(span.target@, span.name@) {
                    1int
                } else {
                    0int
                },
                None => 0int,
            }),
            ({
                let nid = node_id_of(span.target@, span.name@);
                &&& has_node(old(self).nodes@, nid) ==> final(self).nodes@ =~= old(self).nodes@.update(
                    node_index(old(self).nodes@, nid),
                    Node {
                        span_count: (old(self).nodes@[node_index(old(self).nodes@, nid)].span_count
                            + 1) as u64,
                        ..old(self).nodes@[node_index(old(self).nodes@, nid)]
                    },
                )
                &&& !has_node(old(self).nodes@, nid) ==> {
                    &&& final(self).nodes@.len() == old(self).nodes@.len() + 1
                    &&& final(self).nodes@.drop_last() =~= old(self).nodes@
                    &&& final(self).nodes@.last().id@ == nid
                    &&& final(self).nodes@.last().label@ == crate::label::label_of(span.name@)
                    &&& final(self).nodes@.last().category@ == span.target@
                    &&& final(self).nodes@.last().span_count == 1
                }
            }),
            ({
                let nid = node_id_of(span.target@, span.name@);
                match parent_lookup(*old(self), span) {
                    Some(f) => {
                        &&& (f != nid && has_edge(old(self).edges@, f, nid)) ==> final(self).edges@ =~= old(self).edges@.update(
                            edge_index(old(self).edges@, f, nid),
                            Edge {
                                flow_count: (old(self).edges@[edge_index(
                                    old(self).edges@,
                                    f,
                                    nid,
                                )].flow_count + 1) as u64,
                                ..old(self).edges@[edge_index(old(self).edges@, f, nid)]
                            },
                        )
                        &&& (f != nid && !has_edge(old(self).edges@, f, nid)) ==> {
                            &&& final(self).edges@.len() == old(self).edges@.len() + 1
                            &&& final(self).edges@.drop_last() =~= old(self).edges@
                            &&& final(self).edges@.last().source@ == f
                            &&& final(self).edges@.last().target@ == nid
                            &&& final(self).edges@.last().flow_count == 1
                        }
                        &&& f == nid ==> final(self).edges@ == old(self).edges@
                    }
                    None => final(self).edges@ == old(self).edges@,
                }
            }),
            has_trace(final(self).in_flight@, span.trace_id@),
            has_trace(old(self).in_flight@, span.trace_id@) ==> {
                let t = trace_index(old(self).in_flight@, span.trace_id@);
                let e = old(self).in_flight@[t].spans@;
                &&& final(self).in_flight@.len() == old(self).in_flight@.len()
                &&& forall|j: int|
                    0 <= j < old(self).in_flight@.len() && j != t ==> final(self).in_flight@[j]
                        == old(self).in_flight@[j]
                &&& final(self).in_flight@[t].trace_id@ == span.trace_id@
                &&& (has_span(e, span.span_id@) ==> final(self).in_flight@[t].spans@ =~= e.update(
                    span_index(e, span.span_id@),
                    span,
                ))
                &&& (!has_span(e, span.span_id@) ==> final(self).in_flight@[t].spans@ =~= e.push(
                    span,
                ))
            },
            !has_trace(old(self).in_flight@, span.trace_id@) ==> {
                &&& final(self).in_flight@.len() == old(self).in_flight@.len() + 1
                &&& final(self).in_flight@.drop_last() =~= old(self).in_flight@
                &&& final(self).in_flight@.last().trace_id@ == span.trace_id@
                &&& final(self).in_flight@.last().spans@ =~= seq![span]
            },
    {
        self.total_spans = self.total_spans + 1;
        let node_id = node_id_string(&span.target, &span.name);
        upsert_node(&mut self.nodes, node_id.clone(), &span.name, &span.target);

        let from_node: Option<String> = match &span.parent_span_id {
            Some(pid) => index_name(&self.span_names, pid),
            None => None,
        };
        let edge_latency_nanos: Option<u64> = match &span.parent_span_id {
            Some(pid) => match index_start(&self.span_starts, pid) {
                Some(ps) => Some(
                    if span.start_time_unix_nano >= ps {
                        span.start_time_unix_nano - ps
                    } else {
                        0
                    },
                ),
                None => None,
            },
            None => None,
        };

        match &from_node {
            Some(f) => {
                if *f != node_id {
                    upsert_edge(&mut self.edges, f, &node_id);
                }
            }
            None => {}
        }

        let payload = SpanArrivedPayload {
            trace_id: span.trace_id.clone(),
            span_id: span.span_id.clone(),
            parent_span_id: match &span.parent_span_id {
                Some(p) => Some(p.clone()),
                None => None,
            },
            name: span.name.clone(),
            target: span.target.clone(),
            start_time_unix_nano: span.start_time_unix_nano,
            end_time_unix_nano: span.end_time_unix_nano,
            status: span.status.clone(),
            service_name: span.service_name.clone(),
            from_node,
            to_node: node_id,
            edge_latency_nanos,
        };

        insert_in_flight(&mut self.in_flight, span);
        payload
    }

    /// A copy of the current topology, as sent to a newly connected
    /// subscriber.
    pub fn get_topology_snapshot(&self) -> (r: TopologyUpdate)
        ensures
            r.nodes@ == self.nodes@,
            r.edges@ == self.edges@,
    {
        TopologyUpdate { nodes: clone_nodes(&self.nodes), edges: clone_edges(&self.edges) }
    }

    /// Open the throttle gate at most once per interval: emit a
    /// topology copy and remember `now_ms` when at least
    /// `TOPOLOGY_INTERVAL_MS` elapsed since the last emission,
    /// otherwise change nothing.
    pub fn maybe_broadcast_topology(&mut self, now_ms: u64) -> (r: Option<TopologyUpdate>)
        requires
            old(self).wf(),
        ensures
            final(self).wf(),
            match r {
                Some(u) => {
                    &&& topology_due(old(self).last_topo_ms, now_ms)
                    &&& u.nodes@ == old(self).nodes@
                    &&& u.edges@ == old(self).edges@
                    &&& *final(self) == AppState { last_topo_ms: now_ms, ..*old(self) }
                }
                None => {
                    &&& !topology_due(old(self).last_topo_ms, now_ms)
                    &&& *final(self) == *old(self)
                }
            },
    {
        if now_ms >= self.last_topo_ms && now_ms - self.last_topo_ms >= TOPOLOGY_INTERVAL_MS {
            self.last_topo_ms = now_ms;
            Some(TopologyUpdate {
                nodes: clone_nodes(&self.nodes),
                edges: clone_edges(&self.edges),
            })
        } else {
            None
        }
    }

    /// The statistics heartbeat: totals, current node count, and the
    /// caller's clock reading.
    pub fn stats_snapshot(&self, now_ms: u64) -> (r: StatsSnapshot)
        ensures
            r.total_traces == self.total_traces,
            r.active_nodes == self.nodes@.len(),
            r.timestamp_ms == now_ms,
    {
        StatsSnapshot {
            total_traces: self.total_traces,
            active_nodes: self.nodes.len(),
            timestamp_ms: now_ms,
        }
    }
}

/// The counting laws of a well-formed store: node span counts add up
/// to exactly the spans ever ingested, edge flow counts never exceed
/// them, and no edge is a self-loop.
pub proof fn lemma_counting_invariants(s: AppState)
    requires
        s.wf(),
    ensures
        sum_span_counts(s.nodes@) == s.total_spans,
        sum_flow_counts(s.edges@) <= s.total_spans,
        no_self_edges(s.edges@),
{
}

/// Is a topology broadcast due at `now_ms`, given the last emission?
pub open spec fn topology_due(last_ms: u64, now_ms: u64) -> bool {
    now_ms - last_ms >= TOPOLOGY_INTERVAL_MS
}

/// Topology broadcasts are spaced by at least the throttle interval:
/// once an emission stores `t1`, a later one can only fire at a clock
/// reading `t2` at least `TOPOLOGY_INTERVAL_MS` past `t1`.
pub proof fn lemma_topology_spacing(t1: u64, t2: u64)
    requires
        topology_due(t1, t2),
    ensures
        t2 >= t1 + TOPOLOGY_INTERVAL_MS,
{
}

// ---------------------------------------------------------------------
// Finalization.
// ---------------------------------------------------------------------

/// Spans in ascending order of start time.
pub open spec fn sorted_by_start(spans: Seq<SpanEvent>) -> bool {
    forall|a: int, b: int|
        0 <= a <= b < spans.len() ==> spans[a].start_time_unix_nano <= spans[b].start_time_unix_nano
}

/// The latest end time among the spans; zero when there are none.
pub open spec fn max_end(spans: Seq<SpanEvent>) -> int
    decreases spans.len(),
{
    if spans.len() == 0 {
        0
    } else {
        let m = max_end(spans.drop_last());
        if spans.last().end_time_unix_nano > m {
            spans.last().end_time_unix_nano as int
        } else {
            m
        }
    }
}

/// The name of the first span without a parent, in the given order;
/// empty when every span has a parent.
pub open spec fn first_root_name(spans: Seq<SpanEvent>) -> Seq<char>
    decreases spans.len(),
{
    if spans.len() == 0 {
        Seq::<char>::empty()
    } else if spans.first().parent_span_id is None {
        spans.first().name@
    } else {
        first_root_name(spans.drop_first())
    }
}

/// Drop every span-name index entry whose span id occurs in `spans`.
fn prune_names(names: &mut Vec<NameEntry>, spans: &Vec<SpanEvent>)
    requires
        names_distinct(old(names)@),
        spans_distinct(spans@),
    ensures
        names_distinct(final(names)@),
        forall|j: int|
            0 <= j < final(names)@.len()
                ==> !has_span(spans@, (#[trigger] final(names)@[j]).span_id@),
        forall|j: int|
            0 <= j < final(names)@.len() ==> old(names)@.contains(#[trigger] final(names)@[j]),
        forall|k: int|
            0 <= k < old(names)@.len() && !has_span(spans@, (#[trigger] old(names)@[k]).span_id@)
                ==> final(names)@.contains(old(names)@[k]),
{
    let mut out: Vec<NameEntry> = Vec::new();
    let mut i: usize = 0;
    while i < names.len()
        invariant
            i <= names@.len(),
            names_distinct(names@),
            spans_distinct(spans@),
            forall|j: int|
                0 <= j < out@.len() ==> !has_span(spans@, (#[trigger] out@[j]).span_id@),
            forall|j: int|
                0 <= j < out@.len() ==> exists|k: int|
                    0 <= k < i && (#[trigger] out@[j]) == names@[k],
            forall|k: int|
                0 <= k < i && !has_span(spans@, (#[trigger] names@[k]).span_id@)
                    ==> out@.contains(names@[k]),
            names_distinct(out@),
        decreases names@.len() - i,
    {
        let ghost pre_out = out@;
        match find_span(spans, &names[i].span_id) {
            Some(_) => {}
            None => {
                proof {
                    assert forall|j: int| 0 <= j < out@.len() implies out@[j].span_id@
                        != names@[i as int].span_id@ by {
                        let k = choose|k: int| 0 <= k < i && out@[j] == names@[k];
                        assert(names@[k].span_id@ != names@[i as int].span_id@);
                    }
                }
                let e = NameEntry {
                    span_id: names[i].span_id.clone(),
                    node_id: names[i].node_id.clone(),
                };
                proof {
                    assert(e == names@[i as int]);
                }
                out.push(e);
            }
        }
        proof {
            assert forall|k: int|
                0 <= k < i + 1 && !has_span(spans@, (#[trigger] names@[k]).span_id@) implies out@
                .contains(names@[k]) by {
                if k < i {
                    let j = choose|j: int| 0 <= j < pre_out.len() && pre_out[j] == names@[k];
                    assert(out@[j] == names@[k]);
                } else {
                    assert(out@[out@.len() - 1] == names@[i as int]);
                }
            }
        }
        i = i + 1;
    }
    proof {
        assert forall|j: int| 0 <= j < out@.len() implies names@.contains(
            #[trigger] out@[j],
        ) by {
            let k = choose|k: int| 0 <= k < i && out@[j] == names@[k];
        }
    }
    *names = out;
}

/// Drop every span-start index entry whose span id occurs in `spans`.
fn prune_starts(starts: &mut Vec<StartEntry>, spans: &Vec<SpanEvent>)
    requires
        starts_distinct(old(starts)@),
        spans_distinct(spans@),
    ensures
        starts_distinct(final(starts)@),
        forall|j: int|
            0 <= j < final(starts)@.len()
                ==> !has_span(spans@, (#[trigger] final(starts)@[j]).span_id@),
        forall|j: int|
            0 <= j < final(starts)@.len() ==> old(starts)@.contains(#[trigger] final(starts)@[j]),
        forall|k: int|
            0 <= k < old(starts)@.len() && !has_span(spans@, (#[trigger] old(starts)@[k]).span_id@)
                ==> final(starts)@.contains(old(starts)@[k]),
{
    let mut out: Vec<StartEntry> = Vec::new();
    let mut i: usize = 0;
    while i < starts.len()
        invariant
            i <= starts@.len(),
            starts_distinct(starts@),
            spans_distinct(spans@),
            forall|j: int|
                0 <= j < out@.len() ==> !has_span(spans@, (#[trigger] out@[j]).span_id@),
            forall|j: int|
                0 <= j < out@.len() ==> exists|k: int|
                    0 <= k < i && (#[trigger] out@[j]) == starts@[k],
            forall|k: int|
                0 <= k < i && !has_span(spans@, (#[trigger] starts@[k]).span_id@)
                    ==> out@.contains(starts@[k]),
            starts_distinct(out@),
        decreases starts@.len() - i,
    {
        let ghost pre_out = out@;
        match find_span(spans, &starts[i].span_id) {
            Some(_) => {}
            None => {
                proof {
                    assert forall|j: int| 0 <= j < out@.len() implies out@[j].span_id@
                        != starts@[i as int].span_id@ by {
                        let k = choose|k: int| 0 <= k < i && out@[j] == starts@[k];
                        assert(starts@[k].span_id@ != starts@[i as int].span_id@);
                    }
                }
                let e = StartEntry {
                    span_id: starts[i].span_id.clone(),
                    start_nanos: starts[i].start_nanos,
                };
                proof {
                    assert(e == starts@[i as int]);
                }
                out.push(e);
            }
        }
        proof {
            assert forall|k: int|
                0 <= k < i + 1 && !has_span(spans@, (#[trigger] starts@[k]).span_id@) implies out@
                .contains(starts@[k]) by {
                if k < i {
                    let j = choose|j: int| 0 <= j < pre_out.len() && pre_out[j] == starts@[k];
                    assert(out@[j] == starts@[k]);
                } else {
                    assert(out@[out@.len() - 1] == starts@[i as int]);
                }
            }
        }
        i = i + 1;
    }
    proof {
        assert forall|j: int| 0 <= j < out@.len() implies starts@.contains(
            #[trigger] out@[j],
        ) by {
            let k = choose|k: int| 0 <= k < i && out@[j] == starts@[k];
        }
    }
    *starts = out;
}

/// Sort spans by ascending start time (selection sort; ties keep no
/// particular order).
fn sort_spans(spans: Vec<SpanEvent>) -> (r: Vec<SpanEvent>)
    ensures
        r@.to_multiset() == spans@.to_multiset(),
        r@.len() == spans@.len(),
        sorted_by_start(r@),
{
    broadcast use vstd::seq_lib::group_to_multiset_ensures;

    let mut input = spans;
    let mut out: Vec<SpanEvent> = Vec::new();
    proof {
        assert(out@.to_multiset().add(input@.to_multiset()) =~= spans@.to_multiset());
    }
    while input.len() > 0
        invariant
            out@.to_multiset().add(input@.to_multiset()) == spans@.to_multiset(),
            out@.len() + input@.len() == spans@.len(),
            sorted_by_start(out@),
            forall|a: int, b: int|
                0 <= a < out@.len() && 0 <= b < input@.len()
                    ==> out@[a].start_time_unix_nano <= input@[b].start_time_unix_nano,
        decreases input@.len(),
    {
        let mut m: usize = 0;
        let mut j: usize = 1;
        while j < input.len()
            invariant
                m < j <= input@.len(),
                input@.len() > 0,
                forall|k: int|
                    0 <= k < j ==> input@[m as int].start_time_unix_nano
                        <= input@[k].start_time_unix_nano,
            decreases input@.len() - j,
        {
            if input[j].start_time_unix_nano < input[m].start_time_unix_nano {
                m = j;
            }
            j = j + 1;
        }
        let ghost pre = input@;
        let ghost pre_out = out@;
        let s = input.remove(m);
        out.push(s);
        proof {
            pre.to_multiset_ensures();
            pre_out.to_multiset_ensures();
            assert(pre.contains(pre[m as int]));
            assert(pre.to_multiset().count(pre[m as int]) > 0);
            assert(input@ == pre.remove(m as int));
            assert(input@.to_multiset() =~= pre.to_multiset().remove(pre[m as int]));
            assert(out@ == pre_out.push(pre[m as int]));
            assert(out@.to_multiset() =~= pre_out.to_multiset().insert(pre[m as int]));
            assert(out@.to_multiset().add(input@.to_multiset()) =~= spans@.to_multiset());
        }
    }
    proof {
        input@.to_multiset_ensures();
        assert(input@ =~= Seq::<SpanEvent>::empty());
        assert(input@.to_multiset().len() == 0);
        assert(input@.to_multiset() =~= Multiset::<SpanEvent>::empty());
        assert(out@.to_multiset().add(Multiset::<SpanEvent>::empty()) =~= out@.to_multiset());
    }
    out
}

/// The name of the first parentless span, scanned in order.
fn first_root_of(spans: &Vec<SpanEvent>) -> (r: String)
    ensures
        r@ == first_root_name(spans@),
{
    let mut i: usize = 0;
    proof {
        assert(spans@.skip(0) =~= spans@);
    }
    while i < spans.len()
        invariant
            i <= spans@.len(),
            first_root_name(spans@) == first_root_name(spans@.skip(i as int)),
        decreases spans@.len() - i,
    {
        match &spans[i].parent_span_id {
            None => {
                proof {
                    let t = spans@.skip(i as int);
                    assert(t.first() == spans@[i as int]);
                }
                return spans[i].name.clone();
            }
            Some(_) => {
                proof {
                    let t = spans@.skip(i as int);
                    assert(t.first() == spans@[i as int]);
                    assert(t.drop_first() =~= spans@.skip(i + 1));
                }
                i = i + 1;
            }
        }
    }
    proof {
        assert(spans@.skip(i as int) =~= Seq::<SpanEvent>::empty());
    }
    String::new()
}

/// The latest end time among the spans.
fn max_end_of(spans: &Vec<SpanEvent>) -> (r: u64)
    ensures
        r == max_end(spans@),
{
    let mut r: u64 = 0;
    let mut i: usize = 0;
    proof {
        assert(spans@.take(0) =~= Seq::<SpanEvent>::empty());
    }
    while i < spans.len()
        invariant
            i <= spans@.len(),
            r == max_end(spans@.take(i as int)),
        decreases spans@.len() - i,
    {
        let e = spans[i].end_time_unix_nano;
        proof {
            assert(spans@.take(i + 1).drop_last() =~= spans@.take(i as int));
            assert(spans@.take(i + 1).last() == spans@[i as int]);
        }
        if e > r {
            r = e;
        }
        i = i + 1;
    }
    proof {
        assert(spans@.take(spans@.len() as int) =~= spans@);
    }
    r
}

impl AppState {
    /// Finalize a trace: remove it from in-flight, prune both span
    /// indexes of its span ids, and deliver its spans sorted by start
    /// time with the derived summary.  Without such an in-flight trace
    /// nothing changes.
    pub fn finalize_trace(&mut self, trace_id: &String) -> (r: Option<TraceComplete>)
        requires
            old(self).wf(),
            old(self).total_traces < u64::MAX,
        ensures
            final(self).wf(),
            final(self).nodes@ == old(self).nodes@,
            final(self).edges@ == old(self).edges@,
            final(self).total_spans == old(self).total_spans,
            final(self).last_topo_ms == old(self).last_topo_ms,
            !has_trace(old(self).in_flight@, trace_id@) ==> r is None && *final(self) == *old(
                self,
            ),
            has_trace(old(self).in_flight@, trace_id@) ==> ({
                let t = trace_index(old(self).in_flight@, trace_id@);
                let e = old(self).in_flight@[t];
                &&& final(self).total_traces == old(self).total_traces + 1
                &&& final(self).in_flight@ =~= old(self).in_flight@.remove(t)
                &&& !has_trace(final(self).in_flight@, trace_id@)
                &&& match r {
                    Some(tc) => {
                        &&& tc.trace_id@ == trace_id@
                        &&& tc.spans@.to_multiset() == e.spans@.to_multiset()
                        &&& tc.spans@.len() == e.spans@.len()
                        &&& sorted_by_start(tc.spans@)
                        &&& tc.started_at == tc.spans@[0].start_time_unix_nano
                        &&& tc.duration_nanos == (if max_end(tc.spans@) >= tc.started_at {
                            max_end(tc.spans@) - tc.started_at
                        } else {
                            0
                        })
                        &&& tc.root_span_name@ == first_root_name(tc.spans@)
                    }
                    None => false,
                }
                &&& forall|sid: Seq<char>|
                    #[trigger] has_span(e.spans@, sid) ==> !has_name(final(self).span_names@, sid)
                        && !has_start(final(self).span_starts@, sid)
                &&& forall|k: int|
                    0 <= k < old(self).span_names@.len() && !has_span(
                        e.spans@,
                        (#[trigger] old(self).span_names@[k]).span_id@,
                    ) ==> final(self).span_names@.contains(old(self).span_names@[k])
                &&& forall|k: int|
                    0 <= k < old(self).span_starts@.len() && !has_span(
                        e.spans@,
                        (#[trigger] old(self).span_starts@[k]).span_id@,
                    ) ==> final(self).span_starts@.contains(old(self).span_starts@[k])
                &&& forall|j: int|
                    0 <= j < final(self).span_names@.len() ==> old(self).span_names@.contains(
                        #[trigger] final(self).span_names@[j],
                    )
                &&& forall|j: int|
                    0 <= j < final(self).span_starts@.len() ==> old(self).span_starts@.contains(
                        #[trigger] final(self).span_starts@[j],
                    )
            }),
    {
        match find_trace(&self.in_flight, trace_id) {
            None => None,
            Some(t) => {
                let ghost pre = *self;
                let entry = self.in_flight.remove(t);
                self.total_traces = self.total_traces + 1;
                prune_names(&mut self.span_names, &entry.spans);
                prune_starts(&mut self.span_starts, &entry.spans);
                proof {
                    assert forall|a: int, b: int|
                        0 <= a < b < self.in_flight@.len() implies self.in_flight@[a].trace_id@
                        != self.in_flight@[b].trace_id@ by {
                        assert(self.in_flight@[a] == if a < t as int {
                            pre.in_flight@[a]
                        } else {
                            pre.in_flight@[a + 1]
                        });
                        assert(self.in_flight@[b] == if b < t as int {
                            pre.in_flight@[b]
                        } else {
                            pre.in_flight@[b + 1]
                        });
                    }
                    assert forall|i: int| 0 <= i < self.in_flight@.len() implies (
                    #[trigger] self.in_flight@[i]).spans@.len() >= 1 && spans_distinct(
                        self.in_flight@[i].spans@,
                    ) by {
                        assert(self.in_flight@[i] == if i < t as int {
                            pre.in_flight@[i]
                        } else {
                            pre.in_flight@[i + 1]
                        });
                    }
                    assert forall|i: int|
                        0 <= i < self.in_flight@.len() implies self.in_flight@[i].trace_id@
                        != trace_id@ by {
                        assert(self.in_flight@[i] == if i < t as int {
                            pre.in_flight@[i]
                        } else {
                            pre.in_flight@[i + 1]
                        });
                    }
                    assert forall|sid: Seq<char>|
                        #[trigger] has_span(entry.spans@, sid) implies !has_name(
                        self.span_names@,
                        sid,
                    ) && !has_start(self.span_starts@, sid) by {
                        if has_name(self.span_names@, sid) {
                            let j = choose|j: int|
                                0 <= j < self.span_names@.len() && self.span_names@[j].span_id@
                                    == sid;
                            assert(!has_span(entry.spans@, self.span_names@[j].span_id@));
                        }
                        if has_start(self.span_starts@, sid) {
                            let j = choose|j: int|
                                0 <= j < self.span_starts@.len() && self.span_starts@[j].span_id@
                                    == sid;
                            assert(!has_span(entry.spans@, self.span_starts@[j].span_id@));
                        }
                    }
                }
                let sorted = sort_spans(entry.spans);
                let started_at = sorted[0].start_time_unix_nano;
                let ended_at = max_end_of(&sorted);
                let duration_nanos = if ended_at >= started_at {
                    ended_at - started_at
                } else {
                    0
                };
                let root_span_name = first_root_of(&sorted);
                Some(TraceComplete {
                    trace_id: trace_id.clone(),
                    spans: sorted,
                    root_span_name,
                    duration_nanos,
                    started_at,
                })
            }
        }
    }
}

// ---------------------------------------------------------------------
// Eviction.
// ---------------------------------------------------------------------

/// The cutoff below which a trace's representative start time counts
/// as stale (clock reading minus the allowed age, clamped at zero).
pub open spec fn stale_cutoff(now_ns: u64, max_age_ns: u64) -> u64 {
    if now_ns >= max_age_ns {
        (now_ns - max_age_ns) as u64
    } else {
        0
    }
}

/// A trace is stale when its first recorded span started before the
/// cutoff (in-flight traces accumulate forward in time), or when the
/// entry is unexpectedly empty.
pub open spec fn is_stale(e: TraceEntry, cutoff: u64) -> bool {
    e.spans@.len() == 0 || e.spans@[0].start_time_unix_nano < cutoff
}

/// Some stale in-flight entry holds this span id.
pub open spec fn in_stale_spans(traces: Seq<TraceEntry>, cutoff: u64, sid: Seq<char>) -> bool {
    exists|m: int|
        0 <= m < traces.len() && is_stale(#[trigger] traces[m], cutoff) && has_span(
            traces[m].spans@,
            sid,
        )
}

/// A delivered trace matches the in-flight entry (of the given store)
/// carrying its id: that entry is stale and holds the same spans.
pub open spec fn evicted_from(tc: TraceComplete, traces: Seq<TraceEntry>, cutoff: u64) -> bool {
    &&& has_trace(traces, tc.trace_id@)
    &&& is_stale(traces[trace_index(traces, tc.trace_id@)], cutoff)
    &&& tc.spans@.to_multiset() == traces[trace_index(traces, tc.trace_id@)].spans@.to_multiset()
}

/// Some entry among the first `n` carries this trace id and is stale.
pub open spec fn stale_id_in_prefix(
    traces: Seq<TraceEntry>,
    n: int,
    cutoff: u64,
    id: Seq<char>,
) -> bool {
    exists|m: int|
        0 <= m < n && (#[trigger] traces[m]).trace_id@ == id && is_stale(traces[m], cutoff)
}

/// Some element of `ids` views to this id.
pub open spec fn contains_id(ids: Seq<String>, id: Seq<char>) -> bool {
    exists|q: int| 0 <= q < ids.len() && (#[trigger] ids[q])@ == id
}

proof fn stale_id_witness(traces: Seq<TraceEntry>, n: int, cutoff: u64, id: Seq<char>) -> (m: int)
    requires
        stale_id_in_prefix(traces, n, cutoff, id),
    ensures
        0 <= m < n,
        traces[m].trace_id@ == id,
        is_stale(traces[m], cutoff),
{
    choose|m: int|
        0 <= m < n && (#[trigger] traces[m]).trace_id@ == id && is_stale(traces[m], cutoff)
}

proof fn contains_id_witness(ids: Seq<String>, id: Seq<char>) -> (q: int)
    requires
        contains_id(ids, id),
    ensures
        0 <= q < ids.len(),
        ids[q]@ == id,
{
    choose|q: int| 0 <= q < ids.len() && (#[trigger] ids[q])@ == id
}

impl AppState {
    /// Evict every stale in-flight trace by finalizing it: afterwards
    /// no in-flight trace is stale, non-stale traces are untouched, and
    /// each eviction delivered its finalized trace.
    #[verifier::rlimit(100)]
    pub fn cleanup_stale_traces(&mut self, now_ns: u64, max_age_ns: u64) -> (r: Vec<
        TraceComplete,
    >)
        requires
            old(self).wf(),
            old(self).total_traces + old(self).in_flight@.len() <= u64::MAX,
        ensures
            final(self).wf(),
            final(self).nodes@ == old(self).nodes@,
            final(self).edges@ == old(self).edges@,
            final(self).total_spans == old(self).total_spans,
            final(self).last_topo_ms == old(self).last_topo_ms,
            final(self).total_traces == old(self).total_traces + r@.len(),
            final(self).in_flight@.len() + r@.len() == old(self).in_flight@.len(),
            forall|j: int|
                0 <= j < final(self).in_flight@.len() ==> old(self).in_flight@.contains(
                    #[trigger] final(self).in_flight@[j],
                ),
            forall|j: int|
                0 <= j < final(self).in_flight@.len() ==> !is_stale(
                    #[trigger] final(self).in_flight@[j],
                    stale_cutoff(now_ns, max_age_ns),
                ),
            forall|m: int|
                0 <= m < old(self).in_flight@.len() && !is_stale(
                    #[trigger] old(self).in_flight@[m],
                    stale_cutoff(now_ns, max_age_ns),
                ) ==> final(self).in_flight@.contains(old(self).in_flight@[m]),
            forall|j: int| 0 <= j < r@.len() ==> trace_summary_consistent(#[trigger] r@[j]),
            forall|j: int|
                0 <= j < r@.len() ==> evicted_from(
                    #[trigger] r@[j],
                    old(self).in_flight@,
                    stale_cutoff(now_ns, max_age_ns),
                ),
            forall|j1: int, j2: int|
                0 <= j1 < j2 < r@.len() ==> r@[j1].trace_id@ != r@[j2].trace_id@,
            forall|m: int|
                0 <= m < old(self).in_flight@.len() && is_stale(
                    #[trigger] old(self).in_flight@[m],
                    stale_cutoff(now_ns, max_age_ns),
                ) ==> completed_has_id(r@, old(self).in_flight@[m].trace_id@),
            forall|m: int, sid: Seq<char>|
                0 <= m < old(self).in_flight@.len() && is_stale(
                    old(self).in_flight@[m],
                    stale_cutoff(now_ns, max_age_ns),
                ) && #[trigger] has_span(old(self).in_flight@[m].spans@, sid)
                    ==> !has_name(final(self).span_names@, sid) && !has_start(
                    final(self).span_starts@,
                    sid,
                ),
            forall|j: int|
                0 <= j < final(self).span_names@.len() ==> old(self).span_names@.contains(
                    #[trigger] final(self).span_names@[j],
                ),
            forall|j: int|
                0 <= j < final(self).span_starts@.len() ==> old(self).span_starts@.contains(
                    #[trigger] final(self).span_starts@[j],
                ),
            forall|k2: int|
                0 <= k2 < old(self).span_names@.len() && !in_stale_spans(
                    old(self).in_flight@,
                    stale_cutoff(now_ns, max_age_ns),
                    (#[trigger] old(self).span_names@[k2]).span_id@,
                ) ==> final(self).span_names@.contains(old(self).span_names@[k2]),
            forall|k2: int|
                0 <= k2 < old(self).span_starts@.len() && !in_stale_spans(
                    old(self).in_flight@,
                    stale_cutoff(now_ns, max_age_ns),
                    (#[trigger] old(self).span_starts@[k2]).span_id@,
                ) ==> final(self).span_starts@.contains(old(self).span_starts@[k2]),
    {
        let cutoff = if now_ns >= max_age_ns {
            now_ns - max_age_ns
        } else {
            0
        };
        let mut ids: Vec<String> = Vec::new();
        let mut i: usize = 0;
        while i < self.in_flight.len()
            invariant
                i <= self.in_flight@.len(),
                traces_distinct(self.in_flight@),
                cutoff == stale_cutoff(now_ns, max_age_ns),
                ids@.len() <= i,
                forall|q: int|
                    0 <= q < ids@.len() ==> stale_id_in_prefix(
                        self.in_flight@,
                        i as int,
                        cutoff,
                        (#[trigger] ids@[q])@,
                    ),
                forall|m: int|
                    0 <= m < i && is_stale(#[trigger] self.in_flight@[m], cutoff) ==> contains_id(
                        ids@,
                        self.in_flight@[m].trace_id@,
                    ),
                forall|q1: int, q2: int| 0 <= q1 < q2 < ids@.len() ==> ids@[q1]@ != ids@[q2]@,
            decreases self.in_flight@.len() - i,
        {
            let stale = if self.in_flight[i].spans.len() == 0 {
                true
            } else {
                self.in_flight[i].spans[0].start_time_unix_nano < cutoff
            };
            let ghost pre_ids = ids@;
            if stale {
                ids.push(self.in_flight[i].trace_id.clone());
                proof {
                    assert(is_stale(self.in_flight@[i as int], cutoff));
                    assert forall|q: int| 0 <= q < pre_ids.len() implies pre_ids[q]@
                        != self.in_flight@[i as int].trace_id@ by {
                        let m = stale_id_witness(self.in_flight@, i as int, cutoff, pre_ids[q]@);
                        assert(self.in_flight@[m].trace_id@
                            != self.in_flight@[i as int].trace_id@);
                    }
                    assert forall|q: int| 0 <= q < ids@.len() implies stale_id_in_prefix(
                        self.in_flight@,
                        i + 1,
                        cutoff,
                        (#[trigger] ids@[q])@,
                    ) by {
                        if q < pre_ids.len() {
                            let m = stale_id_witness(
                                self.in_flight@,
                                i as int,
                                cutoff,
                                pre_ids[q]@,
                            );
                            assert(ids@[q]@ == pre_ids[q]@);
                        } else {
                            assert(ids@[q]@ == self.in_flight@[i as int].trace_id@);
                        }
                    }
                    assert forall|m: int|
                        0 <= m < i + 1 && is_stale(#[trigger] self.in_flight@[m], cutoff) implies
                        contains_id(ids@, self.in_flight@[m].trace_id@) by {
                        if m < i {
                            let q = contains_id_witness(pre_ids, self.in_flight@[m].trace_id@);
                            assert(ids@[q]@ == self.in_flight@[m].trace_id@);
                        } else {
                            assert(ids@[ids@.len() - 1]@ == self.in_flight@[m].trace_id@);
                        }
                    }
                }
            } else {
                proof {
                    assert(!is_stale(self.in_flight@[i as int], cutoff));
                    assert forall|q: int| 0 <= q < ids@.len() implies stale_id_in_prefix(
                        self.in_flight@,
                        i + 1,
                        cutoff,
                        (#[trigger] ids@[q])@,
                    ) by {
                        let m = stale_id_witness(self.in_flight@, i as int, cutoff, ids@[q]@);
                    }
                }
            }
            i = i + 1;
        }
        let ghost base = *self;
        let ghost cut = cutoff;
        let mut out: Vec<TraceComplete> = Vec::new();
        let mut k: usize = 0;
        proof {
            assert forall|q: int| k <= q < ids@.len() implies has_trace(
                self.in_flight@,
                (#[trigger] ids@[q])@,
            ) by {
                let m = stale_id_witness(self.in_flight@, i as int, cutoff, ids@[q]@);
            }
        }
        while k < ids.len()
            invariant
                k <= ids@.len(),
                out@.len() == k,
                self.wf(),
                base.wf(),
                cut == cutoff,
                self.nodes@ == base.nodes@,
                self.edges@ == base.edges@,
                self.total_spans == base.total_spans,
                self.last_topo_ms == base.last_topo_ms,
                self.total_traces == base.total_traces + k,
                base.total_traces + base.in_flight@.len() <= u64::MAX,
                ids@.len() <= base.in_flight@.len(),
                self.in_flight@.len() + k == base.in_flight@.len(),
                forall|j: int|
                    0 <= j < self.in_flight@.len() ==> base.in_flight@.contains(
                        #[trigger] self.in_flight@[j],
                    ),
                forall|q: int|
                    k <= q < ids@.len() ==> has_trace(self.in_flight@, (#[trigger] ids@[q])@),
                forall|q: int|
                    0 <= q < k ==> !has_trace(self.in_flight@, (#[trigger] ids@[q])@),
                forall|m: int|
                    0 <= m < base.in_flight@.len() && !is_stale(
                        #[trigger] base.in_flight@[m],
                        cut,
                    ) ==> self.in_flight@.contains(base.in_flight@[m]),
                forall|q: int|
                    0 <= q < ids@.len() ==> stale_id_in_prefix(
                        base.in_flight@,
                        base.in_flight@.len() as int,
                        cut,
                        (#[trigger] ids@[q])@,
                    ),
                forall|m: int|
                    0 <= m < base.in_flight@.len() && is_stale(
                        #[trigger] base.in_flight@[m],
                        cut,
                    ) ==> contains_id(ids@, base.in_flight@[m].trace_id@),
                forall|q1: int, q2: int| 0 <= q1 < q2 < ids@.len() ==> ids@[q1]@ != ids@[q2]@,
                base == *old(self),
                forall|j: int| 0 <= j < out@.len() ==> (#[trigger] out@[j]).trace_id@ == ids@[j]@,
                forall|j: int|
                    0 <= j < out@.len() ==> trace_summary_consistent(#[trigger] out@[j]),
                forall|j: int|
                    0 <= j < out@.len() ==> evicted_from(#[trigger] out@[j], base.in_flight@, cut),
                forall|j: int|
                    0 <= j < self.span_names@.len() ==> base.span_names@.contains(
                        #[trigger] self.span_names@[j],
                    ),
                forall|j: int|
                    0 <= j < self.span_starts@.len() ==> base.span_starts@.contains(
                        #[trigger] self.span_starts@[j],
                    ),
                forall|q: int, sid: Seq<char>|
                    0 <= q < k && #[trigger] has_span(
                        base.in_flight@[trace_index(base.in_flight@, ids@[q]@)].spans@,
                        sid,
                    ) ==> !has_name(self.span_names@, sid) && !has_start(self.span_starts@, sid),
                forall|k2: int|
                    0 <= k2 < base.span_names@.len() && !in_stale_spans(
                        base.in_flight@,
                        cut,
                        (#[trigger] base.span_names@[k2]).span_id@,
                    ) ==> self.span_names@.contains(base.span_names@[k2]),
                forall|k2: int|
                    0 <= k2 < base.span_starts@.len() && !in_stale_spans(
                        base.in_flight@,
                        cut,
                        (#[trigger] base.span_starts@[k2]).span_id@,
                    ) ==> self.span_starts@.contains(base.span_starts@[k2]),
            decreases ids@.len() - k,
        {
            let ghost pre = *self;
            let tc_opt = self.finalize_trace(&ids[k]);
            proof {
                assert(has_trace(pre.in_flight@, ids@[k as int]@));
            }
            match tc_opt {
                Some(tc) => {
                    out.push(tc);
                }
                None => {
                    proof {
                        assert(false);
                    }
                }
            }
            proof {
                let t = trace_index(pre.in_flight@, ids@[k as int]@);
                assert(0 <= t < pre.in_flight@.len() && pre.in_flight@[t].trace_id@
                    == ids@[k as int]@);
                assert(self.in_flight@ =~= pre.in_flight@.remove(t));
                assert forall|j: int| 0 <= j < self.in_flight@.len() implies base.in_flight@
                    .contains(#[trigger] self.in_flight@[j]) by {
                    assert(self.in_flight@[j] == if j < t {
                        pre.in_flight@[j]
                    } else {
                        pre.in_flight@[j + 1]
                    });
                }
                assert forall|q: int|
                    k + 1 <= q < ids@.len() implies has_trace(
                    self.in_flight@,
                    (#[trigger] ids@[q])@,
                ) by {
                    assert(has_trace(pre.in_flight@, ids@[q]@));
                    let j = choose|j: int|
                        0 <= j < pre.in_flight@.len() && pre.in_flight@[j].trace_id@ == ids@[q]@;
                    assert(ids@[q]@ != ids@[k as int]@);
                    assert(j != t);
                    if j < t {
                        assert(self.in_flight@[j] == pre.in_flight@[j]);
                    } else {
                        assert(self.in_flight@[j - 1] == pre.in_flight@[j]);
                    }
                }
                assert forall|q: int|
                    0 <= q < k + 1 implies !has_trace(self.in_flight@, (#[trigger] ids@[q])@) by {
                    if q < k {
                        if has_trace(self.in_flight@, ids@[q]@) {
                            let j = choose|j: int|
                                0 <= j < self.in_flight@.len() && self.in_flight@[j].trace_id@
                                    == ids@[q]@;
                            assert(self.in_flight@[j] == if j < t {
                                pre.in_flight@[j]
                            } else {
                                pre.in_flight@[j + 1]
                            });
                            assert(has_trace(pre.in_flight@, ids@[q]@));
                        }
                    }
                }
                assert forall|m: int|
                    0 <= m < base.in_flight@.len() && !is_stale(
                        #[trigger] base.in_flight@[m],
                        cut,
                    ) implies self.in_flight@.contains(base.in_flight@[m]) by {
                    let j = choose|j: int|
                        0 <= j < pre.in_flight@.len() && pre.in_flight@[j] == base.in_flight@[m];
                    let m2 = stale_id_witness(
                        base.in_flight@,
                        base.in_flight@.len() as int,
                        cut,
                        ids@[k as int]@,
                    );
                    if j == t {
                        assert(base.in_flight@[m].trace_id@ == base.in_flight@[m2].trace_id@);
                        assert(m == m2);
                        assert(false);
                    } else if j < t {
                        assert(self.in_flight@[j] == pre.in_flight@[j]);
                    } else {
                        assert(self.in_flight@[j - 1] == pre.in_flight@[j]);
                    }
                }
                // the finalized entry is the stale base entry carrying this id
                let tid = ids@[k as int]@;
                let mb = trace_index(base.in_flight@, tid);
                let j0 = choose|j0: int|
                    0 <= j0 < base.in_flight@.len() && base.in_flight@[j0] == pre.in_flight@[t];
                let m2 = stale_id_witness(
                    base.in_flight@,
                    base.in_flight@.len() as int,
                    cut,
                    tid,
                );
                assert(base.in_flight@[j0].trace_id@ == tid);
                assert(j0 == m2);
                assert(0 <= mb < base.in_flight@.len() && base.in_flight@[mb].trace_id@ == tid);
                assert(mb == m2);
                assert(pre.in_flight@[t] == base.in_flight@[mb]);
                assert(is_stale(base.in_flight@[mb], cut));
                assert(evicted_from(out@.last(), base.in_flight@, cut));
                assert forall|j: int|
                    0 <= j < self.span_names@.len() implies base.span_names@.contains(
                    #[trigger] self.span_names@[j],
                ) by {
                    assert(pre.span_names@.contains(self.span_names@[j]));
                    let w = choose|w: int|
                        0 <= w < pre.span_names@.len() && pre.span_names@[w]
                            == self.span_names@[j];
                    assert(base.span_names@.contains(pre.span_names@[w]));
                }
                assert forall|j: int|
                    0 <= j < self.span_starts@.len() implies base.span_starts@.contains(
                    #[trigger] self.span_starts@[j],
                ) by {
                    assert(pre.span_starts@.contains(self.span_starts@[j]));
                    let w = choose|w: int|
                        0 <= w < pre.span_starts@.len() && pre.span_starts@[w]
                            == self.span_starts@[j];
                    assert(base.span_starts@.contains(pre.span_starts@[w]));
                }
                assert forall|q: int, sid: Seq<char>|
                    0 <= q < k + 1 && #[trigger] has_span(
                        base.in_flight@[trace_index(base.in_flight@, ids@[q]@)].spans@,
                        sid,
                    ) implies !has_name(self.span_names@, sid) && !has_start(
                    self.span_starts@,
                    sid,
                ) by {
                    if q < k {
                        if has_name(self.span_names@, sid) {
                            let w = choose|w: int|
                                0 <= w < self.span_names@.len() && self.span_names@[w].span_id@
                                    == sid;
                            assert(pre.span_names@.contains(self.span_names@[w]));
                            let w2 = choose|w2: int|
                                0 <= w2 < pre.span_names@.len() && pre.span_names@[w2]
                                    == self.span_names@[w];
                            assert(pre.span_names@[w2].span_id@ == sid);
                            assert(has_name(pre.span_names@, sid));
                        }
                        if has_start(self.span_starts@, sid) {
                            let w = choose|w: int|
                                0 <= w < self.span_starts@.len() && self.span_starts@[w].span_id@
                                    == sid;
                            assert(pre.span_starts@.contains(self.span_starts@[w]));
                            let w2 = choose|w2: int|
                                0 <= w2 < pre.span_starts@.len() && pre.span_starts@[w2]
                                    == self.span_starts@[w];
                            assert(pre.span_starts@[w2].span_id@ == sid);
                            assert(has_start(pre.span_starts@, sid));
                        }
                    } else {
                        assert(trace_index(base.in_flight@, ids@[q]@) == mb);
                        assert(has_span(pre.in_flight@[t].spans@, sid));
                    }
                }
                assert forall|k2: int|
                    0 <= k2 < base.span_names@.len() && !in_stale_spans(
                        base.in_flight@,
                        cut,
                        (#[trigger] base.span_names@[k2]).span_id@,
                    ) implies self.span_names@.contains(base.span_names@[k2]) by {
                    assert(pre.span_names@.contains(base.span_names@[k2]));
                    let w = choose|w: int|
                        0 <= w < pre.span_names@.len() && pre.span_names@[w]
                            == base.span_names@[k2];
                    assert(!has_span(pre.in_flight@[t].spans@, base.span_names@[k2].span_id@))
                        by {
                        if has_span(pre.in_flight@[t].spans@, base.span_names@[k2].span_id@) {
                            assert(is_stale(base.in_flight@[mb], cut));
                            assert(has_span(
                                base.in_flight@[mb].spans@,
                                base.span_names@[k2].span_id@,
                            ));
                        }
                    }
                    assert(pre.span_names@[w].span_id@ == base.span_names@[k2].span_id@);
                    assert(self.span_names@.contains(pre.span_names@[w]));
                }
                assert forall|k2: int|
                    0 <= k2 < base.span_starts@.len() && !in_stale_spans(
                        base.in_flight@,
                        cut,
                        (#[trigger] base.span_starts@[k2]).span_id@,
                    ) implies self.span_starts@.contains(base.span_starts@[k2]) by {
                    assert(pre.span_starts@.contains(base.span_starts@[k2]));
                    let w = choose|w: int|
                        0 <= w < pre.span_starts@.len() && pre.span_starts@[w]
                            == base.span_starts@[k2];
                    assert(!has_span(pre.in_flight@[t].spans@, base.span_starts@[k2].span_id@))
                        by {
                        if has_span(pre.in_flight@[t].spans@, base.span_starts@[k2].span_id@) {
                            assert(is_stale(base.in_flight@[mb], cut));
                            assert(has_span(
                                base.in_flight@[mb].spans@,
                                base.span_starts@[k2].span_id@,
                            ));
                        }
                    }
                    assert(pre.span_starts@[w].span_id@ == base.span_starts@[k2].span_id@);
                    assert(self.span_starts@.contains(pre.span_starts@[w]));
                }
            }
            k = k + 1;
        }
        proof {
            assert forall|j: int| 0 <= j < self.in_flight@.len() implies !is_stale(
                #[trigger] self.in_flight@[j],
                stale_cutoff(now_ns, max_age_ns),
            ) by {
                if is_stale(self.in_flight@[j], cut) {
                    let m = choose|m: int|
                        0 <= m < base.in_flight@.len() && base.in_flight@[m]
                            == self.in_flight@[j];
                    let q = contains_id_witness(ids@, base.in_flight@[m].trace_id@);
                    assert(has_trace(self.in_flight@, ids@[q]@));
                }
            }
            assert forall|m: int|
                0 <= m < base.in_flight@.len() && is_stale(
                    #[trigger] base.in_flight@[m],
                    cut,
                ) implies completed_has_id(out@, base.in_flight@[m].trace_id@) by {
                let q = contains_id_witness(ids@, base.in_flight@[m].trace_id@);
                assert(out@[q].trace_id@ == ids@[q]@);
            }
            assert forall|m: int, sid: Seq<char>|
                0 <= m < base.in_flight@.len() && is_stale(base.in_flight@[m], cut)
                    && #[trigger] has_span(base.in_flight@[m].spans@, sid) implies !has_name(
                self.span_names@,
                sid,
            ) && !has_start(self.span_starts@, sid) by {
                let q = contains_id_witness(ids@, base.in_flight@[m].trace_id@);
                let mi = trace_index(base.in_flight@, ids@[q]@);
                assert(0 <= mi < base.in_flight@.len() && base.in_flight@[mi].trace_id@
                    == ids@[q]@);
                assert(mi == m);
                assert(has_span(
                    base.in_flight@[trace_index(base.in_flight@, ids@[q]@)].spans@,
                    sid,
                ));
            }
        }
        out
    }
}


// ---------------------------------------------------------------------
// Batch export.
// ---------------------------------------------------------------------

/// Record (or refresh) a span id's node id in the span-name index.
fn upsert_name(names: &mut Vec<NameEntry>, sid: &String, nid: String)
    requires
        names_distinct(old(names)@),
    ensures
        names_distinct(final(names)@),
        lookup_name(final(names)@, sid@) == Some(nid@),
        forall|x: Seq<char>|
            x != sid@ ==> #[trigger] lookup_name(final(names)@, x) == lookup_name(old(names)@, x),
{
    match find_name_slot(names, sid) {
        Some(i) => {
            names[i] = NameEntry { span_id: sid.clone(), node_id: nid };
            proof {
                lemma_name_upsert(old(names)@, final(names)@, i as int, sid@, nid@);
            }
        }
        None => {
            names.push(NameEntry { span_id: sid.clone(), node_id: nid });
            proof {
                lemma_name_push(old(names)@, final(names)@, sid@, nid@);
            }
        }
    }
}

fn find_name_slot(names: &Vec<NameEntry>, sid: &String) -> (r: Option<usize>)
    requires
        names_distinct(names@),
    ensures
        match r {
            Some(i) => i < names@.len() && names@[i as int].span_id@ == sid@,
            None => !has_name(names@, sid@),
        },
{
    let mut i: usize = 0;
    while i < names.len()
        invariant
            i <= names@.len(),
            forall|j: int| 0 <= j < i ==> names@[j].span_id@ != sid@,
        decreases names@.len() - i,
    {
        if names[i].span_id == *sid {
            return Some(i);
        }
        i = i + 1;
    }
    None
}

proof fn lemma_name_upsert(pre: Seq<NameEntry>, post: Seq<NameEntry>, i: int, sid: Seq<char>, nid: Seq<char>)
    requires
        names_distinct(pre),
        0 <= i < pre.len(),
        pre[i].span_id@ == sid,
        post == pre.update(i, post[i]),
        post.len() == pre.len(),
        post[i].span_id@ == sid,
        post[i].node_id@ == nid,
    ensures
        names_distinct(post),
        lookup_name(post, sid) == Some(nid),
        forall|x: Seq<char>| x != sid ==> #[trigger] lookup_name(post, x) == lookup_name(pre, x),
{
    assert forall|a: int, b: int| 0 <= a < b < post.len() implies post[a].span_id@
        != post[b].span_id@ by {
        assert(pre[a].span_id@ != pre[b].span_id@);
    }
    assert(has_name(post, sid));
    let c = name_index(post, sid);
    assert(post[c].span_id@ == sid);
    assert(c == i);
    assert forall|x: Seq<char>| x != sid implies #[trigger] lookup_name(post, x) == lookup_name(
        pre,
        x,
    ) by {
        if has_name(pre, x) {
            let j = name_index(pre, x);
            assert(0 <= j < pre.len() && pre[j].span_id@ == x);
            assert(j != i);
            assert(post[j].span_id@ == x);
            assert(has_name(post, x));
            assert(name_index(post, x) == j);
        } else {
            if has_name(post, x) {
                let j = name_index(post, x);
                assert(0 <= j < post.len() && post[j].span_id@ == x);
                assert(j != i);
                assert(pre[j].span_id@ == x);
            }
        }
    }
}

proof fn lemma_name_push(pre: Seq<NameEntry>, post: Seq<NameEntry>, sid: Seq<char>, nid: Seq<char>)
    requires
        names_distinct(pre),
        !has_name(pre, sid),
        post == pre.push(post.last()),
        post.len() == pre.len() + 1,
        post.last().span_id@ == sid,
        post.last().node_id@ == nid,
    ensures
        names_distinct(post),
        lookup_name(post, sid) == Some(nid),
        forall|x: Seq<char>| x != sid ==> #[trigger] lookup_name(post, x) == lookup_name(pre, x),
{
    let n = pre.len() as int;
    assert forall|a: int, b: int| 0 <= a < b < post.len() implies post[a].span_id@
        != post[b].span_id@ by {
        if b < n {
            assert(pre[a].span_id@ != pre[b].span_id@);
        } else {
            assert(post[a] == pre[a]);
            if post[a].span_id@ == sid {
                assert(has_name(pre, sid));
            }
        }
    }
    assert(post[n].span_id@ == sid);
    assert(has_name(post, sid));
    let c = name_index(post, sid);
    assert(post[c].span_id@ == sid);
    assert(c == n);
    assert forall|x: Seq<char>| x != sid implies #[trigger] lookup_name(post, x) == lookup_name(
        pre,
        x,
    ) by {
        if has_name(pre, x) {
            let j = name_index(pre, x);
            assert(post[j].span_id@ == x);
            assert(has_name(post, x));
            assert(name_index(post, x) == j);
        } else {
            if has_name(post, x) {
                let j = name_index(post, x);
                assert(j != n);
                assert(pre[j].span_id@ == x);
            }
        }
    }
}

/// Record (or refresh) a span id's start time in the span-start index.
fn upsert_start(starts: &mut Vec<StartEntry>, sid: &String, start_nanos: u64)
    requires
        starts_distinct(old(starts)@),
    ensures
        starts_distinct(final(starts)@),
        lookup_start(final(starts)@, sid@) == Some(start_nanos),
        forall|x: Seq<char>|
            x != sid@ ==> #[trigger] lookup_start(final(starts)@, x) == lookup_start(
                old(starts)@,
                x,
            ),
{
    let mut i: usize = 0;
    while i < starts.len()
        invariant
            i <= starts@.len(),
            starts_distinct(starts@),
            starts@ == old(starts)@,
            forall|j: int| 0 <= j < i ==> starts@[j].span_id@ != sid@,
        decreases starts@.len() - i,
    {
        if starts[i].span_id == *sid {
            starts[i] = StartEntry { span_id: sid.clone(), start_nanos };
            proof {
                lemma_start_upsert(old(starts)@, starts@, i as int, sid@, start_nanos);
            }
            return ;
        }
        i = i + 1;
    }
    starts.push(StartEntry { span_id: sid.clone(), start_nanos });
    proof {
        lemma_start_push(old(starts)@, starts@, sid@, start_nanos);
    }
}

proof fn lemma_start_upsert(pre: Seq<StartEntry>, post: Seq<StartEntry>, i: int, sid: Seq<char>, v: u64)
    requires
        starts_distinct(pre),
        0 <= i < pre.len(),
        pre[i].span_id@ == sid,
        post == pre.update(i, post[i]),
        post.len() == pre.len(),
        post[i].span_id@ == sid,
        post[i].start_nanos == v,
    ensures
        starts_distinct(post),
        lookup_start(post, sid) == Some(v),
        forall|x: Seq<char>| x != sid ==> #[trigger] lookup_start(post, x) == lookup_start(pre, x),
{
    assert forall|a: int, b: int| 0 <= a < b < post.len() implies post[a].span_id@
        != post[b].span_id@ by {
        assert(pre[a].span_id@ != pre[b].span_id@);
    }
    assert(has_start(post, sid));
    let c = start_index(post, sid);
    assert(post[c].span_id@ == sid);
    assert(c == i);
    assert forall|x: Seq<char>| x != sid implies #[trigger] lookup_start(post, x) == lookup_start(
        pre,
        x,
    ) by {
        if has_start(pre, x) {
            let j = start_index(pre, x);
            assert(0 <= j < pre.len() && pre[j].span_id@ == x);
            assert(j != i);
            assert(post[j].span_id@ == x);
            assert(has_start(post, x));
            assert(start_index(post, x) == j);
        } else {
            if has_start(post, x) {
                let j = start_index(post, x);
                assert(j != i);
                assert(pre[j].span_id@ == x);
            }
        }
    }
}

proof fn lemma_start_push(pre: Seq<StartEntry>, post: Seq<StartEntry>, sid: Seq<char>, v: u64)
    requires
        starts_distinct(pre),
        !has_start(pre, sid),
        post == pre.push(post.last()),
        post.len() == pre.len() + 1,
        post.last().span_id@ == sid,
        post.last().start_nanos == v,
    ensures
        starts_distinct(post),
        lookup_start(post, sid) == Some(v),
        forall|x: Seq<char>| x != sid ==> #[trigger] lookup_start(post, x) == lookup_start(pre, x),
{
    let n = pre.len() as int;
    assert forall|a: int, b: int| 0 <= a < b < post.len() implies post[a].span_id@
        != post[b].span_id@ by {
        if b < n {
            assert(pre[a].span_id@ != pre[b].span_id@);
        } else {
            assert(post[a] == pre[a]);
            if post[a].span_id@ == sid {
                assert(has_start(pre, sid));
            }
        }
    }
    assert(post[n].span_id@ == sid);
    assert(has_start(post, sid));
    let c = start_index(post, sid);
    assert(c == n);
    assert forall|x: Seq<char>| x != sid implies #[trigger] lookup_start(post, x) == lookup_start(
        pre,
        x,
    ) by {
        if has_start(pre, x) {
            let j = start_index(pre, x);
            assert(post[j].span_id@ == x);
            assert(has_start(post, x));
            assert(start_index(post, x) == j);
        } else {
            if has_start(post, x) {
                let j = start_index(post, x);
                assert(j != n);
                assert(pre[j].span_id@ == x);
            }
        }
    }
}

/// The span-name lookup as it stands once the whole batch is
/// pre-indexed over an initial index: the last batch span carrying the
/// id wins; otherwise the initial index answers.
pub open spec fn indexed_name(
    names0: Seq<NameEntry>,
    batch: Seq<SpanEvent>,
    x: Seq<char>,
) -> Option<Seq<char>>
    decreases batch.len(),
{
    if batch.len() == 0 {
        lookup_name(names0, x)
    } else if batch.last().span_id@ == x {
        Some(node_id_of(batch.last().target@, batch.last().name@))
    } else {
        indexed_name(names0, batch.drop_last(), x)
    }
}

/// The span-start lookup once the whole batch is pre-indexed.
pub open spec fn indexed_start(
    starts0: Seq<StartEntry>,
    batch: Seq<SpanEvent>,
    x: Seq<char>,
) -> Option<u64>
    decreases batch.len(),
{
    if batch.len() == 0 {
        lookup_start(starts0, x)
    } else if batch.last().span_id@ == x {
        Some(batch.last().start_time_unix_nano)
    } else {
        indexed_start(starts0, batch.drop_last(), x)
    }
}

/// A payload's parent fields, as resolved through the indexes after
/// the whole batch was pre-indexed: parents are found even when their
/// child precedes them in the batch.
pub open spec fn payload_resolves(
    p: SpanArrivedPayload,
    s: SpanEvent,
    names0: Seq<NameEntry>,
    starts0: Seq<StartEntry>,
    batch: Seq<SpanEvent>,
) -> bool {
    &&& opt_view(p.from_node) == (match s.parent_span_id {
        Some(pid) => indexed_name(names0, batch, pid@),
        None => None,
    })
    &&& p.edge_latency_nanos == (match s.parent_span_id {
        Some(pid) => match indexed_start(starts0, batch, pid@) {
            Some(t) => Some(latency_nanos(s.start_time_unix_nano, t)),
            None => None,
        },
        None => None,
    })
}

/// The edge a batch span contributes, given how the pre-indexed store
/// resolves its parent: from the parent's node id to the span's own,
/// when the two differ.
pub open spec fn resolved_edge(
    s: SpanEvent,
    names0: Seq<NameEntry>,
    batch: Seq<SpanEvent>,
) -> Option<(Seq<char>, Seq<char>)> {
    match s.parent_span_id {
        Some(pid) => match indexed_name(names0, batch, pid@) {
            Some(f) => if f != node_id_of(s.target@, s.name@) {
                Some((f, node_id_of(s.target@, s.name@)))
            } else {
                None
            },
            None => None,
        },
        None => None,
    }
}

/// Some span of the batch carries this trace id and no parent.
pub open spec fn is_root_trace(batch: Seq<SpanEvent>, tid: Seq<char>) -> bool {
    exists|q: int|
        0 <= q < batch.len() && (#[trigger] batch[q]).parent_span_id is None
            && batch[q].trace_id@ == tid
}

/// Some delivered trace carries this trace id.
pub open spec fn completed_has_id(r: Seq<TraceComplete>, tid: Seq<char>) -> bool {
    exists|j: int| 0 <= j < r.len() && (#[trigger] r[j]).trace_id@ == tid
}

/// The summary fields of a delivered trace follow from its own span
/// list, which is sorted by ascending start time.
pub open spec fn trace_summary_consistent(tc: TraceComplete) -> bool {
    &&& tc.spans@.len() >= 1
    &&& sorted_by_start(tc.spans@)
    &&& tc.started_at == tc.spans@[0].start_time_unix_nano
    &&& tc.duration_nanos == (if max_end(tc.spans@) >= tc.started_at {
        max_end(tc.spans@) - tc.started_at
    } else {
        0
    })
    &&& tc.root_span_name@ == first_root_name(tc.spans@)
}

proof fn root_trace_witness(batch: Seq<SpanEvent>, tid: Seq<char>) -> (q: int)
    requires
        is_root_trace(batch, tid),
    ensures
        0 <= q < batch.len(),
        batch[q].parent_span_id is None,
        batch[q].trace_id@ == tid,
{
    choose|q: int|
        0 <= q < batch.len() && (#[trigger] batch[q]).parent_span_id is None
            && batch[q].trace_id@ == tid
}

proof fn completed_id_witness(r: Seq<TraceComplete>, tid: Seq<char>) -> (j: int)
    requires
        completed_has_id(r, tid),
    ensures
        0 <= j < r.len(),
        r[j].trace_id@ == tid,
{
    choose|j: int| 0 <= j < r.len() && (#[trigger] r[j]).trace_id@ == tid
}

/// A broadcast payload mirrors its span, with the span's node id as
/// destination.
pub open spec fn payload_matches(p: SpanArrivedPayload, s: SpanEvent) -> bool {
    &&& p.trace_id@ == s.trace_id@
    &&& p.span_id@ == s.span_id@
    &&& opt_view(p.parent_span_id) == opt_view(s.parent_span_id)
    &&& p.name@ == s.name@
    &&& p.target@ == s.target@
    &&& p.start_time_unix_nano == s.start_time_unix_nano
    &&& p.end_time_unix_nano == s.end_time_unix_nano
    &&& p.status@ == s.status@
    &&& p.service_name@ == s.service_name@
    &&& p.to_node@ == node_id_of(s.target@, s.name@)
}

impl AppState {
    /// Index one span's id under its node id and start time, so that
    /// its children (which may precede it in a batch) resolve their
    /// parent edge.
    pub fn pre_index_span(&mut self, span: &SpanEvent)
        requires
            old(self).wf(),
        ensures
            final(self).wf(),
            final(self).nodes@ == old(self).nodes@,
            final(self).edges@ == old(self).edges@,
            final(self).in_flight@ == old(self).in_flight@,
            final(self).total_spans == old(self).total_spans,
            final(self).total_traces == old(self).total_traces,
            final(self).last_topo_ms == old(self).last_topo_ms,
            lookup_name(final(self).span_names@, span.span_id@) == Some(
                node_id_of(span.target@, span.name@),
            ),
            lookup_start(final(self).span_starts@, span.span_id@) == Some(
                span.start_time_unix_nano,
            ),
            forall|x: Seq<char>|
                x != span.span_id@ ==> #[trigger] lookup_name(final(self).span_names@, x)
                    == lookup_name(old(self).span_names@, x),
            forall|x: Seq<char>|
                x != span.span_id@ ==> #[trigger] lookup_start(final(self).span_starts@, x)
                    == lookup_start(old(self).span_starts@, x),
    {
        let nid = node_id_string(&span.target, &span.name);
        upsert_name(&mut self.span_names, &span.span_id, nid);
        upsert_start(&mut self.span_starts, &span.span_id, span.start_time_unix_nano);
    }

    /// Run one export call against the store: pre-index the whole
    /// batch, ingest every span in order, emit at most one batch
    /// message (exactly when the batch is non-empty), give the topology
    /// throttle one chance to fire, and finalize each trace whose root
    /// span arrived.
    #[verifier::rlimit(100)]
    pub fn export_batch(&mut self, batch: Vec<SpanEvent>, now_ms: u64) -> (r: ExportOutcome)
        requires
            old(self).wf(),
            old(self).total_spans + batch@.len() <= u64::MAX,
            old(self).total_traces + batch@.len() <= u64::MAX,
        ensures
            final(self).wf(),
            final(self).total_spans == old(self).total_spans + batch@.len(),
            r.batch_message is Some <==> batch@.len() > 0,
            match r.batch_message {
                Some(ps) => {
                    &&& ps@.len() == batch@.len()
                    &&& forall|q: int|
                        0 <= q < ps@.len() ==> payload_matches(#[trigger] ps@[q], batch@[q])
                    &&& forall|q: int|
                        0 <= q < ps@.len() ==> payload_resolves(
                            #[trigger] ps@[q],
                            batch@[q],
                            old(self).span_names@,
                            old(self).span_starts@,
                            batch@,
                        )
                }
                None => batch@.len() == 0,
            },
            r.topology is Some <==> topology_due(old(self).last_topo_ms, now_ms),
            match r.topology {
                Some(u) => {
                    &&& final(self).last_topo_ms == now_ms
                    &&& u.nodes@ == final(self).nodes@
                    &&& u.edges@ == final(self).edges@
                }
                None => final(self).last_topo_ms == old(self).last_topo_ms,
            },
            forall|j: int|
                0 <= j < r.completed@.len() ==> trace_summary_consistent(#[trigger] r.completed@[j]),
            forall|j: int|
                0 <= j < r.completed@.len() ==> is_root_trace(
                    batch@,
                    (#[trigger] r.completed@[j]).trace_id@,
                ),
            forall|j1: int, j2: int|
                0 <= j1 < j2 < r.completed@.len() ==> r.completed@[j1].trace_id@
                    != r.completed@[j2].trace_id@,
            forall|tid: Seq<char>|
                #[trigger] is_root_trace(batch@, tid) ==> !has_trace(final(self).in_flight@, tid)
                    && completed_has_id(r.completed@, tid),
            forall|q: int|
                0 <= q < batch@.len() ==> has_node(
                    final(self).nodes@,
                    node_id_of((#[trigger] batch@[q]).target@, batch@[q].name@),
                ),
            forall|q: int|
                0 <= q < batch@.len() ==> (match resolved_edge(
                    #[trigger] batch@[q],
                    old(self).span_names@,
                    batch@,
                ) {
                    Some(e) => has_edge(final(self).edges@, e.0, e.1),
                    None => true,
                }),
    {
        let ghost orig = batch@;
        let ghost names0 = old(self).span_names@;
        let ghost starts0 = old(self).span_starts@;
        let mut rest = batch;

        let mut i: usize = 0;
        proof {
            assert(orig.take(0) =~= Seq::<SpanEvent>::empty());
        }
        while i < rest.len()
            invariant
                i <= rest@.len(),
                rest@ == orig,
                self.wf(),
                self.nodes@ == old(self).nodes@,
                self.edges@ == old(self).edges@,
                self.in_flight@ == old(self).in_flight@,
                self.total_spans == old(self).total_spans,
                self.total_traces == old(self).total_traces,
                self.last_topo_ms == old(self).last_topo_ms,
                forall|x: Seq<char>|
                    #[trigger] lookup_name(self.span_names@, x) == indexed_name(
                        names0,
                        orig.take(i as int),
                        x,
                    ),
                forall|x: Seq<char>|
                    #[trigger] lookup_start(self.span_starts@, x) == indexed_start(
                        starts0,
                        orig.take(i as int),
                        x,
                    ),
            decreases rest@.len() - i,
        {
            let ghost pre_names = self.span_names@;
            let ghost pre_starts = self.span_starts@;
            self.pre_index_span(&rest[i]);
            proof {
                assert(orig.take(i + 1).drop_last() =~= orig.take(i as int));
                assert(orig.take(i + 1).last() == orig[i as int]);
                assert forall|x: Seq<char>|
                    #[trigger] lookup_name(self.span_names@, x) == indexed_name(
                        names0,
                        orig.take(i + 1),
                        x,
                    ) by {
                    if x == orig[i as int].span_id@ {
                        assert(lookup_name(self.span_names@, x) == Some(
                            node_id_of(orig[i as int].target@, orig[i as int].name@),
                        ));
                    } else {
                        assert(lookup_name(self.span_names@, x) == lookup_name(pre_names, x));
                        assert(lookup_name(pre_names, x) == indexed_name(
                            names0,
                            orig.take(i as int),
                            x,
                        ));
                    }
                }
                assert forall|x: Seq<char>|
                    #[trigger] lookup_start(self.span_starts@, x) == indexed_start(
                        starts0,
                        orig.take(i + 1),
                        x,
                    ) by {
                    if x == orig[i as int].span_id@ {
                        assert(lookup_start(self.span_starts@, x) == Some(
                            orig[i as int].start_time_unix_nano,
                        ));
                    } else {
                        assert(lookup_start(self.span_starts@, x) == lookup_start(pre_starts, x));
                        assert(lookup_start(pre_starts, x) == indexed_start(
                            starts0,
                            orig.take(i as int),
                            x,
                        ));
                    }
                }
            }
            i = i + 1;
        }
        proof {
            assert(orig.take(orig.len() as int) =~= orig);
        }

        let mut payloads: Vec<SpanArrivedPayload> = Vec::new();
        let mut roots: Vec<String> = Vec::new();
        while rest.len() > 0
            invariant
                payloads@.len() + rest@.len() == orig.len(),
                rest@ =~= orig.skip(payloads@.len() as int),
                roots@.len() <= payloads@.len(),
                self.wf(),
                old(self).total_spans + orig.len() <= u64::MAX,
                self.total_spans == old(self).total_spans + payloads@.len(),
                self.total_traces == old(self).total_traces,
                self.last_topo_ms == old(self).last_topo_ms,
                forall|x: Seq<char>|
                    #[trigger] lookup_name(self.span_names@, x) == indexed_name(names0, orig, x),
                forall|x: Seq<char>|
                    #[trigger] lookup_start(self.span_starts@, x) == indexed_start(
                        starts0,
                        orig,
                        x,
                    ),
                forall|q: int|
                    0 <= q < payloads@.len() ==> payload_matches(#[trigger] payloads@[q], orig[q]),
                forall|q: int|
                    0 <= q < payloads@.len() ==> payload_resolves(
                        #[trigger] payloads@[q],
                        orig[q],
                        names0,
                        starts0,
                        orig,
                    ),
                forall|q: int|
                    0 <= q < roots@.len() ==> is_root_trace(orig, (#[trigger] roots@[q])@),
                forall|q: int|
                    0 <= q < roots@.len() ==> has_trace(self.in_flight@, (#[trigger] roots@[q])@),
                forall|q2: int|
                    0 <= q2 < payloads@.len() && (#[trigger] orig[q2]).parent_span_id is None
                        ==> contains_id(roots@, orig[q2].trace_id@),
                forall|q: int|
                    0 <= q < payloads@.len() ==> has_node(
                        self.nodes@,
                        node_id_of((#[trigger] orig[q]).target@, orig[q].name@),
                    ),
                forall|q: int|
                    0 <= q < payloads@.len() ==> (match resolved_edge(
                        #[trigger] orig[q],
                        names0,
                        orig,
                    ) {
                        Some(e) => has_edge(self.edges@, e.0, e.1),
                        None => true,
                    }),
            decreases rest@.len(),
        {
            let ghost done = payloads@.len() as int;
            let ghost pre_roots = roots@;
            let s = rest.remove(0);
            let ghost gspan = s;
            proof {
                assert(gspan == orig[done]);
                assert(rest@ =~= orig.skip(done + 1));
            }
            match &s.parent_span_id {
                None => {
                    roots.push(s.trace_id.clone());
                    proof {
                        assert(roots@[roots@.len() - 1]@ == orig[done].trace_id@);
                        assert(is_root_trace(orig, orig[done].trace_id@)) by {
                            assert(orig[done].parent_span_id is None);
                        }
                    }
                }
                Some(_) => {}
            }
            let ghost pre_self = *self;
            let p = self.ingest_span(s);
            payloads.push(p);
            proof {
                assert forall|x: Seq<char>|
                    #[trigger] lookup_name(self.span_names@, x) == indexed_name(
                        names0,
                        orig,
                        x,
                    ) by {
                    assert(lookup_name(pre_self.span_names@, x) == indexed_name(names0, orig, x));
                    assert(self.span_names@ == pre_self.span_names@);
                }
                assert forall|x: Seq<char>|
                    #[trigger] lookup_start(self.span_starts@, x) == indexed_start(
                        starts0,
                        orig,
                        x,
                    ) by {
                    assert(lookup_start(pre_self.span_starts@, x) == indexed_start(
                        starts0,
                        orig,
                        x,
                    ));
                    assert(self.span_starts@ == pre_self.span_starts@);
                }
                assert(payload_resolves(p, gspan, names0, starts0, orig)) by {
                    match gspan.parent_span_id {
                        Some(pid) => {
                            assert(opt_view(p.from_node) == lookup_name(
                                pre_self.span_names@,
                                pid@,
                            ));
                            assert(lookup_name(pre_self.span_names@, pid@) == indexed_name(
                                names0,
                                orig,
                                pid@,
                            ));
                            assert(lookup_start(pre_self.span_starts@, pid@) == indexed_start(
                                starts0,
                                orig,
                                pid@,
                            ));
                        }
                        None => {}
                    }
                }
                assert forall|q: int|
                    0 <= q < roots@.len() implies has_trace(
                    self.in_flight@,
                    (#[trigger] roots@[q])@,
                ) by {
                    if roots@[q]@ == gspan.trace_id@ {
                        assert(has_trace(self.in_flight@, gspan.trace_id@));
                    } else {
                        let j0 = choose|j0: int|
                            0 <= j0 < pre_self.in_flight@.len()
                                && pre_self.in_flight@[j0].trace_id@ == roots@[q]@;
                        if has_trace(pre_self.in_flight@, gspan.trace_id@) {
                            let t = trace_index(pre_self.in_flight@, gspan.trace_id@);
                            assert(j0 != t);
                            assert(self.in_flight@[j0] == pre_self.in_flight@[j0]);
                        } else {
                            assert(self.in_flight@.drop_last() =~= pre_self.in_flight@);
                            assert(self.in_flight@[j0] == pre_self.in_flight@[j0]);
                        }
                    }
                }
                assert forall|q2: int|
                    0 <= q2 < done + 1 && (#[trigger] orig[q2]).parent_span_id is None implies
                    contains_id(roots@, orig[q2].trace_id@) by {
                    if q2 < done {
                        let qq = contains_id_witness(pre_roots, orig[q2].trace_id@);
                        assert(roots@[qq]@ == orig[q2].trace_id@);
                    } else {
                        assert(roots@[roots@.len() - 1]@ == orig[q2].trace_id@);
                    }
                }
                let new_nid = node_id_of(gspan.target@, gspan.name@);
                assert(has_node(self.nodes@, new_nid)) by {
                    if has_node(pre_self.nodes@, new_nid) {
                        let ni = node_index(pre_self.nodes@, new_nid);
                        assert(self.nodes@[ni].id@ == new_nid);
                    } else {
                        assert(self.nodes@.last().id@ == new_nid);
                    }
                }
                assert(match resolved_edge(gspan, names0, orig) {
                    Some(e) => has_edge(self.edges@, e.0, e.1),
                    None => true,
                }) by {
                    match gspan.parent_span_id {
                        Some(pid) => {
                            assert(lookup_name(pre_self.span_names@, pid@) == indexed_name(
                                names0,
                                orig,
                                pid@,
                            ));
                            match parent_lookup(pre_self, gspan) {
                                Some(f) => {
                                    if f != new_nid {
                                        if has_edge(pre_self.edges@, f, new_nid) {
                                            let ei = edge_index(pre_self.edges@, f, new_nid);
                                            assert(self.edges@[ei].source@ == f
                                                && self.edges@[ei].target@ == new_nid);
                                        } else {
                                            assert(self.edges@.last().source@ == f
                                                && self.edges@.last().target@ == new_nid);
                                        }
                                    }
                                }
                                None => {}
                            }
                        }
                        None => {}
                    }
                }
                assert forall|q: int|
                    0 <= q < done + 1 implies has_node(
                    self.nodes@,
                    node_id_of((#[trigger] orig[q]).target@, orig[q].name@),
                ) by {
                    if q < done {
                        let nq = node_id_of(orig[q].target@, orig[q].name@);
                        let j = choose|j: int|
                            0 <= j < pre_self.nodes@.len() && pre_self.nodes@[j].id@ == nq;
                        if has_node(pre_self.nodes@, new_nid) {
                            assert(self.nodes@[j].id@ == pre_self.nodes@[j].id@);
                        } else {
                            assert(self.nodes@[j] == pre_self.nodes@[j]);
                        }
                    }
                }
                assert forall|q: int|
                    0 <= q < done + 1 implies (match resolved_edge(
                    #[trigger] orig[q],
                    names0,
                    orig,
                ) {
                    Some(e) => has_edge(self.edges@, e.0, e.1),
                    None => true,
                }) by {
                    if q < done {
                        match resolved_edge(orig[q], names0, orig) {
                            Some(e) => {
                                let j = choose|j: int|
                                    0 <= j < pre_self.edges@.len() && pre_self.edges@[j].source@
                                        == e.0 && pre_self.edges@[j].target@ == e.1;
                                match parent_lookup(pre_self, gspan) {
                                    Some(f) => {
                                        if f != new_nid {
                                            if has_edge(pre_self.edges@, f, new_nid) {
                                                assert(self.edges@[j].source@
                                                    == pre_self.edges@[j].source@
                                                    && self.edges@[j].target@
                                                    == pre_self.edges@[j].target@);
                                            } else {
                                                assert(self.edges@[j] == pre_self.edges@[j]);
                                            }
                                        } else {
                                            assert(self.edges@ == pre_self.edges@);
                                        }
                                    }
                                    None => {
                                        assert(self.edges@ == pre_self.edges@);
                                    }
                                }
                                assert(has_edge(self.edges@, e.0, e.1));
                            }
                            None => {}
                        }
                    }
                }
            }
        }

        let batch_message = if payloads.len() > 0 {
            Some(payloads)
        } else {
            None
        };

        let topology = self.maybe_broadcast_topology(now_ms);
        let ghost after_gate = *self;

        let mut completed: Vec<TraceComplete> = Vec::new();
        let mut k: usize = 0;
        while k < roots.len()
            invariant
                k <= roots@.len(),
                self.wf(),
                after_gate.wf(),
                roots@.len() <= orig.len(),
                old(self).total_traces + orig.len() <= u64::MAX,
                after_gate.total_traces == old(self).total_traces,
                after_gate.total_spans == old(self).total_spans + orig.len(),
                self.nodes@ == after_gate.nodes@,
                self.edges@ == after_gate.edges@,
                self.total_spans == after_gate.total_spans,
                self.last_topo_ms == after_gate.last_topo_ms,
                self.total_traces <= old(self).total_traces + k,
                forall|j: int|
                    0 <= j < completed@.len() ==> trace_summary_consistent(
                        #[trigger] completed@[j],
                    ),
                forall|j: int|
                    0 <= j < completed@.len() ==> is_root_trace(
                        orig,
                        (#[trigger] completed@[j]).trace_id@,
                    ),
                forall|j: int|
                    0 <= j < completed@.len() ==> !has_trace(
                        self.in_flight@,
                        (#[trigger] completed@[j]).trace_id@,
                    ),
                forall|j1: int, j2: int|
                    0 <= j1 < j2 < completed@.len() ==> completed@[j1].trace_id@
                        != completed@[j2].trace_id@,
                forall|q: int|
                    0 <= q < roots@.len() ==> is_root_trace(orig, (#[trigger] roots@[q])@),
                forall|q: int|
                    0 <= q < roots@.len() ==> has_trace(self.in_flight@, (#[trigger] roots@[q])@)
                        || completed_has_id(completed@, roots@[q]@),
                forall|q: int|
                    0 <= q < k ==> !has_trace(self.in_flight@, (#[trigger] roots@[q])@),
                forall|q2: int|
                    0 <= q2 < orig.len() && (#[trigger] orig[q2]).parent_span_id is None
                        ==> contains_id(roots@, orig[q2].trace_id@),
            decreases roots@.len() - k,
        {
            let ghost pre = *self;
            let ghost pre_completed = completed@;
            let tc_opt = self.finalize_trace(&roots[k]);
            match tc_opt {
                Some(tc) => {
                    proof {
                        assert(has_trace(pre.in_flight@, roots@[k as int]@));
                    }
                    completed.push(tc);
                    proof {
                        let tid = roots@[k as int]@;
                        let t = trace_index(pre.in_flight@, tid);
                        assert(self.in_flight@ =~= pre.in_flight@.remove(t));
                        assert(trace_summary_consistent(completed@.last()));
                        assert forall|q: int|
                            0 <= q < roots@.len() implies has_trace(
                            self.in_flight@,
                            (#[trigger] roots@[q])@,
                        ) || completed_has_id(completed@, roots@[q]@) by {
                            if roots@[q]@ == tid {
                                assert(completed@[completed@.len() - 1].trace_id@ == tid);
                            } else if has_trace(pre.in_flight@, roots@[q]@) {
                                let j0 = choose|j0: int|
                                    0 <= j0 < pre.in_flight@.len()
                                        && pre.in_flight@[j0].trace_id@ == roots@[q]@;
                                assert(j0 != t);
                                if j0 < t {
                                    assert(self.in_flight@[j0] == pre.in_flight@[j0]);
                                } else {
                                    assert(self.in_flight@[j0 - 1] == pre.in_flight@[j0]);
                                }
                            } else {
                                let jj = completed_id_witness(pre_completed, roots@[q]@);
                                assert(completed@[jj].trace_id@ == roots@[q]@);
                            }
                        }
                        assert forall|q: int|
                            0 <= q < k + 1 implies !has_trace(
                            self.in_flight@,
                            (#[trigger] roots@[q])@,
                        ) by {
                            if q < k {
                                if has_trace(self.in_flight@, roots@[q]@) {
                                    let j0 = choose|j0: int|
                                        0 <= j0 < self.in_flight@.len()
                                            && self.in_flight@[j0].trace_id@ == roots@[q]@;
                                    assert(self.in_flight@[j0] == if j0 < t {
                                        pre.in_flight@[j0]
                                    } else {
                                        pre.in_flight@[j0 + 1]
                                    });
                                    assert(has_trace(pre.in_flight@, roots@[q]@));
                                }
                            }
                        }
                        assert forall|j: int|
                            0 <= j < completed@.len() implies !has_trace(
                            self.in_flight@,
                            (#[trigger] completed@[j]).trace_id@,
                        ) by {
                            if j < pre_completed.len() {
                                if has_trace(self.in_flight@, completed@[j].trace_id@) {
                                    let j0 = choose|j0: int|
                                        0 <= j0 < self.in_flight@.len()
                                            && self.in_flight@[j0].trace_id@
                                            == completed@[j].trace_id@;
                                    assert(self.in_flight@[j0] == if j0 < t {
                                        pre.in_flight@[j0]
                                    } else {
                                        pre.in_flight@[j0 + 1]
                                    });
                                    assert(has_trace(pre.in_flight@, completed@[j].trace_id@));
                                }
                            }
                        }
                        assert forall|j1: int, j2: int|
                            0 <= j1 < j2 < completed@.len() implies completed@[j1].trace_id@
                            != completed@[j2].trace_id@ by {
                            if j2 == completed@.len() - 1 {
                                assert(!has_trace(pre.in_flight@, completed@[j1].trace_id@));
                                assert(completed@[j2].trace_id@ == tid);
                            }
                        }
                    }
                }
                None => {
                    proof {
                        assert(!has_trace(pre.in_flight@, roots@[k as int]@));
                        assert(*self == pre);
                    }
                }
            }
            k = k + 1;
        }
        proof {
            assert forall|tid: Seq<char>|
                #[trigger] is_root_trace(orig, tid) implies !has_trace(self.in_flight@, tid)
                && completed_has_id(completed@, tid) by {
                let q2 = root_trace_witness(orig, tid);
                assert(contains_id(roots@, tid));
                let q = contains_id_witness(roots@, tid);
                assert(!has_trace(self.in_flight@, roots@[q]@));
                assert(completed_has_id(completed@, roots@[q]@));
            }
        }

        ExportOutcome { batch_message, topology, completed }
    }
}

fn clone_nodes(nodes: &Vec<Node>) -> (r: Vec<Node>)
    ensures
        r@ == nodes@,
{
    let mut r: Vec<Node> = Vec::new();
    let mut i: usize = 0;
    while i < nodes.len()
        invariant
            i <= nodes@.len(),
            r@ =~= nodes@.take(i as int),
        decreases nodes@.len() - i,
    {
        r.push(Node {
            id: nodes[i].id.clone(),
            label: nodes[i].label.clone(),
            category: nodes[i].category.clone(),
            span_count: nodes[i].span_count,
        });
        i = i + 1;
    }
    proof {
        assert(nodes@.take(nodes@.len() as int) =~= nodes@);
    }
    r
}

fn clone_edges(edges: &Vec<Edge>) -> (r: Vec<Edge>)
    ensures
        r@ == edges@,
{
    let mut r: Vec<Edge> = Vec::new();
    let mut i: usize = 0;
    while i < edges.len()
        invariant
            i <= edges@.len(),
            r@ =~= edges@.take(i as int),
        decreases edges@.len() - i,
    {
        r.push(Edge {
            source: edges[i].source.clone(),
            target: edges[i].target.clone(),
            flow_count: edges[i].flow_count,
        });
        i = i + 1;
    }
    proof {
        assert(edges@.take(edges@.len() as int) =~= edges@);
    }
    r
}

} // verus!
