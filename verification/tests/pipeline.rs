use otel_ui_backend::model::SpanEvent;
use otel_ui_backend::state::AppState;

fn span(
    trace_id: &str,
    span_id: &str,
    parent: Option<&str>,
    target: &str,
    name: &str,
    start: u64,
    end: u64,
) -> SpanEvent {
    SpanEvent {
        trace_id: trace_id.to_string(),
        span_id: span_id.to_string(),
        parent_span_id: parent.map(|p| p.to_string()),
        name: name.to_string(),
        target: target.to_string(),
        start_time_unix_nano: start,
        end_time_unix_nano: end,
        attributes: Vec::new(),
        status: "unset".to_string(),
        service_name: "svc".to_string(),
    }
}

#[test]
fn two_span_trace_child_before_parent() {
    let mut st = AppState::new();
    let child = span("t1", "b", Some("a"), "Net", "recv", 2_000_000, 5_000_000);
    let parent = span("t1", "a", None, "Net", "handle", 1_000_000, 6_000_000);
    let out = st.export_batch(vec![child, parent], 1_000);

    let payloads = out.batch_message.expect("non-empty batch must broadcast");
    assert_eq!(payloads.len(), 2);
    assert_eq!(payloads[0].to_node, "Net::recv");
    assert_eq!(payloads[0].from_node.as_deref(), Some("Net::handle"));
    assert_eq!(payloads[0].edge_latency_nanos, Some(1_000_000));
    assert_eq!(payloads[1].to_node, "Net::handle");
    assert_eq!(payloads[1].from_node, None);

    assert_eq!(st.nodes.len(), 2);
    for n in &st.nodes {
        assert_eq!(n.span_count, 1);
    }
    assert_eq!(st.edges.len(), 1);
    assert_eq!(st.edges[0].source, "Net::handle");
    assert_eq!(st.edges[0].target, "Net::recv");
    assert_eq!(st.edges[0].flow_count, 1);

    assert_eq!(out.completed.len(), 1);
    let tc = &out.completed[0];
    assert_eq!(tc.trace_id, "t1");
    assert_eq!(tc.spans.len(), 2);
    assert_eq!(tc.spans[0].span_id, "a");
    assert_eq!(tc.spans[1].span_id, "b");
    assert_eq!(tc.duration_nanos, 5_000_000);
    assert_eq!(tc.started_at, 1_000_000);
    assert_eq!(tc.root_span_name, "handle");
    assert_eq!(st.total_traces, 1);
    assert_eq!(st.total_spans, 2);
    assert_eq!(st.in_flight.len(), 0);
    assert_eq!(st.span_names.len(), 0);
    assert_eq!(st.span_starts.len(), 0);
}

#[test]
fn self_edge_suppressed() {
    let mut st = AppState::new();
    let parent = span("t1", "a", None, "X", "f", 1_000, 9_000);
    let child = span("t1", "b", Some("a"), "X", "f", 2_000, 3_000);
    let out = st.export_batch(vec![child, parent], 0);
    assert!(out.batch_message.is_some());
    assert_eq!(st.nodes.len(), 1);
    assert_eq!(st.nodes[0].id, "X::f");
    assert_eq!(st.nodes[0].span_count, 2);
    assert_eq!(st.edges.len(), 0);
}

#[test]
fn orphan_child_resolves_nothing() {
    let mut st = AppState::new();
    let orphan = span("t1", "b", Some("missing"), "Net", "recv", 5, 9);
    let out = st.export_batch(vec![orphan], 0);
    let payloads = out.batch_message.unwrap();
    assert_eq!(payloads[0].from_node, None);
    assert_eq!(payloads[0].edge_latency_nanos, None);
    assert_eq!(st.edges.len(), 0);
    assert_eq!(st.nodes.len(), 1);
    assert_eq!(st.nodes[0].span_count, 1);
}

#[test]
fn empty_batch_broadcasts_nothing() {
    let mut st = AppState::new();
    let out = st.export_batch(Vec::new(), 10_000);
    assert!(out.batch_message.is_none());
    assert_eq!(st.total_spans, 0);
}

#[test]
fn topology_throttle_spacing() {
    let mut st = AppState::new();
    // Cold start: the first gate at or past the interval fires.
    assert!(st.maybe_broadcast_topology(1_000).is_some());
    // Bursts inside the window stay quiet.
    assert!(st.maybe_broadcast_topology(1_100).is_none());
    assert!(st.maybe_broadcast_topology(1_400).is_none());
    assert!(st.maybe_broadcast_topology(1_499).is_none());
    // The next reading past the interval fires again.
    assert!(st.maybe_broadcast_topology(1_500).is_some());
    // A clock running backwards never fires.
    assert!(st.maybe_broadcast_topology(900).is_none());
}

#[test]
fn stale_trace_eviction() {
    let mut st = AppState::new();
    let now_ns: u64 = 200_000_000_000;
    let old_start = now_ns - 120_000_000_000;
    let orphan = span("t_old", "s1", Some("gone"), "Net", "recv", old_start, old_start + 5);
    let out = st.export_batch(vec![orphan], 0);
    assert!(out.completed.is_empty());
    assert_eq!(st.in_flight.len(), 1);
    assert!(st.span_names.len() == 1 && st.span_starts.len() == 1);

    let evicted = st.cleanup_stale_traces(now_ns, 60_000_000_000);
    assert_eq!(evicted.len(), 1);
    assert_eq!(evicted[0].trace_id, "t_old");
    // No parentless span ever arrived, so the root name stays empty.
    assert_eq!(evicted[0].root_span_name, "");
    assert_eq!(st.in_flight.len(), 0);
    assert_eq!(st.span_names.len(), 0);
    assert_eq!(st.span_starts.len(), 0);
    assert_eq!(st.total_traces, 1);
}

#[test]
fn fresh_traces_survive_eviction() {
    let mut st = AppState::new();
    let now_ns: u64 = 200_000_000_000;
    let fresh = span("t_new", "s2", Some("gone"), "Net", "recv", now_ns - 1_000, now_ns);
    st.export_batch(vec![fresh], 0);
    let evicted = st.cleanup_stale_traces(now_ns, 60_000_000_000);
    assert_eq!(evicted.len(), 0);
    assert_eq!(st.in_flight.len(), 1);
    assert_eq!(st.total_traces, 0);
}

#[test]
fn span_counts_add_up_to_total() {
    let mut st = AppState::new();
    let batch = vec![
        span("t1", "a", None, "X", "f", 1, 2),
        span("t2", "b", None, "X", "f", 3, 4),
        span("t3", "c", None, "Y", "g", 5, 6),
    ];
    st.export_batch(batch, 0);
    let sum: u64 = st.nodes.iter().map(|n| n.span_count).sum();
    assert_eq!(sum, st.total_spans);
    let flows: u64 = st.edges.iter().map(|e| e.flow_count).sum();
    assert!(flows <= st.total_spans);
}

#[test]
fn reingested_span_id_replaces() {
    let mut st = AppState::new();
    let first = span("t1", "a", Some("x"), "X", "f", 1, 2);
    let second = span("t1", "a", Some("x"), "X", "f", 7, 9);
    st.export_batch(vec![first], 0);
    st.export_batch(vec![second], 0);
    assert_eq!(st.in_flight.len(), 1);
    assert_eq!(st.in_flight[0].spans.len(), 1);
    assert_eq!(st.in_flight[0].spans[0].start_time_unix_nano, 7);
    assert_eq!(st.total_spans, 2);
}

#[test]
fn export_opens_topology_gate_once() {
    let mut st = AppState::new();
    let first = st.export_batch(vec![span("t1", "a", None, "X", "f", 1, 2)], 700);
    assert!(first.topology.is_some());
    let second = st.export_batch(vec![span("t2", "b", None, "X", "f", 3, 4)], 900);
    assert!(second.topology.is_none());
    let third = st.export_batch(vec![span("t3", "c", None, "X", "f", 5, 6)], 1_200);
    assert!(third.topology.is_some());
    let topo = third.topology.unwrap();
    assert_eq!(topo.nodes.len(), 1);
    assert_eq!(topo.nodes[0].span_count, 3);
}

#[test]
fn snapshot_and_stats() {
    let mut st = AppState::new();
    st.export_batch(vec![span("t1", "a", None, "X", "f", 1, 2)], 0);
    let snap = st.get_topology_snapshot();
    assert_eq!(snap.nodes.len(), 1);
    assert_eq!(snap.nodes[0].id, "X::f");
    assert_eq!(snap.edges.len(), 0);
    let stats = st.stats_snapshot(42);
    assert_eq!(stats.total_traces, 1);
    assert_eq!(stats.active_nodes, 1);
    assert_eq!(stats.timestamp_ms, 42);
}
