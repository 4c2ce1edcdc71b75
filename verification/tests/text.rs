use graphmem::export::parse_export_format;
use graphmem::runtime::{execute, plan_first_step, Error};
use graphmem::facade::GraphFacade;
use graphmem::paths::{control_socket_path, Paths};
use graphmem::report::node_report;
use graphmem::types::{
    GraphEdge, GraphError, GraphExportFormat, GraphNode, GraphScope, NeighborFilters,
};

fn node(id: &str, kind: &str) -> GraphNode {
    GraphNode {
        id: id.to_string(),
        kind: kind.to_string(),
        meta: "{}".to_string(),
        last_seen: 7,
    }
}

fn edge(src: &str, dst: &str, rel: &str, weight: i64) -> GraphEdge {
    GraphEdge {
        id: String::new(),
        src: src.to_string(),
        dst: dst.to_string(),
        rel: rel.to_string(),
        weight,
        meta: "null".to_string(),
    }
}

fn ws(name: &str) -> GraphScope {
    GraphScope::Workspace(name.to_string())
}

#[test]
fn jsonl_export_round_trips_with_record_count_matching_stats() {
    let mut f = GraphFacade::new();
    let scope = ws("w");
    f.put_node(&scope, node("n1", "fact")).unwrap();
    f.put_node(&scope, node("n2", "rule")).unwrap();
    f.put_edge(&scope, edge("n1", "n2", "supports", 800)).unwrap();
    let text = f.export(&scope, &GraphExportFormat::Jsonl);
    let s = f.stats(&scope);
    let lines: Vec<&str> = text.lines().collect();
    assert_eq!(lines.len(), s.nodes + s.edges);
    let mut nodes = 0;
    let mut edges = 0;
    for line in &lines {
        let v: serde_json::Value = serde_json::from_str(line).expect("each record is valid JSON");
        match v.get("type").and_then(|t| t.as_str()) {
            Some("node") => nodes += 1,
            Some("edge") => edges += 1,
            other => panic!("unexpected record type: {other:?}"),
        }
    }
    assert_eq!(nodes, s.nodes);
    assert_eq!(edges, s.edges);
    assert!(text.contains("\"id\":\"n1\""));
    assert!(text.contains("\"last_seen\":7"));
    assert!(text.contains("\"weight\":800"));
}

#[test]
fn jsonl_export_escapes_quotes_and_newlines_in_labels() {
    let mut f = GraphFacade::new();
    let scope = ws("w");
    f.put_node(&scope, node("weird\"id\\with\nstuff", "k")).unwrap();
    let text = f.export(&scope, &GraphExportFormat::Jsonl);
    let lines: Vec<&str> = text.lines().collect();
    assert_eq!(lines.len(), 1);
    let v: serde_json::Value = serde_json::from_str(lines[0]).unwrap();
    assert_eq!(
        v.get("id").and_then(|i| i.as_str()),
        Some("weird\"id\\with\nstuff")
    );
}

#[test]
fn dot_export_lists_every_vertex_and_edge() {
    let mut f = GraphFacade::new();
    let scope = ws("w");
    f.put_node(&scope, node("n1", "fact")).unwrap();
    f.put_node(&scope, node("n2", "fact")).unwrap();
    f.put_edge(&scope, edge("n1", "n2", "supports", 800)).unwrap();
    let text = f.export(&scope, &GraphExportFormat::Dot);
    assert!(text.starts_with("digraph G {\n"));
    assert!(text.ends_with("}\n"));
    assert!(text.contains("  \"n1\" [label=\"n1 (fact)\"];"));
    assert!(text.contains("  \"n1\" -> \"n2\" [label=\"supports (800)\"];"));
}

#[test]
fn unsupported_export_format_is_refused_before_any_store_work() {
    assert!(matches!(
        parse_export_format("dot"),
        Ok(GraphExportFormat::Dot)
    ));
    assert!(matches!(
        parse_export_format("jsonl"),
        Ok(GraphExportFormat::Jsonl)
    ));
    assert!(matches!(
        parse_export_format("csv"),
        Err(GraphError::UnsupportedExportFormat)
    ));
    assert!(matches!(
        parse_export_format(""),
        Err(GraphError::UnsupportedExportFormat)
    ));
}

#[test]
fn node_report_splits_sorts_and_truncates_edges() {
    let mut f = GraphFacade::new();
    let scope = ws("w");
    for id in ["m", "a", "b", "c"] {
        f.put_node(&scope, node(id, "fact")).unwrap();
    }
    f.put_edge(&scope, edge("m", "b", "r2", 1)).unwrap();
    f.put_edge(&scope, edge("m", "a", "r1", 1)).unwrap();
    f.put_edge(&scope, edge("c", "m", "r3", 1)).unwrap();
    let sub = f.neighbors(&scope, "m", 1, &NeighborFilters::default());
    let (ins, outs) = node_report(&sub, "m", 10);
    assert_eq!(ins.len(), 1);
    assert_eq!(ins[0].src, "c");
    let out_ids: Vec<&str> = outs.iter().map(|e| e.id.as_str()).collect();
    assert_eq!(out_ids, vec!["edge:r1:m:a", "edge:r2:m:b"]);
    let (_, outs_limited) = node_report(&sub, "m", 1);
    assert_eq!(outs_limited.len(), 1);
    assert_eq!(outs_limited[0].id, "edge:r1:m:a");
}

#[test]
fn paths_lay_out_the_workspace_run_directory() {
    let p = Paths::new("/home/u/.yai".to_string(), "wsA".to_string());
    assert_eq!(p.run, "/home/u/.yai/run");
    assert_eq!(p.ws_run_dir(), "/home/u/.yai/run/wsA");
    assert_eq!(p.control_sock(), "/home/u/.yai/run/wsA/control.sock");
    assert_eq!(p.events_log(), "/home/u/.yai/run/wsA/events.log");
    assert_eq!(p.semantic_sqlite(), "/home/u/.yai/run/wsA/semantic.sqlite");
    assert_eq!(p.graph_dir(), "/home/u/.yai/run/wsA/graph");
    assert_eq!(
        control_socket_path("/r/run", "wsA"),
        "/r/run/wsA/control.sock"
    );
}

#[test]
fn runtime_compat_helpers_behave() {
    let ctx = graphmem::runtime::RuntimeContext::new("wsA".to_string());
    assert_eq!(ctx.ws, "wsA");
    let r: Result<u32, graphmem::runtime::Error> = graphmem::runtime::ok(5);
    assert_eq!(r.unwrap(), 5);
    assert_eq!(graphmem::WEIGHT_SCALE, 1000);
    let e = GraphError::BackendUnavailable;
    assert_eq!(e.describe(), "backend unavailable");
}

#[test]
fn directed_filter_blocks_reverse_expansion() {
    let mut f = GraphFacade::new();
    let scope = ws("w");
    f.put_node(&scope, node("n1", "fact")).unwrap();
    f.put_node(&scope, node("n2", "fact")).unwrap();
    f.put_edge(&scope, edge("n1", "n2", "r", 1)).unwrap();
    let directed = NeighborFilters {
        rels: None,
        kinds: None,
        directed: true,
    };
    // Following src -> dst works ...
    let fwd = f.neighbors(&scope, "n1", 1, &directed);
    assert_eq!(fwd.nodes.len(), 2);
    // ... but the reverse direction is blocked when directed.
    let back = f.neighbors(&scope, "n2", 1, &directed);
    let ids: Vec<&str> = back.nodes.iter().map(|n| n.id.as_str()).collect();
    assert_eq!(ids, vec!["n2"]);
    let undirected = NeighborFilters::default();
    let back2 = f.neighbors(&scope, "n2", 1, &undirected);
    assert_eq!(back2.nodes.len(), 2);
}

#[test]
fn kind_filter_applies_to_the_far_end_node() {
    let mut f = GraphFacade::new();
    let scope = ws("w");
    f.put_node(&scope, node("n1", "fact")).unwrap();
    f.put_node(&scope, node("n2", "rule")).unwrap();
    f.put_edge(&scope, edge("n1", "n2", "r", 1)).unwrap();
    let facts_only = NeighborFilters {
        rels: None,
        kinds: Some(vec!["fact".to_string()]),
        directed: false,
    };
    let sub = f.neighbors(&scope, "n1", 1, &facts_only);
    let ids: Vec<&str> = sub.nodes.iter().map(|n| n.id.as_str()).collect();
    assert_eq!(ids, vec!["n1"]);
    let rules_only = NeighborFilters {
        rels: None,
        kinds: Some(vec!["rule".to_string()]),
        directed: false,
    };
    let sub2 = f.neighbors(&scope, "n1", 1, &rules_only);
    assert_eq!(sub2.nodes.len(), 2);
}

#[test]
fn pascal_to_snake_normalizes_tag_names() {
    assert_eq!(graphmem::textutil::pascal_to_snake("GraphQuery"), "graph_query");
    assert_eq!(graphmem::textutil::pascal_to_snake("Ping"), "ping");
    assert_eq!(graphmem::textutil::pascal_to_snake("already_snake"), "already_snake");
    assert_eq!(graphmem::textutil::pascal_to_snake(""), "");
    assert_eq!(graphmem::textutil::pascal_to_snake("HTTPServer"), "h_t_t_p_server");
}

#[test]
fn pascal_to_dot_normalizes_tag_names() {
    assert_eq!(graphmem::textutil::pascal_to_dot("GraphQuery"), "graph.query");
    assert_eq!(graphmem::textutil::pascal_to_dot("Ping"), "ping");
}

#[test]
fn is_eof_recognizes_stream_end_messages() {
    assert!(graphmem::textutil::is_eof("rpc eof"));
    assert!(graphmem::textutil::is_eof("read failed: early eof while parsing"));
    assert!(graphmem::textutil::is_eof("connection reset by peer"));
    assert!(!graphmem::textutil::is_eof("rpc protocol mismatch"));
    assert!(!graphmem::textutil::is_eof(""));
}

#[test]
fn jsonl_export_keeps_multitoken_meta_on_one_line() {
    let mut f = GraphFacade::new();
    let scope = ws("w");
    f.put_node(
        &scope,
        GraphNode {
            id: "n1".to_string(),
            kind: "fact".to_string(),
            meta: "{\n  \"a\": 1\r\n}".to_string(),
            last_seen: 7,
        },
    )
    .unwrap();
    f.put_edge(
        &scope,
        GraphEdge {
            id: String::new(),
            src: "n1".to_string(),
            dst: "n2".to_string(),
            rel: "r".to_string(),
            weight: 1,
            meta: "[\n1,\n2\n]".to_string(),
        },
    )
    .unwrap();
    let text = f.export(&scope, &GraphExportFormat::Jsonl);
    let s = f.stats(&scope);
    let lines: Vec<&str> = text.lines().collect();
    assert_eq!(lines.len(), s.nodes + s.edges);
    let node_rec: serde_json::Value = serde_json::from_str(lines[0]).unwrap();
    assert_eq!(
        node_rec.get("meta").and_then(|m| m.get("a")).and_then(|a| a.as_i64()),
        Some(1)
    );
    let edge_rec: serde_json::Value = serde_json::from_str(lines[1]).unwrap();
    assert_eq!(
        edge_rec.get("meta").and_then(|m| m.as_array()).map(|a| a.len()),
        Some(2)
    );
}

#[test]
fn jsonl_export_escapes_every_control_character() {
    let mut f = GraphFacade::new();
    let scope = ws("w");
    let odd_id = "bell\u{8}and\u{1f}unit";
    f.put_node(&scope, node(odd_id, "k\u{1}ind")).unwrap();
    let text = f.export(&scope, &GraphExportFormat::Jsonl);
    let lines: Vec<&str> = text.lines().collect();
    assert_eq!(lines.len(), 1);
    let v: serde_json::Value = serde_json::from_str(lines[0]).expect("strict JSON despite controls");
    assert_eq!(v.get("id").and_then(|i| i.as_str()), Some(odd_id));
    assert_eq!(v.get("kind").and_then(|k| k.as_str()), Some("k\u{1}ind"));
}

#[test]
fn plan_execution_takes_the_first_step_or_reports_the_empty_plan() {
    match plan_first_step(&vec![]) {
        Err(Error::Execution(m)) => assert_eq!(m, "plan has no steps"),
        other => panic!("unexpected: {other:?}"),
    }
    let cmd = plan_first_step(&vec!["ping".to_string(), "status".to_string()]).unwrap();
    assert_eq!(cmd, "ping");
    let done = execute(cmd.clone(), Ok("pong".to_string())).unwrap();
    assert_eq!(done.command, "ping");
    assert_eq!(done.response, "pong");
    match execute(cmd, Err("carrier down".to_string())) {
        Err(Error::Execution(m)) => assert_eq!(m, "carrier down"),
        other => panic!("unexpected: {other:?}"),
    }
}
