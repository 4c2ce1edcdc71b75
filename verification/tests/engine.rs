use graphmem::facade::GraphFacade;
use graphmem::scope::resolve_scope;
use graphmem::types::{
    ActivationPolicy, GraphEdge, GraphError, GraphNode, GraphScope, NeighborFilters,
};

fn node(id: &str, kind: &str, meta: &str, ts: u64) -> GraphNode {
    GraphNode {
        id: id.to_string(),
        kind: kind.to_string(),
        meta: meta.to_string(),
        last_seen: ts,
    }
}

fn edge(src: &str, dst: &str, rel: &str, weight: i64) -> GraphEdge {
    GraphEdge {
        id: String::new(),
        src: src.to_string(),
        dst: dst.to_string(),
        rel: rel.to_string(),
        weight,
        meta: "null".to_string(),
    }
}

fn ws(name: &str) -> GraphScope {
    GraphScope::Workspace(name.to_string())
}

#[test]
fn upsert_same_id_keeps_one_node_with_latest_contents() {
    let mut f = GraphFacade::new();
    let scope = ws("w");
    f.put_node(&scope, node("n1", "fact", "{\"a\":1}", 10)).unwrap();
    f.put_node(&scope, node("n1", "rule", "{\"b\":2}", 20)).unwrap();
    let got = f.get_node(&scope, "n1").unwrap();
    assert_eq!(got.kind, "rule");
    assert_eq!(got.meta, "{\"b\":2}");
    assert_eq!(got.last_seen, 20);
    let s = f.stats(&scope);
    assert_eq!(s.nodes, 1);
}

#[test]
fn edge_identity_is_deterministic_and_idempotent() {
    assert_eq!(
        graphmem::ids::edge_id("supports", "n1", "n2"),
        "edge:supports:n1:n2"
    );
    assert_eq!(
        graphmem::ids::edge_id("supports", "n1", "n2"),
        "edge:supports:n1:n2"
    );
    let mut f = GraphFacade::new();
    let scope = ws("w");
    f.put_edge(&scope, edge("n1", "n2", "supports", 800)).unwrap();
    f.put_edge(&scope, edge("n1", "n2", "supports", 900)).unwrap();
    let s = f.stats(&scope);
    assert_eq!(s.edges, 1);
    let text = f.export(&scope, &graphmem::types::GraphExportFormat::Jsonl);
    assert_eq!(text.matches("edge:supports:n1:n2").count(), 1);
    assert!(text.contains("\"weight\":900"));
}

#[test]
fn scope_isolation_hides_other_workspaces_and_global() {
    let mut f = GraphFacade::new();
    f.put_node(&ws("a"), node("n1", "fact", "{}", 1)).unwrap();
    assert!(f.get_node(&ws("a"), "n1").is_some());
    assert!(f.get_node(&ws("b"), "n1").is_none());
    assert!(f.get_node(&GraphScope::Global, "n1").is_none());
    assert_eq!(f.stats(&ws("b")).nodes, 0);
    assert_eq!(f.stats(&GraphScope::Global).nodes, 0);
    let sub = f.neighbors(&ws("b"), "n1", 3, &NeighborFilters::default());
    assert!(sub.nodes.is_empty());
    let act = f.activate(
        &ws("b"),
        &vec![("n1".to_string(), 1000)],
        &ActivationPolicy::default(),
    );
    assert!(act.nodes.is_empty());
}

#[test]
fn depth_zero_returns_exactly_the_root_and_no_edges() {
    let mut f = GraphFacade::new();
    let scope = ws("w");
    f.put_node(&scope, node("n1", "fact", "{}", 1)).unwrap();
    f.put_node(&scope, node("n2", "fact", "{}", 1)).unwrap();
    f.put_edge(&scope, edge("n1", "n2", "supports", 800)).unwrap();
    let filters = NeighborFilters {
        rels: Some(vec!["supports".to_string()]),
        kinds: Some(vec!["fact".to_string()]),
        directed: true,
    };
    let sub = f.neighbors(&scope, "n1", 0, &filters);
    assert_eq!(sub.nodes.len(), 1);
    assert_eq!(sub.nodes[0].id, "n1");
    assert!(sub.edges.is_empty());
    let missing = f.neighbors(&scope, "ghost", 0, &NeighborFilters::default());
    assert!(missing.nodes.is_empty());
    assert!(missing.edges.is_empty());
}

#[test]
fn traversal_on_a_cycle_terminates_without_duplicates() {
    let mut f = GraphFacade::new();
    let scope = ws("w");
    for id in ["a", "b", "c"] {
        f.put_node(&scope, node(id, "fact", "{}", 1)).unwrap();
    }
    f.put_edge(&scope, edge("a", "b", "next", 1000)).unwrap();
    f.put_edge(&scope, edge("b", "c", "next", 1000)).unwrap();
    f.put_edge(&scope, edge("c", "a", "next", 1000)).unwrap();
    let sub = f.neighbors(&scope, "a", 50, &NeighborFilters::default());
    let mut ids: Vec<String> = sub.nodes.iter().map(|n| n.id.clone()).collect();
    ids.sort();
    assert_eq!(ids, vec!["a", "b", "c"]);
    let mut seen = ids.clone();
    seen.dedup();
    assert_eq!(seen.len(), ids.len());
}

#[test]
fn activation_keeps_every_existing_seed_within_top_n() {
    let mut f = GraphFacade::new();
    let scope = ws("w");
    // A low-weight seed and a hub that out-scores it through propagation.
    for id in ["seed1", "seed2", "hub", "x1", "x2", "x3"] {
        f.put_node(&scope, node(id, "fact", "{}", 1)).unwrap();
    }
    f.put_edge(&scope, edge("hub", "x1", "r", 5000)).unwrap();
    f.put_edge(&scope, edge("hub", "x2", "r", 5000)).unwrap();
    f.put_edge(&scope, edge("hub", "x3", "r", 5000)).unwrap();
    let seeds = vec![
        ("seed1".to_string(), 1),
        ("seed2".to_string(), 1),
        ("hub".to_string(), 2000),
    ];
    let policy = ActivationPolicy { top_n: 3, max_hops: 3 };
    let sub = f.activate(&scope, &seeds, &policy);
    let ids: Vec<&str> = sub.nodes.iter().map(|n| n.id.as_str()).collect();
    assert!(ids.contains(&"seed1"), "low-score seed dropped: {ids:?}");
    assert!(ids.contains(&"seed2"), "low-score seed dropped: {ids:?}");
    assert!(ids.contains(&"hub"));
    assert_eq!(sub.nodes.len(), 3);
}

#[test]
fn activation_is_deterministic_across_repeated_calls() {
    let mut f = GraphFacade::new();
    let scope = ws("w");
    for id in ["a", "b", "c", "d"] {
        f.put_node(&scope, node(id, "fact", "{}", 1)).unwrap();
    }
    f.put_edge(&scope, edge("a", "b", "r", 700)).unwrap();
    f.put_edge(&scope, edge("a", "c", "r", 700)).unwrap();
    f.put_edge(&scope, edge("b", "d", "r", 700)).unwrap();
    let seeds = vec![("a".to_string(), 1000)];
    let policy = ActivationPolicy { top_n: 10, max_hops: 5 };
    let r1 = f.activate(&scope, &seeds, &policy);
    let r2 = f.activate(&scope, &seeds, &policy);
    let ids1: Vec<&str> = r1.nodes.iter().map(|n| n.id.as_str()).collect();
    let ids2: Vec<&str> = r2.nodes.iter().map(|n| n.id.as_str()).collect();
    assert_eq!(ids1, ids2);
    assert_eq!(r1.scores, r2.scores);
    let e1: Vec<&str> = r1.edges.iter().map(|e| e.id.as_str()).collect();
    let e2: Vec<&str> = r2.edges.iter().map(|e| e.id.as_str()).collect();
    assert_eq!(e1, e2);
    // Equal scores tie-break by ascending id: b and c both get 700.
    let pos_b = ids1.iter().position(|i| *i == "b").unwrap();
    let pos_c = ids1.iter().position(|i| *i == "c").unwrap();
    assert!(pos_b < pos_c);
}

#[test]
fn top_n_zero_yields_an_empty_result_without_error() {
    let mut f = GraphFacade::new();
    let scope = ws("w");
    f.put_node(&scope, node("n1", "fact", "{}", 1)).unwrap();
    let sub = f.activate(
        &scope,
        &vec![("n1".to_string(), 1000)],
        &ActivationPolicy { top_n: 0, max_hops: 3 },
    );
    assert!(sub.nodes.is_empty());
    assert!(sub.edges.is_empty());
    assert!(sub.scores.is_empty());
}

#[test]
fn scenario_two_facts_one_edge_activation() {
    let mut f = GraphFacade::new();
    let scope = ws("w");
    f.put_node(&scope, node("n1", "fact", "{}", 1)).unwrap();
    f.put_node(&scope, node("n2", "fact", "{}", 1)).unwrap();
    f.put_edge(&scope, edge("n1", "n2", "supports", 800)).unwrap();
    let sub = f.activate(
        &scope,
        &vec![("n1".to_string(), 1000)],
        &ActivationPolicy { top_n: 10, max_hops: 3 },
    );
    let mut ids: Vec<&str> = sub.nodes.iter().map(|n| n.id.as_str()).collect();
    ids.sort();
    assert_eq!(ids, vec!["n1", "n2"]);
    let score = |id: &str| -> i64 {
        sub.scores
            .iter()
            .find(|(sid, _)| sid == id)
            .map(|(_, s)| *s)
            .unwrap()
    };
    assert_eq!(score("n1"), 1000);
    assert_eq!(score("n2"), 800);
    assert_eq!(sub.edges.len(), 1);
    assert_eq!(sub.edges[0].src, "n1");
    assert_eq!(sub.edges[0].dst, "n2");
}

#[test]
fn scenario_neighbors_with_relation_filters() {
    let mut f = GraphFacade::new();
    let scope = ws("w");
    f.put_node(&scope, node("n1", "fact", "{}", 1)).unwrap();
    f.put_node(&scope, node("n2", "fact", "{}", 1)).unwrap();
    f.put_edge(&scope, edge("n1", "n2", "supports", 800)).unwrap();
    let supports = NeighborFilters {
        rels: Some(vec!["supports".to_string()]),
        kinds: None,
        directed: false,
    };
    let sub = f.neighbors(&scope, "n1", 1, &supports);
    let mut ids: Vec<&str> = sub.nodes.iter().map(|n| n.id.as_str()).collect();
    ids.sort();
    assert_eq!(ids, vec!["n1", "n2"]);
    assert_eq!(sub.edges.len(), 1);
    assert_eq!(sub.edges[0].src, "n1");
    assert_eq!(sub.edges[0].dst, "n2");
    let contradicts = NeighborFilters {
        rels: Some(vec!["contradicts".to_string()]),
        kinds: None,
        directed: false,
    };
    let sub2 = f.neighbors(&scope, "n1", 1, &contradicts);
    let ids2: Vec<&str> = sub2.nodes.iter().map(|n| n.id.as_str()).collect();
    assert_eq!(ids2, vec!["n1"]);
    assert!(sub2.edges.is_empty());
}

#[test]
fn get_node_of_missing_id_is_absent_not_an_error() {
    let mut f = GraphFacade::new();
    let scope = ws("w");
    f.put_node(&scope, node("present", "fact", "{}", 1)).unwrap();
    assert!(f.get_node(&scope, "missing").is_none());
}

#[test]
fn invalid_meta_is_rejected_and_nothing_is_stored() {
    let mut f = GraphFacade::new();
    let scope = ws("w");
    let r = f.put_node(&scope, node("n1", "fact", "not json at all", 1));
    assert!(matches!(r, Err(GraphError::InvalidMeta)));
    assert!(f.get_node(&scope, "n1").is_none());
    let r2 = f.put_edge(
        &scope,
        GraphEdge {
            id: String::new(),
            src: "a".to_string(),
            dst: "b".to_string(),
            rel: "r".to_string(),
            weight: 1,
            meta: "{broken".to_string(),
        },
    );
    assert!(matches!(r2, Err(GraphError::InvalidMeta)));
    assert_eq!(f.stats(&scope).edges, 0);
    // A valid nested bag passes: the parse is real, not a stub.
    let r3 = f.put_node(&scope, node("n2", "fact", "{\"k\":[1,{\"v\":null}]}", 1));
    assert!(r3.is_ok());
}

#[test]
fn resolve_scope_rejects_conflicting_selectors() {
    assert!(matches!(
        resolve_scope(Some("a"), true, "dflt"),
        Err(GraphError::ConflictingScope)
    ));
    assert!(matches!(
        resolve_scope(None, true, "dflt"),
        Ok(GraphScope::Global)
    ));
    match resolve_scope(Some("a"), false, "dflt") {
        Ok(GraphScope::Workspace(w)) => assert_eq!(w, "a"),
        other => panic!("unexpected: {other:?}"),
    }
    match resolve_scope(None, false, "dflt") {
        Ok(GraphScope::Workspace(w)) => assert_eq!(w, "dflt"),
        other => panic!("unexpected: {other:?}"),
    }
}

#[test]
fn query_discovers_exact_id_then_falls_back_to_neighbors() {
    let mut f = GraphFacade::new();
    let scope = ws("w");
    f.put_node(&scope, node("n1", "fact", "{}", 1)).unwrap();
    f.put_node(&scope, node("n2", "fact", "{}", 1)).unwrap();
    f.put_edge(&scope, edge("n1", "n2", "supports", 800)).unwrap();
    // Exact-id hit: the id itself seeds.
    let seeds = f.discover_seeds(&scope, "n1", 4);
    assert_eq!(seeds, vec![("n1".to_string(), 1000)]);
    // A dangling edge from an unstored id: depth-1 neighbors seed instead.
    f.put_edge(&scope, edge("topic", "n1", "mentions", 1000)).unwrap();
    let seeds2 = f.discover_seeds(&scope, "topic", 4);
    assert_eq!(seeds2, vec![("n1".to_string(), 1000)]);
    // No match at all: empty result, not an error.
    let sub = f.query(&scope, "absent-text", 4);
    assert!(sub.nodes.is_empty());
    assert!(sub.edges.is_empty());
    assert!(sub.scores.is_empty());
    // The query end-to-end: activation from the discovered seed.
    let sub2 = f.query(&scope, "n1", 4);
    let mut ids: Vec<&str> = sub2.nodes.iter().map(|n| n.id.as_str()).collect();
    ids.sort();
    assert_eq!(ids, vec!["n1", "n2"]);
}

#[test]
fn stats_counts_kinds_and_labels_the_backend() {
    let mut f = GraphFacade::new();
    let scope = ws("w");
    f.put_node(&scope, node("a", "fact", "{}", 1)).unwrap();
    f.put_node(&scope, node("b", "fact", "{}", 1)).unwrap();
    f.put_node(&scope, node("c", "rule", "{}", 1)).unwrap();
    f.put_edge(&scope, edge("a", "b", "r", 1)).unwrap();
    let s = f.stats(&scope);
    assert_eq!(s.scope, "w");
    assert_eq!(s.backend, "local");
    assert_eq!(s.nodes, 3);
    assert_eq!(s.edges, 1);
    let mut cats = s.categories.clone();
    cats.sort();
    assert_eq!(
        cats,
        vec![("fact".to_string(), 2usize), ("rule".to_string(), 1usize)]
    );
    let g = f.stats(&GraphScope::Global);
    assert_eq!(g.scope, "global");
    assert_eq!(g.nodes, 0);
}

#[test]
fn negative_weights_propagate_with_sign() {
    let mut f = GraphFacade::new();
    let scope = ws("w");
    f.put_node(&scope, node("a", "fact", "{}", 1)).unwrap();
    f.put_node(&scope, node("b", "fact", "{}", 1)).unwrap();
    f.put_edge(&scope, edge("a", "b", "inhibits", -500)).unwrap();
    let sub = f.activate(
        &scope,
        &vec![("a".to_string(), 1000)],
        &ActivationPolicy { top_n: 10, max_hops: 2 },
    );
    let score = |id: &str| -> i64 {
        sub.scores
            .iter()
            .find(|(sid, _)| sid == id)
            .map(|(_, s)| *s)
            .unwrap()
    };
    assert_eq!(score("a"), 1000);
    assert_eq!(score("b"), -500);
    // Ranked by descending score: a before b.
    assert_eq!(sub.nodes[0].id, "a");
    assert_eq!(sub.nodes[1].id, "b");
}

#[test]
fn virtual_seed_scores_but_is_not_returned_as_a_node() {
    let mut f = GraphFacade::new();
    let scope = ws("w");
    f.put_node(&scope, node("real", "fact", "{}", 1)).unwrap();
    let sub = f.activate(
        &scope,
        &vec![("ghost".to_string(), 1000), ("real".to_string(), 500)],
        &ActivationPolicy { top_n: 10, max_hops: 3 },
    );
    let ids: Vec<&str> = sub.nodes.iter().map(|n| n.id.as_str()).collect();
    assert_eq!(ids, vec!["real"]);
    assert!(sub.scores.iter().all(|(id, _)| id != "ghost"));
}

#[test]
fn huge_weights_saturate_instead_of_overflowing() {
    let mut f = GraphFacade::new();
    let scope = ws("w");
    f.put_node(&scope, node("a", "fact", "{}", 1)).unwrap();
    f.put_node(&scope, node("b", "fact", "{}", 1)).unwrap();
    f.put_edge(&scope, edge("a", "b", "r", i64::MAX)).unwrap();
    let sub = f.activate(
        &scope,
        &vec![("a".to_string(), i64::MAX)],
        &ActivationPolicy { top_n: 10, max_hops: 2 },
    );
    let score_b = sub
        .scores
        .iter()
        .find(|(id, _)| id == "b")
        .map(|(_, s)| *s)
        .unwrap();
    assert_eq!(score_b, i64::MAX);
}

#[test]
fn oversized_depth_is_capped_not_refused() {
    let mut f = GraphFacade::new();
    let scope = ws("w");
    f.put_node(&scope, node("a", "fact", "{}", 1)).unwrap();
    f.put_node(&scope, node("b", "fact", "{}", 1)).unwrap();
    f.put_edge(&scope, edge("a", "b", "r", 1000)).unwrap();
    let sub = f.neighbors(&scope, "a", usize::MAX, &NeighborFilters::default());
    assert_eq!(sub.nodes.len(), 2);
}

#[test]
fn empty_store_operations_answer_empty_not_error() {
    let f = GraphFacade::new();
    let scope = ws("untouched");
    assert!(f.get_node(&scope, "x").is_none());
    let sub = f.neighbors(&scope, "x", 2, &NeighborFilters::default());
    assert!(sub.nodes.is_empty() && sub.edges.is_empty());
    let act = f.activate(
        &scope,
        &vec![("x".to_string(), 1000)],
        &ActivationPolicy::default(),
    );
    assert!(act.nodes.is_empty() && act.edges.is_empty() && act.scores.is_empty());
    let s = f.stats(&scope);
    assert_eq!((s.nodes, s.edges), (0, 0));
    assert!(s.categories.is_empty());
    let text = f.export(&scope, &graphmem::types::GraphExportFormat::Jsonl);
    assert!(text.is_empty());
    let dot = f.export(&scope, &graphmem::types::GraphExportFormat::Dot);
    assert_eq!(dot, "digraph G {\n}\n");
}

#[test]
fn query_keeps_the_exact_match_even_with_a_small_k() {
    let mut f = GraphFacade::new();
    let scope = ws("w");
    // A weak root with strong neighbors that out-score it after propagation.
    for id in ["root", "x1", "x2", "x3", "x4"] {
        f.put_node(&scope, node(id, "fact", "{}", 1)).unwrap();
    }
    for dst in ["x1", "x2", "x3", "x4"] {
        f.put_edge(&scope, edge("root", dst, "r", 9000)).unwrap();
    }
    let sub = f.query(&scope, "root", 1);
    let ids: Vec<&str> = sub.nodes.iter().map(|n| n.id.as_str()).collect();
    assert!(ids.contains(&"root"), "seed evicted by truncation: {ids:?}");
    assert!(sub.nodes.len() <= 2);
}
