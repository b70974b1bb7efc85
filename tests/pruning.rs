use lib_dachshund::graph::{rebuild_pruned, trim, Graph};
use lib_dachshund::ids::{GraphId, NodeId};
use lib_dachshund::test_utils::{assert_nodes_have_ids, gen_test_transformer, process_raw_vector};
use lib_dachshund::transformer::Transformer;

fn lines(raw: &[&str]) -> Vec<String> {
    raw.iter().map(|s| s.to_string()).collect()
}

fn ids(v: &[i64]) -> Vec<NodeId> {
    v.iter().map(|&i| NodeId::from(i)).collect()
}

fn simple_test(raw: Vec<String>, min_degree: usize, expected_len: usize) {
    let typespec = vec![
        vec!["author".to_string(), "published_at".into(), "conference".into()],
        vec!["author".to_string(), "reviewed_for".into(), "conference".into()],
    ];
    let graph_id: GraphId = 0.into();
    let transformer = gen_test_transformer(typespec, "author".to_string()).unwrap();
    let rows = process_raw_vector(&transformer, raw).unwrap();
    let mut graph: Graph = transformer.build_pruned_graph(graph_id, &rows);
    let exclude_nodes: Vec<NodeId> = trim(&mut graph, min_degree);
    assert_eq!(exclude_nodes.len(), expected_len);
}

#[test]
fn test_no_exclude_nodes() {
    let raw = lines(&[
        "0\t1\t3\tauthor\tpublished_at\tconference",
        "0\t2\t3\tauthor\tpublished_at\tconference",
        "0\t1\t3\tauthor\treviewed_for\tconference",
        "0\t2\t3\tauthor\treviewed_for\tconference",
    ]);
    simple_test(raw, 1, 0)
}

#[test]
fn test_all_exclude_nodes() {
    let raw = lines(&[
        "0\t1\t3\tauthor\tpublished_at\tconference",
        "0\t2\t3\tauthor\tpublished_at\tconference",
        "0\t1\t3\tauthor\treviewed_for\tconference",
        "0\t2\t3\tauthor\treviewed_for\tconference",
    ]);
    simple_test(raw, 3, 3)
}

#[test]
fn test_partial_exclude_nodes() {
    let raw = lines(&[
        "0\t1\t3\tauthor\tpublished_at\tconference",
        "0\t2\t3\tauthor\tpublished_at\tconference",
        "0\t1\t3\tauthor\treviewed_for\tconference",
    ]);
    simple_test(raw, 2, 1)
}

#[test]
fn test_prune_small_clique() {
    let ts: Vec<Vec<String>> = vec![vec!["author".into(), "published_at".into(), "conference".into()]];
    let raw = lines(&[
        "0\t1\t3\tauthor\tpublished_at\tconference",
        "0\t2\t3\tauthor\tpublished_at\tconference",
        "0\t1\t4\tauthor\tpublished_at\tconference",
        "0\t2\t4\tauthor\tpublished_at\tconference",
        "0\t2\t5\tauthor\tpublished_at\tconference",
    ]);
    let graph_id: GraphId = 0.into();
    let transformer = gen_test_transformer(ts, "author".to_string()).unwrap();
    let rows = process_raw_vector(&transformer, raw).unwrap();
    let mut graph: Graph = transformer.build_pruned_graph(graph_id, &rows);
    assert_eq!(graph.nodes.len(), 5);
    graph = rebuild_pruned(graph_id, &rows, 2);
    assert_eq!(graph.nodes.len(), 4);
    let res = transformer.process_graph(&graph).unwrap().top_candidate;
    assert!(assert_nodes_have_ids(&graph, &res.core_ids, ids(&[1, 2]), true));
    assert!(assert_nodes_have_ids(&graph, &res.non_core_ids, ids(&[3, 4]), false));
}

fn full_prune_typespec() -> Vec<Vec<String>> {
    let mut ts = Vec::new();
    for rel in ["published_at", "reviewed_for", "administered"] {
        for target in ["conference", "journal"] {
            ts.push(vec!["author".to_string(), rel.to_string(), target.to_string()]);
        }
    }
    ts
}

fn full_prune_lines() -> Vec<String> {
    lines(&[
        "0\t1\t3\tauthor\tpublished_at\tconference",
        "0\t2\t3\tauthor\tpublished_at\tconference",
        "0\t1\t3\tauthor\treviewed_for\tconference",
        "0\t2\t3\tauthor\treviewed_for\tconference",
        "0\t1\t3\tauthor\tadministered\tconference",
        "0\t2\t3\tauthor\tadministered\tconference",
        "0\t1\t4\tauthor\tpublished_at\tconference",
        "0\t2\t4\tauthor\tpublished_at\tconference",
        "0\t2\t5\tauthor\tpublished_at\tconference",
        "0\t6\t7\tauthor\tpublished_at\tconference",
        "0\t8\t9\tauthor\tpublished_at\tconference",
        "0\t10\t11\tauthor\tpublished_at\tconference",
    ])
}

fn steps_with_min_degree(min_degree: usize) -> (usize, Graph, lib_dachshund::beam::SearchResult) {
    let transformer =
        Transformer::new(full_prune_typespec(), 20, 1, 1, Some(1), 20, 10000, 3, false, min_degree, "author".into(), false)
            .unwrap();
    let rows = process_raw_vector(&transformer, full_prune_lines()).unwrap();
    let graph = transformer.build_pruned_graph(0.into(), &rows);
    let result = transformer.process_graph(&graph).unwrap();
    (result.num_steps, graph, result)
}

#[test]
fn test_full_prune_small_clique() {
    let (pruned_steps, pruned_graph, pruned) = steps_with_min_degree(3);
    let (full_steps, full_graph, full) = steps_with_min_degree(0);
    assert!(assert_nodes_have_ids(&full_graph, &full.top_candidate.core_ids, ids(&[1, 2]), true));
    assert!(assert_nodes_have_ids(&full_graph, &full.top_candidate.non_core_ids, ids(&[3, 4]), false));
    assert_eq!(pruned_graph.nodes.len(), 3);
    let core = &pruned.top_candidate.core_ids;
    assert!(assert_nodes_have_ids(&pruned_graph, core, ids(&[1, 2]), true));
    assert!(assert_nodes_have_ids(&pruned_graph, &pruned.top_candidate.non_core_ids, ids(&[3]), false));
    assert!(pruned_steps < full_steps);
}

#[test]
fn trimming_twice_excludes_nothing_more() {
    let transformer = Transformer::new(full_prune_typespec(), 20, 1, 1, Some(1), 20, 100, 3, false, 0, "author".into(), false)
        .unwrap();
    let rows = process_raw_vector(&transformer, full_prune_lines()).unwrap();
    let mut graph = transformer.build_pruned_graph(0.into(), &rows);
    let first = trim(&mut graph, 3);
    assert_eq!(first.len(), 8);
    let second = trim(&mut graph, 3);
    assert!(second.is_empty());
    assert_eq!(graph.nodes.len(), 3);
}

#[test]
fn rebuild_keeps_the_same_nodes_as_trim() {
    let transformer = Transformer::new(full_prune_typespec(), 20, 1, 1, Some(1), 20, 100, 3, false, 0, "author".into(), false)
        .unwrap();
    let rows = process_raw_vector(&transformer, full_prune_lines()).unwrap();
    for k in 0..5 {
        let mut graph = transformer.build_pruned_graph(0.into(), &rows);
        trim(&mut graph, k);
        let rebuilt = rebuild_pruned(0.into(), &rows, k);
        let mut a: Vec<i64> = graph.nodes.iter().map(|n| n.id.value()).collect();
        let mut b: Vec<i64> = rebuilt.nodes.iter().map(|n| n.id.value()).collect();
        a.sort();
        b.sort();
        assert_eq!(a, b);
        assert_eq!(graph.edges.len(), rebuilt.edges.len());
    }
}

#[test]
fn survivors_keep_degree_at_least_threshold() {
    let transformer = Transformer::new(full_prune_typespec(), 20, 1, 1, Some(1), 20, 100, 3, false, 0, "author".into(), false)
        .unwrap();
    let rows = process_raw_vector(&transformer, full_prune_lines()).unwrap();
    let mut graph = transformer.build_pruned_graph(0.into(), &rows);
    let excluded = trim(&mut graph, 2);
    let mut got: Vec<i64> = excluded.iter().map(|n| n.value()).collect();
    got.sort();
    assert_eq!(got, vec![5, 6, 7, 8, 9, 10, 11]);
    for node in &graph.nodes {
        let degree = graph.edges.iter().filter(|e| e.core_id == node.id || e.non_core_id == node.id).count();
        assert!(degree >= 2);
    }
}

#[test]
fn trim_of_an_empty_graph_excludes_nothing() {
    let mut graph = Graph { graph_id: 0.into(), nodes: Vec::new(), edges: Vec::new() };
    assert!(trim(&mut graph, 4).is_empty());
}
