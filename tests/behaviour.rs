use lib_dachshund::candidate::{better, Candidate, Score};
use lib_dachshund::output::candidate_line;
use lib_dachshund::graph::{build_graph, trim, Graph};
use lib_dachshund::ids::{EdgeTypeId, GraphId, NodeId, NodeTypeId};
use lib_dachshund::line::parse_i64;
use lib_dachshund::row::EdgeRow;
use lib_dachshund::test_utils::{gen_single_clique, gen_test_transformer, gen_test_typespec, process_raw_vector};
use lib_dachshund::transformer::{collect_edge_rows, LineError, Transformer};
use lib_dachshund::typespec::{process_typespec, SchemaError};

fn row(source: i64, target: i64, edge_type: usize) -> EdgeRow {
    EdgeRow {
        graph_id: GraphId::from(0),
        source_id: NodeId::from(source),
        target_id: NodeId::from(target),
        source_type_id: NodeTypeId::from(0),
        target_type_id: NodeTypeId::from(1),
        edge_type_id: EdgeTypeId { id: edge_type },
    }
}

fn transformer() -> Transformer {
    gen_test_transformer(gen_test_typespec(), "author".to_string()).unwrap()
}

#[test]
fn malformed_schema_row_is_refused() {
    let ts = vec![vec!["author".to_string(), "published_at".into()]];
    assert_eq!(gen_test_transformer(ts.clone(), "author".into()).err(), Some(SchemaError::MalformedRow));
    assert_eq!(process_typespec(ts, &"author".to_string(), vec![]).err(), Some(SchemaError::MalformedRow));
}

#[test]
fn unknown_type_is_refused() {
    let t = transformer();
    assert_eq!(t.non_core_type_ids.require("venue").err(), Some(SchemaError::UnknownType));
    assert_eq!(t.non_core_type_ids.name_of(&NodeTypeId::from(0)), None);
    assert_eq!(t.non_core_type_ids.name_of(&NodeTypeId::from(3)), None);
}

#[test]
fn line_errors() {
    let t = transformer();
    assert_eq!(t.process_line("0\t1\t2\tauthor\tpublished_at".to_string()).err(), Some(LineError::WrongFieldCount));
    assert_eq!(t.process_line("0\tx\t2\tauthor\tpublished_at\tjournal".to_string()).err(), Some(LineError::BadNumber));
    assert_eq!(t.process_line("0\t1\t2\tauthor\tcited\tjournal".to_string()).err(), Some(LineError::UnknownName));
    assert_eq!(process_raw_vector(&t, vec!["0\t2\tjournal\t\t\t".to_string()]).err(), Some(LineError::WrongKind));
}

#[test]
fn negative_and_large_ids_parse() {
    let t = transformer();
    let r = t.process_line("-7\t9223372036854775807\t-12\tauthor\tpublished_at\tjournal".to_string()).unwrap();
    let e = r.as_edge_row().unwrap();
    assert_eq!(e.graph_id.value(), -7);
    assert_eq!(e.source_id.value(), i64::MAX);
    assert_eq!(e.target_id.value(), -12);
    assert_eq!(parse_i64("9223372036854775808"), None);
    assert_eq!(parse_i64("-9223372036854775808"), Some(i64::MIN));
    assert_eq!(parse_i64("-"), None);
    assert_eq!(parse_i64(""), None);
}

#[test]
fn rows_from_other_sources_are_dropped() {
    let mut other = row(1, 3, 0);
    other.source_type_id = NodeTypeId::from(1);
    let g = build_graph(GraphId::from(0), &vec![row(1, 3, 0), other, row(2, 3, 0)]);
    assert_eq!(g.edges.len(), 2);
    assert_eq!(g.nodes.len(), 3);
}

#[test]
fn scenario_trim_counts() {
    let rows = vec![row(1, 3, 0), row(2, 3, 0), row(1, 3, 1), row(2, 3, 1)];
    let mut g: Graph = build_graph(GraphId::from(0), &rows);
    assert_eq!(trim(&mut g, 1).len(), 0);
    let mut g: Graph = build_graph(GraphId::from(0), &rows);
    let mut all: Vec<i64> = trim(&mut g, 3).iter().map(|n| n.value()).collect();
    all.sort();
    assert_eq!(all, vec![1, 2, 3]);
    let mut g: Graph = build_graph(GraphId::from(0), &vec![row(1, 3, 0), row(2, 3, 0), row(1, 3, 1)]);
    assert_eq!(trim(&mut g, 2), vec![NodeId::from(2)]);
}

#[test]
fn no_core_node_gives_no_result() {
    let t = transformer();
    let g = Graph { graph_id: 0.into(), nodes: Vec::new(), edges: Vec::new() };
    assert!(t.process_graph(&g).is_none());
}

#[test]
fn found_sets_are_disjoint_and_typed() {
    let ts = gen_test_typespec();
    let types = ts.iter().map(|x| x[2].clone()).collect();
    let (_, _, raw) = gen_single_clique(0.into(), 4, vec![3, 2], types, "author".into(), vec!["published_at".into()]);
    let t = transformer();
    let rows = process_raw_vector(&t, raw).unwrap();
    let g = t.build_pruned_graph(0.into(), &rows);
    let c = t.process_graph(&g).unwrap().top_candidate;
    for x in &c.core_ids {
        assert!(!c.non_core_ids.contains(x));
        assert!(g.nodes.iter().any(|n| n.id == *x && n.is_core));
    }
    for x in &c.non_core_ids {
        assert!(g.nodes.iter().any(|n| n.id == *x && !n.is_core));
    }
    assert_eq!(c.core_ids.len(), 4);
    assert_eq!(c.non_core_ids.len(), 5);
}

#[test]
fn same_input_gives_same_result() {
    let ts = gen_test_typespec();
    let types: Vec<String> = ts.iter().map(|x| x[2].clone()).collect();
    let (_, _, raw) = gen_single_clique(0.into(), 5, vec![4, 3], types, "author".into(), vec!["published_at".into()]);
    let t = transformer();
    let rows = process_raw_vector(&t, raw).unwrap();
    let g = t.build_pruned_graph(0.into(), &rows);
    let a = t.process_graph(&g).unwrap();
    let b = t.process_graph(&g).unwrap();
    assert_eq!(a.num_steps, b.num_steps);
    assert_eq!(a.top_candidate.core_ids, b.top_candidate.core_ids);
    assert_eq!(a.top_candidate.non_core_ids, b.top_candidate.non_core_ids);
    assert_eq!(a.top_candidate.score, b.top_candidate.score);
}

#[test]
fn clique_lines_and_ids() {
    let (core, non_core, raw) = gen_single_clique(
        7.into(),
        2,
        vec![1, 2],
        vec!["conference".into(), "journal".into()],
        "author".into(),
        vec!["a".into(), "b".into()],
    );
    assert_eq!(core, vec![NodeId::from(0), NodeId::from(1)]);
    assert_eq!(non_core.iter().map(|x| (x.0.value(), x.1.value())).collect::<Vec<_>>(), vec![(2, 0), (3, 1), (4, 1)]);
    assert_eq!(raw.len(), 12);
    assert_eq!(raw[0], "7\t0\t2\tauthor\ta\tconference");
    assert_eq!(raw[1], "7\t0\t2\tauthor\tb\tconference");
    assert_eq!(raw[11], "7\t1\t4\tauthor\tb\tjournal");
}

#[test]
fn score_comparison_is_by_value() {
    assert!(better(&Score { num: 3, den: 2 }, &Score { num: 4, den: 3 }));
    assert!(!better(&Score { num: 2, den: 4 }, &Score { num: 1, den: 2 }));
    assert!(better(&Score { num: u64::MAX, den: 1 }, &Score { num: u64::MAX, den: 2 }));
}

#[test]
fn score_of_a_clique_is_exact() {
    let t = Transformer::new(gen_test_typespec(), 20, 2, 1, Some(1), 20, 100, 3, false, 0, "author".into(), false).unwrap();
    let g = build_graph(GraphId::from(0), &vec![row(1, 3, 0), row(2, 3, 0), row(1, 4, 0)]);
    let c = t.process_graph(&g).unwrap().top_candidate;
    // {1, 2} x {3}: 2^2 * 1 * (2 / 2) = 4 beats {1} x {3, 4}: 1 * 2 * (2 / 2) = 2
    assert_eq!(c.core_ids.len(), 2);
    assert_eq!(c.score.num * 1, 4 * c.score.den);
}

#[test]
fn report_line_lists_ids() {
    let c = Candidate {
        core_ids: vec![NodeId::from(1), NodeId::from(-2)],
        non_core_ids: vec![NodeId::from(30)],
        score: Score { num: 2, den: 1 },
    };
    assert_eq!(candidate_line(GraphId::from(4), &c), "4\t1,-2\t30");
    let empty = Candidate { core_ids: vec![], non_core_ids: vec![], score: Score { num: 0, den: 1 } };
    assert_eq!(candidate_line(GraphId::from(0), &empty), "0\t\t");
}

#[test]
fn bad_records_are_dropped() {
    let t = transformer();
    let raw = vec![
        "0\t1\t3\tauthor\tpublished_at\tconference".to_string(),
        "0\tx\t3\tauthor\tpublished_at\tconference".to_string(),
        "0\t2\tjournal\t\t\t".to_string(),
        "0\t2\t3\tauthor\tpublished_at".to_string(),
        "0\t2\t4\tauthor\tpublished_at\tjournal".to_string(),
    ];
    let rows = collect_edge_rows(&t, &raw);
    assert_eq!(rows.len(), 2);
    assert_eq!(rows[0].source_id, NodeId::from(1));
    assert_eq!(rows[1].target_id, NodeId::from(4));
    assert_eq!(rows[1].target_type_id, NodeTypeId::from(2));
}

#[test]
fn rows_that_would_join_one_side_are_dropped() {
    // 3 first appears as a non-core target, so a later row with 3 as source
    // is dropped; so is a self-loop and a row whose target is a core node.
    let rows = vec![row(1, 3, 0), row(3, 4, 0), row(2, 2, 0), row(2, 1, 0), row(2, 3, 0)];
    let g = build_graph(GraphId::from(0), &rows);
    assert_eq!(g.edges.len(), 2);
    let mut ids: Vec<(i64, bool)> = g.nodes.iter().map(|n| (n.id.value(), n.is_core)).collect();
    ids.sort();
    assert_eq!(ids, vec![(1, true), (2, true), (3, false)]);
}
