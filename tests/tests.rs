use lib_dachshund::graph::Graph;
use lib_dachshund::ids::{GraphId, NodeId};
use lib_dachshund::row::{CliqueRow, EdgeRow};
use lib_dachshund::test_utils::{
    assert_nodes_have_ids, gen_single_clique, gen_test_transformer, gen_test_typespec, process_raw_vector,
};
use lib_dachshund::transformer::Transformer;
use lib_dachshund::typespec::process_typespec;

fn lines(raw: &[&str]) -> Vec<String> {
    raw.iter().map(|s| s.to_string()).collect()
}

fn ids(v: &[i64]) -> Vec<NodeId> {
    v.iter().map(|&i| NodeId::from(i)).collect()
}

fn search_lines(ts: Vec<Vec<String>>, raw: Vec<String>) -> (Graph, lib_dachshund::candidate::Candidate) {
    let graph_id: GraphId = 0.into();
    let transformer = gen_test_transformer(ts, "author".to_string()).unwrap();
    let rows = process_raw_vector(&transformer, raw).unwrap();
    let graph: Graph = transformer.build_pruned_graph(graph_id, &rows);
    let res = transformer.process_graph(&graph).unwrap().top_candidate;
    (graph, res)
}

#[test]
fn test_process_typespec() {
    let ts = vec![
        vec!["author".to_string(), "published_at".into(), "conference".into()],
        vec!["author".to_string(), "organized".into(), "conference".into()],
        vec!["author".to_string(), "published_at".into(), "journal".into()],
        vec!["author".to_string(), "attended".into(), "conference".into()],
    ];
    let target_types = vec!["conference".to_string(), "journal".into()];
    let core_type: String = "author".to_string();
    let target_type_ids = process_typespec(ts, &core_type, target_types).unwrap();
    assert_eq!(target_type_ids.require("conference").unwrap().value(), 1);
    assert_eq!(target_type_ids.require("journal").unwrap().value(), 2);
    assert_eq!(target_type_ids.require("conference").unwrap().max_edge_count_with_core_node().unwrap(), 3);
    assert_eq!(target_type_ids.require("journal").unwrap().max_edge_count_with_core_node().unwrap(), 1);
}

#[test]
fn test_process_single_line() {
    let ts = gen_test_typespec();
    let transformer = gen_test_transformer(ts, "author".to_string()).unwrap();
    let raw: String = "0\t1\t2\tauthor\tpublished_at\tjournal".to_string();
    let row: EdgeRow = transformer.process_line(raw).unwrap().as_edge_row().unwrap();
    assert_eq!(row.graph_id.value(), 0);
    assert_eq!(row.source_id, NodeId::from(1));
    assert_eq!(row.target_id, NodeId::from(2));
    let target_type_name: Option<String> = transformer.non_core_type_ids.name_of(&row.target_type_id);
    assert_eq!(target_type_name, Some("journal".to_owned()));
}

#[test]
fn test_process_single_line_clique_row() {
    let ts = gen_test_typespec();
    let transformer = gen_test_transformer(ts, "author".to_string()).unwrap();
    let raw: String = "0\t2\tjournal\t\t\t".to_string();
    let row: CliqueRow = transformer.process_line(raw).unwrap().as_clique_row().unwrap();
    assert_eq!(row.graph_id.value(), 0);
    assert_eq!(row.node_id, NodeId::from(2));
    let target_type_name: Option<String> = transformer.non_core_type_ids.name_of(&row.target_type.unwrap());
    assert_eq!(target_type_name, Some("journal".to_owned()));
    let raw: String = "0\t1\tauthor\t\t\t".to_string();
    let row: CliqueRow = transformer.process_line(raw).unwrap().as_clique_row().unwrap();
    assert_eq!(row.graph_id.value(), 0);
    assert_eq!(row.node_id, NodeId::from(1));
    assert_eq!(row.target_type, None);
}

#[test]
fn test_process_single_row() {
    let ts = gen_test_typespec();
    let (graph, res) = search_lines(ts, lines(&["0\t1\t2\tauthor\tpublished_at\tconference"]));
    assert!(assert_nodes_have_ids(&graph, &res.core_ids, ids(&[1]), true));
    assert!(assert_nodes_have_ids(&graph, &res.non_core_ids, ids(&[2]), false));
}

#[test]
fn test_process_small_clique() {
    let ts = gen_test_typespec();
    let (graph, res) = search_lines(
        ts,
        lines(&[
            "0\t1\t3\tauthor\tpublished_at\tconference",
            "0\t2\t3\tauthor\tpublished_at\tconference",
            "0\t1\t4\tauthor\tpublished_at\tconference",
            "0\t2\t4\tauthor\tpublished_at\tconference",
        ]),
    );
    assert!(assert_nodes_have_ids(&graph, &res.core_ids, ids(&[1, 2]), true));
    assert!(assert_nodes_have_ids(&graph, &res.non_core_ids, ids(&[3, 4]), false));
}

#[test]
fn test_process_small_clique_with_non_clique_row() {
    let ts = gen_test_typespec();
    let (graph, res) = search_lines(
        ts,
        lines(&[
            "0\t1\t3\tauthor\tpublished_at\tconference",
            "0\t2\t3\tauthor\tpublished_at\tconference",
            "0\t1\t4\tauthor\tpublished_at\tconference",
            "0\t2\t4\tauthor\tpublished_at\tconference",
            "0\t2\t5\tconference\tpublished_at\tconference",
        ]),
    );
    assert!(assert_nodes_have_ids(&graph, &res.core_ids, ids(&[1, 2]), true));
    assert!(assert_nodes_have_ids(&graph, &res.non_core_ids, ids(&[3, 4]), false));
}

fn medium_clique() -> (Vec<NodeId>, Vec<NodeId>, Vec<String>) {
    let ts = gen_test_typespec();
    let non_core_types = ts.iter().map(|x| x[2].clone()).collect();
    let graph_id: GraphId = 0.into();
    let (core_ids, non_cores, clique_rows) =
        gen_single_clique(graph_id, 10, vec![10, 10], non_core_types, "author".to_string(), vec!["published_at".to_string()]);
    (core_ids, non_cores.into_iter().map(|x| x.0).collect(), clique_rows)
}

#[test]
fn test_process_medium_clique() {
    let (core_ids, non_core_ids, clique_rows) = medium_clique();
    assert_eq!(clique_rows.len(), 200);
    let (graph, res) = search_lines(gen_test_typespec(), clique_rows);
    assert!(assert_nodes_have_ids(&graph, &res.core_ids, core_ids, true));
    assert!(assert_nodes_have_ids(&graph, &res.non_core_ids, non_core_ids, false));
}

#[test]
fn test_process_medium_clique_with_insufficient_epochs() {
    let (_core_ids, _non_cores, clique_rows) = medium_clique();
    assert_eq!(clique_rows.len(), 200);
    let transformer =
        Transformer::new(gen_test_typespec(), 20, 1, 1, Some(1), 20, 10, 3, true, 0, "author".to_string(), false).unwrap();
    let rows = process_raw_vector(&transformer, clique_rows).unwrap();
    let graph: Graph = transformer.build_pruned_graph(0.into(), &rows);
    let res = transformer.process_graph(&graph).unwrap().top_candidate;
    assert_eq!(res.core_ids.len() + res.non_core_ids.len(), 11);
}

#[test]
fn test_process_small_clique_with_two_kinds_of_rows() {
    let typespec = vec![
        vec!["author".to_string(), "published_at".into(), "conference".into()],
        vec!["author".to_string(), "attended".into(), "conference".into()],
    ];
    let (graph, res) = search_lines(
        typespec,
        lines(&[
            "0\t1\t3\tauthor\tpublished_at\tconference",
            "0\t2\t3\tauthor\tpublished_at\tconference",
            "0\t1\t3\tauthor\tattended\tconference",
            "0\t2\t3\tauthor\tattended\tconference",
        ]),
    );
    assert!(assert_nodes_have_ids(&graph, &res.core_ids, ids(&[1, 2]), true));
    assert!(assert_nodes_have_ids(&graph, &res.non_core_ids, ids(&[3]), false));
}

// With unit weights the scorer ranks all five authors with article 5
// (5 * 1 * 7/10) above authors 2 and 3 alone (2 * 1 * 4/4).
#[test]
fn test_process_another_small_clique_with_two_kinds_of_rows() {
    let typespec = vec![
        vec!["author".to_string(), "published".into(), "article".into()],
        vec!["author".to_string(), "cited".into(), "article".into()],
    ];
    let (graph, res) = search_lines(
        typespec,
        lines(&[
            "0\t1\t5\tauthor\tpublished\tarticle",
            "0\t0\t5\tauthor\tpublished\tarticle",
            "0\t2\t5\tauthor\tpublished\tarticle",
            "0\t3\t5\tauthor\tpublished\tarticle",
            "0\t2\t5\tauthor\tcited\tarticle",
            "0\t4\t5\tauthor\tpublished\tarticle",
            "0\t3\t5\tauthor\tcited\tarticle",
        ]),
    );
    assert!(assert_nodes_have_ids(&graph, &res.core_ids, ids(&[0, 1, 2, 3, 4]), true));
    assert!(assert_nodes_have_ids(&graph, &res.non_core_ids, ids(&[5]), false));
}
