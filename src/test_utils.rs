//! Helpers that build schemas, transformers, record lines and synthetic
//! cliques, and that check a found candidate against expected ids.
use vstd::prelude::*;
use crate::candidate::find_node;
use crate::graph::{ids_of, Graph};
use crate::ids::{GraphId, NodeId, NodeTypeId};
use crate::output::{decimal_text, render_i64};
use crate::row::{EdgeRow, Row};
use crate::transformer::{column_values, edge_of_line, in_first_order, LineError, Transformer};
use crate::typespec::{all_triples, relations_for, views, SchemaError};

verus! {

/// The edge record line for one core node, one non-core node, and one relation.
pub open spec fn clique_line(graph_id: i64, core: i64, non_core: i64, source: Seq<char>, relation: Seq<char>, target: Seq<char>) -> Seq<char> {
    decimal_text(graph_id as int) + seq!['\t'] + decimal_text(core as int) + seq!['\t'] + decimal_text(non_core as int)
        + seq!['\t'] + source + seq!['\t'] + relation + seq!['\t'] + target
}

/// A transformer for schema `typespec` with core type `core_type`: beam
/// width 20, unit weights, 100 epochs, patience 3, no pruning.
pub fn gen_test_transformer(typespec: Vec<Vec<String>>, core_type: String) -> (r: Result<Transformer, SchemaError>)
    ensures
        match r {
            Ok(t) => {
                &&& t.wf()
                &&& all_triples(typespec@)
                &&& t.core_type@ == core_type@
                &&& views(t.non_core_type_ids.names@).no_duplicates()
                &&& views(t.non_core_type_ids.names@).to_set() == column_values(typespec@, core_type@, 2)
                &&& forall|i: int| 0 <= i < t.non_core_type_ids.entries.len()
                    ==> (#[trigger] t.non_core_type_ids.entries[i]).max_edge_count
                    == relations_for(typespec@, core_type@, t.non_core_type_ids.names[i]@).len()
                &&& views(t.edge_types@).no_duplicates()
                &&& views(t.edge_types@).to_set() == column_values(typespec@, core_type@, 1)
                &&& in_first_order(typespec@, core_type@, 2, views(t.non_core_type_ids.names@))
                &&& in_first_order(typespec@, core_type@, 1, views(t.edge_types@))
                &&& t.beam_size == 20 && t.num_to_search == 20
                &&& t.num_epochs == 100 && t.patience == 3
                &&& t.min_degree == 0
                &&& t.debug && !t.long_ids
                &&& t.weights.alpha == 1 && t.weights.beta == 1 && t.weights.gamma == Some(1u32)
            },
            Err(e) => e == SchemaError::MalformedRow && !all_triples(typespec@),
        },
{
    Transformer::new(typespec, 20, 1, 1, Some(1), 20, 100, 3, true, 0, core_type, false)
}

fn text(s: &str) -> (r: String)
    ensures
        r@ == s@,
{
    String::from_str(s)
}

fn triple(a: &str, b: &str, c: &str) -> (r: Vec<String>)
    ensures
        r@.len() == 3,
        r@[0]@ == a@ && r@[1]@ == b@ && r@[2]@ == c@,
{
    let mut row: Vec<String> = Vec::new();
    row.push(text(a));
    row.push(text(b));
    row.push(text(c));
    row
}

/// The schema: authors publish at conferences and at journals.
pub fn gen_test_typespec() -> (r: Vec<Vec<String>>)
    ensures
        r@.len() == 2,
        r@[0]@.len() == 3 && r@[1]@.len() == 3,
        r@[0]@[0]@ == "author"@ && r@[0]@[1]@ == "published_at"@ && r@[0]@[2]@ == "conference"@,
        r@[1]@[0]@ == "author"@ && r@[1]@[1]@ == "published_at"@ && r@[1]@[2]@ == "journal"@,
{
    let mut ts: Vec<Vec<String>> = Vec::new();
    ts.push(triple("author", "published_at", "conference"));
    ts.push(triple("author", "published_at", "journal"));
    ts
}

/// The core flag of the node with id `x` in `graph`.
pub open spec fn core_flag(graph: Graph, x: NodeId) -> bool {
    graph.nodes[choose|j: int| 0 <= j < graph.nodes.len() && graph.nodes[j].id == x].is_core
}

/// Whether `node_ids` holds as many ids as `test_ids`, each the id of a
/// node of `graph` whose core flag is `core` and each among `test_ids`.
pub fn assert_nodes_have_ids(graph: &Graph, node_ids: &Vec<NodeId>, test_ids: Vec<NodeId>, core: bool) -> (r: bool)
    requires
        graph.wf(),
        node_ids@.no_duplicates(),
    ensures
        r == (node_ids.len() == test_ids.len() && forall|i: int| 0 <= i < node_ids.len() ==> {
            &&& ids_of(graph.nodes@).contains(#[trigger] node_ids[i])
            &&& core_flag(*graph, node_ids[i]) == core
            &&& test_ids@.contains(node_ids[i])
        }),
{
    if node_ids.len() != test_ids.len() {
        return false;
    }
    let mut i: usize = 0;
    while i < node_ids.len()
        invariant
            graph.wf(),
            i <= node_ids.len(),
            forall|k: int| 0 <= k < i ==> {
                &&& ids_of(graph.nodes@).contains(#[trigger] node_ids[k])
                &&& core_flag(*graph, node_ids[k]) == core
                &&& test_ids@.contains(node_ids[k])
            },
        decreases node_ids.len() - i,
    {
        let x = node_ids[i];
        match find_node(graph, x) {
            None => {
                return false;
            },
            Some(j) => {
                assert(ids_of(graph.nodes@).contains(x));
                let ghost c = choose|q: int| 0 <= q < graph.nodes.len() && graph.nodes[q].id == x;
                assert(c == j as int);
                if graph.nodes[j].is_core != core {
                    return false;
                }
                let mut found = false;
                let mut m: usize = 0;
                while m < test_ids.len()
                    invariant
                        m <= test_ids.len(),
                        found ==> test_ids@.contains(x),
                        !found ==> forall|q: int| 0 <= q < m ==> test_ids@[q] != x,
                    decreases test_ids.len() - m,
                {
                    if test_ids[m] == x {
                        found = true;
                        assert(test_ids@[m as int] == x);
                    }
                    m = m + 1;
                }
                if !found {
                    return false;
                }
            },
        }
        i = i + 1;
    }
    true
}

/// Classifies each line of `raw` as an edge record, in order; fails with
/// the error of the first line that is not an accepted edge record.
pub fn process_raw_vector(transformer: &Transformer, raw: Vec<String>) -> (r: Result<Vec<EdgeRow>, LineError>)
    requires
        transformer.wf(),
    ensures
        match r {
            Ok(rows) => rows.len() == raw.len() && forall|i: int| 0 <= i < raw.len()
                ==> edge_of_line(*transformer, (#[trigger] raw[i])@) == Ok::<EdgeRow, LineError>(rows[i]),
            Err(e) => exists|i: int| 0 <= i < raw.len() && edge_of_line(*transformer, (#[trigger] raw[i])@) == Err::<EdgeRow, LineError>(e)
                && forall|j: int| 0 <= j < i ==> edge_of_line(*transformer, (#[trigger] raw[j])@) is Ok,
        },
{
    let mut rows: Vec<EdgeRow> = Vec::new();
    let mut i: usize = 0;
    while i < raw.len()
        invariant
            transformer.wf(),
            i <= raw.len(),
            rows.len() == i,
            forall|k: int| 0 <= k < i ==> edge_of_line(*transformer, (#[trigger] raw[k])@) == Ok::<EdgeRow, LineError>(rows[k]),
        decreases raw.len() - i,
    {
        let line = raw[i].clone();
        let row = transformer.process_line(line);
        match row {
            Ok(Row::Edge(e)) => {
                rows.push(e);
            },
            Ok(Row::Clique(_)) => {
                assert(edge_of_line(*transformer, raw[i as int]@) == Err::<EdgeRow, LineError>(LineError::WrongKind));
                return Err(LineError::WrongKind);
            },
            Err(e) => {
                assert(edge_of_line(*transformer, raw[i as int]@) == Err::<EdgeRow, LineError>(e));
                return Err(e);
            },
        }
        i = i + 1;
    }
    Ok(rows)
}

proof fn lemma_position(a: int, b: int, e: int, n: int, m: int)
    requires
        0 <= a,
        0 <= b < n,
        0 <= e < m,
    ensures
        0 <= (a * n + b) * m + e < (a * n + b + 1) * m,
        (a * n + b + 1) * m <= (a + 1) * n * m,
        (a + 1) * n * m == a * n * m + n * m,
        (a * n + b + 1) * m == (a * n + b) * m + m,
        (a * n + b) * m == a * n * m + b * m,
{
    assert(0 <= (a * n + b) * m + e < (a * n + b + 1) * m) by (nonlinear_arith)
        requires 0 <= a, 0 <= b < n, 0 <= e < m;
    assert((a * n + b + 1) * m <= (a + 1) * n * m) by (nonlinear_arith)
        requires 0 <= a, 0 <= b < n, 0 <= e < m;
    assert((a + 1) * n * m == a * n * m + n * m) by (nonlinear_arith);
    assert((a * n + b + 1) * m == (a * n + b) * m + m) by (nonlinear_arith);
    assert((a * n + b) * m == a * n * m + b * m) by (nonlinear_arith);
}

proof fn lemma_position_mono(a1: int, a: int, n: int, m: int)
    requires
        0 <= a1 < a,
        0 <= n,
        0 <= m,
    ensures
        (a1 + 1) * n * m <= a * n * m,
{
    assert((a1 + 1) * n * m <= a * n * m) by (nonlinear_arith)
        requires 0 <= a1 < a, 0 <= n, 0 <= m;
}

/// The line for core node `core`, non-core node `non_core` of type `target`
/// and relation `relation`.
fn line_for(graph_id: GraphId, core: NodeId, non_core: NodeId, source: &str, relation: &str, target: &str) -> (r: String)
    ensures
        r@ == clique_line(graph_id.id, core.id, non_core.id, source@, relation@, target@),
{
    proof {
        reveal_strlit("\t");
    }
    let s = render_i64(graph_id.id);
    let s = s.concat("\t");
    let s = s.concat(render_i64(core.id).as_str());
    let s = s.concat("\t");
    let s = s.concat(render_i64(non_core.id).as_str());
    let s = s.concat("\t");
    let s = s.concat(source);
    let s = s.concat("\t");
    let s = s.concat(relation);
    let s = s.concat("\t");
    let s = s.concat(target);
    assert(s@ =~= clique_line(graph_id.id, core.id, non_core.id, source@, relation@, target@));
    s
}

/// The edge record lines of a complete bipartite clique: for each core id,
/// each non-core id (with the name of its type) and each relation, in that
/// nesting, one line.
fn gen_clique(
    graph_id: GraphId,
    core_ids: &Vec<NodeId>,
    non_core_ids_and_types: &Vec<(NodeId, NodeTypeId)>,
    non_core_types_as_strings: &Vec<String>,
    source_type: String,
    edge_types: &Vec<String>,
) -> (r: Vec<String>)
    requires
        core_ids.len() > 0 ==> forall|b: int| 0 <= b < non_core_ids_and_types.len()
            ==> (#[trigger] non_core_ids_and_types[b]).1.id < non_core_types_as_strings.len(),
    ensures
        r.len() == core_ids.len() * non_core_ids_and_types.len() * edge_types.len(),
        forall|a: int, b: int, e: int| 0 <= a < core_ids.len() && 0 <= b < non_core_ids_and_types.len() && 0 <= e < edge_types.len()
            ==> r[(a * non_core_ids_and_types.len() + b) * edge_types.len() + e]@ == clique_line(
                graph_id.id,
                (#[trigger] core_ids[a]).id,
                (#[trigger] non_core_ids_and_types[b]).0.id,
                source_type@,
                (#[trigger] edge_types[e])@,
                non_core_types_as_strings[non_core_ids_and_types[b].1.id as int]@,
            ),
{
    let n = non_core_ids_and_types.len();
    let m = edge_types.len();
    let mut raw: Vec<String> = Vec::new();
    let mut a: usize = 0;
    assert(0 * n * m == 0) by (nonlinear_arith);
    while a < core_ids.len()
        invariant
            n == non_core_ids_and_types.len(),
            m == edge_types.len(),
            a <= core_ids.len(),
            core_ids.len() > 0 ==> forall|b: int| 0 <= b < n ==> (#[trigger] non_core_ids_and_types[b]).1.id < non_core_types_as_strings.len(),
            raw.len() == a * n * m,
            forall|a1: int, b: int, e: int| 0 <= a1 < a && 0 <= b < n && 0 <= e < m
                ==> raw[(a1 * n + b) * m + e]@ == clique_line(graph_id.id, (#[trigger] core_ids[a1]).id,
                    (#[trigger] non_core_ids_and_types[b]).0.id, source_type@, (#[trigger] edge_types[e])@,
                    non_core_types_as_strings[non_core_ids_and_types[b].1.id as int]@),
        decreases core_ids.len() - a,
    {
        let mut b: usize = 0;
        while b < n
            invariant
                n == non_core_ids_and_types.len(),
                m == edge_types.len(),
                a < core_ids.len(),
                b <= n,
                forall|b1: int| 0 <= b1 < n ==> (#[trigger] non_core_ids_and_types[b1]).1.id < non_core_types_as_strings.len(),
                raw.len() == a * n * m + b * m,
                forall|a1: int, b1: int, e: int| 0 <= b1 < n && 0 <= e < m && (0 <= a1 < a || (a1 == a && 0 <= b1 < b))
                    ==> raw[(a1 * n + b1) * m + e]@ == clique_line(graph_id.id, (#[trigger] core_ids[a1]).id,
                        (#[trigger] non_core_ids_and_types[b1]).0.id, source_type@, (#[trigger] edge_types[e])@,
                        non_core_types_as_strings[non_core_ids_and_types[b1].1.id as int]@),
            decreases n - b,
        {
            let ell = non_core_ids_and_types[b];
            let target_name = non_core_types_as_strings[ell.1.id].as_str();
            let mut e: usize = 0;
            proof {
                lemma_position(a as int, b as int, 0, n as int, if m > 0 { m as int } else { 1 });
                assert((a * n + b) * m == a * n * m + b * m) by (nonlinear_arith);
            }
            while e < m
                invariant
                    n == non_core_ids_and_types.len(),
                    m == edge_types.len(),
                    a < core_ids.len(),
                    b < n,
                    e <= m,
                    ell == non_core_ids_and_types[b as int],
                    target_name@ == non_core_types_as_strings[ell.1.id as int]@,
                    forall|b1: int| 0 <= b1 < n ==> (#[trigger] non_core_ids_and_types[b1]).1.id < non_core_types_as_strings.len(),
                    raw.len() == (a * n + b) * m + e,
                    forall|a1: int, b1: int, e1: int| 0 <= b1 < n && 0 <= e1 < m
                        && (0 <= a1 < a || (a1 == a && 0 <= b1 < b) || (a1 == a && b1 == b && e1 < e))
                        ==> raw[(a1 * n + b1) * m + e1]@ == clique_line(graph_id.id, (#[trigger] core_ids[a1]).id,
                            (#[trigger] non_core_ids_and_types[b1]).0.id, source_type@, (#[trigger] edge_types[e1])@,
                            non_core_types_as_strings[non_core_ids_and_types[b1].1.id as int]@),
                decreases m - e,
            {
                let line = line_for(graph_id, core_ids[a], ell.0, source_type.as_str(), edge_types[e].as_str(), target_name);
                let ghost before = raw@;
                raw.push(line);
                assert forall|a1: int, b1: int, e1: int| 0 <= b1 < n && 0 <= e1 < m
                    && (0 <= a1 < a || (a1 == a && 0 <= b1 < b) || (a1 == a && b1 == b && e1 < e + 1))
                    implies raw[(a1 * n + b1) * m + e1]@ == clique_line(graph_id.id, (#[trigger] core_ids[a1]).id,
                        (#[trigger] non_core_ids_and_types[b1]).0.id, source_type@, (#[trigger] edge_types[e1])@,
                        non_core_types_as_strings[non_core_ids_and_types[b1].1.id as int]@) by {
                    lemma_position(a1, b1, e1, n as int, m as int);
                    if a1 < a {
                        lemma_position_mono(a1, a as int, n as int, m as int);
                        assert((a * n + b) * m == a * n * m + b * m) by (nonlinear_arith);
                        assert(raw@[(a1 * n + b1) * m + e1] == before[(a1 * n + b1) * m + e1]);
                    } else if b1 < b {
                        assert((a * n + b1 + 1) * m <= (a * n + b) * m) by (nonlinear_arith)
                            requires b1 < b, m >= 0;
                        assert(raw@[(a1 * n + b1) * m + e1] == before[(a1 * n + b1) * m + e1]);
                    } else if e1 < e {
                        assert(raw@[(a1 * n + b1) * m + e1] == before[(a1 * n + b1) * m + e1]);
                    }
                }
                e = e + 1;
            }
            proof {
                assert((a * n + b) * m + m == a * n * m + (b + 1) * m) by (nonlinear_arith);
            }
            b = b + 1;
        }
        proof {
            assert(a * n * m + n * m == (a + 1) * n * m) by (nonlinear_arith);
        }
        a = a + 1;
    }
    raw
}

/// The sum of `counts`.
pub open spec fn total(counts: Seq<usize>) -> nat
    decreases counts.len(),
{
    if counts.len() == 0 {
        0
    } else {
        total(counts.drop_last()) + counts.last() as nat
    }
}

/// A synthetic clique: core ids `0 .. num_core`, then for each group `g`
/// `non_core_counts[g]` non-core ids of type `g`, numbered on from
/// `num_core`; and the edge record lines that join every core node to every
/// non-core node under every relation of `edge_types`.
pub fn gen_single_clique(
    graph_id: GraphId,
    num_core: usize,
    non_core_counts: Vec<usize>,
    non_core_types: Vec<String>,
    source_type: String,
    edge_types: Vec<String>,
) -> (r: (Vec<NodeId>, Vec<(NodeId, NodeTypeId)>, Vec<String>))
    requires
        num_core + total(non_core_counts@) <= i64::MAX,
        num_core > 0 ==> forall|g: int| 0 <= g < non_core_counts.len() && non_core_counts[g] > 0 ==> g < non_core_types.len(),
    ensures
        r.0.len() == num_core,
        forall|k: int| 0 <= k < num_core ==> (#[trigger] r.0[k]).id == k,
        r.1.len() == total(non_core_counts@),
        forall|k: int| 0 <= k < r.1.len() ==> (#[trigger] r.1[k]).0.id == num_core + k
            && r.1[k].1.id < non_core_counts.len() && non_core_counts[r.1[k].1.id as int] > 0
            && in_group(non_core_counts@, k, r.1[k].1.id as int),
        r.2.len() == r.0.len() * r.1.len() * edge_types.len(),
        forall|a: int, b: int, e: int| 0 <= a < r.0.len() && 0 <= b < r.1.len() && 0 <= e < edge_types.len()
            ==> r.2[(a * r.1.len() + b) * edge_types.len() + e]@ == clique_line(
                graph_id.id,
                (#[trigger] r.0[a]).id,
                (#[trigger] r.1[b]).0.id,
                source_type@,
                (#[trigger] edge_types[e])@,
                non_core_types[r.1[b].1.id as int]@,
            ),
{
    let mut core_ids: Vec<NodeId> = Vec::new();
    let mut c: usize = 0;
    while c < num_core
        invariant
            c <= num_core,
            num_core <= i64::MAX,
            core_ids.len() == c,
            forall|k: int| 0 <= k < c ==> (#[trigger] core_ids[k]).id == k,
        decreases num_core - c,
    {
        core_ids.push(NodeId { id: c as i64 });
        c = c + 1;
    }
    let mut non_core_ids: Vec<(NodeId, NodeTypeId)> = Vec::new();
    let mut next_id: i64 = num_core as i64;
    let mut g: usize = 0;
    while g < non_core_counts.len()
        invariant
            g <= non_core_counts.len(),
            num_core + total(non_core_counts@) <= i64::MAX,
            next_id == num_core + total(non_core_counts@.subrange(0, g as int)),
            non_core_ids.len() == total(non_core_counts@.subrange(0, g as int)),
            forall|k: int| 0 <= k < non_core_ids.len() ==> (#[trigger] non_core_ids[k]).0.id == num_core + k
                && non_core_ids[k].1.id < g && non_core_counts[non_core_ids[k].1.id as int] > 0
                && in_group(non_core_counts@, k, non_core_ids[k].1.id as int),
        decreases non_core_counts.len() - g,
    {
        let count = non_core_counts[g];
        proof {
            assert(non_core_counts@.subrange(0, g as int + 1).drop_last() =~= non_core_counts@.subrange(0, g as int));
            lemma_total_prefix(non_core_counts@, g as int + 1);
            assert(total(non_core_counts@.subrange(0, g as int + 1))
                == total(non_core_counts@.subrange(0, g as int)) + count);
            assert(next_id + count <= i64::MAX);
        }
        let mut i: usize = 0;
        while i < count
            invariant
                g < non_core_counts.len(),
                count == non_core_counts[g as int],
                i <= count,
                next_id + count <= i64::MAX,
                non_core_ids.len() == next_id - num_core + i,
                next_id >= num_core,
                next_id == num_core + total(non_core_counts@.subrange(0, g as int)),
                total(non_core_counts@.subrange(0, g as int + 1)) == total(non_core_counts@.subrange(0, g as int)) + count,
                forall|k: int| 0 <= k < non_core_ids.len() ==> (#[trigger] non_core_ids[k]).0.id == num_core + k
                    && non_core_ids[k].1.id <= g && non_core_counts[non_core_ids[k].1.id as int] > 0
                    && in_group(non_core_counts@, k, non_core_ids[k].1.id as int),
            decreases count - i,
        {
            non_core_ids.push((NodeId { id: next_id + i as i64 }, NodeTypeId { id: g }));
            i = i + 1;
        }
        next_id = next_id + count as i64;
        g = g + 1;
    }
    assert(non_core_counts@.subrange(0, g as int) =~= non_core_counts@);
    let clique_rows = gen_clique(graph_id, &core_ids, &non_core_ids, &non_core_types, source_type, &edge_types);
    (core_ids, non_core_ids, clique_rows)
}

/// Position `k` falls in group `t`: after the ids of the groups before `t`
/// and before those of the groups after it.
pub open spec fn in_group(counts: Seq<usize>, k: int, t: int) -> bool {
    total(counts.subrange(0, t)) <= k < total(counts.subrange(0, t + 1))
}

/// A prefix of the counts sums to no more than all of them.
proof fn lemma_total_prefix(counts: Seq<usize>, p: int)
    requires
        0 <= p <= counts.len(),
    ensures
        total(counts.subrange(0, p)) <= total(counts),
    decreases counts.len(),
{
    if p == counts.len() {
        assert(counts.subrange(0, p) =~= counts);
    } else {
        lemma_total_prefix(counts.drop_last(), p);
        assert(counts.drop_last().subrange(0, p) =~= counts.subrange(0, p));
    }
}

} // verus!
