//! The per-partition driver: configuration, record classification, graph
//! building with optional pruning, and search.
use vstd::prelude::*;
use crate::beam::{search, search_run, size, SearchResult};
use crate::candidate::{Candidate, Weights};
use crate::graph::{build_graph, built, rebuild_pruned, rebuilt, Graph};
use crate::ids::{EdgeTypeId, GraphId, NodeId, NodeTypeId};
use crate::line::{decimal, parse_i64, split_fields, split_tabs};
use crate::row::{CliqueRow, EdgeRow, Row};
use crate::typespec::{all_triples, process_typespec, relations_for, same_text, views, SchemaError, TypeRegistry};

verus! {

/// Why a record line was rejected.
#[derive(Clone, Copy, Debug, PartialEq, Eq, Structural)]
pub enum LineError {
    /// The line does not have six tab-separated fields.
    WrongFieldCount,
    /// An id field is not a decimal `i64`.
    BadNumber,
    /// A type or relation name that the schema does not declare.
    UnknownName,
    /// An edge record was asked for and the line is a membership record.
    WrongKind,
}

/// Settings and schema for processing one partition.
#[derive(Clone, Debug)]
pub struct Transformer {
    pub core_type: String,
    pub non_core_type_ids: TypeRegistry,
    pub edge_types: Vec<String>,
    pub beam_size: usize,
    pub weights: Weights,
    pub num_to_search: usize,
    pub num_epochs: usize,
    pub patience: usize,
    pub debug: bool,
    pub min_degree: usize,
    pub long_ids: bool,
}

/// The first position of `x` in `names`.
pub open spec fn first_index(names: Seq<String>, x: Seq<char>) -> Option<int> {
    if exists|i: int| 0 <= i < names.len() && names[i]@ == x {
        Some(choose|i: int| 0 <= i < names.len() && names[i]@ == x && forall|j: int| 0 <= j < i ==> names[j]@ != x)
    } else {
        None
    }
}

/// The value of `s` as an `i64`, when it is one.
pub open spec fn as_i64(s: Seq<char>) -> Option<i64> {
    match decimal(s) {
        Some(v) => if i64::MIN <= v <= i64::MAX { Some(v as i64) } else { None },
        None => None,
    }
}

/// The values that column `col` takes in the rows of `ts` whose first
/// column is `core`.
pub open spec fn column_values(ts: Seq<Vec<String>>, core: Seq<char>, col: int) -> Set<Seq<char>> {
    Set::new(|x: Seq<char>| exists|i: int| 0 <= i < ts.len() && ts[i]@.len() == 3 && ts[i]@[0]@ == core && ts[i]@[col]@ == x)
}

impl Transformer {
    pub open spec fn wf(&self) -> bool {
        self.non_core_type_ids.wf()
    }

    /// The type id of a type name: 0 for the core type, `i + 1` for the
    /// `i`-th registered type.
    pub open spec fn type_id_of(&self, name: Seq<char>) -> Option<usize> {
        if name == self.core_type@ {
            Some(0)
        } else {
            match first_index(self.non_core_type_ids.names@, name) {
                Some(i) => Some((i + 1) as usize),
                None => None,
            }
        }
    }

    /// What the line `s` is: an edge record (six fields), or a membership
    /// record (three fields and three empty ones).
    #[verifier::opaque]
    pub open spec fn classify(&self, s: Seq<char>) -> Result<Row, LineError> {
        let f = split_tabs(s);
        if f.len() != 6 {
            Err(LineError::WrongFieldCount)
        } else if as_i64(f[0]) is None || as_i64(f[1]) is None {
            Err(LineError::BadNumber)
        } else if f[3].len() == 0 && f[4].len() == 0 && f[5].len() == 0 {
            match self.type_id_of(f[2]) {
                Some(k) => Ok(Row::Clique(CliqueRow {
                    graph_id: GraphId { id: as_i64(f[0])->0 },
                    node_id: NodeId { id: as_i64(f[1])->0 },
                    target_type: if k == 0 { None } else { Some(NodeTypeId { id: k }) },
                })),
                None => Err(LineError::UnknownName),
            }
        } else if as_i64(f[2]) is None {
            Err(LineError::BadNumber)
        } else if self.type_id_of(f[3]) is None || first_index(self.edge_types@, f[4]) is None
            || self.type_id_of(f[5]) is None {
            Err(LineError::UnknownName)
        } else {
            Ok(Row::Edge(EdgeRow {
                graph_id: GraphId { id: as_i64(f[0])->0 },
                source_id: NodeId { id: as_i64(f[1])->0 },
                target_id: NodeId { id: as_i64(f[2])->0 },
                source_type_id: NodeTypeId { id: self.type_id_of(f[3])->0 },
                target_type_id: NodeTypeId { id: self.type_id_of(f[5])->0 },
                edge_type_id: EdgeTypeId { id: first_index(self.edge_types@, f[4])->0 as usize },
            }))
        }
    }

    /// Builds the transformer for schema `typespec` and core type
    /// `core_type`. Non-core types are numbered from 1 and relation kinds
    /// from 0, each in order of first appearance among the schema rows whose
    /// source is the core type. Fails when a schema row is not a triple.
    pub fn new(
        typespec: Vec<Vec<String>>,
        beam_size: usize,
        alpha: u32,
        beta: u32,
        gamma: Option<u32>,
        num_to_search: usize,
        num_epochs: usize,
        patience: usize,
        debug: bool,
        min_degree: usize,
        core_type: String,
        long_ids: bool,
    ) -> (r: Result<Transformer, SchemaError>)
        ensures
            match r {
                Ok(t) => {
                    &&& t.wf()
                    &&& all_triples(typespec@)
                    &&& t.core_type@ == core_type@
                    &&& views(t.non_core_type_ids.names@).no_duplicates()
                    &&& views(t.non_core_type_ids.names@).to_set() == column_values(typespec@, core_type@, 2)
                    &&& forall|i: int| 0 <= i < t.non_core_type_ids.entries.len()
                        ==> (#[trigger] t.non_core_type_ids.entries[i]).max_edge_count
                        == relations_for(typespec@, core_type@, t.non_core_type_ids.names[i]@).len()
                    &&& views(t.edge_types@).no_duplicates()
                    &&& views(t.edge_types@).to_set() == column_values(typespec@, core_type@, 1)
                    &&& in_first_order(typespec@, core_type@, 2, views(t.non_core_type_ids.names@))
                    &&& in_first_order(typespec@, core_type@, 1, views(t.edge_types@))
                    &&& t.weights == Weights { alpha, beta, gamma }
                    &&& t.beam_size == beam_size && t.num_to_search == num_to_search
                    &&& t.num_epochs == num_epochs && t.patience == patience
                    &&& t.debug == debug && t.min_degree == min_degree && t.long_ids == long_ids
                },
                Err(e) => e == SchemaError::MalformedRow && !all_triples(typespec@),
            },
    {
        let mut i: usize = 0;
        while i < typespec.len()
            invariant
                i <= typespec.len(),
                forall|j: int| 0 <= j < i ==> (#[trigger] typespec[j])@.len() == 3,
            decreases typespec.len() - i,
        {
            if typespec[i].len() != 3 {
                return Err(SchemaError::MalformedRow);
            }
            i = i + 1;
        }
        let targets = distinct_column(&typespec, &core_type, 2);
        let edge_types = distinct_column(&typespec, &core_type, 1);
        let ghost ts = typespec@;
        let ghost tv = targets@;
        let reg = process_typespec(typespec, &core_type, targets);
        proof {
            if reg is Ok {
                let rg = reg->Ok_0;
                assert forall|i: int| 0 <= i < rg.entries.len() implies rg.names[i]@ == tv[i]@ by {
                    assert(views(rg.names@).len() == rg.names@.len());
                    assert(views(tv).len() == tv.len());
                    assert(views(rg.names@)[i] == views(tv)[i]);
                }
            }
        }
        match reg {
            Err(e) => Err(e),
            Ok(non_core_type_ids) => Ok(Transformer {
                core_type,
                non_core_type_ids,
                edge_types,
                beam_size,
                weights: Weights { alpha, beta, gamma },
                num_to_search,
                num_epochs,
                patience,
                debug,
                min_degree,
                long_ids,
            }),
        }
    }

    /// Classifies one record line.
    pub fn process_line(&self, line: String) -> (r: Result<Row, LineError>)
        requires
            self.wf(),
        ensures
            r == self.classify(line@),
    {
        proof {
            reveal(Transformer::classify);
        }
        let s = line.as_str();
        let bounds = split_fields(s);
        if bounds.len() != 6 {
            return Err(LineError::WrongFieldCount);
        }
        let f0 = s.substring_char(bounds[0].0, bounds[0].1);
        let f1 = s.substring_char(bounds[1].0, bounds[1].1);
        let f2 = s.substring_char(bounds[2].0, bounds[2].1);
        let f3 = s.substring_char(bounds[3].0, bounds[3].1);
        let f4 = s.substring_char(bounds[4].0, bounds[4].1);
        let f5 = s.substring_char(bounds[5].0, bounds[5].1);
        let ghost f = split_tabs(s@);
        assert(f0@ == f[0] && f1@ == f[1] && f2@ == f[2] && f3@ == f[3] && f4@ == f[4] && f5@ == f[5]) by {
            assert(bounds@[0].0 <= bounds@[0].1);
            assert(bounds@[1].0 <= bounds@[1].1);
            assert(bounds@[2].0 <= bounds@[2].1);
            assert(bounds@[3].0 <= bounds@[3].1);
            assert(bounds@[4].0 <= bounds@[4].1);
            assert(bounds@[5].0 <= bounds@[5].1);
        }
        let graph_id = match parse_i64(f0) {
            Some(v) => v,
            None => {
                return Err(LineError::BadNumber);
            },
        };
        let first_id = match parse_i64(f1) {
            Some(v) => v,
            None => {
                return Err(LineError::BadNumber);
            },
        };
        if f3.unicode_len() == 0 && f4.unicode_len() == 0 && f5.unicode_len() == 0 {
            return match self.type_id(f2) {
                Some(k) => Ok(Row::Clique(CliqueRow {
                    graph_id: GraphId { id: graph_id },
                    node_id: NodeId { id: first_id },
                    target_type: if k == 0 { None } else { Some(NodeTypeId { id: k }) },
                })),
                None => Err(LineError::UnknownName),
            };
        }
        let second_id = match parse_i64(f2) {
            Some(v) => v,
            None => {
                return Err(LineError::BadNumber);
            },
        };
        let source_type = self.type_id(f3);
        let relation = find_name(&self.edge_types, f4);
        let target_type = self.type_id(f5);
        if source_type.is_none() || relation.is_none() || target_type.is_none() {
            return Err(LineError::UnknownName);
        }
        Ok(Row::Edge(EdgeRow {
            graph_id: GraphId { id: graph_id },
            source_id: NodeId { id: first_id },
            target_id: NodeId { id: second_id },
            source_type_id: NodeTypeId { id: source_type.unwrap() },
            target_type_id: NodeTypeId { id: target_type.unwrap() },
            edge_type_id: EdgeTypeId { id: relation.unwrap() },
        }))
    }

    /// Whether the registry is well formed (see `wf`).
    pub fn is_wf(&self) -> (r: bool)
        ensures
            r == self.wf(),
    {
        let reg = &self.non_core_type_ids;
        if reg.names.len() != reg.entries.len() {
            return false;
        }
        let mut i: usize = 0;
        while i < reg.entries.len()
            invariant
                reg == &self.non_core_type_ids,
                reg.names.len() == reg.entries.len(),
                i <= reg.entries.len(),
                forall|k: int| 0 <= k < i ==> (#[trigger] reg.entries[k]).id.id == k + 1,
            decreases reg.entries.len() - i,
        {
            if reg.entries[i].id.id != i + 1 {
                return false;
            }
            i = i + 1;
        }
        true
    }

    /// The type id of a type name (see `type_id_of`).
    pub fn type_id(&self, name: &str) -> (r: Option<usize>)
        requires
            self.wf(),
        ensures
            r == self.type_id_of(name@),
    {
        if same_text(self.core_type.as_str(), name) {
            return Some(0);
        }
        match find_name(&self.non_core_type_ids.names, name) {
            Some(i) => Some(i + 1),
            None => None,
        }
    }

    /// The graph of `rows`, pruned at `min_degree` when that is not 0.
    pub fn build_pruned_graph(&self, graph_id: GraphId, rows: &Vec<EdgeRow>) -> (g: Graph)
        ensures
            self.min_degree == 0 ==> built(graph_id, rows@, g),
            self.min_degree > 0 ==> rebuilt(graph_id, rows@, self.min_degree as int, g),
    {
        if self.min_degree == 0 {
            build_graph(graph_id, rows)
        } else {
            rebuild_pruned(graph_id, rows, self.min_degree)
        }
    }

    /// Searches `g` with this transformer's beam width, weights, epoch
    /// budget and patience.
    pub fn process_graph(&self, g: &Graph) -> (r: Option<SearchResult>)
        requires
            g.wf(),
        ensures
            match r {
                Some(res) => {
                    &&& res.top_candidate.wf(*g, self.non_core_type_ids, self.weights)
                    &&& res.top_candidate.core_ids.len() > 0
                    &&& res.num_steps <= self.num_epochs
                    &&& exists|beams: Seq<Seq<Candidate>>| beams.len() == res.num_steps + 1 && #[trigger] search_run(
                        *g, self.non_core_type_ids, self.weights, self.beam_size as int, self.num_epochs as int,
                        self.patience as int, beams, res.top_candidate)
                    &&& size(res.top_candidate) <= res.num_steps + 1
                },
                None => self.beam_size == 0 || forall|j: int| 0 <= j < g.nodes.len() ==> !(#[trigger] g.nodes[j]).is_core,
            },
            r is None <==> (self.beam_size == 0 || forall|j: int| 0 <= j < g.nodes.len() ==> !(#[trigger] g.nodes[j]).is_core),
    {
        search(g, &self.non_core_type_ids, &self.weights, self.beam_size, self.num_epochs, self.patience)
    }
}

/// The first position of `x` in `names`.
pub fn find_name(names: &Vec<String>, x: &str) -> (r: Option<usize>)
    ensures
        match r {
            Some(i) => i < names.len() && first_index(names@, x@) == Some(i as int),
            None => first_index(names@, x@) is None,
        },
{
    let mut i: usize = 0;
    while i < names.len()
        invariant
            i <= names.len(),
            forall|j: int| 0 <= j < i ==> names@[j]@ != x@,
        decreases names.len() - i,
    {
        if same_text(names[i].as_str(), x) {
            assert(names@[i as int]@ == x@);
            let ghost c = choose|k: int| 0 <= k < names.len() && names@[k]@ == x@ && forall|j: int| 0 <= j < k ==> names@[j]@ != x@;
            assert(c == i as int) by {
                if c < i {
                    assert(names@[c]@ != x@);
                }
                if c > i {
                    assert(names@[i as int]@ != x@);
                }
            }
            return Some(i);
        }
        i = i + 1;
    }
    None
}

/// Row `m` of `ts` has first column `core` and value `x` in column `col`.
pub open spec fn row_has(ts: Seq<Vec<String>>, core: Seq<char>, col: int, m: int, x: Seq<char>) -> bool {
    ts[m]@.len() == 3 && ts[m]@[0]@ == core && ts[m]@[col]@ == x
}

/// Among the first `t` rows, `a` appears before every row that holds `b`.
pub open spec fn appears_first(ts: Seq<Vec<String>>, core: Seq<char>, col: int, a: Seq<char>, b: Seq<char>, t: int) -> bool {
    forall|m: int| 0 <= m < t && #[trigger] row_has(ts, core, col, m, b) ==> exists|m2: int| 0 <= m2 < m && row_has(ts, core, col, m2, a)
}

/// Some of the first `t` rows has first column `core` and `x` in column `col`.
pub open spec fn seen_by(ts: Seq<Vec<String>>, core: Seq<char>, col: int, x: Seq<char>, t: int) -> bool {
    exists|m: int| 0 <= m < t && row_has(ts, core, col, m, x)
}

/// The values of `names` come in order of first appearance in column `col`.
pub open spec fn in_first_order(ts: Seq<Vec<String>>, core: Seq<char>, col: int, names: Seq<Seq<char>>) -> bool {
    forall|i: int, j: int| 0 <= i < j < names.len() ==> appears_first(ts, core, col, #[trigger] names[i], #[trigger] names[j], ts.len() as int)
}

/// The distinct values of column `col` among the rows of `ts` whose first
/// column is `core`, in order of first appearance.
fn distinct_column(ts: &Vec<Vec<String>>, core: &String, col: usize) -> (r: Vec<String>)
    requires
        col < 3,
        all_triples(ts@),
    ensures
        views(r@).no_duplicates(),
        views(r@).to_set() == column_values(ts@, core@, col as int),
        in_first_order(ts@, core@, col as int, views(r@)),
{
    let mut seen: Vec<String> = Vec::new();
    let mut i: usize = 0;
    while i < ts.len()
        invariant
            col < 3,
            all_triples(ts@),
            i <= ts.len(),
            views(seen@).no_duplicates(),
            views(seen@).to_set() == column_values(ts@.subrange(0, i as int), core@, col as int),
            forall|a: int, b: int| 0 <= a < b < seen.len() ==> appears_first(ts@, core@, col as int,
                #[trigger] views(seen@)[a], #[trigger] views(seen@)[b], i as int),
            forall|a: int| 0 <= a < seen.len() ==> seen_by(ts@, core@, col as int, #[trigger] views(seen@)[a], i as int),
        decreases ts.len() - i,
    {
        let ghost before = ts@.subrange(0, i as int);
        let ghost after = ts@.subrange(0, i as int + 1);
        let ghost seen_before = seen@;
        let row = &ts[i];
        assert(row@.len() == 3);
        let mut added = false;
        if row[0] == *core {
            let found = find_name(&seen, row[col].as_str());
            if found.is_none() {
                seen.push(row[col].clone());
                added = true;
                assert(views(seen@) =~= views(seen_before).push(row@[col as int]@));
                assert(!views(seen_before).contains(row@[col as int]@)) by {
                    if views(seen_before).contains(row@[col as int]@) {
                        let q = choose|q: int| 0 <= q < views(seen_before).len() && views(seen_before)[q] == row@[col as int]@;
                        assert(seen_before[q]@ == row@[col as int]@);
                    }
                }
            } else {
                assert(first_index(seen_before, row@[col as int]@) is Some);
                let ghost q = choose|q: int| 0 <= q < seen_before.len() && seen_before[q]@ == row@[col as int]@;
                assert(views(seen_before)[q] == row@[col as int]@);
            }
        }
        assert forall|x: Seq<char>| column_values(after, core@, col as int).contains(x) <==> views(seen@).to_set().contains(x) by {
            if column_values(after, core@, col as int).contains(x) {
                let m = choose|m: int| 0 <= m < after.len() && after[m]@.len() == 3 && after[m]@[0]@ == core@ && after[m]@[col as int]@ == x;
                if m < i {
                    assert(before[m] == after[m]);
                    assert(column_values(before, core@, col as int).contains(x));
                    assert(views(seen_before).to_set().contains(x));
                    let q = choose|q: int| 0 <= q < views(seen_before).len() && views(seen_before)[q] == x;
                    assert(views(seen@)[q] == x);
                } else if added {
                    assert(views(seen@)[views(seen@).len() - 1] == x);
                } else {
                    let q = choose|q: int| 0 <= q < seen_before.len() && seen_before[q]@ == x;
                    assert(views(seen@)[q] == x);
                }
            }
            if views(seen@).to_set().contains(x) {
                let q = choose|q: int| 0 <= q < views(seen@).len() && views(seen@)[q] == x;
                if q < seen_before.len() {
                    assert(views(seen_before)[q] == x);
                    assert(views(seen_before).to_set().contains(x));
                    let m = choose|m: int| 0 <= m < before.len() && before[m]@.len() == 3 && before[m]@[0]@ == core@ && before[m]@[col as int]@ == x;
                    assert(after[m] == before[m]);
                } else {
                    assert(after[i as int]@[col as int]@ == x);
                }
            }
        }
        assert(column_values(after, core@, col as int) =~= views(seen@).to_set());
        assert forall|a: int| 0 <= a < seen.len() implies seen_by(ts@, core@, col as int, #[trigger] views(seen@)[a], i + 1) by {
            if a < seen_before.len() {
                assert(views(seen@)[a] == views(seen_before)[a]);
                assert(seen_by(ts@, core@, col as int, views(seen_before)[a], i as int));
                let m = choose|m: int| 0 <= m < i && row_has(ts@, core@, col as int, m, views(seen_before)[a]);
                assert(row_has(ts@, core@, col as int, m, views(seen@)[a]));
            } else {
                assert(row_has(ts@, core@, col as int, i as int, views(seen@)[a]));
            }
        }
        assert forall|a: int, b: int| 0 <= a < b < seen.len() implies appears_first(ts@, core@, col as int,
            #[trigger] views(seen@)[a], #[trigger] views(seen@)[b], i + 1) by {
            let va = views(seen@)[a];
            let vb = views(seen@)[b];
            assert(va == views(seen_before)[a]);
            assert forall|m: int| 0 <= m < i + 1 && #[trigger] row_has(ts@, core@, col as int, m, vb)
                implies exists|m2: int| 0 <= m2 < m && row_has(ts@, core@, col as int, m2, va) by {
                if b < seen_before.len() {
                    assert(vb == views(seen_before)[b]);
                    if m < i {
                        assert(appears_first(ts@, core@, col as int, views(seen_before)[a], views(seen_before)[b], i as int));
                    } else {
                        let m0 = choose|m0: int| 0 <= m0 < i && row_has(ts@, core@, col as int, m0, views(seen_before)[b]);
                        assert(appears_first(ts@, core@, col as int, views(seen_before)[a], views(seen_before)[b], i as int));
                        assert(row_has(ts@, core@, col as int, m0, vb));
                        let m2 = choose|m2: int| 0 <= m2 < m0 && row_has(ts@, core@, col as int, m2, va);
                    }
                } else {
                    assert(added);
                    assert(seen_by(ts@, core@, col as int, views(seen_before)[a], i as int));
                    let m2 = choose|m2: int| 0 <= m2 < i && row_has(ts@, core@, col as int, m2, views(seen_before)[a]);
                    if m < i {
                        assert(before[m] == ts@[m]);
                        assert(column_values(before, core@, col as int).contains(vb));
                        assert(views(seen_before).to_set().contains(vb));
                    }
                }
            }
        }
        i = i + 1;
    }
    assert(ts@.subrange(0, i as int) =~= ts@);
    seen
}

/// Whether a line is an edge record that this transformer accepts, and which.
pub open spec fn edge_of_line(t: Transformer, s: Seq<char>) -> Result<EdgeRow, LineError> {
    match t.classify(s) {
        Ok(Row::Edge(e)) => Ok(e),
        Ok(Row::Clique(_)) => Err(LineError::WrongKind),
        Err(e) => Err(e),
    }
}

/// The edge records among `lines`, in order; lines that are not accepted
/// edge records are left out.
pub open spec fn accepted_edges(t: Transformer, lines: Seq<String>) -> Seq<EdgeRow>
    decreases lines.len(),
{
    if lines.len() == 0 {
        Seq::empty()
    } else {
        let rest = accepted_edges(t, lines.drop_last());
        match edge_of_line(t, lines.last()@) {
            Ok(e) => rest.push(e),
            Err(_) => rest,
        }
    }
}

/// Classifies each line of `raw` and keeps the edge records, dropping every
/// line that is malformed, names an unknown type or is a membership record.
pub fn collect_edge_rows(transformer: &Transformer, raw: &Vec<String>) -> (r: Vec<EdgeRow>)
    requires
        transformer.wf(),
    ensures
        r@ == accepted_edges(*transformer, raw@),
{
    let mut rows: Vec<EdgeRow> = Vec::new();
    let mut i: usize = 0;
    while i < raw.len()
        invariant
            transformer.wf(),
            i <= raw.len(),
            rows@ == accepted_edges(*transformer, raw@.subrange(0, i as int)),
        decreases raw.len() - i,
    {
        assert(raw@.subrange(0, i as int + 1).drop_last() =~= raw@.subrange(0, i as int));
        let row = transformer.process_line(raw[i].clone());
        match row {
            Ok(Row::Edge(e)) => {
                rows.push(e);
            },
            _ => {},
        }
        i = i + 1;
    }
    assert(raw@.subrange(0, i as int) =~= raw@);
    rows
}

} // verus!
