//! A partition's typed multigraph, built from edge rows, and k-core pruning.
use vstd::prelude::*;
use crate::ids::{EdgeTypeId, GraphId, NodeId, NodeTypeId};
use crate::row::EdgeRow;

verus! {

/// One relation between a core node and a non-core node.
#[derive(Clone, Copy, Debug, PartialEq, Eq, Structural)]
pub struct Edge {
    pub core_id: NodeId,
    pub non_core_id: NodeId,
    pub edge_type: EdgeTypeId,
}

/// A vertex: its id, whether it is of the core type, and its type id.
#[derive(Clone, Copy, Debug, PartialEq, Eq, Structural)]
pub struct Node {
    pub id: NodeId,
    pub is_core: bool,
    pub type_id: NodeTypeId,
}

/// One partition: its nodes (unique ids) and its edges, each recorded once.
#[derive(Clone, Debug)]
pub struct Graph {
    pub graph_id: GraphId,
    pub nodes: Vec<Node>,
    pub edges: Vec<Edge>,
}

pub open spec fn touches(e: Edge, v: NodeId) -> bool {
    e.core_id == v || e.non_core_id == v
}

/// Number of edges incident to `v`, one per edge and relation kind.
pub open spec fn degree(edges: Seq<Edge>, v: NodeId) -> nat
    decreases edges.len(),
{
    if edges.len() == 0 {
        0
    } else {
        degree(edges.drop_last(), v) + if touches(edges.last(), v) { 1nat } else { 0nat }
    }
}

/// The edges that have neither endpoint in `removed`, in their order.
pub open spec fn without(edges: Seq<Edge>, removed: Set<NodeId>) -> Seq<Edge>
    decreases edges.len(),
{
    if edges.len() == 0 {
        edges
    } else {
        let rest = without(edges.drop_last(), removed);
        let e = edges.last();
        if removed.contains(e.core_id) || removed.contains(e.non_core_id) {
            rest
        } else {
            rest.push(e)
        }
    }
}

/// The ids of a node sequence.
pub open spec fn ids_of(nodes: Seq<Node>) -> Set<NodeId> {
    Set::new(|v: NodeId| exists|j: int| 0 <= j < nodes.len() && nodes[j].id == v)
}

/// The ids that some edge of `edges` touches.
pub open spec fn endpoints(edges: Seq<Edge>) -> Set<NodeId> {
    Set::new(|v: NodeId| exists|j: int| 0 <= j < edges.len() && touches(edges[j], v))
}

/// `core` is a k-core of the graph on `nodes`: each member keeps at least `k`
/// edges once every node outside `core` is taken away.
pub open spec fn is_k_core(edges: Seq<Edge>, nodes: Set<NodeId>, core: Set<NodeId>, k: int) -> bool {
    &&& core.subset_of(nodes)
    &&& forall|v: NodeId| core.contains(v) ==> degree(without(edges, nodes.difference(core)), v) >= k
}

/// `core` is the largest k-core: a k-core that holds every other k-core.
pub open spec fn is_max_k_core(edges: Seq<Edge>, nodes: Set<NodeId>, core: Set<NodeId>, k: int) -> bool {
    &&& is_k_core(edges, nodes, core, k)
    &&& forall|t: Set<NodeId>| is_k_core(edges, nodes, t, k) ==> #[trigger] t.subset_of(core)
}

/// Removing `order` one node at a time, each node had fewer than `k` edges
/// left at the moment it went.
pub open spec fn is_cascade(edges: Seq<Edge>, order: Seq<NodeId>, k: int) -> bool {
    forall|i: int| 0 <= i < order.len() ==> degree(without(edges, order.subrange(0, i).to_set()), #[trigger] order[i]) < k
}

impl Graph {
    /// Node ids are unique and every edge joins two nodes of the graph.
    pub open spec fn wf(&self) -> bool {
        &&& forall|i: int, j: int| 0 <= i < j < self.nodes.len() ==> self.nodes[i].id != self.nodes[j].id
        &&& forall|j: int| 0 <= j < self.edges.len() ==> {
            &&& ids_of(self.nodes@).contains(#[trigger] self.edges[j].core_id)
            &&& ids_of(self.nodes@).contains(self.edges[j].non_core_id)
        }
    }

    pub open spec fn node_ids(&self) -> Set<NodeId> {
        ids_of(self.nodes@)
    }

    /// Every node keeps at least `k` edges.
    pub open spec fn all_at_least(&self, k: int) -> bool {
        forall|j: int| 0 <= j < self.nodes.len() ==> degree(self.edges@, #[trigger] self.nodes[j].id) >= k
    }
}

/// What pruning `before` at threshold `k` leaves: `after` holds the largest
/// k-core of `before`, with exactly the edges among its nodes, and `excluded`
/// lists the other nodes in an order in which each fell below `k`.
pub open spec fn trimmed(before: Graph, k: int, after: Graph, excluded: Seq<NodeId>) -> bool {
    &&& after.wf()
    &&& after.graph_id == before.graph_id
    &&& excluded.no_duplicates()
    &&& excluded.to_set().subset_of(before.node_ids())
    &&& after.node_ids() == before.node_ids().difference(excluded.to_set())
    &&& after.edges@ == without(before.edges@, excluded.to_set())
    &&& is_cascade(before.edges@, excluded, k)
    &&& after.all_at_least(k)
    &&& is_max_k_core(before.edges@, before.node_ids(), after.node_ids(), k)
    &&& forall|j: int| 0 <= j < after.nodes.len() ==> kept_node(before, #[trigger] after.nodes[j])
}

/// `n` is one of the nodes of `g`, unchanged.
pub open spec fn kept_node(g: Graph, n: Node) -> bool {
    exists|i: int| 0 <= i < g.nodes.len() && g.nodes[i] == n
}

pub proof fn lemma_without_empty(edges: Seq<Edge>)
    ensures
        without(edges, Set::empty()) == edges,
    decreases edges.len(),
{
    if edges.len() > 0 {
        lemma_without_empty(edges.drop_last());
        assert(edges.drop_last().push(edges.last()) =~= edges);
    }
}

pub proof fn lemma_without_members(edges: Seq<Edge>, removed: Set<NodeId>)
    ensures
        forall|e: Edge| #[trigger] without(edges, removed).contains(e) ==> edges.contains(e)
            && !removed.contains(e.core_id) && !removed.contains(e.non_core_id),
    decreases edges.len(),
{
    if edges.len() > 0 {
        let rest = edges.drop_last();
        lemma_without_members(rest, removed);
        assert forall|e: Edge| #[trigger] without(edges, removed).contains(e) implies edges.contains(e)
            && !removed.contains(e.core_id) && !removed.contains(e.non_core_id) by {
            if without(rest, removed).contains(e) {
                let j = choose|j: int| 0 <= j < rest.len() && rest[j] == e;
                assert(edges[j] == e);
            } else {
                assert(edges[edges.len() - 1] == e);
            }
        }
    }
}

/// Taking away `r` and then `s` is taking away both.
pub proof fn lemma_without_twice(edges: Seq<Edge>, r: Set<NodeId>, s: Set<NodeId>)
    ensures
        without(without(edges, r), s) == without(edges, r.union(s)),
    decreases edges.len(),
{
    if edges.len() > 0 {
        lemma_without_twice(edges.drop_last(), r, s);
        let rest = without(edges.drop_last(), r);
        if !(r.contains(edges.last().core_id) || r.contains(edges.last().non_core_id)) {
            assert(rest.push(edges.last()).drop_last() =~= rest);
        }
    }
}

/// Taking away fewer nodes leaves at least as many edges at each node.
pub proof fn lemma_degree_without_mono(edges: Seq<Edge>, r: Set<NodeId>, s: Set<NodeId>, v: NodeId)
    requires
        r.subset_of(s),
    ensures
        degree(without(edges, s), v) <= degree(without(edges, r), v),
    decreases edges.len(),
{
    if edges.len() > 0 {
        let rest = edges.drop_last();
        lemma_degree_without_mono(rest, r, s, v);
        let e = edges.last();
        let wr = without(rest, r);
        let ws = without(rest, s);
        if !(r.contains(e.core_id) || r.contains(e.non_core_id)) {
            assert(wr.push(e).drop_last() =~= wr);
        }
        if !(s.contains(e.core_id) || s.contains(e.non_core_id)) {
            assert(ws.push(e).drop_last() =~= ws);
        }
    }
}

/// No node of a k-core is ever removed by a cascade.
pub proof fn lemma_cascade_spares_core(
    edges: Seq<Edge>,
    nodes: Set<NodeId>,
    order: Seq<NodeId>,
    core: Set<NodeId>,
    k: int,
)
    requires
        is_cascade(edges, order, k),
        order.to_set().subset_of(nodes),
        is_k_core(edges, nodes, core, k),
    ensures
        forall|i: int| 0 <= i < order.len() ==> !core.contains(#[trigger] order[i]),
    decreases order.len(),
{
    if order.len() > 0 {
        let n = order.len() - 1;
        let prefix = order.subrange(0, n as int);
        assert forall|i: int| 0 <= i < prefix.len() implies degree(
            without(edges, prefix.subrange(0, i).to_set()),
            #[trigger] prefix[i],
        ) < k by {
            assert(prefix.subrange(0, i) =~= order.subrange(0, i));
            assert(order[i] == prefix[i]);
        }
        assert forall|x: NodeId| prefix.to_set().contains(x) implies nodes.contains(x) by {
            let j = choose|j: int| 0 <= j < prefix.len() && prefix[j] == x;
            assert(order[j] == x);
            assert(order.to_set().contains(x));
        }
        lemma_cascade_spares_core(edges, nodes, prefix, core, k);
        let v = order[n];
        if core.contains(v) {
            let pre = order.subrange(0, n).to_set();
            assert(pre.subset_of(nodes.difference(core))) by {
                assert forall|x: NodeId| pre.contains(x) implies nodes.difference(core).contains(x) by {
                    let j = choose|j: int| 0 <= j < n && order.subrange(0, n)[j] == x;
                    assert(prefix[j] == x);
                    assert(order[j] == x);
                    assert(order.to_set().contains(x));
                }
            }
            lemma_degree_without_mono(edges, pre, nodes.difference(core), v);
            assert(degree(without(edges, order.subrange(0, n).to_set()), order[n]) < k);
        }
        assert forall|i: int| 0 <= i < order.len() implies !core.contains(#[trigger] order[i]) by {
            if i < n {
                assert(prefix[i] == order[i]);
            }
        }
    }
}

/// Counts the edges of `edges` incident to `v`.
pub fn count_degree(edges: &Vec<Edge>, v: NodeId) -> (r: usize)
    ensures
        r == degree(edges@, v),
{
    let mut count: usize = 0;
    let mut i: usize = 0;
    while i < edges.len()
        invariant
            i <= edges.len(),
            count == degree(edges@.subrange(0, i as int), v),
            count <= i,
        decreases edges.len() - i,
    {
        assert(edges@.subrange(0, i as int + 1).drop_last() =~= edges@.subrange(0, i as int));
        if edges[i].core_id == v || edges[i].non_core_id == v {
            count = count + 1;
        }
        i = i + 1;
    }
    assert(edges@.subrange(0, i as int) =~= edges@);
    count
}

/// The edges of `edges` that do not touch `v`, in their order.
fn drop_incident(edges: &Vec<Edge>, v: NodeId) -> (r: Vec<Edge>)
    ensures
        r@ == without(edges@, set![v]),
{
    let mut kept: Vec<Edge> = Vec::new();
    let mut i: usize = 0;
    while i < edges.len()
        invariant
            i <= edges.len(),
            kept@ == without(edges@.subrange(0, i as int), set![v]),
        decreases edges.len() - i,
    {
        assert(edges@.subrange(0, i as int + 1).drop_last() =~= edges@.subrange(0, i as int));
        let e = edges[i];
        if !(e.core_id == v || e.non_core_id == v) {
            kept.push(e);
        }
        i = i + 1;
    }
    assert(edges@.subrange(0, i as int) =~= edges@);
    kept
}

/// The first node with fewer than `k` edges, if there is one.
fn find_low(g: &Graph, k: usize) -> (r: Option<usize>)
    ensures
        match r {
            Some(j) => j < g.nodes.len() && degree(g.edges@, g.nodes[j as int].id) < k,
            None => g.all_at_least(k as int),
        },
{
    let mut j: usize = 0;
    while j < g.nodes.len()
        invariant
            j <= g.nodes.len(),
            forall|i: int| 0 <= i < j ==> degree(g.edges@, #[trigger] g.nodes[i].id) >= k,
        decreases g.nodes.len() - j,
    {
        if count_degree(&g.edges, g.nodes[j].id) < k {
            return Some(j);
        }
        j = j + 1;
    }
    None
}

/// Iterative k-core peeling, in place: removes every node that has fewer
/// than `min_degree` edges, with its edges, until none is left below the
/// threshold. Returns the removed ids in the order they were removed.
pub fn trim(g: &mut Graph, min_degree: usize) -> (excluded: Vec<NodeId>)
    requires
        old(g).wf(),
    ensures
        trimmed(*old(g), min_degree as int, *final(g), excluded@),
        old(g).all_at_least(min_degree as int) ==> excluded@.len() == 0 && *final(g) == *old(g),
{
    let ghost g0 = *g;
    let ghost k = min_degree as int;
    let mut excluded: Vec<NodeId> = Vec::new();
    proof {
        lemma_without_empty(g0.edges@);
        assert(excluded@.to_set() =~= Set::empty());
        assert(g.node_ids().difference(Set::empty()) =~= g.node_ids());
    }
    loop
        invariant
            k == min_degree as int,
            g.wf(),
            g.graph_id == g0.graph_id,
            excluded@.no_duplicates(),
            excluded@.to_set().subset_of(g0.node_ids()),
            g.node_ids() == g0.node_ids().difference(excluded@.to_set()),
            g.edges@ == without(g0.edges@, excluded@.to_set()),
            is_cascade(g0.edges@, excluded@, k),
            g0.all_at_least(k) ==> excluded@.len() == 0 && *g == g0,
            forall|i: int| 0 <= i < g.nodes.len() ==> kept_node(g0, #[trigger] g.nodes[i]),
        ensures
            g.all_at_least(k),
        decreases g.nodes.len(),
    {
        let found = find_low(g, min_degree);
        match found {
            None => {
                assert(g.all_at_least(k));
                break;
            },
            Some(j) => {
                let v = g.nodes[j].id;
                let ghost before = *g;
                let ghost ex_before = excluded@;
                let ghost xs = excluded@.to_set();
                let ghost nodes_before = g.nodes@;
                g.nodes.remove(j);
                assert forall|i: int| 0 <= i < g.nodes.len() implies kept_node(g0, #[trigger] g.nodes[i]) by {
                    if i < j {
                        assert(g.nodes[i] == nodes_before[i]);
                        assert(kept_node(g0, nodes_before[i]));
                    } else {
                        assert(g.nodes[i] == nodes_before[i + 1]);
                        assert(kept_node(g0, nodes_before[i + 1]));
                    }
                }
                let kept = drop_incident(&g.edges, v);
                g.edges = kept;
                excluded.push(v);
                proof {
                    assert(excluded@.drop_last() =~= ex_before);
                    lemma_without_twice(g0.edges@, xs, set![v]);
                    assert(excluded@.to_set() =~= xs.union(set![v])) by {
                        assert forall|x: NodeId| excluded@.to_set().contains(x) implies xs.union(set![v]).contains(x) by {
                            let i = choose|i: int| 0 <= i < excluded@.len() && excluded@[i] == x;
                            if i < excluded@.len() - 1 {
                                assert(ex_before[i] == x);
                            }
                        }
                        assert forall|x: NodeId| xs.union(set![v]).contains(x) implies excluded@.to_set().contains(x) by {
                            if xs.contains(x) {
                                let i = choose|i: int| 0 <= i < ex_before.len() && ex_before[i] == x;
                                assert(excluded@[i] == x);
                            } else {
                                assert(excluded@[excluded@.len() - 1] == x);
                            }
                        }
                    }
                    assert(before.node_ids().contains(v));
                    // ids after removing the node
                    assert forall|x: NodeId| g.node_ids().contains(x) <==> before.node_ids().contains(x) && x != v by {
                        if g.node_ids().contains(x) {
                            let i = choose|i: int| 0 <= i < g.nodes.len() && g.nodes[i].id == x;
                            if i < j {
                                assert(nodes_before[i] == g.nodes[i]);
                            } else {
                                assert(nodes_before[i + 1] == g.nodes[i]);
                            }
                        }
                        if before.node_ids().contains(x) && x != v {
                            let i = choose|i: int| 0 <= i < nodes_before.len() && nodes_before[i].id == x;
                            if i < j {
                                assert(g.nodes[i] == nodes_before[i]);
                            } else {
                                assert(i != j);
                                assert(g.nodes[i - 1] == nodes_before[i]);
                            }
                        }
                    }
                    assert forall|x: NodeId| g.node_ids().contains(x) <==> g0.node_ids().difference(excluded@.to_set()).contains(x) by {
                        assert(before.node_ids().contains(x) == g0.node_ids().difference(xs).contains(x));
                    }
                    assert(g.node_ids() =~= g0.node_ids().difference(excluded@.to_set()));
                    // uniqueness of the remaining ids
                    assert forall|a: int, b: int| 0 <= a < b < g.nodes.len() implies g.nodes[a].id != g.nodes[b].id by {
                        let a0 = if a < j { a } else { a + 1 };
                        let b0 = if b < j { b } else { b + 1 };
                        assert(g.nodes[a] == nodes_before[a0]);
                        assert(g.nodes[b] == nodes_before[b0]);
                    }
                    lemma_without_members(before.edges@, set![v]);
                    assert forall|i: int| 0 <= i < g.edges.len() implies {
                        &&& g.node_ids().contains(#[trigger] g.edges[i].core_id)
                        &&& g.node_ids().contains(g.edges[i].non_core_id)
                    } by {
                        let e = g.edges[i];
                        assert(g.edges@.contains(e));
                        let i0 = choose|i0: int| 0 <= i0 < before.edges.len() && before.edges[i0] == e;
                        assert(before.node_ids().contains(before.edges[i0].core_id));
                    }
                    assert(excluded@.no_duplicates()) by {
                        assert(!xs.contains(v));
                        assert forall|a: int, b: int| 0 <= a < b < excluded@.len() implies excluded@[a] != excluded@[b] by {
                            if b == excluded@.len() - 1 {
                                assert(ex_before[a] == excluded@[a]);
                                assert(xs.contains(excluded@[a]));
                            } else {
                                assert(ex_before[a] == excluded@[a]);
                                assert(ex_before[b] == excluded@[b]);
                            }
                        }
                    }
                    assert forall|i: int| 0 <= i < excluded@.len() implies degree(
                        without(g0.edges@, excluded@.subrange(0, i).to_set()),
                        #[trigger] excluded@[i],
                    ) < k by {
                        if i < excluded@.len() - 1 {
                            assert(excluded@.subrange(0, i) =~= ex_before.subrange(0, i));
                            assert(ex_before[i] == excluded@[i]);
                        } else {
                            assert(excluded@.subrange(0, i) =~= ex_before);
                            assert(excluded@[i] == v);
                            assert(degree(before.edges@, nodes_before[j as int].id) < k);
                        }
                    }
                    assert(g0.all_at_least(k) ==> false) by {
                        if g0.all_at_least(k) {
                            assert(before == g0);
                        }
                    }
                }
            },
        }
    }
    proof {
        lemma_trim_maximal(g0, k, *g, excluded@);
    }
    excluded
}

proof fn lemma_trim_maximal(g0: Graph, k: int, g: Graph, excluded: Seq<NodeId>)
    requires
        g.wf(),
        excluded.to_set().subset_of(g0.node_ids()),
        g.node_ids() == g0.node_ids().difference(excluded.to_set()),
        g.edges@ == without(g0.edges@, excluded.to_set()),
        is_cascade(g0.edges@, excluded, k),
        g.all_at_least(k),
    ensures
        is_max_k_core(g0.edges@, g0.node_ids(), g.node_ids(), k),
{
    let nodes = g0.node_ids();
    let core = g.node_ids();
    assert(nodes.difference(core) =~= excluded.to_set());
    assert forall|v: NodeId| core.contains(v) implies degree(without(g0.edges@, nodes.difference(core)), v) >= k by {
        let j = choose|j: int| 0 <= j < g.nodes.len() && g.nodes[j].id == v;
        assert(degree(g.edges@, g.nodes[j].id) >= k);
    }
    assert forall|t: Set<NodeId>| is_k_core(g0.edges@, nodes, t, k) implies #[trigger] t.subset_of(core) by {
        lemma_cascade_spares_core(g0.edges@, nodes, excluded, t, k);
        assert forall|x: NodeId| t.contains(x) implies core.contains(x) by {
            if excluded.to_set().contains(x) {
                let i = choose|i: int| 0 <= i < excluded.len() && excluded[i] == x;
                assert(!t.contains(excluded[i]));
            }
        }
    }
}

/// Trimming an already trimmed graph at the same threshold removes nothing.
pub proof fn lemma_trim_idempotent(
    g0: Graph,
    k: int,
    g1: Graph,
    x1: Seq<NodeId>,
    g2: Graph,
    x2: Seq<NodeId>,
)
    requires
        trimmed(g0, k, g1, x1),
        trimmed(g1, k, g2, x2),
    ensures
        x2.len() == 0,
        g2.node_ids() == g1.node_ids(),
{
    if x2.len() > 0 {
        let v = x2[0];
        assert(x2.subrange(0, 0).to_set() =~= Set::empty());
        lemma_without_empty(g1.edges@);
        assert(x2.to_set().contains(v));
        let j = choose|j: int| 0 <= j < g1.nodes.len() && g1.nodes[j].id == v;
        assert(degree(g1.edges@, g1.nodes[j].id) >= k);
    }
    assert(x2.to_set() =~= Set::empty());
    assert(g1.node_ids().difference(Set::empty()) =~= g1.node_ids());
}

/// A graph has one largest k-core.
pub proof fn lemma_max_k_core_unique(edges: Seq<Edge>, nodes: Set<NodeId>, a: Set<NodeId>, b: Set<NodeId>, k: int)
    requires
        is_max_k_core(edges, nodes, a, k),
        is_max_k_core(edges, nodes, b, k),
    ensures
        a == b,
{
    assert(a.subset_of(b));
    assert(b.subset_of(a));
    assert(a =~= b);
}

/// The edges that the rows in `rows` describe: one per row whose source is of
/// the core type, in row order.
pub open spec fn edges_of(rows: Seq<EdgeRow>) -> Seq<Edge>
    decreases 2 * rows.len(),
{
    if rows.len() == 0 {
        Seq::empty()
    } else {
        let rest = edges_of(rows.drop_last());
        let r = rows.last();
        if accepts(rows.drop_last(), r) {
            rest.push(Edge { core_id: r.source_id, non_core_id: r.target_id, edge_type: r.edge_type_id })
        } else {
            rest
        }
    }
}

/// Whether row `r`, after the rows `p`, adds an edge: its source is of the
/// core type, it joins two different nodes, and neither endpoint already
/// stands on the other side (a source known as a non-core node, or a target
/// known as a core node).
pub open spec fn accepts(p: Seq<EdgeRow>, r: EdgeRow) -> bool
    decreases 2 * p.len() + 1,
{
    &&& r.source_type_id.id == 0
    &&& r.source_id != r.target_id
    &&& (endpoints(edges_of(p)).contains(r.source_id) ==> role(p, r.source_id).is_core)
    &&& (endpoints(edges_of(p)).contains(r.target_id) ==> !role(p, r.target_id).is_core)
}

/// Every edge's core end is a core node and its other end a non-core node.
pub open spec fn bipartite(nodes: Seq<Node>, edges: Seq<Edge>) -> bool {
    forall|e: int, j: int| 0 <= e < edges.len() && 0 <= j < nodes.len() ==> {
        &&& (#[trigger] nodes[j]).id == (#[trigger] edges[e]).core_id ==> nodes[j].is_core
        &&& nodes[j].id == edges[e].non_core_id ==> !nodes[j].is_core
    }
}

/// The node that the first accepted row of `rows` (see `accepts`) that
/// mentions `v` makes of `v`: a core node when `v` is its source,
/// else a non-core node of the row's target type.
pub open spec fn role(rows: Seq<EdgeRow>, v: NodeId) -> Node
    decreases 2 * rows.len(),
{
    if rows.len() == 0 {
        Node { id: v, is_core: false, type_id: NodeTypeId { id: 0 } }
    } else {
        let p = rows.drop_last();
        let r = rows.last();
        if endpoints(edges_of(p)).contains(v) || !accepts(p, r) {
            role(p, v)
        } else if r.source_id == v {
            Node { id: v, is_core: true, type_id: r.source_type_id }
        } else {
            Node { id: v, is_core: false, type_id: r.target_type_id }
        }
    }
}

/// `g` is the graph that `rows` describe.
pub open spec fn built(graph_id: GraphId, rows: Seq<EdgeRow>, g: Graph) -> bool {
    &&& g.wf()
    &&& g.graph_id == graph_id
    &&& g.edges@ == edges_of(rows)
    &&& g.node_ids() == endpoints(edges_of(rows))
    &&& forall|j: int| 0 <= j < g.nodes.len() ==> #[trigger] g.nodes[j] == role(rows, g.nodes[j].id)
    &&& bipartite(g.nodes@, g.edges@)
}

/// `g` is the graph that `rows` describe, pruned at threshold `k`.
pub open spec fn rebuilt(graph_id: GraphId, rows: Seq<EdgeRow>, k: int, g: Graph) -> bool {
    let nodes = endpoints(edges_of(rows));
    &&& g.wf()
    &&& g.graph_id == graph_id
    &&& is_max_k_core(edges_of(rows), nodes, g.node_ids(), k)
    &&& g.edges@ == without(edges_of(rows), nodes.difference(g.node_ids()))
    &&& g.all_at_least(k)
    &&& forall|j: int| 0 <= j < g.nodes.len() ==> #[trigger] g.nodes[j] == role(rows, g.nodes[j].id)
    &&& bipartite(g.nodes@, g.edges@)
}

/// Pruning while rebuilding leaves the same nodes as building, then trimming.
pub proof fn lemma_rebuild_matches_trim(
    graph_id: GraphId,
    rows: Seq<EdgeRow>,
    k: int,
    g: Graph,
    trimmed_g: Graph,
    excluded: Seq<NodeId>,
    rebuilt_g: Graph,
)
    requires
        built(graph_id, rows, g),
        trimmed(g, k, trimmed_g, excluded),
        rebuilt(graph_id, rows, k, rebuilt_g),
    ensures
        trimmed_g.node_ids() == rebuilt_g.node_ids(),
{
    lemma_max_k_core_unique(edges_of(rows), g.node_ids(), trimmed_g.node_ids(), rebuilt_g.node_ids(), k);
}

pub proof fn lemma_without_len(edges: Seq<Edge>, removed: Set<NodeId>)
    ensures
        without(edges, removed).len() <= edges.len(),
    decreases edges.len(),
{
    if edges.len() > 0 {
        lemma_without_len(edges.drop_last(), removed);
    }
}

/// Pruning never enlarges the graph: the pruned graph of `rows` has no node
/// that the unpruned one lacks, and no more edges.
pub proof fn lemma_pruning_shrinks_graph(graph_id: GraphId, rows: Seq<EdgeRow>, k: int, full: Graph, pruned: Graph)
    requires
        built(graph_id, rows, full),
        rebuilt(graph_id, rows, k, pruned),
    ensures
        pruned.node_ids().subset_of(full.node_ids()),
        pruned.edges.len() <= full.edges.len(),
{
    lemma_without_len(edges_of(rows), endpoints(edges_of(rows)).difference(pruned.node_ids()));
}

/// Adds a node with id `id` unless one is there already.
fn ensure_node(nodes: &mut Vec<Node>, id: NodeId, is_core: bool, type_id: NodeTypeId)
    requires
        forall|i: int, j: int| 0 <= i < j < old(nodes).len() ==> old(nodes)[i].id != old(nodes)[j].id,
    ensures
        forall|i: int, j: int| 0 <= i < j < final(nodes).len() ==> final(nodes)[i].id != final(nodes)[j].id,
        ids_of(final(nodes)@) == ids_of(old(nodes)@).insert(id),
        final(nodes)@ == old(nodes)@ || (!ids_of(old(nodes)@).contains(id)
            && final(nodes)@ == old(nodes)@.push(Node { id, is_core, type_id })),
{
    let mut i: usize = 0;
    while i < nodes.len()
        invariant
            i <= nodes.len(),
            nodes@ == old(nodes)@,
            forall|a: int, b: int| 0 <= a < b < nodes.len() ==> nodes[a].id != nodes[b].id,
            forall|j: int| 0 <= j < i ==> nodes[j].id != id,
        decreases nodes.len() - i,
    {
        if nodes[i].id == id {
            assert(ids_of(nodes@).insert(id) =~= ids_of(nodes@));
            return;
        }
        assert(nodes@[i as int].id != id);
        i = i + 1;
    }
    let ghost before = nodes@;
    assert(!ids_of(before).contains(id)) by {
        if ids_of(before).contains(id) {
            let j = choose|j: int| 0 <= j < before.len() && before[j].id == id;
            assert(before[j].id != id);
        }
    }
    nodes.push(Node { id, is_core, type_id });
    assert forall|x: NodeId| ids_of(nodes@).contains(x) <==> ids_of(before).insert(id).contains(x) by {
        if ids_of(before).contains(x) {
            let j = choose|j: int| 0 <= j < before.len() && before[j].id == x;
            assert(nodes@[j] == before[j]);
        }
        if ids_of(nodes@).contains(x) && x != id {
            let j = choose|j: int| 0 <= j < nodes.len() && nodes[j].id == x;
            assert(before[j] == nodes@[j]);
        }
        if x == id {
            assert(nodes@[before.len() as int].id == id);
        }
    }
    assert(ids_of(nodes@) =~= ids_of(before).insert(id));
}

/// The position of the node with id `id`, if there is one.
fn position_of(nodes: &Vec<Node>, id: NodeId) -> (r: Option<usize>)
    ensures
        match r {
            Some(j) => j < nodes.len() && nodes[j as int].id == id,
            None => !ids_of(nodes@).contains(id),
        },
{
    let mut j: usize = 0;
    while j < nodes.len()
        invariant
            j <= nodes.len(),
            forall|i: int| 0 <= i < j ==> nodes[i].id != id,
        decreases nodes.len() - j,
    {
        if nodes[j].id == id {
            return Some(j);
        }
        j = j + 1;
    }
    None
}

/// Builds the graph of one partition. Rows that `accepts` refuses are
/// dropped (a source not of the core type, a self-loop, or an endpoint
/// already known on the other side); each other row adds one edge, and its
/// two endpoints as nodes on first reference (the source as a core node, the
/// target as a non-core node of the row's target type).
pub fn build_graph(graph_id: GraphId, rows: &Vec<EdgeRow>) -> (g: Graph)
    ensures
        built(graph_id, rows@, g),
{
    let mut nodes: Vec<Node> = Vec::new();
    let mut edges: Vec<Edge> = Vec::new();
    let mut i: usize = 0;
    assert(ids_of(nodes@) =~= endpoints(edges@));
    while i < rows.len()
        invariant
            i <= rows.len(),
            edges@ == edges_of(rows@.subrange(0, i as int)),
            ids_of(nodes@) == endpoints(edges@),
            forall|a: int, b: int| 0 <= a < b < nodes.len() ==> nodes[a].id != nodes[b].id,
            forall|j: int| 0 <= j < nodes.len() ==> #[trigger] nodes@[j] == role(rows@.subrange(0, i as int), nodes@[j].id),
            bipartite(nodes@, edges@),
        decreases rows.len() - i,
    {
        assert(rows@.subrange(0, i as int + 1).drop_last() =~= rows@.subrange(0, i as int));
        let r = &rows[i];
        let ghost pre = rows@.subrange(0, i as int);
        let ghost cur = rows@.subrange(0, i as int + 1);
        assert(cur.drop_last() == pre);
        assert(cur.last() == *r);
        let mut ok = r.source_type_id.id == 0 && r.source_id != r.target_id;
        if ok {
            match position_of(&nodes, r.source_id) {
                Some(j) => {
                    assert(nodes@[j as int] == role(pre, r.source_id));
                    if !nodes[j].is_core {
                        ok = false;
                    }
                },
                None => {},
            }
        }
        if ok {
            match position_of(&nodes, r.target_id) {
                Some(j) => {
                    assert(nodes@[j as int] == role(pre, r.target_id));
                    if nodes[j].is_core {
                        ok = false;
                    }
                },
                None => {},
            }
        }
        assert(ok == accepts(pre, *r)) by {
            if r.source_type_id.id == 0 && r.source_id != r.target_id {
                if endpoints(edges_of(pre)).contains(r.source_id) {
                    let j = choose|j: int| 0 <= j < nodes.len() && nodes@[j].id == r.source_id;
                    assert(nodes@[j] == role(pre, r.source_id));
                }
                if endpoints(edges_of(pre)).contains(r.target_id) {
                    let j = choose|j: int| 0 <= j < nodes.len() && nodes@[j].id == r.target_id;
                    assert(nodes@[j] == role(pre, r.target_id));
                }
            }
        }
        if ok {
            let e = Edge { core_id: r.source_id, non_core_id: r.target_id, edge_type: r.edge_type_id };
            let ghost es = edges@;
            let ghost n0 = nodes@;
            ensure_node(&mut nodes, r.source_id, true, r.source_type_id);
            let ghost n1 = nodes@;
            ensure_node(&mut nodes, r.target_id, false, r.target_type_id);
            assert(!ids_of(n1).contains(r.target_id) ==> !ids_of(n0).contains(r.target_id)) by {
                if ids_of(n0).contains(r.target_id) {
                    let q = choose|q: int| 0 <= q < n0.len() && n0[q].id == r.target_id;
                    assert(n1[q] == n0[q]);
                }
            }
            assert forall|j: int| 0 <= j < nodes.len() implies #[trigger] nodes@[j] == role(cur, nodes@[j].id) by {
                if j < n0.len() {
                    assert(nodes@[j] == n0[j]);
                    assert(ids_of(n0).contains(n0[j].id));
                } else if j < n1.len() {
                    assert(nodes@[j] == n1[j]);
                    assert(n1[j].id == r.source_id);
                } else {
                    assert(nodes@[j].id == r.target_id);
                }
            }
            edges.push(e);
            assert forall|x: NodeId| endpoints(edges@).contains(x) <==> endpoints(es).insert(e.core_id).insert(e.non_core_id).contains(x) by {
                if endpoints(es).contains(x) {
                    let j = choose|j: int| 0 <= j < es.len() && touches(es[j], x);
                    assert(edges@[j] == es[j]);
                }
                if endpoints(edges@).contains(x) {
                    let j = choose|j: int| 0 <= j < edges.len() && touches(edges@[j], x);
                    if j < es.len() {
                        assert(edges@[j] == es[j]);
                    }
                }
                if x == e.core_id || x == e.non_core_id {
                    assert(touches(edges@[es.len() as int], x));
                }
            }
            assert(endpoints(edges@) =~= endpoints(es).insert(e.core_id).insert(e.non_core_id));
            assert forall|ei: int, j: int| 0 <= ei < edges.len() && 0 <= j < nodes.len() implies {
                &&& (#[trigger] nodes@[j]).id == (#[trigger] edges@[ei]).core_id ==> nodes@[j].is_core
                &&& nodes@[j].id == edges@[ei].non_core_id ==> !nodes@[j].is_core
            } by {
                if ei < es.len() {
                    assert(edges@[ei] == es[ei]);
                    assert(touches(es[ei], es[ei].core_id) && touches(es[ei], es[ei].non_core_id));
                    if j < n0.len() {
                        assert(nodes@[j] == n0[j]);
                    } else {
                        assert(!ids_of(n0).contains(nodes@[j].id));
                        assert(!endpoints(es).contains(nodes@[j].id));
                    }
                } else {
                    if nodes@[j].id == r.source_id {
                        assert(nodes@[j] == role(cur, r.source_id));
                        if endpoints(edges_of(pre)).contains(r.source_id) {
                            assert(role(cur, r.source_id) == role(pre, r.source_id));
                        }
                    }
                    if nodes@[j].id == r.target_id {
                        assert(nodes@[j] == role(cur, r.target_id));
                        if endpoints(edges_of(pre)).contains(r.target_id) {
                            assert(role(cur, r.target_id) == role(pre, r.target_id));
                        }
                    }
                }
            }
        }
        i = i + 1;
    }
    assert(rows@.subrange(0, i as int) =~= rows@);
    let g = Graph { graph_id, nodes, edges };
    assert forall|j: int| 0 <= j < g.edges.len() implies {
        &&& ids_of(g.nodes@).contains(#[trigger] g.edges[j].core_id)
        &&& ids_of(g.nodes@).contains(g.edges[j].non_core_id)
    } by {
        assert(touches(g.edges@[j], g.edges[j].core_id));
        assert(touches(g.edges@[j], g.edges[j].non_core_id));
        assert(endpoints(g.edges@).contains(g.edges[j].core_id));
        assert(endpoints(g.edges@).contains(g.edges[j].non_core_id));
    }
    g
}

/// Builds the graph of `rows` and prunes it at `min_degree`, returning a
/// fresh graph of the surviving nodes and their edges.
pub fn rebuild_pruned(graph_id: GraphId, rows: &Vec<EdgeRow>, min_degree: usize) -> (g: Graph)
    ensures
        rebuilt(graph_id, rows@, min_degree as int, g),
{
    let mut full = build_graph(graph_id, rows);
    let ghost g0 = full;
    let excluded = trim(&mut full, min_degree);
    let g = Graph { graph_id, nodes: full.nodes, edges: full.edges };
    assert forall|j: int| 0 <= j < g.nodes.len() implies #[trigger] g.nodes[j] == role(rows@, g.nodes[j].id) by {
        assert(kept_node(g0, full.nodes[j]));
        let i = choose|i: int| 0 <= i < g0.nodes.len() && g0.nodes[i] == full.nodes[j];
        assert(g0.nodes[i] == role(rows@, g0.nodes[i].id));
    }
    proof {
        lemma_without_members(g0.edges@, excluded@.to_set());
    }
    assert forall|e: int, j: int| 0 <= e < g.edges.len() && 0 <= j < g.nodes.len() implies {
        &&& (#[trigger] g.nodes@[j]).id == (#[trigger] g.edges@[e]).core_id ==> g.nodes@[j].is_core
        &&& g.nodes@[j].id == g.edges@[e].non_core_id ==> !g.nodes@[j].is_core
    } by {
        assert(kept_node(g0, g.nodes@[j]));
        let i = choose|i: int| 0 <= i < g0.nodes.len() && g0.nodes[i] == g.nodes@[j];
        assert(g.edges@.contains(g.edges@[e]));
        let e0 = choose|e0: int| 0 <= e0 < g0.edges.len() && g0.edges@[e0] == g.edges@[e];
        assert(g0.nodes@[i] == g.nodes@[j]);
        assert(g0.edges@[e0] == g.edges@[e]);
    }
    assert(g0.node_ids().difference(g.node_ids()) =~= excluded@.to_set());
    g
}

} // verus!
