//! Beam search: seeding, one expansion round, and the epoch loop.
use vstd::prelude::*;
use vstd::arithmetic::power::{lemma0_pow, lemma1_pow, pow};
use crate::candidate::{
    better, capacity, contains_id, score_fits, is_core_id, is_non_core_id, linked, realized, score_den, score_gt, score_members,
    score_num, scores, Candidate, Score, Weights,
};
use crate::graph::{count_degree, degree, Edge, Graph, Node};
use crate::ids::NodeId;
use crate::typespec::TypeRegistry;

verus! {

/// The best candidate found, and the number of expansion rounds run.
#[derive(Clone, Debug)]
pub struct SearchResult {
    pub top_candidate: Candidate,
    pub num_steps: usize,
}

/// Every member of `beam` is a well-formed candidate.
pub open spec fn all_wf(beam: Seq<Candidate>, g: Graph, reg: TypeRegistry, w: Weights) -> bool {
    forall|i: int| 0 <= i < beam.len() ==> (#[trigger] beam[i]).wf(g, reg, w)
}

/// The number of members of a candidate.
pub open spec fn size(c: Candidate) -> int {
    c.core_ids.len() + c.non_core_ids.len()
}

/// No member of `beam` has more than `bound` members.
pub open spec fn sizes_within(beam: Seq<Candidate>, bound: int) -> bool {
    forall|i: int| 0 <= i < beam.len() ==> size(#[trigger] beam[i]) <= bound
}

/// The largest size in `beam`, 0 when it is empty.
pub open spec fn max_size(beam: Seq<Candidate>) -> int
    decreases beam.len(),
{
    if beam.len() == 0 {
        0
    } else {
        let m = max_size(beam.drop_last());
        if size(beam.last()) > m { size(beam.last()) } else { m }
    }
}

pub proof fn lemma_max_size(beam: Seq<Candidate>, bound: int)
    ensures
        sizes_within(beam, max_size(beam)),
        sizes_within(beam, bound) && bound >= 0 ==> max_size(beam) <= bound,
    decreases beam.len(),
{
    if beam.len() > 0 {
        let p = beam.drop_last();
        lemma_max_size(p, bound);
        assert forall|i: int| 0 <= i < beam.len() implies size(#[trigger] beam[i]) <= max_size(beam) by {
            if i < p.len() {
                assert(p[i] == beam[i]);
            }
        }
        if sizes_within(beam, bound) && bound >= 0 {
            assert forall|i: int| 0 <= i < p.len() implies size(#[trigger] p[i]) <= bound by {
                assert(p[i] == beam[i]);
            }
            assert(size(beam[beam.len() - 1]) <= bound);
        }
    }
}

/// Some member of `beam` scores at least `s`.
pub open spec fn reaches(beam: Seq<Candidate>, s: Score) -> bool {
    exists|j: int| 0 <= j < beam.len() && !score_gt(s, (#[trigger] beam[j]).score)
}

/// Some member of `next` scores at least as high as each member of `beam`.
pub open spec fn keeps_best(beam: Seq<Candidate>, next: Seq<Candidate>) -> bool {
    forall|i: int| 0 <= i < beam.len() ==> reaches(next, (#[trigger] beam[i]).score)
}

pub proof fn lemma_score_ge_trans(a: Score, b: Score, c: Score)
    requires
        a.den > 0,
        b.den > 0,
        c.den > 0,
        !score_gt(b, a),
        !score_gt(c, b),
    ensures
        !score_gt(c, a),
{
    let (an, ad, bn, bd, cn, cd) = (a.num as int, a.den as int, b.num as int, b.den as int, c.num as int, c.den as int);
    assert(cn * ad <= an * cd) by (nonlinear_arith)
        requires
            bn * ad <= an * bd,
            cn * bd <= bn * cd,
            ad > 0, bd > 0, cd > 0, an >= 0, bn >= 0, cn >= 0,
    {
        assert(cn * bd * ad <= bn * cd * ad);
        assert(bn * ad * cd <= an * bd * cd);
    }
}

fn copy_ids(v: &Vec<NodeId>) -> (r: Vec<NodeId>)
    ensures
        r@ == v@,
{
    let mut r: Vec<NodeId> = Vec::new();
    let mut i: usize = 0;
    while i < v.len()
        invariant
            i <= v.len(),
            r@ == v@.subrange(0, i as int),
        decreases v.len() - i,
    {
        r.push(v[i]);
        i = i + 1;
    }
    assert(r@ =~= v@);
    r
}

fn copy_candidate(c: &Candidate) -> (r: Candidate)
    ensures
        r.core_ids@ == c.core_ids@,
        r.non_core_ids@ == c.non_core_ids@,
        r.score == c.score,
{
    Candidate { core_ids: copy_ids(&c.core_ids), non_core_ids: copy_ids(&c.non_core_ids), score: c.score }
}

/// Whether the two id lists hold the same ids.
fn same_ids(a: &Vec<NodeId>, b: &Vec<NodeId>) -> (r: bool)
    ensures
        r == (a@.to_set() == b@.to_set()),
{
    let mut i: usize = 0;
    while i < a.len()
        invariant
            i <= a.len(),
            forall|j: int| 0 <= j < i ==> b@.contains(#[trigger] a[j]),
        decreases a.len() - i,
    {
        if !contains_id(b, a[i]) {
            assert(a@.to_set().contains(a[i as int]));
            return false;
        }
        i = i + 1;
    }
    let mut i: usize = 0;
    while i < b.len()
        invariant
            i <= b.len(),
            forall|j: int| 0 <= j < i ==> a@.contains(#[trigger] b[j]),
        decreases b.len() - i,
    {
        if !contains_id(a, b[i]) {
            assert(b@.to_set().contains(b[i as int]));
            return false;
        }
        i = i + 1;
    }
    assert forall|x: NodeId| a@.to_set().contains(x) <==> b@.to_set().contains(x) by {
        if a@.contains(x) {
            let j = choose|j: int| 0 <= j < a.len() && a[j] == x;
            assert(b@.contains(a[j]));
        }
        if b@.contains(x) {
            let j = choose|j: int| 0 <= j < b.len() && b[j] == x;
            assert(a@.contains(b[j]));
        }
    }
    assert(a@.to_set() =~= b@.to_set());
    true
}

/// Whether `g` holds an edge from core node `c` to non-core node `n`.
pub fn has_edge(g: &Graph, c: NodeId, n: NodeId) -> (r: bool)
    ensures
        r == linked(*g, c, n),
{
    let mut j: usize = 0;
    while j < g.edges.len()
        invariant
            j <= g.edges.len(),
            forall|i: int| 0 <= i < j ==> !((#[trigger] g.edges[i]).core_id == c && g.edges[i].non_core_id == n),
        decreases g.edges.len() - j,
    {
        if g.edges[j].core_id == c && g.edges[j].non_core_id == n {
            return true;
        }
        j = j + 1;
    }
    false
}

/// The candidate with core node `x` added; non-core members without an
/// edge to `x` leave it.
fn expand_core(g: &Graph, reg: &TypeRegistry, w: &Weights, cand: &Candidate, x: NodeId) -> (r: Option<Candidate>)
    requires
        g.wf(),
        cand.wf(*g, *reg, *w),
        is_core_id(*g, x),
        !cand.core_ids@.contains(x),
    ensures
        r matches Some(c) ==> c.wf(*g, *reg, *w) && c.core_ids@ == cand.core_ids@.push(x)
            && c.non_core_ids.len() <= cand.non_core_ids.len()
            && c.non_core_ids@ == linked_to(*g, x, cand.non_core_ids@),
        r is Some <==> score_fits(*g, *reg, *w, cand.core_ids@.push(x), linked_to(*g, x, cand.non_core_ids@)),
{
    let mut core = copy_ids(&cand.core_ids);
    core.push(x);
    let mut non_core: Vec<NodeId> = Vec::new();
    let mut i: usize = 0;
    while i < cand.non_core_ids.len()
        invariant
            i <= cand.non_core_ids.len(),
            cand.wf(*g, *reg, *w),
            core@ == cand.core_ids@.push(x),
            non_core@.no_duplicates(),
            non_core.len() <= i,
            non_core@ == linked_to(*g, x, cand.non_core_ids@.subrange(0, i as int)),
            forall|m: int| 0 <= m < non_core.len() ==> is_non_core_id(*g, #[trigger] non_core[m]),
            forall|m: int| 0 <= m < non_core.len() ==> linked(*g, x, #[trigger] non_core[m]),
            forall|m: int| 0 <= m < non_core.len() ==> exists|q: int| 0 <= q < i && cand.non_core_ids[q] == #[trigger] non_core[m],
        decreases cand.non_core_ids.len() - i,
    {
        let y = cand.non_core_ids[i];
        assert(cand.non_core_ids@.subrange(0, i as int + 1).drop_last() =~= cand.non_core_ids@.subrange(0, i as int));
        if has_edge(g, x, y) {
            let ghost before = non_core@;
            non_core.push(y);
            assert forall|a: int, b: int| 0 <= a < b < non_core.len() implies non_core[a] != non_core[b] by {
                if b == non_core.len() - 1 {
                    let q = choose|q: int| 0 <= q < i && cand.non_core_ids[q] == before[a];
                    assert(cand.non_core_ids[q] != cand.non_core_ids[i as int]);
                } else {
                    assert(before[a] == non_core[a] && before[b] == non_core[b]);
                }
            }
            assert forall|m: int| 0 <= m < non_core.len() implies exists|q: int| 0 <= q < i + 1 && cand.non_core_ids[q] == #[trigger] non_core[m] by {
                if m < before.len() {
                    assert(before[m] == non_core[m]);
                    let q = choose|q: int| 0 <= q < i && cand.non_core_ids[q] == before[m];
                } else {
                    assert(cand.non_core_ids[i as int] == non_core[m]);
                }
            }
        }
        i = i + 1;
    }
    assert(cand.non_core_ids@.subrange(0, i as int) =~= cand.non_core_ids@);
    match score_members(g, reg, w, &core, &non_core) {
        None => None,
        Some(score) => {
            let c = Candidate { core_ids: core, non_core_ids: non_core, score };
            assert forall|a: int, b: int| 0 <= a < b < c.core_ids.len() implies c.core_ids[a] != c.core_ids[b] by {
                if b == c.core_ids.len() - 1 {
                    assert(cand.core_ids@.contains(cand.core_ids[a]));
                } else {
                    assert(cand.core_ids[a] != cand.core_ids[b]);
                }
            }
            assert forall|m: int| 0 <= m < c.core_ids.len() implies is_core_id(*g, #[trigger] c.core_ids[m]) by {
                if m < cand.core_ids.len() {
                    assert(c.core_ids[m] == cand.core_ids[m]);
                }
            }
            assert forall|m: int, k: int| 0 <= m < c.non_core_ids.len() && 0 <= k < c.core_ids.len()
                implies linked(*g, #[trigger] c.core_ids[k], #[trigger] c.non_core_ids[m]) by {
                let q = choose|q: int| 0 <= q < cand.non_core_ids.len() && cand.non_core_ids[q] == c.non_core_ids[m];
                if k < cand.core_ids.len() {
                    assert(c.core_ids[k] == cand.core_ids[k]);
                    assert(linked(*g, cand.core_ids[k], cand.non_core_ids[q]));
                }
            }
            Some(c)
        },
    }
}

/// The candidate with non-core node `x` added.
fn expand_non_core(g: &Graph, reg: &TypeRegistry, w: &Weights, cand: &Candidate, x: NodeId) -> (r: Option<Candidate>)
    requires
        g.wf(),
        cand.wf(*g, *reg, *w),
        is_non_core_id(*g, x),
        !cand.non_core_ids@.contains(x),
        forall|k: int| 0 <= k < cand.core_ids.len() ==> linked(*g, #[trigger] cand.core_ids[k], x),
    ensures
        r matches Some(c) ==> c.wf(*g, *reg, *w) && c.core_ids@ == cand.core_ids@
            && c.non_core_ids@ == cand.non_core_ids@.push(x),
        r is Some <==> score_fits(*g, *reg, *w, cand.core_ids@, cand.non_core_ids@.push(x)),
{
    let core = copy_ids(&cand.core_ids);
    let mut non_core = copy_ids(&cand.non_core_ids);
    non_core.push(x);
    match score_members(g, reg, w, &core, &non_core) {
        None => None,
        Some(score) => {
            let c = Candidate { core_ids: core, non_core_ids: non_core, score };
            assert forall|a: int, b: int| 0 <= a < b < c.non_core_ids.len() implies c.non_core_ids[a] != c.non_core_ids[b] by {
                if b == c.non_core_ids.len() - 1 {
                    assert(cand.non_core_ids@.contains(cand.non_core_ids[a]));
                } else {
                    assert(cand.non_core_ids[a] != cand.non_core_ids[b]);
                }
            }
            assert forall|m: int| 0 <= m < c.non_core_ids.len() implies is_non_core_id(*g, #[trigger] c.non_core_ids[m]) by {
                if m < cand.non_core_ids.len() {
                    assert(c.non_core_ids[m] == cand.non_core_ids[m]);
                }
            }
            assert forall|m: int, k: int| 0 <= m < c.non_core_ids.len() && 0 <= k < c.core_ids.len()
                implies linked(*g, #[trigger] c.core_ids[k], #[trigger] c.non_core_ids[m]) by {
                if m < cand.non_core_ids.len() {
                    assert(c.non_core_ids[m] == cand.non_core_ids[m]);
                    assert(linked(*g, cand.core_ids[k], cand.non_core_ids[m]));
                }
            }
            Some(c)
        },
    }
}

/// Whether core node `x` shares a non-core neighbour with a core member.
fn shares_neighbour(g: &Graph, cand: &Candidate, x: NodeId) -> (r: bool)
    ensures
        r == shares(*g, *cand, x),
{
    let mut a: usize = 0;
    while a < g.edges.len()
        invariant
            a <= g.edges.len(),
            forall|p: int, b: int| 0 <= p < a && 0 <= b < g.edges.len() ==> !((#[trigger] g.edges[p]).core_id == x
                && cand.core_ids@.contains((#[trigger] g.edges[b]).core_id) && g.edges[p].non_core_id == g.edges[b].non_core_id),
        decreases g.edges.len() - a,
    {
        if g.edges[a].core_id == x {
            let y = g.edges[a].non_core_id;
            let mut b: usize = 0;
            while b < g.edges.len()
                invariant
                    a < g.edges.len(),
                    b <= g.edges.len(),
                    y == g.edges[a as int].non_core_id,
                    g.edges[a as int].core_id == x,
                    forall|q: int| 0 <= q < b ==> !(cand.core_ids@.contains((#[trigger] g.edges[q]).core_id) && g.edges[q].non_core_id == y),
                decreases g.edges.len() - b,
            {
                if g.edges[b].non_core_id == y && contains_id(&cand.core_ids, g.edges[b].core_id) {
                    assert(g.edges[a as int].core_id == x && cand.core_ids@.contains(g.edges[b as int].core_id)
                        && g.edges[a as int].non_core_id == g.edges[b as int].non_core_id);
                    return true;
                }
                b = b + 1;
            }
        }
        a = a + 1;
    }
    false
}

/// Whether non-core node `x` has an edge to every core member.
fn joins_all_core(g: &Graph, cand: &Candidate, x: NodeId) -> (r: bool)
    ensures
        r == forall|k: int| 0 <= k < cand.core_ids.len() ==> linked(*g, #[trigger] cand.core_ids[k], x),
{
    let mut k: usize = 0;
    while k < cand.core_ids.len()
        invariant
            k <= cand.core_ids.len(),
            forall|q: int| 0 <= q < k ==> linked(*g, #[trigger] cand.core_ids[q], x),
        decreases cand.core_ids.len() - k,
    {
        if !has_edge(g, cand.core_ids[k], x) {
            return false;
        }
        k = k + 1;
    }
    true
}

/// Appends to `pool` every one-node expansion of `cand`: each core node not
/// in it that shares a non-core neighbour with a core member, and each
/// non-core node not in it with an edge to every core member.
fn push_expansions(g: &Graph, reg: &TypeRegistry, w: &Weights, cand: &Candidate, pool: &mut Vec<Candidate>, bound: Ghost<int>)
    requires
        g.wf(),
        cand.wf(*g, *reg, *w),
        all_wf(old(pool)@, *g, *reg, *w),
        size(*cand) <= bound@,
        sizes_within(old(pool)@, bound@ + 1),
    ensures
        all_wf(final(pool)@, *g, *reg, *w),
        final(pool)@.subrange(0, old(pool)@.len() as int) == old(pool)@,
        final(pool)@.len() >= old(pool)@.len(),
        sizes_within(final(pool)@, bound@ + 1),
        forall|q: int| old(pool)@.len() <= q < final(pool)@.len() ==> grows(*cand, #[trigger] final(pool)@[q]),
        forall|j: int| 0 <= j < g.nodes.len() && eligible(*g, *cand, #[trigger] g.nodes[j])
            && score_fits(*g, *reg, *w, grown_core(*cand, g.nodes[j]), grown_non_core(*g, *cand, g.nodes[j]))
            ==> has_growth(*g, final(pool)@, old(pool)@.len() as int, *cand, g.nodes[j]),
{
    let ghost start = pool@;
    let mut j: usize = 0;
    while j < g.nodes.len()
        invariant
            g.wf(),
            cand.wf(*g, *reg, *w),
            j <= g.nodes.len(),
            all_wf(pool@, *g, *reg, *w),
            size(*cand) <= bound@,
            sizes_within(pool@, bound@ + 1),
            forall|q: int| start.len() <= q < pool@.len() ==> grows(*cand, #[trigger] pool@[q]),
            forall|k: int| 0 <= k < j && eligible(*g, *cand, #[trigger] g.nodes[k])
                && score_fits(*g, *reg, *w, grown_core(*cand, g.nodes[k]), grown_non_core(*g, *cand, g.nodes[k]))
                ==> has_growth(*g, pool@, start.len() as int, *cand, g.nodes[k]),
            pool@.len() >= start.len(),
            pool@.subrange(0, start.len() as int) == start,
        decreases g.nodes.len() - j,
    {
        let node = g.nodes[j];
        let x = node.id;
        let mut grown: Option<Candidate> = None;
        if node.is_core {
            if !contains_id(&cand.core_ids, x) && shares_neighbour(g, cand, x) {
                assert(is_core_id(*g, g.nodes[j as int].id));
                grown = expand_core(g, reg, w, cand, x);
            }
        } else {
            if !contains_id(&cand.non_core_ids, x) && joins_all_core(g, cand, x) {
                assert(is_non_core_id(*g, g.nodes[j as int].id));
                grown = expand_non_core(g, reg, w, cand, x);
            }
        }
        let ghost before = pool@;
        assert(eligible(*g, *cand, node) && score_fits(*g, *reg, *w, grown_core(*cand, node), grown_non_core(*g, *cand, node))
            ==> grown is Some);
        match grown {
            Some(c) => {
                pool.push(c);
                assert(pool@.subrange(0, start.len() as int) =~= before.subrange(0, start.len() as int));
                assert forall|i: int| 0 <= i < pool@.len() implies (#[trigger] pool@[i]).wf(*g, *reg, *w)
                    && size(pool@[i]) <= bound@ + 1 && (i >= start.len() ==> grows(*cand, pool@[i])) by {
                    if i < before.len() {
                        assert(pool@[i] == before[i]);
                    } else {
                        if node.is_core {
                            assert(pool@[i].core_ids@ == cand.core_ids@.push(x));
                        } else {
                            assert(pool@[i].non_core_ids@ == cand.non_core_ids@.push(x));
                        }
                    }
                }
            },
            None => {},
        }
        assert forall|k: int| 0 <= k < j + 1 && eligible(*g, *cand, #[trigger] g.nodes[k])
            && score_fits(*g, *reg, *w, grown_core(*cand, g.nodes[k]), grown_non_core(*g, *cand, g.nodes[k]))
            implies has_growth(*g, pool@, start.len() as int, *cand, g.nodes[k]) by {
            if k < j {
                let q = choose|q: int| start.len() <= q < before.len() && (#[trigger] before[q]).core_ids@ == grown_core(*cand, g.nodes[k])
                    && before[q].non_core_ids@ == grown_non_core(*g, *cand, g.nodes[k]);
                assert(pool@[q] == before[q]);
            } else {
                let q = before.len() as int;
                assert(pool@[q].core_ids@ == grown_core(*cand, g.nodes[k]));
            }
        }
        j = j + 1;
    }
}

/// `p` is `c` grown by one node: a core node appended to its core ids, or a
/// non-core node appended to its non-core ids.
pub open spec fn grows(c: Candidate, p: Candidate) -> bool {
    (exists|x: NodeId| p.core_ids@ == #[trigger] c.core_ids@.push(x))
    || (p.core_ids@ == c.core_ids@ && exists|x: NodeId| p.non_core_ids@ == #[trigger] c.non_core_ids@.push(x))
}

/// `pool` holds the members of `beam`, in order, followed by candidates each
/// grown by one node from a member of `beam`.
pub open spec fn round_pool(beam: Seq<Candidate>, pool: Seq<Candidate>) -> bool {
    &&& pool.len() >= beam.len()
    &&& forall|i: int| 0 <= i < beam.len() ==> same_members(#[trigger] pool[i], beam[i])
    &&& forall|q: int| beam.len() <= q < pool.len() ==> exists|i: int| 0 <= i < beam.len() && grows(beam[i], #[trigger] pool[q])
}

/// The members of `non_core` with an edge from core node `x`, in order.
pub open spec fn linked_to(g: Graph, x: NodeId, non_core: Seq<NodeId>) -> Seq<NodeId>
    decreases non_core.len(),
{
    if non_core.len() == 0 {
        non_core
    } else {
        let rest = linked_to(g, x, non_core.drop_last());
        if linked(g, x, non_core.last()) { rest.push(non_core.last()) } else { rest }
    }
}

/// Whether core node `x` shares a non-core neighbour with a core member of `c`.
pub open spec fn shares(g: Graph, c: Candidate, x: NodeId) -> bool {
    exists|a: int, b: int| 0 <= a < g.edges.len() && 0 <= b < g.edges.len()
        && (#[trigger] g.edges[a]).core_id == x && c.core_ids@.contains((#[trigger] g.edges[b]).core_id)
        && g.edges[a].non_core_id == g.edges[b].non_core_id
}

/// Whether `node` may join `c`: a core node not in it that shares a non-core
/// neighbour with a core member, or a non-core node not in it with an edge
/// to every core member.
pub open spec fn eligible(g: Graph, c: Candidate, node: Node) -> bool {
    if node.is_core {
        !c.core_ids@.contains(node.id) && shares(g, c, node.id)
    } else {
        !c.non_core_ids@.contains(node.id) && forall|k: int| 0 <= k < c.core_ids.len() ==> linked(g, #[trigger] c.core_ids[k], node.id)
    }
}

/// The core ids of `c` once `node` has joined.
pub open spec fn grown_core(c: Candidate, node: Node) -> Seq<NodeId> {
    if node.is_core { c.core_ids@.push(node.id) } else { c.core_ids@ }
}

/// The non-core ids of `c` once `node` has joined: a new core node keeps
/// only the non-core members it has an edge to.
pub open spec fn grown_non_core(g: Graph, c: Candidate, node: Node) -> Seq<NodeId> {
    if node.is_core { linked_to(g, node.id, c.non_core_ids@) } else { c.non_core_ids@.push(node.id) }
}

/// Every node of `g` that may join a member of `beam`, and whose score fits,
/// has its grown candidate in `pool`.
pub open spec fn complete(g: Graph, reg: TypeRegistry, w: Weights, beam: Seq<Candidate>, pool: Seq<Candidate>) -> bool {
    forall|i: int, j: int| 0 <= i < beam.len() && 0 <= j < g.nodes.len()
        && eligible(g, #[trigger] beam[i], #[trigger] g.nodes[j])
        && score_fits(g, reg, w, grown_core(beam[i], g.nodes[j]), grown_non_core(g, beam[i], g.nodes[j]))
        ==> exists|q: int| 0 <= q < pool.len() && (#[trigger] pool[q]).core_ids@ == grown_core(beam[i], g.nodes[j])
            && pool[q].non_core_ids@ == grown_non_core(g, beam[i], g.nodes[j])
}

/// `next` is what one expansion round gives for `beam` at `width`: the
/// selection from a pool of the members of `beam` and candidates each grown
/// by one node from one of them, a pool that holds every growth whose score fits.
#[verifier::opaque]
pub open spec fn round_result(g: Graph, reg: TypeRegistry, w: Weights, beam: Seq<Candidate>, width: int, next: Seq<Candidate>) -> bool {
    exists|pool: Seq<Candidate>| round_pool(beam, pool) && complete(g, reg, w, beam, pool) && #[trigger] selected(pool, width, next)
}

/// Every member of `beam` has at least one core node.
pub open spec fn cores_nonempty(beam: Seq<Candidate>) -> bool {
    forall|i: int| 0 <= i < beam.len() ==> (#[trigger] beam[i]).core_ids.len() > 0
}

/// `pool`, from position `start` on, holds the candidate `c` grows into when `node` joins.
pub open spec fn has_growth(g: Graph, pool: Seq<Candidate>, start: int, c: Candidate, node: Node) -> bool {
    exists|q: int| start <= q < pool.len() && (#[trigger] pool[q]).core_ids@ == grown_core(c, node)
        && pool[q].non_core_ids@ == grown_non_core(g, c, node)
}

/// `a` and `b` have the same core-id set.
pub open spec fn same_core(a: Candidate, b: Candidate) -> bool {
    a.core_ids@.to_set() == b.core_ids@.to_set()
}

/// `a` and `b` have the same members, in the same order, and the same score.
pub open spec fn same_members(a: Candidate, b: Candidate) -> bool {
    a.core_ids@ == b.core_ids@ && a.non_core_ids@ == b.non_core_ids@ && a.score == b.score
}

/// `next` is the top `width` of `pool` by score, highest first, keeping the
/// first (best) candidate of each core-id set: every candidate left out is
/// matched by a kept one with its core-id set and no lower score, or else
/// `width` candidates were kept, none scoring below it.
pub open spec fn selected(pool: Seq<Candidate>, width: int, next: Seq<Candidate>) -> bool {
    &&& next.len() <= width
    &&& forall|k: int| 0 <= k < next.len() ==> drawn_from(pool, #[trigger] next[k])
    &&& forall|i: int, j: int| 0 <= i < j < next.len() ==> !score_gt((#[trigger] next[j]).score, (#[trigger] next[i]).score)
    &&& forall|i: int, j: int| 0 <= i < j < next.len() ==> !same_core(#[trigger] next[i], #[trigger] next[j])
    &&& forall|p: int| 0 <= p < pool.len() ==> left_out_ok(pool[p], width, next)
}

/// `c` has the members and score of some candidate of `pool`.
pub open spec fn drawn_from(pool: Seq<Candidate>, c: Candidate) -> bool {
    exists|p: int| 0 <= p < pool.len() && same_members(#[trigger] pool[p], c)
}

/// Some kept candidate has the core-id set of `c` and no lower score.
pub open spec fn represented(c: Candidate, next: Seq<Candidate>) -> bool {
    exists|k: int| 0 <= k < next.len() && same_core(c, #[trigger] next[k]) && !score_gt(c.score, next[k].score)
}

/// Why `c` may be missing from `next` (see `selected`).
pub open spec fn left_out_ok(c: Candidate, width: int, next: Seq<Candidate>) -> bool {
    represented(c, next) || (next.len() == width && forall|k: int| 0 <= k < next.len() ==> !score_gt(c.score, (#[trigger] next[k]).score))
}

pub open spec fn count_used(s: Seq<bool>) -> nat
    decreases s.len(),
{
    if s.len() == 0 {
        0
    } else {
        count_used(s.drop_last()) + if s.last() { 1nat } else { 0nat }
    }
}

proof fn lemma_count_used(s: Seq<bool>, b: int)
    requires
        0 <= b < s.len(),
        !s[b],
    ensures
        count_used(s.update(b, true)) == count_used(s) + 1,
        count_used(s) < s.len(),
    decreases s.len(),
{
    let t = s.update(b, true);
    if b == s.len() - 1 {
        assert(t.drop_last() =~= s.drop_last());
        lemma_count_le(s.drop_last());
    } else {
        lemma_count_used(s.drop_last(), b);
        assert(t.drop_last() =~= s.drop_last().update(b, true));
    }
}

proof fn lemma_count_le(s: Seq<bool>)
    ensures
        count_used(s) <= s.len(),
    decreases s.len(),
{
    if s.len() > 0 {
        lemma_count_le(s.drop_last());
    }
}

/// Whether a candidate with the core-id set of `c` is in `chosen`.
fn is_duplicate(chosen: &Vec<Candidate>, c: &Candidate) -> (r: bool)
    ensures
        r == exists|k: int| 0 <= k < chosen.len() && same_core(#[trigger] chosen[k], *c),
{
    let mut k: usize = 0;
    while k < chosen.len()
        invariant
            k <= chosen.len(),
            forall|q: int| 0 <= q < k ==> !same_core(#[trigger] chosen[q], *c),
        decreases chosen.len() - k,
    {
        if same_ids(&chosen[k].core_ids, &c.core_ids) {
            assert(same_core(chosen[k as int], *c));
            return true;
        }
        k = k + 1;
    }
    false
}

/// The first unused candidate of the highest score among the unused ones.
fn best_unused(pool: &Vec<Candidate>, used: &Vec<bool>, g: Ghost<Graph>, reg: Ghost<TypeRegistry>, w: Ghost<Weights>) -> (best: Option<usize>)
    requires
        all_wf(pool@, g@, reg@, w@),
        used.len() == pool.len(),
    ensures
        match best {
            Some(b) => b < pool.len() && !used[b as int] && forall|p: int| 0 <= p < pool.len() && !used[p]
                ==> !score_gt((#[trigger] pool@[p]).score, pool@[b as int].score),
            None => forall|p: int| 0 <= p < pool.len() ==> used[p],
        },
{
    let mut best: Option<usize> = None;
    let mut q: usize = 0;
    while q < pool.len()
        invariant
            all_wf(pool@, g@, reg@, w@),
            used.len() == pool.len(),
            q <= pool.len(),
            match best {
                Some(b) => b < pool.len() && !used[b as int] && forall|p: int| 0 <= p < q && !used[p]
                    ==> !score_gt((#[trigger] pool@[p]).score, pool@[b as int].score),
                None => forall|p: int| 0 <= p < q ==> used[p],
            },
        decreases pool.len() - q,
    {
        if !used[q] {
            match best {
                None => {
                    best = Some(q);
                },
                Some(b) => {
                    if better(&pool[q].score, &pool[b].score) {
                        proof {
                            assert forall|p: int| 0 <= p < q + 1 && !used[p] implies !score_gt(
                                (#[trigger] pool@[p]).score, pool@[q as int].score) by {
                                assert(pool@[p].wf(g@, reg@, w@));
                                assert(pool@[b as int].wf(g@, reg@, w@));
                                assert(pool@[q as int].wf(g@, reg@, w@));
                                if p < q {
                                    let (an, ad, bn, bd) = (pool@[q as int].score.num as int, pool@[q as int].score.den as int,
                                        pool@[b as int].score.num as int, pool@[b as int].score.den as int);
                                    assert(bn * ad <= an * bd) by (nonlinear_arith)
                                        requires an * bd > bn * ad;
                                    lemma_score_ge_trans(pool@[q as int].score, pool@[b as int].score, pool@[p].score);
                                }
                            }
                        }
                        best = Some(q);
                    }
                },
            }
        }
        q = q + 1;
    }
    best
}

/// The selection of `pool` at `width` described by `selected`.
fn select_top(
    pool: &Vec<Candidate>,
    width: usize,
    g: Ghost<Graph>,
    reg: Ghost<TypeRegistry>,
    w: Ghost<Weights>,
    bound: Ghost<int>,
) -> (r: Vec<Candidate>)
    requires
        all_wf(pool@, g@, reg@, w@),
        sizes_within(pool@, bound@),
    ensures
        all_wf(r@, g@, reg@, w@),
        sizes_within(r@, bound@),
        selected(pool@, width as int, r@),
{
    let mut used: Vec<bool> = Vec::new();
    let mut i: usize = 0;
    while i < pool.len()
        invariant
            i <= pool.len(),
            used.len() == i,
            count_used(used@) == 0,
            forall|q: int| 0 <= q < i ==> !used[q],
        decreases pool.len() - i,
    {
        let ghost u0 = used@;
        used.push(false);
        assert(used@.drop_last() =~= u0);
        i = i + 1;
    }
    let mut chosen: Vec<Candidate> = Vec::new();
    let mut tries: usize = 0;
    while chosen.len() < width
        invariant
            all_wf(pool@, g@, reg@, w@),
            all_wf(chosen@, g@, reg@, w@),
            sizes_within(pool@, bound@),
            sizes_within(chosen@, bound@),
            used.len() == pool.len(),
            chosen.len() <= width,
            tries == count_used(used@),
            tries <= pool.len(),
            forall|k: int| 0 <= k < chosen.len() ==> drawn_from(pool@, #[trigger] chosen@[k]),
            forall|a: int, b: int| 0 <= a < b < chosen.len() ==> !score_gt((#[trigger] chosen@[b]).score, (#[trigger] chosen@[a]).score),
            forall|a: int, b: int| 0 <= a < b < chosen.len() ==> !same_core(#[trigger] chosen@[a], #[trigger] chosen@[b]),
            forall|p: int| 0 <= p < pool.len() && !used[p] ==> forall|k: int| 0 <= k < chosen.len()
                ==> !score_gt((#[trigger] pool@[p]).score, (#[trigger] chosen@[k]).score),
            forall|p: int| 0 <= p < pool.len() && used[p] ==> represented(#[trigger] pool@[p], chosen@),
        ensures
            all_wf(chosen@, g@, reg@, w@),
            sizes_within(chosen@, bound@),
            chosen.len() <= width,
            forall|k: int| 0 <= k < chosen.len() ==> drawn_from(pool@, #[trigger] chosen@[k]),
            forall|a: int, b: int| 0 <= a < b < chosen.len() ==> !score_gt((#[trigger] chosen@[b]).score, (#[trigger] chosen@[a]).score),
            forall|a: int, b: int| 0 <= a < b < chosen.len() ==> !same_core(#[trigger] chosen@[a], #[trigger] chosen@[b]),
            forall|p: int| 0 <= p < pool.len() && !used[p] ==> chosen.len() == width,
            forall|p: int| 0 <= p < pool.len() && used[p] ==> represented(#[trigger] pool@[p], chosen@),
            used.len() == pool.len(),
            forall|p: int| 0 <= p < pool.len() && !used[p] ==> forall|k: int| 0 <= k < chosen.len()
                ==> !score_gt((#[trigger] pool@[p]).score, (#[trigger] chosen@[k]).score),
        decreases pool.len() - tries,
    {
        let best = best_unused(pool, &used, g, reg, w);
        match best {
            None => {
                break;
            },
            Some(b) => {
                let ghost u0 = used@;
                proof {
                    lemma_count_used(u0, b as int);
                }
                used.set(b, true);
                assert(used@ == u0.update(b as int, true));
                if !is_duplicate(&chosen, &pool[b]) {
                    let c = copy_candidate(&pool[b]);
                    assert(pool@[b as int].wf(g@, reg@, w@));
                    let ghost before = chosen@;
                    chosen.push(c);
                    assert forall|p: int| 0 <= p < chosen.len() implies (#[trigger] chosen@[p]).wf(g@, reg@, w@)
                        && size(chosen@[p]) <= bound@ by {
                        if p < before.len() {
                            assert(chosen@[p] == before[p]);
                        }
                    }
                    assert forall|k: int| 0 <= k < chosen.len() implies drawn_from(pool@, #[trigger] chosen@[k]) by {
                        if k < before.len() {
                            assert(chosen@[k] == before[k]);
                        } else {
                            assert(same_members(pool@[b as int], chosen@[k]));
                        }
                    }
                    assert forall|a: int, d: int| 0 <= a < d < chosen.len() implies !score_gt(
                        (#[trigger] chosen@[d]).score, (#[trigger] chosen@[a]).score) && !same_core(chosen@[a], chosen@[d]) by {
                        assert(chosen@[a] == before[a]);
                        if d < before.len() {
                            assert(chosen@[d] == before[d]);
                        } else {
                            assert(!u0[b as int]);
                            assert(!score_gt(pool@[b as int].score, before[a].score));
                            assert(!same_core(before[a], pool@[b as int]));
                            assert(same_core(pool@[b as int], c));
                        }
                    }
                    assert forall|p: int| 0 <= p < pool.len() && !used[p] implies forall|k: int| 0 <= k < chosen.len()
                        ==> !score_gt((#[trigger] pool@[p]).score, (#[trigger] chosen@[k]).score) by {
                        assert(!u0[p]);
                        assert forall|k: int| 0 <= k < chosen.len() implies !score_gt((#[trigger] pool@[p]).score, (#[trigger] chosen@[k]).score) by {
                            if k < before.len() {
                                assert(chosen@[k] == before[k]);
                            } else {
                                assert(!score_gt(pool@[p].score, pool@[b as int].score));
                            }
                        }
                    }
                    assert forall|p: int| 0 <= p < pool.len() && used[p] implies represented(#[trigger] pool@[p], chosen@) by {
                        if p == b {
                            let k = before.len() as int;
                            assert(same_core(pool@[p], chosen@[k]));
                            assert(!score_gt(pool@[p].score, chosen@[k].score));
                        } else {
                            assert(u0[p]);
                            assert(represented(pool@[p], before));
                            let k = choose|k: int| 0 <= k < before.len() && same_core(pool@[p], #[trigger] before[k])
                                && !score_gt(pool@[p].score, before[k].score);
                            assert(chosen@[k] == before[k]);
                        }
                    }
                } else {
                    assert forall|p: int| 0 <= p < pool.len() && used[p] implies represented(#[trigger] pool@[p], chosen@) by {
                        if p == b {
                            let k = choose|k: int| 0 <= k < chosen.len() && same_core(#[trigger] chosen@[k], pool@[b as int]);
                            assert(!u0[b as int]);
                            assert(!score_gt(pool@[b as int].score, chosen@[k].score));
                            assert(same_core(pool@[p], chosen@[k]));
                        } else {
                            assert(u0[p]);
                            assert(represented(pool@[p], chosen@));
                        }
                    }
                }
                tries = tries + 1;
            },
        }
    }
    proof {
        assert forall|p: int| 0 <= p < pool.len() implies left_out_ok(pool@[p], width as int, chosen@) by {
            if used[p] {
                assert(represented(pool@[p], chosen@));
            } else {
                assert(chosen.len() == width);
            }
        }
    }
    chosen
}

/// One expansion round: the next beam is the top `width` of the current
/// members and all their one-node expansions, with no two of the same members.
pub fn step(g: &Graph, reg: &TypeRegistry, w: &Weights, beam: &Vec<Candidate>, width: usize) -> (next: Vec<Candidate>)
    requires
        g.wf(),
        all_wf(beam@, *g, *reg, *w),
    ensures
        all_wf(next@, *g, *reg, *w),
        forall|bound: int| sizes_within(beam@, bound) ==> #[trigger] sizes_within(next@, bound + 1),
        next.len() <= width,
        width > 0 ==> keeps_best(beam@, next@),
        width > 0 && beam.len() > 0 ==> next.len() > 0,
        round_result(*g, *reg, *w, beam@, width as int, next@),
        cores_nonempty(beam@) ==> cores_nonempty(next@),
{
    let mut pool: Vec<Candidate> = Vec::new();
    let mut i: usize = 0;
    while i < beam.len()
        invariant
            i <= beam.len(),
            all_wf(beam@, *g, *reg, *w),
            pool.len() == i,
            forall|q: int| 0 <= q < i ==> (#[trigger] pool@[q]).score == beam@[q].score && pool@[q].wf(*g, *reg, *w)
                && size(pool@[q]) == size(beam@[q]) && same_members(pool@[q], beam@[q]),
        decreases beam.len() - i,
    {
        let c = copy_candidate(&beam[i]);
        assert(beam@[i as int].wf(*g, *reg, *w));
        let ghost before = pool@;
        pool.push(c);
        assert forall|q: int| 0 <= q < i + 1 implies (#[trigger] pool@[q]).score == beam@[q].score && pool@[q].wf(*g, *reg, *w)
            && size(pool@[q]) == size(beam@[q]) && same_members(pool@[q], beam@[q]) by {
            if q < i {
                assert(pool@[q] == before[q]);
            }
        }
        i = i + 1;
    }
    let ghost top_size = max_size(beam@);
    proof {
        lemma_max_size(beam@, 0);
        assert forall|q: int| 0 <= q < pool.len() implies size(#[trigger] pool@[q]) <= top_size + 1 by {
            assert(beam@[q].wf(*g, *reg, *w));
            assert(size(beam@[q]) <= top_size);
        }
    }
    let ghost copies = pool@;
    let mut i: usize = 0;
    while i < beam.len()
        invariant
            i <= beam.len(),
            g.wf(),
            all_wf(beam@, *g, *reg, *w),
            all_wf(pool@, *g, *reg, *w),
            copies.len() == beam.len(),
            beam.len() == 0 ==> pool.len() == 0,
            top_size == max_size(beam@),
            sizes_within(beam@, top_size),
            sizes_within(pool@, top_size + 1),
            pool@.len() >= copies.len(),
            pool@.subrange(0, copies.len() as int) == copies,
            forall|q: int| 0 <= q < beam.len() ==> (#[trigger] copies[q]).score == beam@[q].score
                && same_members(copies[q], beam@[q]),
            i <= beam.len(),
            forall|q: int| copies.len() <= q < pool@.len() ==> exists|k: int| 0 <= k < i && grows(beam@[k], #[trigger] pool@[q]),
            forall|k: int, j: int| 0 <= k < i && 0 <= j < g.nodes.len() && eligible(*g, #[trigger] beam@[k], #[trigger] g.nodes[j])
                && score_fits(*g, *reg, *w, grown_core(beam@[k], g.nodes[j]), grown_non_core(*g, beam@[k], g.nodes[j]))
                ==> has_growth(*g, pool@, 0, beam@[k], g.nodes[j]),
        decreases beam.len() - i,
    {
        assert(beam@[i as int].wf(*g, *reg, *w));
        let ghost before = pool@;
        assert(size(beam@[i as int]) <= top_size);
        push_expansions(g, reg, w, &beam[i], &mut pool, Ghost(top_size));
        assert(pool@.subrange(0, copies.len() as int) =~= before.subrange(0, copies.len() as int)) by {
            assert forall|q: int| 0 <= q < copies.len() implies pool@[q] == before[q] by {
                assert(pool@.subrange(0, before.len() as int)[q] == before[q]);
            }
        }
        assert forall|q: int| copies.len() <= q < pool@.len() implies exists|k: int| 0 <= k < i + 1
            && grows(beam@[k], #[trigger] pool@[q]) by {
            if q < before.len() {
                assert(pool@.subrange(0, before.len() as int)[q] == before[q]);
                let k = choose|k: int| 0 <= k < i && grows(beam@[k], #[trigger] before[q]);
                assert(grows(beam@[k], pool@[q]));
            } else {
                assert(grows(beam@[i as int], pool@[q]));
            }
        }
        assert forall|k: int, j: int| 0 <= k < i + 1 && 0 <= j < g.nodes.len() && eligible(*g, #[trigger] beam@[k], #[trigger] g.nodes[j])
            && score_fits(*g, *reg, *w, grown_core(beam@[k], g.nodes[j]), grown_non_core(*g, beam@[k], g.nodes[j]))
            implies has_growth(*g, pool@, 0, beam@[k], g.nodes[j]) by {
            if k < i {
                let q = choose|q: int| 0 <= q < before.len() && (#[trigger] before[q]).core_ids@ == grown_core(beam@[k], g.nodes[j])
                    && before[q].non_core_ids@ == grown_non_core(*g, beam@[k], g.nodes[j]);
                assert(pool@.subrange(0, before.len() as int)[q] == before[q]);
                assert(pool@[q] == before[q]);
            } else {
                assert(has_growth(*g, pool@, before.len() as int, beam@[k], g.nodes[j]));
            }
        }
        i = i + 1;
    }
    let next = select_top(&pool, width, Ghost(*g), Ghost(*reg), Ghost(*w), Ghost(top_size + 1));
    assert forall|bound: int| sizes_within(beam@, bound) implies #[trigger] sizes_within(next@, bound + 1) by {
        if beam.len() > 0 {
            assert(size(beam@[0]) <= bound);
            assert(bound >= 0);
            lemma_max_size(beam@, bound);
            assert forall|j: int| 0 <= j < next.len() implies size(#[trigger] next@[j]) <= bound + 1 by {
                assert(size(next@[j]) <= top_size + 1);
            }
        } else {
            assert(pool.len() == 0);
        }
    }
    proof {
        assert forall|q: int| 0 <= q < beam.len() implies same_members(#[trigger] pool@[q], beam@[q]) by {
            assert(pool@.subrange(0, copies.len() as int)[q] == pool@[q]);
        }
        assert(round_pool(beam@, pool@));
        assert forall|i: int, j: int| 0 <= i < beam.len() && 0 <= j < g.nodes.len()
            && eligible(*g, #[trigger] beam@[i], #[trigger] g.nodes[j])
            && score_fits(*g, *reg, *w, grown_core(beam@[i], g.nodes[j]), grown_non_core(*g, beam@[i], g.nodes[j]))
            implies exists|q: int| 0 <= q < pool@.len() && (#[trigger] pool@[q]).core_ids@ == grown_core(beam@[i], g.nodes[j])
                && pool@[q].non_core_ids@ == grown_non_core(*g, beam@[i], g.nodes[j]) by {
            assert(has_growth(*g, pool@, 0, beam@[i], g.nodes[j]));
        }
        assert(complete(*g, *reg, *w, beam@, pool@));
        assert(selected(pool@, width as int, next@));
        reveal(round_result);
        assert(round_result(*g, *reg, *w, beam@, width as int, next@));
        if cores_nonempty(beam@) {
            assert forall|k: int| 0 <= k < next.len() implies (#[trigger] next@[k]).core_ids.len() > 0 by {
                assert(drawn_from(pool@, next@[k]));
                let p = choose|p: int| 0 <= p < pool@.len() && same_members(#[trigger] pool@[p], next@[k]);
                if p < beam.len() {
                    assert(same_members(pool@[p], beam@[p]));
                    assert(beam@[p].core_ids.len() > 0);
                } else {
                    let i = choose|i: int| 0 <= i < beam.len() && grows(beam@[i], #[trigger] pool@[p]);
                    assert(beam@[i].core_ids.len() > 0);
                    if exists|x: NodeId| pool@[p].core_ids@ == #[trigger] beam@[i].core_ids@.push(x) {
                        let x = choose|x: NodeId| pool@[p].core_ids@ == #[trigger] beam@[i].core_ids@.push(x);
                        assert(pool@[p].core_ids@.len() == beam@[i].core_ids@.len() + 1);
                    }
                }
            }
        }
        if width > 0 {
            assert forall|i: int| 0 <= i < beam.len() implies reaches(next@, (#[trigger] beam@[i]).score) by {
                assert(same_members(pool@[i], beam@[i]));
                assert(left_out_ok(pool@[i], width as int, next@));
                if represented(pool@[i], next@) {
                    let k = choose|k: int| 0 <= k < next.len() && same_core(pool@[i], #[trigger] next@[k]) && !score_gt(pool@[i].score, next@[k].score);
                    assert(!score_gt(beam@[i].score, next@[k].score));
                } else {
                    assert(!score_gt(pool@[i].score, next@[0].score));
                }
            }
            if beam.len() > 0 {
                assert(left_out_ok(pool@[0], width as int, next@));
            }
        }
    }
    next
}

/// The best member of a non-empty beam: the first of the highest score.
fn best_of(beam: &Vec<Candidate>) -> (r: usize)
    requires
        beam.len() > 0,
        forall|i: int| 0 <= i < beam.len() ==> (#[trigger] beam[i]).score.den > 0,
    ensures
        r < beam.len(),
        forall|i: int| 0 <= i < beam.len() ==> !score_gt((#[trigger] beam[i]).score, beam[r as int].score),
{
    let mut b: usize = 0;
    let mut i: usize = 1;
    while i < beam.len()
        invariant
            1 <= i <= beam.len(),
            b < i,
            forall|q: int| 0 <= q < beam.len() ==> (#[trigger] beam[q]).score.den > 0,
            forall|q: int| 0 <= q < i ==> !score_gt((#[trigger] beam[q]).score, beam[b as int].score),
        decreases beam.len() - i,
    {
        if better(&beam[i].score, &beam[b].score) {
            assert forall|q: int| 0 <= q < i + 1 implies !score_gt((#[trigger] beam[q]).score, beam[i as int].score) by {
                if q < i {
                    let (an, ad, bn, bd) = (beam[i as int].score.num as int, beam[i as int].score.den as int,
                        beam[b as int].score.num as int, beam[b as int].score.den as int);
                    assert(bn * ad <= an * bd) by (nonlinear_arith)
                        requires an * bd > bn * ad;
                    lemma_score_ge_trans(beam[i as int].score, beam[b as int].score, beam[q].score);
                }
            }
            b = i;
        }
        i = i + 1;
    }
    b
}

pub proof fn lemma_realized_none(edges: Seq<Edge>, core: Seq<NodeId>)
    ensures
        realized(edges, core, Seq::<NodeId>::empty()) == 0,
    decreases edges.len(),
{
    if edges.len() > 0 {
        lemma_realized_none(edges.drop_last(), core);
    }
}

/// The candidate whose only member is core node `x`.
fn singleton(g: &Graph, reg: &TypeRegistry, w: &Weights, x: NodeId) -> (r: Candidate)
    requires
        g.wf(),
        is_core_id(*g, x),
    ensures
        r.wf(*g, *reg, *w),
        r.core_ids@ == seq![x],
        r.non_core_ids@.len() == 0,
{
    let mut core: Vec<NodeId> = Vec::new();
    core.push(x);
    let non_core: Vec<NodeId> = Vec::new();
    let num: u64 = if w.beta == 0 && (w.gamma.is_none() || w.gamma == Some(0u32)) { 1 } else { 0 };
    let c = Candidate { core_ids: core, non_core_ids: non_core, score: Score { num, den: 1 } };
    proof {
        let ghost e = Seq::<NodeId>::empty();
        assert(c.non_core_ids@ =~= e);
        lemma_realized_none(g.edges@, c.core_ids@);
        assert(realized(g.edges@, c.core_ids@, c.non_core_ids@) == 0);
        assert(capacity(*g, *reg, c.non_core_ids@) == 0);
        assert(c.core_ids@.len() == 1);
        lemma1_pow(w.alpha as nat);
        let pb = pow(0, w.beta as nat);
        if w.beta > 0 {
            lemma0_pow(w.beta as nat);
        } else {
            reveal(pow);
        }
        assert(pb == if w.beta == 0 { 1int } else { 0int });
        match w.gamma {
            Some(gm) => {
                lemma1_pow(gm as nat);
                if gm > 0 {
                    lemma0_pow(gm as nat);
                } else {
                    reveal(pow);
                }
                assert(pow(0, gm as nat) == if gm == 0 { 1int } else { 0int });
                assert(score_num(1, 0, 0, 0, *w) == pb * pow(0, gm as nat));
                assert(score_den(1, 0, *w) == 1);
            },
            None => {
                assert(score_num(1, 0, 0, 0, *w) == pb);
            },
        }
        assert(scores(*g, *reg, *w, c.core_ids@, c.non_core_ids@, c.score));
    }
    c
}

/// Node `a` ranks no lower than node `b` as a seed: a higher degree, or
/// the same degree and an id no larger.
pub open spec fn ranks_before(g: Graph, a: NodeId, b: NodeId) -> bool {
    degree(g.edges@, a) > degree(g.edges@, b) || (degree(g.edges@, a) == degree(g.edges@, b) && a.id <= b.id)
}

/// Some member of `beam` is the singleton of `v`.
pub open spec fn is_seed(beam: Seq<Candidate>, v: NodeId) -> bool {
    exists|i: int| 0 <= i < beam.len() && (#[trigger] beam[i]).core_ids@ == seq![v]
}

/// The seeds come in rank order, and every core node of `g` left out ranks
/// below every seed.
pub open spec fn seed_ranked(g: Graph, beam: Seq<Candidate>) -> bool {
    &&& forall|i: int, j: int| 0 <= i < j < beam.len() ==> ranks_before(g, (#[trigger] beam[i]).core_ids[0], (#[trigger] beam[j]).core_ids[0])
    &&& forall|q: int| 0 <= q < g.nodes.len() && (#[trigger] g.nodes[q]).is_core ==> is_seed(beam, g.nodes[q].id)
        || forall|i: int| 0 <= i < beam.len() ==> ranks_before(g, (#[trigger] beam[i]).core_ids[0], g.nodes[q].id)
}

/// The untaken core node that ranks first, if any.
fn pick_seed(g: &Graph, degrees: &Vec<usize>, taken: &Vec<bool>) -> (r: Option<usize>)
    requires
        degrees.len() == g.nodes.len(),
        taken.len() == g.nodes.len(),
        forall|q: int| 0 <= q < g.nodes.len() ==> degrees[q] == degree(g.edges@, (#[trigger] g.nodes[q]).id),
    ensures
        match r {
            Some(p) => p < g.nodes.len() && g.nodes[p as int].is_core && !taken[p as int]
                && forall|q: int| 0 <= q < g.nodes.len() && (#[trigger] g.nodes[q]).is_core && !taken[q]
                ==> ranks_before(*g, g.nodes[p as int].id, g.nodes[q].id),
            None => forall|q: int| 0 <= q < g.nodes.len() && (#[trigger] g.nodes[q]).is_core ==> taken[q],
        },
{
    let mut pick: Option<usize> = None;
    let mut q: usize = 0;
    while q < g.nodes.len()
        invariant
            degrees.len() == g.nodes.len(),
            taken.len() == g.nodes.len(),
            forall|x: int| 0 <= x < g.nodes.len() ==> degrees[x] == degree(g.edges@, (#[trigger] g.nodes[x]).id),
            q <= g.nodes.len(),
            match pick {
                Some(p) => p < g.nodes.len() && g.nodes[p as int].is_core && !taken[p as int]
                    && forall|x: int| 0 <= x < q && (#[trigger] g.nodes[x]).is_core && !taken[x]
                    ==> ranks_before(*g, g.nodes[p as int].id, g.nodes[x].id),
                None => forall|x: int| 0 <= x < q && (#[trigger] g.nodes[x]).is_core ==> taken[x],
            },
        decreases g.nodes.len() - q,
    {
        if g.nodes[q].is_core && !taken[q] {
            match pick {
                None => {
                    pick = Some(q);
                },
                Some(p) => {
                    if degrees[q] > degrees[p] || (degrees[q] == degrees[p] && g.nodes[q].id.id < g.nodes[p].id.id) {
                        pick = Some(q);
                    }
                },
            }
        }
        q = q + 1;
    }
    pick
}

/// `c`'s one core node is a node of `g` marked in `taken`.
pub open spec fn seed_from(g: Graph, taken: Seq<bool>, c: Candidate) -> bool {
    exists|p: int| 0 <= p < g.nodes.len() && taken[p] && c.core_ids@ == seq![g.nodes[p].id]
}

/// Seeds: up to `width` singleton candidates of core nodes, highest degree
/// first, ties broken by the smaller id.
fn seeds(g: &Graph, reg: &TypeRegistry, w: &Weights, width: usize) -> (r: Vec<Candidate>)
    requires
        g.wf(),
    ensures
        all_wf(r@, *g, *reg, *w),
        sizes_within(r@, 1),
        forall|i: int| 0 <= i < r.len() ==> (#[trigger] r@[i]).core_ids.len() == 1 && r@[i].non_core_ids.len() == 0,
        seeded(r@),
        seed_ranked(*g, r@),
        r.len() <= width,
        r.len() == 0 <==> width == 0 || forall|j: int| 0 <= j < g.nodes.len() ==> !(#[trigger] g.nodes[j]).is_core,
{
    let mut degrees: Vec<usize> = Vec::new();
    let mut taken: Vec<bool> = Vec::new();
    let mut j: usize = 0;
    while j < g.nodes.len()
        invariant
            j <= g.nodes.len(),
            degrees.len() == j,
            taken.len() == j,
            forall|q: int| 0 <= q < j ==> !taken[q],
            forall|q: int| 0 <= q < j ==> degrees[q] == degree(g.edges@, (#[trigger] g.nodes[q]).id),
        decreases g.nodes.len() - j,
    {
        degrees.push(count_degree(&g.edges, g.nodes[j].id));
        taken.push(false);
        j = j + 1;
    }
    let mut out: Vec<Candidate> = Vec::new();
    while out.len() < width
        invariant
            g.wf(),
            degrees.len() == g.nodes.len(),
            taken.len() == g.nodes.len(),
            out.len() <= width,
            all_wf(out@, *g, *reg, *w),
            sizes_within(out@, 1),
            forall|i: int| 0 <= i < out.len() ==> (#[trigger] out@[i]).core_ids.len() == 1 && out@[i].non_core_ids.len() == 0,
            out.len() == 0 ==> forall|q: int| 0 <= q < taken.len() ==> !taken[q],
            out.len() > 0 ==> exists|j: int| 0 <= j < g.nodes.len() && (#[trigger] g.nodes[j]).is_core,
            forall|i: int| 0 <= i < out.len() ==> seed_from(*g, taken@, #[trigger] out@[i]),
            seeded(out@),
            forall|q: int| 0 <= q < g.nodes.len() ==> degrees[q] == degree(g.edges@, (#[trigger] g.nodes[q]).id),
            forall|i: int, j: int| 0 <= i < j < out.len() ==> ranks_before(*g, (#[trigger] out@[i]).core_ids[0], (#[trigger] out@[j]).core_ids[0]),
            forall|i: int, q: int| 0 <= i < out.len() && 0 <= q < g.nodes.len() && (#[trigger] g.nodes[q]).is_core && !taken[q]
                ==> ranks_before(*g, (#[trigger] out@[i]).core_ids[0], g.nodes[q].id),
            forall|q: int| 0 <= q < g.nodes.len() && taken[q] ==> is_seed(out@, (#[trigger] g.nodes[q]).id),
        ensures
            seeded(out@),
            seed_ranked(*g, out@),
            out.len() > 0 ==> exists|j: int| 0 <= j < g.nodes.len() && (#[trigger] g.nodes[j]).is_core,
            all_wf(out@, *g, *reg, *w),
            sizes_within(out@, 1),
            forall|i: int| 0 <= i < out.len() ==> (#[trigger] out@[i]).core_ids.len() == 1 && out@[i].non_core_ids.len() == 0,
            out.len() <= width,
            out.len() == 0 ==> width == 0 || forall|j: int| 0 <= j < g.nodes.len() ==> !(#[trigger] g.nodes[j]).is_core,
        decreases width - out.len(),
    {
        let pick = pick_seed(g, &degrees, &taken);
        match pick {
            None => {
                if out.len() == 0 {
                    assert forall|j: int| 0 <= j < g.nodes.len() implies !(#[trigger] g.nodes[j]).is_core by {
                        if g.nodes[j].is_core {
                            assert(taken[j]);
                        }
                    }
                }
                break;
            },
            Some(p) => {
                let ghost taken0 = taken@;
                taken.set(p, true);
                assert(is_core_id(*g, g.nodes[p as int].id));

                let s = singleton(g, reg, w, g.nodes[p].id);
                let ghost before = out@;
                out.push(s);
                assert(out@[before.len() as int].core_ids[0] == g.nodes[p as int].id);
                assert forall|i: int, j: int| 0 <= i < j < out.len() implies ranks_before(*g, (#[trigger] out@[i]).core_ids[0], (#[trigger] out@[j]).core_ids[0]) by {
                    assert(out@[i] == before[i]);
                    if j < before.len() {
                        assert(out@[j] == before[j]);
                    } else {
                        assert(g.nodes[p as int].is_core && !taken0[p as int]);
                    }
                }
                assert forall|i: int, q: int| 0 <= i < out.len() && 0 <= q < g.nodes.len() && (#[trigger] g.nodes[q]).is_core && !taken[q]
                    implies ranks_before(*g, (#[trigger] out@[i]).core_ids[0], g.nodes[q].id) by {
                    assert(!taken0[q]);
                    if i < before.len() {
                        assert(out@[i] == before[i]);
                    }
                }
                assert forall|q: int| 0 <= q < g.nodes.len() && taken[q] implies is_seed(out@, (#[trigger] g.nodes[q]).id) by {
                    if q == p {
                        assert(out@[before.len() as int].core_ids@ == seq![g.nodes[q].id]);
                    } else {
                        assert(taken0[q]);
                        assert(is_seed(before, g.nodes[q].id));
                        let i = choose|i: int| 0 <= i < before.len() && (#[trigger] before[i]).core_ids@ == seq![g.nodes[q].id];
                        assert(out@[i] == before[i]);
                    }
                }
                assert forall|i: int| 0 <= i < out.len() implies (#[trigger] out@[i]).wf(*g, *reg, *w)
                    && size(out@[i]) <= 1 && out@[i].core_ids.len() == 1 && out@[i].non_core_ids.len() == 0 by {
                    if i < before.len() {
                        assert(out@[i] == before[i]);
                    }
                }
                assert forall|i: int| 0 <= i < out.len() implies seed_from(*g, taken@, #[trigger] out@[i]) by {
                    if i < before.len() {
                        assert(out@[i] == before[i]);
                        assert(seed_from(*g, taken0, before[i]));
                        let p1 = choose|p1: int| 0 <= p1 < g.nodes.len() && taken0[p1] && before[i].core_ids@ == seq![g.nodes[p1].id];
                        assert(taken@[p1]);
                    } else {
                        assert(taken@[p as int]);
                    }
                }
                assert forall|a: int, b: int| 0 <= a < b < out.len() implies (#[trigger] out@[a]).core_ids@ != (#[trigger] out@[b]).core_ids@ by {
                    assert(out@[a] == before[a]);
                    if b < before.len() {
                        assert(out@[b] == before[b]);
                    } else {
                        assert(seed_from(*g, taken0, before[a]));
                        let p1 = choose|p1: int| 0 <= p1 < g.nodes.len() && taken0[p1] && before[a].core_ids@ == seq![g.nodes[p1].id];
                        assert(p1 != p);
                        assert(g.nodes[p1].id != g.nodes[p as int].id);
                        assert(before[a].core_ids@[0] != out@[b].core_ids@[0]);
                    }
                }
            },
        }
    }
    out
}

pub proof fn lemma_score_gt_ge(a: Score, b: Score, c: Score)
    requires
        a.den > 0,
        b.den > 0,
        c.den > 0,
        score_gt(a, b),
        !score_gt(c, b),
    ensures
        score_gt(a, c),
        !score_gt(b, a),
{
    let (an, ad, bn, bd, cn, cd) = (a.num as int, a.den as int, b.num as int, b.den as int, c.num as int, c.den as int);
    assert(an * cd > cn * ad) by (nonlinear_arith)
        requires
            an * bd > bn * ad,
            cn * bd <= bn * cd,
            ad > 0, bd > 0, cd > 0, an >= 0, bn >= 0, cn >= 0,
    {
        assert(an * bd * cd > bn * ad * cd);
        assert(cn * bd * ad <= bn * cd * ad);
    }
}

/// Some member of `next` scores strictly above every member of `beam`.
#[verifier::opaque]
pub open spec fn raises(beam: Seq<Candidate>, next: Seq<Candidate>) -> bool {
    exists|m: int| 0 <= m < next.len() && forall|l: int| 0 <= l < beam.len() ==> score_gt((#[trigger] next[m]).score, (#[trigger] beam[l]).score)
}

/// Seed singletons: each member has one core node and no non-core node,
/// and no two members have the same core node.
pub open spec fn seeded(beam: Seq<Candidate>) -> bool {
    &&& forall|i: int| 0 <= i < beam.len() ==> (#[trigger] beam[i]).core_ids.len() == 1 && beam[i].non_core_ids.len() == 0
    &&& forall|i: int, j: int| 0 <= i < j < beam.len() ==> (#[trigger] beam[i]).core_ids@ != (#[trigger] beam[j]).core_ids@
}

/// `beams` is the history of a search and `top` its answer: the seed beam
/// (at most `width` singletons of distinct core nodes in rank order, see
/// `seed_ranked`), then one expansion round (`round_result`) from each beam to the next;
/// `top` has the members and score of a candidate of some beam and scores at
/// least as high as every candidate of every beam.
#[verifier::opaque]
pub open spec fn run_history(g: Graph, reg: TypeRegistry, w: Weights, width: int, beams: Seq<Seq<Candidate>>, top: Candidate) -> bool {
    &&& beams.len() >= 1
    &&& seeded(beams[0])
    &&& seed_ranked(g, beams[0])
    &&& beams[0].len() <= width
    &&& forall|k: int| 0 <= k < beams.len() - 1 ==> round_result(g, reg, w, #[trigger] beams[k], width, beams[k + 1])
    &&& forall|k: int| 0 <= k < beams.len() ==> all_wf(#[trigger] beams[k], g, reg, w)
    &&& forall|k: int, m: int| 0 <= k < beams.len() && 0 <= m < beams[k].len() ==> !score_gt((#[trigger] beams[k][m]).score, top.score)
    &&& exists|k: int, m: int| 0 <= k < beams.len() && 0 <= m < beams[k].len() && same_members(#[trigger] beams[k][m], top)
}

/// None of the last `rounds` rounds of `beams` raised the best score.
#[verifier::opaque]
pub open spec fn quiet_tail(beams: Seq<Seq<Candidate>>, rounds: int) -> bool {
    forall|k: int| 0 <= k && beams.len() - 1 - rounds <= k < beams.len() - 1 ==> !raises(#[trigger] beams[k], beams[k + 1])
}

/// A complete search: its history ends after `max_epochs` rounds, or after
/// `patience` rounds in a row that did not raise the best score.
pub open spec fn search_run(
    g: Graph,
    reg: TypeRegistry,
    w: Weights,
    width: int,
    max_epochs: int,
    patience: int,
    beams: Seq<Seq<Candidate>>,
    top: Candidate,
) -> bool {
    &&& run_history(g, reg, w, width, beams, top)
    &&& beams.len() - 1 == max_epochs || (patience <= beams.len() - 1 && quiet_tail(beams, patience))
}

proof fn lemma_history_start(g: Graph, reg: TypeRegistry, w: Weights, width: int, beam: Seq<Candidate>, b: int, top: Candidate)
    requires
        seeded(beam),
        seed_ranked(g, beam),
        beam.len() <= width,
        all_wf(beam, g, reg, w),
        0 <= b < beam.len(),
        same_members(beam[b], top),
        forall|m: int| 0 <= m < beam.len() ==> !score_gt((#[trigger] beam[m]).score, top.score),
    ensures
        run_history(g, reg, w, width, seq![beam], top),
        quiet_tail(seq![beam], 0),
{
    reveal(run_history);
    reveal(quiet_tail);
    let beams = seq![beam];
    assert(beams[0] == beam);
    assert(same_members(beams[0][b], top));
    assert forall|k: int, m: int| 0 <= k < beams.len() && 0 <= m < beams[k].len() implies !score_gt((#[trigger] beams[k][m]).score, top.score) by {
        assert(beams[k] == beam);
    }
}

proof fn lemma_history_extend(
    g: Graph,
    reg: TypeRegistry,
    w: Weights,
    width: int,
    beams: Seq<Seq<Candidate>>,
    top: Candidate,
    next: Seq<Candidate>,
    new_top: Candidate,
    bj: int,
)
    requires
        run_history(g, reg, w, width, beams, top),
        round_result(g, reg, w, beams.last(), width, next),
        all_wf(next, g, reg, w),
        top.wf(g, reg, w),
        0 <= bj < next.len(),
        forall|m: int| 0 <= m < next.len() ==> !score_gt((#[trigger] next[m]).score, next[bj].score),
        (score_gt(next[bj].score, top.score) && same_members(next[bj], new_top))
            || (!score_gt(next[bj].score, top.score) && same_members(top, new_top)),
    ensures
        run_history(g, reg, w, width, beams.push(next), new_top),
{
    reveal(run_history);
    let nb = beams.push(next);
    let n = beams.len();
    assert(nb[n as int] == next);
    assert forall|k: int| 0 <= k < nb.len() - 1 implies round_result(g, reg, w, #[trigger] nb[k], width, nb[k + 1]) by {
        if k < n - 1 {
            assert(nb[k] == beams[k] && nb[k + 1] == beams[k + 1]);
        } else {
            assert(nb[k] == beams.last());
        }
    }
    assert forall|k: int| 0 <= k < nb.len() implies all_wf(#[trigger] nb[k], g, reg, w) by {
        if k < n {
            assert(nb[k] == beams[k]);
        }
    }
    assert(nb[0] == beams[0]);
    assert(next[bj].wf(g, reg, w));
    if score_gt(next[bj].score, top.score) {
        lemma_score_gt_ge(next[bj].score, top.score, top.score);
        assert forall|k: int, m: int| 0 <= k < nb.len() && 0 <= m < nb[k].len() implies !score_gt((#[trigger] nb[k][m]).score, new_top.score) by {
            if k < n {
                assert(nb[k] == beams[k]);
                assert(all_wf(beams[k], g, reg, w));
                assert(beams[k][m].wf(g, reg, w));
                assert(!score_gt(beams[k][m].score, top.score));
                lemma_score_ge_trans(new_top.score, top.score, beams[k][m].score);
            } else {
                assert(nb[k] == next);
            }
        }
        assert(same_members(nb[n as int][bj], new_top));
    } else {
        assert forall|k: int, m: int| 0 <= k < nb.len() && 0 <= m < nb[k].len() implies !score_gt((#[trigger] nb[k][m]).score, new_top.score) by {
            if k < n {
                assert(nb[k] == beams[k]);
            } else {
                assert(nb[k] == next);
                assert(next[m].wf(g, reg, w));
                lemma_score_ge_trans(top.score, next[bj].score, next[m].score);
            }
        }
        let (k0, m0) = choose|k: int, m: int| 0 <= k < beams.len() && 0 <= m < beams[k].len() && same_members(#[trigger] beams[k][m], top);
        assert(nb[k0] == beams[k0]);
        assert(same_members(nb[k0][m0], new_top));
        assert(new_top.wf(g, reg, w));
    }
}

proof fn lemma_quiet_extend(beams: Seq<Seq<Candidate>>, rounds: int, next: Seq<Candidate>, raised: bool)
    requires
        rounds >= 0,
        quiet_tail(beams, rounds),
        raised == raises(beams.last(), next),
        beams.len() >= 1,
    ensures
        quiet_tail(beams.push(next), if raised { 0 } else { rounds + 1 }),
{
    reveal(quiet_tail);
    let nb = beams.push(next);
    let n = beams.len();
    if !raised {
        assert forall|k: int| 0 <= k && nb.len() - 1 - (rounds + 1) <= k < nb.len() - 1 implies !raises(#[trigger] nb[k], nb[k + 1]) by {
            if k < n - 1 {
                assert(nb[k] == beams[k] && nb[k + 1] == beams[k + 1]);
            } else {
                assert(nb[k] == beams.last());
                assert(nb[k + 1] == next);
            }
        }
    }
}

proof fn lemma_quiet_shorter(beams: Seq<Seq<Candidate>>, rounds: int, fewer: int)
    requires
        quiet_tail(beams, rounds),
        0 <= fewer <= rounds,
    ensures
        quiet_tail(beams, fewer),
{
    reveal(quiet_tail);
}

/// Whether some member of `next` scores strictly above every member of `beam`.
fn improves(beam: &Vec<Candidate>, next: &Vec<Candidate>, g: Ghost<Graph>, reg: Ghost<TypeRegistry>, w: Ghost<Weights>) -> (r: bool)
    requires
        beam.len() > 0,
        next.len() > 0,
        all_wf(beam@, g@, reg@, w@),
        all_wf(next@, g@, reg@, w@),
    ensures
        r == raises(beam@, next@),
{
    let bi = best_of(beam);
    let bj = best_of(next);
    assert(beam@[bi as int].wf(g@, reg@, w@));
    assert(next@[bj as int].wf(g@, reg@, w@));
    let r = better(&next[bj].score, &beam[bi].score);
    proof {
        reveal(raises);
        if r {
            assert forall|l: int| 0 <= l < beam.len() implies score_gt((#[trigger] next@[bj as int]).score, (#[trigger] beam@[l]).score) by {
                assert(beam@[l].wf(g@, reg@, w@));
                lemma_score_gt_ge(next@[bj as int].score, beam@[bi as int].score, beam@[l].score);
            }
            assert(raises(beam@, next@));
        } else {
            assert forall|m: int| 0 <= m < next.len() implies !(forall|l: int| 0 <= l < beam.len()
                ==> score_gt((#[trigger] next@[m]).score, (#[trigger] beam@[l]).score)) by {
                assert(next@[m].wf(g@, reg@, w@));
                lemma_score_ge_trans(beam@[bi as int].score, next@[bj as int].score, next@[m].score);
                assert(!score_gt(next@[m].score, beam@[bi as int].score));
            }
        }
    }
    r
}

/// One round of the search loop: the next beam, the best candidate seen so
/// far, whether the round raised the best score, and the position of the
/// next beam's best member.
fn advance(
    g: &Graph,
    reg: &TypeRegistry,
    w: &Weights,
    beam: &Vec<Candidate>,
    top: &Candidate,
    width: usize,
    steps: Ghost<int>,
) -> (r: (Vec<Candidate>, Candidate, bool, usize))
    requires
        g.wf(),
        width > 0,
        beam.len() > 0,
        all_wf(beam@, *g, *reg, *w),
        cores_nonempty(beam@),
        top.wf(*g, *reg, *w),
        top.core_ids.len() > 0,
        sizes_within(beam@, steps@ + 1),
        size(*top) <= steps@ + 1,
    ensures
        r.0.len() > 0,
        all_wf(r.0@, *g, *reg, *w),
        cores_nonempty(r.0@),
        r.1.wf(*g, *reg, *w),
        r.1.core_ids.len() > 0,
        sizes_within(r.0@, steps@ + 2),
        size(r.1) <= steps@ + 2,
        round_result(*g, *reg, *w, beam@, width as int, r.0@),
        r.2 == raises(beam@, r.0@),
        r.3 < r.0.len(),
        forall|m: int| 0 <= m < r.0.len() ==> !score_gt((#[trigger] r.0@[m]).score, r.0@[r.3 as int].score),
        (score_gt(r.0@[r.3 as int].score, top.score) && same_members(r.0@[r.3 as int], r.1))
            || (!score_gt(r.0@[r.3 as int].score, top.score) && same_members(*top, r.1)),
{
    let next = step(g, reg, w, beam, width);
    assert(sizes_within(next@, (steps@ + 1) + 1));
    let raised = improves(beam, &next, Ghost(*g), Ghost(*reg), Ghost(*w));
    let bj = best_of(&next);
    assert(next@[bj as int].wf(*g, *reg, *w));
    assert(next@[bj as int].core_ids.len() > 0);
    let new_top = if better(&next[bj].score, &top.score) {
        copy_candidate(&next[bj])
    } else {
        copy_candidate(top)
    };
    (next, new_top, raised, bj)
}

/// Runs the beam search: seeds, then up to `max_epochs` expansion rounds,
/// stopping early once `patience` rounds in a row have not raised the best
/// score in the beam. Returns the highest-scoring candidate seen and the
/// number of rounds run; `None` when there is no core node or `width` is 0.
pub fn search(g: &Graph, reg: &TypeRegistry, w: &Weights, width: usize, max_epochs: usize, patience: usize) -> (r: Option<SearchResult>)
    requires
        g.wf(),
    ensures
        match r {
            Some(res) => {
                &&& res.top_candidate.wf(*g, *reg, *w)
                &&& res.top_candidate.core_ids.len() > 0
                &&& res.num_steps <= max_epochs
                &&& size(res.top_candidate) <= res.num_steps + 1
                &&& exists|beams: Seq<Seq<Candidate>>| beams.len() == res.num_steps + 1 && #[trigger] search_run(
                    *g, *reg, *w, width as int, max_epochs as int, patience as int, beams, res.top_candidate)
            },
            None => width == 0 || forall|j: int| 0 <= j < g.nodes.len() ==> !(#[trigger] g.nodes[j]).is_core,
        },
        r is None <==> (width == 0 || forall|j: int| 0 <= j < g.nodes.len() ==> !(#[trigger] g.nodes[j]).is_core),
{
    let mut beam = seeds(g, reg, w, width);
    if beam.len() == 0 {
        return None;
    }
    let b0 = best_of(&beam);
    let mut top = copy_candidate(&beam[b0]);
    assert(beam@[b0 as int].wf(*g, *reg, *w));
    assert(size(beam@[b0 as int]) <= 1);
    assert(beam@[b0 as int].core_ids.len() == 1);
    let ghost mut beams: Seq<Seq<Candidate>> = seq![beam@];
    proof {
        lemma_history_start(*g, *reg, *w, width as int, beam@, b0 as int, top);
    }
    let mut steps: usize = 0;
    let mut stale: usize = 0;
    while steps < max_epochs && stale < patience
        invariant
            g.wf(),
            width > 0,
            beam.len() > 0,
            all_wf(beam@, *g, *reg, *w),
            cores_nonempty(beam@),
            top.wf(*g, *reg, *w),
            top.core_ids.len() > 0,
            steps <= max_epochs,
            sizes_within(beam@, steps + 1),
            size(top) <= steps + 1,
            beams.len() == steps + 1,
            beams.last() == beam@,
            stale <= steps,
            run_history(*g, *reg, *w, width as int, beams, top),
            quiet_tail(beams, stale as int),
        decreases max_epochs - steps,
    {
        let (next, new_top, raised, bj) = advance(g, reg, w, &beam, &top, width, Ghost(steps as int));
        proof {
            assert(beams.last() == beam@);
            lemma_history_extend(*g, *reg, *w, width as int, beams, top, next@, new_top, bj as int);
            lemma_quiet_extend(beams, stale as int, next@, raised);
            beams = beams.push(next@);
        }
        top = new_top;
        beam = next;
        steps = steps + 1;
        if raised {
            stale = 0;
        } else {
            stale = stale + 1;
        }
    }
    proof {
        if steps < max_epochs {
            lemma_quiet_shorter(beams, stale as int, patience as int);
        }
        assert(search_run(*g, *reg, *w, width as int, max_epochs as int, patience as int, beams, top));
    }
    Some(SearchResult { top_candidate: top, num_steps: steps })
}

} // verus!
