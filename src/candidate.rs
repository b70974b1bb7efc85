//! Candidates (a core id set and a non-core id set) and their scores.
use vstd::prelude::*;
use vstd::arithmetic::power::pow;
use crate::graph::{ids_of, Graph};
use crate::ids::{NodeId, NodeTypeId};
use crate::typespec::TypeRegistry;

verus! {

/// Scoring weights: `score = core^alpha * non_core^beta * density^gamma`;
/// without `gamma` the density term is left out.
#[derive(Clone, Copy, Debug, PartialEq, Eq, Structural)]
pub struct Weights {
    pub alpha: u32,
    pub beta: u32,
    pub gamma: Option<u32>,
}

/// A score as the fraction `num / den`.
#[derive(Clone, Copy, Debug, PartialEq, Eq, Structural)]
pub struct Score {
    pub num: u64,
    pub den: u64,
}

/// `a` is strictly greater than `b` (denominators are positive).
pub open spec fn score_gt(a: Score, b: Score) -> bool {
    (a.num as int) * (b.den as int) > (b.num as int) * (a.den as int)
}

pub open spec fn min_nat(a: nat, b: nat) -> nat {
    if a <= b { a } else { b }
}

/// The numerator of the score of `c` core and `n` non-core members joined
/// by `realized` relations, out of `c * capacity` possible.
pub open spec fn score_num(c: nat, n: nat, realized: nat, capacity: nat, w: Weights) -> int {
    pow(c as int, w.alpha as nat) * pow(n as int, w.beta as nat) * match w.gamma {
        Some(g) => pow(min_nat(realized, c * capacity) as int, g as nat),
        None => 1,
    }
}

pub open spec fn score_den(c: nat, capacity: nat, w: Weights) -> int {
    match w.gamma {
        Some(g) => pow(if c * capacity == 0 { 1 } else { (c * capacity) as int }, g as nat),
        None => 1,
    }
}

/// Whether the graph holds an edge from core node `c` to non-core node `n`.
pub open spec fn linked(g: Graph, c: NodeId, n: NodeId) -> bool {
    exists|j: int| 0 <= j < g.edges.len() && (#[trigger] g.edges[j]).core_id == c && g.edges[j].non_core_id == n
}

pub open spec fn is_core_id(g: Graph, x: NodeId) -> bool {
    exists|j: int| 0 <= j < g.nodes.len() && (#[trigger] g.nodes[j]).id == x && g.nodes[j].is_core
}

pub open spec fn is_non_core_id(g: Graph, x: NodeId) -> bool {
    exists|j: int| 0 <= j < g.nodes.len() && (#[trigger] g.nodes[j]).id == x && !g.nodes[j].is_core
}

/// Number of edges from a member of `core` to a member of `non_core`.
pub open spec fn realized(edges: Seq<crate::graph::Edge>, core: Seq<NodeId>, non_core: Seq<NodeId>) -> nat
    decreases edges.len(),
{
    if edges.len() == 0 {
        0
    } else {
        realized(edges.drop_last(), core, non_core) + if core.contains(edges.last().core_id)
            && non_core.contains(edges.last().non_core_id) {
            1nat
        } else {
            0nat
        }
    }
}

pub open spec fn type_capacity(reg: TypeRegistry, t: NodeTypeId) -> nat {
    if 1 <= t.id <= reg.entries.len() {
        reg.entries[t.id - 1].max_edge_count as nat
    } else {
        0
    }
}

/// How many relation kinds may join a core node to node `x`.
pub open spec fn capacity_of(g: Graph, reg: TypeRegistry, x: NodeId) -> nat {
    if ids_of(g.nodes@).contains(x) {
        type_capacity(reg, g.nodes[choose|j: int| 0 <= j < g.nodes.len() && g.nodes[j].id == x].type_id)
    } else {
        0
    }
}

pub open spec fn capacity(g: Graph, reg: TypeRegistry, non_core: Seq<NodeId>) -> nat
    decreases non_core.len(),
{
    if non_core.len() == 0 {
        0
    } else {
        capacity(g, reg, non_core.drop_last()) + capacity_of(g, reg, non_core.last())
    }
}

/// The score of the members `core` and `non_core` in `g`.
pub open spec fn scores(g: Graph, reg: TypeRegistry, w: Weights, core: Seq<NodeId>, non_core: Seq<NodeId>, s: Score) -> bool {
    let c = core.len();
    let r = realized(g.edges@, core, non_core);
    let cap = capacity(g, reg, non_core);
    &&& s.num as int == score_num(c, non_core.len(), r, cap, w)
    &&& s.den as int == score_den(c, cap, w)
}

/// Whether every part of the score of `core` and `non_core` fits in `u64`:
/// the capacity, the core count times the capacity, each power, and the
/// products of the powers.
pub open spec fn score_fits(g: Graph, reg: TypeRegistry, w: Weights, core: Seq<NodeId>, non_core: Seq<NodeId>) -> bool {
    let c = core.len();
    let n = non_core.len();
    let cap = capacity(g, reg, non_core);
    let size = pow(c as int, w.alpha as nat) * pow(n as int, w.beta as nat);
    let r = realized(g.edges@, core, non_core);
    &&& cap <= u64::MAX
    &&& c * cap <= u64::MAX
    &&& pow(c as int, w.alpha as nat) <= u64::MAX
    &&& pow(n as int, w.beta as nat) <= u64::MAX
    &&& size <= u64::MAX
    &&& match w.gamma {
        Some(gm) => {
            &&& pow(min_nat(r, c * cap) as int, gm as nat) <= u64::MAX
            &&& pow(if c * cap == 0 { 1 } else { (c * cap) as int }, gm as nat) <= u64::MAX
            &&& size * pow(min_nat(r, c * cap) as int, gm as nat) <= u64::MAX
        },
        None => true,
    }
}

pub proof fn lemma_capacity_prefix(g: Graph, reg: TypeRegistry, s: Seq<NodeId>, p: int)
    requires
        0 <= p <= s.len(),
    ensures
        capacity(g, reg, s.subrange(0, p)) <= capacity(g, reg, s),
    decreases s.len(),
{
    if p == s.len() {
        assert(s.subrange(0, p) =~= s);
    } else {
        lemma_capacity_prefix(g, reg, s.drop_last(), p);
        assert(s.drop_last().subrange(0, p) =~= s.subrange(0, p));
    }
}

/// A (partial) quasi-clique and its score.
#[derive(Clone, Debug)]
pub struct Candidate {
    pub core_ids: Vec<NodeId>,
    pub non_core_ids: Vec<NodeId>,
    pub score: Score,
}

impl Candidate {
    /// Members are distinct nodes of `g` of the right kind, every non-core
    /// member has an edge to every core member, and the score is the score
    /// of the members.
    pub open spec fn wf(&self, g: Graph, reg: TypeRegistry, w: Weights) -> bool {
        &&& self.core_ids@.no_duplicates()
        &&& self.non_core_ids@.no_duplicates()
        &&& forall|i: int| 0 <= i < self.core_ids.len() ==> is_core_id(g, #[trigger] self.core_ids[i])
        &&& forall|i: int| 0 <= i < self.non_core_ids.len() ==> is_non_core_id(g, #[trigger] self.non_core_ids[i])
        &&& forall|i: int, k: int| 0 <= i < self.non_core_ids.len() && 0 <= k < self.core_ids.len()
            ==> linked(g, #[trigger] self.core_ids[k], #[trigger] self.non_core_ids[i])
        &&& self.score.den > 0
        &&& scores(g, reg, w, self.core_ids@, self.non_core_ids@, self.score)
    }

    pub fn len(&self) -> (r: usize)
        requires
            self.core_ids.len() + self.non_core_ids.len() <= usize::MAX,
        ensures
            r == self.core_ids.len() + self.non_core_ids.len(),
    {
        self.core_ids.len() + self.non_core_ids.len()
    }
}

/// No node is both a core and a non-core member of a well-formed candidate.
pub proof fn lemma_candidate_disjoint(g: Graph, reg: TypeRegistry, w: Weights, cand: Candidate)
    requires
        g.wf(),
        cand.wf(g, reg, w),
    ensures
        cand.core_ids@.to_set().disjoint(cand.non_core_ids@.to_set()),
        forall|x: NodeId| cand.core_ids@.contains(x) ==> is_core_id(g, x),
        forall|x: NodeId| cand.non_core_ids@.contains(x) ==> is_non_core_id(g, x),
{
    assert forall|x: NodeId| cand.core_ids@.to_set().contains(x) implies !cand.non_core_ids@.to_set().contains(x) by {
        let i = choose|i: int| 0 <= i < cand.core_ids.len() && cand.core_ids[i] == x;
        assert(is_core_id(g, cand.core_ids[i]));
        if cand.non_core_ids@.to_set().contains(x) {
            let m = choose|m: int| 0 <= m < cand.non_core_ids.len() && cand.non_core_ids[m] == x;
            assert(is_non_core_id(g, cand.non_core_ids[m]));
            let a = choose|a: int| 0 <= a < g.nodes.len() && (#[trigger] g.nodes[a]).id == x && g.nodes[a].is_core;
            let b = choose|b: int| 0 <= b < g.nodes.len() && (#[trigger] g.nodes[b]).id == x && !g.nodes[b].is_core;
            assert(a != b);
        }
    }
    assert forall|x: NodeId| cand.core_ids@.contains(x) implies is_core_id(g, x) by {
        let i = choose|i: int| 0 <= i < cand.core_ids.len() && cand.core_ids[i] == x;
        assert(is_core_id(g, cand.core_ids[i]));
    }
    assert forall|x: NodeId| cand.non_core_ids@.contains(x) implies is_non_core_id(g, x) by {
        let i = choose|i: int| 0 <= i < cand.non_core_ids.len() && cand.non_core_ids[i] == x;
        assert(is_non_core_id(g, cand.non_core_ids[i]));
    }
}

/// Whether `a` scores strictly higher than `b`.
pub fn better(a: &Score, b: &Score) -> (r: bool)
    ensures
        r == score_gt(*a, *b),
{
    let an = a.num as u128;
    let ad = a.den as u128;
    let bn = b.num as u128;
    let bd = b.den as u128;
    assert(an * bd <= u64::MAX * u64::MAX) by (nonlinear_arith)
        requires an <= u64::MAX, bd <= u64::MAX;
    assert(bn * ad <= u64::MAX * u64::MAX) by (nonlinear_arith)
        requires bn <= u64::MAX, ad <= u64::MAX;
    let x: u128 = an * bd;
    let y: u128 = bn * ad;
    x > y
}

/// `b` to the power `e`, unless that exceeds `u64::MAX`.
fn checked_pow(b: u64, e: u32) -> (r: Option<u64>)
    ensures
        r matches Some(v) ==> v as int == pow(b as int, e as nat),
        r is None <==> pow(b as int, e as nat) > u64::MAX,
{
    let mut acc: u64 = 1;
    let mut i: u32 = 0;
    proof {
        reveal(pow);
    }
    while i < e
        invariant
            i <= e,
            acc as int == pow(b as int, i as nat),
        decreases e - i,
    {
        match acc.checked_mul(b) {
            Some(v) => {
                proof {
                    reveal(pow);
                    assert(pow(b as int, (i + 1) as nat) == b * pow(b as int, i as nat));
                    assert(v == acc * b);
                    assert(acc * b == b * acc) by (nonlinear_arith);
                }
                acc = v;
                i = i + 1;
            },
            None => {
                proof {
                    reveal(pow);
                    assert(pow(b as int, (i + 1) as nat) == b * pow(b as int, i as nat));
                    assert(acc * b > u64::MAX);
                    assert(b >= 2) by (nonlinear_arith)
                        requires acc * b > u64::MAX, acc <= u64::MAX, b >= 0, acc >= 0;
                    assert(acc * b == b * acc) by (nonlinear_arith);
                    vstd::arithmetic::power::lemma_pow_increases(b as nat, (i + 1) as nat, e as nat);
                }
                return None;
            },
        }
    }
    Some(acc)
}

/// Whether `x` is among `ids`.
pub fn contains_id(ids: &Vec<NodeId>, x: NodeId) -> (r: bool)
    ensures
        r == ids@.contains(x),
{
    let mut i: usize = 0;
    while i < ids.len()
        invariant
            i <= ids.len(),
            forall|j: int| 0 <= j < i ==> ids[j] != x,
        decreases ids.len() - i,
    {
        if ids[i] == x {
            assert(ids@[i as int] == x);
            return true;
        }
        i = i + 1;
    }
    false
}

/// The number of edges of `g` from a member of `core` to one of `non_core`.
pub fn count_realized(g: &Graph, core: &Vec<NodeId>, non_core: &Vec<NodeId>) -> (r: usize)
    ensures
        r == realized(g.edges@, core@, non_core@),
{
    let mut count: usize = 0;
    let mut i: usize = 0;
    while i < g.edges.len()
        invariant
            i <= g.edges.len(),
            count == realized(g.edges@.subrange(0, i as int), core@, non_core@),
            count <= i,
        decreases g.edges.len() - i,
    {
        assert(g.edges@.subrange(0, i as int + 1).drop_last() =~= g.edges@.subrange(0, i as int));
        if contains_id(core, g.edges[i].core_id) && contains_id(non_core, g.edges[i].non_core_id) {
            count = count + 1;
        }
        i = i + 1;
    }
    assert(g.edges@.subrange(0, i as int) =~= g.edges@);
    count
}

/// The position of the node with id `x`, if there is one.
pub fn find_node(g: &Graph, x: NodeId) -> (r: Option<usize>)
    ensures
        match r {
            Some(j) => j < g.nodes.len() && g.nodes[j as int].id == x,
            None => !ids_of(g.nodes@).contains(x),
        },
{
    let mut j: usize = 0;
    while j < g.nodes.len()
        invariant
            j <= g.nodes.len(),
            forall|i: int| 0 <= i < j ==> g.nodes[i].id != x,
        decreases g.nodes.len() - j,
    {
        if g.nodes[j].id == x {
            return Some(j);
        }
        j = j + 1;
    }
    None
}

fn capacity_of_node(g: &Graph, reg: &TypeRegistry, x: NodeId) -> (r: usize)
    requires
        g.wf(),
    ensures
        r == capacity_of(*g, *reg, x),
{
    match find_node(g, x) {
        None => 0,
        Some(j) => {
            let ghost k = choose|k: int| 0 <= k < g.nodes.len() && g.nodes[k].id == x;
            assert(ids_of(g.nodes@).contains(x));
            assert(k == j as int);
            let t = g.nodes[j].type_id;
            if 1 <= t.id && t.id <= reg.entries.len() {
                reg.entries[t.id - 1].max_edge_count
            } else {
                0
            }
        },
    }
}

/// The score of `core` and `non_core` in `g`, unless a part of it exceeds `u64`.
pub fn score_members(g: &Graph, reg: &TypeRegistry, w: &Weights, core: &Vec<NodeId>, non_core: &Vec<NodeId>) -> (r: Option<Score>)
    requires
        g.wf(),
    ensures
        r matches Some(s) ==> s.den > 0 && scores(*g, *reg, *w, core@, non_core@, s),
        r is Some <==> score_fits(*g, *reg, *w, core@, non_core@),
{
    let mut cap: u64 = 0;
    let mut i: usize = 0;
    while i < non_core.len()
        invariant
            g.wf(),
            i <= non_core.len(),
            cap as int == capacity(*g, *reg, non_core@.subrange(0, i as int)),
        decreases non_core.len() - i,
    {
        assert(non_core@.subrange(0, i as int + 1).drop_last() =~= non_core@.subrange(0, i as int));
        let c = capacity_of_node(g, reg, non_core[i]);
        match cap.checked_add(c as u64) {
            Some(v) => {
                cap = v;
            },
            None => {
                proof {
                    lemma_capacity_prefix(*g, *reg, non_core@, i as int + 1);
                }
                return None;
            },
        }
        i = i + 1;
    }
    assert(non_core@.subrange(0, i as int) =~= non_core@);
    let c = core.len() as u64;
    let n = non_core.len() as u64;
    let joined = count_realized(g, core, non_core) as u64;
    let base = match c.checked_mul(cap) {
        Some(v) => v,
        None => {
            return None;
        },
    };
    let pc = checked_pow(c, w.alpha);
    let pn = checked_pow(n, w.beta);
    if pc.is_none() || pn.is_none() {
        return None;
    }
    let pc = pc.unwrap();
    let pn = pn.unwrap();
    let size = match pc.checked_mul(pn) {
        Some(v) => v,
        None => {
            return None;
        },
    };
    match w.gamma {
        None => Some(Score { num: size, den: 1 }),
        Some(gamma) => {
            let dn = if joined <= base { joined } else { base };
            let dd = if base == 0 { 1 } else { base };
            let pdn = checked_pow(dn, gamma);
            let pdd = checked_pow(dd, gamma);
            if pdn.is_none() || pdd.is_none() {
                return None;
            }
            let pdn = pdn.unwrap();
            let pdd = pdd.unwrap();
            proof {
                vstd::arithmetic::power::lemma_pow_positive(dd as int, gamma as nat);
            }
            match size.checked_mul(pdn) {
                Some(v) => Some(Score { num: v, den: pdd }),
                None => None,
            }
        },
    }
}

} // verus!
