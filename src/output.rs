//! The text line that reports a partition's best candidate.
use vstd::prelude::*;
use crate::candidate::Candidate;
use crate::ids::{GraphId, NodeId};

verus! {

/// The decimal digits of `n`.
pub open spec fn digits_text(n: nat) -> Seq<char>
    decreases n,
{
    if n < 10 {
        seq![(n + '0' as nat) as char]
    } else {
        digits_text(n / 10).push(((n % 10) + '0' as nat) as char)
    }
}

/// The decimal form of `v`, with a leading `-` when it is negative.
pub open spec fn decimal_text(v: int) -> Seq<char> {
    if v < 0 {
        seq!['-'] + digits_text((-v) as nat)
    } else {
        digits_text(v as nat)
    }
}

/// Relies on std's `Display` for `i64` (through `to_string`): the decimal
/// form, with a leading `-` for a negative value.
#[verifier::external_body]
pub(crate) fn render_i64(v: i64) -> (r: String)
    ensures
        r@ == decimal_text(v as int),
{
    v.to_string()
}


/// The ids of `ids` in decimal, separated by commas.
pub open spec fn joined(ids: Seq<NodeId>) -> Seq<char>
    decreases ids.len(),
{
    if ids.len() == 0 {
        Seq::empty()
    } else if ids.len() == 1 {
        decimal_text(ids[0].id as int)
    } else {
        joined(ids.drop_last()) + seq![','] + decimal_text(ids.last().id as int)
    }
}

/// The partition id, the core ids and the non-core ids, separated by tabs.
pub open spec fn candidate_text(graph_id: i64, core: Seq<NodeId>, non_core: Seq<NodeId>) -> Seq<char> {
    decimal_text(graph_id as int) + seq!['\t'] + joined(core) + seq!['\t'] + joined(non_core)
}

fn join_ids(ids: &Vec<NodeId>) -> (r: String)
    ensures
        r@ == joined(ids@),
{
    let mut out = String::new();
    let mut i: usize = 0;
    while i < ids.len()
        invariant
            i <= ids.len(),
            out@ == joined(ids@.subrange(0, i as int)),
        decreases ids.len() - i,
    {
        assert(ids@.subrange(0, i as int + 1).drop_last() =~= ids@.subrange(0, i as int));
        let text = render_i64(ids[i].id);
        if i == 0 {
            out = out.concat(text.as_str());
            assert(out@ =~= joined(ids@.subrange(0, 1)));
        } else {
            let ghost before = out@;
            let ghost sub = ids@.subrange(0, i as int + 1);
            assert(sub.last() == ids@[i as int]);
            assert(sub.len() >= 2);
            assert(joined(sub) == joined(sub.drop_last()) + seq![','] + decimal_text(sub.last().id as int));
            out = out.concat(",");
            proof {
                reveal_strlit(",");
            }
            assert(out@ =~= before + seq![',']);
            out = out.concat(text.as_str());
            assert(out@ =~= joined(ids@.subrange(0, i as int + 1)));
        }
        i = i + 1;
    }
    assert(ids@.subrange(0, i as int) =~= ids@);
    out
}

/// The report line of `c`, found in partition `graph_id`.
pub fn candidate_line(graph_id: GraphId, c: &Candidate) -> (r: String)
    ensures
        r@ == candidate_text(graph_id.id, c.core_ids@, c.non_core_ids@),
{
    proof {
        reveal_strlit("\t");
    }
    let s = render_i64(graph_id.id);
    let s = s.concat("\t");
    let s = s.concat(join_ids(&c.core_ids).as_str());
    let s = s.concat("\t");
    let s = s.concat(join_ids(&c.non_core_ids).as_str());
    assert(s@ =~= candidate_text(graph_id.id, c.core_ids@, c.non_core_ids@));
    s
}

} // verus!
