//! Deterministic edge identity: an edge's id is a pure function of its
//! (relation, source, destination) triple, so writing the same triple twice
//! always addresses the same edge.

use vstd::prelude::*;
use vstd::string::StringExecFns;

verus! {

/// The edge id derived from a (rel, src, dst) triple.
pub open spec fn edge_id_spec(rel: Seq<char>, src: Seq<char>, dst: Seq<char>) -> Seq<char> {
    "edge:"@ + rel + ":"@ + src + ":"@ + dst
}

/// Builds the deterministic edge id `"edge:" + rel + ":" + src + ":" + dst`.
pub fn edge_id(rel: &str, src: &str, dst: &str) -> (r: String)
    ensures
        r@ == edge_id_spec(rel@, src@, dst@),
{
    let mut s = String::from_str("edge:");
    s.append(rel);
    s.append(":");
    s.append(src);
    s.append(":");
    s.append(dst);
    proof {
        assert(s@ =~= edge_id_spec(rel@, src@, dst@));
    }
    s
}

/// Law: edge identity is deterministic. Two edges built from the same
/// (rel, src, dst) triple carry the same id.
pub proof fn lemma_edge_id_deterministic(
    rel1: Seq<char>,
    src1: Seq<char>,
    dst1: Seq<char>,
    rel2: Seq<char>,
    src2: Seq<char>,
    dst2: Seq<char>,
)
    requires
        rel1 == rel2,
        src1 == src2,
        dst1 == dst2,
    ensures
        edge_id_spec(rel1, src1, dst1) == edge_id_spec(rel2, src2, dst2),
{
}

} // verus!
