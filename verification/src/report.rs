//! The node report: the edges around one node, split into incoming and
//! outgoing, each sorted by edge id and truncated to a display limit.

use vstd::prelude::*;

use crate::activate::{lex_lt, str_lt};
use crate::types::{EdgeV, GraphEdge, SubGraph};

verus! {

/// The edges leaving the node: source is the node.
pub open spec fn out_edges_upto(edges: Seq<EdgeV>, id: Seq<char>, i: int) -> Seq<EdgeV>
    decreases i,
{
    if i <= 0 {
        Seq::empty()
    } else {
        let prev = out_edges_upto(edges, id, i - 1);
        if edges[i - 1].src == id {
            prev.push(edges[i - 1])
        } else {
            prev
        }
    }
}

/// The edges arriving at the node: destination is the node, source is not.
pub open spec fn in_edges_upto(edges: Seq<EdgeV>, id: Seq<char>, i: int) -> Seq<EdgeV>
    decreases i,
{
    if i <= 0 {
        Seq::empty()
    } else {
        let prev = in_edges_upto(edges, id, i - 1);
        if edges[i - 1].src != id && edges[i - 1].dst == id {
            prev.push(edges[i - 1])
        } else {
            prev
        }
    }
}

/// Insertion of an edge before the first entry whose id it precedes.
pub open spec fn insert_edge_by_id(s: Seq<EdgeV>, e: EdgeV) -> Seq<EdgeV>
    decreases s.len(),
{
    if s.len() == 0 {
        seq![e]
    } else if lex_lt(e.id, s[0].id) {
        seq![e] + s
    } else {
        seq![s[0]] + insert_edge_by_id(s.drop_first(), e)
    }
}

/// Insertion sort of edges by ascending id.
pub open spec fn sort_edges_by_id(s: Seq<EdgeV>) -> Seq<EdgeV>
    decreases s.len(),
{
    if s.len() == 0 {
        Seq::empty()
    } else {
        insert_edge_by_id(sort_edges_by_id(s.drop_first()), s[0])
    }
}

pub proof fn lemma_insert_edge_at(s: Seq<EdgeV>, e: EdgeV, p: int)
    requires
        0 <= p <= s.len(),
        forall|j: int| 0 <= j < p ==> !lex_lt(e.id, s[j].id),
        p < s.len() ==> lex_lt(e.id, s[p].id),
    ensures
        insert_edge_by_id(s, e) == s.subrange(0, p) + seq![e] + s.subrange(p, s.len() as int),
    decreases s.len(),
{
    if s.len() == 0 {
        assert(insert_edge_by_id(s, e) =~= s.subrange(0, p) + seq![e] + s.subrange(
            p,
            s.len() as int,
        ));
    } else if lex_lt(e.id, s[0].id) {
        assert(p == 0);
        assert(insert_edge_by_id(s, e) =~= s.subrange(0, 0) + seq![e] + s.subrange(
            0,
            s.len() as int,
        ));
    } else {
        assert(p >= 1);
        assert(forall|j: int|
            0 <= j < p - 1 ==> s.drop_first()[j] == s[j + 1] && !lex_lt(e.id, s[j + 1].id));
        if p - 1 < s.drop_first().len() {
            assert(s.drop_first()[p - 1] == s[p]);
        }
        lemma_insert_edge_at(s.drop_first(), e, p - 1);
        assert(insert_edge_by_id(s, e) =~= s.subrange(0, p) + seq![e] + s.subrange(
            p,
            s.len() as int,
        ));
    }
}

/// Executable insertion sort of edges by id, exact to `sort_edges_by_id`.
fn sort_edges(edges: Vec<GraphEdge>) -> (r: Vec<GraphEdge>)
    ensures
        r.deep_view() == sort_edges_by_id(edges.deep_view()),
{
    let ghost inv = edges.deep_view();
    let mut out: Vec<GraphEdge> = Vec::new();
    let mut k: usize = edges.len();
    proof {
        assert(out.deep_view() =~= sort_edges_by_id(inv.subrange(k as int, inv.len() as int)));
    }
    while k > 0
        invariant
            k <= edges.len(),
            inv == edges.deep_view(),
            out.deep_view() == sort_edges_by_id(inv.subrange(k as int, inv.len() as int)),
        decreases k,
    {
        k = k - 1;
        proof {
            assert(inv[k as int] == edges@[k as int]@);
        }
        let x = edges[k].clone();
        let ghost xg = inv[k as int];
        let ghost pre = out.deep_view();
        let mut p: usize = 0;
        while p < out.len() && !str_lt(&x.id, &out[p].id)
            invariant
                p <= out.len(),
                forall|j: int| 0 <= j < p ==> !lex_lt(xg.id, pre[j].id),
                x@ == xg,
                pre == out.deep_view(),
            decreases out.len() - p,
        {
            proof {
                assert(pre[p as int] == out@[p as int]@);
            }
            p = p + 1;
        }
        proof {
            if p < out.len() {
                assert(pre[p as int] == out@[p as int]@);
            }
            lemma_insert_edge_at(pre, xg, p as int);
        }
        out.insert(p, x);
        proof {
            assert(inv.subrange(k as int, inv.len() as int).drop_first() =~= inv.subrange(
                k as int + 1,
                inv.len() as int,
            ));
            assert(inv.subrange(k as int, inv.len() as int)[0] == xg);
            assert(out.deep_view() =~= pre.subrange(0, p as int) + seq![xg] + pre.subrange(
                p as int,
                pre.len() as int,
            ));
        }
    }
    proof {
        assert(inv.subrange(0, inv.len() as int) =~= inv);
    }
    out
}

/// The report around one node: the incoming and the outgoing edges of a
/// traversal result, each sorted by ascending edge id and truncated to
/// `limit`.
pub fn node_report(sub: &SubGraph, id: &str, limit: usize) -> (r: (Vec<GraphEdge>, Vec<GraphEdge>))
    ensures
        ({
            let all = sub.edges.deep_view();
            let ins = sort_edges_by_id(in_edges_upto(all, id@, all.len() as int));
            let outs = sort_edges_by_id(out_edges_upto(all, id@, all.len() as int));
            r.0.deep_view() == ins.subrange(
                0,
                (if limit < ins.len() {
                    limit as int
                } else {
                    ins.len() as int
                }),
            ) && r.1.deep_view() == outs.subrange(
                0,
                (if limit < outs.len() {
                    limit as int
                } else {
                    outs.len() as int
                }),
            )
        }),
{
    let ghost all = sub.edges.deep_view();
    let key = id.to_owned();
    let mut ins: Vec<GraphEdge> = Vec::new();
    let mut outs: Vec<GraphEdge> = Vec::new();
    proof {
        assert(ins.deep_view() =~= in_edges_upto(all, id@, 0));
        assert(outs.deep_view() =~= out_edges_upto(all, id@, 0));
    }
    let mut i: usize = 0;
    while i < sub.edges.len()
        invariant
            i <= sub.edges.len(),
            key@ == id@,
            all == sub.edges.deep_view(),
            ins.deep_view() == in_edges_upto(all, id@, i as int),
            outs.deep_view() == out_edges_upto(all, id@, i as int),
        decreases sub.edges.len() - i,
    {
        proof {
            assert(all[i as int] == sub.edges@[i as int]@);
        }
        let e = &sub.edges[i];
        if e.src == key {
            outs.push(e.clone());
            proof {
                assert(outs.deep_view() =~= out_edges_upto(all, id@, i as int).push(all[i as int]));
            }
        } else if e.dst == key {
            ins.push(e.clone());
            proof {
                assert(ins.deep_view() =~= in_edges_upto(all, id@, i as int).push(all[i as int]));
            }
        }
        i = i + 1;
    }
    let mut ins_sorted = sort_edges(ins);
    let mut outs_sorted = sort_edges(outs);
    if ins_sorted.len() > limit {
        ins_sorted.truncate(limit);
    }
    if outs_sorted.len() > limit {
        outs_sorted.truncate(limit);
    }
    proof {
        let insv = sort_edges_by_id(in_edges_upto(all, id@, all.len() as int));
        let outsv = sort_edges_by_id(out_edges_upto(all, id@, all.len() as int));
        assert(ins_sorted.deep_view() =~= insv.subrange(
            0,
            (if limit < insv.len() {
                limit as int
            } else {
                insv.len() as int
            }),
        ));
        assert(outs_sorted.deep_view() =~= outsv.subrange(
            0,
            (if limit < outsv.len() {
                limit as int
            } else {
                outsv.len() as int
            }),
        ));
    }
    (ins_sorted, outs_sorted)
}

} // verus!
