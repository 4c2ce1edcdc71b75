//! In-memory store for one scope: node and edge collections keyed by id,
//! with upsert (replace-in-place) semantics and distinct-id invariants.

use vstd::prelude::*;
use vstd::pervasive::VecAdditionalExecFns;

use crate::types::{EdgeV, GraphEdge, GraphNode, NodeV};

verus! {

/// Index of the first node with the given id, or -1 when absent.
pub open spec fn node_idx(s: Seq<NodeV>, id: Seq<char>) -> int
    decreases s.len(),
{
    if s.len() == 0 {
        -1
    } else if s[0].id == id {
        0
    } else if node_idx(s.drop_first(), id) == -1 {
        -1
    } else {
        node_idx(s.drop_first(), id) + 1
    }
}

/// Index of the first edge with the given id, or -1 when absent.
pub open spec fn edge_idx(s: Seq<EdgeV>, id: Seq<char>) -> int
    decreases s.len(),
{
    if s.len() == 0 {
        -1
    } else if s[0].id == id {
        0
    } else if edge_idx(s.drop_first(), id) == -1 {
        -1
    } else {
        edge_idx(s.drop_first(), id) + 1
    }
}

/// Upsert of a node into a node sequence: replace the first entry with the
/// same id in place, or append when the id is new.
pub open spec fn upsert_node_seq(s: Seq<NodeV>, n: NodeV) -> Seq<NodeV> {
    if node_idx(s, n.id) == -1 {
        s.push(n)
    } else {
        s.update(node_idx(s, n.id), n)
    }
}

/// Upsert of an edge into an edge sequence, keyed by edge id.
pub open spec fn upsert_edge_seq(s: Seq<EdgeV>, e: EdgeV) -> Seq<EdgeV> {
    if edge_idx(s, e.id) == -1 {
        s.push(e)
    } else {
        s.update(edge_idx(s, e.id), e)
    }
}

pub open spec fn distinct_node_ids(s: Seq<NodeV>) -> bool {
    forall|i: int, j: int| 0 <= i < j < s.len() ==> s[i].id != s[j].id
}

pub open spec fn distinct_edge_ids(s: Seq<EdgeV>) -> bool {
    forall|i: int, j: int| 0 <= i < j < s.len() ==> s[i].id != s[j].id
}

/// `node_idx` finds the first occurrence: when it answers -1 the id is
/// nowhere in the sequence, otherwise it points at the id and nothing before
/// it carries the id.
pub proof fn lemma_node_idx(s: Seq<NodeV>, id: Seq<char>)
    ensures
        node_idx(s, id) == -1 ==> forall|j: int| 0 <= j < s.len() ==> s[j].id != id,
        node_idx(s, id) != -1 ==> 0 <= node_idx(s, id) < s.len() && s[node_idx(s, id)].id == id
            && forall|j: int| 0 <= j < node_idx(s, id) ==> s[j].id != id,
    decreases s.len(),
{
    if s.len() > 0 && s[0].id != id {
        lemma_node_idx(s.drop_first(), id);
        assert forall|j: int| 0 <= j < s.len() && node_idx(s, id) == -1 implies s[j].id
            != id by {
            if j > 0 {
                assert(s.drop_first()[j - 1] == s[j]);
            }
        }
        if node_idx(s, id) != -1 {
            let r = node_idx(s.drop_first(), id);
            assert(s[r + 1] == s.drop_first()[r]);
            assert forall|j: int| 0 <= j < node_idx(s, id) implies s[j].id != id by {
                if j > 0 {
                    assert(s.drop_first()[j - 1] == s[j]);
                }
            }
        }
    }
}

/// The first index with a matching id is what `node_idx` answers.
pub proof fn lemma_node_idx_first(s: Seq<NodeV>, id: Seq<char>, k: int)
    requires
        0 <= k < s.len(),
        s[k].id == id,
        forall|j: int| 0 <= j < k ==> s[j].id != id,
    ensures
        node_idx(s, id) == k,
    decreases s.len(),
{
    if s[0].id != id {
        assert(forall|j: int| 0 <= j < k - 1 ==> s.drop_first()[j] == s[j + 1]);
        assert(s.drop_first()[k - 1] == s[k]);
        lemma_node_idx_first(s.drop_first(), id, k - 1);
    }
}

pub proof fn lemma_edge_idx(s: Seq<EdgeV>, id: Seq<char>)
    ensures
        edge_idx(s, id) == -1 ==> forall|j: int| 0 <= j < s.len() ==> s[j].id != id,
        edge_idx(s, id) != -1 ==> 0 <= edge_idx(s, id) < s.len() && s[edge_idx(s, id)].id == id
            && forall|j: int| 0 <= j < edge_idx(s, id) ==> s[j].id != id,
    decreases s.len(),
{
    if s.len() > 0 && s[0].id != id {
        lemma_edge_idx(s.drop_first(), id);
        assert forall|j: int| 0 <= j < s.len() && edge_idx(s, id) == -1 implies s[j].id
            != id by {
            if j > 0 {
                assert(s.drop_first()[j - 1] == s[j]);
            }
        }
        if edge_idx(s, id) != -1 {
            let r = edge_idx(s.drop_first(), id);
            assert(s[r + 1] == s.drop_first()[r]);
            assert forall|j: int| 0 <= j < edge_idx(s, id) implies s[j].id != id by {
                if j > 0 {
                    assert(s.drop_first()[j - 1] == s[j]);
                }
            }
        }
    }
}

pub proof fn lemma_edge_idx_first(s: Seq<EdgeV>, id: Seq<char>, k: int)
    requires
        0 <= k < s.len(),
        s[k].id == id,
        forall|j: int| 0 <= j < k ==> s[j].id != id,
    ensures
        edge_idx(s, id) == k,
    decreases s.len(),
{
    if s[0].id != id {
        assert(forall|j: int| 0 <= j < k - 1 ==> s.drop_first()[j] == s[j + 1]);
        assert(s.drop_first()[k - 1] == s[k]);
        lemma_edge_idx_first(s.drop_first(), id, k - 1);
    }
}

/// Upsert keeps node ids distinct.
pub proof fn lemma_upsert_node_distinct(s: Seq<NodeV>, n: NodeV)
    requires
        distinct_node_ids(s),
    ensures
        distinct_node_ids(upsert_node_seq(s, n)),
{
    lemma_node_idx(s, n.id);
}

/// Upsert keeps edge ids distinct.
pub proof fn lemma_upsert_edge_distinct(s: Seq<EdgeV>, e: EdgeV)
    requires
        distinct_edge_ids(s),
    ensures
        distinct_edge_ids(upsert_edge_seq(s, e)),
{
    lemma_edge_idx(s, e.id);
}

/// Lookup by id in a node sequence: the first entry under the id, or absent.
pub open spec fn lookup_node_seq(s: Seq<NodeV>, id: Seq<char>) -> Option<NodeV> {
    if node_idx(s, id) == -1 {
        Option::None
    } else {
        Option::Some(s[node_idx(s, id)])
    }
}

/// Law: node upserts are idempotent in the id. Writing under one id twice,
/// with any two contents, leaves the store exactly as the second write alone
/// would: one entry under that id, holding the latest contents.
pub proof fn lemma_upsert_node_latest_wins(s: Seq<NodeV>, n1: NodeV, n2: NodeV)
    requires
        distinct_node_ids(s),
        n1.id == n2.id,
    ensures
        upsert_node_seq(upsert_node_seq(s, n1), n2) == upsert_node_seq(s, n2),
{
    let id = n1.id;
    lemma_node_idx(s, id);
    let i = node_idx(s, id);
    if i == -1 {
        lemma_node_idx_first(s.push(n1), id, s.len() as int);
        assert(upsert_node_seq(s.push(n1), n2) =~= s.push(n2));
    } else {
        assert forall|j: int| 0 <= j < i implies s.update(i, n1)[j].id != id by {
            assert(s.update(i, n1)[j] == s[j]);
        }
        lemma_node_idx_first(s.update(i, n1), id, i);
        assert(upsert_node_seq(s.update(i, n1), n2) =~= s.update(i, n2));
    }
}

/// Law: edge upserts are idempotent in the id, as node upserts are.
pub proof fn lemma_upsert_edge_latest_wins(s: Seq<EdgeV>, e1: EdgeV, e2: EdgeV)
    requires
        distinct_edge_ids(s),
        e1.id == e2.id,
    ensures
        upsert_edge_seq(upsert_edge_seq(s, e1), e2) == upsert_edge_seq(s, e2),
{
    let id = e1.id;
    lemma_edge_idx(s, id);
    let i = edge_idx(s, id);
    if i == -1 {
        lemma_edge_idx_first(s.push(e1), id, s.len() as int);
        assert(upsert_edge_seq(s.push(e1), e2) =~= s.push(e2));
    } else {
        assert forall|j: int| 0 <= j < i implies s.update(i, e1)[j].id != id by {
            assert(s.update(i, e1)[j] == s[j]);
        }
        lemma_edge_idx_first(s.update(i, e1), id, i);
        assert(upsert_edge_seq(s.update(i, e1), e2) =~= s.update(i, e2));
    }
}

/// After an upsert the written node is the one read back under its id, and
/// every other id reads as before.
pub proof fn lemma_upsert_node_lookup(s: Seq<NodeV>, n: NodeV, id: Seq<char>)
    requires
        distinct_node_ids(s),
    ensures
        lookup_node_seq(upsert_node_seq(s, n), n.id) == Option::Some(n),
        id != n.id ==> lookup_node_seq(upsert_node_seq(s, n), id) == lookup_node_seq(s, id),
{
    lemma_node_idx(s, n.id);
    let i = node_idx(s, n.id);
    let t = upsert_node_seq(s, n);
    if i == -1 {
        lemma_node_idx_first(t, n.id, s.len() as int);
    } else {
        assert forall|j: int| 0 <= j < i implies t[j].id != n.id by {
            assert(t[j] == s[j]);
        }
        lemma_node_idx_first(t, n.id, i);
    }
    if id != n.id {
        lemma_node_idx(s, id);
        lemma_node_idx(t, id);
        let k = node_idx(s, id);
        if k == -1 {
            lemma_node_idx(t, id);
            if node_idx(t, id) != -1 {
                let m = node_idx(t, id);
                assert(t[m].id == id);
                if i == -1 {
                    if m < s.len() {
                        assert(s[m] == t[m]);
                    }
                } else {
                    assert(m != i);
                    assert(s[m] == t[m]);
                }
            }
        } else {
            assert(s[k].id == id);
            assert(t[k] == s[k]);
            assert forall|j: int| 0 <= j < k implies t[j].id != id by {
                assert(t[j] == s[j] || (i == j && t[j] == n));
            }
            lemma_node_idx_first(t, id, k);
        }
    }
}

/// Mathematical view of one scope's store.
pub struct StoreV {
    pub nodes: Seq<NodeV>,
    pub edges: Seq<EdgeV>,
}

/// In-memory store of one scope. Nodes and edges are held in insertion
/// order; ids are unique within each collection.
pub struct MemStore {
    pub nodes: Vec<GraphNode>,
    pub edges: Vec<GraphEdge>,
}

impl View for MemStore {
    type V = StoreV;

    open spec fn view(&self) -> StoreV {
        StoreV { nodes: self.nodes.deep_view(), edges: self.edges.deep_view() }
    }
}

impl MemStore {
    /// The store's invariant: node ids and edge ids are distinct.
    pub open spec fn wf(&self) -> bool {
        distinct_node_ids(self@.nodes) && distinct_edge_ids(self@.edges)
    }

    pub fn new() -> (r: MemStore)
        ensures
            r@.nodes == Seq::<NodeV>::empty(),
            r@.edges == Seq::<EdgeV>::empty(),
            r.wf(),
    {
        let r = MemStore { nodes: Vec::new(), edges: Vec::new() };
        proof {
            assert(r@.nodes =~= Seq::<NodeV>::empty());
            assert(r@.edges =~= Seq::<EdgeV>::empty());
        }
        r
    }

    /// Write or replace the node under its id: the first entry with the same
    /// id is replaced in place, a new id is appended. Nothing else changes.
    pub fn put_node(&mut self, n: GraphNode)
        requires
            old(self).wf(),
        ensures
            final(self).wf(),
            final(self)@.nodes == upsert_node_seq(old(self)@.nodes, n@),
            final(self)@.edges == old(self)@.edges,
    {
        proof {
            lemma_upsert_node_distinct(self@.nodes, n@);
        }
        let ghost orig = old(self)@.nodes;
        let mut i: usize = 0;
        while i < self.nodes.len()
            invariant
                *self == *old(self),
                i <= self.nodes.len(),
                forall|j: int| 0 <= j < i ==> orig[j].id != n@.id,
            decreases self.nodes.len() - i,
        {
            if self.nodes[i].id == n.id {
                proof {
                    assert(orig[i as int] == self.nodes@[i as int]@);
                    lemma_node_idx_first(orig, n@.id, i as int);
                }
                self.nodes.set(i, n);
                proof {
                    assert(self@.nodes =~= upsert_node_seq(orig, n@));
                }
                return ;
            }
            proof {
                assert(orig[i as int] == self.nodes@[i as int]@);
            }
            i = i + 1;
        }
        proof {
            lemma_node_idx(orig, n@.id);
        }
        self.nodes.push(n);
        proof {
            assert(self@.nodes =~= upsert_node_seq(orig, n@));
        }
    }

    /// Write or replace the edge under its id, as `put_node` does for nodes.
    pub fn put_edge(&mut self, e: GraphEdge)
        requires
            old(self).wf(),
        ensures
            final(self).wf(),
            final(self)@.edges == upsert_edge_seq(old(self)@.edges, e@),
            final(self)@.nodes == old(self)@.nodes,
    {
        proof {
            lemma_upsert_edge_distinct(self@.edges, e@);
        }
        let ghost orig = old(self)@.edges;
        let mut i: usize = 0;
        while i < self.edges.len()
            invariant
                *self == *old(self),
                i <= self.edges.len(),
                forall|j: int| 0 <= j < i ==> orig[j].id != e@.id,
            decreases self.edges.len() - i,
        {
            if self.edges[i].id == e.id {
                proof {
                    assert(orig[i as int] == self.edges@[i as int]@);
                    lemma_edge_idx_first(orig, e@.id, i as int);
                }
                self.edges.set(i, e);
                proof {
                    assert(self@.edges =~= upsert_edge_seq(orig, e@));
                }
                return ;
            }
            proof {
                assert(orig[i as int] == self.edges@[i as int]@);
            }
            i = i + 1;
        }
        proof {
            lemma_edge_idx(orig, e@.id);
        }
        self.edges.push(e);
        proof {
            assert(self@.edges =~= upsert_edge_seq(orig, e@));
        }
    }

    /// Exact lookup by id: the stored node, or absent. Absence is a valid
    /// outcome, not an error.
    pub fn get_node(&self, id: &str) -> (r: Option<GraphNode>)
        ensures
            match r {
                Option::Some(n) => node_idx(self@.nodes, id@) >= 0 && n@ == self@.nodes[node_idx(
                    self@.nodes,
                    id@,
                )],
                Option::None => node_idx(self@.nodes, id@) == -1,
            },
    {
        let key = id.to_owned();
        let mut i: usize = 0;
        while i < self.nodes.len()
            invariant
                key@ == id@,
                i <= self.nodes.len(),
                forall|j: int| 0 <= j < i ==> self@.nodes[j].id != id@,
            decreases self.nodes.len() - i,
        {
            if self.nodes[i].id == key {
                proof {
                    lemma_node_idx_first(self@.nodes, id@, i as int);
                }
                return Option::Some(self.nodes[i].clone());
            }
            i = i + 1;
        }
        proof {
            lemma_node_idx(self@.nodes, id@);
        }
        Option::None
    }
}

} // verus!
