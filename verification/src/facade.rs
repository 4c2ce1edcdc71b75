//! The facade: the single entry point of the engine. It resolves each call
//! to one scope's store, keeps scopes fully isolated, and hosts the
//! operations over them. The stores it serves are in-process; a variant that
//! forwards the same operations to a peer process belongs to the
//! control-plane transport around the engine, which reports its failures as
//! `GraphError::BackendUnavailable`.

use vstd::prelude::*;
use vstd::string::StringExecFns;
use vstd::pervasive::VecAdditionalExecFns;

use crate::activate::{activate, activate_spec, scores_view};
use crate::export::{dot_spec, jsonl_spec, render_dot, render_jsonl};
use crate::ids::{edge_id, edge_id_spec};
use crate::meta::{json_ok, meta_is_valid};
use crate::scope::scope_eq;
use crate::store::{
    distinct_edge_ids, distinct_node_ids, lookup_node_seq, upsert_edge_seq, upsert_node_seq,
    MemStore, StoreV,
};
use crate::traverse::{bfs_neighbors, bfs_spec, MAX_TRAVERSAL_DEPTH};
use crate::types::{
    ActivationPolicy, EdgeV, FiltersV, GraphEdge, GraphError, GraphExportFormat, GraphNode,
    GraphScope, GraphStats, NeighborFilters, NodeV, ScopeV, SubGraph,
};

verus! {

/// Mathematical view of the facade: scope/store pairs in creation order,
/// with distinct scope keys.
pub struct FacadeV {
    pub scopes: Seq<(ScopeV, StoreV)>,
}

/// Index of the first entry under the given scope key, or -1 when absent.
pub open spec fn sidx(s: Seq<(ScopeV, StoreV)>, k: ScopeV) -> int
    decreases s.len(),
{
    if s.len() == 0 {
        -1
    } else if s[0].0 == k {
        0
    } else if sidx(s.drop_first(), k) == -1 {
        -1
    } else {
        sidx(s.drop_first(), k) + 1
    }
}

/// The store that never held anything.
pub open spec fn empty_store() -> StoreV {
    StoreV { nodes: Seq::empty(), edges: Seq::empty() }
}

/// The store serving a scope key: the one registered under it, or the empty
/// store while the scope was never written.
pub open spec fn store_of(f: FacadeV, k: ScopeV) -> StoreV {
    if sidx(f.scopes, k) == -1 {
        empty_store()
    } else {
        f.scopes[sidx(f.scopes, k)].1
    }
}

pub open spec fn store_wf(v: StoreV) -> bool {
    distinct_node_ids(v.nodes) && distinct_edge_ids(v.edges)
}

pub open spec fn facade_wf(f: FacadeV) -> bool {
    &&& forall|i: int, j: int| 0 <= i < j < f.scopes.len() ==> f.scopes[i].0 != f.scopes[j].0
    &&& forall|i: int| 0 <= i < f.scopes.len() ==> store_wf(#[trigger] f.scopes[i].1)
}

pub proof fn lemma_sidx(s: Seq<(ScopeV, StoreV)>, k: ScopeV)
    ensures
        sidx(s, k) == -1 ==> forall|j: int| 0 <= j < s.len() ==> s[j].0 != k,
        sidx(s, k) != -1 ==> 0 <= sidx(s, k) < s.len() && s[sidx(s, k)].0 == k && forall|j: int|
            0 <= j < sidx(s, k) ==> s[j].0 != k,
    decreases s.len(),
{
    if s.len() > 0 && s[0].0 != k {
        lemma_sidx(s.drop_first(), k);
        assert forall|j: int| 0 <= j < s.len() && sidx(s, k) == -1 implies s[j].0 != k by {
            if j > 0 {
                assert(s.drop_first()[j - 1] == s[j]);
            }
        }
        if sidx(s, k) != -1 {
            let r = sidx(s.drop_first(), k);
            assert(s[r + 1] == s.drop_first()[r]);
            assert forall|j: int| 0 <= j < sidx(s, k) implies s[j].0 != k by {
                if j > 0 {
                    assert(s.drop_first()[j - 1] == s[j]);
                }
            }
        }
    }
}

pub proof fn lemma_sidx_first(s: Seq<(ScopeV, StoreV)>, k: ScopeV, j: int)
    requires
        0 <= j < s.len(),
        s[j].0 == k,
        forall|m: int| 0 <= m < j ==> s[m].0 != k,
    ensures
        sidx(s, k) == j,
    decreases s.len(),
{
    if s[0].0 != k {
        assert(forall|m: int| 0 <= m < j - 1 ==> s.drop_first()[m] == s[m + 1]);
        assert(s.drop_first()[j - 1] == s[j]);
        lemma_sidx_first(s.drop_first(), k, j - 1);
    }
}

/// Two sequences with pointwise-equal scope keys index every key alike.
pub proof fn lemma_sidx_same_keys(s1: Seq<(ScopeV, StoreV)>, s2: Seq<(ScopeV, StoreV)>, k: ScopeV)
    requires
        s1.len() == s2.len(),
        forall|i: int| 0 <= i < s1.len() ==> s1[i].0 == #[trigger] s2[i].0,
    ensures
        sidx(s1, k) == sidx(s2, k),
{
    lemma_sidx(s1, k);
    lemma_sidx(s2, k);
    if sidx(s1, k) == -1 {
        if sidx(s2, k) != -1 {
            assert(s1[sidx(s2, k)].0 == k);
        }
    } else {
        lemma_sidx_first(s2, k, sidx(s1, k));
    }
}

/// The facade over the scoped stores it owns. Stores are created lazily,
/// one per scope, in first-touch order; the scope keys stay distinct, so a
/// scope always resolves to the same store.
pub struct GraphFacade {
    pub scopes: Vec<(GraphScope, MemStore)>,
}

impl View for GraphFacade {
    type V = FacadeV;

    open spec fn view(&self) -> FacadeV {
        FacadeV {
            scopes: Seq::new(
                self.scopes@.len(),
                |i: int| (self.scopes@[i].0@, self.scopes@[i].1@),
            ),
        }
    }
}

impl GraphFacade {
    pub open spec fn wf(&self) -> bool {
        facade_wf(self@)
    }

    pub fn new() -> (r: GraphFacade)
        ensures
            r.wf(),
            r@.scopes.len() == 0,
    {
        GraphFacade { scopes: Vec::new() }
    }

    /// Index of the scope's store, creating an empty one when the scope was
    /// never touched.
    fn scope_pos(&mut self, scope: &GraphScope) -> (idx: usize)
        requires
            old(self).wf(),
        ensures
            final(self).wf(),
            idx < final(self)@.scopes.len(),
            sidx(final(self)@.scopes, scope@) == idx,
            sidx(old(self)@.scopes, scope@) != -1 ==> final(self)@ == old(self)@ && idx == sidx(
                old(self)@.scopes,
                scope@,
            ),
            sidx(old(self)@.scopes, scope@) == -1 ==> final(self)@.scopes == old(
                self,
            )@.scopes.push((scope@, empty_store())),
    {
        let mut i: usize = 0;
        while i < self.scopes.len()
            invariant
                *self == *old(self),
                i <= self.scopes.len(),
                forall|j: int| 0 <= j < i ==> self@.scopes[j].0 != scope@,
            decreases self.scopes.len() - i,
        {
            if scope_eq(&self.scopes[i].0, scope) {
                proof {
                    lemma_sidx_first(self@.scopes, scope@, i as int);
                }
                return i;
            }
            i = i + 1;
        }
        proof {
            lemma_sidx(self@.scopes, scope@);
        }
        let n = self.scopes.len();
        self.scopes.push((scope.dup(), MemStore::new()));
        proof {
            assert(self@.scopes =~= old(self)@.scopes.push((scope@, empty_store())));
            assert forall|m: int| 0 <= m < n implies self@.scopes[m].0 != scope@ by {}
            lemma_sidx_first(self@.scopes, scope@, n as int);
        }
        n
    }

    /// Writes or replaces a node in the scope's store. Succeeds exactly when
    /// the node's attribute bag is valid JSON; an invalid bag is rejected and
    /// nothing changes. No other scope is touched.
    pub fn put_node(&mut self, scope: &GraphScope, n: GraphNode) -> (r: Result<(), GraphError>)
        requires
            old(self).wf(),
        ensures
            final(self).wf(),
            r is Ok <==> json_ok(n@.meta),
            r is Err ==> r == Result::<(), GraphError>::Err(GraphError::InvalidMeta) && final(self)@
                == old(self)@,
            r is Ok ==> store_of(final(self)@, scope@).nodes == upsert_node_seq(
                store_of(old(self)@, scope@).nodes,
                n@,
            ) && store_of(final(self)@, scope@).edges == store_of(old(self)@, scope@).edges
                && forall|k: ScopeV|
                k != scope@ ==> store_of(final(self)@, k) == store_of(old(self)@, k),
    {
        if !meta_is_valid(n.meta.as_str()) {
            return Result::Err(GraphError::InvalidMeta);
        }
        let ghost pre = self@;
        let idx = self.scope_pos(scope);
        let ghost mid = self@;
        proof {
            lemma_sidx(mid.scopes, scope@);
            assert(mid.scopes[idx as int].1 == self.scopes@[idx as int].1@);
            assert(store_wf(mid.scopes[idx as int].1));
        }
        let ghost midvec = self.scopes@;
        self.scopes[idx].1.put_node(n);
        proof {
            assert(self.scopes@.len() == midvec.len());
            assert(forall|i: int|
                0 <= i < midvec.len() && i != idx ==> self.scopes@[i] == #[trigger] midvec[i]);
            assert(self.scopes@[idx as int].0 == midvec[idx as int].0);
            assert(self@.scopes =~= mid.scopes.update(
                idx as int,
                (scope@, self@.scopes[idx as int].1),
            ));
            assert(forall|i: int|
                0 <= i < self@.scopes.len() ==> self@.scopes[i].0 == #[trigger] mid.scopes[i].0);
            Self::lemma_store_of_update(pre, mid, self@, idx as int, scope@);
        }
        Result::Ok(())
    }

    /// Relates the facade view after an update at the scope's slot to the
    /// view before: the touched scope serves the updated store, every other
    /// scope serves what it served before.
    proof fn lemma_store_of_update(pre: FacadeV, mid: FacadeV, post: FacadeV, at: int, key: ScopeV)
        requires
            0 <= at < mid.scopes.len(),
            sidx(mid.scopes, key) == at,
            post.scopes.len() == mid.scopes.len(),
            forall|i: int| 0 <= i < post.scopes.len() ==> post.scopes[i].0 == #[trigger] mid.scopes[i].0,
            forall|i: int| 0 <= i < post.scopes.len() && i != at ==> post.scopes[i] == #[trigger] mid.scopes[i],
            sidx(pre.scopes, key) != -1 ==> mid == pre,
            sidx(pre.scopes, key) == -1 ==> mid.scopes == pre.scopes.push((key, empty_store())),
        ensures
            store_of(post, key) == post.scopes[at].1,
            store_of(mid, key) == store_of(pre, key),
            forall|k: ScopeV| k != key ==> store_of(post, k) == store_of(pre, k),
    {
        lemma_sidx_same_keys(mid.scopes, post.scopes, key);
        lemma_sidx(mid.scopes, key);
        if sidx(pre.scopes, key) == -1 {
            lemma_sidx(pre.scopes, key);
        }
        assert forall|k: ScopeV| k != key implies store_of(post, k) == store_of(pre, k) by {
            lemma_sidx_same_keys(mid.scopes, post.scopes, k);
            lemma_sidx(mid.scopes, k);
            lemma_sidx(pre.scopes, k);
            if sidx(pre.scopes, key) == -1 {
                // mid is pre extended with the fresh key; k is a different key
                if sidx(pre.scopes, k) == -1 {
                    if sidx(mid.scopes, k) != -1 {
                        let m = sidx(mid.scopes, k);
                        if m < pre.scopes.len() {
                            assert(pre.scopes[m].0 == k);
                        } else {
                            assert(mid.scopes[m].0 == key);
                        }
                    }
                } else {
                    lemma_sidx_first(mid.scopes, k, sidx(pre.scopes, k));
                }
            }
            if sidx(mid.scopes, k) != -1 {
                assert(sidx(mid.scopes, k) != at);
                assert(post.scopes[sidx(mid.scopes, k)] == mid.scopes[sidx(mid.scopes, k)]);
            }
        }
    }

    /// Writes or replaces an edge in the scope's store, under the
    /// deterministic id derived from its (rel, src, dst) triple. Succeeds
    /// exactly when the edge's attribute bag is valid JSON. No other scope is
    /// touched.
    pub fn put_edge(&mut self, scope: &GraphScope, e: GraphEdge) -> (r: Result<(), GraphError>)
        requires
            old(self).wf(),
        ensures
            final(self).wf(),
            r is Ok <==> json_ok(e@.meta),
            r is Err ==> r == Result::<(), GraphError>::Err(GraphError::InvalidMeta) && final(self)@
                == old(self)@,
            r is Ok ==> store_of(final(self)@, scope@).edges == upsert_edge_seq(
                store_of(old(self)@, scope@).edges,
                (EdgeV {
                    id: edge_id_spec(e@.rel, e@.src, e@.dst),
                    src: e@.src,
                    dst: e@.dst,
                    rel: e@.rel,
                    weight: e@.weight,
                    meta: e@.meta,
                }),
            ) && store_of(final(self)@, scope@).nodes == store_of(old(self)@, scope@).nodes
                && forall|k: ScopeV|
                k != scope@ ==> store_of(final(self)@, k) == store_of(old(self)@, k),
    {
        if !meta_is_valid(e.meta.as_str()) {
            return Result::Err(GraphError::InvalidMeta);
        }
        let id = edge_id(e.rel.as_str(), e.src.as_str(), e.dst.as_str());
        let keyed = GraphEdge {
            id,
            src: e.src,
            dst: e.dst,
            rel: e.rel,
            weight: e.weight,
            meta: e.meta,
        };
        let ghost pre = self@;
        let idx = self.scope_pos(scope);
        let ghost mid = self@;
        proof {
            lemma_sidx(mid.scopes, scope@);
            assert(mid.scopes[idx as int].1 == self.scopes@[idx as int].1@);
            assert(store_wf(mid.scopes[idx as int].1));
        }
        let ghost midvec = self.scopes@;
        self.scopes[idx].1.put_edge(keyed);
        proof {
            assert(self.scopes@.len() == midvec.len());
            assert(forall|i: int|
                0 <= i < midvec.len() && i != idx ==> self.scopes@[i] == #[trigger] midvec[i]);
            assert(self.scopes@[idx as int].0 == midvec[idx as int].0);
            assert(self@.scopes =~= mid.scopes.update(
                idx as int,
                (scope@, self@.scopes[idx as int].1),
            ));
            assert(forall|i: int|
                0 <= i < self@.scopes.len() ==> self@.scopes[i].0 == #[trigger] mid.scopes[i].0);
            Self::lemma_store_of_update(pre, mid, self@, idx as int, scope@);
        }
        Result::Ok(())
    }

    /// Exact node lookup in the scope's store. An absent node is a valid
    /// outcome, not an error.
    pub fn get_node(&self, scope: &GraphScope, id: &str) -> (r: Option<GraphNode>)
        requires
            self.wf(),
        ensures
            match r {
                Option::Some(n) => lookup_node_seq(store_of(self@, scope@).nodes, id@)
                    == Option::Some(n@),
                Option::None => lookup_node_seq(store_of(self@, scope@).nodes, id@) is None,
            },
    {
        proof {
            lemma_sidx(self@.scopes, scope@);
        }
        let mut i: usize = 0;
        while i < self.scopes.len()
            invariant
                i <= self.scopes.len(),
                forall|j: int| 0 <= j < i ==> self@.scopes[j].0 != scope@,
            decreases self.scopes.len() - i,
        {
            if scope_eq(&self.scopes[i].0, scope) {
                proof {
                    lemma_sidx_first(self@.scopes, scope@, i as int);
                }
                let r = self.scopes[i].1.get_node(id);
                proof {
                    crate::store::lemma_node_idx(self@.scopes[i as int].1.nodes, id@);
                }
                return r;
            }
            i = i + 1;
        }
        Option::None
    }

    /// A borrowed view of the scope's store, absent while the scope was
    /// never written.
    fn scope_store(&self, scope: &GraphScope) -> (r: Option<&MemStore>)
        requires
            self.wf(),
        ensures
            match r {
                Option::Some(st) => sidx(self@.scopes, scope@) >= 0 && st@ == store_of(
                    self@,
                    scope@,
                ) && store_wf(st@),
                Option::None => sidx(self@.scopes, scope@) == -1,
            },
    {
        let mut i: usize = 0;
        while i < self.scopes.len()
            invariant
                i <= self.scopes.len(),
                forall|j: int| 0 <= j < i ==> self@.scopes[j].0 != scope@,
            decreases self.scopes.len() - i,
        {
            if scope_eq(&self.scopes[i].0, scope) {
                proof {
                    lemma_sidx_first(self@.scopes, scope@, i as int);
                    assert(self@.scopes[i as int].1 == self.scopes@[i as int].1@);
                }
                return Option::Some(&self.scopes[i].1);
            }
            i = i + 1;
        }
        proof {
            lemma_sidx(self@.scopes, scope@);
        }
        Option::None
    }

    /// Bounded breadth-first traversal from a root id in the scope's store
    /// (see `crate::traverse`). Depth zero reads back the root alone.
    pub fn neighbors(&self, scope: &GraphScope, id: &str, depth: usize, filters: &NeighborFilters)
        -> (r: SubGraph)
        requires
            self.wf(),
        ensures
            ({
                let d = if depth > MAX_TRAVERSAL_DEPTH {
                    MAX_TRAVERSAL_DEPTH as int
                } else {
                    depth as int
                };
                let res = bfs_spec(store_of(self@, scope@), id@, d, filters@);
                r.nodes.deep_view() == res.nodes && r.edges.deep_view() == res.edges
                    && r.scores@.len() == 0
            }),
    {
        match self.scope_store(scope) {
            Option::Some(st) => bfs_neighbors(st, id, depth, filters),
            Option::None => {
                let empty = MemStore::new();
                let r = bfs_neighbors(&empty, id, depth, filters);
                proof {
                    assert(empty@ =~= empty_store());
                }
                r
            },
        }
    }

    /// Spreading activation over the scope's store (see `crate::activate`).
    pub fn activate(&self, scope: &GraphScope, seeds: &Vec<(String, i64)>, policy: &ActivationPolicy)
        -> (r: SubGraph)
        requires
            self.wf(),
        ensures
            ({
                let res = activate_spec(store_of(self@, scope@), scores_view(seeds@), *policy);
                r.nodes.deep_view() == res.nodes && r.edges.deep_view() == res.edges && scores_view(
                    r.scores@,
                ) == res.scores
            }),
    {
        match self.scope_store(scope) {
            Option::Some(st) => activate(st, seeds, policy),
            Option::None => {
                let empty = MemStore::new();
                let r = activate(&empty, seeds, policy);
                proof {
                    assert(empty@ =~= empty_store());
                }
                r
            },
        }
    }

    /// The export text of the whole scope, in the requested format. A Jsonl
    /// export is one line per record: its newline count equals the scope's
    /// node count plus its edge count, and a nonempty export ends with a
    /// newline.
    pub fn export(&self, scope: &GraphScope, format: &GraphExportFormat) -> (r: String)
        requires
            self.wf(),
        ensures
            format is Dot ==> r@ == dot_spec(store_of(self@, scope@)),
            format is Jsonl ==> r@ == jsonl_spec(store_of(self@, scope@)),
            format is Jsonl ==> crate::export::nl_count(r@) == store_of(self@, scope@).nodes.len()
                + store_of(self@, scope@).edges.len(),
            format is Jsonl && r@.len() > 0 ==> r@.last() == '\n',
    {
        proof {
            crate::export::lemma_jsonl_one_record_per_line(store_of(self@, scope@));
            if store_of(self@, scope@).nodes.len() + store_of(self@, scope@).edges.len() == 0 {
                assert(jsonl_spec(store_of(self@, scope@)) =~= Seq::<char>::empty());
            }
        }
        match self.scope_store(scope) {
            Option::Some(st) => {
                match format {
                    GraphExportFormat::Dot => render_dot(st),
                    GraphExportFormat::Jsonl => render_jsonl(st),
                }
            },
            Option::None => {
                let empty = MemStore::new();
                proof {
                    assert(empty@ =~= empty_store());
                }
                match format {
                    GraphExportFormat::Dot => render_dot(&empty),
                    GraphExportFormat::Jsonl => render_jsonl(&empty),
                }
            },
        }
    }

    /// Statistics of the scope: totals and a kind -> count mapping, plus
    /// labels for the scope and the serving backend.
    pub fn stats(&self, scope: &GraphScope) -> (r: GraphStats)
        requires
            self.wf(),
        ensures
            r.nodes == store_of(self@, scope@).nodes.len(),
            r.edges == store_of(self@, scope@).edges.len(),
            scores_usize_view(r.categories@) == kind_counts(
                store_of(self@, scope@).nodes,
                store_of(self@, scope@).nodes.len() as int,
            ),
            (match scope@ {
                ScopeV::Workspace(w) => r.scope@ == w,
                ScopeV::Global => r.scope@ == "global"@,
            }),
            r.backend@ == "local"@,
    {
        let scope_name = crate::scope::scope_label(scope);
        let backend = String::from_str("local");
        match self.scope_store(scope) {
            Option::Some(st) => {
                let cats = count_kinds(st);
                GraphStats {
                    scope: scope_name,
                    backend,
                    nodes: st.nodes.len(),
                    edges: st.edges.len(),
                    categories: cats,
                }
            },
            Option::None => {
                let empty = MemStore::new();
                proof {
                    assert(empty@ =~= empty_store());
                }
                let cats = count_kinds(&empty);
                GraphStats {
                    scope: scope_name,
                    backend,
                    nodes: 0,
                    edges: 0,
                    categories: cats,
                }
            },
        }
    }

    /// Seed discovery for a text-driven query: an exact id match seeds
    /// itself with weight 1.0; otherwise up to `k` depth-1 neighbors seed,
    /// in traversal order; no match means no seeds.
    pub fn discover_seeds(&self, scope: &GraphScope, text: &str, k: usize) -> (r: Vec<
        (String, i64),
    >)
        requires
            self.wf(),
        ensures
            scores_view(r@) == discover_spec(store_of(self@, scope@), text@, k as int),
    {
        let filters = NeighborFilters { rels: Option::None, kinds: Option::None, directed: false };
        proof {
            assert(filters@ == default_filters());
        }
        let d0 = self.neighbors(scope, text, 0, &filters);
        if d0.nodes.len() > 0 {
            let mut seeds: Vec<(String, i64)> = Vec::new();
            seeds.push((text.to_owned(), crate::WEIGHT_SCALE));
            proof {
                assert(scores_view(seeds@) =~= discover_spec(
                    store_of(self@, scope@),
                    text@,
                    k as int,
                ));
            }
            seeds
        } else {
            let d1 = self.neighbors(scope, text, 1, &filters);
            let ghost d1nodes = bfs_spec(store_of(self@, scope@), text@, 1, default_filters()).nodes;
            let mut seeds: Vec<(String, i64)> = Vec::new();
            proof {
                assert(scores_view(seeds@) =~= Seq::new(
                    0,
                    |m: int| (d1nodes[m].id, crate::WEIGHT_SCALE),
                ));
            }
            let mut i: usize = 0;
            while i < d1.nodes.len() && i < k
                invariant
                    i <= d1.nodes.len(),
                    i <= k,
                    d1.nodes.deep_view() == d1nodes,
                    scores_view(seeds@) == Seq::new(
                        i as nat,
                        |m: int| (d1nodes[m].id, crate::WEIGHT_SCALE),
                    ),
                decreases d1.nodes.len() - i,
            {
                proof {
                    assert(d1nodes[i as int] == d1.nodes@[i as int]@);
                }
                let ghost presv = scores_view(seeds@);
                seeds.push((d1.nodes[i].id.clone(), crate::WEIGHT_SCALE));
                proof {
                    assert(scores_view(seeds@) =~= presv.push(
                        (d1nodes[i as int].id, crate::WEIGHT_SCALE),
                    ));
                    assert(scores_view(seeds@) =~= Seq::new(
                        (i + 1) as nat,
                        |m: int| (d1nodes[m].id, crate::WEIGHT_SCALE),
                    ));
                }
                i = i + 1;
            }
            proof {
                assert(i == (if (k as int) < d1nodes.len() {
                    k as int
                } else {
                    d1nodes.len() as int
                }));
                assert(scores_view(seeds@) =~= discover_spec(
                    store_of(self@, scope@),
                    text@,
                    k as int,
                ));
            }
            seeds
        }
    }

    /// A text-driven query: discovers seeds for the text (see
    /// `discover_seeds`), then activates them under the query policy. No
    /// discovered seed means an empty result, which is success, not an
    /// error.
    pub fn query(&self, scope: &GraphScope, text: &str, k: usize) -> (r: SubGraph)
        requires
            self.wf(),
        ensures
            ({
                let seeds = discover_spec(store_of(self@, scope@), text@, k as int);
                if seeds.len() == 0 {
                    r.nodes@.len() == 0 && r.edges@.len() == 0 && r.scores@.len() == 0
                } else {
                    let res = activate_spec(store_of(self@, scope@), seeds, query_policy(k));
                    r.nodes.deep_view() == res.nodes && r.edges.deep_view() == res.edges
                        && scores_view(r.scores@) == res.scores
                }
            }),
    {
        let seeds = self.discover_seeds(scope, text, k);
        if seeds.len() == 0 {
            SubGraph { nodes: Vec::new(), edges: Vec::new(), scores: Vec::new() }
        } else {
            let top_n: usize = if k > usize::MAX / 2 {
                usize::MAX
            } else {
                2 * k
            };
            let policy = ActivationPolicy { top_n, max_hops: 3 };
            self.activate(scope, &seeds, &policy)
        }
    }
}

/// The activation policy a text query uses: twice the requested seed count
/// as the node bound (saturating), with the default propagation depth.
pub open spec fn query_policy(k: usize) -> ActivationPolicy {
    ActivationPolicy {
        top_n: (if k > usize::MAX / 2 {
            usize::MAX
        } else {
            (2 * k) as usize
        }),
        max_hops: 3,
    }
}

/// The all-pass, undirected filter.
pub open spec fn default_filters() -> FiltersV {
    FiltersV { rels: Option::None, kinds: Option::None, directed: false }
}

/// Seed discovery: the exact id when stored, else up to `k` depth-1
/// neighbor ids in traversal order, each with weight 1.0.
pub open spec fn discover_spec(store: StoreV, text: Seq<char>, k: int) -> Seq<(Seq<char>, i64)> {
    let d0 = bfs_spec(store, text, 0, default_filters());
    if d0.nodes.len() > 0 {
        seq![(text, crate::WEIGHT_SCALE)]
    } else {
        let d1 = bfs_spec(store, text, 1, default_filters());
        let take = if k < d1.nodes.len() {
            k
        } else {
            d1.nodes.len() as int
        };
        Seq::new((if take >= 0 { take } else { 0 }) as nat, |m: int| (d1.nodes[m].id, crate::WEIGHT_SCALE))
    }
}

/// Law: the seed guarantee reaches the text query. When the queried text is
/// a stored node id, seed discovery yields exactly that id as the sole seed
/// with weight 1.0; for any k >= 1 the query's node bound (twice k) admits
/// that one seed, so the stored node under the queried id stands in the
/// query's activation result.
pub proof fn lemma_query_exact_match_kept(store: StoreV, text: Seq<char>, k: usize)
    requires
        lookup_node_seq(store.nodes, text) is Some,
        k >= 1,
    ensures
        discover_spec(store, text, k as int) == seq![(text, crate::WEIGHT_SCALE)],
        activate_spec(store, discover_spec(store, text, k as int), query_policy(k)).nodes.contains(
            lookup_node_seq(store.nodes, text)->Some_0,
        ),
{
    crate::traverse::lemma_bfs_depth_zero(store, text, default_filters());
    let seeds = discover_spec(store, text, k as int);
    assert(seeds =~= seq![(text, crate::WEIGHT_SCALE)]);
    let policy = query_policy(k);
    let hops = if policy.max_hops > crate::activate::MAX_ACTIVATION_HOPS {
        crate::activate::MAX_ACTIVATION_HOPS as int
    } else {
        policy.max_hops as int
    };
    let st0 = crate::activate::seeds_init(seeds, seeds.len() as int);
    crate::activate::lemma_seeds_init_entries(seeds, seeds.len() as int);
    crate::activate::lemma_prop_hops_entries(store, st0, st0.next, hops);
    let fin = crate::activate::activate_scores(store, seeds, hops);
    crate::activate::lemma_candidates_distinct(store, fin.scores, fin.scores.len() as int);
    let cands = crate::activate::candidates_upto(store, fin.scores, fin.scores.len() as int);
    crate::activate::lemma_sort_ranked_distinct(cands);
    let ranked = crate::activate::sort_ranked(cands);
    crate::activate::lemma_single_seed_count(
        ranked,
        text,
        crate::WEIGHT_SCALE,
        ranked.len() as int,
    );
    assert(crate::activate::seed_entry_count(ranked, seeds, ranked.len() as int) <= 1);
    assert(policy.top_n >= 2);
    assert(crate::activate::is_seed(seeds, text)) by {
        assert(seeds[0].0 == text);
    }
    crate::activate::lemma_seed_guarantee(store, seeds, policy, text);
}

/// View of an id/count pair vector.
pub open spec fn scores_usize_view(v: Seq<(String, usize)>) -> Seq<(Seq<char>, usize)> {
    Seq::new(v.len(), |i: int| (v[i].0@, v[i].1))
}

/// Index of the first kind entry under the label, or -1.
pub open spec fn kind_idx(s: Seq<(Seq<char>, usize)>, k: Seq<char>) -> int
    decreases s.len(),
{
    if s.len() == 0 {
        -1
    } else if s[0].0 == k {
        0
    } else if kind_idx(s.drop_first(), k) == -1 {
        -1
    } else {
        kind_idx(s.drop_first(), k) + 1
    }
}

/// One more node of the given kind: its count entry grows by one (first
/// sight creates the entry). The count saturates at the machine bound,
/// which a store can never reach.
pub open spec fn add_kind(s: Seq<(Seq<char>, usize)>, k: Seq<char>) -> Seq<(Seq<char>, usize)> {
    if kind_idx(s, k) == -1 {
        s.push((k, 1))
    } else {
        s.update(
            kind_idx(s, k),
            (
                k,
                (if s[kind_idx(s, k)].1 < usize::MAX {
                    (s[kind_idx(s, k)].1 + 1) as usize
                } else {
                    s[kind_idx(s, k)].1
                }),
            ),
        )
    }
}

/// The kind -> count mapping of the first `i` nodes, in first-sight order.
pub open spec fn kind_counts(nodes: Seq<NodeV>, i: int) -> Seq<(Seq<char>, usize)>
    decreases i,
{
    if i <= 0 {
        Seq::empty()
    } else {
        add_kind(kind_counts(nodes, i - 1), nodes[i - 1].kind)
    }
}

pub proof fn lemma_kind_idx(s: Seq<(Seq<char>, usize)>, k: Seq<char>)
    ensures
        kind_idx(s, k) == -1 ==> forall|j: int| 0 <= j < s.len() ==> s[j].0 != k,
        kind_idx(s, k) != -1 ==> 0 <= kind_idx(s, k) < s.len() && s[kind_idx(s, k)].0 == k
            && forall|j: int| 0 <= j < kind_idx(s, k) ==> s[j].0 != k,
    decreases s.len(),
{
    if s.len() > 0 && s[0].0 != k {
        lemma_kind_idx(s.drop_first(), k);
        assert forall|j: int| 0 <= j < s.len() && kind_idx(s, k) == -1 implies s[j].0 != k by {
            if j > 0 {
                assert(s.drop_first()[j - 1] == s[j]);
            }
        }
        if kind_idx(s, k) != -1 {
            let r = kind_idx(s.drop_first(), k);
            assert(s[r + 1] == s.drop_first()[r]);
            assert forall|j: int| 0 <= j < kind_idx(s, k) implies s[j].0 != k by {
                if j > 0 {
                    assert(s.drop_first()[j - 1] == s[j]);
                }
            }
        }
    }
}

pub proof fn lemma_kind_idx_first(s: Seq<(Seq<char>, usize)>, k: Seq<char>, j: int)
    requires
        0 <= j < s.len(),
        s[j].0 == k,
        forall|m: int| 0 <= m < j ==> s[m].0 != k,
    ensures
        kind_idx(s, k) == j,
    decreases s.len(),
{
    if s[0].0 != k {
        assert(forall|m: int| 0 <= m < j - 1 ==> s.drop_first()[m] == s[m + 1]);
        assert(s.drop_first()[j - 1] == s[j]);
        lemma_kind_idx_first(s.drop_first(), k, j - 1);
    }
}

/// Counts the nodes of each kind, exactly as `kind_counts`.
fn count_kinds(store: &MemStore) -> (r: Vec<(String, usize)>)
    ensures
        scores_usize_view(r@) == kind_counts(store@.nodes, store@.nodes.len() as int),
{
    let mut cats: Vec<(String, usize)> = Vec::new();
    proof {
        assert(scores_usize_view(cats@) =~= kind_counts(store@.nodes, 0));
    }
    let mut i: usize = 0;
    while i < store.nodes.len()
        invariant
            i <= store.nodes.len(),
            scores_usize_view(cats@) == kind_counts(store@.nodes, i as int),
        decreases store.nodes.len() - i,
    {
        proof {
            assert(store@.nodes[i as int] == store.nodes@[i as int]@);
        }
        let ghost pre = scores_usize_view(cats@);
        let kind = &store.nodes[i].kind;
        let mut j: usize = 0;
        let mut found = false;
        while j < cats.len() && !found
            invariant
                j <= cats.len(),
                scores_usize_view(cats@) == pre,
                !found ==> forall|m: int| 0 <= m < j ==> pre[m].0 != kind@,
                found ==> j > 0 && 0 <= j - 1 < pre.len() && pre[j - 1].0 == kind@ && (forall|
                    m: int,
                |
                    0 <= m < j - 1 ==> pre[m].0 != kind@),
            decreases cats.len() - j,
        {
            proof {
                assert(pre[j as int] == (cats@[j as int].0@, cats@[j as int].1));
            }
            if cats[j].0 == *kind {
                found = true;
            }
            j = j + 1;
        }
        if found {
            proof {
                lemma_kind_idx_first(pre, kind@, j - 1);
            }
            let c = cats[j - 1].1;
            let bumped: usize = if c < usize::MAX {
                c + 1
            } else {
                c
            };
            cats.set(j - 1, (kind.clone(), bumped));
            proof {
                assert(scores_usize_view(cats@) =~= add_kind(pre, kind@));
            }
        } else {
            proof {
                lemma_kind_idx(pre, kind@);
            }
            cats.push((kind.clone(), 1));
            proof {
                assert(scores_usize_view(cats@) =~= add_kind(pre, kind@));
            }
        }
        i = i + 1;
    }
    cats
}

/// Law: scope isolation. A write under one scope changes no other scope's
/// store (the write contracts say so), and so every differently-keyed scope
/// reads back exactly what it read before the write: no id looked up under
/// another workspace, or globally, ever sees the written data.
pub proof fn lemma_scope_isolation(pre: FacadeV, post: FacadeV, a: ScopeV, b: ScopeV)
    requires
        b != a,
        forall|k: ScopeV| k != a ==> store_of(post, k) == store_of(pre, k),
    ensures
        store_of(post, b) == store_of(pre, b),
        forall|id: Seq<char>|
            #[trigger] lookup_node_seq(store_of(post, b).nodes, id) == lookup_node_seq(
                store_of(pre, b).nodes,
                id,
            ),
{
}

} // verus!
