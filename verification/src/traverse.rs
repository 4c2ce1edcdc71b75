//! Neighbor traversal: bounded-depth breadth-first expansion from one root
//! id, with relation, kind and direction filters. The algorithm is stated as
//! a recursive specification; the executable walk is proved equal to it.

use vstd::prelude::*;

use crate::store::{
    distinct_edge_ids, distinct_node_ids, lookup_node_seq, lemma_node_idx, MemStore, StoreV,
};
use crate::types::{
    EdgeV, FiltersV, GraphEdge, GraphNode, NeighborFilters, NodeV, SubGraph,
};

verus! {

/// Defensive cap on traversal depth: deeper requests are truncated, not
/// refused.
pub const MAX_TRAVERSAL_DEPTH: usize = 64;

/// Whether a string sequence holds the given string.
pub open spec fn seq_contains_str(s: Seq<Seq<char>>, x: Seq<char>) -> bool {
    exists|i: int| 0 <= i < s.len() && s[i] == x
}

pub open spec fn distinct_strs(s: Seq<Seq<char>>) -> bool {
    forall|i: int, j: int| 0 <= i < j < s.len() ==> s[i] != s[j]
}

/// Whether an edge's relation passes the relation allow-set.
pub open spec fn rel_passes(filters: FiltersV, rel: Seq<char>) -> bool {
    match filters.rels {
        Option::None => true,
        Option::Some(rs) => seq_contains_str(rs, rel),
    }
}

/// Whether the node at the far end passes the kind allow-set. With a kind
/// filter present, a missing far node fails it; without one, everything
/// passes.
pub open spec fn kind_passes(store: StoreV, filters: FiltersV, far: Seq<char>) -> bool {
    match filters.kinds {
        Option::None => true,
        Option::Some(ks) => match lookup_node_seq(store.nodes, far) {
            Option::Some(n) => seq_contains_str(ks, n.kind),
            Option::None => false,
        },
    }
}

/// The far endpoint of an edge as seen from `u`: directed expansion follows
/// src -> dst only; undirected follows the edge from either endpoint.
pub open spec fn edge_far(u: Seq<char>, e: EdgeV, directed: bool) -> Option<Seq<char>> {
    if e.src == u {
        Option::Some(e.dst)
    } else if !directed && e.dst == u {
        Option::Some(e.src)
    } else {
        Option::None
    }
}

/// Traversal state: ids seen so far (root first, then discovery order), the
/// stored nodes among them, the followed edges, and the frontier being built
/// for the next hop.
pub struct BfsV {
    pub visited: Seq<Seq<char>>,
    pub nodes: Seq<NodeV>,
    pub edges: Seq<EdgeV>,
    pub next: Seq<Seq<char>>,
}

/// One candidate edge considered while expanding `u`: a passing edge to an
/// unseen far id marks it visited, records the edge, records the far node if
/// stored, and schedules the far id for the next hop.
pub open spec fn bfs_edge_step(
    store: StoreV,
    filters: FiltersV,
    u: Seq<char>,
    st: BfsV,
    e: EdgeV,
) -> BfsV {
    match edge_far(u, e, filters.directed) {
        Option::None => st,
        Option::Some(far) => {
            if !rel_passes(filters, e.rel) || !kind_passes(store, filters, far)
                || seq_contains_str(st.visited, far) {
                st
            } else {
                BfsV {
                    visited: st.visited.push(far),
                    nodes: match lookup_node_seq(store.nodes, far) {
                        Option::Some(n) => st.nodes.push(n),
                        Option::None => st.nodes,
                    },
                    edges: st.edges.push(e),
                    next: st.next.push(far),
                }
            }
        },
    }
}

/// Expansion of `u` over the first `i` store edges, in store order.
pub open spec fn bfs_edges(store: StoreV, filters: FiltersV, u: Seq<char>, st: BfsV, i: int) -> BfsV
    decreases i,
{
    if i <= 0 {
        st
    } else {
        bfs_edge_step(store, filters, u, bfs_edges(store, filters, u, st, i - 1), store.edges[i - 1])
    }
}

/// Expansion of the first `j` frontier ids, each over all store edges.
pub open spec fn bfs_frontier(
    store: StoreV,
    filters: FiltersV,
    frontier: Seq<Seq<char>>,
    st: BfsV,
    j: int,
) -> BfsV
    decreases j,
{
    if j <= 0 {
        st
    } else {
        bfs_edges(
            store,
            filters,
            frontier[j - 1],
            bfs_frontier(store, filters, frontier, st, j - 1),
            store.edges.len() as int,
        )
    }
}

/// One full hop: the frontier is expanded into a fresh `next`.
pub open spec fn bfs_hop(store: StoreV, filters: FiltersV, st: BfsV, frontier: Seq<Seq<char>>) -> BfsV {
    bfs_frontier(
        store,
        filters,
        frontier,
        BfsV { visited: st.visited, nodes: st.nodes, edges: st.edges, next: Seq::empty() },
        frontier.len() as int,
    )
}

/// Up to `h` hops of expansion; stops early when a hop discovers nothing.
pub open spec fn bfs_hops(
    store: StoreV,
    filters: FiltersV,
    st: BfsV,
    frontier: Seq<Seq<char>>,
    h: int,
) -> BfsV
    decreases h,
{
    if h <= 0 || frontier.len() == 0 {
        st
    } else {
        let st1 = bfs_hop(store, filters, st, frontier);
        bfs_hops(store, filters, st1, st1.next, h - 1)
    }
}

/// The initial traversal state: the root id is visited; its node, when
/// stored, is the sole result node; no edges.
pub open spec fn bfs_init(store: StoreV, root: Seq<char>) -> BfsV {
    BfsV {
        visited: seq![root],
        nodes: match lookup_node_seq(store.nodes, root) {
            Option::Some(n) => seq![n],
            Option::None => Seq::empty(),
        },
        edges: Seq::empty(),
        next: Seq::empty(),
    }
}

/// The whole traversal from a root at a given depth.
pub open spec fn bfs_spec(store: StoreV, root: Seq<char>, depth: int, filters: FiltersV) -> BfsV {
    bfs_hops(store, filters, bfs_init(store, root), seq![root], depth)
}

/// Law: at depth zero the traversal is exactly the root node (when it
/// exists) and no edges, whatever the filters.
pub proof fn lemma_bfs_depth_zero(store: StoreV, root: Seq<char>, filters: FiltersV)
    ensures
        bfs_spec(store, root, 0, filters).edges == Seq::<EdgeV>::empty(),
        lookup_node_seq(store.nodes, root) is Some ==> bfs_spec(store, root, 0, filters).nodes
            == seq![lookup_node_seq(store.nodes, root)->Some_0],
        lookup_node_seq(store.nodes, root) is None ==> bfs_spec(store, root, 0, filters).nodes
            == Seq::<NodeV>::empty(),
{
}

/// A stored node read back by id carries that id.
pub proof fn lemma_lookup_node_id(s: Seq<NodeV>, id: Seq<char>)
    ensures
        lookup_node_seq(s, id) is Some ==> lookup_node_seq(s, id)->Some_0.id == id,
{
    lemma_node_idx(s, id);
}

/// The traversal invariant: visited ids are distinct, result nodes are the
/// stored nodes of visited ids, one each; result edges are store edges whose
/// endpoints were visited, with distinct ids; the frontier being built lies
/// inside the visited set.
pub open spec fn bfs_inv(store: StoreV, st: BfsV) -> bool {
    &&& distinct_strs(st.visited)
    &&& distinct_node_ids(st.nodes)
    &&& forall|i: int|
        0 <= i < st.nodes.len() ==> seq_contains_str(st.visited, #[trigger] st.nodes[i].id)
    &&& forall|i: int|
        0 <= i < st.nodes.len() ==> lookup_node_seq(store.nodes, #[trigger] st.nodes[i].id)
            == Option::Some(st.nodes[i])
    &&& forall|i: int|
        0 <= i < st.edges.len() ==> seq_contains_str(st.visited, (#[trigger] st.edges[i]).src)
            && seq_contains_str(st.visited, st.edges[i].dst)
    &&& forall|i: int| 0 <= i < st.edges.len() ==> store.edges.contains(#[trigger] st.edges[i])
    &&& forall|i: int, j: int| 0 <= i < j < st.edges.len() ==> st.edges[i].id != st.edges[j].id
    &&& forall|i: int|
        0 <= i < st.next.len() ==> seq_contains_str(st.visited, #[trigger] st.next[i])
}

pub proof fn lemma_edge_step_inv(store: StoreV, filters: FiltersV, u: Seq<char>, st: BfsV, e: EdgeV)
    requires
        bfs_inv(store, st),
        distinct_edge_ids(store.edges),
        seq_contains_str(st.visited, u),
        store.edges.contains(e),
    ensures
        bfs_inv(store, bfs_edge_step(store, filters, u, st, e)),
        forall|x: Seq<char>|
            #[trigger] seq_contains_str(st.visited, x) ==> seq_contains_str(
                bfs_edge_step(store, filters, u, st, e).visited,
                x,
            ),
{
    let r = bfs_edge_step(store, filters, u, st, e);
    match edge_far(u, e, filters.directed) {
        Option::None => {},
        Option::Some(far) => {
            if !rel_passes(filters, e.rel) || !kind_passes(store, filters, far)
                || seq_contains_str(st.visited, far) {
            } else {
                lemma_lookup_node_id(store.nodes, far);
                assert forall|x: Seq<char>|
                    #[trigger] seq_contains_str(st.visited, x) implies seq_contains_str(
                    r.visited,
                    x,
                ) by {
                    let w = choose|m: int| 0 <= m < st.visited.len() && st.visited[m] == x;
                    assert(r.visited[w] == x);
                }
                assert forall|i: int| 0 <= i < r.nodes.len() implies seq_contains_str(
                    r.visited,
                    #[trigger] r.nodes[i].id,
                ) by {
                    if i < st.nodes.len() {
                        let w = choose|m: int|
                            0 <= m < st.visited.len() && st.visited[m] == st.nodes[i].id;
                        assert(r.visited[w] == st.nodes[i].id);
                    } else {
                        assert(r.visited[st.visited.len() as int] == far);
                    }
                }
                assert forall|i: int, j: int| 0 <= i < j < r.nodes.len() implies r.nodes[i].id
                    != r.nodes[j].id by {
                    if j == st.nodes.len() {
                        assert(!seq_contains_str(st.visited, far));
                    }
                }
                assert(seq_contains_str(r.visited, far)) by {
                    assert(r.visited[st.visited.len() as int] == far);
                }
                assert forall|i: int| 0 <= i < r.edges.len() implies seq_contains_str(
                    r.visited,
                    (#[trigger] r.edges[i]).src,
                ) && seq_contains_str(r.visited, r.edges[i].dst) by {
                    if i < st.edges.len() {
                        assert(seq_contains_str(st.visited, st.edges[i].src));
                        assert(seq_contains_str(st.visited, st.edges[i].dst));
                    } else {
                        assert(r.edges[i] == e);
                        if e.src == u {
                            assert(far == e.dst);
                        } else {
                            assert(far == e.src);
                        }
                    }
                }
                assert forall|i: int, j: int| 0 <= i < j < r.edges.len() implies r.edges[i].id
                    != r.edges[j].id by {
                    if j == st.edges.len() && r.edges[i].id == r.edges[j].id {
                        // The earlier entry with this id is this very store
                        // edge, whose endpoints were already visited; yet the
                        // far end is fresh.
                        let m = choose|m: int|
                            0 <= m < store.edges.len() && store.edges[m] == st.edges[i];
                        let m2 = choose|m2: int|
                            0 <= m2 < store.edges.len() && store.edges[m2] == e;
                        assert(m == m2);
                        assert(st.edges[i] == e);
                        assert(seq_contains_str(st.visited, e.src));
                        assert(seq_contains_str(st.visited, e.dst));
                        if e.src == u {
                            assert(far == e.dst);
                        } else {
                            assert(far == e.src);
                        }
                        assert(false);
                    }
                }
            }
        },
    }
}

pub proof fn lemma_edges_inv(store: StoreV, filters: FiltersV, u: Seq<char>, st: BfsV, i: int)
    requires
        bfs_inv(store, st),
        distinct_edge_ids(store.edges),
        seq_contains_str(st.visited, u),
        i <= store.edges.len(),
    ensures
        bfs_inv(store, bfs_edges(store, filters, u, st, i)),
        forall|x: Seq<char>|
            #[trigger] seq_contains_str(st.visited, x) ==> seq_contains_str(
                bfs_edges(store, filters, u, st, i).visited,
                x,
            ),
    decreases i,
{
    if i > 0 {
        lemma_edges_inv(store, filters, u, st, i - 1);
        let prev = bfs_edges(store, filters, u, st, i - 1);
        assert(store.edges.contains(store.edges[i - 1])) by {
            assert(store.edges[i - 1] == store.edges[i - 1]);
        }
        lemma_edge_step_inv(store, filters, u, prev, store.edges[i - 1]);
    }
}

pub proof fn lemma_frontier_inv(
    store: StoreV,
    filters: FiltersV,
    frontier: Seq<Seq<char>>,
    st: BfsV,
    j: int,
)
    requires
        bfs_inv(store, st),
        distinct_edge_ids(store.edges),
        j <= frontier.len(),
        forall|m: int|
            0 <= m < frontier.len() ==> seq_contains_str(st.visited, #[trigger] frontier[m]),
    ensures
        bfs_inv(store, bfs_frontier(store, filters, frontier, st, j)),
        forall|x: Seq<char>|
            #[trigger] seq_contains_str(st.visited, x) ==> seq_contains_str(
                bfs_frontier(store, filters, frontier, st, j).visited,
                x,
            ),
    decreases j,
{
    if j > 0 {
        lemma_frontier_inv(store, filters, frontier, st, j - 1);
        let prev = bfs_frontier(store, filters, frontier, st, j - 1);
        assert(seq_contains_str(prev.visited, frontier[j - 1]));
        lemma_edges_inv(store, filters, frontier[j - 1], prev, store.edges.len() as int);
    }
}

pub proof fn lemma_hops_inv(
    store: StoreV,
    filters: FiltersV,
    st: BfsV,
    frontier: Seq<Seq<char>>,
    h: int,
)
    requires
        bfs_inv(store, st),
        distinct_edge_ids(store.edges),
        forall|m: int|
            0 <= m < frontier.len() ==> seq_contains_str(st.visited, #[trigger] frontier[m]),
    ensures
        bfs_inv(store, bfs_hops(store, filters, st, frontier, h)),
    decreases h,
{
    if h > 0 && frontier.len() > 0 {
        let st0 = BfsV { visited: st.visited, nodes: st.nodes, edges: st.edges, next: Seq::empty() };
        lemma_frontier_inv(store, filters, frontier, st0, frontier.len() as int);
        let st1 = bfs_hop(store, filters, st, frontier);
        lemma_hops_inv(store, filters, st1, st1.next, h - 1);
    }
}

/// Law: the traversal result never holds a node twice nor an edge id
/// twice, and every result node is the stored node under its id. With the
/// finite depth bound this is also why the walk terminates: each hop either
/// discovers a fresh id or ends the expansion. The one hypothesis is the
/// store's own validity: its edge ids are distinct.
pub proof fn lemma_bfs_no_duplicates(store: StoreV, root: Seq<char>, depth: int, filters: FiltersV)
    requires
        distinct_edge_ids(store.edges),
    ensures
        distinct_node_ids(bfs_spec(store, root, depth, filters).nodes),
        distinct_strs(bfs_spec(store, root, depth, filters).visited),
        distinct_edge_ids(bfs_spec(store, root, depth, filters).edges),
        forall|i: int|
            0 <= i < bfs_spec(store, root, depth, filters).edges.len() ==> store.edges.contains(
                #[trigger] bfs_spec(store, root, depth, filters).edges[i],
            ),
        forall|i: int|
            0 <= i < bfs_spec(store, root, depth, filters).nodes.len() ==> lookup_node_seq(
                store.nodes,
                #[trigger] bfs_spec(store, root, depth, filters).nodes[i].id,
            ) == Option::Some(bfs_spec(store, root, depth, filters).nodes[i]),
{
    let st0 = bfs_init(store, root);
    lemma_lookup_node_id(store.nodes, root);
    assert(bfs_inv(store, st0)) by {
        assert forall|i: int| 0 <= i < st0.nodes.len() implies seq_contains_str(
            st0.visited,
            #[trigger] st0.nodes[i].id,
        ) by {
            assert(st0.visited[0] == root);
        }
    }
    assert forall|m: int| 0 <= m < seq![root].len() implies seq_contains_str(
        st0.visited,
        #[trigger] seq![root][m],
    ) by {
        assert(st0.visited[0] == root);
    }
    lemma_hops_inv(store, filters, st0, seq![root], depth);
}

/// The traversal result components do not depend on the incoming `next`
/// buffer: each hop starts a fresh one.
pub proof fn lemma_hops_next_irrelevant(
    store: StoreV,
    filters: FiltersV,
    st1: BfsV,
    st2: BfsV,
    frontier: Seq<Seq<char>>,
    h: int,
)
    requires
        st1.visited == st2.visited,
        st1.nodes == st2.nodes,
        st1.edges == st2.edges,
    ensures
        bfs_hops(store, filters, st1, frontier, h).visited == bfs_hops(
            store,
            filters,
            st2,
            frontier,
            h,
        ).visited,
        bfs_hops(store, filters, st1, frontier, h).nodes == bfs_hops(
            store,
            filters,
            st2,
            frontier,
            h,
        ).nodes,
        bfs_hops(store, filters, st1, frontier, h).edges == bfs_hops(
            store,
            filters,
            st2,
            frontier,
            h,
        ).edges,
    decreases h,
{
    if h > 0 && frontier.len() > 0 {
        assert(bfs_hop(store, filters, st1, frontier) == bfs_hop(store, filters, st2, frontier));
        let n1 = bfs_hop(store, filters, st1, frontier);
        lemma_hops_next_irrelevant(store, filters, n1, n1, n1.next, h - 1);
    }
}

/// Whether a string vector holds the given string.
pub fn contains_str(v: &Vec<String>, s: &String) -> (r: bool)
    ensures
        r == seq_contains_str(v.deep_view(), s@),
{
    let mut i: usize = 0;
    while i < v.len()
        invariant
            i <= v.len(),
            forall|j: int| 0 <= j < i ==> v.deep_view()[j] != s@,
        decreases v.len() - i,
    {
        if v[i] == *s {
            proof {
                assert(v.deep_view()[i as int] == s@);
            }
            return true;
        }
        proof {
            assert(v.deep_view()[i as int] == v@[i as int]@);
        }
        i = i + 1;
    }
    false
}

/// Whether an edge's relation passes the filters, decided executably.
fn rel_passes_exec(filters: &NeighborFilters, rel: &String) -> (r: bool)
    ensures
        r == rel_passes(filters@, rel@),
{
    match &filters.rels {
        Option::None => true,
        Option::Some(rs) => contains_str(rs, rel),
    }
}

/// Whether the far node passes the kind filter, decided executably.
fn kind_passes_exec(store: &MemStore, filters: &NeighborFilters, far: &String) -> (r: bool)
    ensures
        r == kind_passes(store@, filters@, far@),
{
    match &filters.kinds {
        Option::None => true,
        Option::Some(ks) => match store.get_node(far.as_str()) {
            Option::Some(n) => contains_str(ks, &n.kind),
            Option::None => false,
        },
    }
}

/// Breadth-first neighbor expansion over one scope's store, bounded by
/// `depth` and the defensive depth cap. The result is exactly the
/// specification traversal; its `scores` are empty.
pub fn bfs_neighbors(store: &MemStore, root: &str, depth: usize, filters: &NeighborFilters) -> (r:
    SubGraph)
    ensures
        ({
            let d = if depth > MAX_TRAVERSAL_DEPTH {
                MAX_TRAVERSAL_DEPTH as int
            } else {
                depth as int
            };
            let res = bfs_spec(store@, root@, d, filters@);
            r.nodes.deep_view() == res.nodes && r.edges.deep_view() == res.edges && r.scores@.len()
                == 0
        }),
{
    let ghost storev = store@;
    let ghost fv = filters@;
    let d: usize = if depth > MAX_TRAVERSAL_DEPTH {
        MAX_TRAVERSAL_DEPTH
    } else {
        depth
    };
    let ghost total = bfs_spec(storev, root@, d as int, fv);

    let root_s = root.to_owned();
    let mut visited: Vec<String> = Vec::new();
    visited.push(root_s.clone());
    let mut out_nodes: Vec<GraphNode> = Vec::new();
    match store.get_node(root) {
        Option::Some(n) => { out_nodes.push(n) },
        Option::None => {},
    }
    let mut out_edges: Vec<GraphEdge> = Vec::new();
    let mut frontier: Vec<String> = Vec::new();
    frontier.push(root_s);
    proof {
        assert(visited.deep_view() =~= seq![root@]);
        assert(frontier.deep_view() =~= seq![root@]);
        assert(out_nodes.deep_view() =~= bfs_init(storev, root@).nodes);
        assert(out_edges.deep_view() =~= Seq::<EdgeV>::empty());
    }

    let mut hop: usize = 0;
    while hop < d && frontier.len() > 0
        invariant
            hop <= d,
            ({
                let cur = BfsV {
                    visited: visited.deep_view(),
                    nodes: out_nodes.deep_view(),
                    edges: out_edges.deep_view(),
                    next: Seq::empty(),
                };
                let rest = bfs_hops(storev, fv, cur, frontier.deep_view(), d - hop);
                rest.visited == total.visited && rest.nodes == total.nodes && rest.edges
                    == total.edges
            }),
        decreases d - hop,
    {
        let ghost cur = BfsV {
            visited: visited.deep_view(),
            nodes: out_nodes.deep_view(),
            edges: out_edges.deep_view(),
            next: Seq::empty(),
        };
        let ghost frontv = frontier.deep_view();
        let mut next: Vec<String> = Vec::new();
        proof {
            assert(next.deep_view() =~= Seq::<Seq<char>>::empty());
        }
        let mut j: usize = 0;
        while j < frontier.len()
            invariant
                j <= frontier.len(),
                frontier.deep_view() == frontv,
                ({
                    let st = bfs_frontier(storev, fv, frontv, cur, j as int);
                    st.visited == visited.deep_view() && st.nodes == out_nodes.deep_view()
                        && st.edges == out_edges.deep_view() && st.next == next.deep_view()
                }),
            decreases frontier.len() - j,
        {
            let ghost stj = bfs_frontier(storev, fv, frontv, cur, j as int);
            let u = frontier[j].clone();
            proof {
                assert(frontv[j as int] == frontier@[j as int]@);
                assert(u@ == frontv[j as int]);
            }
            let mut i: usize = 0;
            while i < store.edges.len()
                invariant
                    i <= store.edges.len(),
                    u@ == frontv[j as int],
                    ({
                        let st = bfs_edges(storev, fv, u@, stj, i as int);
                        st.visited == visited.deep_view() && st.nodes == out_nodes.deep_view()
                            && st.edges == out_edges.deep_view() && st.next == next.deep_view()
                    }),
                decreases store.edges.len() - i,
            {
                let ghost sti = bfs_edges(storev, fv, u@, stj, i as int);
                let e = &store.edges[i];
                proof {
                    assert(storev.edges[i as int] == store.edges@[i as int]@);
                }
                let far_opt: Option<&String> = if e.src == u {
                    Option::Some(&e.dst)
                } else if !filters.directed && e.dst == u {
                    Option::Some(&e.src)
                } else {
                    Option::None
                };
                match far_opt {
                    Option::None => {
                        proof {
                            assert(edge_far(u@, storev.edges[i as int], fv.directed) is None);
                        }
                    },
                    Option::Some(far) => {
                        if rel_passes_exec(filters, &e.rel) && kind_passes_exec(store, filters, far)
                            && !contains_str(&visited, far) {
                            visited.push(far.clone());
                            next.push(far.clone());
                            out_edges.push(e.clone());
                            match store.get_node(far.as_str()) {
                                Option::Some(n) => { out_nodes.push(n) },
                                Option::None => {},
                            }
                            proof {
                                assert(visited.deep_view() =~= sti.visited.push(far@));
                                assert(next.deep_view() =~= sti.next.push(far@));
                                assert(out_edges.deep_view() =~= sti.edges.push(
                                    storev.edges[i as int],
                                ));
                                assert(out_nodes.deep_view() =~= (match lookup_node_seq(
                                    storev.nodes,
                                    far@,
                                ) {
                                    Option::Some(n) => sti.nodes.push(n),
                                    Option::None => sti.nodes,
                                }));
                            }
                        }
                    },
                }
                i = i + 1;
            }
            proof {
                assert(bfs_edges(storev, fv, u@, stj, store.edges@.len() as int) == bfs_frontier(
                    storev,
                    fv,
                    frontv,
                    cur,
                    j + 1,
                ));
            }
            j = j + 1;
        }
        proof {
            let st1 = bfs_hop(storev, fv, cur, frontv);
            assert(bfs_frontier(storev, fv, frontv, cur, frontv.len() as int) == st1);
            assert(st1.next == next.deep_view());
            let cur2 = BfsV {
                visited: visited.deep_view(),
                nodes: out_nodes.deep_view(),
                edges: out_edges.deep_view(),
                next: Seq::empty(),
            };
            lemma_hops_next_irrelevant(storev, fv, st1, cur2, st1.next, d - hop - 1);
        }
        frontier = next;
        hop = hop + 1;
    }
    proof {
        let cur = BfsV {
            visited: visited.deep_view(),
            nodes: out_nodes.deep_view(),
            edges: out_edges.deep_view(),
            next: Seq::empty(),
        };
        assert(bfs_hops(storev, fv, cur, frontier.deep_view(), d - hop) == cur);
    }
    SubGraph { nodes: out_nodes, edges: out_edges, scores: Vec::new() }
}

} // verus!
