//! Data model of the graph memory engine: scopes, nodes, edges, filters,
//! policies, statistics, and result sub-graphs, together with their
//! mathematical views.

use vstd::prelude::*;

verus! {

/// Isolation boundary for a graph instance: one workspace or the global
/// namespace. Scopes never overlap.
#[derive(Debug)]
pub enum GraphScope {
    Workspace(String),
    Global,
}

impl GraphScope {
    pub fn dup(&self) -> (r: GraphScope)
        ensures
            r@ == self@,
    {
        match self {
            GraphScope::Workspace(w) => GraphScope::Workspace(w.clone()),
            GraphScope::Global => GraphScope::Global,
        }
    }
}

/// Mathematical view of a scope: the workspace id, or the global tag.
pub enum ScopeV {
    Workspace(Seq<char>),
    Global,
}

impl View for GraphScope {
    type V = ScopeV;

    open spec fn view(&self) -> ScopeV {
        match self {
            GraphScope::Workspace(w) => ScopeV::Workspace(w@),
            GraphScope::Global => ScopeV::Global,
        }
    }
}

/// A stored node: `id` is unique within a scope; `kind` is a free-form
/// category label; `meta` is a JSON text holding an open attribute bag;
/// `last_seen` is seconds since the epoch, refreshed on every upsert.
#[derive(Debug)]
pub struct GraphNode {
    pub id: String,
    pub kind: String,
    pub meta: String,
    pub last_seen: u64,
}

/// Mathematical view of a node.
pub struct NodeV {
    pub id: Seq<char>,
    pub kind: Seq<char>,
    pub meta: Seq<char>,
    pub last_seen: u64,
}

impl View for GraphNode {
    type V = NodeV;

    open spec fn view(&self) -> NodeV {
        NodeV { id: self.id@, kind: self.kind@, meta: self.meta@, last_seen: self.last_seen }
    }
}

impl DeepView for GraphNode {
    type V = NodeV;

    open spec fn deep_view(&self) -> NodeV {
        self.view()
    }
}

impl Clone for GraphNode {
    fn clone(&self) -> (r: Self)
        ensures
            r@ == self@,
    {
        GraphNode {
            id: self.id.clone(),
            kind: self.kind.clone(),
            meta: self.meta.clone(),
            last_seen: self.last_seen,
        }
    }
}

/// A stored edge. Its `id` is derived deterministically from
/// (`rel`, `src`, `dst`), so writing the same triple twice replaces in
/// place. `weight` is a fixed-point association strength: a stored value of
/// `crate::WEIGHT_SCALE` stands for 1.0.
#[derive(Debug)]
pub struct GraphEdge {
    pub id: String,
    pub src: String,
    pub dst: String,
    pub rel: String,
    pub weight: i64,
    pub meta: String,
}

/// Mathematical view of an edge.
pub struct EdgeV {
    pub id: Seq<char>,
    pub src: Seq<char>,
    pub dst: Seq<char>,
    pub rel: Seq<char>,
    pub weight: i64,
    pub meta: Seq<char>,
}

impl View for GraphEdge {
    type V = EdgeV;

    open spec fn view(&self) -> EdgeV {
        EdgeV {
            id: self.id@,
            src: self.src@,
            dst: self.dst@,
            rel: self.rel@,
            weight: self.weight,
            meta: self.meta@,
        }
    }
}

impl DeepView for GraphEdge {
    type V = EdgeV;

    open spec fn deep_view(&self) -> EdgeV {
        self.view()
    }
}

impl Clone for GraphEdge {
    fn clone(&self) -> (r: Self)
        ensures
            r@ == self@,
    {
        GraphEdge {
            id: self.id.clone(),
            src: self.src.clone(),
            dst: self.dst.clone(),
            rel: self.rel.clone(),
            weight: self.weight,
            meta: self.meta.clone(),
        }
    }
}

/// Traversal filters: optional allow-set of relation labels, optional
/// allow-set of far-end node kinds, and a direction flag. An absent set lets
/// every value pass; `directed` restricts expansion to the src -> dst
/// direction.
#[derive(Debug)]
pub struct NeighborFilters {
    pub rels: Option<Vec<String>>,
    pub kinds: Option<Vec<String>>,
    pub directed: bool,
}

/// Mathematical view of filters.
pub struct FiltersV {
    pub rels: Option<Seq<Seq<char>>>,
    pub kinds: Option<Seq<Seq<char>>>,
    pub directed: bool,
}

impl View for NeighborFilters {
    type V = FiltersV;

    open spec fn view(&self) -> FiltersV {
        FiltersV {
            rels: match self.rels {
                Option::Some(v) => Option::Some(v.deep_view()),
                Option::None => Option::None,
            },
            kinds: match self.kinds {
                Option::Some(v) => Option::Some(v.deep_view()),
                Option::None => Option::None,
            },
            directed: self.directed,
        }
    }
}

impl Default for NeighborFilters {
    /// The default filter passes every relation and kind and treats edges as
    /// undirected.
    fn default() -> (r: Self)
        ensures
            r@.rels is None,
            r@.kinds is None,
            !r@.directed,
    {
        NeighborFilters { rels: Option::None, kinds: Option::None, directed: false }
    }
}

/// Activation policy: `top_n` bounds the node count of the result after
/// ranking; `max_hops` bounds propagation distance.
#[derive(Debug)]
pub struct ActivationPolicy {
    pub top_n: usize,
    pub max_hops: usize,
}

impl View for ActivationPolicy {
    type V = ActivationPolicy;

    open spec fn view(&self) -> ActivationPolicy {
        *self
    }
}

impl Clone for ActivationPolicy {
    fn clone(&self) -> (r: Self)
        ensures
            r == *self,
    {
        ActivationPolicy { top_n: self.top_n, max_hops: self.max_hops }
    }
}

impl Copy for ActivationPolicy {

}

impl Default for ActivationPolicy {
    /// Default policy: up to 16 nodes, propagation bounded at 3 hops.
    fn default() -> (r: Self)
        ensures
            r.top_n == 16,
            r.max_hops == 3,
    {
        ActivationPolicy { top_n: 16, max_hops: 3 }
    }
}

/// Statistics of one scope: labels for the scope and serving backend, the
/// node and edge totals, and a kind -> count mapping.
#[derive(Debug)]
pub struct GraphStats {
    pub scope: String,
    pub backend: String,
    pub nodes: usize,
    pub edges: usize,
    pub categories: Vec<(String, usize)>,
}

/// Result of traversal or activation: nodes, edges, and (for activation) a
/// score per returned node, parallel to `nodes`. Scores are fixed-point with
/// scale `crate::WEIGHT_SCALE`.
#[derive(Debug)]
pub struct SubGraph {
    pub nodes: Vec<GraphNode>,
    pub edges: Vec<GraphEdge>,
    pub scores: Vec<(String, i64)>,
}

/// Supported export formats.
#[derive(Debug)]
pub enum GraphExportFormat {
    Dot,
    Jsonl,
}

/// Errors of the engine. Node lookup of a missing id is an absent result,
/// not an error.
#[derive(Debug)]
pub enum GraphError {
    /// Mutually exclusive scope selectors were supplied.
    ConflictingScope,
    /// A node or edge attribute bag is not valid JSON.
    InvalidMeta,
    /// An unrecognized export format string.
    UnsupportedExportFormat,
    /// The backend could not be reached or answered malformed data.
    BackendUnavailable,
}

impl GraphError {
    /// A human-readable label for the error.
    pub fn describe(&self) -> (r: &'static str)
        ensures
            r@ == self.describe_spec(),
    {
        match self {
            GraphError::ConflictingScope => "conflicting scope selectors",
            GraphError::InvalidMeta => "invalid meta",
            GraphError::UnsupportedExportFormat => "unsupported export format",
            GraphError::BackendUnavailable => "backend unavailable",
        }
    }

    pub open spec fn describe_spec(&self) -> Seq<char> {
        match self {
            GraphError::ConflictingScope => "conflicting scope selectors"@,
            GraphError::InvalidMeta => "invalid meta"@,
            GraphError::UnsupportedExportFormat => "unsupported export format"@,
            GraphError::BackendUnavailable => "backend unavailable"@,
        }
    }
}

} // verus!
