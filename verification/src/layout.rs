//! Layout of the dependency graph: item order, nesting and edge kinds.

use vstd::prelude::*;
use crate::model::{SourceLocation, SourceLocationView};
use crate::graph::{
    ArcGraph, ArcGraphView, EdgeView, Follow, NodeView, containment_forest, count_true, has_edge, is_closure, is_last_edge,
    loc_views, mask_indices, mask_set, node_name, owning_crate_spec, parent_of,
};
use crate::order::{
    compare_chars, lex_lt, lemma_lex_asymmetric, lemma_lex_irreflexive, lemma_lex_le_transitive, lemma_lex_total,
    lemma_lex_transitive,
};
use crate::strings::str_chars;
use petgraph::graph::{DiGraph, NodeIndex};

verus! {

/// Index into `LayoutIR::items`.
pub type NodeId = usize;

/// Change frequency class of a module's source file.
#[derive(Debug, Clone, Copy, PartialEq, Eq, Structural)]
pub enum Volatility {
    Low,
    Medium,
    High,
}

#[derive(Debug, Clone, Copy, PartialEq, Eq, Structural)]
pub enum ItemKind {
    Crate,
    Module { nesting: u32, parent: NodeId },
}

#[derive(Debug, Clone)]
pub struct LayoutItem {
    pub id: NodeId,
    pub kind: ItemKind,
    pub label: String,
    pub source_path: Option<String>,
    pub volatility: Option<(Volatility, usize)>,
}

#[derive(Debug, Clone, Copy, PartialEq, Eq, Structural)]
pub enum EdgeKind {
    /// The source comes before the target.
    Downward,
    /// The source comes after the target.
    Upward,
    /// Both directions exist as module dependencies within a cycle.
    DirectCycle,
    /// Part of a longer cycle.
    TransitiveCycle,
}

#[derive(Debug, Clone)]
pub struct LayoutEdge {
    pub from: NodeId,
    pub to: NodeId,
    pub kind: EdgeKind,
    pub source_locations: Vec<SourceLocation>,
}

#[derive(Debug)]
pub struct LayoutIR {
    pub items: Vec<LayoutItem>,
    pub edges: Vec<LayoutEdge>,
}

impl LayoutIR {
    /// An empty layout.
    pub fn new() -> (r: Self)
        ensures
            r.items.len() == 0,
            r.edges.len() == 0,
    {
        LayoutIR { items: Vec::new(), edges: Vec::new() }
    }

    /// Appends an item without source path or volatility; returns its id,
    /// its position.
    pub fn add_item(&mut self, kind: ItemKind, label: String) -> (id: NodeId)
        ensures
            id == old(self).items.len(),
            final(self).items.len() == old(self).items.len() + 1,
            forall|i: int| 0 <= i < old(self).items.len() ==> final(self).items@[i] == old(self).items@[i],
            final(self).items@[id as int].id == id,
            final(self).items@[id as int].kind == kind,
            final(self).items@[id as int].label@ == label@,
            final(self).items@[id as int].source_path is None,
            final(self).items@[id as int].volatility is None,
            final(self).edges == old(self).edges,
    {
        let id = self.items.len();
        self.items.push(LayoutItem { id, kind, label, source_path: None, volatility: None });
        id
    }

    /// Appends an edge.
    pub fn add_edge(&mut self, from: NodeId, to: NodeId, kind: EdgeKind, source_locations: Vec<SourceLocation>)
        ensures
            final(self).edges.len() == old(self).edges.len() + 1,
            forall|i: int| 0 <= i < old(self).edges.len() ==> final(self).edges@[i] == old(self).edges@[i],
            final(self).edges@[old(self).edges.len() as int].from == from,
            final(self).edges@[old(self).edges.len() as int].to == to,
            final(self).edges@[old(self).edges.len() as int].kind == kind,
            loc_views(final(self).edges@[old(self).edges.len() as int].source_locations@) == loc_views(source_locations@),
            final(self).items == old(self).items,
    {
        self.edges.push(LayoutEdge { from, to, kind, source_locations });
    }
}

/// Nodes of the dependency graph that form a cycle (a strongly connected
/// component of more than one node).
#[derive(Debug, Clone, PartialEq)]
pub struct Cycle {
    pub nodes: Vec<usize>,
}

/// The node weights of an index graph, by node index.
pub uninterp spec fn index_nodes(g: DiGraph<usize, ()>) -> Seq<usize>;

/// The edges `(source, target)` of an index graph, by edge index.
pub uninterp spec fn index_edges(g: DiGraph<usize, ()>) -> Seq<(usize, usize)>;

/// What `petgraph::algo::toposort` returns on the graph with `n` nodes and
/// these edges (added in this order).
pub uninterp spec fn toposort_of(n: nat, edges: Seq<(usize, usize)>) -> Option<Seq<usize>>;

/// What `petgraph::algo::tarjan_scc` returns on the graph with `n` nodes
/// and these edges (added in this order).
pub uninterp spec fn tarjan_of(n: nat, edges: Seq<(usize, usize)>) -> Seq<Seq<usize>>;

/// `o` lists `0..n` once each, every edge's source before its target.
pub open spec fn is_topo_order(n: nat, edges: Seq<(usize, usize)>, o: Seq<usize>) -> bool {
    &&& o.len() == n
    &&& o.no_duplicates()
    &&& forall|k: int| 0 <= k < o.len() ==> #[trigger] o[k] < n
    &&& forall|e: int, a: int, b: int|
        #![trigger edges[e], o[a], o[b]]
        0 <= e < edges.len() && 0 <= a < o.len() && 0 <= b < o.len() && o[a] == edges[e].0
            && o[b] == edges[e].1 ==> a < b
}

/// Some order lists the nodes with every edge pointing forward.
pub open spec fn acyclic(n: nat, edges: Seq<(usize, usize)>) -> bool {
    exists|o: Seq<usize>| is_topo_order(n, edges, o)
}

/// `sccs` partitions `0..n` into non-empty groups ordered so that every
/// edge leads to the same or an earlier group.
pub open spec fn is_scc_partition(n: nat, edges: Seq<(usize, usize)>, sccs: Seq<Seq<usize>>) -> bool {
    &&& forall|a: int| 0 <= a < sccs.len() ==> (#[trigger] sccs[a]).len() > 0 && sccs[a].no_duplicates()
    &&& forall|a: int, k: int| 0 <= a < sccs.len() && 0 <= k < sccs[a].len() ==> #[trigger] sccs[a][k] < n
    &&& forall|v: usize| v < n ==> #[trigger] in_some_scc(sccs, v)
    &&& forall|a: int, b: int, v: usize| 0 <= a < b < sccs.len() && #[trigger] sccs[a].contains(v) ==> !#[trigger] sccs[b].contains(v)
    &&& forall|e: int, a: int, b: int|
        0 <= e < edges.len() && 0 <= a < sccs.len() && 0 <= b < sccs.len() && #[trigger] sccs[a].contains(edges[e].0)
            && #[trigger] sccs[b].contains(edges[e].1) ==> b <= a
}

/// Whether some edge goes from `a` to `b`.
pub open spec fn has_index_edge(edges: Seq<(usize, usize)>, a: usize, b: usize) -> bool {
    exists|e: int| 0 <= e < edges.len() && #[trigger] edges[e] == (a, b)
}

/// Node `v` belongs to some group.
pub open spec fn in_some_scc(sccs: Seq<Seq<usize>>, v: usize) -> bool {
    exists|a: int| 0 <= a < sccs.len() && #[trigger] sccs[a].contains(v)
}

/// `DiGraph::new`.
#[verifier::external_body]
pub(crate) fn index_graph_new() -> (g: DiGraph<usize, ()>)
    ensures
        index_nodes(g) == Seq::<usize>::empty(),
        index_edges(g) == Seq::<(usize, usize)>::empty(),
{
    DiGraph::new()
}

/// `Graph::add_node`: appends a node; its index is the former node count.
#[verifier::external_body]
pub(crate) fn index_graph_add_node(g: &mut DiGraph<usize, ()>, w: usize) -> (i: usize)
    requires
        index_nodes(*old(g)).len() < u32::MAX,
    ensures
        i == index_nodes(*old(g)).len(),
        index_nodes(*final(g)) == index_nodes(*old(g)).push(w),
        index_edges(*final(g)) == index_edges(*old(g)),
{
    g.add_node(w).index()
}

/// `Graph::add_edge`: appends an edge.
#[verifier::external_body]
pub(crate) fn index_graph_add_edge(g: &mut DiGraph<usize, ()>, a: usize, b: usize)
    requires
        a < index_nodes(*old(g)).len(),
        b < index_nodes(*old(g)).len(),
        index_nodes(*old(g)).len() <= u32::MAX,
        index_edges(*old(g)).len() < u32::MAX,
    ensures
        index_edges(*final(g)) == index_edges(*old(g)).push((a, b)),
        index_nodes(*final(g)) == index_nodes(*old(g)),
{
    g.add_edge(NodeIndex::new(a), NodeIndex::new(b), ());
}

/// `Graph::contains_edge`.
#[verifier::external_body]
fn index_graph_contains_edge(g: &DiGraph<usize, ()>, a: usize, b: usize) -> (r: bool)
    requires
        a < index_nodes(*g).len(),
        b < index_nodes(*g).len(),
        index_nodes(*g).len() <= u32::MAX,
    ensures
        r == has_index_edge(index_edges(*g), a, b),
{
    g.contains_edge(NodeIndex::new(a), NodeIndex::new(b))
}

/// `petgraph::algo::toposort`: per its documentation, on success the nodes
/// in topological order, and an error exactly when the graph has a cycle.
#[verifier::external_body]
fn index_graph_toposort(g: &DiGraph<usize, ()>) -> (r: Option<Vec<usize>>)
    requires
        index_nodes(*g).len() <= u32::MAX,
    ensures
        r is Some == (toposort_of(index_nodes(*g).len(), index_edges(*g)) is Some),
        r is Some ==> r->0@ == toposort_of(index_nodes(*g).len(), index_edges(*g))->0,
        r is Some ==> is_topo_order(index_nodes(*g).len(), index_edges(*g), r->0@),
        r is None ==> !acyclic(index_nodes(*g).len(), index_edges(*g)),
{
    match petgraph::algo::toposort(g, None) {
        Ok(order) => Some(order.iter().map(|n| n.index()).collect()),
        Err(_) => None,
    }
}

/// A walk along edges: each node joined to the next by an edge.
pub open spec fn index_path(edges: Seq<(usize, usize)>, p: Seq<usize>) -> bool {
    &&& p.len() >= 1
    &&& forall|i: int| 0 <= i < p.len() - 1 ==> #[trigger] has_index_edge(edges, p[i], p[i + 1])
}

/// Some walk along edges leads from `x` to `y`.
pub open spec fn index_reaches(edges: Seq<(usize, usize)>, x: usize, y: usize) -> bool {
    exists|p: Seq<usize>| #[trigger] index_path(edges, p) && p[0] == x && p.last() == y
}

/// `x` and `y` lie in one group.
pub open spec fn same_group(sccs: Seq<Seq<usize>>, x: usize, y: usize) -> bool {
    exists|a: int| 0 <= a < sccs.len() && #[trigger] sccs[a].contains(x) && sccs[a].contains(y)
}

/// `petgraph::algo::tarjan_scc`: per its documentation, the strongly
/// connected components, each a group of nodes, in reverse topological
/// order (an edge never leads to a later group); within a group, each node
/// reaches every other one, and two nodes that reach each other share a
/// group.
#[verifier::external_body]
fn index_graph_tarjan(g: &DiGraph<usize, ()>) -> (r: Vec<Vec<usize>>)
    requires
        index_nodes(*g).len() <= u32::MAX,
    ensures
        r.deep_view() == tarjan_of(index_nodes(*g).len(), index_edges(*g)),
        is_scc_partition(index_nodes(*g).len(), index_edges(*g), r.deep_view()),
        forall|x: usize, y: usize| #[trigger] same_group(r.deep_view(), x, y) ==> index_reaches(index_edges(*g), x, y),
        forall|x: usize, y: usize|
            x < index_nodes(*g).len() && y < index_nodes(*g).len() && #[trigger] index_reaches(index_edges(*g), x, y)
                && #[trigger] index_reaches(index_edges(*g), y, x) ==> same_group(r.deep_view(), x, y),
{
    petgraph::algo::tarjan_scc(g).iter().map(|scc| scc.iter().map(|n| n.index()).collect()).collect()
}

/// `Graph` indexing: the weight of node `i`.
#[verifier::external_body]
fn index_graph_weight(g: &DiGraph<usize, ()>, i: usize) -> (w: usize)
    requires
        i < index_nodes(*g).len(),
        index_nodes(*g).len() <= u32::MAX,
    ensures
        w == index_nodes(*g)[i as int],
{
    g[NodeIndex::new(i)]
}

/// `Graph::raw_edges`: endpoints of edge `e`.
#[verifier::external_body]
fn index_graph_edge(g: &DiGraph<usize, ()>, e: usize) -> (r: (usize, usize))
    requires
        e < index_edges(*g).len(),
    ensures
        r == index_edges(*g)[e as int],
{
    let ed = &g.raw_edges()[e];
    (ed.source().index(), ed.target().index())
}

/// `Graph::edge_count`.
#[verifier::external_body]
fn index_graph_edge_count(g: &DiGraph<usize, ()>) -> (r: usize)
    ensures
        r == index_edges(*g).len(),
{
    g.edge_count()
}

/// `Graph::node_count`.
#[verifier::external_body]
fn index_graph_node_count(g: &DiGraph<usize, ()>) -> (r: usize)
    ensures
        r == index_nodes(*g).len(),
{
    g.node_count()
}

} // verus!

verus! {

/// Endpoints of the module-dependency edges among the first `k` edges, in order.
pub open spec fn module_dep_pairs(edges: Seq<(usize, usize, EdgeView)>, k: int) -> Seq<(usize, usize)>
    decreases k,
{
    if k <= 0 {
        Seq::empty()
    } else if edges[k - 1].2 is ModuleDep {
        module_dep_pairs(edges, k - 1).push((edges[k - 1].0, edges[k - 1].1))
    } else {
        module_dep_pairs(edges, k - 1)
    }
}

/// The groups of more than one node, in order.
pub open spec fn multi_node_groups(sccs: Seq<Seq<usize>>) -> Seq<Seq<usize>>
    decreases sccs.len(),
{
    if sccs.len() == 0 {
        Seq::empty()
    } else if sccs.last().len() > 1 {
        multi_node_groups(sccs.drop_last()).push(sccs.last())
    } else {
        multi_node_groups(sccs.drop_last())
    }
}

pub open spec fn cycle_views(cs: Seq<Cycle>) -> Seq<Seq<usize>> {
    cs.map_values(|c: Cycle| c.nodes@)
}

/// The graph of the module dependencies: one node per node of `graph`
/// (weight: its index), one edge per module-dependency edge, in order.
fn module_dep_graph(graph: &ArcGraph) -> (g: DiGraph<usize, ()>)
    ensures
        index_nodes(g).len() == graph@.nodes.len(),
        forall|i: int| 0 <= i < graph@.nodes.len() ==> #[trigger] index_nodes(g)[i] == i,
        index_edges(g) == module_dep_pairs(graph@.edges, graph@.edges.len() as int),
{
    proof {
        use_type_invariant(graph);
    }
    let n = graph.node_count();
    let ne = graph.edge_count();
    let mut g = index_graph_new();
    let mut i: usize = 0;
    while i < n
        invariant
            n == graph@.nodes.len() <= u32::MAX,
            0 <= i <= n,
            index_nodes(g).len() == i,
            index_edges(g).len() == 0,
            forall|j: int| 0 <= j < i ==> #[trigger] index_nodes(g)[j] == j,
        decreases n - i,
    {
        index_graph_add_node(&mut g, i);
        i = i + 1;
    }
    let mut e: usize = 0;
    while e < ne
        invariant
            crate::graph::graph_wf(graph@),
            n == graph@.nodes.len(),
            ne == graph@.edges.len(),
            0 <= e <= ne,
            index_nodes(g).len() == n,
            forall|j: int| 0 <= j < n ==> #[trigger] index_nodes(g)[j] == j,
            index_edges(g) == module_dep_pairs(graph@.edges, e as int),
            index_edges(g).len() <= e,
        decreases ne - e,
    {
        let (a, b, w) = graph.edge(e);
        match w {
            crate::graph::Edge::ModuleDep { .. } => {
                index_graph_add_edge(&mut g, a, b);
            },
            _ => {},
        }
        e = e + 1;
    }
    g
}

/// Endpoints of the production module-dependency edges among the first `k`
/// edges, in order.
pub open spec fn production_dep_pairs(edges: Seq<(usize, usize, EdgeView)>, k: int) -> Seq<(usize, usize)>
    decreases k,
{
    if k <= 0 {
        Seq::empty()
    } else if crate::graph::is_production_module_dep_edge(edges[k - 1].2) {
        production_dep_pairs(edges, k - 1).push((edges[k - 1].0, edges[k - 1].1))
    } else {
        production_dep_pairs(edges, k - 1)
    }
}

impl ArcGraph {
    /// The graph of the production module dependencies: one node per node
    /// (weight: its index), one edge per production module-dependency edge,
    /// in order.
    pub fn production_subgraph(&self) -> (g: DiGraph<usize, ()>)
        ensures
            index_nodes(g).len() == self@.nodes.len(),
            forall|i: int| 0 <= i < self@.nodes.len() ==> #[trigger] index_nodes(g)[i] == i,
            index_edges(g) == production_dep_pairs(self@.edges, self@.edges.len() as int),
    {
        proof {
            use_type_invariant(self);
        }
        let n = self.node_count();
        let ne = self.edge_count();
        let mut g = index_graph_new();
        let mut i: usize = 0;
        while i < n
            invariant
                n == self@.nodes.len() <= u32::MAX,
                0 <= i <= n,
                index_nodes(g).len() == i,
                index_edges(g).len() == 0,
                forall|j: int| 0 <= j < i ==> #[trigger] index_nodes(g)[j] == j,
            decreases n - i,
        {
            index_graph_add_node(&mut g, i);
            i = i + 1;
        }
        let mut e: usize = 0;
        while e < ne
            invariant
                crate::graph::graph_wf(self@),
                n == self@.nodes.len(),
                ne == self@.edges.len(),
                0 <= e <= ne,
                index_nodes(g).len() == n,
                forall|j: int| 0 <= j < n ==> #[trigger] index_nodes(g)[j] == j,
                index_edges(g) == production_dep_pairs(self@.edges, e as int),
                index_edges(g).len() <= e,
            decreases ne - e,
        {
            let (a, b, w) = self.edge(e);
            if w.is_production_module_dep() {
                index_graph_add_edge(&mut g, a, b);
            }
            e = e + 1;
        }
        g
    }
}

/// Cycles among module dependencies: the strongly connected components of
/// more than one node, in the order `tarjan_scc` gives them. No node lies
/// on two of them; two different nodes share a cycle exactly when each
/// reaches the other along module dependencies.
pub fn detect_cycles(graph: &ArcGraph) -> (r: Vec<Cycle>)
    ensures
        forall|x: usize, y: usize|
            x < graph@.nodes.len() && y < graph@.nodes.len() && x != y ==> (#[trigger] same_group(cycle_views(r@), x, y) <==> (
            index_reaches(module_dep_pairs(graph@.edges, graph@.edges.len() as int), x, y) && index_reaches(
                module_dep_pairs(graph@.edges, graph@.edges.len() as int),
                y,
                x,
            ))),
        cycle_views(r@) == multi_node_groups(
            tarjan_of(graph@.nodes.len(), module_dep_pairs(graph@.edges, graph@.edges.len() as int)),
        ),
        forall|c: int| 0 <= c < r.len() ==> (#[trigger] r@[c]).nodes.len() > 1 && r@[c].nodes@.no_duplicates(),
        forall|c: int, j: int| 0 <= c < r.len() && 0 <= j < r@[c].nodes.len() ==> #[trigger] r@[c].nodes@[j] < graph@.nodes.len(),
        cycles_disjoint(cycle_views(r@)),
{
    proof {
        use_type_invariant(graph);
    }
    let g = module_dep_graph(graph);
    let sccs = index_graph_tarjan(&g);
    let ghost sv = sccs.deep_view();
    let ghost n = graph@.nodes.len();
    let mut out: Vec<Cycle> = Vec::new();
    let ghost mut src: Seq<int> = Seq::empty();
    let mut k: usize = 0;
    assert(sv.take(0) =~= Seq::<Seq<usize>>::empty());
    assert(cycle_views(out@) =~= Seq::<Seq<usize>>::empty());
    while k < sccs.len()
        invariant
            sv == sccs.deep_view(),
            n == graph@.nodes.len(),
            is_scc_partition(n, index_edges(g), sv),
            0 <= k <= sccs.len(),
            cycle_views(out@) == multi_node_groups(sv.take(k as int)),
            src.len() == out.len(),
            forall|c: int| 0 <= c < out.len() ==> 0 <= #[trigger] src[c] < k && out@[c].nodes@ == sv[src[c]],
            forall|c1: int, c2: int| 0 <= c1 < c2 < out.len() ==> src[c1] < src[c2],
            forall|c: int| 0 <= c < out.len() ==> (#[trigger] out@[c]).nodes.len() > 1,
            forall|a: int| 0 <= a < k && (#[trigger] sv[a]).len() > 1 ==> exists|c: int| 0 <= c < src.len() && src[c] == a,
        decreases sccs.len() - k,
    {
        assert(sv.take(k + 1).drop_last() =~= sv.take(k as int));
        assert(sv.take(k + 1).last() == sccs@[k as int]@);
        if sccs[k].len() > 1 {
            let ghost prev = cycle_views(out@);
            let nodes = sccs[k].clone();
            assert(nodes@ =~= sccs@[k as int]@);
            out.push(Cycle { nodes });
            proof {
                let s0 = src;
                src = src.push(k as int);
                assert forall|a: int| 0 <= a < k + 1 && (#[trigger] sv[a]).len() > 1 implies exists|c: int|
                    0 <= c < src.len() && src[c] == a by {
                    if a < k {
                        let c = choose|c: int| 0 <= c < s0.len() && s0[c] == a;
                        assert(src[c] == a);
                    } else {
                        assert(src[s0.len() as int] == a);
                    }
                }
            }
            assert(cycle_views(out@) =~= prev.push(sccs@[k as int]@));
        }
        k = k + 1;
    }
    assert(sv.take(sccs.len() as int) =~= sv);
    proof {
        let cv = cycle_views(out@);
        assert forall|c: int| 0 <= c < out.len() implies (#[trigger] out@[c]).nodes.len() > 1 && out@[c].nodes@.no_duplicates() by {
            assert(sv[src[c]].no_duplicates());
        }
        let mdp = module_dep_pairs(graph@.edges, graph@.edges.len() as int);
        assert forall|x: usize, y: usize| x < n && y < n && x != y implies (#[trigger] same_group(cv, x, y) <==> (
            index_reaches(mdp, x, y) && index_reaches(mdp, y, x))) by {
            if same_group(cv, x, y) {
                let c = choose|c: int| 0 <= c < cv.len() && #[trigger] cv[c].contains(x) && cv[c].contains(y);
                assert(cv[c] == sv[src[c]]);
                assert(same_group(sv, x, y));
                assert(same_group(sv, y, x));
            }
            if index_reaches(mdp, x, y) && index_reaches(mdp, y, x) {
                assert(same_group(sv, x, y));
                let a = choose|a: int| 0 <= a < sv.len() && #[trigger] sv[a].contains(x) && sv[a].contains(y);
                assert(sv[a].len() > 1) by {
                    let i = choose|i: int| 0 <= i < sv[a].len() && sv[a][i] == x;
                    let j = choose|j: int| 0 <= j < sv[a].len() && sv[a][j] == y;
                    assert(i != j);
                }
                let c = choose|c: int| 0 <= c < src.len() && src[c] == a;
                assert(cv[c] == sv[a]);
                assert(cv[c].contains(x) && cv[c].contains(y));
            }
        }
        assert forall|c: int, j: int| 0 <= c < out.len() && 0 <= j < out@[c].nodes.len() implies #[trigger] out@[c].nodes@[j] < n by {
            assert(sv[src[c]][j] < n);
        }
        assert forall|a: int, b: int, v: usize|
            0 <= a < cv.len() && 0 <= b < cv.len() && a != b && #[trigger] cv[a].contains(v) implies !#[trigger] cv[b].contains(v) by {
            assert(cv[a] == sv[src[a]]);
            assert(cv[b] == sv[src[b]]);
            if a < b {
                assert(src[a] < src[b]);
            } else {
                assert(src[b] < src[a]);
            }
        }
    }
    out
}

} // verus!

verus! {

/// The name that orders sibling items: a module's name; crates sort with
/// the empty name.
pub open spec fn sort_name(v: ArcGraphView, i: usize) -> Seq<char> {
    match v.nodes[i as int] {
        NodeView::Module { name, .. } => name,
        NodeView::Crate { .. } => Seq::empty(),
    }
}

/// Node `x` of an index graph can be placed after the nodes of `placed`:
/// it is not placed yet and all its predecessors are.
pub open spec fn available(n: nat, edges: Seq<(usize, usize)>, placed: Seq<usize>, x: usize) -> bool {
    &&& x < n
    &&& !placed.contains(x)
    &&& forall|e: int| 0 <= e < edges.len() && #[trigger] edges[e].1 == x ==> placed.contains(edges[e].0)
}

/// Sort names of the nodes of an index graph, given by their weights.
pub open spec fn stable_names(v: ArcGraphView, weights: Seq<usize>) -> Seq<Seq<char>> {
    weights.map_values(|w: usize| sort_name(v, w))
}

/// The weights of the local nodes listed in `o`.
pub open spec fn weights_of(weights: Seq<usize>, o: Seq<usize>) -> Seq<usize> {
    o.map_values(|k: usize| weights[k as int])
}

/// `a` comes before `b` by name, then by index.
pub open spec fn name_index_lt(names: Seq<Seq<char>>, a: usize, b: usize) -> bool {
    lex_lt(names[a as int], names[b as int]) || (names[a as int] == names[b as int] && a < b)
}

/// `o` is the order in which Kahn's algorithm places its first nodes when
/// it always takes the available node that is first by name, then by index.
pub open spec fn is_stable_prefix(n: nat, edges: Seq<(usize, usize)>, names: Seq<Seq<char>>, o: Seq<usize>) -> bool {
    &&& o.len() <= n
    &&& forall|k: int| 0 <= k < o.len() ==> available(n, edges, o.take(k), #[trigger] o[k])
    &&& forall|k: int, x: usize|
        0 <= k < o.len() && #[trigger] available(n, edges, o.take(k), x) && x != o[k] ==> name_index_lt(names, o[k], x)
}

/// `o` is the order in which Kahn's algorithm places the nodes when it
/// always takes the available node that is first by name, then by index.
pub open spec fn is_stable_order(n: nat, edges: Seq<(usize, usize)>, names: Seq<Seq<char>>, o: Seq<usize>) -> bool {
    &&& o.len() == n
    &&& forall|k: int| 0 <= k < o.len() ==> available(n, edges, o.take(k), #[trigger] o[k])
    &&& forall|k: int, x: usize|
        0 <= k < o.len() && #[trigger] available(n, edges, o.take(k), x) && x != o[k] ==> name_index_lt(names, o[k], x)
}

proof fn lemma_cover(n: nat, o: Seq<usize>, v: usize)
    requires
        o.len() == n,
        o.no_duplicates(),
        forall|k: int| 0 <= k < o.len() ==> #[trigger] o[k] < n,
        v < n,
    ensures
        o.contains(v),
{
    let s = Seq::new(n, |k: int| o[k] as int);
    assert(s.no_duplicates());
    s.unique_seq_to_set();
    vstd::set_lib::lemma_int_range(0, n as int);
    if !o.contains(v) {
        assert(s.to_set().subset_of(vstd::set_lib::set_int_range(0, n as int).remove(v as int))) by {
            assert forall|x: int| s.to_set().contains(x) implies vstd::set_lib::set_int_range(0, n as int).remove(v as int).contains(x) by {
                let k = choose|k: int| 0 <= k < s.len() && s[k] == x;
                assert(o[k] != v);
            }
        }
        vstd::set_lib::lemma_len_subset(s.to_set(), vstd::set_lib::set_int_range(0, n as int).remove(v as int));
    }
}

/// A prefix of a placement order shorter than `n` leaves a node unplaced.
proof fn lemma_exists_unplaced(n: nat, edges: Seq<(usize, usize)>, order: Seq<usize>)
    requires
        order.len() < n,
        n <= u32::MAX,
        forall|k: int| 0 <= k < order.len() ==> available(n, edges, order.take(k), #[trigger] order[k]),
    ensures
        exists|u: usize| u < n && !order.contains(u),
{
    assert forall|a: int, b: int| 0 <= a < b < order.len() implies order[a] != order[b] by {
        assert(available(n, edges, order.take(b), order[b]));
        assert(order.take(b)[a] == order[a]);
    }
    assert(order.no_duplicates());
    let s = Seq::new(order.len(), |k: int| order[k] as int);
    assert(s.no_duplicates());
    s.unique_seq_to_set();
    vstd::set_lib::lemma_int_range(0, n as int);
    if forall|u: usize| u < n ==> order.contains(u) {
        assert(vstd::set_lib::set_int_range(0, n as int).subset_of(s.to_set())) by {
            assert forall|x: int| vstd::set_lib::set_int_range(0, n as int).contains(x) implies s.to_set().contains(x) by {
                assert(order.contains(x as usize));
                let k = choose|k: int| 0 <= k < order.len() && order[k] == x as usize;
                assert(s[k] == x);
            }
        }
        assert(s.to_set().finite());
        vstd::set_lib::lemma_len_subset(vstd::set_lib::set_int_range(0, n as int), s.to_set());
    }
}

/// When no node is available but some are unplaced, the graph has a cycle.
proof fn lemma_stuck_cyclic(n: nat, edges: Seq<(usize, usize)>, placed: Seq<usize>, u: usize)
    requires
        u < n,
        !placed.contains(u),
        forall|x: usize| !available(n, edges, placed, x),
        forall|e: int| 0 <= e < edges.len() ==> (#[trigger] edges[e]).0 < n && edges[e].1 < n,
    ensures
        !acyclic(n, edges),
{
    if acyclic(n, edges) {
        let t = choose|t: Seq<usize>| is_topo_order(n, edges, t);
        lemma_cover(n, t, u);
        let ju = choose|ju: int| 0 <= ju < t.len() && t[ju] == u;
        lemma_first_unplaced(n, edges, placed, t, ju);
    }
}

proof fn lemma_first_unplaced(n: nat, edges: Seq<(usize, usize)>, placed: Seq<usize>, t: Seq<usize>, j: int)
    requires
        is_topo_order(n, edges, t),
        0 <= j < t.len(),
        !placed.contains(t[j]),
        forall|e: int| 0 <= e < edges.len() ==> (#[trigger] edges[e]).0 < n && edges[e].1 < n,
    ensures
        exists|x: usize| available(n, edges, placed, x),
    decreases j,
{
    let x = t[j];
    if !available(n, edges, placed, x) {
        let e = choose|e: int| 0 <= e < edges.len() && #[trigger] edges[e].1 == x && !placed.contains(edges[e].0);
        let p = edges[e].0;
        lemma_cover(n, t, p);
        let a = choose|a: int| 0 <= a < t.len() && t[a] == p;
        assert(t[a] == edges[e].0 && t[j] == edges[e].1);
        assert(a < j);
        lemma_first_unplaced(n, edges, placed, t, a);
    }
}

proof fn lemma_name_index_total(names: Seq<Seq<char>>, a: usize, b: usize)
    requires
        a != b,
    ensures
        name_index_lt(names, a, b) || name_index_lt(names, b, a),
{
    lemma_lex_total(names[a as int], names[b as int]);
}

proof fn lemma_name_index_transitive(names: Seq<Seq<char>>, a: usize, b: usize, c: usize)
    requires
        name_index_lt(names, a, b),
        name_index_lt(names, b, c),
    ensures
        name_index_lt(names, a, c),
{
    if lex_lt(names[a as int], names[b as int]) && lex_lt(names[b as int], names[c as int]) {
        lemma_lex_transitive(names[a as int], names[b as int], names[c as int]);
    }
}

proof fn lemma_name_index_asym(names: Seq<Seq<char>>, a: usize, b: usize)
    requires
        name_index_lt(names, a, b),
    ensures
        !name_index_lt(names, b, a),
{
    if name_index_lt(names, b, a) {
        lemma_name_index_transitive(names, a, b, a);
        lemma_lex_irreflexive(names[a as int]);
    }
}

/// A full placement order in which each node was available when placed
/// is a topological order.
proof fn lemma_placement_is_topological(n: nat, edges: Seq<(usize, usize)>, o: Seq<usize>)
    requires
        o.len() == n,
        forall|k: int| 0 <= k < o.len() ==> available(n, edges, o.take(k), #[trigger] o[k]),
    ensures
        is_topo_order(n, edges, o),
{
    assert forall|k: int| 0 <= k < o.len() implies #[trigger] o[k] < n by {
        assert(available(n, edges, o.take(k), o[k]));
    }
    assert forall|i: int, j: int| 0 <= i < j < o.len() implies o[i] != o[j] by {
        assert(available(n, edges, o.take(j), o[j]));
        assert(o.take(j)[i] == o[i]);
    }
    assert forall|e: int, a: int, b: int|
        #![trigger edges[e], o[a], o[b]]
        0 <= e < edges.len() && 0 <= a < o.len() && 0 <= b < o.len() && o[a] == edges[e].0
            && o[b] == edges[e].1 implies a < b by {
        assert(available(n, edges, o.take(b), o[b]));
        assert(o.take(b).contains(edges[e].0));
        let i = choose|i: int| 0 <= i < o.take(b).len() && o.take(b)[i] == edges[e].0;
        assert(o[i] == o[a]);
        if i != a {
            if i < a {
                assert(available(n, edges, o.take(a), o[a]));
                assert(o.take(a)[i] == o[i]);
            } else {
                assert(available(n, edges, o.take(i), o[i]));
                assert(o.take(i)[a] == o[a]);
            }
        }
    }
}

/// Kahn's order with the name tie-break lists every node once, and every
/// edge points forward in it: it is a topological order.
pub proof fn law_stable_order_is_topological(n: nat, edges: Seq<(usize, usize)>, names: Seq<Seq<char>>, o: Seq<usize>)
    requires
        is_stable_order(n, edges, names, o),
    ensures
        is_topo_order(n, edges, o),
{
    lemma_placement_is_topological(n, edges, o);
}

/// Nodes placed by always taking some available node.
spec fn greedy_placement(n: nat, edges: Seq<(usize, usize)>, k: nat) -> Seq<usize>
    decreases k,
{
    if k == 0 {
        Seq::empty()
    } else {
        let p = greedy_placement(n, edges, (k - 1) as nat);
        p.push(choose|x: usize| available(n, edges, p, x))
    }
}

proof fn lemma_min_rank_unplaced(n: nat, placed: Seq<usize>, rank: spec_fn(usize) -> nat, x0: usize)
    requires
        x0 < n,
        !placed.contains(x0),
    ensures
        exists|x: usize|
            x < n && !placed.contains(x) && forall|y: usize| y < n && !placed.contains(y) ==> rank(x) <= #[trigger] rank(y),
    decreases rank(x0),
{
    if !(forall|y: usize| y < n && !placed.contains(y) ==> rank(x0) <= #[trigger] rank(y)) {
        let y = choose|y: usize| y < n && !placed.contains(y) && !(rank(x0) <= #[trigger] rank(y));
        lemma_min_rank_unplaced(n, placed, rank, y);
    }
}

proof fn lemma_greedy_placement(n: nat, edges: Seq<(usize, usize)>, rank: spec_fn(usize) -> nat, k: nat)
    requires
        k <= n,
        n <= u32::MAX,
        forall|e: int| 0 <= e < edges.len() ==> (#[trigger] edges[e]).0 < n && edges[e].1 < n,
        forall|e: int| 0 <= e < edges.len() ==> rank((#[trigger] edges[e]).0) < rank(edges[e].1),
    ensures
        greedy_placement(n, edges, k).len() == k,
        forall|j: int|
            0 <= j < k ==> available(
                n,
                edges,
                greedy_placement(n, edges, k).take(j),
                #[trigger] greedy_placement(n, edges, k)[j],
            ),
    decreases k,
{
    if k > 0 {
        let k1 = (k - 1) as nat;
        let p = greedy_placement(n, edges, k1);
        lemma_greedy_placement(n, edges, rank, k1);
        lemma_exists_unplaced(n, edges, p);
        let x0 = choose|u: usize| u < n && !p.contains(u);
        lemma_min_rank_unplaced(n, p, rank, x0);
        let x = choose|x: usize|
            x < n && !p.contains(x) && forall|y: usize| y < n && !p.contains(y) ==> rank(x) <= #[trigger] rank(y);
        assert(available(n, edges, p, x)) by {
            assert forall|e: int| 0 <= e < edges.len() && #[trigger] edges[e].1 == x implies p.contains(edges[e].0) by {
                if !p.contains(edges[e].0) {
                    assert(rank(x) <= rank(edges[e].0));
                }
            }
        }
        let g = greedy_placement(n, edges, k);
        assert(g == p.push(choose|y: usize| available(n, edges, p, y)));
        assert forall|j: int| 0 <= j < k implies available(n, edges, g.take(j), #[trigger] g[j]) by {
            if j < k1 {
                assert(g.take(j) =~= p.take(j));
                assert(g[j] == p[j]);
            } else {
                assert(g.take(j) =~= p);
            }
        }
    }
}

/// A graph whose nodes can be ranked so that every edge climbs in rank has
/// no cycle.
proof fn lemma_rank_acyclic(n: nat, edges: Seq<(usize, usize)>, rank: spec_fn(usize) -> nat)
    requires
        n <= u32::MAX,
        forall|e: int| 0 <= e < edges.len() ==> (#[trigger] edges[e]).0 < n && edges[e].1 < n,
        forall|e: int| 0 <= e < edges.len() ==> rank((#[trigger] edges[e]).0) < rank(edges[e].1),
    ensures
        acyclic(n, edges),
{
    lemma_greedy_placement(n, edges, rank, n);
    let o = greedy_placement(n, edges, n);
    lemma_placement_is_topological(n, edges, o);
}

proof fn lemma_stable_orders_agree(
    n: nat,
    edges: Seq<(usize, usize)>,
    names: Seq<Seq<char>>,
    o1: Seq<usize>,
    o2: Seq<usize>,
    k: int,
)
    requires
        is_stable_order(n, edges, names, o1),
        is_stable_order(n, edges, names, o2),
        0 <= k <= n,
    ensures
        o1.take(k) == o2.take(k),
    decreases k,
{
    if k > 0 {
        let j = k - 1;
        lemma_stable_orders_agree(n, edges, names, o1, o2, j);
        assert(available(n, edges, o1.take(j), o1[j]));
        assert(available(n, edges, o2.take(j), o2[j]));
        if o1[j] != o2[j] {
            assert(name_index_lt(names, o1[j], o2[j]));
            assert(name_index_lt(names, o2[j], o1[j]));
            lemma_name_index_asym(names, o1[j], o2[j]);
        }
        assert(o1.take(k) =~= o1.take(j).push(o1[j]));
        assert(o2.take(k) =~= o2.take(j).push(o2[j]));
    }
}

/// Two orders that both take, at each step, the available node first by
/// name, then by index, are the same order: the sort is deterministic.
pub proof fn law_stable_order_unique(
    n: nat,
    edges: Seq<(usize, usize)>,
    names: Seq<Seq<char>>,
    o1: Seq<usize>,
    o2: Seq<usize>,
)
    requires
        is_stable_order(n, edges, names, o1),
        is_stable_order(n, edges, names, o2),
    ensures
        o1 == o2,
{
    lemma_stable_orders_agree(n, edges, names, o1, o2, n as int);
    assert(o1 =~= o1.take(n as int));
    assert(o2 =~= o2.take(n as int));
}

/// Without edges, the order is by name, then by index: nodes that no
/// dependency relates keep their alphabetical order.
pub proof fn law_stable_order_without_edges_is_by_name(n: nat, names: Seq<Seq<char>>, o: Seq<usize>)
    requires
        is_stable_order(n, Seq::<(usize, usize)>::empty(), names, o),
    ensures
        forall|a: int, b: int| 0 <= a < b < o.len() ==> name_index_lt(names, #[trigger] o[a], #[trigger] o[b]),
{
    let edges = Seq::<(usize, usize)>::empty();
    law_stable_order_is_topological(n, edges, names, o);
    assert forall|a: int, b: int| 0 <= a < b < o.len() implies name_index_lt(names, #[trigger] o[a], #[trigger] o[b]) by {
        assert(available(n, edges, o.take(a), o[a]));
        assert(!o.take(a).contains(o[b])) by {
            if o.take(a).contains(o[b]) {
                let i = choose|i: int| 0 <= i < o.take(a).len() && o.take(a)[i] == o[b];
                assert(o[i] == o[b]);
            }
        }
        assert(available(n, edges, o.take(a), o[b]));
    }
}

/// Whether `a` comes before `b` by name, then by index.
fn name_index_less(nm: &Vec<Vec<char>>, a: usize, b: usize) -> (r: bool)
    requires
        a < nm.len(),
        b < nm.len(),
    ensures
        r == (lex_lt(nm@[a as int]@, nm@[b as int]@) || (nm@[a as int]@ == nm@[b as int]@ && a < b)),
{
    let c = compare_chars(&nm[a], &nm[b]);
    c == -1 || (c == 0 && a < b)
}

/// Whether every predecessor of `x` is placed.
fn preds_placed(deps: &DiGraph<usize, ()>, placed: &Vec<bool>, x: usize) -> (r: bool)
    requires
        placed.len() == index_nodes(*deps).len(),
        forall|e: int| 0 <= e < index_edges(*deps).len() ==> (#[trigger] index_edges(*deps)[e]).0 < index_nodes(*deps).len()
            && index_edges(*deps)[e].1 < index_nodes(*deps).len(),
    ensures
        r == forall|e: int| 0 <= e < index_edges(*deps).len() && #[trigger] index_edges(*deps)[e].1 == x
            ==> placed@[index_edges(*deps)[e].0 as int],
{
    let ne = index_graph_edge_count(deps);
    let mut e: usize = 0;
    while e < ne
        invariant
            ne == index_edges(*deps).len(),
            placed.len() == index_nodes(*deps).len(),
            forall|f: int| 0 <= f < index_edges(*deps).len() ==> (#[trigger] index_edges(*deps)[f]).0 < index_nodes(*deps).len()
                && index_edges(*deps)[f].1 < index_nodes(*deps).len(),
            0 <= e <= ne,
            forall|f: int| 0 <= f < e && #[trigger] index_edges(*deps)[f].1 == x ==> placed@[index_edges(*deps)[f].0 as int],
        decreases ne - e,
    {
        let (a, b) = index_graph_edge(deps, e);
        if b == x && !placed[a] {
            return false;
        }
        e = e + 1;
    }
    true
}

/// Nodes of `deps` in the order of Kahn's algorithm that always takes the
/// available node first by name (a crate's name counting as empty), then by
/// index; empty when the graph has a cycle. Nodes are given by their weights.
pub fn stable_toposort(deps: &DiGraph<usize, ()>, children: &Vec<usize>, graph: &ArcGraph) -> (r: Vec<usize>)
    requires
        children.len() == index_nodes(*deps).len(),
        index_nodes(*deps).len() <= u32::MAX,
        forall|i: int| 0 <= i < index_nodes(*deps).len() ==> #[trigger] index_nodes(*deps)[i] < graph@.nodes.len(),
        forall|e: int| 0 <= e < index_edges(*deps).len() ==> (#[trigger] index_edges(*deps)[e]).0 < index_nodes(*deps).len()
            && index_edges(*deps)[e].1 < index_nodes(*deps).len(),
    ensures
        r.len() == 0 || r.len() == children.len(),
        r.len() > 0 ==> exists|o: Seq<usize>|
            is_stable_order(index_nodes(*deps).len(), index_edges(*deps), stable_names(graph@, index_nodes(*deps)), o)
                && #[trigger] weights_of(index_nodes(*deps), o) == r@,
        r.len() == 0 && children.len() > 0 ==> !acyclic(index_nodes(*deps).len(), index_edges(*deps)),
{
    let ghost weights = index_nodes(*deps);
    let ghost edges = index_edges(*deps);
    let ghost names = stable_names(graph@, weights);
    let n = index_graph_node_count(deps);
    if children.len() == 0 {
        return Vec::new();
    }
    let mut nm: Vec<Vec<char>> = Vec::new();
    let mut i: usize = 0;
    while i < n
        invariant
            n == weights.len() <= u32::MAX,
            weights == index_nodes(*deps),
            names == stable_names(graph@, weights),
            forall|j: int| 0 <= j < n ==> #[trigger] weights[j] < graph@.nodes.len(),
            0 <= i <= n,
            nm.len() == i,
            forall|j: int| 0 <= j < i ==> #[trigger] nm@[j]@ == names[j],
        decreases n - i,
    {
        let w = index_graph_weight(deps, i);
        let name = match graph.node(w) {
            crate::graph::Node::Module { name, .. } => str_chars(name.as_str()),
            crate::graph::Node::Crate { .. } => Vec::new(),
        };
        assert(name@ =~= names[i as int]);
        nm.push(name);
        i = i + 1;
    }
    assert(nm.deep_view() =~= names) by {
        assert(nm.len() == n);
        assert(names.len() == n);
        assert forall|j: int| 0 <= j < n implies nm.deep_view()[j] == names[j] by {
            assert(nm@[j]@ == names[j]);
        }
    }
    let order = kahn_order(deps, &nm);
    if order.len() < n {
        return Vec::new();
    }
    let mut r: Vec<usize> = Vec::new();
    let mut t: usize = 0;
    while t < n
        invariant
            n == weights.len() <= u32::MAX,
            weights == index_nodes(*deps),
            order.len() == n,
            forall|k: int| 0 <= k < n ==> #[trigger] order@[k] < n,
            0 <= t <= n,
            r@ == weights_of(weights, order@.take(t as int)),
        decreases n - t,
    {
        let w = index_graph_weight(deps, order[t]);
        assert(order@.take(t + 1) =~= order@.take(t as int).push(order@[t as int]));
        r.push(w);
        assert(r@ =~= weights_of(weights, order@.take(t + 1)));
        t = t + 1;
    }
    assert(order@.take(n as int) =~= order@);
    r
}

/// Kahn's algorithm on the index graph `deps`, always taking the available
/// node that is first by name `nm`, then by index; `None` when it gets
/// stuck, which happens exactly when the graph has a cycle.
pub(crate) fn kahn_order(deps: &DiGraph<usize, ()>, nm: &Vec<Vec<char>>) -> (r: Vec<usize>)
    requires
        nm.len() == index_nodes(*deps).len(),
        index_nodes(*deps).len() <= u32::MAX,
        forall|e: int| 0 <= e < index_edges(*deps).len() ==> (#[trigger] index_edges(*deps)[e]).0 < index_nodes(*deps).len()
            && index_edges(*deps)[e].1 < index_nodes(*deps).len(),
    ensures
        is_stable_prefix(index_nodes(*deps).len(), index_edges(*deps), nm.deep_view(), r@),
        forall|k: int| 0 <= k < r.len() ==> #[trigger] r@[k] < index_nodes(*deps).len(),
        r.len() < index_nodes(*deps).len() ==> forall|x: usize| !available(index_nodes(*deps).len(), index_edges(*deps), r@, x),
        r.len() < index_nodes(*deps).len() ==> !acyclic(index_nodes(*deps).len(), index_edges(*deps)),
{
    let ghost edges = index_edges(*deps);
    let ghost names = nm.deep_view();
    let n = index_graph_node_count(deps);
    assert forall|j: int| 0 <= j < n implies #[trigger] nm@[j]@ == names[j] by {}
    let mut placed: Vec<bool> = Vec::new();
    let mut k: usize = 0;
    while k < n
        invariant
            0 <= k <= n,
            placed.len() == k,
            forall|j: int| 0 <= j < k ==> !placed@[j],
        decreases n - k,
    {
        placed.push(false);
        k = k + 1;
    }
    let mut order: Vec<usize> = Vec::new();
    while order.len() < n
        invariant
            n == index_nodes(*deps).len() <= u32::MAX,
            edges == index_edges(*deps),
            names == nm.deep_view(),
            forall|e: int| 0 <= e < edges.len() ==> (#[trigger] edges[e]).0 < n && edges[e].1 < n,
            nm.len() == n,
            forall|j: int| 0 <= j < n ==> #[trigger] nm@[j]@ == names[j],
            placed.len() == n,
            order.len() <= n,
            forall|x: int| 0 <= x < n ==> (placed@[x] <==> order@.contains(x as usize)),
            forall|k: int| 0 <= k < order.len() ==> available(n as nat, edges, order@.take(k), #[trigger] order@[k]),
            forall|k: int, x: usize|
                0 <= k < order.len() && #[trigger] available(n as nat, edges, order@.take(k), x) && x != order@[k]
                    ==> name_index_lt(names, order@[k], x),
        decreases n - order.len(),
    {
        let mut best: Option<usize> = None;
        let mut x: usize = 0;
        while x < n
            invariant
                n == index_nodes(*deps).len() <= u32::MAX,
                edges == index_edges(*deps),
                names == nm.deep_view(),
                forall|e: int| 0 <= e < edges.len() ==> (#[trigger] edges[e]).0 < n && edges[e].1 < n,
                nm.len() == n,
                forall|j: int| 0 <= j < n ==> #[trigger] nm@[j]@ == names[j],
                placed.len() == n,
                forall|y: int| 0 <= y < n ==> (placed@[y] <==> order@.contains(y as usize)),
                0 <= x <= n,
                best matches Some(b) ==> b < x && available(n as nat, edges, order@, b),
                forall|y: usize| #![trigger available(n as nat, edges, order@, y)]
                    y < x && available(n as nat, edges, order@, y) ==> best is Some && (y == best->0
                    || name_index_lt(names, best->0, y)),
            decreases n - x,
        {
            if !placed[x] && preds_placed(deps, &placed, x) {
                proof {
                    assert forall|e: int| 0 <= e < edges.len() && #[trigger] edges[e].1 == x implies order@.contains(edges[e].0) by {
                        assert(placed@[edges[e].0 as int]);
                    }
                    assert(!order@.contains(x));
                    assert(available(n as nat, edges, order@, x));
                }
                match best {
                    None => {
                        best = Some(x);
                    },
                    Some(b) => {
                        proof {
                            assert(nm@[x as int]@ == names[x as int]);
                            assert(nm@[b as int]@ == names[b as int]);
                        }
                        if name_index_less(&nm, x, b) {
                            best = Some(x);
                            proof {
                                assert forall|y: usize| #![trigger available(n as nat, edges, order@, y)]
                                    y < x + 1 && available(n as nat, edges, order@, y) implies best is Some && (y == best->0
                                    || name_index_lt(names, best->0, y)) by {
                                    if y < x && y != b {
                                        lemma_name_index_transitive(names, x, b, y);
                                    }
                                }
                            }
                        } else {
                            proof {
                                lemma_name_index_total(names, x, b);
                                assert(name_index_lt(names, b, x));
                            }
                        }
                    },
                }
            } else {
                proof {
                    if !placed@[x as int] {
                        let e = choose|e: int| 0 <= e < edges.len() && #[trigger] edges[e].1 == x && !placed@[edges[e].0 as int];
                        assert(!order@.contains(edges[e].0));
                    }
                }
            }
            x = x + 1;
        }
        match best {
            None => {
                proof {
                    lemma_exists_unplaced(n as nat, edges, order@);
                    let u = choose|u: usize| u < n && !order@.contains(u);
                    assert forall|y: usize| !available(n as nat, edges, order@, y) by {}
                    lemma_stuck_cyclic(n as nat, edges, order@, u);
                    assert forall|k: int| 0 <= k < order.len() implies #[trigger] order@[k] < n by {
                        assert(available(n as nat, edges, order@.take(k), order@[k]));
                    }
                }
                return order;
            },
            Some(b) => {
                let ghost o0 = order@;
                placed.set(b, true);
                order.push(b);
                proof {
                    assert(order@.take(o0.len() as int) =~= o0);
                    assert forall|k: int| 0 <= k < order.len() implies available(n as nat, edges, order@.take(k), #[trigger] order@[k]) by {
                        if k < o0.len() {
                            assert(order@.take(k) =~= o0.take(k));
                        }
                    }
                    assert forall|k: int, y: usize|
                        0 <= k < order.len() && #[trigger] available(n as nat, edges, order@.take(k), y) && y != order@[k]
                        implies name_index_lt(names, order@[k], y) by {
                        if k < o0.len() {
                            assert(order@.take(k) =~= o0.take(k));
                        }
                    }
                    assert forall|y: int| 0 <= y < n implies (placed@[y] <==> order@.contains(y as usize)) by {
                        if y == b {
                            assert(order@[o0.len() as int] == b);
                        } else {
                            if order@.contains(y as usize) {
                                let t = choose|t: int| 0 <= t < order.len() && order@[t] == y as usize;
                                assert(t < o0.len());
                                assert(o0[t] == y as usize);
                            }
                            if o0.contains(y as usize) {
                                let t = choose|t: int| 0 <= t < o0.len() && o0[t] == y as usize;
                                assert(order@[t] == y as usize);
                            }
                        }
                    }
                }
            },
        }
    }
    proof {
        assert forall|k: int| 0 <= k < order.len() implies #[trigger] order@[k] < n by {
            assert(available(n as nat, edges, order@.take(k), order@[k]));
        }
    }
    order
}

} // verus!

verus! {

/// More flags set means a larger count.
proof fn lemma_count_true_mono(m1: Seq<bool>, m2: Seq<bool>, i: int)
    requires
        m1.len() == m2.len(),
        forall|j: int| 0 <= j < m1.len() && m1[j] ==> m2[j],
        0 <= i < m1.len(),
        !m1[i],
        m2[i],
    ensures
        count_true(m1) < count_true(m2),
    decreases m1.len(),
{
    if i == m1.len() - 1 {
        lemma_count_true_le(m1.drop_last(), m2.drop_last());
    } else {
        lemma_count_true_mono(m1.drop_last(), m2.drop_last(), i);
    }
}

proof fn lemma_count_true_le(m1: Seq<bool>, m2: Seq<bool>)
    requires
        m1.len() == m2.len(),
        forall|j: int| 0 <= j < m1.len() && m1[j] ==> m2[j],
    ensures
        count_true(m1) <= count_true(m2),
    decreases m1.len(),
{
    if m1.len() > 0 {
        lemma_count_true_le(m1.drop_last(), m2.drop_last());
    }
}

proof fn lemma_count_true_len(m: Seq<bool>)
    ensures
        count_true(m) <= m.len(),
    decreases m.len(),
{
    if m.len() > 0 {
        lemma_count_true_len(m.drop_last());
    }
}

/// The entries of `module_indices`, in order, that are not added yet and
/// that `parent` contains directly.
pub open spec fn direct_list(v: ArcGraphView, parent: usize, module_indices: Seq<usize>, added: Seq<bool>) -> Seq<usize> {
    module_indices.filter(|m: usize| !added[m as int] && contains_child_spec(v, parent, m))
}

/// The modules of `module_indices`, in order, that are not added yet and
/// that `parent` contains directly.
fn direct_children(parent: usize, graph: &ArcGraph, module_indices: &Vec<usize>, added: &Vec<bool>) -> (r: Vec<usize>)
    requires
        added.len() == graph@.nodes.len(),
        forall|i: int| 0 <= i < module_indices.len() ==> #[trigger] module_indices@[i] < graph@.nodes.len(),
    ensures
        r@ == direct_list(graph@, parent, module_indices@, added@),
        r.len() <= module_indices.len(),
        forall|k: int| 0 <= k < r.len() ==> module_indices@.contains(#[trigger] r@[k]) && !added@[r@[k] as int]
            && contains_child_spec(graph@, parent, r@[k]),
        forall|i: int| 0 <= i < module_indices.len() && !added@[module_indices@[i] as int] && contains_child_spec(graph@, parent, #[trigger] module_indices@[i])
            ==> r@.contains(module_indices@[i]),
{
    let mut r: Vec<usize> = Vec::new();
    let mut i: usize = 0;
    proof {
        reveal(Seq::filter);
        assert(direct_list(graph@, parent, module_indices@.take(0), added@) =~= Seq::<usize>::empty());
    }
    while i < module_indices.len()
        invariant
            added.len() == graph@.nodes.len(),
            forall|j: int| 0 <= j < module_indices.len() ==> #[trigger] module_indices@[j] < graph@.nodes.len(),
            0 <= i <= module_indices.len(),
            r.len() <= i,
            r@ == direct_list(graph@, parent, module_indices@.take(i as int), added@),
            forall|k: int| 0 <= k < r.len() ==> module_indices@.contains(#[trigger] r@[k]) && !added@[r@[k] as int]
                && contains_child_spec(graph@, parent, r@[k]),
            forall|j: int| 0 <= j < i && !added@[module_indices@[j] as int] && contains_child_spec(graph@, parent, #[trigger] module_indices@[j])
                ==> r@.contains(module_indices@[j]),
        decreases module_indices.len() - i,
    {
        let m = module_indices[i];
        let ghost r0 = r@;
        if !added[m] && graph.contains_child(parent, m) {
            r.push(m);
        }
        proof {
            reveal(Seq::filter);
            assert(module_indices@.take(i + 1).drop_last() =~= module_indices@.take(i as int));
            assert(module_indices@.take(i + 1).last() == m);
            assert(r@ =~= direct_list(graph@, parent, module_indices@.take(i + 1), added@));
            assert forall|j: int| 0 <= j < i + 1 && !added@[module_indices@[j] as int] && contains_child_spec(graph@, parent, #[trigger] module_indices@[j])
                implies r@.contains(module_indices@[j]) by {
                if j < i {
                    let k = choose|k: int| 0 <= k < r0.len() && r0[k] == module_indices@[j];
                    assert(r@[k] == module_indices@[j]);
                } else {
                    assert(r@[r.len() - 1] == m);
                }
            }
            assert forall|k: int| 0 <= k < r.len() implies module_indices@.contains(#[trigger] r@[k]) && !added@[r@[k] as int]
                && contains_child_spec(graph@, parent, r@[k]) by {
                if k < r0.len() {
                    assert(r@[k] == r0[k]);
                } else {
                    assert(module_indices@[i as int] == m);
                }
            }
        }
        i = i + 1;
    }
    assert(module_indices@.take(module_indices.len() as int) =~= module_indices@);
    r
}

/// `parent` has a containment edge to `child`.
pub open spec fn contains_child_spec(v: ArcGraphView, parent: usize, child: usize) -> bool {
    exists|e: int| 0 <= e < v.edges.len() && #[trigger] v.edges[e].0 == parent && v.edges[e].1 == child && v.edges[e].2 is Contains
}

/// The sort name of a node, as characters.
fn sort_name_chars(graph: &ArcGraph, i: usize) -> (r: Vec<char>)
    requires
        i < graph@.nodes.len(),
    ensures
        r@ == sort_name(graph@, i),
{
    match graph.node(i) {
        crate::graph::Node::Module { name, .. } => str_chars(name.as_str()),
        crate::graph::Node::Crate { .. } => Vec::new(),
    }
}

/// `r` with `x` placed after every entry whose name does not come after
/// `x`'s.
pub open spec fn insert_by_name(v: ArcGraphView, r: Seq<usize>, x: usize) -> Seq<usize>
    decreases r.len(),
{
    if r.len() == 0 {
        seq![x]
    } else if lex_lt(sort_name(v, x), sort_name(v, r.last())) {
        insert_by_name(v, r.drop_last(), x).push(r.last())
    } else {
        r.push(x)
    }
}

/// `s` sorted by name by insertion; entries with equal names keep their
/// order.
pub open spec fn name_sort(v: ArcGraphView, s: Seq<usize>) -> Seq<usize>
    decreases s.len(),
{
    if s.len() == 0 {
        Seq::empty()
    } else {
        insert_by_name(v, name_sort(v, s.drop_last()), s.last())
    }
}

proof fn lemma_insert_by_name(v: ArcGraphView, r: Seq<usize>, x: usize, p: int)
    requires
        0 <= p <= r.len(),
        forall|k: int| p <= k < r.len() ==> lex_lt(sort_name(v, x), sort_name(v, #[trigger] r[k])),
        p > 0 ==> !lex_lt(sort_name(v, x), sort_name(v, r[p - 1])),
    ensures
        insert_by_name(v, r, x) == r.insert(p, x),
    decreases r.len(),
{
    if r.len() == 0 {
        assert(r.insert(p, x) =~= seq![x]);
    } else if p == r.len() {
        assert(r.insert(p, x) =~= r.push(x));
    } else {
        let d = r.drop_last();
        assert forall|k: int| p <= k < d.len() implies lex_lt(sort_name(v, x), sort_name(v, #[trigger] d[k])) by {
            assert(d[k] == r[k]);
        }
        if p > 0 {
            assert(d[p - 1] == r[p - 1]);
        }
        lemma_insert_by_name(v, d, x, p);
        assert(lex_lt(sort_name(v, x), sort_name(v, r[r.len() - 1])));
        assert(d.insert(p, x).push(r.last()) =~= r.insert(p, x));
    }
}

/// `v` sorted by sort name; equal names keep their order (a stable sort).
fn sort_by_name(v: &Vec<usize>, graph: &ArcGraph) -> (r: Vec<usize>)
    requires
        forall|i: int| 0 <= i < v.len() ==> #[trigger] v@[i] < graph@.nodes.len(),
    ensures
        r@ == name_sort(graph@, v@),
        r@.to_multiset() == v@.to_multiset(),
        r.len() == v.len(),
        forall|a: int, b: int| 0 <= a < b < r.len() ==> !lex_lt(sort_name(graph@, #[trigger] r@[b]), sort_name(graph@, #[trigger] r@[a])),
{
    broadcast use vstd::seq_lib::group_to_multiset_ensures;
    let mut r: Vec<usize> = Vec::new();
    let mut i: usize = 0;
    while i < v.len()
        invariant
            forall|j: int| 0 <= j < v.len() ==> #[trigger] v@[j] < graph@.nodes.len(),
            0 <= i <= v.len(),
            r.len() == i,
            r@ == name_sort(graph@, v@.take(i as int)),
            r@.to_multiset() == v@.take(i as int).to_multiset(),
            forall|k: int| 0 <= k < r.len() ==> #[trigger] r@[k] < graph@.nodes.len(),
            forall|a: int, b: int| 0 <= a < b < r.len() ==> !lex_lt(sort_name(graph@, #[trigger] r@[b]), sort_name(graph@, #[trigger] r@[a])),
        decreases v.len() - i,
    {
        let x = v[i];
        let xn = sort_name_chars(graph, x);
        // insert after every element whose name does not come after x's
        let mut p: usize = r.len();
        while p > 0 && compare_chars(&xn, &sort_name_chars(graph, r[p - 1])) == -1
            invariant
                forall|k: int| 0 <= k < r.len() ==> #[trigger] r@[k] < graph@.nodes.len(),
                x < graph@.nodes.len(),
                xn@ == sort_name(graph@, x),
                0 <= p <= r.len(),
                forall|k: int| p <= k < r.len() ==> lex_lt(sort_name(graph@, x), sort_name(graph@, #[trigger] r@[k])),
            decreases p,
        {
            p = p - 1;
        }
        let ghost r0 = r@;
        proof {
            if p > 0 {
                lemma_lex_total(sort_name(graph@, x), sort_name(graph@, r0[p - 1]));
                assert(!lex_lt(sort_name(graph@, x), sort_name(graph@, r0[p - 1])));
                assert forall|k: int| 0 <= k < p implies !lex_lt(sort_name(graph@, x), sort_name(graph@, #[trigger] r0[k])) by {
                    if k < p - 1 {
                        lemma_lex_le_transitive(sort_name(graph@, r0[k]), sort_name(graph@, r0[p - 1]), sort_name(graph@, x));
                    }
                }
            }
        }
        r.insert(p, x);
        proof {
            assert(r@ =~= r0.insert(p as int, x));
            assert(v@.take(i + 1) =~= v@.take(i as int).push(x));
            assert(v@.take(i + 1).drop_last() =~= v@.take(i as int));
            lemma_insert_by_name(graph@, r0, x, p as int);
            vstd::seq_lib::to_multiset_insert(r0, p as int, x);
            v@.take(i as int).to_multiset_ensures();
            assert forall|a: int, b: int| 0 <= a < b < r.len() implies !lex_lt(sort_name(graph@, #[trigger] r@[b]), sort_name(graph@, #[trigger] r@[a])) by {
                if b < p {
                    assert(r@[a] == r0[a] && r@[b] == r0[b]);
                } else if b == p {
                    assert(r@[a] == r0[a]);
                } else if a < p {
                    assert(r@[a] == r0[a] && r@[b] == r0[b - 1]);
                } else if a == p {
                    assert(r@[b] == r0[b - 1]);
                    lemma_lex_asymmetric(sort_name(graph@, x), sort_name(graph@, r0[b - 1]));
                } else {
                    assert(r@[a] == r0[a - 1] && r@[b] == r0[b - 1]);
                }
            }
        }
        i = i + 1;
    }
    assert(v@.take(v.len() as int) =~= v@);
    r
}

/// `x` is `root` or lies below it along containment edges.
pub open spec fn descends(v: ArcGraphView, root: usize, x: usize) -> bool {
    forall|s: Set<usize>| set![root].subset_of(s) && #[trigger] crate::graph::closed_under(v, Follow::Containment, s) ==> s.contains(x)
}

proof fn lemma_closure_descends(v: ArcGraphView, root: usize, r: Set<usize>, x: usize)
    requires
        is_closure(v, Follow::Containment, set![root], r),
    ensures
        r.contains(x) <==> descends(v, root, x),
{
}

/// Whether `v` holds `x`.
fn vec_has(v: &Vec<usize>, x: usize) -> (r: bool)
    ensures
        r == v@.contains(x),
{
    let mut i: usize = 0;
    while i < v.len()
        invariant
            0 <= i <= v.len(),
            forall|j: int| 0 <= j < i ==> v@[j] != x,
        decreases v.len() - i,
    {
        if v[i] == x {
            return true;
        }
        i = i + 1;
    }
    false
}

/// `sj` is the first sibling, other than child `ci`, whose subtree holds `t`.
pub open spec fn first_sibling_holding(v: ArcGraphView, children: Seq<usize>, ci: int, t: usize, sj: int) -> bool {
    &&& 0 <= sj < children.len()
    &&& children[sj] != children[ci]
    &&& descends(v, children[sj], t)
    &&& forall|s: int| 0 <= s < sj && children[s] != children[ci] ==> !#[trigger] descends(v, children[s], t)
}

/// Edge `e` is a module dependency out of `x` whose target lies first in the
/// subtree of sibling `sj`.
pub open spec fn dep_hit(v: ArcGraphView, children: Seq<usize>, ci: int, x: usize, e: int, sj: int) -> bool {
    &&& 0 <= e < v.edges.len()
    &&& v.edges[e].0 == x
    &&& v.edges[e].2 is ModuleDep
    &&& first_sibling_holding(v, children, ci, v.edges[e].1, sj)
}

/// Sibling `ci` depends on sibling `sj`: a module dependency leads from the
/// subtree of child `ci` to a module whose first holding sibling is `sj`.
pub open spec fn sibling_link(v: ArcGraphView, children: Seq<usize>, ci: int, sj: int) -> bool {
    exists|e: int| #[trigger] dep_hit(v, children, ci, v.edges[e].0, e, sj) && descends(v, children[ci], v.edges[e].0)
}

/// The edges `ci -> sj` of row `ci`, for the siblings `sj < m` that child
/// `ci` depends on, in the order of `sj`.
pub open spec fn sibling_row(v: ArcGraphView, children: Seq<usize>, ci: int, m: nat) -> Seq<(usize, usize)>
    decreases m,
{
    if m == 0 {
        Seq::empty()
    } else {
        let p = sibling_row(v, children, ci, (m - 1) as nat);
        if sibling_link(v, children, ci, m - 1) {
            p.push((ci as usize, (m - 1) as usize))
        } else {
            p
        }
    }
}

/// The sibling dependency edges of the first `m` children, row by row.
pub open spec fn sibling_edges(v: ArcGraphView, children: Seq<usize>, m: nat) -> Seq<(usize, usize)>
    decreases m,
{
    if m == 0 {
        Seq::empty()
    } else {
        sibling_edges(v, children, (m - 1) as nat) + sibling_row(v, children, m - 1, children.len())
    }
}

proof fn lemma_sibling_edges_len(v: ArcGraphView, children: Seq<usize>, m: nat)
    ensures
        sibling_edges(v, children, m).len() <= m * children.len(),
    decreases m,
{
    if m > 0 {
        lemma_sibling_edges_len(v, children, (m - 1) as nat);
        lemma_sibling_row_len(v, children, m - 1, children.len());
        assert((m - 1) * children.len() + children.len() == m * children.len()) by (nonlinear_arith);
    }
}

proof fn lemma_sibling_row_len(v: ArcGraphView, children: Seq<usize>, ci: int, m: nat)
    ensures
        sibling_row(v, children, ci, m).len() <= m,
    decreases m,
{
    if m > 0 {
        lemma_sibling_row_len(v, children, ci, (m - 1) as nat);
    }
}

proof fn lemma_sibling_row_grow(v: ArcGraphView, children: Seq<usize>, ci: int, m: nat, m2: nat)
    requires
        m <= m2,
    ensures
        sibling_row(v, children, ci, m).len() <= sibling_row(v, children, ci, m2).len(),
    decreases m2 - m,
{
    if m < m2 {
        lemma_sibling_row_grow(v, children, ci, m, (m2 - 1) as nat);
    }
}

proof fn lemma_sibling_edges_grow(v: ArcGraphView, children: Seq<usize>, m: nat, m2: nat)
    requires
        m <= m2,
    ensures
        sibling_edges(v, children, m).len() <= sibling_edges(v, children, m2).len(),
    decreases m2 - m,
{
    if m < m2 {
        lemma_sibling_edges_grow(v, children, m, (m2 - 1) as nat);
    }
}

/// The dependency graph among siblings: node `k` is `children[k]`; an edge
/// `i -> j` when a module dependency leads from the subtree of child `i`
/// into that of child `j` (the first such sibling, other than child `i`).
fn sibling_graph(children: &Vec<usize>, graph: &ArcGraph) -> (g: DiGraph<usize, ()>)
    requires
        forall|k: int| 0 <= k < children.len() ==> #[trigger] children@[k] < graph@.nodes.len(),
        children.len() <= u32::MAX,
        sibling_edges(graph@, children@, children.len() as nat).len() <= u32::MAX,
    ensures
        index_nodes(g) == children@,
        index_edges(g) == sibling_edges(graph@, children@, children.len() as nat),
        forall|e: int| 0 <= e < index_edges(g).len() ==> (#[trigger] index_edges(g)[e]).0 < children.len()
            && index_edges(g)[e].1 < children.len() && children@[index_edges(g)[e].0 as int] != children@[index_edges(g)[e].1 as int]
            && sibling_link(graph@, children@, index_edges(g)[e].0 as int, index_edges(g)[e].1 as int),
{
    proof {
        use_type_invariant(graph);
    }
    let c = children.len();
    let ne = graph.edge_count();
    let mut subtrees: Vec<Vec<usize>> = Vec::new();
    let mut k: usize = 0;
    while k < c
        invariant
            c == children.len(),
            forall|j: int| 0 <= j < c ==> #[trigger] children@[j] < graph@.nodes.len(),
            0 <= k <= c,
            subtrees.len() == k,
            forall|j: int| 0 <= j < k ==> is_closure(graph@, Follow::Containment, set![children@[j]], (#[trigger] subtrees@[j])@.to_set()),
            forall|j: int, q: int| 0 <= j < k && 0 <= q < subtrees@[j].len() ==> #[trigger] subtrees@[j]@[q] < graph@.nodes.len(),
        decreases c - k,
    {
        subtrees.push(graph.containment_subtree(children[k]));
        k = k + 1;
    }
    let mut g = index_graph_new();
    let mut i: usize = 0;
    while i < c
        invariant
            c == children.len(),
            c <= u32::MAX,
            0 <= i <= c,
            index_nodes(g) == children@.take(i as int),
            index_edges(g).len() == 0,
        decreases c - i,
    {
        index_graph_add_node(&mut g, children[i]);
        assert(children@.take(i + 1) =~= children@.take(i as int).push(children@[i as int]));
        i = i + 1;
    }
    assert(children@.take(c as int) =~= children@);
    assert(index_edges(g) =~= sibling_edges(graph@, children@, 0));
    let mut ci: usize = 0;
    while ci < c
        invariant
            c == children.len(),
            c <= u32::MAX,
            sibling_edges(graph@, children@, c as nat).len() <= u32::MAX,
            ne == graph@.edges.len(),
            crate::graph::graph_wf(graph@),
            subtrees.len() == c,
            forall|j: int| 0 <= j < c ==> is_closure(graph@, Follow::Containment, set![children@[j]], (#[trigger] subtrees@[j])@.to_set()),
            forall|j: int, q: int| 0 <= j < c && 0 <= q < subtrees@[j].len() ==> #[trigger] subtrees@[j]@[q] < graph@.nodes.len(),
            0 <= ci <= c,
            index_nodes(g) == children@,
            index_edges(g) == sibling_edges(graph@, children@, ci as nat),
            forall|e: int| 0 <= e < index_edges(g).len() ==> (#[trigger] index_edges(g)[e]).0 < c
                && index_edges(g)[e].1 < c && children@[index_edges(g)[e].0 as int] != children@[index_edges(g)[e].1 as int]
                && sibling_link(graph@, children@, index_edges(g)[e].0 as int, index_edges(g)[e].1 as int),
        decreases c - ci,
    {
        // which siblings the subtree of child `ci` depends on
        let mut depends: Vec<bool> = Vec::new();
        let mut j: usize = 0;
        while j < c
            invariant
                0 <= j <= c,
                depends.len() == j,
                forall|q: int| 0 <= q < j ==> !depends@[q],
            decreases c - j,
        {
            depends.push(false);
            j = j + 1;
        }
        let sub = &subtrees[ci];
        let mut q: usize = 0;
        while q < sub.len()
            invariant
                c == children.len(),
                ci < c,
                ne == graph@.edges.len(),
                subtrees.len() == c,
                *sub == subtrees@[ci as int],
                forall|j: int| 0 <= j < c ==> is_closure(graph@, Follow::Containment, set![children@[j]], (#[trigger] subtrees@[j])@.to_set()),
                depends.len() == c,
                forall|sj: int| 0 <= sj < c && #[trigger] depends@[sj] ==> sibling_link(graph@, children@, ci as int, sj),
                forall|q2: int, e2: int, sj: int| 0 <= q2 < q && 0 <= sj < c
                    && #[trigger] dep_hit(graph@, children@, ci as int, sub@[q2], e2, sj) ==> depends@[sj],
                0 <= q <= sub.len(),
            decreases sub.len() - q,
        {
            let x = sub[q];
            proof {
                assert(sub@.to_set().contains(x));
                lemma_closure_descends(graph@, children@[ci as int], sub@.to_set(), x);
            }
            let mut e: usize = 0;
            while e < ne
                invariant
                    c == children.len(),
                    ci < c,
                    ne == graph@.edges.len(),
                    subtrees.len() == c,
                    *sub == subtrees@[ci as int],
                    q < sub.len(),
                    x == sub@[q as int],
                    forall|j: int| 0 <= j < c ==> is_closure(graph@, Follow::Containment, set![children@[j]], (#[trigger] subtrees@[j])@.to_set()),
                    descends(graph@, children@[ci as int], x),
                    depends.len() == c,
                    forall|sj: int| 0 <= sj < c && #[trigger] depends@[sj] ==> sibling_link(graph@, children@, ci as int, sj),
                    forall|q2: int, e2: int, sj: int| 0 <= q2 < q && 0 <= sj < c
                        && #[trigger] dep_hit(graph@, children@, ci as int, sub@[q2], e2, sj) ==> depends@[sj],
                    forall|e2: int, sj: int| 0 <= e2 < e && 0 <= sj < c
                        && #[trigger] dep_hit(graph@, children@, ci as int, x, e2, sj) ==> depends@[sj],
                    0 <= e <= ne,
                decreases ne - e,
            {
                let (a, t, w) = graph.edge(e);
                let is_dep = match w {
                    crate::graph::Edge::ModuleDep { .. } => true,
                    _ => false,
                };
                if a == x && is_dep {
                    let ghost d0 = depends@;
                    let mut sj: usize = 0;
                    let mut found = false;
                    while sj < c && !found
                        invariant
                            c == children.len(),
                            ci < c,
                            subtrees.len() == c,
                            forall|j: int| 0 <= j < c ==> is_closure(graph@, Follow::Containment, set![children@[j]], (#[trigger] subtrees@[j])@.to_set()),
                            descends(graph@, children@[ci as int], x),
                            e < graph@.edges.len(),
                            graph@.edges[e as int].0 == x,
                            graph@.edges[e as int].1 == t,
                            graph@.edges[e as int].2 is ModuleDep,
                            depends.len() == c,
                            d0.len() == c,
                            forall|s: int| 0 <= s < c && #[trigger] depends@[s] ==> sibling_link(graph@, children@, ci as int, s),
                            forall|s: int| 0 <= s < c && #[trigger] d0[s] ==> depends@[s],
                            forall|s: int| 0 <= s < sj && children@[s] != children@[ci as int] ==> !#[trigger] descends(graph@, children@[s], t),
                            found ==> sj < c && depends@[sj as int] && first_sibling_holding(graph@, children@, ci as int, t, sj as int),
                            0 <= sj <= c,
                        decreases c - sj, if found { 0int } else { 1int },
                    {
                        proof {
                            lemma_closure_descends(graph@, children@[sj as int], subtrees@[sj as int]@.to_set(), t);
                        }
                        if children[sj] != children[ci] && vec_has(&subtrees[sj], t) {
                            proof {
                                assert(subtrees@[sj as int]@.to_set().contains(t));
                                assert(dep_hit(graph@, children@, ci as int, graph@.edges[e as int].0, e as int, sj as int));
                                assert(sibling_link(graph@, children@, ci as int, sj as int));
                            }
                            depends.set(sj, true);
                            found = true;
                        } else {
                            proof {
                                if children@[sj as int] != children@[ci as int] {
                                    assert(!subtrees@[sj as int]@.to_set().contains(t));
                                }
                            }
                            sj = sj + 1;
                        }
                    }
                    proof {
                        assert forall|s: int| 0 <= s < c && #[trigger] dep_hit(graph@, children@, ci as int, x, e as int, s)
                            implies depends@[s] by {
                            if found {
                                if s < sj {
                                } else if s > sj {
                                    assert(children@[sj as int] != children@[ci as int]);
                                    assert(descends(graph@, children@[sj as int], t));
                                }
                            } else {
                                assert(sj == c);
                            }
                        }
                    }
                }
                e = e + 1;
            }
            q = q + 1;
        }
        proof {
            assert forall|s: int| 0 <= s < c && sibling_link(graph@, children@, ci as int, s) implies #[trigger] depends@[s] by {
                let e2 = choose|e2: int| #[trigger] dep_hit(graph@, children@, ci as int, graph@.edges[e2].0, e2, s)
                    && descends(graph@, children@[ci as int], graph@.edges[e2].0);
                let y = graph@.edges[e2].0;
                lemma_closure_descends(graph@, children@[ci as int], sub@.to_set(), y);
                assert(sub@.to_set().contains(y));
                let q2 = choose|q2: int| 0 <= q2 < sub.len() && sub@[q2] == y;
                assert(dep_hit(graph@, children@, ci as int, sub@[q2], e2, s));
            }
        }
        proof {
            lemma_sibling_edges_grow(graph@, children@, (ci + 1) as nat, c as nat);
        }
        let mut sj: usize = 0;
        while sj < c
            invariant
                c == children.len(),
                c <= u32::MAX,
                ci < c,
                sibling_edges(graph@, children@, ci as nat).len() + sibling_row(graph@, children@, ci as int, c as nat).len() <= u32::MAX,
                index_nodes(g) == children@,
                depends.len() == c,
                forall|s: int| 0 <= s < c ==> (#[trigger] depends@[s] <==> sibling_link(graph@, children@, ci as int, s)),
                0 <= sj <= c,
                index_edges(g) == sibling_edges(graph@, children@, ci as nat) + sibling_row(graph@, children@, ci as int, sj as nat),
                forall|e: int| 0 <= e < index_edges(g).len() ==> (#[trigger] index_edges(g)[e]).0 < c
                    && index_edges(g)[e].1 < c && children@[index_edges(g)[e].0 as int] != children@[index_edges(g)[e].1 as int]
                    && sibling_link(graph@, children@, index_edges(g)[e].0 as int, index_edges(g)[e].1 as int),
            decreases c - sj,
        {
            let ghost old_edges = index_edges(g);
            if depends[sj] {
                proof {
                    lemma_sibling_row_grow(graph@, children@, ci as int, (sj + 1) as nat, c as nat);
                }
                index_graph_add_edge(&mut g, ci, sj);
                proof {
                    let e3 = choose|e3: int| #[trigger] dep_hit(graph@, children@, ci as int, graph@.edges[e3].0, e3, sj as int)
                        && descends(graph@, children@[ci as int], graph@.edges[e3].0);
                    assert(first_sibling_holding(graph@, children@, ci as int, graph@.edges[e3].1, sj as int));
                    assert forall|e: int| 0 <= e < index_edges(g).len() implies (#[trigger] index_edges(g)[e]).0 < c
                        && index_edges(g)[e].1 < c && children@[index_edges(g)[e].0 as int] != children@[index_edges(g)[e].1 as int]
                        && sibling_link(graph@, children@, index_edges(g)[e].0 as int, index_edges(g)[e].1 as int) by {
                        if e < old_edges.len() {
                            assert(index_edges(g)[e] == old_edges[e]);
                        }
                    }
                }
            }
            proof {
                assert(sibling_row(graph@, children@, ci as int, (sj + 1) as nat) == if sibling_link(graph@, children@, ci as int, sj as int) {
                    sibling_row(graph@, children@, ci as int, sj as nat).push((ci, sj))
                } else {
                    sibling_row(graph@, children@, ci as int, sj as nat)
                });
                assert(index_edges(g) =~= sibling_edges(graph@, children@, ci as nat) + sibling_row(graph@, children@, ci as int, (sj + 1) as nat));
            }
            sj = sj + 1;
        }
        proof {
            assert(sibling_edges(graph@, children@, (ci + 1) as nat) == sibling_edges(graph@, children@, ci as nat)
                + sibling_row(graph@, children@, ci as int, c as nat));
        }
        ci = ci + 1;
    }
    g
}

proof fn lemma_child_descends(v: ArcGraphView, parent: usize, child: usize)
    requires
        contains_child_spec(v, parent, child),
    ensures
        descends(v, parent, child),
{
    let e = choose|e: int| 0 <= e < v.edges.len() && #[trigger] v.edges[e].0 == parent && v.edges[e].1 == child && v.edges[e].2 is Contains;
    assert forall|s: Set<usize>| set![parent].subset_of(s) && #[trigger] crate::graph::closed_under(v, Follow::Containment, s) implies s.contains(child) by {
        assert(s.contains(parent));
        assert(crate::graph::follows(Follow::Containment, v, e));
    }
}

proof fn lemma_descends_transitive(v: ArcGraphView, a: usize, b: usize, c: usize)
    requires
        descends(v, a, b),
        descends(v, b, c),
    ensures
        descends(v, a, c),
{
    assert forall|s: Set<usize>| set![a].subset_of(s) && #[trigger] crate::graph::closed_under(v, Follow::Containment, s) implies s.contains(c) by {
        assert(s.contains(b));
        assert(set![b].subset_of(s));
    }
}

/// `items` in the stable topological order of `g` (whose node `k` is
/// `items[k]`) when `g` has no cycle; otherwise `fallback`, which holds the
/// same nodes.
fn toposort_or_keep(g: &DiGraph<usize, ()>, items: &Vec<usize>, fallback: Vec<usize>, graph: &ArcGraph) -> (r: Vec<usize>)
    requires
        index_nodes(*g) == items@,
        forall|k: int| 0 <= k < fallback.len() ==> items@.contains(#[trigger] fallback@[k]),
        forall|k: int| 0 <= k < items.len() ==> fallback@.contains(#[trigger] items@[k]),
        items.len() <= u32::MAX,
        forall|k: int| 0 <= k < items.len() ==> #[trigger] items@[k] < graph@.nodes.len(),
        forall|e: int| 0 <= e < index_edges(*g).len() ==> (#[trigger] index_edges(*g)[e]).0 < items.len()
            && index_edges(*g)[e].1 < items.len(),
    ensures
        forall|k: int| 0 <= k < r.len() ==> items@.contains(#[trigger] r@[k]),
        forall|k: int| 0 <= k < items.len() ==> r@.contains(#[trigger] items@[k]),
        items.len() > 0 && acyclic(items.len() as nat, index_edges(*g)) ==> exists|o: Seq<usize>|
            is_stable_order(items.len() as nat, index_edges(*g), stable_names(graph@, items@), o)
                && #[trigger] weights_of(items@, o) == r@,
        !(items.len() > 0 && acyclic(items.len() as nat, index_edges(*g))) ==> r@ == fallback@,
{
    let sorted = stable_toposort(g, items, graph);
    if sorted.len() == 0 {
        return fallback;
    }
    proof {
        let n = items.len() as nat;
        let o = choose|o: Seq<usize>|
            is_stable_order(n, index_edges(*g), stable_names(graph@, index_nodes(*g)), o)
                && #[trigger] weights_of(index_nodes(*g), o) == sorted@;
        law_stable_order_is_topological(n, index_edges(*g), stable_names(graph@, index_nodes(*g)), o);
        assert(acyclic(n, index_edges(*g)));
        assert forall|k: int| 0 <= k < sorted.len() implies items@.contains(#[trigger] sorted@[k]) by {
            assert(available(n, index_edges(*g), o.take(k), o[k]));
            assert(sorted@[k] == items@[o[k] as int]);
        }
        assert forall|a: int, b: int| 0 <= a < b < o.len() implies o[a] != o[b] by {
            assert(available(n, index_edges(*g), o.take(b), o[b]));
            assert(o.take(b)[a] == o[a]);
        }
        assert forall|k: int| 0 <= k < o.len() implies #[trigger] o[k] < n by {
            assert(available(n, index_edges(*g), o.take(k), o[k]));
        }
        assert forall|k: int| 0 <= k < items.len() implies sorted@.contains(#[trigger] items@[k]) by {
            lemma_cover(n, o, k as usize);
            let t = choose|t: int| 0 <= t < o.len() && o[t] == k as usize;
            assert(sorted@[t] == items@[k]);
        }
    }
    sorted
}

/// The children in the stable order of their subtree dependencies when
/// those have no cycle; otherwise as given.
fn order_siblings(children: Vec<usize>, graph: &ArcGraph) -> (r: Vec<usize>)
    requires
        forall|k: int| 0 <= k < children.len() ==> #[trigger] children@[k] < graph@.nodes.len(),
        children.len() <= u32::MAX,
        sibling_edges(graph@, children@, children.len() as nat).len() <= u32::MAX,
    ensures
        forall|k: int| 0 <= k < r.len() ==> children@.contains(#[trigger] r@[k]),
        forall|k: int| 0 <= k < children.len() ==> r@.contains(#[trigger] children@[k]),
        children.len() > 0 && acyclic(children.len() as nat, sibling_edges(graph@, children@, children.len() as nat))
            ==> exists|o: Seq<usize>|
            is_stable_order(
                children.len() as nat,
                sibling_edges(graph@, children@, children.len() as nat),
                stable_names(graph@, children@),
                o,
            ) && #[trigger] weights_of(children@, o) == r@,
        !(children.len() > 0 && acyclic(children.len() as nat, sibling_edges(graph@, children@, children.len() as nat)))
            ==> r@ == children@,
{
    let sib = sibling_graph(&children, graph);
    let keep = children.clone();
    proof {
        assert(keep@ == children@);
        assert forall|k: int| 0 <= k < keep.len() implies children@.contains(#[trigger] keep@[k]) by {}
        assert forall|k: int| 0 <= k < children.len() implies keep@.contains(#[trigger] children@[k]) by {}
    }
    toposort_or_keep(&sib, &children, keep, graph)
}

/// Every list of at most `pool.len()` entries of `pool` that one node
/// contains (without repeats, where `pool` has none) is short enough, and has
/// few enough sibling dependencies, to fit the indices of a petgraph graph.
pub open spec fn sibling_graphs_fit(v: ArcGraphView, pool: Seq<usize>) -> bool {
    forall|children: Seq<usize>|
        children.len() <= pool.len() && (pool.no_duplicates() ==> children.no_duplicates()) && (exists|parent: usize|
            #[trigger] children_in(v, parent, pool, children)) ==> #[trigger] sibling_graph_fits(v, children)
}

/// The sibling graph of `children` fits the indices of a petgraph graph.
pub open spec fn sibling_graph_fits(v: ArcGraphView, children: Seq<usize>) -> bool {
    children.len() <= u32::MAX && sibling_edges(v, children, children.len() as nat).len() <= u32::MAX
}

/// Every entry of `children` is an entry of `pool` that `parent` contains.
pub open spec fn children_in(v: ArcGraphView, parent: usize, pool: Seq<usize>, children: Seq<usize>) -> bool {
    forall|k: int| 0 <= k < children.len() ==> pool.contains(#[trigger] children[k]) && contains_child_spec(v, parent, children[k])
}

/// `c1` holds the entries of `c0`, ordered by name.
pub open spec fn name_sorted_perm(v: ArcGraphView, c0: Seq<usize>, c1: Seq<usize>) -> bool {
    &&& c1.to_multiset() == c0.to_multiset()
    &&& forall|a: int, b: int| 0 <= a < b < c1.len() ==> !lex_lt(sort_name(v, #[trigger] c1[b]), sort_name(v, #[trigger] c1[a]))
}

/// `cs` is `c1` in the stable order of the dependencies among the subtrees
/// of its entries when those have no cycle, otherwise `c1` itself.
pub open spec fn sibling_order_of(v: ArcGraphView, c1: Seq<usize>, cs: Seq<usize>) -> bool {
    &&& c1.len() > 0 && acyclic(c1.len(), sibling_edges(v, c1, c1.len())) ==> exists|o: Seq<usize>|
        is_stable_order(c1.len(), sibling_edges(v, c1, c1.len()), stable_names(v, c1), o) && #[trigger] weights_of(c1, o) == cs
    &&& !(c1.len() > 0 && acyclic(c1.len(), sibling_edges(v, c1, c1.len()))) ==> cs == c1
}

/// `cs` orders the siblings `c0`: by name, then by the dependencies among
/// their subtrees.
pub open spec fn siblings_ordered(v: ArcGraphView, c0: Seq<usize>, cs: Seq<usize>) -> bool {
    exists|c1: Seq<usize>| #[trigger] name_sorted_perm(v, c0, c1) && sibling_order_of(v, c1, cs)
}

/// Block `i` starts with `cs[i]`, and the rest of it lies below `cs[i]`.
pub open spec fn block_of(v: ArcGraphView, c: usize, b: Seq<usize>) -> bool {
    &&& b.len() >= 1
    &&& b[0] == c
    &&& forall|j: int| 1 <= j < b.len() ==> #[trigger] descends(v, c, b[j])
}

/// `r` is one block per entry of `cs`, in order: the entry, then nodes
/// below it.
pub open spec fn blocks_of(v: ArcGraphView, cs: Seq<usize>, r: Seq<usize>) -> bool {
    exists|blocks: Seq<Seq<usize>>|
        #[trigger] blocks.flatten() == r && blocks.len() == cs.len() && forall|i: int|
            0 <= i < blocks.len() ==> #[trigger] block_of(v, cs[i], blocks[i])
}

/// `r` lists the children of `parent` among the entries of
/// `module_indices` not marked in `added`, ordered by name and then by the
/// dependencies among their subtrees, each followed by nodes below it.
#[verifier::opaque]
pub open spec fn children_listing(v: ArcGraphView, parent: usize, module_indices: Seq<usize>, added: Seq<bool>, r: Seq<usize>) -> bool {
    exists|cs: Seq<usize>| siblings_ordered(v, direct_list(v, parent, module_indices, added), cs) && #[trigger] blocks_of(v, cs, r)
}

/// Entry `k` of `r` is contained by `parent` or by an earlier entry.
pub open spec fn container_listed_before(v: ArcGraphView, parent: usize, r: Seq<usize>, k: int) -> bool {
    contains_child_spec(v, parent, r[k]) || exists|j: int| 0 <= j < k && #[trigger] contains_child_spec(v, r[j], r[k])
}

/// The siblings `c1` in the stable order of the dependencies among their
/// subtrees when those have no cycle; `c1` itself otherwise.
pub open spec fn sibling_sequence(v: ArcGraphView, c1: Seq<usize>) -> Seq<usize> {
    if c1.len() > 0 && acyclic(c1.len(), sibling_edges(v, c1, c1.len())) {
        weights_of(
            c1,
            choose|o: Seq<usize>| is_stable_order(c1.len(), sibling_edges(v, c1, c1.len()), stable_names(v, c1), o),
        )
    } else {
        c1
    }
}

/// The children of `parent` among the entries of `mi` not marked in
/// `added`, ordered by name and then by the dependencies among their
/// subtrees.
pub open spec fn ordered_children(v: ArcGraphView, mi: Seq<usize>, parent: usize, added: Seq<bool>) -> Seq<usize> {
    sibling_sequence(v, name_sort(v, direct_list(v, parent, mi, added)))
}

/// The modules listed below `parent` (and the marks afterwards): each of its
/// ordered children in turn, marked, then the modules listed below it.
/// `fuel` bounds the depth.
pub open spec fn child_listing(v: ArcGraphView, mi: Seq<usize>, parent: usize, added: Seq<bool>, fuel: nat) -> (
    Seq<usize>,
    Seq<bool>,
)
    decreases fuel, 0nat, 0nat,
{
    if fuel == 0 {
        (Seq::empty(), added)
    } else {
        let cs = ordered_children(v, mi, parent, added);
        siblings_listing(v, mi, cs, cs.len(), added, (fuel - 1) as nat)
    }
}

/// The first `k` siblings of `cs`, each marked and followed by the modules
/// listed below it.
pub open spec fn siblings_listing(v: ArcGraphView, mi: Seq<usize>, cs: Seq<usize>, k: nat, added: Seq<bool>, fuel: nat) -> (
    Seq<usize>,
    Seq<bool>,
)
    decreases fuel, 1nat, k,
{
    if k == 0 {
        (Seq::empty(), added)
    } else {
        let pre = siblings_listing(v, mi, cs, (k - 1) as nat, added, fuel);
        let c = cs[k - 1];
        let sub = child_listing(v, mi, c, pre.1.update(c as int, true), fuel);
        (pre.0 + seq![c] + sub.0, sub.1)
    }
}

/// Modules below `parent`, hierarchically: its children among
/// `module_indices` that are not added yet, ordered by name and then by the
/// dependencies among their subtrees, each followed by its own modules.
/// Every listed module is marked added.
fn collect_children_recursive(
    parent_idx: usize,
    graph: &ArcGraph,
    module_indices: &Vec<usize>,
    added: &mut Vec<bool>,
    Ghost(fuel): Ghost<nat>,
) -> (r: Vec<usize>)
    requires
        parent_idx < graph@.nodes.len(),
        old(added).len() == graph@.nodes.len(),
        fuel > old(added).len() - count_true(old(added)@),
        forall|i: int| 0 <= i < module_indices.len() ==> #[trigger] module_indices@[i] < graph@.nodes.len(),
        sibling_graphs_fit(graph@, module_indices@),
    ensures
        final(added).len() == graph@.nodes.len(),
        forall|v: int| 0 <= v < graph@.nodes.len() ==> (#[trigger] final(added)@[v] <==> (old(added)@[v] || r@.contains(v as usize))),
        forall|k: int| 0 <= k < r.len() ==> module_indices@.contains(#[trigger] r@[k]) && !old(added)@[r@[k] as int]
            && descends(graph@, parent_idx, r@[k]),
        forall|i: int| 0 <= i < module_indices.len() && !old(added)@[module_indices@[i] as int] && contains_child_spec(graph@, parent_idx, #[trigger] module_indices@[i])
            ==> r@.contains(module_indices@[i]),
        forall|k: int| 0 <= k < r.len() ==> #[trigger] container_listed_before(graph@, parent_idx, r@, k),
        children_listing(graph@, parent_idx, module_indices@, old(added)@, r@),
        module_indices@.no_duplicates() && containment_forest(graph@) && parents_end(graph@) ==> r@.no_duplicates(),
        r@ == child_listing(graph@, module_indices@, parent_idx, old(added)@, fuel).0,
        final(added)@ == child_listing(graph@, module_indices@, parent_idx, old(added)@, fuel).1,
    decreases old(added)@.len() - count_true(old(added)@),
{
    let ghost added0 = added@;
    let children0 = direct_children(parent_idx, graph, module_indices, added);
    let children1 = sort_by_name(&children0, graph);
    proof {
        broadcast use vstd::seq_lib::group_to_multiset_ensures;
        assert forall|k: int| 0 <= k < children1.len() implies children0@.contains(#[trigger] children1@[k]) by {
            assert(children1@.to_multiset().count(children1@[k]) > 0);
        }
        assert forall|k: int| 0 <= k < children0.len() implies children1@.contains(#[trigger] children0@[k]) by {
            assert(children0@.to_multiset().count(children0@[k]) > 0);
        }
        assert forall|k: int| 0 <= k < children1.len() implies #[trigger] children1@[k] < graph@.nodes.len() by {
            assert(children0@.contains(children1@[k]));
        }
        assert forall|k: int| 0 <= k < children1.len() implies module_indices@.contains(children1@[k])
            && #[trigger] contains_child_spec(graph@, parent_idx, children1@[k]) by {
            assert(children0@.contains(children1@[k]));
            let t = choose|t: int| 0 <= t < children0.len() && children0@[t] == children1@[k];
        }
        assert(children_in(graph@, parent_idx, module_indices@, children1@));
        if module_indices@.no_duplicates() {
            lemma_filter_no_dup(module_indices@, |m: usize| !added0[m as int] && contains_child_spec(graph@, parent_idx, m));
            lemma_perm_no_dup(children0@, children1@);
        }
        assert(sibling_graph_fits(graph@, children1@));
        assert(name_sorted_perm(graph@, children0@, children1@));
    }
    let ghost c1 = children1@;
    let children = order_siblings(children1, graph);
    let ghost nd = module_indices@.no_duplicates() && containment_forest(graph@) && parents_end(graph@);
    proof {
        assert(sibling_order_of(graph@, c1, children@));
        assert(siblings_ordered(graph@, direct_list(graph@, parent_idx, module_indices@, added0), children@));
        if nd {
            lemma_filter_no_dup(module_indices@, |m: usize| !added0[m as int] && contains_child_spec(graph@, parent_idx, m));
            lemma_perm_no_dup(children0@, c1);
            lemma_sibling_order_no_dup(graph@, c1, children@);
        }
        lemma_sibling_sequence(graph@, c1, children@);
        assert(children@ == ordered_children(graph@, module_indices@, parent_idx, added0));
    }
    let mut result: Vec<usize> = Vec::new();
    let ghost mut blocks: Seq<Seq<usize>> = Seq::empty();
    assert(blocks.flatten() =~= result@);
    let mut i: usize = 0;
    while i < children.len()
        invariant
            blocks.len() == i,
            blocks.flatten() == result@,
            fuel > added0.len() - count_true(added0),
            children@ == ordered_children(graph@, module_indices@, parent_idx, added0),
            result@ == siblings_listing(graph@, module_indices@, children@, i as nat, added0, (fuel - 1) as nat).0,
            added@ == siblings_listing(graph@, module_indices@, children@, i as nat, added0, (fuel - 1) as nat).1,
            nd == (module_indices@.no_duplicates() && containment_forest(graph@) && parents_end(graph@)),
            nd ==> children@.no_duplicates() && result@.no_duplicates(),
            forall|j: int| 0 <= j < blocks.len() ==> #[trigger] block_of(graph@, children@[j], blocks[j]),
            parent_idx < graph@.nodes.len(),
            added0 == old(added)@,
            added0.len() == graph@.nodes.len(),
            forall|j: int| 0 <= j < module_indices.len() ==> #[trigger] module_indices@[j] < graph@.nodes.len(),
            sibling_graphs_fit(graph@, module_indices@),
            forall|k: int| 0 <= k < children.len() ==> children0@.contains(#[trigger] children@[k]),
            forall|k: int| 0 <= k < children0.len() ==> module_indices@.contains(#[trigger] children0@[k]) && !added0[children0@[k] as int]
                && contains_child_spec(graph@, parent_idx, children0@[k]),
            forall|j: int| 0 <= j < module_indices.len() && !added0[module_indices@[j] as int] && contains_child_spec(graph@, parent_idx, #[trigger] module_indices@[j])
                ==> children0@.contains(module_indices@[j]),
            forall|k: int| 0 <= k < children0.len() ==> children@.contains(#[trigger] children0@[k]),
            0 <= i <= children.len(),
            added.len() == graph@.nodes.len(),
            forall|v: int| 0 <= v < graph@.nodes.len() ==> (#[trigger] added@[v] <==> (added0[v] || result@.contains(v as usize))),
            forall|k: int| 0 <= k < result.len() ==> module_indices@.contains(#[trigger] result@[k]) && !added0[result@[k] as int]
                && descends(graph@, parent_idx, result@[k]),
            forall|k: int| 0 <= k < i ==> result@.contains(#[trigger] children@[k]),
            forall|k: int| 0 <= k < result.len() ==> #[trigger] container_listed_before(graph@, parent_idx, result@, k),
        decreases children.len() - i,
    {
        let child = children[i];
        proof {
            assert(children0@.contains(child));
            let t = choose|t: int| 0 <= t < children0.len() && children0@[t] == child;
            assert(module_indices@.contains(child));
            let w = choose|w: int| 0 <= w < module_indices.len() && module_indices@[w] == child;
            assert(child < graph@.nodes.len());
            lemma_child_descends(graph@, parent_idx, child);
            if nd {
                assert(!result@.contains(child)) by {
                    if result@.contains(child) {
                        lemma_flatten_contains(blocks, child);
                        let (j, q) = choose|j: int, q: int| 0 <= j < blocks.len() && 0 <= q < blocks[j].len() && #[trigger] blocks[j][q] == child;
                        assert(block_of(graph@, children@[j], blocks[j]));
                        if q == 0 {
                            assert(children@[j] == children@[i as int]);
                        } else {
                            assert(descends(graph@, children@[j], blocks[j][q]));
                            let cj = children@[j];
                            assert(children0@.contains(cj));
                            let tj = choose|tj: int| 0 <= tj < children0.len() && children0@[tj] == cj;
                            let wj = choose|wj: int| 0 <= wj < module_indices.len() && module_indices@[wj] == cj;
                            lemma_sibling_not_below(graph@, parent_idx, cj, child);
                        }
                    }
                }
            }
        }
        let ghost before = added@;
        added.set(child, true);
        let ghost r0 = result@;
        result.push(child);
        proof {
            assert forall|j: int| 0 <= j < added0.len() && added0[j] implies added@[j] by {}
            lemma_count_true_mono(added0, added@, child as int);
            lemma_count_true_len(added@);
            assert forall|v: int| 0 <= v < graph@.nodes.len() implies (#[trigger] added@[v] <==> (added0[v] || result@.contains(v as usize))) by {
                if result@.contains(v as usize) && v as usize != child {
                    let k = choose|k: int| 0 <= k < result.len() && result@[k] == v as usize;
                    assert(k < r0.len());
                    assert(r0[k] == v as usize);
                }
                if r0.contains(v as usize) {
                    let k = choose|k: int| 0 <= k < r0.len() && r0[k] == v as usize;
                    assert(result@[k] == v as usize);
                }
                if v as usize == child {
                    assert(result@[r0.len() as int] == child);
                }
            }
        }
        let ghost added_mid = added@;
        assert(added@.len() - count_true(added@) < added0.len() - count_true(added0));
        assert(added0 == old(added)@);
        let ghost pre_listing = siblings_listing(graph@, module_indices@, children@, i as nat, added0, (fuel - 1) as nat);
        assert(added_mid == pre_listing.1.update(child as int, true));
        let mut sub = collect_children_recursive(child, graph, module_indices, added, Ghost((fuel - 1) as nat));
        let ghost r1 = result@;
        let ghost subv = sub@;
        result.append(&mut sub);
        proof {
            assert(children@[i as int] == child);
            assert(result@ =~= pre_listing.0 + seq![child] + subv);
            assert(siblings_listing(graph@, module_indices@, children@, (i + 1) as nat, added0, (fuel - 1) as nat).0 == result@);
            let b = seq![child] + subv;
            assert(block_of(graph@, child, b)) by {
                assert forall|j: int| 1 <= j < b.len() implies #[trigger] descends(graph@, child, b[j]) by {
                    assert(b[j] == subv[j - 1]);
                }
            }
            let b0 = blocks;
            blocks = blocks.push(b);
            b0.lemma_flatten_push(b);
            assert(r1 =~= r0.push(child));
            assert(result@ =~= blocks.flatten());
            assert forall|j: int| 0 <= j < blocks.len() implies #[trigger] block_of(graph@, children@[j], blocks[j]) by {
                if j < b0.len() {
                    assert(blocks[j] == b0[j]);
                }
            }
            assert(result@ =~= r1 + subv);
            if nd {
                assert(r0.no_duplicates());
                assert(r1.no_duplicates()) by {
                    assert forall|x: int, y: int| 0 <= x < r1.len() && 0 <= y < r1.len() && x != y implies r1[x] != r1[y] by {
                        if x < r0.len() && y < r0.len() {
                            assert(r1[x] == r0[x] && r1[y] == r0[y]);
                        } else if x < r0.len() {
                            assert(r0.contains(r1[x]));
                        } else if y < r0.len() {
                            assert(r0.contains(r1[y]));
                        }
                    }
                }
                assert forall|x: int, y: int| 0 <= x < r1.len() && 0 <= y < subv.len() implies r1[x] != subv[y] by {
                    assert(!added_mid[subv[y] as int]);
                    assert(r1.contains(r1[x]));
                    assert(r1[x] < graph@.nodes.len());
                    assert(added_mid[r1[x] as int]);
                }
                vstd::seq_lib::lemma_no_dup_in_concat(r1, subv);
            }
            assert(r1 =~= r0.push(child));
            assert(contains_child_spec(graph@, parent_idx, child)) by {
                let t = choose|t: int| 0 <= t < children0.len() && children0@[t] == child;
            }
            assert forall|k: int| 0 <= k < result.len() implies #[trigger] container_listed_before(graph@, parent_idx, result@, k) by {
                if k < r0.len() {
                    assert(result@[k] == r0[k]);
                    assert(container_listed_before(graph@, parent_idx, r0, k));
                    if !contains_child_spec(graph@, parent_idx, r0[k]) {
                        let j = choose|j: int| 0 <= j < k && #[trigger] contains_child_spec(graph@, r0[j], r0[k]);
                        assert(result@[j] == r0[j]);
                    }
                } else if k == r0.len() {
                    assert(result@[k] == child);
                } else {
                    let kk = k - r1.len();
                    assert(result@[k] == subv[kk]);
                    assert(container_listed_before(graph@, child, subv, kk));
                    if contains_child_spec(graph@, child, subv[kk]) {
                        assert(result@[r0.len() as int] == child);
                        assert(contains_child_spec(graph@, result@[r0.len() as int], result@[k]));
                    } else {
                        let j = choose|j: int| 0 <= j < kk && #[trigger] contains_child_spec(graph@, subv[j], subv[kk]);
                        assert(result@[r1.len() + j] == subv[j]);
                        assert(contains_child_spec(graph@, result@[r1.len() + j], result@[k]));
                    }
                }
            }
            assert forall|v: int| 0 <= v < graph@.nodes.len() implies (#[trigger] added@[v] <==> (added0[v] || result@.contains(v as usize))) by {
                if result@.contains(v as usize) {
                    let k = choose|k: int| 0 <= k < result.len() && result@[k] == v as usize;
                    if k < r1.len() {
                        assert(r1[k] == v as usize);
                        assert(added_mid[v]);
                    } else {
                        assert(subv[k - r1.len()] == v as usize);
                    }
                }
                if added@[v] && !added0[v] {
                    if added_mid[v] {
                        let k = choose|k: int| 0 <= k < r1.len() && r1[k] == v as usize;
                        assert(result@[k] == v as usize);
                    } else {
                        let k = choose|k: int| 0 <= k < subv.len() && subv[k] == v as usize;
                        assert(result@[r1.len() + k] == v as usize);
                    }
                }
            }
            assert forall|k: int| 0 <= k < result.len() implies module_indices@.contains(#[trigger] result@[k]) && !added0[result@[k] as int]
                && descends(graph@, parent_idx, result@[k]) by {
                if k < r1.len() {
                    assert(result@[k] == r1[k]);
                } else {
                    assert(result@[k] == subv[k - r1.len()]);
                    lemma_descends_transitive(graph@, parent_idx, child, subv[k - r1.len()]);
                }
            }
            assert forall|k: int| 0 <= k < i + 1 implies result@.contains(#[trigger] children@[k]) by {
                if k < i {
                    let t = choose|t: int| 0 <= t < r0.len() && r0[t] == children@[k];
                    assert(result@[t] == children@[k]);
                } else {
                    assert(result@[r0.len() as int] == child);
                }
            }
        }
        i = i + 1;
    }
    proof {
        assert forall|j: int| 0 <= j < module_indices.len() && !added0[module_indices@[j] as int] && contains_child_spec(graph@, parent_idx, #[trigger] module_indices@[j])
            implies result@.contains(module_indices@[j]) by {
            assert(children0@.contains(module_indices@[j]));
            let t = choose|t: int| 0 <= t < children0.len() && children0@[t] == module_indices@[j];
            assert(children@.contains(children0@[t]));
            let u = choose|u: int| 0 <= u < children.len() && children@[u] == children0@[t];
            assert(result@.contains(children@[u]));
        }
        assert(blocks_of(graph@, children@, result@));
        reveal(children_listing);
        lemma_count_true_len(added0);
        assert(fuel > 0);
        assert(child_listing(graph@, module_indices@, parent_idx, added0, fuel) == siblings_listing(
            graph@,
            module_indices@,
            children@,
            children.len() as nat,
            added0,
            (fuel - 1) as nat,
        ));
    }
    result
}

/// The node `k` containment steps above `i`, if the chain of parents is
/// that long.
pub open spec fn ancestor_at(v: ArcGraphView, i: usize, k: nat) -> Option<usize>
    decreases k,
{
    if k == 0 {
        Some(i)
    } else {
        match parent_of(v, i) {
            Some(p) => ancestor_at(v, p, (k - 1) as nat),
            None => None,
        }
    }
}

/// Every chain of containment parents ends: none loops back on itself.
pub open spec fn parents_end(v: ArcGraphView) -> bool {
    forall|i: usize| i < v.nodes.len() ==> #[trigger] ancestor_at(v, i, v.nodes.len() as nat) is None
}

/// Number of containment ancestors of `i` within `k` steps up.
pub open spec fn ancestors_within(v: ArcGraphView, i: usize, k: nat) -> nat
    decreases k,
{
    if k == 0 {
        0
    } else {
        match parent_of(v, i) {
            Some(p) => 1 + ancestors_within(v, p, (k - 1) as nat),
            None => 0,
        }
    }
}

/// Number of containment ancestors of `i` (every chain of parents is
/// shorter than the number of nodes where `parents_end` holds).
pub open spec fn nesting_depth(v: ArcGraphView, i: usize) -> nat {
    ancestors_within(v, i, v.nodes.len() as nat)
}

/// The last position of `x` in `o`, if it occurs.
pub open spec fn last_pos(o: Seq<usize>, x: usize) -> Option<usize>
    decreases o.len(),
{
    if o.len() == 0 {
        None
    } else if o.last() == x {
        Some((o.len() - 1) as usize)
    } else {
        last_pos(o.drop_last(), x)
    }
}

/// The file of the first location of the first module-dependency edge out
/// of `i` that has locations, in petgraph's order (latest edge first),
/// looking at the edges before `k`.
pub open spec fn source_path_in(v: ArcGraphView, i: usize, k: int) -> Option<Seq<char>>
    decreases k,
{
    if k <= 0 {
        None
    } else {
        match v.edges[k - 1].2 {
            EdgeView::ModuleDep { locations, .. } => if v.edges[k - 1].0 == i && locations.len() > 0 {
                Some(locations[0].file)
            } else {
                source_path_in(v, i, k - 1)
            },
            _ => source_path_in(v, i, k - 1),
        }
    }
}

pub open spec fn source_path_of(v: ArcGraphView, i: usize) -> Option<Seq<char>> {
    source_path_in(v, i, v.edges.len() as int)
}

pub open spec fn opt_string_view(o: Option<String>) -> Option<Seq<char>> {
    match o {
        Some(s) => Some(s@),
        None => None,
    }
}

/// Item `k` of the layout made from the item order `o`.
pub open spec fn is_layout_item(v: ArcGraphView, o: Seq<usize>, k: int, item: LayoutItem) -> bool {
    &&& item.id == k
    &&& item.label@ == node_name(v.nodes[o[k] as int])
    &&& item.volatility is None
    &&& match v.nodes[o[k] as int] {
        NodeView::Crate { .. } => item.kind == ItemKind::Crate && item.source_path is None,
        NodeView::Module { .. } => item.kind == (ItemKind::Module {
            nesting: nesting_depth(v, o[k]) as u32,
            parent: match parent_of(v, o[k]) {
                Some(p) => match last_pos(o.take(k), p) {
                    Some(q) => q,
                    None => 0,
                },
                None => 0,
            },
        }) && opt_string_view(item.source_path) == source_path_of(v, o[k]),
    }
}

/// `a` and `b` lie on a common cycle.
pub open spec fn same_cycle(cycles: Seq<Seq<usize>>, a: usize, b: usize) -> bool {
    exists|c: int| 0 <= c < cycles.len() && #[trigger] cycles[c].contains(a) && cycles[c].contains(b)
}

/// Some module dependency joins a module of crate `a` to one of crate `b != a`.
pub open spec fn crates_joined_by_module_dep(v: ArcGraphView, a: usize, b: usize) -> bool {
    exists|f: int|
        0 <= f < v.edges.len() && #[trigger] v.edges[f].2 is ModuleDep && owning_crate_spec(v, v.edges[f].0) == a
            && owning_crate_spec(v, v.edges[f].1) == b && a != b
}

/// The kind of the layout edge made from graph edge `e`.
pub open spec fn edge_kind_of(v: ArcGraphView, cycles: Seq<Seq<usize>>, e: int, from: usize, to: usize) -> EdgeKind {
    let (src, dst) = (v.edges[e].0, v.edges[e].1);
    if same_cycle(cycles, src, dst) {
        if v.edges[e].2 is ModuleDep && same_cycle(cycles, dst, src) && has_edge(v.edges, dst, src) && (exists|f: int|
            is_last_edge(v.edges, f, dst, src) && v.edges[f].2 is ModuleDep) {
            EdgeKind::DirectCycle
        } else {
            EdgeKind::TransitiveCycle
        }
    } else if from < to {
        EdgeKind::Downward
    } else {
        EdgeKind::Upward
    }
}

/// Graph edge `e` shows in the layout made from the item order `o`.
pub open spec fn edge_shown(v: ArcGraphView, o: Seq<usize>, e: int) -> bool {
    &&& last_pos(o, v.edges[e].0) is Some
    &&& last_pos(o, v.edges[e].1) is Some
    &&& match v.edges[e].2 {
        EdgeView::CrateDep { .. } => !crates_joined_by_module_dep(v, v.edges[e].0, v.edges[e].1),
        EdgeView::ModuleDep { .. } => true,
        EdgeView::Contains => false,
    }
}

/// The layout edge made from graph edge `e`.
pub open spec fn is_layout_edge(v: ArcGraphView, cycles: Seq<Seq<usize>>, o: Seq<usize>, e: int, le: LayoutEdge) -> bool {
    let from = last_pos(o, v.edges[e].0)->0;
    let to = last_pos(o, v.edges[e].1)->0;
    &&& le.from == from
    &&& le.to == to
    &&& le.kind == edge_kind_of(v, cycles, e, from, to)
    &&& loc_views(le.source_locations@) == match v.edges[e].2 {
        EdgeView::ModuleDep { locations, .. } => locations,
        _ => Seq::empty(),
    }
}

/// The shown edges among the first `n` graph edges, in order.
pub open spec fn shown_edges(v: ArcGraphView, o: Seq<usize>, n: int) -> Seq<int>
    decreases n,
{
    if n <= 0 {
        Seq::empty()
    } else if edge_shown(v, o, n - 1) {
        shown_edges(v, o, n - 1).push(n - 1)
    } else {
        shown_edges(v, o, n - 1)
    }
}

/// `ir` is the layout made from the item order `o`: one item per entry of
/// `o`, then one edge per shown dependency edge, in edge order.
pub open spec fn is_layout_of(v: ArcGraphView, cycles: Seq<Seq<usize>>, o: Seq<usize>, ir: LayoutIR) -> bool {
    &&& ir.items.len() == o.len()
    &&& forall|k: int| 0 <= k < o.len() ==> is_layout_item(v, o, k, #[trigger] ir.items@[k])
    &&& ir.edges.len() == shown_edges(v, o, v.edges.len() as int).len()
    &&& forall|j: int| 0 <= j < ir.edges.len() ==> is_layout_edge(v, cycles, o, shown_edges(v, o, v.edges.len() as int)[j], #[trigger] ir.edges@[j])
}

proof fn lemma_shown_edges_bound(v: ArcGraphView, o: Seq<usize>, n: int)
    ensures
        forall|k: int| 0 <= k < shown_edges(v, o, n).len() ==> 0 <= #[trigger] shown_edges(v, o, n)[k] < n && edge_shown(v, o, shown_edges(v, o, n)[k]),
    decreases n,
{
    if n > 0 {
        lemma_shown_edges_bound(v, o, n - 1);
        let s1 = shown_edges(v, o, n - 1);
        let s2 = shown_edges(v, o, n);
        assert forall|k: int| 0 <= k < s2.len() implies 0 <= #[trigger] s2[k] < n && edge_shown(v, o, s2[k]) by {
            if k < s1.len() {
                assert(s2[k] == s1[k]);
            }
        }
    }
}

/// In a layout, an edge is marked as a direct cycle only where it is a
/// module dependency and the graph also has a module dependency back from
/// its target to its source; it is marked as part of a cycle (direct or
/// longer) exactly where both ends lie on one cycle. So a cycle edge with no
/// module dependency back is a longer cycle's edge. Any other edge points
/// downward when its source item comes before its target item, else upward.
pub proof fn law_cycle_edge_kinds(v: ArcGraphView, cycles: Seq<Seq<usize>>, o: Seq<usize>, ir: LayoutIR, j: int)
    requires
        is_layout_of(v, cycles, o, ir),
        0 <= j < ir.edges.len(),
        o.len() <= usize::MAX,
    ensures
        exists|e: int|
            0 <= e < v.edges.len() && #[trigger] v.edges[e].0 == o[ir.edges@[j].from as int] && v.edges[e].1 == o[ir.edges@[j].to as int]
                && (ir.edges@[j].kind == EdgeKind::DirectCycle ==> v.edges[e].2 is ModuleDep && exists|f: int|
                0 <= f < v.edges.len() && #[trigger] v.edges[f].0 == v.edges[e].1 && v.edges[f].1 == v.edges[e].0 && v.edges[f].2 is ModuleDep)
                && ((ir.edges@[j].kind == EdgeKind::DirectCycle || ir.edges@[j].kind == EdgeKind::TransitiveCycle) <==> same_cycle(
                cycles,
                v.edges[e].0,
                v.edges[e].1,
            )) && (same_cycle(cycles, v.edges[e].0, v.edges[e].1) && !(exists|f: int|
                0 <= f < v.edges.len() && #[trigger] v.edges[f].0 == v.edges[e].1 && v.edges[f].1 == v.edges[e].0 && v.edges[f].2 is ModuleDep)
                ==> ir.edges@[j].kind == EdgeKind::TransitiveCycle) && (!same_cycle(cycles, v.edges[e].0, v.edges[e].1) ==> (
            ir.edges@[j].kind == EdgeKind::Downward <==> ir.edges@[j].from < ir.edges@[j].to) && (ir.edges@[j].kind == EdgeKind::Upward
                <==> ir.edges@[j].to <= ir.edges@[j].from)),
{
    let se = shown_edges(v, o, v.edges.len() as int);
    lemma_shown_edges_bound(v, o, v.edges.len() as int);
    let e = se[j];
    assert(is_layout_edge(v, cycles, o, e, ir.edges@[j]));
    assert(edge_shown(v, o, e));
    lemma_last_pos_bound(o, v.edges[e].0);
    lemma_last_pos_bound(o, v.edges[e].1);
    let (src, dst) = (v.edges[e].0, v.edges[e].1);
    if ir.edges@[j].kind == EdgeKind::DirectCycle {
        let f = choose|f: int| is_last_edge(v.edges, f, dst, src) && v.edges[f].2 is ModuleDep;
        assert(v.edges[f].0 == dst && v.edges[f].1 == src);
    }
    if same_cycle(cycles, src, dst) && !(exists|f: int|
        0 <= f < v.edges.len() && #[trigger] v.edges[f].0 == dst && v.edges[f].1 == src && v.edges[f].2 is ModuleDep) {
        if exists|f: int| is_last_edge(v.edges, f, dst, src) && v.edges[f].2 is ModuleDep {
            let f = choose|f: int| is_last_edge(v.edges, f, dst, src) && v.edges[f].2 is ModuleDep;
            assert(v.edges[f].0 == dst && v.edges[f].1 == src);
        }
    }
}

proof fn lemma_last_pos_push(o: Seq<usize>, x: usize, y: usize)
    ensures
        last_pos(o.push(x), y) == if x == y { Some(o.len() as usize) } else { last_pos(o, y) },
{
    assert(o.push(x).drop_last() =~= o);
}

proof fn lemma_last_pos_bound(o: Seq<usize>, y: usize)
    requires
        o.len() <= usize::MAX,
    ensures
        last_pos(o, y) matches Some(p) ==> p < o.len() && o[p as int] == y,
    decreases o.len(),
{
    if o.len() > 0 && o.last() != y {
        lemma_last_pos_bound(o.drop_last(), y);
    }
}

/// A containment parent taken from well-formed edges is a node.
proof fn lemma_parent_in_bound(edges: Seq<(usize, usize, EdgeView)>, m: int, n: nat, child: usize)
    requires
        m <= edges.len(),
        forall|e: int| 0 <= e < edges.len() ==> (#[trigger] edges[e]).0 < n && edges[e].1 < n,
    ensures
        crate::graph::parent_in(edges, m, child) matches Some(p) ==> p < n,
    decreases m,
{
    if m > 0 {
        lemma_parent_in_bound(edges, m - 1, n, child);
    }
}

/// Containment depth of node `i`.
fn nesting_of(graph: &ArcGraph, pm: &Vec<Option<usize>>, i: usize) -> (r: u32)
    requires
        parents_end(graph@),
        i < graph@.nodes.len(),
        pm.len() == graph@.nodes.len(),
        forall|j: int| 0 <= j < pm.len() ==> #[trigger] pm@[j] == parent_of(graph@, j as usize),
    ensures
        r == nesting_depth(graph@, i),
{
    proof {
        use_type_invariant(graph);
    }
    let ghost n = graph@.nodes.len() as nat;
    assert(ancestor_at(graph@, i, n) is None);
    let mut depth: u32 = 0;
    let mut cur: usize = i;
    while pm[cur].is_some()
        invariant
            crate::graph::graph_wf(graph@),
            n == graph@.nodes.len(),
            cur < graph@.nodes.len(),
            pm.len() == graph@.nodes.len(),
            forall|j: int| 0 <= j < pm.len() ==> #[trigger] pm@[j] == parent_of(graph@, j as usize),
            depth <= n,
            ancestor_at(graph@, cur, (n - depth) as nat) is None,
            depth + ancestors_within(graph@, cur, (n - depth) as nat) == nesting_depth(graph@, i),
        decreases n - depth,
    {
        let p = pm[cur].unwrap();
        assert(parent_of(graph@, cur) == Some(p));
        assert(depth < n);
        assert(p < graph@.nodes.len()) by {
            lemma_parent_in_bound(graph@.edges, graph@.edges.len() as int, graph@.nodes.len(), cur);
        }
        depth = depth + 1;
        cur = p;
    }
    proof {
        if depth < n {
            assert(ancestors_within(graph@, cur, (n - depth) as nat) == 0);
        }
    }
    depth
}

/// The file of the first location of the latest module dependency out of `i`
/// that has locations.
fn source_path_exec(graph: &ArcGraph, i: usize) -> (r: Option<String>)
    ensures
        opt_string_view(r) == source_path_of(graph@, i),
{
    let mut k: usize = graph.edge_count();
    while k > 0
        invariant
            k <= graph@.edges.len(),
            source_path_of(graph@, i) == source_path_in(graph@, i, k as int),
        decreases k,
    {
        let (a, _, w) = graph.edge(k - 1);
        match w {
            crate::graph::Edge::ModuleDep { locations, .. } => {
                if a == i && locations.len() > 0 {
                    return Some(locations[0].file.clone());
                }
            },
            _ => {},
        }
        k = k - 1;
    }
    None
}

/// Whether `a` and `b` lie on a common cycle.
fn same_cycle_exec(cycles: &Vec<Cycle>, a: usize, b: usize) -> (r: bool)
    ensures
        r == same_cycle(cycle_views(cycles@), a, b),
{
    let mut c: usize = 0;
    while c < cycles.len()
        invariant
            0 <= c <= cycles.len(),
            forall|d: int| 0 <= d < c ==> !(cycle_views(cycles@)[d].contains(a) && cycle_views(cycles@)[d].contains(b)),
        decreases cycles.len() - c,
    {
        if vec_has(&cycles[c].nodes, a) && vec_has(&cycles[c].nodes, b) {
            assert(cycle_views(cycles@)[c as int] == cycles@[c as int].nodes@);
            return true;
        }
        assert(cycle_views(cycles@)[c as int] == cycles@[c as int].nodes@);
        c = c + 1;
    }
    false
}

/// Whether a module dependency joins crate `a` to crate `b != a`.
fn crates_joined_exec(graph: &ArcGraph, a: usize, b: usize) -> (r: bool)
    ensures
        r == crates_joined_by_module_dep(graph@, a, b),
{
    let ne = graph.edge_count();
    let mut f: usize = 0;
    while f < ne
        invariant
            ne == graph@.edges.len(),
            0 <= f <= ne,
            forall|g: int| 0 <= g < f ==> !(#[trigger] graph@.edges[g].2 is ModuleDep && owning_crate_spec(graph@, graph@.edges[g].0) == a
                && owning_crate_spec(graph@, graph@.edges[g].1) == b && a != b),
        decreases ne - f,
    {
        let (x, y, w) = graph.edge(f);
        let is_dep = match w {
            crate::graph::Edge::ModuleDep { .. } => true,
            _ => false,
        };
        if is_dep && a != b && graph.owning_crate(x) == a && graph.owning_crate(y) == b {
            return true;
        }
        f = f + 1;
    }
    false
}

/// Copies source locations.
fn clone_locations(v: &Vec<SourceLocation>) -> (r: Vec<SourceLocation>)
    ensures
        loc_views(r@) == loc_views(v@),
{
    let mut r: Vec<SourceLocation> = Vec::new();
    let mut i: usize = 0;
    while i < v.len()
        invariant
            0 <= i <= v.len(),
            loc_views(r@) == loc_views(v@.take(i as int)),
        decreases v.len() - i,
    {
        let l = &v[i];
        let c = SourceLocation {
            file: l.file.clone(),
            line: l.line,
            symbols: crate::model::clone_strings(&l.symbols),
            mod_path: l.mod_path.clone(),
        };
        let ghost prev = r@;
        r.push(c);
        assert(loc_views(r@) =~= loc_views(prev).push(v@[i as int]@));
        assert(v@.take(i + 1) =~= v@.take(i as int).push(v@[i as int]));
        assert(loc_views(v@.take(i + 1)) =~= loc_views(v@.take(i as int)).push(v@[i as int]@));
        i = i + 1;
    }
    assert(v@.take(v.len() as int) =~= v@);
    r
}

/// The layout made from the item order `ordered` (see `is_layout_of`).
fn populate_layout(graph: &ArcGraph, ordered: &Vec<usize>, cycles: &Vec<Cycle>) -> (ir: LayoutIR)
    requires
        parents_end(graph@),
        forall|k: int| 0 <= k < ordered.len() ==> #[trigger] ordered@[k] < graph@.nodes.len(),
    ensures
        is_layout_of(graph@, cycle_views(cycles@), ordered@, ir),
{
    proof {
        use_type_invariant(graph);
    }
    let ghost v = graph@;
    let ghost o = ordered@;
    let n = graph.node_count();
    let pm = graph.parent_map();
    let mut ir = LayoutIR::new();
    let mut node_map: Vec<Option<usize>> = Vec::new();
    let mut i: usize = 0;
    while i < n
        invariant
            0 <= i <= n,
            node_map.len() == i,
            forall|j: int| 0 <= j < i ==> node_map@[j] is None,
        decreases n - i,
    {
        node_map.push(None);
        i = i + 1;
    }
    assert(o.take(0) =~= Seq::<usize>::empty());
    let mut k: usize = 0;
    while k < ordered.len()
        invariant
            v == graph@,
            o == ordered@,
            parents_end(v),
            crate::graph::graph_wf(v),
            n == v.nodes.len(),
            forall|j: int| 0 <= j < o.len() ==> #[trigger] o[j] < n,
            pm.len() == n,
            forall|j: int| 0 <= j < pm.len() ==> #[trigger] pm@[j] == parent_of(v, j as usize),
            0 <= k <= o.len(),
            node_map.len() == n,
            forall|x: int| 0 <= x < n ==> #[trigger] node_map@[x] == last_pos(o.take(k as int), x as usize),
            ir.items.len() == k,
            ir.edges.len() == 0,
            forall|j: int| 0 <= j < k ==> is_layout_item(v, o, j, #[trigger] ir.items@[j]),
        decreases o.len() - k,
    {
        let idx = ordered[k];
        let (kind, label, sp) = match graph.node(idx) {
            crate::graph::Node::Crate { name, .. } => (ItemKind::Crate, name.clone(), None),
            crate::graph::Node::Module { name, .. } => {
                let nesting = nesting_of(graph, &pm, idx);
                proof {
                    lemma_parent_in_bound(v.edges, v.edges.len() as int, n as nat, idx);
                }
                let parent = match pm[idx] {
                    Some(p) => match node_map[p] {
                        Some(q) => q,
                        None => 0,
                    },
                    None => 0,
                };
                (ItemKind::Module { nesting, parent }, name.clone(), source_path_exec(graph, idx))
            },
        };
        let ghost items0 = ir.items@;
        let id = ir.add_item(kind, label);
        let mut item = ir.items.pop().unwrap();
        item.source_path = sp;
        ir.items.push(item);
        node_map.set(idx, Some(id));
        proof {
            assert(o.take(k + 1) =~= o.take(k as int).push(idx));
            assert forall|x: int| 0 <= x < n implies #[trigger] node_map@[x] == last_pos(o.take(k + 1), x as usize) by {
                lemma_last_pos_push(o.take(k as int), idx, x as usize);
            }
            assert forall|j: int| 0 <= j < k + 1 implies is_layout_item(v, o, j, #[trigger] ir.items@[j]) by {
                if j < k {
                    assert(ir.items@[j] == items0[j]);
                }
            }
        }
        k = k + 1;
    }
    assert(o.take(o.len() as int) =~= o);
    let ghost cv = cycle_views(cycles@);
    let ne = graph.edge_count();
    let mut e: usize = 0;
    while e < ne
        invariant
            v == graph@,
            o == ordered@,
            cv == cycle_views(cycles@),
            crate::graph::graph_wf(v),
            n == v.nodes.len(),
            ne == v.edges.len(),
            node_map.len() == n,
            forall|x: int| 0 <= x < n ==> #[trigger] node_map@[x] == last_pos(o, x as usize),
            ir.items.len() == o.len(),
            forall|j: int| 0 <= j < o.len() ==> is_layout_item(v, o, j, #[trigger] ir.items@[j]),
            0 <= e <= ne,
            ir.edges.len() == shown_edges(v, o, e as int).len(),
            forall|j: int| 0 <= j < ir.edges.len() ==> is_layout_edge(v, cv, o, shown_edges(v, o, e as int)[j], #[trigger] ir.edges@[j]),
        decreases ne - e,
    {
        let (src, dst, w) = graph.edge(e);
        let ghost edges0 = ir.edges@;
        let ghost shown0 = shown_edges(v, o, e as int);
        let shown_kind: bool = match w {
            crate::graph::Edge::CrateDep { .. } => !crates_joined_exec(graph, src, dst),
            crate::graph::Edge::ModuleDep { .. } => true,
            crate::graph::Edge::Contains => false,
        };
        if shown_kind && node_map[src].is_some() && node_map[dst].is_some() {
            let from = node_map[src].unwrap();
            let to = node_map[dst].unwrap();
            let is_module_dep = match w {
                crate::graph::Edge::ModuleDep { .. } => true,
                _ => false,
            };
            let kind = if same_cycle_exec(cycles, src, dst) {
                let mut direct = false;
                if is_module_dep && same_cycle_exec(cycles, dst, src) {
                    match graph.find_edge(dst, src) {
                        Some(f) => {
                            let (_, _, fw) = graph.edge(f);
                            match fw {
                                crate::graph::Edge::ModuleDep { .. } => {
                                    direct = true;
                                },
                                _ => {},
                            }
                            proof {
                                assert forall|f2: int| is_last_edge(v.edges, f2, dst, src) implies f2 == f by {
                                    if f2 < f {
                                        assert(v.edges[f as int].0 == dst && v.edges[f as int].1 == src);
                                    } else if f2 > f {
                                        assert(v.edges[f2].0 == dst && v.edges[f2].1 == src);
                                    }
                                }
                            }
                        },
                        None => {},
                    }
                }
                if direct {
                    EdgeKind::DirectCycle
                } else {
                    EdgeKind::TransitiveCycle
                }
            } else if from < to {
                EdgeKind::Downward
            } else {
                EdgeKind::Upward
            };
            let locations = match w {
                crate::graph::Edge::ModuleDep { locations, .. } => clone_locations(locations),
                _ => {
                    let none: Vec<SourceLocation> = Vec::new();
                    assert(loc_views(none@) =~= Seq::<SourceLocationView>::empty());
                    none
                },
            };
            ir.add_edge(from, to, kind, locations);
        }
        proof {
            assert(edge_shown(v, o, e as int) == (shown_kind && node_map@[src as int] is Some && node_map@[dst as int] is Some));
            assert forall|j: int| 0 <= j < ir.edges.len() implies is_layout_edge(v, cv, o, shown_edges(v, o, e + 1)[j], #[trigger] ir.edges@[j]) by {
                if j < edges0.len() {
                    assert(ir.edges@[j] == edges0[j]);
                    assert(shown_edges(v, o, e + 1)[j] == shown0[j]);
                }
            }
        }
        e = e + 1;
    }
    ir
}

/// `v` in increasing order (equal values keep their order).
fn sort_indices(v: &Vec<usize>) -> (r: Vec<usize>)
    ensures
        r@.to_multiset() == v@.to_multiset(),
        r.len() == v.len(),
        forall|a: int, b: int| 0 <= a < b < r.len() ==> r@[a] <= r@[b],
{
    broadcast use vstd::seq_lib::group_to_multiset_ensures;
    let mut r: Vec<usize> = Vec::new();
    let mut i: usize = 0;
    while i < v.len()
        invariant
            0 <= i <= v.len(),
            r.len() == i,
            r@.to_multiset() == v@.take(i as int).to_multiset(),
            forall|a: int, b: int| 0 <= a < b < r.len() ==> r@[a] <= r@[b],
        decreases v.len() - i,
    {
        let x = v[i];
        let mut p: usize = r.len();
        while p > 0 && x < r[p - 1]
            invariant
                0 <= p <= r.len(),
                forall|k: int| p <= k < r.len() ==> x < r@[k],
            decreases p,
        {
            p = p - 1;
        }
        let ghost r0 = r@;
        r.insert(p, x);
        proof {
            vstd::seq_lib::to_multiset_insert(r0, p as int, x);
            assert(v@.take(i + 1) =~= v@.take(i as int).push(x));
            v@.take(i as int).to_multiset_ensures();
            assert forall|a: int, b: int| 0 <= a < b < r.len() implies r@[a] <= r@[b] by {
                if b < p {
                    assert(r@[a] == r0[a] && r@[b] == r0[b]);
                } else if b == p {
                    assert(r@[a] == r0[a]);
                    if p > 0 {
                        assert(r0[a] <= r0[p - 1]);
                    }
                } else if a < p {
                    assert(r@[a] == r0[a] && r@[b] == r0[b - 1]);
                } else if a == p {
                    assert(r@[b] == r0[b - 1]);
                } else {
                    assert(r@[a] == r0[a - 1] && r@[b] == r0[b - 1]);
                }
            }
        }
        i = i + 1;
    }
    assert(v@.take(v.len() as int) =~= v@);
    r
}

/// The last position of `x` in `v`.
fn last_position(v: &Vec<usize>, x: usize) -> (r: Option<usize>)
    ensures
        r matches Some(k) ==> k < v.len() && v@[k as int] == x,
        r is None ==> !v@.contains(x),
{
    let mut k: usize = v.len();
    while k > 0
        invariant
            k <= v.len(),
            forall|j: int| k <= j < v.len() ==> v@[j] != x,
        decreases k,
    {
        if v[k - 1] == x {
            return Some(k - 1);
        }
        k = k - 1;
    }
    None
}


/// Graph edge `f` is a crate or module dependency between nodes of two
/// different crates.
pub open spec fn crate_level_dep(v: ArcGraphView, f: int) -> bool {
    &&& 0 <= f < v.edges.len()
    &&& !(v.edges[f].2 is Contains)
    &&& owning_crate_spec(v, v.edges[f].0) != owning_crate_spec(v, v.edges[f].1)
}

/// Crate-level dependency `f` joins the crates `crates[p]` and `crates[q]`.
pub open spec fn crate_dep_between(v: ArcGraphView, crates: Seq<usize>, f: int, p: int, q: int) -> bool {
    &&& crate_level_dep(v, f)
    &&& 0 <= p < crates.len()
    &&& 0 <= q < crates.len()
    &&& crates[p] == owning_crate_spec(v, v.edges[f].0)
    &&& crates[q] == owning_crate_spec(v, v.edges[f].1)
}

/// Some crate-level dependency joins `crates[pq.0]` to `crates[pq.1]`.
pub open spec fn crate_edge_found(v: ArcGraphView, crates: Seq<usize>, pq: (usize, usize)) -> bool {
    exists|f: int| #[trigger] crate_dep_between(v, crates, f, pq.0 as int, pq.1 as int)
}

/// Crate-level dependencies: node `k` is `crates[k]`; an edge between the
/// (last) nodes of two different crates when a crate or module dependency
/// leads from one to the other, each pair once.
fn crate_dep_graph(graph: &ArcGraph, crates: &Vec<usize>) -> (g: DiGraph<usize, ()>)
    requires
        crates.len() <= u32::MAX,
    ensures
        index_nodes(g) == crates@,
        forall|e: int| 0 <= e < index_edges(g).len() ==> (#[trigger] index_edges(g)[e]).0 < crates.len()
            && index_edges(g)[e].1 < crates.len(),
        forall|h: int| 0 <= h < index_edges(g).len() ==> #[trigger] crate_edge_found(graph@, crates@, index_edges(g)[h]),
        crates@.no_duplicates() ==> forall|f: int, p: int, q: int|
            #[trigger] crate_dep_between(graph@, crates@, f, p, q) ==> has_index_edge(index_edges(g), p as usize, q as usize),
{
    proof {
        use_type_invariant(graph);
    }
    let c = crates.len();
    let mut g = index_graph_new();
    let mut k: usize = 0;
    while k < c
        invariant
            c == crates.len(),
            c <= u32::MAX,
            0 <= k <= c,
            index_nodes(g) == crates@.take(k as int),
            index_edges(g).len() == 0,
        decreases c - k,
    {
        index_graph_add_node(&mut g, crates[k]);
        assert(crates@.take(k + 1) =~= crates@.take(k as int).push(crates@[k as int]));
        k = k + 1;
    }
    assert(crates@.take(c as int) =~= crates@);
    let ne = graph.edge_count();
    let mut e: usize = 0;
    while e < ne
        invariant
            c == crates.len(),
            c <= u32::MAX,
            ne == graph@.edges.len(),
            crate::graph::graph_wf(graph@),
            0 <= e <= ne,
            index_nodes(g) == crates@,
            index_edges(g).len() <= e,
            forall|f: int| 0 <= f < index_edges(g).len() ==> (#[trigger] index_edges(g)[f]).0 < c && index_edges(g)[f].1 < c,
            forall|h: int| 0 <= h < index_edges(g).len() ==> #[trigger] crate_edge_found(graph@, crates@, index_edges(g)[h]),
            crates@.no_duplicates() ==> forall|f: int, p: int, q: int|
                0 <= f < e && #[trigger] crate_dep_between(graph@, crates@, f, p, q) ==> has_index_edge(index_edges(g), p as usize, q as usize),
        decreases ne - e,
    {
        let ghost old_edges = index_edges(g);
        let (a, b, w) = graph.edge(e);
        let is_dep = match w {
            crate::graph::Edge::Contains => false,
            _ => true,
        };
        if is_dep {
            let sc = graph.owning_crate(a);
            let dc = graph.owning_crate(b);
            if sc != dc {
                match (last_position(crates, sc), last_position(crates, dc)) {
                    (Some(ls), Some(ld)) => {
                        proof {
                            assert(crate_dep_between(graph@, crates@, e as int, ls as int, ld as int));
                        }
                        if !index_graph_contains_edge(&g, ls, ld) {
                            index_graph_add_edge(&mut g, ls, ld);
                            proof {
                                assert(index_edges(g)[old_edges.len() as int] == (ls, ld));
                                assert forall|f: int| 0 <= f < index_edges(g).len() implies (#[trigger] index_edges(g)[f]).0 < c
                                    && index_edges(g)[f].1 < c by {
                                    if f < old_edges.len() {
                                        assert(index_edges(g)[f] == old_edges[f]);
                                    }
                                }
                                assert forall|h: int| 0 <= h < index_edges(g).len() implies #[trigger] crate_edge_found(
                                    graph@,
                                    crates@,
                                    index_edges(g)[h],
                                ) by {
                                    if h < old_edges.len() {
                                        assert(index_edges(g)[h] == old_edges[h]);
                                    } else {
                                        assert(crate_dep_between(graph@, crates@, e as int, ls as int, ld as int));
                                    }
                                }
                            }
                        }
                    },
                    _ => {},
                }
            }
        }
        proof {
            let ge = index_edges(g);
            assert forall|w2: int| 0 <= w2 < old_edges.len() implies ge[w2] == old_edges[w2] by {}
            if crates@.no_duplicates() {
                assert forall|f: int, p: int, q: int|
                    0 <= f < e + 1 && #[trigger] crate_dep_between(graph@, crates@, f, p, q) implies has_index_edge(ge, p as usize, q as usize) by {
                    if f < e {
                        assert(has_index_edge(old_edges, p as usize, q as usize));
                        let w2 = choose|w2: int| 0 <= w2 < old_edges.len() && #[trigger] old_edges[w2] == (p as usize, q as usize);
                        assert(ge[w2] == old_edges[w2]);
                    } else {
                        assert(crates@[p] == owning_crate_spec(graph@, a));
                        assert(crates@[q] == owning_crate_spec(graph@, b));
                        assert(crates@.contains(crates@[p]));
                        assert(crates@.contains(crates@[q]));
                        if has_index_edge(old_edges, p as usize, q as usize) {
                            let w2 = choose|w2: int| 0 <= w2 < old_edges.len() && #[trigger] old_edges[w2] == (p as usize, q as usize);
                            assert(ge[w2] == old_edges[w2]);
                        } else {
                            assert(ge[old_edges.len() as int] == (p as usize, q as usize));
                        }
                    }
                }
            }
        }
        e = e + 1;
    }
    g
}

/// Every node of `order` occurs in `o` and every node of `o` in `order`.
pub open spec fn same_nodes(order: Seq<usize>, o: Seq<usize>) -> bool {
    &&& forall|k: int| 0 <= k < o.len() ==> order.contains(#[trigger] o[k])
    &&& forall|k: int| 0 <= k < order.len() ==> o.contains(#[trigger] order[k])
}

/// The first `h` entries of `o` are crates or nodes contained by an
/// earlier entry; the rest are modules.
pub open spec fn hier_prefix(v: ArcGraphView, o: Seq<usize>, h: int) -> bool {
    &&& 0 <= h <= o.len()
    &&& forall|k: int|
        0 <= k < h ==> v.nodes[#[trigger] o[k] as int] is Crate || exists|j: int|
            0 <= j < k && #[trigger] contains_child_spec(v, o[j], o[k])
    &&& forall|k: int| h <= k < o.len() ==> v.nodes[#[trigger] o[k] as int] is Module
}

proof fn lemma_hier_extend(v: ArcGraphView, o0: Seq<usize>, ci: usize, subv: Seq<usize>)
    requires
        hier_prefix(v, o0, o0.len() as int),
        ci < v.nodes.len(),
        v.nodes[ci as int] is Crate,
        forall|k: int| 0 <= k < subv.len() ==> #[trigger] container_listed_before(v, ci, subv, k),
    ensures
        hier_prefix(v, o0.push(ci) + subv, (o0.len() + 1 + subv.len()) as int),
{
    let o = o0.push(ci) + subv;
    let o1 = o0.push(ci);
    assert forall|k: int| 0 <= k < o.len() implies v.nodes[#[trigger] o[k] as int] is Crate || exists|j: int|
        0 <= j < k && #[trigger] contains_child_spec(v, o[j], o[k]) by {
        if k < o0.len() {
            assert(o[k] == o0[k]);
            if !(v.nodes[o0[k] as int] is Crate) {
                let j = choose|j: int| 0 <= j < k && #[trigger] contains_child_spec(v, o0[j], o0[k]);
                assert(o[j] == o0[j]);
            }
        } else if k == o0.len() {
            assert(o[k] == ci);
        } else {
            let kk = k - o1.len();
            assert(o[k] == subv[kk]);
            assert(container_listed_before(v, ci, subv, kk));
            if contains_child_spec(v, ci, subv[kk]) {
                assert(o[o0.len() as int] == ci);
                assert(contains_child_spec(v, o[o0.len() as int], o[k]));
            } else {
                let j = choose|j: int| 0 <= j < kk && #[trigger] contains_child_spec(v, subv[j], subv[kk]);
                assert(o[o1.len() + j] == subv[j]);
                assert(contains_child_spec(v, o[o1.len() + j], o[k]));
            }
        }
    }
}

/// Appending a crate not listed yet and then modules not marked yet keeps
/// a listing free of repeats; modules listed stay marked and crates listed
/// stay among the crates placed so far.
proof fn lemma_group_step(
    v: ArcGraphView,
    o0: Seq<usize>,
    ci: usize,
    subv: Seq<usize>,
    ab: Seq<bool>,
    aa: Seq<bool>,
    oc: Seq<usize>,
    c: int,
)
    requires
        ab.len() == v.nodes.len(),
        aa.len() == v.nodes.len(),
        forall|k: int| 0 <= k < o0.len() ==> #[trigger] o0[k] < v.nodes.len(),
        forall|k: int| 0 <= k < o0.len() && v.nodes[#[trigger] o0[k] as int] is Module ==> ab[o0[k] as int],
        forall|k: int| 0 <= k < o0.len() && v.nodes[#[trigger] o0[k] as int] is Crate ==> exists|j: int| 0 <= j < c && oc[j] == o0[k],
        0 <= c < oc.len(),
        oc[c] == ci,
        ci < v.nodes.len(),
        v.nodes[ci as int] is Crate,
        forall|k: int| 0 <= k < subv.len() ==> #[trigger] subv[k] < v.nodes.len() && v.nodes[subv[k] as int] is Module && !ab[subv[k] as int],
        forall|x: int| 0 <= x < v.nodes.len() ==> (#[trigger] aa[x] <==> (ab[x] || subv.contains(x as usize))),
        forall|x: int| 0 <= x < v.nodes.len() && ab[x] ==> aa[x],
    ensures
        oc.no_duplicates() && o0.no_duplicates() && subv.no_duplicates() ==> (o0.push(ci) + subv).no_duplicates(),
        forall|k: int|
            0 <= k < (o0.push(ci) + subv).len() && v.nodes[#[trigger] (o0.push(ci) + subv)[k] as int] is Module ==> aa[(o0.push(ci) + subv)[k] as int],
        forall|k: int|
            0 <= k < (o0.push(ci) + subv).len() && v.nodes[#[trigger] (o0.push(ci) + subv)[k] as int] is Crate ==> exists|j: int|
                0 <= j < c + 1 && oc[j] == (o0.push(ci) + subv)[k],
{
    let r1 = o0.push(ci);
    let all = r1 + subv;
    if oc.no_duplicates() && o0.no_duplicates() && subv.no_duplicates() {
        assert(r1.no_duplicates()) by {
            assert forall|x: int, y: int| 0 <= x < r1.len() && 0 <= y < r1.len() && x != y implies r1[x] != r1[y] by {
                if x < o0.len() && y < o0.len() {
                    assert(r1[x] == o0[x] && r1[y] == o0[y]);
                } else if x < o0.len() {
                    assert(r1[x] == o0[x]);
                    if o0[x] == ci {
                        let j = choose|j: int| 0 <= j < c && oc[j] == o0[x];
                    }
                } else if y < o0.len() {
                    assert(r1[y] == o0[y]);
                    if o0[y] == ci {
                        let j = choose|j: int| 0 <= j < c && oc[j] == o0[y];
                    }
                }
            }
        }
        assert forall|x: int, y: int| 0 <= x < r1.len() && 0 <= y < subv.len() implies r1[x] != subv[y] by {
            if x < o0.len() {
                assert(r1[x] == o0[x]);
                if v.nodes[o0[x] as int] is Module {
                    assert(ab[o0[x] as int]);
                }
            }
            assert(v.nodes[subv[y] as int] is Module);
        }
        vstd::seq_lib::lemma_no_dup_in_concat(r1, subv);
    }
    assert forall|k: int| 0 <= k < all.len() && v.nodes[#[trigger] all[k] as int] is Module implies aa[all[k] as int] by {
        if k < o0.len() {
            assert(all[k] == o0[k]);
        } else if k > o0.len() {
            assert(all[k] == subv[k - r1.len()]);
            assert(subv.contains(all[k]));
        }
    }
    assert forall|k: int| 0 <= k < all.len() && v.nodes[#[trigger] all[k] as int] is Crate implies exists|j: int|
        0 <= j < c + 1 && oc[j] == all[k] by {
        if k < o0.len() {
            assert(all[k] == o0[k]);
            let j = choose|j: int| 0 <= j < c && oc[j] == o0[k];
        } else if k == o0.len() {
            assert(oc[c] == all[k]);
        } else {
            assert(all[k] == subv[k - r1.len()]);
        }
    }
}

/// Two listings without repeats of the same nodes are equally long.
proof fn lemma_same_nodes_len(a: Seq<usize>, b: Seq<usize>)
    requires
        a.no_duplicates(),
        b.no_duplicates(),
        same_nodes(a, b),
    ensures
        a.len() == b.len(),
{
    a.unique_seq_to_set();
    b.unique_seq_to_set();
    assert(a.to_set() =~= b.to_set()) by {
        assert forall|x: usize| a.to_set().contains(x) implies b.to_set().contains(x) by {
            let k = choose|k: int| 0 <= k < a.len() && a[k] == x;
            assert(b.contains(a[k]));
        }
        assert forall|x: usize| b.to_set().contains(x) implies a.to_set().contains(x) by {
            let k = choose|k: int| 0 <= k < b.len() && b[k] == x;
            assert(a.contains(b[k]));
        }
    }
}

/// The module entries of `o`, in order.
pub open spec fn module_entries(v: ArcGraphView, o: Seq<usize>) -> Seq<usize> {
    o.filter(|x: usize| !(v.nodes[x as int] is Crate))
}

/// `sc` holds the crate entries of `order`, ascending.
pub open spec fn sorted_crates_of(v: ArcGraphView, order: Seq<usize>, sc: Seq<usize>) -> bool {
    &&& sc.to_multiset() == crate_entries(v, order).to_multiset()
    &&& forall|a: int, b: int| 0 <= a < b < sc.len() ==> sc[a] <= sc[b]
}

/// `ce` joins positions `p` and `q` of `sc` only where a crate-level
/// dependency leads from crate `sc[p]` to crate `sc[q]`, and, where `sc`
/// repeats no crate, wherever one does.
pub open spec fn crate_edges_of(v: ArcGraphView, sc: Seq<usize>, ce: Seq<(usize, usize)>) -> bool {
    &&& forall|e: int| 0 <= e < ce.len() ==> (#[trigger] ce[e]).0 < sc.len() && ce[e].1 < sc.len() && crate_edge_found(v, sc, ce[e])
    &&& sc.no_duplicates() ==> forall|f: int, p: int, q: int| #[trigger] crate_dep_between(v, sc, f, p, q) ==> has_index_edge(ce, p as usize, q as usize)
}

/// `co` orders the crates of `order`: in the stable order of their
/// crate-level dependencies (ties by name, then by node index) when those
/// have no cycle; otherwise as `order` lists them.
pub open spec fn crate_order(v: ArcGraphView, order: Seq<usize>, co: Seq<usize>) -> bool {
    exists|sc: Seq<usize>, ce: Seq<(usize, usize)>|
        sorted_crates_of(v, order, sc) && #[trigger] crate_edges_of(v, sc, ce) && (sc.len() > 0 && acyclic(sc.len(), ce)
            ==> exists|o: Seq<usize>| is_stable_order(sc.len(), ce, stable_names(v, sc), o) && #[trigger] weights_of(sc, o) == co)
            && (!(sc.len() > 0 && acyclic(sc.len(), ce)) ==> co == crate_entries(v, order))
}

/// `o` lists, for each crate of `co` in turn, the crate and then nodes below
/// it; after those come modules only.
pub open spec fn grouped_by_crate(v: ArcGraphView, co: Seq<usize>, o: Seq<usize>) -> bool {
    exists|h: int|
        0 <= h <= o.len() && #[trigger] blocks_of(v, co, o.take(h)) && forall|k: int| h <= k < o.len() ==> v.nodes[#[trigger] o[k] as int] is Module
}

/// The crate entries of `o`, in order.
pub open spec fn crate_entries(v: ArcGraphView, o: Seq<usize>) -> Seq<usize> {
    o.filter(|x: usize| v.nodes[x as int] is Crate)
}

proof fn lemma_children_in_pool(v: ArcGraphView, parent: usize, pool: Seq<usize>, sub: Seq<usize>, children: Seq<usize>)
    requires
        children_in(v, parent, sub, children),
        forall|k: int| 0 <= k < sub.len() ==> pool.contains(#[trigger] sub[k]),
    ensures
        children_in(v, parent, pool, children),
{
    assert forall|k: int| 0 <= k < children.len() implies pool.contains(#[trigger] children[k]) && contains_child_spec(v, parent, children[k]) by {
        assert(sub.contains(children[k]));
        let t = choose|t: int| 0 <= t < sub.len() && sub[t] == children[k];
        assert(pool.contains(sub[t]));
    }
}

proof fn lemma_sibling_fit_sub(v: ArcGraphView, pool: Seq<usize>, sub: Seq<usize>)
    requires
        sibling_graphs_fit(v, pool),
        sub.len() <= pool.len(),
        forall|k: int| 0 <= k < sub.len() ==> pool.contains(#[trigger] sub[k]),
        pool.no_duplicates() ==> sub.no_duplicates(),
    ensures
        sibling_graphs_fit(v, sub),
{
    assert forall|children: Seq<usize>|
        children.len() <= sub.len() && (sub.no_duplicates() ==> children.no_duplicates()) && (exists|parent: usize|
            #[trigger] children_in(v, parent, sub, children)) implies #[trigger] sibling_graph_fits(v, children) by {
        let parent = choose|parent: usize| #[trigger] children_in(v, parent, sub, children);
        lemma_children_in_pool(v, parent, pool, sub, children);
        assert(children.len() <= pool.len());
        assert(exists|p: usize| #[trigger] children_in(v, p, pool, children));
    }
}

/// The first `k` crates of `co`, each followed by the modules listed below
/// it (and the marks afterwards).
pub open spec fn crates_listing(v: ArcGraphView, mi: Seq<usize>, co: Seq<usize>, k: nat, added: Seq<bool>) -> (
    Seq<usize>,
    Seq<bool>,
)
    decreases k,
{
    if k == 0 {
        (Seq::empty(), added)
    } else {
        let pre = crates_listing(v, mi, co, (k - 1) as nat, added);
        let sub = child_listing(v, mi, co[k - 1], pre.1, (v.nodes.len() + 1) as nat);
        (pre.0 + seq![co[k - 1]] + sub.0, sub.1)
    }
}

/// The listing that the layout follows: each crate of `co` followed by the
/// modules listed below it, then, in the given order, the modules of `order`
/// that no crate claimed.
pub open spec fn layout_listing(v: ArcGraphView, order: Seq<usize>, co: Seq<usize>) -> Seq<usize> {
    let mi = module_entries(v, order);
    let cl = crates_listing(v, mi, co, co.len(), Seq::new(v.nodes.len(), |i: int| false));
    cl.0 + mi.filter(|x: usize| !cl.1[x as int])
}

/// Builds the layout: crates ordered by their crate-level dependencies (the
/// order given when those have a cycle), each followed by its modules
/// (children ordered by name and by dependencies among their subtrees),
/// then the modules that no crate claims; one item per entry, with nesting,
/// parent and source file; one edge per dependency edge between listed
/// nodes, except crate dependencies already shown by module dependencies,
/// marked downward, upward or as part of a direct or longer cycle.
#[verifier::rlimit(80)]
pub fn build_layout(graph: &ArcGraph, order: &Vec<usize>, cycles: &Vec<Cycle>) -> (ir: LayoutIR)
    requires
        parents_end(graph@),
        forall|k: int| 0 <= k < order.len() ==> #[trigger] order@[k] < graph@.nodes.len(),
        crate_entries(graph@, order@).len() <= u32::MAX,
        sibling_graphs_fit(graph@, order@),
    ensures
        exists|o: Seq<usize>|
            same_nodes(order@, o) && #[trigger] is_layout_of(graph@, cycle_views(cycles@), o, ir) && (exists|h: int|
                #[trigger] hier_prefix(graph@, o, h)) && (exists|co: Seq<usize>|
                #[trigger] crate_order(graph@, order@, co) && grouped_by_crate(graph@, co, o) && o == layout_listing(graph@, order@, co))
                && (order@.no_duplicates() && containment_forest(graph@) ==> o.no_duplicates() && o.len() == order.len()),
{
    proof {
        use_type_invariant(graph);
    }
    let n = graph.node_count();
    // crates and modules, in the given order
    let mut crate_indices: Vec<usize> = Vec::new();
    let mut module_indices: Vec<usize> = Vec::new();
    proof {
        reveal(Seq::filter);
        assert(crate_entries(graph@, order@.take(0)) =~= Seq::<usize>::empty());
        assert(module_entries(graph@, order@.take(0)) =~= Seq::<usize>::empty());
    }
    let mut i: usize = 0;
    while i < order.len()
        invariant
            forall|k: int| 0 <= k < order.len() ==> #[trigger] order@[k] < graph@.nodes.len(),
            0 <= i <= order.len(),
            crate_indices.len() + module_indices.len() == i,
            crate_indices@ == crate_entries(graph@, order@.take(i as int)),
            module_indices@ == module_entries(graph@, order@.take(i as int)),
            forall|k: int| 0 <= k < crate_indices.len() ==> order@.contains(#[trigger] crate_indices@[k]) && crate_indices@[k] < graph@.nodes.len(),
            forall|k: int| 0 <= k < module_indices.len() ==> order@.contains(#[trigger] module_indices@[k]) && module_indices@[k] < graph@.nodes.len(),
            forall|k: int| 0 <= k < i ==> crate_indices@.contains(#[trigger] order@[k]) || module_indices@.contains(order@[k]),
            forall|k: int| 0 <= k < crate_indices.len() ==> graph@.nodes[#[trigger] crate_indices@[k] as int] is Crate,
            forall|k: int| 0 <= k < module_indices.len() ==> graph@.nodes[#[trigger] module_indices@[k] as int] is Module,
        decreases order.len() - i,
    {
        let x = order[i];
        let ghost c0 = crate_indices@;
        let ghost m0 = module_indices@;
        if graph.node(x).is_crate() {
            crate_indices.push(x);
        } else {
            module_indices.push(x);
        }
        proof {
            reveal(Seq::filter);
            assert(order@.take(i + 1).drop_last() =~= order@.take(i as int));
            assert(order@.take(i + 1).last() == x);
            assert(crate_indices@ =~= crate_entries(graph@, order@.take(i + 1)));
            assert(module_indices@ =~= module_entries(graph@, order@.take(i + 1)));
            assert forall|k: int| 0 <= k < i + 1 implies crate_indices@.contains(#[trigger] order@[k]) || module_indices@.contains(order@[k]) by {
                if k < i {
                    if c0.contains(order@[k]) {
                        let t = choose|t: int| 0 <= t < c0.len() && c0[t] == order@[k];
                        assert(crate_indices@[t] == order@[k]);
                    } else {
                        let t = choose|t: int| 0 <= t < m0.len() && m0[t] == order@[k];
                        assert(module_indices@[t] == order@[k]);
                    }
                } else if graph@.nodes[x as int] is Crate {
                    assert(crate_indices@[c0.len() as int] == x);
                } else {
                    assert(module_indices@[m0.len() as int] == x);
                }
            }
            assert forall|k: int| 0 <= k < crate_indices.len() implies order@.contains(#[trigger] crate_indices@[k]) && crate_indices@[k] < graph@.nodes.len() by {
                if k < c0.len() {
                    assert(crate_indices@[k] == c0[k]);
                } else {
                    assert(order@[i as int] == x);
                }
            }
            assert forall|k: int| 0 <= k < module_indices.len() implies order@.contains(#[trigger] module_indices@[k]) && module_indices@[k] < graph@.nodes.len() by {
                if k < m0.len() {
                    assert(module_indices@[k] == m0[k]);
                } else {
                    assert(order@[i as int] == x);
                }
            }
        }
        i = i + 1;
    }
    proof {
        assert(order@.take(order.len() as int) =~= order@);
        if order@.no_duplicates() {
            lemma_filter_no_dup(order@, |x: usize| !(graph@.nodes[x as int] is Crate));
        }
        lemma_sibling_fit_sub(graph@, order@, module_indices@);
    }
    // crates by crate-level dependencies
    let sorted_crates = sort_indices(&crate_indices);
    proof {
        broadcast use vstd::seq_lib::group_to_multiset_ensures;
        assert forall|k: int| 0 <= k < sorted_crates.len() implies crate_indices@.contains(#[trigger] sorted_crates@[k]) by {
            assert(sorted_crates@.to_multiset().count(sorted_crates@[k]) > 0);
        }
        assert forall|k: int| 0 <= k < crate_indices.len() implies sorted_crates@.contains(#[trigger] crate_indices@[k]) by {
            assert(crate_indices@.to_multiset().count(crate_indices@[k]) > 0);
        }
        assert forall|k: int| 0 <= k < sorted_crates.len() implies #[trigger] sorted_crates@[k] < graph@.nodes.len() by {
            let t = choose|t: int| 0 <= t < crate_indices.len() && crate_indices@[t] == sorted_crates@[k];
        }
    }
    let crate_graph = crate_dep_graph(graph, &sorted_crates);
    let fallback = crate_indices.clone();
    proof {
        assert(fallback@ == crate_indices@);
    }
    let ordered_crates = toposort_or_keep(&crate_graph, &sorted_crates, fallback, graph);
    let ghost sc = sorted_crates@;
    // each crate followed by its modules
    let mut added: Vec<bool> = Vec::new();
    let mut a: usize = 0;
    while a < n
        invariant
            0 <= a <= n,
            added.len() == a,
            forall|j: int| 0 <= j < a ==> !added@[j],
        decreases n - a,
    {
        added.push(false);
        a = a + 1;
    }
    proof {
        assert(sorted_crates_of(graph@, order@, sc));
        assert(crate_edges_of(graph@, sc, index_edges(crate_graph)));
        assert(crate_order(graph@, order@, ordered_crates@));
    }
    let ghost ndb = order@.no_duplicates() && containment_forest(graph@) && parents_end(graph@);
    proof {
        if ndb {
            lemma_filter_no_dup(order@, |x: usize| graph@.nodes[x as int] is Crate);
            lemma_filter_no_dup(order@, |x: usize| !(graph@.nodes[x as int] is Crate));
            lemma_perm_no_dup(crate_indices@, sc);
            if sc.len() > 0 && acyclic(sc.len(), index_edges(crate_graph)) {
                let o = choose|o: Seq<usize>|
                    is_stable_order(sc.len(), index_edges(crate_graph), stable_names(graph@, sc), o) && #[trigger] weights_of(sc, o)
                        == ordered_crates@;
                lemma_stable_weights_no_dup(sc.len(), index_edges(crate_graph), stable_names(graph@, sc), sc, o);
            }
        }
    }
    let mut ordered: Vec<usize> = Vec::new();
    let ghost mut blocks: Seq<Seq<usize>> = Seq::empty();
    let ghost added_start = added@;
    assert(added_start =~= Seq::new(n as nat, |i: int| false));
    assert(blocks.flatten() =~= ordered@);
    let mut c: usize = 0;
    while c < ordered_crates.len()
        invariant
            added_start == Seq::new(n as nat, |i: int| false),
            module_indices@ == module_entries(graph@, order@),
            ordered@ == crates_listing(graph@, module_indices@, ordered_crates@, c as nat, added_start).0,
            added@ == crates_listing(graph@, module_indices@, ordered_crates@, c as nat, added_start).1,
            blocks.len() == c,
            blocks.flatten() == ordered@,
            ndb == (order@.no_duplicates() && containment_forest(graph@) && parents_end(graph@)),
            ndb ==> ordered_crates@.no_duplicates() && ordered@.no_duplicates() && module_indices@.no_duplicates(),
            forall|k: int| 0 <= k < ordered.len() && graph@.nodes[#[trigger] ordered@[k] as int] is Module ==> added@[ordered@[k] as int],
            forall|k: int| 0 <= k < ordered.len() && graph@.nodes[#[trigger] ordered@[k] as int] is Crate ==> exists|j: int|
                0 <= j < c && ordered_crates@[j] == ordered@[k],
            forall|j: int| 0 <= j < blocks.len() ==> #[trigger] block_of(graph@, ordered_crates@[j], blocks[j]),
            n == graph@.nodes.len(),
            forall|k: int| 0 <= k < ordered_crates.len() ==> sc.contains(#[trigger] ordered_crates@[k]),
            forall|k: int| 0 <= k < sc.len() ==> crate_indices@.contains(#[trigger] sc[k]),
            forall|k: int| 0 <= k < crate_indices.len() ==> order@.contains(#[trigger] crate_indices@[k]) && crate_indices@[k] < graph@.nodes.len(),
            forall|k: int| 0 <= k < module_indices.len() ==> order@.contains(#[trigger] module_indices@[k]) && module_indices@[k] < graph@.nodes.len(),
            sibling_graphs_fit(graph@, module_indices@),
            added.len() == n,
            0 <= c <= ordered_crates.len(),
            forall|k: int| 0 <= k < ordered.len() ==> order@.contains(#[trigger] ordered@[k]) && ordered@[k] < n,
            forall|v: int| 0 <= v < n && #[trigger] added@[v] ==> ordered@.contains(v as usize),
            forall|k: int| 0 <= k < c ==> ordered@.contains(#[trigger] ordered_crates@[k]),
            forall|k: int| 0 <= k < crate_indices.len() ==> graph@.nodes[#[trigger] crate_indices@[k] as int] is Crate,
            forall|k: int| 0 <= k < module_indices.len() ==> graph@.nodes[#[trigger] module_indices@[k] as int] is Module,
            hier_prefix(graph@, ordered@, ordered.len() as int),
        decreases ordered_crates.len() - c,
    {
        let ci = ordered_crates[c];
        proof {
            let t = choose|t: int| 0 <= t < sc.len() && sc[t] == ci;
            let u = choose|u: int| 0 <= u < crate_indices.len() && crate_indices@[u] == sc[t];
        }
        let ghost o0 = ordered@;
        ordered.push(ci);
        let ghost added_before = added@;
        proof {
            lemma_count_true_len(added@);
        }
        let ghost pre_listing = crates_listing(graph@, module_indices@, ordered_crates@, c as nat, added_start);
        let mut sub = collect_children_recursive(ci, graph, &module_indices, &mut added, Ghost((n + 1) as nat));
        let ghost o1 = ordered@;
        let ghost subv = sub@;
        ordered.append(&mut sub);
        proof {
            assert(ordered_crates@[c as int] == ci);
            assert(ordered@ =~= pre_listing.0 + seq![ci] + subv);
            assert(crates_listing(graph@, module_indices@, ordered_crates@, (c + 1) as nat, added_start).0 == ordered@);
            let b = seq![ci] + subv;
            assert(block_of(graph@, ci, b)) by {
                assert forall|j: int| 1 <= j < b.len() implies #[trigger] descends(graph@, ci, b[j]) by {
                    assert(b[j] == subv[j - 1]);
                }
            }
            let b0 = blocks;
            blocks = blocks.push(b);
            b0.lemma_flatten_push(b);
            assert(ordered@ =~= blocks.flatten());
            assert forall|j: int| 0 <= j < blocks.len() implies #[trigger] block_of(graph@, ordered_crates@[j], blocks[j]) by {
                if j < b0.len() {
                    assert(blocks[j] == b0[j]);
                }
            }
            assert(ordered@ =~= o1 + subv);
            assert(o1 =~= o0.push(ci));
            assert(graph@.nodes[ci as int] is Crate) by {
                let t = choose|t: int| 0 <= t < sc.len() && sc[t] == ci;
                let u = choose|u: int| 0 <= u < crate_indices.len() && crate_indices@[u] == sc[t];
            }
            lemma_hier_extend(graph@, o0, ci, subv);
            assert forall|k: int| 0 <= k < subv.len() implies #[trigger] subv[k] < graph@.nodes.len()
                && graph@.nodes[subv[k] as int] is Module && !added_before[subv[k] as int] by {
                let t = choose|t: int| 0 <= t < module_indices.len() && module_indices@[t] == subv[k];
            }
            lemma_group_step(graph@, o0, ci, subv, added_before, added@, ordered_crates@, c as int);
            assert forall|k: int| 0 <= k < ordered.len() implies order@.contains(#[trigger] ordered@[k]) && ordered@[k] < n by {
                if k < o1.len() {
                    assert(ordered@[k] == o1[k]);
                    if k == o0.len() {
                        let t = choose|t: int| 0 <= t < sc.len() && sc[t] == ci;
                        let u = choose|u: int| 0 <= u < crate_indices.len() && crate_indices@[u] == sc[t];
                    }
                } else {
                    assert(ordered@[k] == subv[k - o1.len()]);
                    let t = choose|t: int| 0 <= t < module_indices.len() && module_indices@[t] == subv[k - o1.len()];
                }
            }
            assert forall|v: int| 0 <= v < n && #[trigger] added@[v] implies ordered@.contains(v as usize) by {
                if added_before[v] {
                    let k = choose|k: int| 0 <= k < o0.len() && o0[k] == v as usize;
                    assert(ordered@[k] == v as usize);
                } else {
                    let k = choose|k: int| 0 <= k < subv.len() && subv[k] == v as usize;
                    assert(ordered@[o1.len() + k] == v as usize);
                }
            }
            assert forall|k: int| 0 <= k < c + 1 implies ordered@.contains(#[trigger] ordered_crates@[k]) by {
                if k < c {
                    let t = choose|t: int| 0 <= t < o0.len() && o0[t] == ordered_crates@[k];
                    assert(ordered@[t] == ordered_crates@[k]);
                } else {
                    assert(ordered@[o0.len() as int] == ci);
                }
            }
        }
        c = c + 1;
    }
    // modules that no crate claimed
    let ghost h = ordered.len() as int;
    let ghost oh = ordered@;
    proof {
        assert(blocks_of(graph@, ordered_crates@, oh));
    }
    let ghost added_end = added@;
    proof {
        reveal(Seq::filter);
        assert(oh + module_indices@.take(0).filter(|x: usize| !added_end[x as int]) =~= oh);
    }
    let mut m: usize = 0;
    while m < module_indices.len()
        invariant
            added@ == added_end,
            ordered@ == oh + module_indices@.take(m as int).filter(|x: usize| !added_end[x as int]),
            0 <= h <= ordered.len(),
            oh.len() == h,
            ordered@.take(h) == oh,
            hier_prefix(graph@, oh, h),
            ndb ==> ordered@.no_duplicates() && module_indices@.no_duplicates(),
            forall|k: int| 0 <= k < ordered.len() && graph@.nodes[#[trigger] ordered@[k] as int] is Module ==> added@[ordered@[k] as int]
                || exists|j: int| 0 <= j < m && module_indices@[j] == ordered@[k],
            forall|k: int| 0 <= k < module_indices.len() ==> graph@.nodes[#[trigger] module_indices@[k] as int] is Module,
            forall|k: int| h <= k < ordered.len() ==> graph@.nodes[#[trigger] ordered@[k] as int] is Module,
            n == graph@.nodes.len(),
            forall|k: int| 0 <= k < module_indices.len() ==> order@.contains(#[trigger] module_indices@[k]) && module_indices@[k] < graph@.nodes.len(),
            added.len() == n,
            0 <= m <= module_indices.len(),
            forall|k: int| 0 <= k < ordered.len() ==> order@.contains(#[trigger] ordered@[k]) && ordered@[k] < n,
            forall|v: int| 0 <= v < n && #[trigger] added@[v] ==> ordered@.contains(v as usize),
            forall|k: int| 0 <= k < m ==> ordered@.contains(#[trigger] module_indices@[k]),
            forall|k: int| 0 <= k < ordered_crates.len() ==> ordered@.contains(#[trigger] ordered_crates@[k]),
        decreases module_indices.len() - m,
    {
        let mi = module_indices[m];
        let ghost o0 = ordered@;
        if !added[mi] {
            ordered.push(mi);
        }
        proof {
            reveal(Seq::filter);
            assert(module_indices@.take(m + 1).drop_last() =~= module_indices@.take(m as int));
            assert(module_indices@.take(m + 1).last() == mi);
            assert(ordered@ =~= oh + module_indices@.take(m + 1).filter(|x: usize| !added_end[x as int]));
            assert(ordered@.take(h) =~= o0.take(h));
            assert(graph@.nodes[module_indices@[m as int] as int] is Module);
            if ndb && !added@[mi as int] {
                assert(!o0.contains(mi)) by {
                    if o0.contains(mi) {
                        let k = choose|k: int| 0 <= k < o0.len() && o0[k] == mi;
                        assert(graph@.nodes[o0[k] as int] is Module);
                        let j = choose|j: int| 0 <= j < m && module_indices@[j] == o0[k];
                        assert(module_indices@[j] == module_indices@[m as int]);
                    }
                }
                assert(ordered@.no_duplicates()) by {
                    assert forall|x: int, y: int| 0 <= x < ordered.len() && 0 <= y < ordered.len() && x != y implies ordered@[x] != ordered@[y] by {
                        if x < o0.len() && y < o0.len() {
                            assert(ordered@[x] == o0[x] && ordered@[y] == o0[y]);
                        } else if x < o0.len() {
                            assert(ordered@[x] == o0[x]);
                            assert(o0.contains(o0[x]));
                        } else if y < o0.len() {
                            assert(ordered@[y] == o0[y]);
                            assert(o0.contains(o0[y]));
                        }
                    }
                }
            }
            assert forall|k: int| 0 <= k < ordered.len() && graph@.nodes[#[trigger] ordered@[k] as int] is Module implies added@[ordered@[k] as int]
                || exists|j: int| 0 <= j < m + 1 && module_indices@[j] == ordered@[k] by {
                if k < o0.len() {
                    assert(ordered@[k] == o0[k]);
                    if !added@[o0[k] as int] {
                        let j = choose|j: int| 0 <= j < m && module_indices@[j] == o0[k];
                    }
                } else {
                    assert(module_indices@[m as int] == ordered@[k]);
                }
            }
            assert forall|k: int| h <= k < ordered.len() implies graph@.nodes[#[trigger] ordered@[k] as int] is Module by {
                if k < o0.len() {
                    assert(ordered@[k] == o0[k]);
                }
            }
            assert forall|k: int| 0 <= k < ordered.len() implies order@.contains(#[trigger] ordered@[k]) && ordered@[k] < n by {
                if k < o0.len() {
                    assert(ordered@[k] == o0[k]);
                }
            }
            assert forall|v: int| 0 <= v < n && #[trigger] added@[v] implies ordered@.contains(v as usize) by {
                let k = choose|k: int| 0 <= k < o0.len() && o0[k] == v as usize;
                assert(ordered@[k] == v as usize);
            }
            assert forall|k: int| 0 <= k < m + 1 implies ordered@.contains(#[trigger] module_indices@[k]) by {
                if k < m {
                    let t = choose|t: int| 0 <= t < o0.len() && o0[t] == module_indices@[k];
                    assert(ordered@[t] == module_indices@[k]);
                } else if added@[mi as int] {
                    let t = choose|t: int| 0 <= t < o0.len() && o0[t] == mi;
                    assert(ordered@[t] == mi);
                } else {
                    assert(ordered@[o0.len() as int] == mi);
                }
            }
            assert forall|k: int| 0 <= k < ordered_crates.len() implies ordered@.contains(#[trigger] ordered_crates@[k]) by {
                let t = choose|t: int| 0 <= t < o0.len() && o0[t] == ordered_crates@[k];
                assert(ordered@[t] == ordered_crates@[k]);
            }
        }
        m = m + 1;
    }
    proof {
        assert forall|k: int| 0 <= k < order.len() implies ordered@.contains(#[trigger] order@[k]) by {
            if crate_indices@.contains(order@[k]) {
                let t = choose|t: int| 0 <= t < crate_indices.len() && crate_indices@[t] == order@[k];
                let u = choose|u: int| 0 <= u < ordered_crates.len() && ordered_crates@[u] == crate_indices@[t];
            } else {
                let t = choose|t: int| 0 <= t < module_indices.len() && module_indices@[t] == order@[k];
            }
        }
    }
    let ir = populate_layout(graph, &ordered, cycles);
    assert(same_nodes(order@, ordered@));
    proof {
        if ndb {
            lemma_same_nodes_len(order@, ordered@);
        }
    }
    proof {
        assert forall|k: int| 0 <= k < h implies graph@.nodes[#[trigger] ordered@[k] as int] is Crate || exists|j: int|
            0 <= j < k && #[trigger] contains_child_spec(graph@, ordered@[j], ordered@[k]) by {
            assert(ordered@[k] == oh[k]);
            if !(graph@.nodes[oh[k] as int] is Crate) {
                let j = choose|j: int| 0 <= j < k && #[trigger] contains_child_spec(graph@, oh[j], oh[k]);
                assert(ordered@[j] == oh[j]);
            }
        }
        assert(hier_prefix(graph@, ordered@, h));
        assert(blocks_of(graph@, ordered_crates@, ordered@.take(h)));
        assert(grouped_by_crate(graph@, ordered_crates@, ordered@));
        assert(crate_order(graph@, order@, ordered_crates@));
        assert(module_indices@.take(module_indices.len() as int) =~= module_indices@);
        assert(ordered@ == layout_listing(graph@, order@, ordered_crates@));
    }
    ir
}


/// The first cycle that holds `x`.
pub open spec fn first_cycle(cv: Seq<Seq<usize>>, x: usize) -> Option<int>
    decreases cv.len(),
{
    if cv.len() == 0 {
        None
    } else {
        match first_cycle(cv.drop_last(), x) {
            Some(c) => Some(c),
            None => if cv.last().contains(x) {
                Some(cv.len() - 1)
            } else {
                None
            },
        }
    }
}

proof fn lemma_first_cycle(cv: Seq<Seq<usize>>, x: usize)
    ensures
        first_cycle(cv, x) matches Some(c) ==> 0 <= c < cv.len() && cv[c].contains(x) && forall|d: int|
            0 <= d < c ==> !(#[trigger] cv[d]).contains(x),
        first_cycle(cv, x) is None ==> forall|d: int| 0 <= d < cv.len() ==> !(#[trigger] cv[d]).contains(x),
    decreases cv.len(),
{
    if cv.len() > 0 {
        lemma_first_cycle(cv.drop_last(), x);
        assert forall|d: int| 0 <= d < cv.len() - 1 implies cv[d] == cv.drop_last()[d] by {}
    }
}

/// The node that stands for `x`: the first node of the first cycle holding
/// `x`, or `x` itself.
pub open spec fn rep_of(cv: Seq<Seq<usize>>, x: usize) -> usize {
    match first_cycle(cv, x) {
        Some(c) => cv[c][0],
        None => x,
    }
}

fn first_cycle_exec(cycles: &Vec<Cycle>, x: usize) -> (r: Option<usize>)
    ensures
        r matches Some(c) ==> first_cycle(cycle_views(cycles@), x) == Some(c as int),
        r is None ==> first_cycle(cycle_views(cycles@), x) is None,
{
    let ghost cv = cycle_views(cycles@);
    proof {
        lemma_first_cycle(cv, x);
    }
    let mut c: usize = 0;
    while c < cycles.len()
        invariant
            cv == cycle_views(cycles@),
            0 <= c <= cycles.len(),
            forall|d: int| 0 <= d < c ==> !(#[trigger] cv[d]).contains(x),
        decreases cycles.len() - c,
    {
        assert(cv[c as int] == cycles@[c as int].nodes@);
        if vec_has(&cycles[c].nodes, x) {
            proof {
                lemma_first_cycle(cv, x);
                assert(cv[c as int].contains(x));
                if first_cycle(cv, x) is None {
                    assert(!cv[c as int].contains(x));
                } else {
                    let f = first_cycle(cv, x)->0;
                    if f < c {
                        assert(cv[f].contains(x));
                        assert(!cv[f].contains(x));
                    } else if f > c {
                        assert(!cv[c as int].contains(x));
                    }
                }
            }
            return Some(c);
        }
        c = c + 1;
    }
    None
}

fn rep_exec(cycles: &Vec<Cycle>, x: usize) -> (r: usize)
    ensures
        r == rep_of(cycle_views(cycles@), x),
{
    match first_cycle_exec(cycles, x) {
        Some(c) => {
            proof {
                lemma_first_cycle(cycle_views(cycles@), x);
                assert(cycle_views(cycles@)[c as int] == cycles@[c as int].nodes@);
            }
            cycles[c].nodes[0]
        },
        None => x,
    }
}

/// `v` sorted by `names` of its entries (a stable insertion sort).
fn sort_by_names(v: &Vec<usize>, names: &Vec<Vec<char>>) -> (r: Vec<usize>)
    requires
        forall|i: int| 0 <= i < v.len() ==> #[trigger] v@[i] < names.len(),
    ensures
        r@.to_multiset() == v@.to_multiset(),
        r.len() == v.len(),
        forall|a: int, b: int| 0 <= a < b < r.len() ==> !lex_lt(names@[#[trigger] r@[b] as int]@, names@[#[trigger] r@[a] as int]@),
{
    broadcast use vstd::seq_lib::group_to_multiset_ensures;
    let mut r: Vec<usize> = Vec::new();
    let mut i: usize = 0;
    while i < v.len()
        invariant
            forall|j: int| 0 <= j < v.len() ==> #[trigger] v@[j] < names.len(),
            0 <= i <= v.len(),
            r.len() == i,
            r@.to_multiset() == v@.take(i as int).to_multiset(),
            forall|k: int| 0 <= k < r.len() ==> #[trigger] r@[k] < names.len(),
            forall|a: int, b: int| 0 <= a < b < r.len() ==> !lex_lt(names@[#[trigger] r@[b] as int]@, names@[#[trigger] r@[a] as int]@),
        decreases v.len() - i,
    {
        let x = v[i];
        let mut p: usize = r.len();
        while p > 0 && compare_chars(&names[x], &names[r[p - 1]]) == -1
            invariant
                forall|k: int| 0 <= k < r.len() ==> #[trigger] r@[k] < names.len(),
                x < names.len(),
                0 <= p <= r.len(),
                forall|k: int| p <= k < r.len() ==> lex_lt(names@[x as int]@, names@[#[trigger] r@[k] as int]@),
            decreases p,
        {
            p = p - 1;
        }
        let ghost r0 = r@;
        let ghost nx = names@[x as int]@;
        proof {
            if p > 0 {
                lemma_lex_total(nx, names@[r0[p - 1] as int]@);
                assert forall|k: int| 0 <= k < p implies !lex_lt(nx, names@[#[trigger] r0[k] as int]@) by {
                    if k < p - 1 {
                        lemma_lex_le_transitive(names@[r0[k] as int]@, names@[r0[p - 1] as int]@, nx);
                    }
                }
            }
        }
        r.insert(p, x);
        proof {
            vstd::seq_lib::to_multiset_insert(r0, p as int, x);
            assert(v@.take(i + 1) =~= v@.take(i as int).push(x));
            v@.take(i as int).to_multiset_ensures();
            assert forall|a: int, b: int| 0 <= a < b < r.len() implies !lex_lt(names@[#[trigger] r@[b] as int]@, names@[#[trigger] r@[a] as int]@) by {
                if b < p {
                    assert(r@[a] == r0[a] && r@[b] == r0[b]);
                } else if b == p {
                    assert(r@[a] == r0[a]);
                } else if a < p {
                    assert(r@[a] == r0[a] && r@[b] == r0[b - 1]);
                } else if a == p {
                    assert(r@[b] == r0[b - 1]);
                    lemma_lex_asymmetric(nx, names@[r0[b - 1] as int]@);
                } else {
                    assert(r@[a] == r0[a - 1] && r@[b] == r0[b - 1]);
                }
            }
        }
        i = i + 1;
    }
    assert(v@.take(v.len() as int) =~= v@);
    r
}

/// The names of all nodes (crates and modules).
fn all_node_names(graph: &ArcGraph) -> (r: Vec<Vec<char>>)
    ensures
        r.len() == graph@.nodes.len(),
        forall|i: int| 0 <= i < r.len() ==> #[trigger] r@[i]@ == node_name(graph@.nodes[i]),
{
    let n = graph.node_count();
    let mut r: Vec<Vec<char>> = Vec::new();
    let mut i: usize = 0;
    while i < n
        invariant
            n == graph@.nodes.len(),
            0 <= i <= n,
            r.len() == i,
            forall|j: int| 0 <= j < i ==> #[trigger] r@[j]@ == node_name(graph@.nodes[j]),
        decreases n - i,
    {
        r.push(str_chars(graph.node(i).name()));
        i = i + 1;
    }
    r
}

proof fn lemma_group_blocks(
    sv: Seq<Seq<usize>>,
    cedges: Seq<(usize, usize)>,
    medges: Seq<(usize, usize)>,
    go: Seq<usize>,
    group_of: Seq<usize>,
    out: Seq<usize>,
    blk: Seq<int>,
    rn: nat,
)
    requires
        is_scc_partition(rn, cedges, sv),
        is_topo_order(sv.len(), medges, go),
        group_of.len() == rn,
        forall|bb: int, j: int| 0 <= bb < sv.len() && 0 <= j < sv[bb].len() ==> group_of[#[trigger] sv[bb][j] as int] == bb,
        forall|f: int|
            0 <= f < cedges.len() && group_of[cedges[f].0 as int] != group_of[cedges[f].1 as int] ==> #[trigger] has_index_edge(
                medges,
                group_of[cedges[f].0 as int],
                group_of[cedges[f].1 as int],
            ),
        forall|f: int| 0 <= f < cedges.len() ==> (#[trigger] cedges[f]).0 < rn && cedges[f].1 < rn,
        blk.len() == out.len(),
        forall|q: int| 0 <= q < out.len() ==> 0 <= #[trigger] blk[q] < go.len(),
        forall|q1: int, q2: int| 0 <= q1 < q2 < out.len() ==> blk[q1] <= blk[q2],
        forall|q: int| 0 <= q < out.len() ==> sv[go[blk[q]] as int].contains(#[trigger] out[q]),
    ensures
        forall|e: int, i: int, j: int|
            #![trigger cedges[e], out[i], out[j]]
            0 <= e < cedges.len() && 0 <= i < out.len() && 0 <= j < out.len() && out[i] == cedges[e].0
                && out[j] == cedges[e].1 && !same_group(sv, cedges[e].0, cedges[e].1) ==> i < j,
{
    assert forall|e: int, i: int, j: int|
        #![trigger cedges[e], out[i], out[j]]
        0 <= e < cedges.len() && 0 <= i < out.len() && 0 <= j < out.len() && out[i] == cedges[e].0
            && out[j] == cedges[e].1 && !same_group(sv, cedges[e].0, cedges[e].1) implies i < j by {
        let x = cedges[e].0;
        let y = cedges[e].1;
        let ga = go[blk[i]] as int;
        let gb = go[blk[j]] as int;
        assert(sv[ga].contains(x));
        assert(sv[gb].contains(y));
        assert(go[blk[i]] < sv.len());
        assert(go[blk[j]] < sv.len());
        let jx = choose|jx: int| 0 <= jx < sv[ga].len() && sv[ga][jx] == x;
        let jy = choose|jy: int| 0 <= jy < sv[gb].len() && sv[gb][jy] == y;
        assert(group_of[sv[ga][jx] as int] == ga);
        assert(group_of[sv[gb][jy] as int] == gb);
        if ga == gb {
            assert(same_group(sv, x, y));
        }
        assert(has_index_edge(medges, group_of[x as int], group_of[y as int]));
        let f = choose|f: int| 0 <= f < medges.len() && #[trigger] medges[f] == (group_of[x as int], group_of[y as int]);
        assert(go[blk[i]] == medges[f].0 && go[blk[j]] == medges[f].1);
        assert(blk[i] < blk[j]);
        if j <= i {
            if j < i {
                assert(blk[j] <= blk[i]);
            }
        }
    }
}

/// Orders the nodes of a graph with cycles: each group of `sccs` as one
/// unit, the groups in topological order, each group's nodes by name.
fn sort_with_cycle_breaking(condensed: &DiGraph<usize, ()>, sccs: &Vec<Vec<usize>>, names: &Vec<Vec<char>>) -> (r: Vec<usize>)
    requires
        is_scc_partition(index_nodes(*condensed).len(), index_edges(*condensed), sccs.deep_view()),
        index_nodes(*condensed).len() <= u32::MAX,
        index_edges(*condensed).len() <= u32::MAX,
        forall|e: int| 0 <= e < index_edges(*condensed).len() ==> (#[trigger] index_edges(*condensed)[e]).0 < index_nodes(*condensed).len()
            && index_edges(*condensed)[e].1 < index_nodes(*condensed).len(),
        forall|i: int| 0 <= i < index_nodes(*condensed).len() ==> #[trigger] index_nodes(*condensed)[i] < names.len(),
    ensures
        forall|k: int| 0 <= k < r.len() ==> #[trigger] r@[k] < index_nodes(*condensed).len(),
        forall|x: usize| x < index_nodes(*condensed).len() ==> r@.contains(x),
        r@.no_duplicates(),
        forall|e: int, i: int, j: int|
            #![trigger index_edges(*condensed)[e], r@[i], r@[j]]
            0 <= e < index_edges(*condensed).len() && 0 <= i < r.len() && 0 <= j < r.len() && r@[i] == index_edges(
                *condensed,
            )[e].0 && r@[j] == index_edges(*condensed)[e].1 && !same_group(
                sccs.deep_view(),
                index_edges(*condensed)[e].0,
                index_edges(*condensed)[e].1,
            ) ==> i < j,
        forall|i: int, j: int|
            0 <= i < j < r.len() && #[trigger] same_group(sccs.deep_view(), r@[i], r@[j]) ==> !lex_lt(
                names@[index_nodes(*condensed)[r@[j] as int] as int]@,
                names@[index_nodes(*condensed)[r@[i] as int] as int]@,
            ),
        forall|i: int, k: int, j: int|
            0 <= i < k < j < r.len() && #[trigger] same_group(sccs.deep_view(), r@[i], r@[j]) ==> #[trigger] same_group(
                sccs.deep_view(),
                r@[i],
                r@[k],
            ),
{
    let ghost sv = sccs.deep_view();
    let rn = index_graph_node_count(condensed);
    let rne = index_graph_edge_count(condensed);
    let k = sccs.len();
    proof {
        // groups are non-empty and disjoint, so there are at most `rn` of them
        let firsts = Seq::new(k as nat, |a: int| sv[a][0]);
        assert forall|a: int, b: int| 0 <= a < firsts.len() && 0 <= b < firsts.len() && a != b implies firsts[a] != firsts[b] by {
            assert(sv[a].len() > 0 && sv[b].len() > 0);
            assert(sv[a].contains(sv[a][0]));
            assert(sv[b].contains(sv[b][0]));
            if a < b {
                assert(!sv[b].contains(sv[a][0]));
            } else {
                assert(!sv[a].contains(sv[b][0]));
            }
        }
        assert forall|a: int| 0 <= a < firsts.len() implies #[trigger] firsts[a] < rn by {
            assert(sv[a].len() > 0);
        }
        lemma_cover_bound(rn as nat, firsts);
    }
    // group of each node
    let mut group_of: Vec<usize> = Vec::new();
    let mut x: usize = 0;
    while x < rn
        invariant
            0 <= x <= rn,
            group_of.len() == x,
        decreases rn - x,
    {
        group_of.push(0);
        x = x + 1;
    }
    let mut a: usize = 0;
    while a < k
        invariant
            sv == sccs.deep_view(),
            k == sv.len(),
            is_scc_partition(rn as nat, index_edges(*condensed), sv),
            group_of.len() == rn,
            0 <= a <= k,
            forall|b: int, j: int| 0 <= b < a && 0 <= j < sv[b].len() ==> group_of@[#[trigger] sv[b][j] as int] == b,
        decreases k - a,
    {
        let members = &sccs[a];
        assert(members@ == sv[a as int]);
        let mut j: usize = 0;
        while j < members.len()
            invariant
                sv == sccs.deep_view(),
                k == sv.len(),
                a < k,
                members@ == sv[a as int],
                is_scc_partition(rn as nat, index_edges(*condensed), sv),
                group_of.len() == rn,
                0 <= j <= members.len(),
                forall|b: int, jj: int| 0 <= b < a && 0 <= jj < sv[b].len() ==> group_of@[#[trigger] sv[b][jj] as int] == b,
                forall|jj: int| 0 <= jj < j ==> group_of@[#[trigger] sv[a as int][jj] as int] == a,
            decreases members.len() - j,
        {
            let y = members[j];
            assert(sv[a as int][j as int] == y);
            proof {
                assert forall|b: int, jj: int| 0 <= b < a && 0 <= jj < sv[b].len() implies sv[b][jj] != y by {
                    assert(sv[b].contains(sv[b][jj]));
                    assert(sv[a as int].contains(y));
                }
            }
            group_of.set(y, a);
            proof {
                assert forall|jj: int| 0 <= jj < j + 1 implies group_of@[#[trigger] sv[a as int][jj] as int] == a by {
                    if jj < j {
                        assert(sv[a as int][jj] != y || group_of@[y as int] == a);
                    }
                }
            }
            j = j + 1;
        }
        a = a + 1;
    }
    // one node per group, an edge between groups joined by an edge
    let mut meta = index_graph_new();
    let mut b: usize = 0;
    while b < k
        invariant
            0 <= b <= k <= rn <= u32::MAX,
            index_nodes(meta).len() == b,
            index_edges(meta).len() == 0,
        decreases k - b,
    {
        index_graph_add_node(&mut meta, b);
        b = b + 1;
    }
    let mut e: usize = 0;
    while e < rne
        invariant
            sv == sccs.deep_view(),
            k == sv.len(),
            k <= rn,
            rn <= u32::MAX,
            rne <= u32::MAX,
            index_edges(meta).len() <= e,
            rn == index_nodes(*condensed).len(),
            rne == index_edges(*condensed).len(),
            is_scc_partition(rn as nat, index_edges(*condensed), sv),
            forall|f: int| 0 <= f < rne ==> (#[trigger] index_edges(*condensed)[f]).0 < rn && index_edges(*condensed)[f].1 < rn,
            group_of.len() == rn,
            forall|bb: int, j: int| 0 <= bb < k && 0 <= j < sv[bb].len() ==> group_of@[#[trigger] sv[bb][j] as int] == bb,
            index_nodes(meta).len() == k,
            index_edges(meta).no_duplicates(),
            forall|f: int| 0 <= f < index_edges(meta).len() ==> (#[trigger] index_edges(meta)[f]).0 < k
                && index_edges(meta)[f].1 < index_edges(meta)[f].0,
            0 <= e <= rne,
            forall|f: int|
                0 <= f < e && group_of@[index_edges(*condensed)[f].0 as int] != group_of@[index_edges(*condensed)[f].1 as int]
                    ==> #[trigger] has_index_edge(
                    index_edges(meta),
                    group_of@[index_edges(*condensed)[f].0 as int],
                    group_of@[index_edges(*condensed)[f].1 as int],
                ),
        decreases rne - e,
    {
        let (x, y) = index_graph_edge(condensed, e);
        let ma = group_of[x];
        let mb = group_of[y];
        proof {
            assert(in_some_scc(sv, x));
            assert(in_some_scc(sv, y));
            let ax = choose|ax: int| 0 <= ax < sv.len() && #[trigger] sv[ax].contains(x);
            let ay = choose|ay: int| 0 <= ay < sv.len() && #[trigger] sv[ay].contains(y);
            let jx = choose|jx: int| 0 <= jx < sv[ax].len() && sv[ax][jx] == x;
            let jy = choose|jy: int| 0 <= jy < sv[ay].len() && sv[ay][jy] == y;
            assert(group_of@[sv[ax][jx] as int] == ax);
            assert(group_of@[sv[ay][jy] as int] == ay);
            assert(index_edges(*condensed)[e as int] == (x, y));
            assert(ay <= ax);
        }
        let ghost me0 = index_edges(meta);
        if ma != mb && !index_graph_contains_edge(&meta, ma, mb) {
            let ghost old_edges = index_edges(meta);
            proof {
                let pushed = old_edges.push((ma, mb));
                assert forall|f: int, g: int| 0 <= f < g < pushed.len() implies pushed[f] != pushed[g] by {
                    if g == old_edges.len() {
                        assert(pushed[f] == old_edges[f]);
                    } else {
                        assert(old_edges[f] != old_edges[g]);
                    }
                }
                assert forall|f: int| 0 <= f < pushed.len() implies (#[trigger] pushed[f]).0 < k && pushed[f].1 < k by {
                    if f < old_edges.len() {
                        assert(pushed[f] == old_edges[f]);
                    }
                }
            }
            index_graph_add_edge(&mut meta, ma, mb);
            proof {
                assert forall|f: int, g: int| 0 <= f < g < index_edges(meta).len() implies index_edges(meta)[f] != index_edges(meta)[g] by {
                    if g == old_edges.len() {
                        assert(index_edges(meta)[f] == old_edges[f]);
                        assert(!has_index_edge(old_edges, ma, mb));
                    } else {
                        assert(index_edges(meta)[f] == old_edges[f] && index_edges(meta)[g] == old_edges[g]);
                    }
                }
                assert forall|f: int| 0 <= f < index_edges(meta).len() implies (#[trigger] index_edges(meta)[f]).0 < k
                    && index_edges(meta)[f].1 < index_edges(meta)[f].0 by {
                    if f < old_edges.len() {
                        assert(index_edges(meta)[f] == old_edges[f]);
                    }
                }
            }
        }
        proof {
            let me1 = index_edges(meta);
            assert(me1.len() >= me0.len());
            assert forall|w: int| 0 <= w < me0.len() implies me1[w] == me0[w] by {}
            assert forall|f: int|
                0 <= f < e + 1 && group_of@[index_edges(*condensed)[f].0 as int] != group_of@[index_edges(*condensed)[f].1 as int]
                    implies #[trigger] has_index_edge(
                    me1,
                    group_of@[index_edges(*condensed)[f].0 as int],
                    group_of@[index_edges(*condensed)[f].1 as int],
                ) by {
                let a2 = group_of@[index_edges(*condensed)[f].0 as int];
                let b2 = group_of@[index_edges(*condensed)[f].1 as int];
                if f < e {
                    assert(has_index_edge(me0, a2, b2));
                    let w = choose|w: int| 0 <= w < me0.len() && #[trigger] me0[w] == (a2, b2);
                    assert(me1[w] == me0[w]);
                } else {
                    assert(index_edges(*condensed)[f] == (x, y));
                    if me1.len() > me0.len() {
                        assert(me1[me0.len() as int] == (ma, mb));
                    }
                }
            }
        }
        e = e + 1;
    }
    // the groups in topological order: an edge leads to an earlier group, so
    // listing the groups from last to first is such an order
    proof {
        let w = Seq::new(k as nat, |i: int| (k - 1 - i) as usize);
        assert forall|f: int, p: int, q: int|
            #![trigger index_edges(meta)[f], w[p], w[q]]
            0 <= f < index_edges(meta).len() && 0 <= p < w.len() && 0 <= q < w.len() && w[p] == index_edges(meta)[f].0
                && w[q] == index_edges(meta)[f].1 implies p < q by {}
        assert forall|p: int, q: int| 0 <= p < w.len() && 0 <= q < w.len() && p != q implies w[p] != w[q] by {}
        assert(is_topo_order(k as nat, index_edges(meta), w));
    }
    let group_order = match index_graph_toposort(&meta) {
        Some(o) => o,
        None => {
            proof {
                let w = Seq::new(k as nat, |i: int| (k - 1 - i) as usize);
                assert(is_topo_order(k as nat, index_edges(meta), w));
            }
            Vec::new()
        },
    };
    proof {
        assert(is_topo_order(k as nat, index_edges(meta), group_order@));
    }
    // names of the condensed nodes
    let mut cond_names: Vec<Vec<char>> = Vec::new();
    let mut c: usize = 0;
    while c < rn
        invariant
            rn == index_nodes(*condensed).len(),
            rn <= u32::MAX,
            forall|i: int| 0 <= i < rn ==> #[trigger] index_nodes(*condensed)[i] < names.len(),
            0 <= c <= rn,
            cond_names.len() == c,
            forall|i: int| 0 <= i < c ==> #[trigger] cond_names@[i]@ == names@[index_nodes(*condensed)[i] as int]@,
        decreases rn - c,
    {
        let w = index_graph_weight(condensed, c);
        cond_names.push(names[w].clone());
        c = c + 1;
    }
    let mut out: Vec<usize> = Vec::new();
    let ghost mut blk: Seq<int> = Seq::empty();
    let mut t: usize = 0;
    while t < group_order.len()
        invariant
            blk.len() == out.len(),
            forall|q: int| 0 <= q < out.len() ==> 0 <= #[trigger] blk[q] < t,
            forall|q1: int, q2: int| 0 <= q1 < q2 < out.len() ==> blk[q1] <= blk[q2],
            forall|q: int| 0 <= q < out.len() ==> sv[group_order@[blk[q]] as int].contains(#[trigger] out@[q]),
            t <= group_order.len(),
            group_order.len() == k,
            sv == sccs.deep_view(),
            k == sv.len(),
            is_scc_partition(rn as nat, index_edges(*condensed), sv),
            is_topo_order(k as nat, index_edges(meta), group_order@),
            cond_names.len() == rn,
            forall|q1: int, q2: int| 0 <= q1 < q2 < out.len() && blk[q1] == blk[q2] ==> !lex_lt(
                cond_names@[#[trigger] out@[q2] as int]@,
                cond_names@[#[trigger] out@[q1] as int]@,
            ),
            0 <= t <= group_order.len(),
            forall|q: int| 0 <= q < out.len() ==> #[trigger] out@[q] < rn,
            forall|tt: int, j: int| 0 <= tt < t && 0 <= j < sv[group_order@[tt] as int].len() ==> out@.contains(#[trigger] sv[group_order@[tt] as int][j]),
            out@.no_duplicates(),
            forall|q: int, tt: int| #![trigger out@[q], group_order@[tt]] 0 <= q < out.len() && t <= tt < group_order.len() ==> !sv[group_order@[tt] as int].contains(out@[q]),
        decreases group_order.len() - t,
    {
        let g = group_order[t];
        assert(sccs@[g as int]@ == sv[g as int]);
        let members = sort_by_names(&sccs[g], &cond_names);
        let ghost o0 = out@;
        let ghost mv = members@;
        let mut mm = members;
        out.append(&mut mm);
        proof {
            broadcast use vstd::seq_lib::group_to_multiset_ensures;
            assert(out@ =~= o0 + mv);
            let b0 = blk;
            blk = blk + Seq::new(mv.len(), |q: int| t as int);
            assert forall|q: int| 0 <= q < out.len() implies 0 <= #[trigger] blk[q] < t + 1 by {
                if q < o0.len() {
                    assert(blk[q] == b0[q]);
                }
            }
            assert forall|q1: int, q2: int| 0 <= q1 < q2 < out.len() implies blk[q1] <= blk[q2] by {
                if q2 < o0.len() {
                    assert(blk[q1] == b0[q1] && blk[q2] == b0[q2]);
                } else if q1 < o0.len() {
                    assert(blk[q1] == b0[q1]);
                }
            }
            assert forall|q1: int, q2: int| 0 <= q1 < q2 < out.len() && blk[q1] == blk[q2] implies !lex_lt(
                cond_names@[#[trigger] out@[q2] as int]@,
                cond_names@[#[trigger] out@[q1] as int]@,
            ) by {
                if q2 < o0.len() {
                    assert(blk[q1] == b0[q1] && blk[q2] == b0[q2]);
                    assert(out@[q1] == o0[q1] && out@[q2] == o0[q2]);
                } else if q1 < o0.len() {
                    assert(blk[q1] == b0[q1]);
                } else {
                    assert(out@[q1] == mv[q1 - o0.len()]);
                    assert(out@[q2] == mv[q2 - o0.len()]);
                }
            }
            assert forall|q: int| 0 <= q < out.len() implies sv[group_order@[blk[q]] as int].contains(#[trigger] out@[q]) by {
                if q < o0.len() {
                    assert(out@[q] == o0[q]);
                    assert(blk[q] == b0[q]);
                } else {
                    assert(blk[q] == t);
                    assert(out@[q] == mv[q - o0.len()]);
                    assert(mv.to_multiset().count(mv[q - o0.len()]) > 0);
                }
            }
            assert forall|q: int| 0 <= q < out.len() implies #[trigger] out@[q] < rn by {
                if q >= o0.len() {
                    assert(mv.to_multiset().count(mv[q - o0.len()]) > 0);
                    assert(sv[g as int].contains(mv[q - o0.len()]));
                    let j = choose|j: int| 0 <= j < sv[g as int].len() && sv[g as int][j] == mv[q - o0.len()];
                }
            }
            assert forall|tt: int, j: int| 0 <= tt < t + 1 && 0 <= j < sv[group_order@[tt] as int].len() implies out@.contains(#[trigger] sv[group_order@[tt] as int][j]) by {
                if tt < t {
                    let q = choose|q: int| 0 <= q < o0.len() && o0[q] == sv[group_order@[tt] as int][j];
                    assert(out@[q] == o0[q]);
                } else {
                    let y = sv[g as int][j];
                    assert(sv[g as int].to_multiset().count(y) > 0);
                    assert(mv.to_multiset().count(y) > 0);
                    let q = choose|q: int| 0 <= q < mv.len() && mv[q] == y;
                    assert(out@[o0.len() + q] == y);
                }
            }
            lemma_same_multiset_no_dups(sv[g as int], mv);
            assert forall|i: int, j: int| 0 <= i < o0.len() && 0 <= j < mv.len() implies o0[i] != mv[j] by {
                assert(mv.to_multiset().count(mv[j]) > 0);
                assert(sv[g as int].contains(mv[j]));
                assert(out@[i] == o0[i]);
            }
            vstd::seq_lib::lemma_no_dup_in_concat(o0, mv);
            assert forall|q: int, tt: int| #![trigger out@[q], group_order@[tt]] 0 <= q < out.len() && t + 1 <= tt < group_order.len() implies !sv[group_order@[tt] as int].contains(out@[q]) by {
                if q < o0.len() {
                    assert(out@[q] == o0[q]);
                } else {
                    let x = mv[q - o0.len()];
                    assert(mv.to_multiset().count(x) > 0);
                    assert(sv[g as int].contains(x));
                    assert(group_order@[tt] != group_order@[t as int]);
                    let a = group_order@[tt] as int;
                    let b = g as int;
                    if a < b {
                        assert(!sv[b].contains(x) || !sv[a].contains(x));
                    } else {
                        assert(!sv[a].contains(x) || !sv[b].contains(x));
                    }
                }
            }
        }
        t = t + 1;
    }
    proof {
        assert forall|x: usize| x < rn implies out@.contains(x) by {
            assert(in_some_scc(sv, x));
            let a = choose|a: int| 0 <= a < sv.len() && #[trigger] sv[a].contains(x);
            let j = choose|j: int| 0 <= j < sv[a].len() && sv[a][j] == x;
            lemma_cover(k as nat, group_order@, a as usize);
            let tt = choose|tt: int| 0 <= tt < group_order.len() && group_order@[tt] == a as usize;
        }
        lemma_group_blocks(sv, index_edges(*condensed), index_edges(meta), group_order@, group_of@, out@, blk, rn as nat);
        assert forall|i: int, j: int|
            0 <= i < j < out.len() && #[trigger] same_group(sv, out@[i], out@[j]) implies !lex_lt(
            names@[index_nodes(*condensed)[out@[j] as int] as int]@,
            names@[index_nodes(*condensed)[out@[i] as int] as int]@,
        ) by {
            let a = choose|a: int| 0 <= a < sv.len() && #[trigger] sv[a].contains(out@[i]) && sv[a].contains(out@[j]);
            let gi = group_order@[blk[i]] as int;
            let gj = group_order@[blk[j]] as int;
            assert(sv[gi].contains(out@[i]));
            assert(sv[gj].contains(out@[j]));
            assert(gi == a) by {
                if gi < a {
                    assert(!sv[a].contains(out@[i]));
                } else if a < gi {
                    assert(!sv[gi].contains(out@[i]));
                }
            }
            assert(gj == a) by {
                if gj < a {
                    assert(!sv[a].contains(out@[j]));
                } else if a < gj {
                    assert(!sv[gj].contains(out@[j]));
                }
            }
            assert(blk[i] == blk[j]);
            assert(cond_names@[out@[i] as int]@ == names@[index_nodes(*condensed)[out@[i] as int] as int]@);
            assert(cond_names@[out@[j] as int]@ == names@[index_nodes(*condensed)[out@[j] as int] as int]@);
        }
        assert forall|i: int, k: int, j: int|
            0 <= i < k < j < out.len() && #[trigger] same_group(sv, out@[i], out@[j]) implies #[trigger] same_group(sv, out@[i], out@[k]) by {
            let a = choose|a: int| 0 <= a < sv.len() && #[trigger] sv[a].contains(out@[i]) && sv[a].contains(out@[j]);
            let gi = group_order@[blk[i]] as int;
            let gj = group_order@[blk[j]] as int;
            assert(sv[gi].contains(out@[i]));
            assert(sv[gj].contains(out@[j]));
            assert(gi == a) by {
                if gi < a {
                    assert(!sv[a].contains(out@[i]));
                } else if a < gi {
                    assert(!sv[gi].contains(out@[i]));
                }
            }
            assert(gj == a) by {
                if gj < a {
                    assert(!sv[a].contains(out@[j]));
                } else if a < gj {
                    assert(!sv[gj].contains(out@[j]));
                }
            }
            assert(blk[i] == blk[j]);
            assert(blk[i] <= blk[k] && blk[k] <= blk[j]);
            assert(sv[group_order@[blk[k]] as int].contains(out@[k]));
        }
    }
    out
}

/// A sequence with the elements of a duplicate-free one, counted alike, is
/// duplicate-free.
proof fn lemma_same_multiset_no_dups(a: Seq<usize>, b: Seq<usize>)
    requires
        a.no_duplicates(),
        a.to_multiset() == b.to_multiset(),
    ensures
        b.no_duplicates(),
{
    a.lemma_multiset_has_no_duplicates();
    b.lemma_multiset_has_no_duplicates_conv();
}

/// `rn` bounds the number of distinct values below `rn`.
proof fn lemma_cover_bound(rn: nat, s: Seq<usize>)
    requires
        s.no_duplicates(),
        forall|a: int| 0 <= a < s.len() ==> #[trigger] s[a] < rn,
    ensures
        s.len() <= rn,
{
    let t = Seq::new(s.len(), |a: int| s[a] as int);
    assert(t.no_duplicates());
    t.unique_seq_to_set();
    vstd::set_lib::lemma_int_range(0, rn as int);
    assert forall|x: int| t.to_set().contains(x) implies vstd::set_lib::set_int_range(0, rn as int).contains(x) by {
        let a = choose|a: int| 0 <= a < t.len() && t[a] == x;
    }
    vstd::set_lib::lemma_len_subset(t.to_set(), vstd::set_lib::set_int_range(0, rn as int));
}

/// `v` stands for some node below `n`.
pub open spec fn stands_for_some(cv: Seq<Seq<usize>>, n: nat, v: usize) -> bool {
    exists|z: usize| z < n && rep_of(cv, z) == v
}

/// No node lies on two of the cycles.
pub open spec fn cycles_disjoint(cv: Seq<Seq<usize>>) -> bool {
    forall|a: int, b: int, v: usize|
        0 <= a < cv.len() && 0 <= b < cv.len() && a != b && #[trigger] cv[a].contains(v) ==> !#[trigger] cv[b].contains(v)
}

/// The node standing for each node of the graph.
fn node_reps(n: usize, cycles: &Vec<Cycle>) -> (r: Vec<usize>)
    requires
        forall|c: int, j: int| 0 <= c < cycles.len() && 0 <= j < cycles@[c].nodes.len() ==> #[trigger] cycles@[c].nodes@[j] < n,
    ensures
        r.len() == n,
        forall|x: int| 0 <= x < n ==> #[trigger] r@[x] == rep_of(cycle_views(cycles@), x as usize),
        forall|x: int| 0 <= x < n ==> #[trigger] r@[x] < n,
{
    let ghost cv = cycle_views(cycles@);
    let mut r: Vec<usize> = Vec::new();
    let mut x: usize = 0;
    while x < n
        invariant
            cv == cycle_views(cycles@),
            forall|c: int, j: int| 0 <= c < cycles.len() && 0 <= j < cycles@[c].nodes.len() ==> #[trigger] cycles@[c].nodes@[j] < n,
            0 <= x <= n,
            r.len() == x,
            forall|y: int| 0 <= y < x ==> #[trigger] r@[y] == rep_of(cv, y as usize),
            forall|y: int| 0 <= y < x ==> #[trigger] r@[y] < n,
        decreases n - x,
    {
        let rx = rep_exec(cycles, x);
        proof {
            lemma_first_cycle(cv, x);
            if let Some(c) = first_cycle(cv, x) {
                assert(cv[c] == cycles@[c].nodes@);
                assert(cycles@[c].nodes@[0] < n);
            }
        }
        r.push(rx);
        x = x + 1;
    }
    r
}

/// Dependency edge `f` of the graph joins a node standing for `reps[pq.0]`
/// to one standing for `reps[pq.1]`, two different units.
pub open spec fn unit_edge_from(g: ArcGraphView, rep: Seq<usize>, reps: Seq<usize>, pq: (usize, usize), f: int) -> bool {
    &&& !(g.edges[f].2 is Contains)
    &&& rep[g.edges[f].0 as int] == reps[pq.0 as int]
    &&& rep[g.edges[f].1 as int] == reps[pq.1 as int]
    &&& rep[g.edges[f].0 as int] != rep[g.edges[f].1 as int]
}

/// Some dependency edge below `lim` joins the units of `pq`.
pub open spec fn unit_edge_found(g: ArcGraphView, rep: Seq<usize>, reps: Seq<usize>, pq: (usize, usize), lim: int) -> bool {
    exists|f: int| #![trigger g.edges[f]] 0 <= f < lim && unit_edge_from(g, rep, reps, pq, f)
}

/// The graph of the dependencies between the nodes of `reps`: node `p`
/// stands for `reps[p]`, an edge joins `p` to `q` where a dependency edge
/// of `graph` joins a node standing for `reps[p]` to one standing for
/// `reps[q] != reps[p]`, each pair once.
fn rep_dep_graph(graph: &ArcGraph, rep: &Vec<usize>, reps: &Vec<usize>) -> (g: DiGraph<usize, ()>)
    requires
        rep.len() == graph@.nodes.len(),
        forall|x: int| 0 <= x < rep.len() ==> #[trigger] rep@[x] < rep.len(),
        forall|a: int, b: int| 0 <= a < b < reps.len() ==> reps@[a] < reps@[b],
        forall|a: int| 0 <= a < reps.len() ==> #[trigger] reps@[a] < rep.len(),
        forall|x: int| 0 <= x < rep.len() ==> reps@.contains(#[trigger] rep@[x]),
    ensures
        index_nodes(g) == reps@,
        index_edges(g).len() <= graph@.edges.len(),
        forall|e: int| 0 <= e < index_edges(g).len() ==> (#[trigger] index_edges(g)[e]).0 < reps.len()
            && index_edges(g)[e].1 < reps.len(),
        forall|f: int, p: int, q: int|
            #![trigger graph@.edges[f], reps@[p], reps@[q]]
            0 <= f < graph@.edges.len() && !(graph@.edges[f].2 is Contains) && 0 <= p < reps.len() && 0 <= q
                < reps.len() && reps@[p] == rep@[graph@.edges[f].0 as int] && reps@[q] == rep@[graph@.edges[f].1 as int]
                && p != q ==> has_index_edge(index_edges(g), p as usize, q as usize),
        forall|h: int| 0 <= h < index_edges(g).len() ==> #[trigger] unit_edge_found(
            graph@,
            rep@,
            reps@,
            index_edges(g)[h],
            graph@.edges.len() as int,
        ),
{
    proof {
        use_type_invariant(graph);
    }
    let n = graph.node_count();
    let u = reps.len();
    proof {
        // `reps` is strictly increasing below `n`
        assert(reps@.no_duplicates()) by {
            assert forall|a: int, b: int| 0 <= a < reps.len() && 0 <= b < reps.len() && a != b implies reps@[a] != reps@[b] by {
                if a < b {
                    assert(reps@[a] < reps@[b]);
                } else {
                    assert(reps@[b] < reps@[a]);
                }
            }
        }
        lemma_cover_bound(n as nat, reps@);
    }
    // position of each representative among `reps`
    let mut pos: Vec<usize> = Vec::new();
    let mut x: usize = 0;
    while x < n
        invariant
            0 <= x <= n,
            pos.len() == x,
            forall|y: int| 0 <= y < x ==> #[trigger] pos@[y] == 0,
        decreases n - x,
    {
        pos.push(0);
        x = x + 1;
    }
    let mut p: usize = 0;
    while p < u
        invariant
            n == rep.len(),
            u == reps.len(),
            pos.len() == n,
            forall|a: int| 0 <= a < reps.len() ==> #[trigger] reps@[a] < rep.len(),
            forall|a: int, b: int| 0 <= a < b < reps.len() ==> reps@[a] < reps@[b],
            0 <= p <= u,
            forall|a: int| 0 <= a < p ==> pos@[#[trigger] reps@[a] as int] == a,
        decreases u - p,
    {
        let ghost old_pos = pos@;
        pos.set(reps[p], p);
        proof {
            assert forall|a: int| 0 <= a < p + 1 implies pos@[#[trigger] reps@[a] as int] == a by {
                if a < p {
                    assert(reps@[a] < reps@[p as int]);
                    assert(pos@[reps@[a] as int] == old_pos[reps@[a] as int]);
                }
            }
        }
        p = p + 1;
    }
    let mut g = index_graph_new();
    let mut q: usize = 0;
    while q < u
        invariant
            0 <= q <= u,
            u == reps.len(),
            u <= n,
            n <= u32::MAX,
            index_nodes(g) == reps@.take(q as int),
            index_edges(g).len() == 0,
        decreases u - q,
    {
        index_graph_add_node(&mut g, reps[q]);
        assert(reps@.take(q as int).push(reps@[q as int]) =~= reps@.take(q + 1));
        q = q + 1;
    }
    assert(reps@.take(u as int) =~= reps@);
    let ne = graph.edge_count();
    let mut e: usize = 0;
    while e < ne
        invariant
            n == graph@.nodes.len(),
            n == rep.len(),
            ne == graph@.edges.len(),
            u == reps.len(),
            u <= n,
            n <= u32::MAX,
            ne <= u32::MAX,
            index_edges(g).len() <= e,
            pos.len() == n,
            forall|x: int| 0 <= x < rep.len() ==> #[trigger] rep@[x] < rep.len(),
            forall|x: int| 0 <= x < rep.len() ==> reps@.contains(#[trigger] rep@[x]),
            forall|a: int| 0 <= a < reps.len() ==> pos@[#[trigger] reps@[a] as int] == a,
            index_nodes(g) == reps@,
            index_edges(g).no_duplicates(),
            forall|f: int| 0 <= f < index_edges(g).len() ==> (#[trigger] index_edges(g)[f]).0 < u
                && index_edges(g)[f].1 < u,
            0 <= e <= ne,
            forall|a: int, b: int| 0 <= a < b < reps.len() ==> reps@[a] < reps@[b],
            forall|f: int, p: int, q: int|
                #![trigger graph@.edges[f], reps@[p], reps@[q]]
                0 <= f < e && !(graph@.edges[f].2 is Contains) && 0 <= p < reps.len() && 0 <= q < reps.len()
                    && reps@[p] == rep@[graph@.edges[f].0 as int] && reps@[q] == rep@[graph@.edges[f].1 as int] && p
                    != q ==> has_index_edge(index_edges(g), p as usize, q as usize),
            forall|h: int| 0 <= h < index_edges(g).len() ==> #[trigger] unit_edge_found(
                graph@,
                rep@,
                reps@,
                index_edges(g)[h],
                e as int,
            ),
        decreases ne - e,
    {
        let ghost edges_before = index_edges(g);
        let (src, dst, w) = graph.edge(e);
        if !w.is_contains() {
            let rs = rep[src];
            let rd = rep[dst];
            if rs != rd {
                let ps = pos[rs];
                let pd = pos[rd];
                proof {
                    assert(reps@.contains(rep@[src as int]));
                    assert(reps@.contains(rep@[dst as int]));
                    let a = choose|a: int| 0 <= a < reps.len() && reps@[a] == rs;
                    let b = choose|b: int| 0 <= b < reps.len() && reps@[b] == rd;
                    assert(pos@[reps@[a] as int] == a);
                    assert(pos@[reps@[b] as int] == b);
                }
                let present = index_graph_contains_edge(&g, ps, pd);
                if !present {
                    let ghost old_edges = index_edges(g);
                    proof {
                        let pushed = old_edges.push((ps, pd));
                        assert forall|f: int, h: int| 0 <= f < h < pushed.len() implies pushed[f] != pushed[h] by {
                            if h == old_edges.len() {
                                assert(pushed[f] == old_edges[f]);
                            } else {
                                assert(old_edges[f] != old_edges[h]);
                            }
                        }
                        assert forall|f: int| 0 <= f < pushed.len() implies (#[trigger] pushed[f]).0 < u && pushed[f].1 < u by {
                            if f < old_edges.len() {
                                assert(pushed[f] == old_edges[f]);
                            }
                        }
                    }
                    index_graph_add_edge(&mut g, ps, pd);
                    proof {
                        assert(index_edges(g)[old_edges.len() as int] == (ps, pd));
                        assert forall|f: int, h: int| 0 <= f < h < index_edges(g).len() implies index_edges(g)[f] != index_edges(g)[h] by {
                            if h == old_edges.len() {
                                assert(index_edges(g)[f] == old_edges[f]);
                            } else {
                                assert(index_edges(g)[f] == old_edges[f] && index_edges(g)[h] == old_edges[h]);
                            }
                        }
                        assert forall|f: int| 0 <= f < index_edges(g).len() implies (#[trigger] index_edges(g)[f]).0 < u
                            && index_edges(g)[f].1 < u by {
                            if f < old_edges.len() {
                                assert(index_edges(g)[f] == old_edges[f]);
                            }
                        }
                    }
                }
                proof {
                    let ge = index_edges(g);
                    assert(has_index_edge(ge, ps, pd));
                    assert(ge.len() >= edges_before.len());
                    assert forall|h: int| 0 <= h < edges_before.len() implies ge[h] == edges_before[h] by {}
                    assert forall|f: int, p: int, q: int|
                        #![trigger graph@.edges[f], reps@[p], reps@[q]]
                        0 <= f < e + 1 && !(graph@.edges[f].2 is Contains) && 0 <= p < reps.len() && 0 <= q < reps.len()
                            && reps@[p] == rep@[graph@.edges[f].0 as int] && reps@[q] == rep@[graph@.edges[f].1 as int]
                            && p != q implies has_index_edge(ge, p as usize, q as usize) by {
                        if f < e {
                            assert(has_index_edge(edges_before, p as usize, q as usize));
                            let k = choose|k: int| 0 <= k < edges_before.len() && #[trigger] edges_before[k] == (p as usize, q as usize);
                            assert(ge[k] == edges_before[k]);
                        } else {
                            assert(pos@[reps@[p] as int] == p);
                            assert(pos@[reps@[q] as int] == q);
                        }
                    }
                    assert forall|h: int| 0 <= h < ge.len() implies #[trigger] unit_edge_found(
                        graph@,
                        rep@,
                        reps@,
                        ge[h],
                        e + 1,
                    ) by {
                        if h < edges_before.len() {
                            assert(ge[h] == edges_before[h]);
                            assert(unit_edge_found(graph@, rep@, reps@, edges_before[h], e as int));
                            let f = choose|f: int| #![trigger graph@.edges[f]] 0 <= f < e && unit_edge_from(graph@, rep@, reps@, edges_before[h], f);
                            assert(unit_edge_from(graph@, rep@, reps@, ge[h], f));
                        } else {
                            assert(ge[h] == (ps, pd));
                            assert(graph@.edges[e as int].0 == src);
                            assert(unit_edge_from(graph@, rep@, reps@, ge[h], e as int));
                        }
                    }
                }
            } else {
                proof {
                    assert forall|f: int, p: int, q: int|
                        #![trigger graph@.edges[f], reps@[p], reps@[q]]
                        0 <= f < e + 1 && !(graph@.edges[f].2 is Contains) && 0 <= p < reps.len() && 0 <= q < reps.len()
                            && reps@[p] == rep@[graph@.edges[f].0 as int] && reps@[q] == rep@[graph@.edges[f].1 as int]
                            && p != q implies has_index_edge(index_edges(g), p as usize, q as usize) by {
                        if f == e {
                            if p < q {
                                assert(reps@[p] < reps@[q]);
                            } else {
                                assert(reps@[q] < reps@[p]);
                            }
                        }
                    }
                }
            }
        }
        proof {
            assert forall|h: int| 0 <= h < index_edges(g).len() implies #[trigger] unit_edge_found(
                graph@,
                rep@,
                reps@,
                index_edges(g)[h],
                e + 1,
            ) by {
                if unit_edge_found(graph@, rep@, reps@, index_edges(g)[h], e as int) {
                    let f = choose|f: int| #![trigger graph@.edges[f]] 0 <= f < e && unit_edge_from(graph@, rep@, reps@, index_edges(g)[h], f);
                    assert(unit_edge_from(graph@, rep@, reps@, index_edges(g)[h], f));
                }
            }
        }
        e = e + 1;
    }
    proof {
        assert forall|h: int| 0 <= h < index_edges(g).len() implies #[trigger] unit_edge_found(
            graph@,
            rep@,
            reps@,
            index_edges(g)[h],
            graph@.edges.len() as int,
        ) by {
            assert(unit_edge_found(graph@, rep@, reps@, index_edges(g)[h], e as int));
            let f = choose|f: int| #![trigger graph@.edges[f]] 0 <= f < e && unit_edge_from(graph@, rep@, reps@, index_edges(g)[h], f);
            assert(unit_edge_from(graph@, rep@, reps@, index_edges(g)[h], f));
        }
    }
    g
}

/// Dependency edge `f` of the graph joins two different units: nodes that
/// stand for different nodes (a cycle's members stand for its first node).
pub open spec fn crosses_units(g: ArcGraphView, cv: Seq<Seq<usize>>, f: int) -> bool {
    &&& 0 <= f < g.edges.len()
    &&& !(g.edges[f].2 is Contains)
    &&& rep_of(cv, g.edges[f].0) != rep_of(cv, g.edges[f].1)
}

/// The units can be ranked so that every dependency between two of them
/// climbs in rank: the dependencies between units form no loop.
pub open spec fn units_acyclic(g: ArcGraphView, cv: Seq<Seq<usize>>) -> bool {
    exists|rank: spec_fn(usize) -> nat| #[trigger] ranks_units(g, cv, rank)
}

/// Every dependency between two units climbs in `rank`.
pub open spec fn ranks_units(g: ArcGraphView, cv: Seq<Seq<usize>>, rank: spec_fn(usize) -> nat) -> bool {
    forall|f: int| #[trigger] crosses_units(g, cv, f) ==> rank(rep_of(cv, g.edges[f].0)) < rank(rep_of(cv, g.edges[f].1))
}

proof fn lemma_condensed_acyclic(
    g: ArcGraphView,
    cv: Seq<Seq<usize>>,
    rep: Seq<usize>,
    reps: Seq<usize>,
    edges: Seq<(usize, usize)>,
)
    requires
        units_acyclic(g, cv),
        rep.len() == g.nodes.len(),
        forall|x: int| 0 <= x < rep.len() ==> #[trigger] rep[x] == rep_of(cv, x as usize),
        forall|e: int| 0 <= e < g.edges.len() ==> (#[trigger] g.edges[e]).0 < g.nodes.len() && g.edges[e].1 < g.nodes.len(),
        reps.len() <= u32::MAX,
        forall|e: int| 0 <= e < edges.len() ==> (#[trigger] edges[e]).0 < reps.len() && edges[e].1 < reps.len(),
        forall|h: int| 0 <= h < edges.len() ==> #[trigger] unit_edge_found(g, rep, reps, edges[h], g.edges.len() as int),
    ensures
        acyclic(reps.len(), edges),
{
    let rank = choose|rank: spec_fn(usize) -> nat| ranks_units(g, cv, rank);
    let rk = |p: usize| rank(reps[p as int]);
    assert forall|e: int| 0 <= e < edges.len() implies rk((#[trigger] edges[e]).0) < rk(edges[e].1) by {
        assert(unit_edge_found(g, rep, reps, edges[e], g.edges.len() as int));
        let f = choose|f: int| #![trigger g.edges[f]] 0 <= f < g.edges.len() && unit_edge_from(g, rep, reps, edges[e], f);
        assert(rep[g.edges[f].0 as int] == rep_of(cv, g.edges[f].0));
        assert(rep[g.edges[f].1 as int] == rep_of(cv, g.edges[f].1));
        assert(crosses_units(g, cv, f));
    }
    lemma_rank_acyclic(reps.len(), edges, rk);
}

proof fn lemma_blocks_respect_units(
    g: ArcGraphView,
    cv: Seq<Seq<usize>>,
    rep: Seq<usize>,
    reps: Seq<usize>,
    edges: Seq<(usize, usize)>,
    sorted: Seq<usize>,
    out: Seq<usize>,
    blk: Seq<int>,
)
    requires
        is_topo_order(reps.len(), edges, sorted),
        rep.len() == g.nodes.len(),
        forall|x: int| 0 <= x < rep.len() ==> #[trigger] rep[x] == rep_of(cv, x as usize),
        forall|e: int| 0 <= e < g.edges.len() ==> (#[trigger] g.edges[e]).0 < g.nodes.len() && g.edges[e].1 < g.nodes.len(),
        forall|a: int, b: int| 0 <= a < b < reps.len() ==> reps[a] < reps[b],
        forall|f: int, p: int, q: int|
            #![trigger g.edges[f], reps[p], reps[q]]
            0 <= f < g.edges.len() && !(g.edges[f].2 is Contains) && 0 <= p < reps.len() && 0 <= q < reps.len()
                && reps[p] == rep[g.edges[f].0 as int] && reps[q] == rep[g.edges[f].1 as int] && p != q
                ==> has_index_edge(edges, p as usize, q as usize),
        blk.len() == out.len(),
        forall|q: int| 0 <= q < out.len() ==> 0 <= #[trigger] blk[q] < sorted.len(),
        forall|q1: int, q2: int| 0 <= q1 < q2 < out.len() ==> blk[q1] <= blk[q2],
        forall|q: int| 0 <= q < out.len() ==> rep_of(cv, #[trigger] out[q]) == reps[sorted[blk[q]] as int],
    ensures
        forall|f: int, i: int, j: int|
            #![trigger crosses_units(g, cv, f), out[i], out[j]]
            crosses_units(g, cv, f) && 0 <= i < out.len() && 0 <= j < out.len() && out[i] == g.edges[f].0
                && out[j] == g.edges[f].1 ==> i < j,
{
    assert forall|f: int, i: int, j: int|
        #![trigger crosses_units(g, cv, f), out[i], out[j]]
        crosses_units(g, cv, f) && 0 <= i < out.len() && 0 <= j < out.len() && out[i] == g.edges[f].0
            && out[j] == g.edges[f].1 implies i < j by {
        let pa = sorted[blk[i]];
        let pb = sorted[blk[j]];
        assert(rep_of(cv, out[i]) == reps[pa as int]);
        assert(rep_of(cv, out[j]) == reps[pb as int]);
        assert(rep[g.edges[f].0 as int] == rep_of(cv, g.edges[f].0));
        assert(rep[g.edges[f].1 as int] == rep_of(cv, g.edges[f].1));
        assert(pa != pb);
        assert(has_index_edge(edges, pa, pb));
        let e = choose|e: int| 0 <= e < edges.len() && #[trigger] edges[e] == (pa, pb);
        assert(sorted[blk[i]] == edges[e].0 && sorted[blk[j]] == edges[e].1);
        assert(blk[i] < blk[j]);
        if j <= i {
            if j < i {
                assert(blk[j] <= blk[i]);
            }
        }
    }
}

/// Positions `s ..` of `r` hold the members of cycle `c`, by name.
pub open spec fn cycle_block_at(g: ArcGraphView, cv: Seq<Seq<usize>>, r: Seq<usize>, c: int, s: int) -> bool {
    &&& 0 <= s
    &&& s + cv[c].len() <= r.len()
    &&& r.subrange(s, s + cv[c].len()).to_multiset() == cv[c].to_multiset()
    &&& forall|a: int, b: int|
        s <= a < b < s + cv[c].len() ==> !lex_lt(node_name(g.nodes[#[trigger] r[b] as int]), node_name(g.nodes[#[trigger] r[a] as int]))
}

/// The members of cycle `c` stand together in `r`, by name.
pub open spec fn has_cycle_block(g: ArcGraphView, cv: Seq<Seq<usize>>, r: Seq<usize>, c: int) -> bool {
    exists|s: int| #[trigger] cycle_block_at(g, cv, r, c, s)
}

/// Some of the first `t` entries of `sorted` names the node standing for `x`.
pub open spec fn rep_placed(reps: Seq<usize>, sorted: Seq<usize>, t: int, x: usize) -> bool {
    exists|tt: int| 0 <= tt < t && #[trigger] reps[sorted[tt] as int] == x
}

proof fn lemma_block_persists(g: ArcGraphView, cv: Seq<Seq<usize>>, r: Seq<usize>, extra: Seq<usize>, c: int, s: int)
    requires
        cycle_block_at(g, cv, r, c, s),
    ensures
        cycle_block_at(g, cv, r + extra, c, s),
{
    let r2 = r + extra;
    assert(r2.subrange(s, s + cv[c].len()) =~= r.subrange(s, s + cv[c].len()));
    assert forall|a: int, b: int| s <= a < b < s + cv[c].len() implies !lex_lt(
        node_name(g.nodes[#[trigger] r2[b] as int]),
        node_name(g.nodes[#[trigger] r2[a] as int]),
    ) by {
        assert(r2[a] == r[a] && r2[b] == r[b]);
    }
}

proof fn lemma_block_new(g: ArcGraphView, cv: Seq<Seq<usize>>, names: Seq<Vec<char>>, o0: Seq<usize>, mv: Seq<usize>, c: int)
    requires
        0 <= c < cv.len(),
        mv.to_multiset() == cv[c].to_multiset(),
        mv.len() == cv[c].len(),
        forall|i: int| 0 <= i < names.len() ==> #[trigger] names[i]@ == node_name(g.nodes[i]),
        forall|k: int| 0 <= k < mv.len() ==> #[trigger] mv[k] < names.len(),
        forall|a: int, b: int| 0 <= a < b < mv.len() ==> !lex_lt(names[#[trigger] mv[b] as int]@, names[#[trigger] mv[a] as int]@),
    ensures
        cycle_block_at(g, cv, o0 + mv, c, o0.len() as int),
{
    let r = o0 + mv;
    let s = o0.len() as int;
    assert(r.subrange(s, s + cv[c].len()) =~= mv);
    assert forall|a: int, b: int| s <= a < b < s + cv[c].len() implies !lex_lt(
        node_name(g.nodes[#[trigger] r[b] as int]),
        node_name(g.nodes[#[trigger] r[a] as int]),
    ) by {
        assert(r[a] == mv[a - s] && r[b] == mv[b - s]);
        assert(names[mv[a - s] as int]@ == node_name(g.nodes[mv[a - s] as int]));
        assert(names[mv[b - s] as int]@ == node_name(g.nodes[mv[b - s] as int]));
    }
}

/// Of two nodes of `sorted` that reach each other, the one listed later
/// does not come first by name.
pub open spec fn mutual_by_name(edges: Seq<(usize, usize)>, sorted: Seq<usize>, nm: Seq<Seq<char>>) -> bool {
    forall|i: int, j: int|
        0 <= j < i < sorted.len() && sorted[i] != sorted[j] && #[trigger] index_reaches(edges, sorted[i], sorted[j])
            && #[trigger] index_reaches(edges, sorted[j], sorted[i]) ==> !lex_lt(nm[sorted[i] as int], nm[sorted[j] as int])
}

/// Between two nodes of `sorted` that reach each other, every node listed
/// reaches them and is reached from them.
pub open spec fn mutual_contiguous(edges: Seq<(usize, usize)>, sorted: Seq<usize>) -> bool {
    forall|i: int, k: int, j: int|
        0 <= i < k < j < sorted.len() && #[trigger] index_reaches(edges, sorted[i], sorted[j]) && #[trigger] index_reaches(
            edges,
            sorted[j],
            sorted[i],
        ) ==> #[trigger] index_reaches(edges, sorted[k], sorted[i]) && index_reaches(edges, sorted[i], sorted[k])
}

/// Along a walk, a topological order never goes back.
proof fn lemma_topo_path(n: nat, edges: Seq<(usize, usize)>, o: Seq<usize>, p: Seq<usize>, i0: int)
    requires
        is_topo_order(n, edges, o),
        index_path(edges, p),
        forall|e: int| 0 <= e < edges.len() ==> (#[trigger] edges[e]).0 < n && edges[e].1 < n,
        0 <= i0 < o.len(),
        o[i0] == p[0],
    ensures
        exists|j: int| i0 <= j < o.len() && o[j] == p.last(),
    decreases p.len(),
{
    if p.len() > 1 {
        let q = p.drop_last();
        assert forall|i: int| 0 <= i < q.len() - 1 implies #[trigger] has_index_edge(edges, q[i], q[i + 1]) by {
            assert(has_index_edge(edges, p[i], p[i + 1]));
        }
        lemma_topo_path(n, edges, o, q, i0);
        let j = choose|j: int| i0 <= j < o.len() && o[j] == q.last();
        let m = p.len() - 2;
        assert(has_index_edge(edges, p[m], p[m + 1]));
        assert(q.last() == p[m]);
        assert(p.last() == p[m + 1]);
        let e = choose|e: int| 0 <= e < edges.len() && #[trigger] edges[e] == (p[m], p[m + 1]);
        lemma_cover(n, o, p.last());
        let k = choose|k: int| 0 <= k < o.len() && o[k] == p.last();
        assert(o[j] == edges[e].0 && o[k] == edges[e].1);
        assert(j < k);
    }
}

/// In a graph with a topological order, two different nodes never reach
/// each other.
proof fn lemma_topo_no_mutual(n: nat, edges: Seq<(usize, usize)>, o: Seq<usize>, a: usize, b: usize)
    requires
        is_topo_order(n, edges, o),
        forall|e: int| 0 <= e < edges.len() ==> (#[trigger] edges[e]).0 < n && edges[e].1 < n,
        a < n,
        b < n,
        a != b,
    ensures
        !(index_reaches(edges, a, b) && index_reaches(edges, b, a)),
{
    if index_reaches(edges, a, b) && index_reaches(edges, b, a) {
        let p1 = choose|p: Seq<usize>| #[trigger] index_path(edges, p) && p[0] == a && p.last() == b;
        let p2 = choose|p: Seq<usize>| #[trigger] index_path(edges, p) && p[0] == b && p.last() == a;
        lemma_cover(n, o, a);
        let ia = choose|k: int| 0 <= k < o.len() && o[k] == a;
        lemma_topo_path(n, edges, o, p1, ia);
        let ib = choose|j: int| ia <= j < o.len() && o[j] == b;
        lemma_topo_path(n, edges, o, p2, ib);
        let ia2 = choose|j: int| ib <= j < o.len() && o[j] == a;
        assert(o[ia2] == o[ia]);
        assert(ia2 == ia);
    }
}

/// A walk between units gives a walk between their nodes in the graph of
/// the dependencies between units.
proof fn lemma_lower_path(
    g: ArcGraphView,
    cv: Seq<Seq<usize>>,
    rep: Seq<usize>,
    reps: Seq<usize>,
    edges: Seq<(usize, usize)>,
    p: Seq<usize>,
    a: int,
    b: int,
)
    requires
        unit_path(g, cv, p),
        rep.len() == g.nodes.len(),
        forall|x: int| 0 <= x < rep.len() ==> #[trigger] rep[x] == rep_of(cv, x as usize),
        forall|e: int| 0 <= e < g.edges.len() ==> (#[trigger] g.edges[e]).0 < g.nodes.len() && g.edges[e].1 < g.nodes.len(),
        forall|x: int| 0 <= x < rep.len() ==> reps.contains(#[trigger] rep[x]),
        reps.no_duplicates(),
        forall|f: int, pp: int, qq: int|
            #![trigger g.edges[f], reps[pp], reps[qq]]
            0 <= f < g.edges.len() && !(g.edges[f].2 is Contains) && 0 <= pp < reps.len() && 0 <= qq < reps.len()
                && reps[pp] == rep[g.edges[f].0 as int] && reps[qq] == rep[g.edges[f].1 as int] && pp != qq ==> has_index_edge(
                edges,
                pp as usize,
                qq as usize,
            ),
        0 <= a < reps.len(),
        0 <= b < reps.len(),
        reps[a] == p[0],
        reps[b] == p.last(),
    ensures
        index_reaches(edges, a as usize, b as usize),
    decreases p.len(),
{
    if p.len() == 1 {
        assert(p.last() == p[0]);
        assert(reps[a] == reps[b]);
        let w = seq![a as usize];
        assert(index_path(edges, w));
    } else {
        let q = p.drop_last();
        assert forall|i: int| 0 <= i < q.len() - 1 implies #[trigger] unit_step(g, cv, q[i], q[i + 1]) by {
            assert(unit_step(g, cv, p[i], p[i + 1]));
        }
        let m = p.len() - 2;
        assert(unit_step(g, cv, p[m], p[m + 1]));
        assert(q.last() == p[m]);
        assert(p.last() == p[m + 1]);
        let f = choose|f: int| #[trigger] crosses_units(g, cv, f) && rep_of(cv, g.edges[f].0) == p[m] && rep_of(cv, g.edges[f].1) == p[m + 1];
        let x = g.edges[f].0;
        let y = g.edges[f].1;
        assert(rep[x as int] == rep_of(cv, x));
        assert(rep[y as int] == rep_of(cv, y));
        assert(reps.contains(rep[x as int]));
        let c = choose|c: int| 0 <= c < reps.len() && reps[c] == rep[x as int];
        lemma_lower_path(g, cv, rep, reps, edges, q, a, c);
        assert(c != b);
        assert(has_index_edge(edges, c as usize, b as usize));
        let w = choose|w: Seq<usize>| #[trigger] index_path(edges, w) && w[0] == a as usize && w.last() == c as usize;
        let w2 = w.push(b as usize);
        assert forall|i: int| 0 <= i < w2.len() - 1 implies #[trigger] has_index_edge(edges, w2[i], w2[i + 1]) by {
            if i < w.len() - 1 {
                assert(has_index_edge(edges, w[i], w[i + 1]));
            }
        }
        assert(index_path(edges, w2));
    }
}

proof fn lemma_lift_reaches(
    g: ArcGraphView,
    cv: Seq<Seq<usize>>,
    rep: Seq<usize>,
    reps: Seq<usize>,
    edges: Seq<(usize, usize)>,
    a: usize,
    b: usize,
)
    requires
        index_reaches(edges, a, b),
        rep.len() == g.nodes.len(),
        forall|x: int| 0 <= x < rep.len() ==> #[trigger] rep[x] == rep_of(cv, x as usize),
        forall|e: int| 0 <= e < g.edges.len() ==> (#[trigger] g.edges[e]).0 < g.nodes.len() && g.edges[e].1 < g.nodes.len(),
        forall|h: int| 0 <= h < edges.len() ==> #[trigger] unit_edge_found(g, rep, reps, edges[h], g.edges.len() as int),
    ensures
        units_reach(g, cv, reps[a as int], reps[b as int]),
{
    let p = choose|p: Seq<usize>| #[trigger] index_path(edges, p) && p[0] == a && p.last() == b;
    lemma_lift_path(g, cv, rep, reps, edges, p);
    let q = p.map_values(|x: usize| reps[x as int]);
    assert(q[0] == reps[a as int]);
    assert(q.last() == reps[b as int]);
}

/// Between two units that reach each other, every node listed belongs to a
/// unit that reaches them and is reached from them.
proof fn lemma_mutual_units_together(
    g: ArcGraphView,
    cv: Seq<Seq<usize>>,
    rep: Seq<usize>,
    reps: Seq<usize>,
    edges: Seq<(usize, usize)>,
    sorted: Seq<usize>,
    out: Seq<usize>,
    blk: Seq<int>,
)
    requires
        rep.len() == g.nodes.len(),
        forall|x: int| 0 <= x < rep.len() ==> #[trigger] rep[x] == rep_of(cv, x as usize),
        forall|e: int| 0 <= e < g.edges.len() ==> (#[trigger] g.edges[e]).0 < g.nodes.len() && g.edges[e].1 < g.nodes.len(),
        forall|x: int| 0 <= x < rep.len() ==> reps.contains(#[trigger] rep[x]),
        reps.no_duplicates(),
        forall|f: int, pp: int, qq: int|
            #![trigger g.edges[f], reps[pp], reps[qq]]
            0 <= f < g.edges.len() && !(g.edges[f].2 is Contains) && 0 <= pp < reps.len() && 0 <= qq < reps.len()
                && reps[pp] == rep[g.edges[f].0 as int] && reps[qq] == rep[g.edges[f].1 as int] && pp != qq ==> has_index_edge(
                edges,
                pp as usize,
                qq as usize,
            ),
        forall|h: int| 0 <= h < edges.len() ==> #[trigger] unit_edge_found(g, rep, reps, edges[h], g.edges.len() as int),
        forall|k: int| 0 <= k < sorted.len() ==> #[trigger] sorted[k] < reps.len(),
        mutual_contiguous(edges, sorted),
        blk.len() == out.len(),
        forall|q: int| 0 <= q < out.len() ==> 0 <= #[trigger] blk[q] < sorted.len(),
        forall|q1: int, q2: int| 0 <= q1 < q2 < out.len() ==> blk[q1] <= blk[q2],
        forall|q: int| 0 <= q < out.len() ==> rep_of(cv, #[trigger] out[q]) == reps[sorted[blk[q]] as int],
    ensures
        forall|i: int, k: int, j: int|
            #![trigger out[i], out[k], out[j]]
            0 <= i < k < j < out.len() && rep_of(cv, out[i]) != rep_of(cv, out[j]) && units_reach(
                g,
                cv,
                rep_of(cv, out[i]),
                rep_of(cv, out[j]),
            ) && units_reach(g, cv, rep_of(cv, out[j]), rep_of(cv, out[i])) ==> rep_of(cv, out[k]) == rep_of(cv, out[i]) || (
            units_reach(g, cv, rep_of(cv, out[k]), rep_of(cv, out[i])) && units_reach(g, cv, rep_of(cv, out[i]), rep_of(cv, out[k]))),
{
    assert forall|i: int, k: int, j: int|
        #![trigger out[i], out[k], out[j]]
        0 <= i < k < j < out.len() && rep_of(cv, out[i]) != rep_of(cv, out[j]) && units_reach(
            g,
            cv,
            rep_of(cv, out[i]),
            rep_of(cv, out[j]),
        ) && units_reach(g, cv, rep_of(cv, out[j]), rep_of(cv, out[i])) implies rep_of(cv, out[k]) == rep_of(cv, out[i]) || (
        units_reach(g, cv, rep_of(cv, out[k]), rep_of(cv, out[i])) && units_reach(g, cv, rep_of(cv, out[i]), rep_of(cv, out[k]))) by {
        let a = sorted[blk[i]] as int;
        let b = sorted[blk[j]] as int;
        let c = sorted[blk[k]] as int;
        let rx = rep_of(cv, out[i]);
        let ry = rep_of(cv, out[j]);
        let p1 = choose|p: Seq<usize>| #[trigger] unit_path(g, cv, p) && p[0] == rx && p.last() == ry;
        let p2 = choose|p: Seq<usize>| #[trigger] unit_path(g, cv, p) && p[0] == ry && p.last() == rx;
        lemma_lower_path(g, cv, rep, reps, edges, p1, a, b);
        lemma_lower_path(g, cv, rep, reps, edges, p2, b, a);
        assert(blk[i] <= blk[k] && blk[k] <= blk[j]);
        if blk[k] == blk[i] {
        } else if blk[k] == blk[j] {
        } else {
            assert(blk[i] != blk[j]);
            assert(index_reaches(edges, sorted[blk[i]], sorted[blk[j]]));
            assert(index_reaches(edges, sorted[blk[j]], sorted[blk[i]]));
            assert(index_reaches(edges, sorted[blk[k]], sorted[blk[i]]));
            lemma_lift_reaches(g, cv, rep, reps, edges, c as usize, a as usize);
            lemma_lift_reaches(g, cv, rep, reps, edges, a as usize, c as usize);
        }
    }
}

/// Units that reach each other come in the order of their names.
proof fn lemma_mutual_units_by_name(
    g: ArcGraphView,
    cv: Seq<Seq<usize>>,
    rep: Seq<usize>,
    reps: Seq<usize>,
    edges: Seq<(usize, usize)>,
    names: Seq<Vec<char>>,
    sorted: Seq<usize>,
    out: Seq<usize>,
    blk: Seq<int>,
)
    requires
        rep.len() == g.nodes.len(),
        names.len() == g.nodes.len(),
        forall|i: int| 0 <= i < names.len() ==> #[trigger] names[i]@ == node_name(g.nodes[i]),
        forall|x: int| 0 <= x < rep.len() ==> #[trigger] rep[x] == rep_of(cv, x as usize),
        forall|e: int| 0 <= e < g.edges.len() ==> (#[trigger] g.edges[e]).0 < g.nodes.len() && g.edges[e].1 < g.nodes.len(),
        forall|x: int| 0 <= x < rep.len() ==> reps.contains(#[trigger] rep[x]),
        forall|a: int| 0 <= a < reps.len() ==> #[trigger] reps[a] < g.nodes.len(),
        reps.no_duplicates(),
        forall|f: int, pp: int, qq: int|
            #![trigger g.edges[f], reps[pp], reps[qq]]
            0 <= f < g.edges.len() && !(g.edges[f].2 is Contains) && 0 <= pp < reps.len() && 0 <= qq < reps.len()
                && reps[pp] == rep[g.edges[f].0 as int] && reps[qq] == rep[g.edges[f].1 as int] && pp != qq ==> has_index_edge(
                edges,
                pp as usize,
                qq as usize,
            ),
        forall|k: int| 0 <= k < sorted.len() ==> #[trigger] sorted[k] < reps.len(),
        mutual_by_name(edges, sorted, Seq::new(reps.len(), |p: int| names[reps[p] as int]@)),
        blk.len() == out.len(),
        forall|q: int| 0 <= q < out.len() ==> 0 <= #[trigger] blk[q] < sorted.len(),
        forall|q1: int, q2: int| 0 <= q1 < q2 < out.len() ==> blk[q1] <= blk[q2],
        forall|q: int| 0 <= q < out.len() ==> rep_of(cv, #[trigger] out[q]) == reps[sorted[blk[q]] as int],
    ensures
        forall|i: int, j: int|
            #![trigger out[i], out[j]]
            0 <= i < out.len() && 0 <= j < out.len() && rep_of(cv, out[i]) != rep_of(cv, out[j]) && units_reach(
                g,
                cv,
                rep_of(cv, out[i]),
                rep_of(cv, out[j]),
            ) && units_reach(g, cv, rep_of(cv, out[j]), rep_of(cv, out[i])) && lex_lt(
                node_name(g.nodes[rep_of(cv, out[i]) as int]),
                node_name(g.nodes[rep_of(cv, out[j]) as int]),
            ) ==> i < j,
{
    let nm = Seq::new(reps.len(), |p: int| names[reps[p] as int]@);
    assert forall|i: int, j: int|
        #![trigger out[i], out[j]]
        0 <= i < out.len() && 0 <= j < out.len() && rep_of(cv, out[i]) != rep_of(cv, out[j]) && units_reach(
            g,
            cv,
            rep_of(cv, out[i]),
            rep_of(cv, out[j]),
        ) && units_reach(g, cv, rep_of(cv, out[j]), rep_of(cv, out[i])) && lex_lt(
            node_name(g.nodes[rep_of(cv, out[i]) as int]),
            node_name(g.nodes[rep_of(cv, out[j]) as int]),
        ) implies i < j by {
        let a = sorted[blk[i]] as int;
        let b = sorted[blk[j]] as int;
        let rx = rep_of(cv, out[i]);
        let ry = rep_of(cv, out[j]);
        assert(reps[a] == rx && reps[b] == ry);
        let p1 = choose|p: Seq<usize>| #[trigger] unit_path(g, cv, p) && p[0] == rx && p.last() == ry;
        let p2 = choose|p: Seq<usize>| #[trigger] unit_path(g, cv, p) && p[0] == ry && p.last() == rx;
        lemma_lower_path(g, cv, rep, reps, edges, p1, a, b);
        lemma_lower_path(g, cv, rep, reps, edges, p2, b, a);
        if j <= i {
            if j == i {
                assert(rx == ry);
            }
            assert(blk[j] <= blk[i]);
            assert(blk[j] != blk[i]);
            assert(sorted[blk[i]] != sorted[blk[j]]);
            assert(index_reaches(edges, sorted[blk[i]], sorted[blk[j]]));
            assert(index_reaches(edges, sorted[blk[j]], sorted[blk[i]]));
            assert(!lex_lt(nm[a], nm[b]));
            assert(nm[a] == names[rx as int]@);
            assert(nm[b] == names[ry as int]@);
        }
    }
}

/// Some dependency edge between two units leads from unit `x` to unit `y`.
pub open spec fn unit_step(g: ArcGraphView, cv: Seq<Seq<usize>>, x: usize, y: usize) -> bool {
    exists|f: int| #[trigger] crosses_units(g, cv, f) && rep_of(cv, g.edges[f].0) == x && rep_of(cv, g.edges[f].1) == y
}

/// A walk from unit to unit along dependencies between units.
pub open spec fn unit_path(g: ArcGraphView, cv: Seq<Seq<usize>>, p: Seq<usize>) -> bool {
    &&& p.len() >= 1
    &&& forall|i: int| 0 <= i < p.len() - 1 ==> #[trigger] unit_step(g, cv, p[i], p[i + 1])
}

/// Unit `x` reaches unit `y` along dependencies between units.
pub open spec fn units_reach(g: ArcGraphView, cv: Seq<Seq<usize>>, x: usize, y: usize) -> bool {
    exists|p: Seq<usize>| #[trigger] unit_path(g, cv, p) && p[0] == x && p.last() == y
}

/// Each edge between two entries of `o` points forward, or its target
/// reaches its source.
pub open spec fn forward_or_back(edges: Seq<(usize, usize)>, o: Seq<usize>) -> bool {
    forall|e: int, i: int, j: int|
        #![trigger edges[e], o[i], o[j]]
        0 <= e < edges.len() && 0 <= i < o.len() && 0 <= j < o.len() && o[i] == edges[e].0 && o[j] == edges[e].1
            ==> i < j || index_reaches(edges, edges[e].1, edges[e].0)
}

proof fn lemma_lift_path(
    g: ArcGraphView,
    cv: Seq<Seq<usize>>,
    rep: Seq<usize>,
    reps: Seq<usize>,
    edges: Seq<(usize, usize)>,
    p: Seq<usize>,
)
    requires
        index_path(edges, p),
        rep.len() == g.nodes.len(),
        forall|x: int| 0 <= x < rep.len() ==> #[trigger] rep[x] == rep_of(cv, x as usize),
        forall|e: int| 0 <= e < g.edges.len() ==> (#[trigger] g.edges[e]).0 < g.nodes.len() && g.edges[e].1 < g.nodes.len(),
        forall|h: int| 0 <= h < edges.len() ==> #[trigger] unit_edge_found(g, rep, reps, edges[h], g.edges.len() as int),
    ensures
        unit_path(g, cv, p.map_values(|x: usize| reps[x as int])),
{
    let q = p.map_values(|x: usize| reps[x as int]);
    assert forall|i: int| 0 <= i < q.len() - 1 implies #[trigger] unit_step(g, cv, q[i], q[i + 1]) by {
        assert(has_index_edge(edges, p[i], p[i + 1]));
        let e = choose|e: int| 0 <= e < edges.len() && #[trigger] edges[e] == (p[i], p[i + 1]);
        assert(unit_edge_found(g, rep, reps, edges[e], g.edges.len() as int));
        let f = choose|f: int| #![trigger g.edges[f]] 0 <= f < g.edges.len() && unit_edge_from(g, rep, reps, edges[e], f);
        assert(rep[g.edges[f].0 as int] == rep_of(cv, g.edges[f].0));
        assert(rep[g.edges[f].1 as int] == rep_of(cv, g.edges[f].1));
        assert(crosses_units(g, cv, f));
    }
}

proof fn lemma_blocks_respect_reach(
    g: ArcGraphView,
    cv: Seq<Seq<usize>>,
    rep: Seq<usize>,
    reps: Seq<usize>,
    edges: Seq<(usize, usize)>,
    sorted: Seq<usize>,
    out: Seq<usize>,
    blk: Seq<int>,
)
    requires
        forward_or_back(edges, sorted),
        forall|k: int| 0 <= k < sorted.len() ==> #[trigger] sorted[k] < reps.len(),
        rep.len() == g.nodes.len(),
        forall|x: int| 0 <= x < rep.len() ==> #[trigger] rep[x] == rep_of(cv, x as usize),
        forall|e: int| 0 <= e < g.edges.len() ==> (#[trigger] g.edges[e]).0 < g.nodes.len() && g.edges[e].1 < g.nodes.len(),
        forall|a: int, b: int| 0 <= a < b < reps.len() ==> reps[a] < reps[b],
        forall|f: int, p: int, q: int|
            #![trigger g.edges[f], reps[p], reps[q]]
            0 <= f < g.edges.len() && !(g.edges[f].2 is Contains) && 0 <= p < reps.len() && 0 <= q < reps.len()
                && reps[p] == rep[g.edges[f].0 as int] && reps[q] == rep[g.edges[f].1 as int] && p != q
                ==> has_index_edge(edges, p as usize, q as usize),
        forall|h: int| 0 <= h < edges.len() ==> #[trigger] unit_edge_found(g, rep, reps, edges[h], g.edges.len() as int),
        blk.len() == out.len(),
        forall|q: int| 0 <= q < out.len() ==> 0 <= #[trigger] blk[q] < sorted.len(),
        forall|q1: int, q2: int| 0 <= q1 < q2 < out.len() ==> blk[q1] <= blk[q2],
        forall|q: int| 0 <= q < out.len() ==> rep_of(cv, #[trigger] out[q]) == reps[sorted[blk[q]] as int],
    ensures
        forall|f: int, i: int, j: int|
            #![trigger crosses_units(g, cv, f), out[i], out[j]]
            crosses_units(g, cv, f) && 0 <= i < out.len() && 0 <= j < out.len() && out[i] == g.edges[f].0
                && out[j] == g.edges[f].1 && !units_reach(g, cv, rep_of(cv, g.edges[f].1), rep_of(cv, g.edges[f].0))
                ==> i < j,
{
    assert forall|f: int, i: int, j: int|
        #![trigger crosses_units(g, cv, f), out[i], out[j]]
        crosses_units(g, cv, f) && 0 <= i < out.len() && 0 <= j < out.len() && out[i] == g.edges[f].0
            && out[j] == g.edges[f].1 && !units_reach(g, cv, rep_of(cv, g.edges[f].1), rep_of(cv, g.edges[f].0))
            implies i < j by {
        let pa = sorted[blk[i]];
        let pb = sorted[blk[j]];
        assert(rep_of(cv, out[i]) == reps[pa as int]);
        assert(rep_of(cv, out[j]) == reps[pb as int]);
        assert(rep[g.edges[f].0 as int] == rep_of(cv, g.edges[f].0));
        assert(rep[g.edges[f].1 as int] == rep_of(cv, g.edges[f].1));
        assert(pa != pb);
        assert(has_index_edge(edges, pa, pb));
        let e = choose|e: int| 0 <= e < edges.len() && #[trigger] edges[e] == (pa, pb);
        assert(sorted[blk[i]] == edges[e].0 && sorted[blk[j]] == edges[e].1);
        if !(blk[i] < blk[j]) {
            assert(index_reaches(edges, pb, pa));
            let p = choose|p: Seq<usize>| #[trigger] index_path(edges, p) && p[0] == pb && p.last() == pa;
            lemma_lift_path(g, cv, rep, reps, edges, p);
            let q = p.map_values(|x: usize| reps[x as int]);
            assert(unit_path(g, cv, q) && q[0] == reps[pb as int] && q.last() == reps[pa as int]);
            assert(units_reach(g, cv, rep_of(cv, g.edges[f].1), rep_of(cv, g.edges[f].0)));
        }
        if j <= i {
            if j < i {
                assert(blk[j] <= blk[i]);
            }
        }
    }
}

/// Orders the nodes so that dependents come before their dependencies,
/// treating each cycle as one unit whose members come together, sorted by
/// name. Containment edges are not followed. Where the dependencies between
/// the units themselves form a loop, the loops are broken: each group of
/// units that reach one another is listed together, sorted by name.
pub fn topo_sort(graph: &ArcGraph, cycles: &Vec<Cycle>) -> (r: Vec<usize>)
    requires
        forall|c: int, j: int| 0 <= c < cycles.len() && 0 <= j < cycles@[c].nodes.len() ==> #[trigger] cycles@[c].nodes@[j] < graph@.nodes.len(),
    ensures
        forall|k: int| 0 <= k < r.len() ==> #[trigger] r@[k] < graph@.nodes.len(),
        cycles_disjoint(cycle_views(cycles@)) ==> forall|x: usize| x < graph@.nodes.len() ==> r@.contains(x),
        cycles_disjoint(cycle_views(cycles@)) && (forall|c: int| 0 <= c < cycles.len() ==> (#[trigger] cycles@[c]).nodes@.no_duplicates())
            ==> r@.no_duplicates() && r.len() == graph@.nodes.len(),
        cycles_disjoint(cycle_views(cycles@)) && units_acyclic(graph@, cycle_views(cycles@)) ==> forall|f: int, i: int, j: int|
            #![trigger crosses_units(graph@, cycle_views(cycles@), f), r@[i], r@[j]]
            crosses_units(graph@, cycle_views(cycles@), f) && 0 <= i < r.len() && 0 <= j < r.len() && r@[i]
                == graph@.edges[f].0 && r@[j] == graph@.edges[f].1 ==> i < j,
        cycles_disjoint(cycle_views(cycles@)) ==> forall|c: int|
            0 <= c < cycles.len() ==> #[trigger] has_cycle_block(graph@, cycle_views(cycles@), r@, c),
        cycles_disjoint(cycle_views(cycles@)) ==> forall|f: int, i: int, j: int|
            #![trigger crosses_units(graph@, cycle_views(cycles@), f), r@[i], r@[j]]
            crosses_units(graph@, cycle_views(cycles@), f) && 0 <= i < r.len() && 0 <= j < r.len() && r@[i]
                == graph@.edges[f].0 && r@[j] == graph@.edges[f].1 && !units_reach(
                graph@,
                cycle_views(cycles@),
                rep_of(cycle_views(cycles@), graph@.edges[f].1),
                rep_of(cycle_views(cycles@), graph@.edges[f].0),
            ) ==> i < j,
        cycles_disjoint(cycle_views(cycles@)) ==> forall|i: int, j: int|
            #![trigger r@[i], r@[j]]
            0 <= i < r.len() && 0 <= j < r.len() && rep_of(cycle_views(cycles@), r@[i]) != rep_of(cycle_views(cycles@), r@[j])
                && units_reach(graph@, cycle_views(cycles@), rep_of(cycle_views(cycles@), r@[i]), rep_of(cycle_views(cycles@), r@[j]))
                && units_reach(graph@, cycle_views(cycles@), rep_of(cycle_views(cycles@), r@[j]), rep_of(cycle_views(cycles@), r@[i]))
                && lex_lt(
                node_name(graph@.nodes[rep_of(cycle_views(cycles@), r@[i]) as int]),
                node_name(graph@.nodes[rep_of(cycle_views(cycles@), r@[j]) as int]),
            ) ==> i < j,
        cycles_disjoint(cycle_views(cycles@)) ==> forall|i: int, k: int, j: int|
            #![trigger r@[i], r@[k], r@[j]]
            0 <= i < k < j < r.len() && rep_of(cycle_views(cycles@), r@[i]) != rep_of(cycle_views(cycles@), r@[j]) && units_reach(
                graph@,
                cycle_views(cycles@),
                rep_of(cycle_views(cycles@), r@[i]),
                rep_of(cycle_views(cycles@), r@[j]),
            ) && units_reach(graph@, cycle_views(cycles@), rep_of(cycle_views(cycles@), r@[j]), rep_of(cycle_views(cycles@), r@[i]))
                ==> rep_of(cycle_views(cycles@), r@[k]) == rep_of(cycle_views(cycles@), r@[i]) || (units_reach(
                graph@,
                cycle_views(cycles@),
                rep_of(cycle_views(cycles@), r@[k]),
                rep_of(cycle_views(cycles@), r@[i]),
            ) && units_reach(graph@, cycle_views(cycles@), rep_of(cycle_views(cycles@), r@[i]), rep_of(cycle_views(cycles@), r@[k]))),
{
    broadcast use vstd::seq_lib::group_to_multiset_ensures;
    proof {
        use_type_invariant(graph);
    }
    let ghost cv = cycle_views(cycles@);
    let n = graph.node_count();
    let names = all_node_names(graph);
    let rep = node_reps(n, cycles);
    // the representatives, ascending
    let mut is_rep: Vec<bool> = Vec::new();
    let mut x: usize = 0;
    while x < n
        invariant
            0 <= x <= n,
            is_rep.len() == x,
            forall|y: int| 0 <= y < x ==> !#[trigger] is_rep@[y],
        decreases n - x,
    {
        is_rep.push(false);
        x = x + 1;
    }
    let mut y: usize = 0;
    while y < n
        invariant
            n == rep.len(),
            is_rep.len() == n,
            forall|z: int| 0 <= z < n ==> #[trigger] rep@[z] < n,
            0 <= y <= n,
            forall|z: int| 0 <= z < y ==> #[trigger] is_rep@[rep@[z] as int],
            forall|v: int| 0 <= v < n && #[trigger] is_rep@[v] ==> exists|z: int| 0 <= z < n && rep@[z] == v,
        decreases n - y,
    {
        let ghost before = is_rep@;
        is_rep.set(rep[y], true);
        proof {
            assert forall|z: int| 0 <= z < y + 1 implies #[trigger] is_rep@[rep@[z] as int] by {
                if z < y && rep@[z] != rep@[y as int] {
                    assert(is_rep@[rep@[z] as int] == before[rep@[z] as int]);
                }
            }
            assert forall|v: int| 0 <= v < n && #[trigger] is_rep@[v] implies exists|z: int| 0 <= z < n && rep@[z] == v by {
                if v == rep@[y as int] {
                    assert(rep@[y as int] == v);
                } else {
                    assert(before[v]);
                }
            }
        }
        y = y + 1;
    }
    let reps = mask_indices(&is_rep);
    proof {
        assert forall|z: int| 0 <= z < rep.len() implies reps@.contains(#[trigger] rep@[z]) by {
            assert(mask_set(is_rep@).contains(rep@[z]));
            assert(reps@.to_set().contains(rep@[z]));
        }
    }
    let condensed = rep_dep_graph(graph, &rep, &reps);
    let u = reps.len();
    proof {
        assert(reps@.no_duplicates()) by {
            assert forall|a: int, b: int| 0 <= a < reps.len() && 0 <= b < reps.len() && a != b implies reps@[a] != reps@[b] by {
                if a < b {
                    assert(reps@[a] < reps@[b]);
                } else {
                    assert(reps@[b] < reps@[a]);
                }
            }
        }
        lemma_cover_bound(n as nat, reps@);
    }
    let top = index_graph_toposort(&condensed);
    proof {
        if top is None && units_acyclic(graph@, cv) {
            lemma_condensed_acyclic(graph@, cv, rep@, reps@, index_edges(condensed));
        }
    }
    let ghost nm = Seq::new(reps.len() as nat, |p: int| names@[reps@[p] as int]@);
    let sorted: Vec<usize> = match top {
        Some(o) => {
            proof {
                let ce = index_edges(condensed);
                assert forall|i: int, j: int|
                    0 <= j < i < o@.len() && o@[i] != o@[j] && #[trigger] index_reaches(ce, o@[i], o@[j])
                        && #[trigger] index_reaches(ce, o@[j], o@[i]) implies !lex_lt(nm[o@[i] as int], nm[o@[j] as int]) by {
                    lemma_topo_no_mutual(u as nat, ce, o@, o@[i], o@[j]);
                }
                assert(mutual_by_name(ce, o@, nm));
                assert forall|i: int, k: int, j: int|
                    0 <= i < k < j < o@.len() && #[trigger] index_reaches(ce, o@[i], o@[j]) && #[trigger] index_reaches(ce, o@[j], o@[i])
                        implies #[trigger] index_reaches(ce, o@[k], o@[i]) && index_reaches(ce, o@[i], o@[k]) by {
                    assert(o@[i] != o@[j]);
                    lemma_topo_no_mutual(u as nat, ce, o@, o@[i], o@[j]);
                }
                assert(mutual_contiguous(ce, o@));
                assert forall|e: int, i: int, j: int|
                    #![trigger ce[e], o@[i], o@[j]]
                    0 <= e < ce.len() && 0 <= i < o@.len() && 0 <= j < o@.len() && o@[i] == ce[e].0 && o@[j] == ce[e].1
                        implies i < j || index_reaches(ce, ce[e].1, ce[e].0) by {}
            }
            o
        },
        None => {
            let sccs = index_graph_tarjan(&condensed);
            let sorted_groups = sort_with_cycle_breaking(&condensed, &sccs, &names);
            proof {
                let ce = index_edges(condensed);
                let sg = sorted_groups@;
                assert forall|i: int, j: int|
                    0 <= j < i < sg.len() && sg[i] != sg[j] && #[trigger] index_reaches(ce, sg[i], sg[j])
                        && #[trigger] index_reaches(ce, sg[j], sg[i]) implies !lex_lt(nm[sg[i] as int], nm[sg[j] as int]) by {
                    assert(same_group(sccs.deep_view(), sg[j], sg[i]));
                    assert(index_nodes(condensed)[sg[i] as int] == reps@[sg[i] as int]);
                    assert(index_nodes(condensed)[sg[j] as int] == reps@[sg[j] as int]);
                }
                assert(mutual_by_name(ce, sg, nm));
                assert forall|i: int, k: int, j: int|
                    0 <= i < k < j < sg.len() && #[trigger] index_reaches(ce, sg[i], sg[j]) && #[trigger] index_reaches(ce, sg[j], sg[i])
                        implies #[trigger] index_reaches(ce, sg[k], sg[i]) && index_reaches(ce, sg[i], sg[k]) by {
                    assert(same_group(sccs.deep_view(), sg[i], sg[j]));
                    assert(same_group(sccs.deep_view(), sg[i], sg[k]));
                    let a = choose|a: int| 0 <= a < sccs.deep_view().len() && #[trigger] sccs.deep_view()[a].contains(sg[i]) && sccs.deep_view()[a].contains(sg[k]);
                    assert(same_group(sccs.deep_view(), sg[k], sg[i]));
                }
                assert(mutual_contiguous(ce, sg));
                assert forall|e: int, i: int, j: int|
                    #![trigger ce[e], sg[i], sg[j]]
                    0 <= e < ce.len() && 0 <= i < sg.len() && 0 <= j < sg.len() && sg[i] == ce[e].0 && sg[j] == ce[e].1
                        implies i < j || index_reaches(ce, ce[e].1, ce[e].0) by {
                    if same_group(sccs.deep_view(), ce[e].0, ce[e].1) {
                        let a = choose|a: int| 0 <= a < sccs.deep_view().len() && #[trigger] sccs.deep_view()[a].contains(ce[e].0) && sccs.deep_view()[a].contains(ce[e].1);
                        assert(same_group(sccs.deep_view(), ce[e].1, ce[e].0));
                    }
                }
            }
            sorted_groups
        },
    };
    proof {
        assert(forward_or_back(index_edges(condensed), sorted@));
    }
    proof {
        assert(units_acyclic(graph@, cv) ==> is_topo_order(u as nat, index_edges(condensed), sorted@));
        assert(sorted@.no_duplicates());
        assert forall|a: int| 0 <= a < u implies stands_for_some(cv, n as nat, #[trigger] reps@[a]) by {
            assert(reps@.to_set().contains(reps@[a]));
            assert(mask_set(is_rep@).contains(reps@[a]));
            let z = choose|z: int| 0 <= z < n && rep@[z] == reps@[a];
            assert(rep_of(cv, z as usize) == rep@[z]);
            assert(z < n && rep_of(cv, z as usize) == reps@[a]);
        }
        assert forall|p: usize| p < u implies sorted@.contains(p) by {
            if sorted.len() == u && sorted@.no_duplicates() && (forall|k: int| 0 <= k < sorted.len() ==> #[trigger] sorted@[k] < u) {
                lemma_cover(u as nat, sorted@, p);
            }
        }
    }
    // expand each representative into the nodes it stands for
    let mut out: Vec<usize> = Vec::new();
    let ghost mut blk: Seq<int> = Seq::empty();
    let mut t: usize = 0;
    while t < sorted.len()
        invariant
            cv == cycle_views(cycles@),
            n == graph@.nodes.len(),
            names.len() == n,
            forall|c: int, j: int| 0 <= c < cycles.len() && 0 <= j < cycles@[c].nodes.len() ==> #[trigger] cycles@[c].nodes@[j] < n,
            index_nodes(condensed) == reps@,
            u == reps.len(),
            u <= n,
            n <= u32::MAX,
            forall|a: int| 0 <= a < reps.len() ==> #[trigger] reps@[a] < n,
            forall|k: int| 0 <= k < sorted.len() ==> #[trigger] sorted@[k] < u,
            0 <= t <= sorted.len(),
            forall|k: int| 0 <= k < out.len() ==> #[trigger] out@[k] < n,
            cycles_disjoint(cv) ==> forall|tt: int, z: usize|
                0 <= tt < t && z < n && #[trigger] reps@[sorted@[tt] as int] == #[trigger] rep_of(cv, z) ==> out@.contains(z),
            sorted@.no_duplicates(),
            forall|a: int, b: int| 0 <= a < b < reps.len() ==> reps@[a] < reps@[b],
            forall|a: int| 0 <= a < u ==> stands_for_some(cv, n as nat, #[trigger] reps@[a]),
            cycles_disjoint(cv) && (forall|c: int| 0 <= c < cycles.len() ==> (#[trigger] cycles@[c]).nodes@.no_duplicates())
                ==> out@.no_duplicates(),
            cycles_disjoint(cv) && (forall|c: int| 0 <= c < cycles.len() ==> (#[trigger] cycles@[c]).nodes@.no_duplicates())
                ==> forall|q: int, tt: int| #![trigger out@[q], sorted@[tt]]
                0 <= q < out.len() && t <= tt < sorted.len() ==> rep_of(cv, out@[q]) != reps@[sorted@[tt] as int],
            blk.len() == out.len(),
            forall|q: int| 0 <= q < out.len() ==> 0 <= #[trigger] blk[q] < t,
            forall|q1: int, q2: int| 0 <= q1 < q2 < out.len() ==> blk[q1] <= blk[q2],
            cycles_disjoint(cv) ==> forall|q: int|
                0 <= q < out.len() ==> rep_of(cv, #[trigger] out@[q]) == reps@[sorted@[blk[q]] as int],
            units_acyclic(graph@, cv) ==> is_topo_order(u as nat, index_edges(condensed), sorted@),
            forward_or_back(index_edges(condensed), sorted@),
            forall|i: int| 0 <= i < names.len() ==> #[trigger] names@[i]@ == node_name(graph@.nodes[i]),
            cycles_disjoint(cv) ==> forall|c: int|
                0 <= c < cycles.len() && cv[c].len() > 0 && #[trigger] rep_placed(reps@, sorted@, t as int, cv[c][0])
                    ==> has_cycle_block(graph@, cv, out@, c),
        decreases sorted.len() - t,
    {
        let ci = sorted[t];
        let rp = index_graph_weight(&condensed, ci);
        let ghost o0 = out@;
        proof {
            lemma_first_cycle(cv, rp);
        }
        match first_cycle_exec(cycles, rp) {
            Some(c) => {
                assert(cv[c as int] == cycles@[c as int].nodes@);
                let members = sort_by_names(&cycles[c].nodes, &names);
                let ghost mv = members@;
                let mut mm = members;
                out.append(&mut mm);
                proof {
                    broadcast use vstd::seq_lib::group_to_multiset_ensures;
                    assert(out@ =~= o0 + mv);
                    assert forall|k: int| 0 <= k < out.len() implies #[trigger] out@[k] < n by {
                        if k >= o0.len() {
                            assert(mv.to_multiset().count(mv[k - o0.len()]) > 0);
                            assert(cv[c as int].contains(mv[k - o0.len()]));
                        }
                    }
                    if cycles_disjoint(cv) {
                        assert forall|tt: int, z: usize|
                            0 <= tt < t + 1 && z < n && #[trigger] reps@[sorted@[tt] as int] == #[trigger] rep_of(cv, z) implies out@.contains(z) by {
                            if tt < t {
                                let q = choose|q: int| 0 <= q < o0.len() && o0[q] == z;
                                assert(out@[q] == z);
                            } else {
                                lemma_first_cycle(cv, z);
                                match first_cycle(cv, z) {
                                    Some(c2) => {
                                        assert(cv[c2].contains(cv[c2][0]));
                                        if c2 != c as int {
                                            assert(!cv[c2].contains(rp));
                                        }
                                        assert(cv[c as int].to_multiset().count(z) > 0);
                                        assert(mv.to_multiset().count(z) > 0);
                                        let q = choose|q: int| 0 <= q < mv.len() && mv[q] == z;
                                        assert(out@[o0.len() + q] == z);
                                    },
                                    None => {
                                        assert(rep_of(cv, z) == z);
                                    },
                                }
                            }
                        }
                    }
                    if cycles_disjoint(cv) && (forall|c: int| 0 <= c < cycles.len() ==> (#[trigger] cycles@[c]).nodes@.no_duplicates()) {
                        assert(stands_for_some(cv, n as nat, reps@[sorted@[t as int] as int]));
                        let z0 = choose|z: usize| z < n && rep_of(cv, z) == reps@[sorted@[t as int] as int];
                        assert(rep_of(cv, z0) == rp);
                        lemma_first_cycle(cv, z0);
                        match first_cycle(cv, z0) {
                            Some(c2) => {
                                assert(cv[c2].contains(cv[c2][0]));
                                if c2 != c as int {
                                    assert(!cv[c2].contains(rp));
                                }
                            },
                            None => {},
                        }
                        assert(cv[c as int][0] == rp);
                        assert forall|j: int| 0 <= j < mv.len() implies rep_of(cv, #[trigger] mv[j]) == rp by {
                            let x = mv[j];
                            assert(mv.to_multiset().count(x) > 0);
                            assert(cv[c as int].contains(x));
                            lemma_first_cycle(cv, x);
                            let c3 = first_cycle(cv, x)->0;
                            if c3 != c as int {
                                assert(!cv[c3].contains(x));
                            }
                        }
                        assert(cycles@[c as int].nodes@.no_duplicates());
                        lemma_same_multiset_no_dups(cv[c as int], mv);
                        assert forall|i: int, j: int| 0 <= i < o0.len() && 0 <= j < mv.len() implies o0[i] != mv[j] by {
                            assert(out@[i] == o0[i]);
                            assert(rep_of(cv, out@[i]) != reps@[sorted@[t as int] as int]);
                            assert(rep_of(cv, mv[j]) == rp);
                        }
                        vstd::seq_lib::lemma_no_dup_in_concat(o0, mv);
                        assert forall|q: int, tt: int| #![trigger out@[q], sorted@[tt]]
                            0 <= q < out.len() && t + 1 <= tt < sorted.len() implies rep_of(cv, out@[q]) != reps@[sorted@[tt] as int] by {
                            assert(sorted@[tt] != sorted@[t as int]);
                            let a = sorted@[tt] as int;
                            let b = sorted@[t as int] as int;
                            if a < b {
                                assert(reps@[a] < reps@[b]);
                            } else {
                                assert(reps@[b] < reps@[a]);
                            }
                            if q < o0.len() {
                                assert(out@[q] == o0[q]);
                            } else {
                                assert(out@[q] == mv[q - o0.len()]);
                            }
                        }
                    }
                }
                proof {
                    assert(out@ =~= o0 + mv);
                    if cycles_disjoint(cv) {
                        assert(cv[c as int].contains(rp));
                        assert forall|k: int| 0 <= k < mv.len() implies #[trigger] mv[k] < names.len() by {
                            assert(mv.to_multiset().count(mv[k]) > 0);
                            assert(cv[c as int].contains(mv[k]));
                        }
                        lemma_block_new(graph@, cv, names@, o0, mv, c as int);
                        assert forall|c4: int|
                            0 <= c4 < cycles.len() && cv[c4].len() > 0 && #[trigger] rep_placed(reps@, sorted@, t + 1, cv[c4][0])
                                implies has_cycle_block(graph@, cv, out@, c4) by {
                            if rep_placed(reps@, sorted@, t as int, cv[c4][0]) {
                                let s0 = choose|s: int| cycle_block_at(graph@, cv, o0, c4, s);
                                lemma_block_persists(graph@, cv, o0, mv, c4, s0);
                            } else {
                                assert(reps@[sorted@[t as int] as int] == cv[c4][0]);
                                assert(cv[c4].contains(cv[c4][0]));
                                if c4 != c as int {
                                    assert(!cv[c4].contains(rp));
                                }
                                assert(cycle_block_at(graph@, cv, out@, c4, o0.len() as int));
                            }
                        }
                    }
                }
                proof {
                    let b0 = blk;
                    blk = blk + Seq::new(mv.len(), |k: int| t as int);
                    assert(out@ =~= o0 + mv);
                    assert forall|q: int| 0 <= q < out.len() implies 0 <= #[trigger] blk[q] < t + 1 by {
                        if q < o0.len() {
                            assert(blk[q] == b0[q]);
                        }
                    }
                    assert forall|q1: int, q2: int| 0 <= q1 < q2 < out.len() implies blk[q1] <= blk[q2] by {
                        if q2 < o0.len() {
                            assert(blk[q1] == b0[q1] && blk[q2] == b0[q2]);
                        } else if q1 < o0.len() {
                            assert(blk[q1] == b0[q1]);
                        }
                    }
                    if cycles_disjoint(cv) {
                        assert(cv[c as int].contains(rp));
                        assert(stands_for_some(cv, n as nat, reps@[sorted@[t as int] as int]));
                        let z0 = choose|z: usize| z < n && rep_of(cv, z) == reps@[sorted@[t as int] as int];
                        lemma_first_cycle(cv, z0);
                        match first_cycle(cv, z0) {
                            Some(c2) => {
                                assert(cv[c2].contains(cv[c2][0]));
                                if c2 != c as int {
                                    assert(!cv[c2].contains(rp));
                                }
                            },
                            None => {},
                        }
                        assert(cv[c as int][0] == rp);
                        assert forall|q: int| 0 <= q < out.len() implies rep_of(cv, #[trigger] out@[q])
                            == reps@[sorted@[blk[q]] as int] by {
                            if q < o0.len() {
                                assert(out@[q] == o0[q]);
                                assert(blk[q] == b0[q]);
                            } else {
                                let x = mv[q - o0.len()];
                                assert(out@[q] == x);
                                assert(blk[q] == t);
                                assert(mv.to_multiset().count(x) > 0);
                                assert(cv[c as int].contains(x));
                                lemma_first_cycle(cv, x);
                                let c3 = first_cycle(cv, x)->0;
                                if c3 != c as int {
                                    assert(!cv[c3].contains(x));
                                }
                            }
                        }
                    }
                }
            },
            None => {
                out.push(rp);
                proof {
                    if cycles_disjoint(cv) {
                        assert forall|tt: int, z: usize|
                            0 <= tt < t + 1 && z < n && #[trigger] reps@[sorted@[tt] as int] == #[trigger] rep_of(cv, z) implies out@.contains(z) by {
                            if tt < t {
                                let q = choose|q: int| 0 <= q < o0.len() && o0[q] == z;
                                assert(out@[q] == z);
                            } else {
                                lemma_first_cycle(cv, z);
                                match first_cycle(cv, z) {
                                    Some(c2) => {
                                        assert(cv[c2].contains(cv[c2][0]));
                                    },
                                    None => {
                                        assert(out@[o0.len() as int] == z);
                                    },
                                }
                            }
                        }
                    }
                    if cycles_disjoint(cv) && (forall|c: int| 0 <= c < cycles.len() ==> (#[trigger] cycles@[c]).nodes@.no_duplicates()) {
                        assert(rep_of(cv, rp) == rp);
                        assert forall|i: int| 0 <= i < o0.len() implies o0[i] != rp by {
                            assert(out@[i] == o0[i]);
                            assert(rep_of(cv, out@[i]) != reps@[sorted@[t as int] as int]);
                        }
                        assert(out@ =~= o0.push(rp));
                        assert forall|q: int, tt: int| #![trigger out@[q], sorted@[tt]]
                            0 <= q < out.len() && t + 1 <= tt < sorted.len() implies rep_of(cv, out@[q]) != reps@[sorted@[tt] as int] by {
                            assert(sorted@[tt] != sorted@[t as int]);
                            let a = sorted@[tt] as int;
                            let b = sorted@[t as int] as int;
                            if a < b {
                                assert(reps@[a] < reps@[b]);
                            } else {
                                assert(reps@[b] < reps@[a]);
                            }
                            if q < o0.len() {
                                assert(out@[q] == o0[q]);
                            }
                        }
                    }
                }
                proof {
                    assert(out@ =~= o0 + seq![rp]);
                    if cycles_disjoint(cv) {
                        assert forall|c4: int|
                            0 <= c4 < cycles.len() && cv[c4].len() > 0 && #[trigger] rep_placed(reps@, sorted@, t + 1, cv[c4][0])
                                implies has_cycle_block(graph@, cv, out@, c4) by {
                            if rep_placed(reps@, sorted@, t as int, cv[c4][0]) {
                                let s0 = choose|s: int| cycle_block_at(graph@, cv, o0, c4, s);
                                lemma_block_persists(graph@, cv, o0, seq![rp], c4, s0);
                            } else {
                                assert(reps@[sorted@[t as int] as int] == cv[c4][0]);
                                assert(cv[c4].contains(cv[c4][0]));
                                assert(false);
                            }
                        }
                    }
                }
                proof {
                    let b0 = blk;
                    blk = blk.push(t as int);
                    assert(out@ =~= o0.push(rp));
                    assert forall|q: int| 0 <= q < out.len() implies 0 <= #[trigger] blk[q] < t + 1 by {
                        if q < o0.len() {
                            assert(blk[q] == b0[q]);
                        }
                    }
                    assert forall|q1: int, q2: int| 0 <= q1 < q2 < out.len() implies blk[q1] <= blk[q2] by {
                        if q2 < o0.len() {
                            assert(blk[q1] == b0[q1] && blk[q2] == b0[q2]);
                        } else {
                            assert(blk[q1] == b0[q1]);
                        }
                    }
                    if cycles_disjoint(cv) {
                        assert(rep_of(cv, rp) == rp);
                        assert forall|q: int| 0 <= q < out.len() implies rep_of(cv, #[trigger] out@[q])
                            == reps@[sorted@[blk[q]] as int] by {
                            if q < o0.len() {
                                assert(out@[q] == o0[q]);
                                assert(blk[q] == b0[q]);
                            }
                        }
                    }
                }
            },
        }
        t = t + 1;
    }
    proof {
        if cycles_disjoint(cv) {
            assert forall|c: int| 0 <= c < cycles.len() implies #[trigger] has_cycle_block(graph@, cv, out@, c) by {
                if cv[c].len() > 0 {
                    let x = cv[c][0];
                    assert(cv[c] == cycles@[c].nodes@);
                    assert(x < n);
                    lemma_first_cycle(cv, x);
                    assert(cv[c].contains(x));
                    let c2 = first_cycle(cv, x)->0;
                    if c2 != c {
                        assert(!cv[c2].contains(x));
                    }
                    assert(rep_of(cv, x) == x);
                    assert(reps@.contains(rep@[x as int]));
                    let p = choose|p: int| 0 <= p < reps.len() && reps@[p] == rep@[x as int];
                    assert(sorted@.contains(p as usize));
                    let tt = choose|tt: int| 0 <= tt < sorted.len() && sorted@[tt] == p as usize;
                    assert(reps@[sorted@[tt] as int] == cv[c][0]);
                    assert(rep_placed(reps@, sorted@, t as int, cv[c][0]));
                } else {
                    assert(out@.subrange(0, 0) =~= cv[c]);
                    assert(cycle_block_at(graph@, cv, out@, c, 0));
                }
            }
        }
    }
    proof {
        if cycles_disjoint(cv) && units_acyclic(graph@, cv) {
            use_type_invariant(graph);
            lemma_blocks_respect_units(graph@, cv, rep@, reps@, index_edges(condensed), sorted@, out@, blk);
        }
        if cycles_disjoint(cv) {
            use_type_invariant(graph);
            lemma_blocks_respect_reach(graph@, cv, rep@, reps@, index_edges(condensed), sorted@, out@, blk);
            lemma_mutual_units_by_name(graph@, cv, rep@, reps@, index_edges(condensed), names@, sorted@, out@, blk);
            lemma_mutual_units_together(graph@, cv, rep@, reps@, index_edges(condensed), sorted@, out@, blk);
        }
    }
    proof {
        if cycles_disjoint(cv) {
            assert forall|z: usize| z < n implies out@.contains(z) by {
                assert(reps@.contains(rep@[z as int]));
                let p = choose|p: int| 0 <= p < reps.len() && reps@[p] == rep@[z as int];
                assert(sorted@.contains(p as usize));
                let tt = choose|tt: int| 0 <= tt < sorted.len() && sorted@[tt] == p as usize;
                assert(reps@[sorted@[tt] as int] == rep_of(cv, z));
            }
            if forall|c: int| 0 <= c < cycles.len() ==> (#[trigger] cycles@[c]).nodes@.no_duplicates() {
                lemma_cover_bound(n as nat, out@);
                lemma_cover_len(n as nat, out@);
            }
        }
    }
    out
}

/// A duplicate-free sequence of values below `n` that holds each of them
/// has length `n`.
proof fn lemma_cover_len(n: nat, s: Seq<usize>)
    requires
        s.no_duplicates(),
        forall|k: int| 0 <= k < s.len() ==> #[trigger] s[k] < n,
        forall|x: usize| x < n ==> s.contains(x),
        n <= usize::MAX,
    ensures
        s.len() == n,
{
    let t = Seq::new(s.len(), |k: int| s[k] as int);
    assert(t.no_duplicates());
    t.unique_seq_to_set();
    vstd::set_lib::lemma_int_range(0, n as int);
    assert(t.to_set() =~= vstd::set_lib::set_int_range(0, n as int)) by {
        assert forall|x: int| vstd::set_lib::set_int_range(0, n as int).contains(x) implies t.to_set().contains(x) by {
            assert(s.contains(x as usize));
            let k = choose|k: int| 0 <= k < s.len() && s[k] == x as usize;
            assert(t[k] == x);
        }
        assert forall|x: int| t.to_set().contains(x) implies vstd::set_lib::set_int_range(0, n as int).contains(x) by {
            let k = choose|k: int| 0 <= k < t.len() && t[k] == x;
        }
    }
}

proof fn lemma_ancestor_step(v: ArcGraphView, i: usize, k: nat)
    ensures
        ancestor_at(v, i, k + 1) == match ancestor_at(v, i, k) {
            Some(c) => parent_of(v, c),
            None => None,
        },
    decreases k,
{
    reveal_with_fuel(ancestor_at, 2);
    if k > 0 {
        match parent_of(v, i) {
            Some(p) => lemma_ancestor_step(v, p, (k - 1) as nat),
            None => {},
        }
    }
}

proof fn lemma_ancestor_descends_index(v: ArcGraphView, x: usize, k: nat)
    requires
        forall|e: int| 0 <= e < v.edges.len() && (#[trigger] v.edges[e]).2 is Contains ==> v.edges[e].0 < v.edges[e].1,
    ensures
        ancestor_at(v, x, k) matches Some(y) ==> y + k <= x,
    decreases k,
{
    if k > 0 {
        match parent_of(v, x) {
            Some(p) => {
                lemma_parent_in_source(v.edges, v.edges.len() as int, x);
                lemma_ancestor_descends_index(v, p, (k - 1) as nat);
            },
            None => {},
        }
    }
}

/// Where every containment edge leads from an earlier node to a later one,
/// every chain of containment parents ends.
pub proof fn law_parents_first_chains_end(v: ArcGraphView)
    requires
        forall|e: int| 0 <= e < v.edges.len() && (#[trigger] v.edges[e]).2 is Contains ==> v.edges[e].0 < v.edges[e].1,
    ensures
        parents_end(v),
{
    assert forall|i: usize| i < v.nodes.len() implies #[trigger] ancestor_at(v, i, v.nodes.len() as nat) is None by {
        lemma_ancestor_descends_index(v, i, v.nodes.len() as nat);
    }
}

proof fn lemma_ancestor_none_mono(v: ArcGraphView, i: usize, k: nat, m: nat)
    requires
        ancestor_at(v, i, k) is None,
        k <= m,
    ensures
        ancestor_at(v, i, m) is None,
    decreases m - k,
{
    if k < m {
        lemma_ancestor_step(v, i, k);
        lemma_ancestor_none_mono(v, i, k + 1, m);
    }
}


proof fn lemma_parent_in_source(edges: Seq<(usize, usize, EdgeView)>, m: int, x: usize)
    requires
        m <= edges.len(),
    ensures
        crate::graph::parent_in(edges, m, x) matches Some(q) ==> exists|j: int|
            0 <= j < m && #[trigger] edges[j].1 == x && edges[j].2 is Contains && edges[j].0 == q,
        crate::graph::parent_in(edges, m, x) is None ==> forall|j: int|
            0 <= j < m && #[trigger] edges[j].1 == x ==> !(edges[j].2 is Contains),
    decreases m,
{
    if m > 0 {
        lemma_parent_in_source(edges, m - 1, x);
    }
}

/// In a forest, the node that contains `x` is its parent.
proof fn lemma_forest_parent(v: ArcGraphView, p: usize, x: usize)
    requires
        containment_forest(v),
        contains_child_spec(v, p, x),
    ensures
        parent_of(v, x) == Some(p),
{
    let e = choose|e: int| 0 <= e < v.edges.len() && #[trigger] v.edges[e].0 == p && v.edges[e].1 == x && v.edges[e].2 is Contains;
    lemma_parent_in_source(v.edges, v.edges.len() as int, x);
    assert(v.edges[e].1 == x);
    match parent_of(v, x) {
        Some(q) => {
            let j = choose|j: int| 0 <= j < v.edges.len() && #[trigger] v.edges[j].1 == x && v.edges[j].2 is Contains && v.edges[j].0 == q;
            assert(v.edges[e].0 == v.edges[j].0);
        },
        None => {},
    }
}

proof fn lemma_ancestor_add(v: ArcGraphView, x: usize, k1: nat, k2: nat)
    ensures
        ancestor_at(v, x, k1 + k2) == match ancestor_at(v, x, k1) {
            Some(y) => ancestor_at(v, y, k2),
            None => None,
        },
    decreases k1,
{
    if k1 > 0 {
        match parent_of(v, x) {
            Some(p) => {
                lemma_ancestor_add(v, p, (k1 - 1) as nat, k2);
                assert((k1 + k2 - 1) as nat == (k1 - 1) as nat + k2);
            },
            None => {},
        }
    }
}

/// A chain of parents that comes back to its start never ends.
proof fn lemma_ancestor_loop(v: ArcGraphView, a: usize, k: nat, m: nat)
    requires
        k >= 1,
        ancestor_at(v, a, k) == Some(a),
    ensures
        ancestor_at(v, a, m) is Some,
    decreases m,
{
    if m < k {
        if ancestor_at(v, a, m) is None {
            lemma_ancestor_none_mono(v, a, m, k);
        }
    } else {
        lemma_ancestor_add(v, a, k, (m - k) as nat);
        lemma_ancestor_loop(v, a, k, (m - k) as nat);
        assert(k + (m - k) as nat == m);
    }
}

/// In a forest whose parent chains end, no child of a node lies below
/// another child of it.
proof fn lemma_sibling_not_below(v: ArcGraphView, p: usize, a: usize, b: usize)
    requires
        containment_forest(v),
        parents_end(v),
        a < v.nodes.len(),
        contains_child_spec(v, p, a),
        contains_child_spec(v, p, b),
        a != b,
    ensures
        !descends(v, a, b),
{
    let s = Set::new(|x: usize| exists|k: nat| #[trigger] ancestor_at(v, x, k) == Some(a));
    assert(ancestor_at(v, a, 0) == Some(a));
    assert(set![a].subset_of(s));
    assert(crate::graph::closed_under(v, Follow::Containment, s)) by {
        assert forall|e: int|
            0 <= e < v.edges.len() && s.contains(v.edges[e].0) && #[trigger] crate::graph::follows(Follow::Containment, v, e)
            implies s.contains(v.edges[e].1) by {
            let x = v.edges[e].0;
            let y = v.edges[e].1;
            let k = choose|k: nat| #[trigger] ancestor_at(v, x, k) == Some(a);
            assert(contains_child_spec(v, x, y));
            lemma_forest_parent(v, x, y);
            assert(ancestor_at(v, y, k + 1) == ancestor_at(v, x, k));
        }
    }
    if descends(v, a, b) {
        assert(s.contains(b));
        let k = choose|k: nat| #[trigger] ancestor_at(v, b, k) == Some(a);
        assert(k != 0);
        lemma_forest_parent(v, p, a);
        lemma_forest_parent(v, p, b);
        assert(ancestor_at(v, b, k) == ancestor_at(v, p, (k - 1) as nat));
        assert(ancestor_at(v, a, k) == ancestor_at(v, p, (k - 1) as nat));
        lemma_ancestor_loop(v, a, k, v.nodes.len() as nat);
        assert(ancestor_at(v, a, v.nodes.len() as nat) is None);
    }
}

proof fn lemma_flatten_contains(blocks: Seq<Seq<usize>>, x: usize)
    requires
        blocks.flatten().contains(x),
    ensures
        exists|j: int, q: int| 0 <= j < blocks.len() && 0 <= q < blocks[j].len() && #[trigger] blocks[j][q] == x,
    decreases blocks.len(),
{
    if blocks.len() > 0 {
        let init = blocks.drop_last();
        assert(blocks =~= init.push(blocks.last()));
        init.lemma_flatten_push(blocks.last());
        let f = init.flatten();
        let k = choose|k: int| 0 <= k < blocks.flatten().len() && blocks.flatten()[k] == x;
        if k < f.len() {
            assert(f[k] == x);
            lemma_flatten_contains(init, x);
            let (j, q) = choose|j: int, q: int| 0 <= j < init.len() && 0 <= q < init[j].len() && #[trigger] init[j][q] == x;
            assert(blocks[j] == init[j]);
        } else {
            assert(blocks.last()[k - f.len()] == x);
            assert(blocks[blocks.len() - 1][k - f.len()] == x);
        }
    }
}

/// The weights of a stable order over distinct weights are distinct.
proof fn lemma_stable_weights_no_dup(n: nat, edges: Seq<(usize, usize)>, names: Seq<Seq<char>>, w: Seq<usize>, o: Seq<usize>)
    requires
        w.len() == n,
        w.no_duplicates(),
        is_stable_order(n, edges, names, o),
    ensures
        weights_of(w, o).no_duplicates(),
{
    law_stable_order_is_topological(n, edges, names, o);
    let r = weights_of(w, o);
    assert forall|a: int, b: int| 0 <= a < r.len() && 0 <= b < r.len() && a != b implies r[a] != r[b] by {
        assert(o[a] != o[b]);
    }
}

/// The sibling order computed from `c1` is `sibling_sequence(v, c1)`.
proof fn lemma_sibling_sequence(v: ArcGraphView, c1: Seq<usize>, cs: Seq<usize>)
    requires
        sibling_order_of(v, c1, cs),
    ensures
        cs == sibling_sequence(v, c1),
{
    let n = c1.len();
    let edges = sibling_edges(v, c1, n);
    if n > 0 && acyclic(n, edges) {
        let o = choose|o: Seq<usize>| is_stable_order(n, edges, stable_names(v, c1), o) && #[trigger] weights_of(c1, o) == cs;
        let o2 = choose|o: Seq<usize>| is_stable_order(n, edges, stable_names(v, c1), o);
        law_stable_order_unique(n, edges, stable_names(v, c1), o, o2);
    }
}

/// A sibling order of distinct children lists each of them once.
proof fn lemma_sibling_order_no_dup(v: ArcGraphView, c1: Seq<usize>, cs: Seq<usize>)
    requires
        c1.no_duplicates(),
        sibling_order_of(v, c1, cs),
    ensures
        cs.no_duplicates(),
{
    let n = c1.len();
    let edges = sibling_edges(v, c1, n);
    if n > 0 && acyclic(n, edges) {
        let o = choose|o: Seq<usize>| is_stable_order(n, edges, stable_names(v, c1), o) && #[trigger] weights_of(c1, o) == cs;
        law_stable_order_is_topological(n, edges, stable_names(v, c1), o);
        assert forall|a: int, b: int| 0 <= a < cs.len() && 0 <= b < cs.len() && a != b implies cs[a] != cs[b] by {
            assert(o[a] != o[b]);
            assert(cs[a] == c1[o[a] as int]);
            assert(cs[b] == c1[o[b] as int]);
        }
    }
}

proof fn lemma_filter_no_dup(s: Seq<usize>, pred: spec_fn(usize) -> bool)
    requires
        s.no_duplicates(),
    ensures
        s.filter(pred).no_duplicates(),
    decreases s.len(),
{
    reveal(Seq::filter);
    if s.len() > 0 {
        let rest = s.drop_last();
        assert(rest.no_duplicates());
        lemma_filter_no_dup(rest, pred);
        if pred(s.last()) {
            if rest.filter(pred).contains(s.last()) {
                rest.lemma_filter_contains_rev(pred, s.last());
            }
        }
    }
}

proof fn lemma_perm_no_dup(a: Seq<usize>, b: Seq<usize>)
    requires
        a.no_duplicates(),
        a.to_multiset() == b.to_multiset(),
    ensures
        b.no_duplicates(),
{
    a.lemma_multiset_has_no_duplicates();
    b.lemma_multiset_has_no_duplicates_conv();
}

/// Whether every chain of containment parents ends.
pub fn parent_chains_end(graph: &ArcGraph) -> (r: bool)
    ensures
        r == parents_end(graph@),
{
    proof {
        use_type_invariant(graph);
    }
    let pm = graph.parent_map();
    let n = pm.len();
    let mut i: usize = 0;
    while i < n
        invariant
            crate::graph::graph_wf(graph@),
            n == pm.len() == graph@.nodes.len(),
            forall|k: int| 0 <= k < pm.len() ==> pm@[k] == parent_of(graph@, k as usize),
            0 <= i <= n,
            forall|j: usize| j < i ==> #[trigger] ancestor_at(graph@, j, n as nat) is None,
        decreases n - i,
    {
        let mut cur: usize = i;
        let mut k: usize = 0;
        let mut ended = false;
        while k < n && !ended
            invariant
                crate::graph::graph_wf(graph@),
                n == pm.len() == graph@.nodes.len(),
                forall|q: int| 0 <= q < pm.len() ==> pm@[q] == parent_of(graph@, q as usize),
                i < n,
                k <= n,
                cur < n,
                !ended ==> ancestor_at(graph@, i, k as nat) == Some(cur),
                ended ==> ancestor_at(graph@, i, n as nat) is None,
            decreases n - k, if ended { 0int } else { 1int },
        {
            proof {
                lemma_ancestor_step(graph@, i, k as nat);
            }
            match pm[cur] {
                Some(p) => {
                    proof {
                        lemma_parent_in_bound(graph@.edges, graph@.edges.len() as int, graph@.nodes.len(), cur);
                    }
                    cur = p;
                    k = k + 1;
                },
                None => {
                    proof {
                        lemma_ancestor_none_mono(graph@, i, (k + 1) as nat, n as nat);
                    }
                    ended = true;
                },
            }
        }
        if !ended {
            return false;
        }
        i = i + 1;
    }
    true
}

/// `order` lists every node once.
pub open spec fn lists_every_node_once(v: ArcGraphView, order: Seq<usize>) -> bool {
    &&& order.len() == v.nodes.len()
    &&& order.no_duplicates()
    &&& forall|x: usize| x < v.nodes.len() ==> order.contains(x)
}

/// Number of containment edges out of `p` among the first `m` edges.
pub open spec fn contains_out(v: ArcGraphView, p: usize, m: int) -> nat
    decreases m,
{
    if m <= 0 {
        0
    } else {
        contains_out(v, p, m - 1) + if v.edges[m - 1].0 == p && v.edges[m - 1].2 is Contains {
            1nat
        } else {
            0nat
        }
    }
}

/// No node has more than `d` containment edges out of it.
pub open spec fn fanout_at_most(v: ArcGraphView, d: nat) -> bool {
    forall|p: usize| p < v.nodes.len() ==> #[trigger] contains_out(v, p, v.edges.len() as int) <= d
}

/// The targets of the containment edges out of `p` among the first `m`
/// edges.
spec fn contained_targets(v: ArcGraphView, p: usize, m: int) -> Set<usize>
    decreases m,
{
    if m <= 0 {
        Set::empty()
    } else {
        let s = contained_targets(v, p, m - 1);
        if v.edges[m - 1].0 == p && v.edges[m - 1].2 is Contains {
            s.insert(v.edges[m - 1].1)
        } else {
            s
        }
    }
}

proof fn lemma_contained_targets(v: ArcGraphView, p: usize, m: int)
    requires
        0 <= m <= v.edges.len(),
    ensures
        contained_targets(v, p, m).finite(),
        contained_targets(v, p, m).len() <= contains_out(v, p, m),
        forall|e: int| 0 <= e < m && #[trigger] v.edges[e].0 == p && v.edges[e].2 is Contains ==> contained_targets(v, p, m).contains(v.edges[e].1),
    decreases m,
{
    if m > 0 {
        lemma_contained_targets(v, p, m - 1);
    }
}

/// Distinct children of `p` are no more than its containment edges.
proof fn lemma_children_count(v: ArcGraphView, p: usize, children: Seq<usize>)
    requires
        children.no_duplicates(),
        forall|k: int| 0 <= k < children.len() ==> contains_child_spec(v, p, #[trigger] children[k]),
    ensures
        children.len() <= contains_out(v, p, v.edges.len() as int),
{
    let m = v.edges.len() as int;
    lemma_contained_targets(v, p, m);
    children.unique_seq_to_set();
    assert(children.to_set().subset_of(contained_targets(v, p, m))) by {
        assert forall|x: usize| children.to_set().contains(x) implies contained_targets(v, p, m).contains(x) by {
            let k = choose|k: int| 0 <= k < children.len() && children[k] == x;
            assert(contains_child_spec(v, p, children[k]));
            let e = choose|e: int| 0 <= e < v.edges.len() && #[trigger] v.edges[e].0 == p && v.edges[e].1 == x && v.edges[e].2 is Contains;
        }
    }
    vstd::set_lib::lemma_len_subset(children.to_set(), contained_targets(v, p, m));
}

/// Whether no node has more than 65535 containment edges out of it.
fn fanout_fits(graph: &ArcGraph) -> (r: bool)
    ensures
        r == fanout_at_most(graph@, 65535),
{
    proof {
        use_type_invariant(graph);
    }
    let n = graph.node_count();
    let ne = graph.edge_count();
    let mut counts: Vec<usize> = Vec::new();
    let mut i: usize = 0;
    while i < n
        invariant
            0 <= i <= n,
            counts.len() == i,
            forall|q: int| 0 <= q < i ==> counts@[q] == 0,
        decreases n - i,
    {
        counts.push(0);
        i = i + 1;
    }
    let mut e: usize = 0;
    while e < ne
        invariant
            n == graph@.nodes.len(),
            ne == graph@.edges.len(),
            crate::graph::graph_wf(graph@),
            0 <= e <= ne,
            counts.len() == n,
            forall|q: int| 0 <= q < n ==> #[trigger] counts@[q] == contains_out(graph@, q as usize, e as int),
            forall|q: int| 0 <= q < n ==> #[trigger] counts@[q] <= e,
        decreases ne - e,
    {
        let (a, _b, w) = graph.edge(e);
        if w.is_contains() {
            counts.set(a, counts[a] + 1);
        }
        proof {
            assert forall|q: int| 0 <= q < n implies #[trigger] counts@[q] == contains_out(graph@, q as usize, e + 1) by {
                assert(contains_out(graph@, q as usize, e + 1) == contains_out(graph@, q as usize, e as int) + if graph@.edges[e as int].0
                    == q as usize && graph@.edges[e as int].2 is Contains {
                    1nat
                } else {
                    0nat
                });
            }
        }
        e = e + 1;
    }
    let mut q: usize = 0;
    while q < n
        invariant
            n == graph@.nodes.len(),
            ne == graph@.edges.len(),
            counts.len() == n,
            forall|x: int| 0 <= x < n ==> #[trigger] counts@[x] == contains_out(graph@, x as usize, ne as int),
            0 <= q <= n,
            forall|x: usize| x < q ==> #[trigger] contains_out(graph@, x, ne as int) <= 65535,
        decreases n - q,
    {
        if counts[q] > 65535 {
            assert(contains_out(graph@, q, ne as int) > 65535);
            return false;
        }
        q = q + 1;
    }
    true
}

/// The layout of a dependency graph: its module cycles, the order that puts
/// dependents before their dependencies, and the items and edges in that
/// order. There is none for a graph whose chains of containment parents
/// loop, or where a node contains more than 65535 modules (where its
/// sibling dependency graph is not known to fit petgraph's indices).
pub fn layout_graph(graph: &ArcGraph) -> (r: Option<LayoutIR>)
    ensures
        r is Some <==> (fanout_at_most(graph@, 65535) && parents_end(graph@)),
        r is Some ==> exists|cs: Seq<Cycle>, o: Seq<usize>|
            cycle_views(cs) == multi_node_groups(
                tarjan_of(graph@.nodes.len(), module_dep_pairs(graph@.edges, graph@.edges.len() as int)),
            ) && (forall|x: usize| x < graph@.nodes.len() ==> o.contains(x)) && #[trigger] is_layout_of(graph@, cycle_views(cs), o, r->0)
                && (exists|h: int| #[trigger] hier_prefix(graph@, o, h)) && (exists|order: Seq<usize>, co: Seq<usize>|
                lists_every_node_once(graph@, order) && #[trigger] crate_order(graph@, order, co) && grouped_by_crate(graph@, co, o)
                && o == layout_listing(graph@, order, co)) && (containment_forest(graph@) ==> o.no_duplicates() && o.len()
                == graph@.nodes.len()),
{
    let n = graph.node_count();
    if !fanout_fits(graph) || !parent_chains_end(graph) {
        return None;
    }
    let cycles = detect_cycles(graph);
    let order = topo_sort(graph, &cycles);
    assert(order.len() == n);
    proof {
        use_type_invariant(graph);
        order@.filter_lemma(|x: usize| graph@.nodes[x as int] is Crate);
        assert forall|children: Seq<usize>|
            children.len() <= order@.len() && (order@.no_duplicates() ==> children.no_duplicates()) && (exists|parent: usize|
                #[trigger] children_in(graph@, parent, order@, children)) implies #[trigger] sibling_graph_fits(graph@, children) by {
            let c = children.len();
            let parent = choose|parent: usize| #[trigger] children_in(graph@, parent, order@, children);
            lemma_sibling_edges_len(graph@, children, c);
            if c > 0 {
                assert(contains_child_spec(graph@, parent, children[0]));
                let e = choose|e: int| 0 <= e < graph@.edges.len() && #[trigger] graph@.edges[e].0 == parent && graph@.edges[e].1 == children[0]
                    && graph@.edges[e].2 is Contains;
                assert(parent < n);
                assert forall|k: int| 0 <= k < children.len() implies contains_child_spec(graph@, parent, #[trigger] children[k]) by {}
                lemma_children_count(graph@, parent, children);
                assert(contains_out(graph@, parent, graph@.edges.len() as int) <= 65535);
            }
            assert(c * c <= 65535 * 65535) by (nonlinear_arith)
                requires c <= 65535;
        }
    }
    let layout = build_layout(graph, &order, &cycles);
    proof {
        let o = choose|o: Seq<usize>|
            same_nodes(order@, o) && #[trigger] is_layout_of(graph@, cycle_views(cycles@), o, layout) && (exists|h: int|
                #[trigger] hier_prefix(graph@, o, h)) && (exists|co: Seq<usize>|
                #[trigger] crate_order(graph@, order@, co) && grouped_by_crate(graph@, co, o) && o == layout_listing(graph@, order@, co))
                && (order@.no_duplicates() && containment_forest(graph@) ==> o.no_duplicates() && o.len() == order.len());
        let h = choose|h: int| #[trigger] hier_prefix(graph@, o, h);
        let co = choose|co: Seq<usize>|
            #[trigger] crate_order(graph@, order@, co) && grouped_by_crate(graph@, co, o) && o == layout_listing(graph@, order@, co);
        assert(lists_every_node_once(graph@, order@));
        assert forall|x: usize| x < n implies o.contains(x) by {
            assert(order@.contains(x));
            let k = choose|k: int| 0 <= k < order.len() && order@[k] == x;
            assert(o.contains(order@[k]));
        }
        assert(cycle_views(cycles@) == multi_node_groups(
            tarjan_of(graph@.nodes.len(), module_dep_pairs(graph@.edges, graph@.edges.len() as int)),
        ) && (forall|x: usize| x < graph@.nodes.len() ==> o.contains(x)) && is_layout_of(graph@, cycle_views(cycles@), o, layout)
            && hier_prefix(graph@, o, h));
        assert(exists|order2: Seq<usize>, co2: Seq<usize>|
            lists_every_node_once(graph@, order2) && #[trigger] crate_order(graph@, order2, co2) && grouped_by_crate(graph@, co2, o)
                && o == layout_listing(graph@, order2, co2));
        assert(exists|cs: Seq<Cycle>, o2: Seq<usize>|
            cycle_views(cs) == multi_node_groups(
                tarjan_of(graph@.nodes.len(), module_dep_pairs(graph@.edges, graph@.edges.len() as int)),
            ) && (forall|x: usize| x < graph@.nodes.len() ==> o2.contains(x)) && #[trigger] is_layout_of(graph@, cycle_views(cs), o2, layout)
                && (exists|h2: int| #[trigger] hier_prefix(graph@, o2, h2)) && (exists|order2: Seq<usize>, co2: Seq<usize>|
                lists_every_node_once(graph@, order2) && #[trigger] crate_order(graph@, order2, co2) && grouped_by_crate(graph@, co2, o2)
                && o2 == layout_listing(graph@, order2, co2)) && (containment_forest(graph@) ==> o2.no_duplicates() && o2.len()
                == graph@.nodes.len()));
    }
    let r = Some(layout);
    assert(r->0 == layout);
    r
}

} // verus!
