//! The dependency graph of a workspace: crate and module nodes, with
//! containment edges and crate/module dependency edges.

use vstd::prelude::*;
use crate::model::{
    CrateInfo, DependencyKind, DependencyRef, DependencyRefView, EdgeContext, EdgeContextView,
    ModuleInfo, ModuleTree, SourceLocation, SourceLocationView, TestKind, dep_module_target, dep_views,
};
use crate::order::{
    lex_lt, lemma_lex_irreflexive, lemma_lex_total, lemma_lex_transitive, str_lt, comps_lt, lemma_comps_irreflexive, lemma_comps_total, lemma_comps_transitive,
    path_components, path_less,
};
use crate::strings::{copy_string, str_eq};
use petgraph::graph::{DiGraph, EdgeIndex, NodeIndex};

verus! {

#[verifier::external_type_specification]
#[verifier::external_body]
#[verifier::reject_recursive_types(N)]
#[verifier::reject_recursive_types(E)]
#[verifier::reject_recursive_types(Ty)]
#[verifier::reject_recursive_types(Ix)]
pub struct ExGraph<N, E, Ty, Ix>(petgraph::graph::Graph<N, E, Ty, Ix>);

#[verifier::external_type_specification]
#[verifier::external_body]
pub struct ExDirected(petgraph::Directed);

/// A crate, or a module of the crate at node index `crate_idx`.
#[derive(Debug)]
pub enum Node {
    Crate { name: String, path: String },
    Module { name: String, crate_idx: usize },
}

pub enum NodeView {
    Crate { name: Seq<char>, path: Seq<char> },
    Module { name: Seq<char>, crate_idx: usize },
}

impl View for Node {
    type V = NodeView;

    open spec fn view(&self) -> NodeView {
        match self {
            Node::Crate { name, path } => NodeView::Crate { name: name@, path: path@ },
            Node::Module { name, crate_idx } => NodeView::Module { name: name@, crate_idx: *crate_idx },
        }
    }
}

pub open spec fn node_name(n: NodeView) -> Seq<char> {
    match n {
        NodeView::Crate { name, .. } => name,
        NodeView::Module { name, .. } => name,
    }
}

impl Clone for Node {
    fn clone(&self) -> (r: Self)
        ensures
            r@ == self@,
    {
        match self {
            Node::Crate { name, path } => Node::Crate { name: name.clone(), path: path.clone() },
            Node::Module { name, crate_idx } => Node::Module { name: name.clone(), crate_idx: *crate_idx },
        }
    }
}

impl Node {
    pub fn is_crate(&self) -> (r: bool)
        ensures
            r == (self@ is Crate),
    {
        match self {
            Node::Crate { .. } => true,
            Node::Module { .. } => false,
        }
    }

    pub fn name(&self) -> (r: &str)
        ensures
            r@ == node_name(self@),
    {
        match self {
            Node::Crate { name, .. } => name.as_str(),
            Node::Module { name, .. } => name.as_str(),
        }
    }
}

/// Views of source locations.
pub open spec fn loc_views(s: Seq<SourceLocation>) -> Seq<SourceLocationView> {
    s.map_values(|l: SourceLocation| l@)
}

/// A crate dependency, a module dependency found at `locations`, or the
/// containment of a module in its parent.
#[derive(Debug)]
pub enum Edge {
    CrateDep { context: EdgeContext },
    ModuleDep { locations: Vec<SourceLocation>, context: EdgeContext },
    Contains,
}

pub enum EdgeView {
    CrateDep { context: EdgeContextView },
    ModuleDep { locations: Seq<SourceLocationView>, context: EdgeContextView },
    Contains,
}

impl View for Edge {
    type V = EdgeView;

    open spec fn view(&self) -> EdgeView {
        match self {
            Edge::CrateDep { context } => EdgeView::CrateDep { context: context@ },
            Edge::ModuleDep { locations, context } => EdgeView::ModuleDep {
                locations: loc_views(locations@),
                context: context@,
            },
            Edge::Contains => EdgeView::Contains,
        }
    }
}

/// The context of a dependency edge; none for containment.
pub open spec fn edge_context(e: EdgeView) -> Option<EdgeContextView> {
    match e {
        EdgeView::CrateDep { context } => Some(context),
        EdgeView::ModuleDep { context, .. } => Some(context),
        EdgeView::Contains => None,
    }
}

pub open spec fn is_production_edge(e: EdgeView) -> bool {
    edge_context(e) matches Some(c) && c.kind == DependencyKind::Production
}

pub open spec fn is_production_module_dep_edge(e: EdgeView) -> bool {
    e matches EdgeView::ModuleDep { context, .. } && context.kind == DependencyKind::Production
}

pub open spec fn is_production_crate_dep_edge(e: EdgeView) -> bool {
    e matches EdgeView::CrateDep { context } && context.kind == DependencyKind::Production
}

pub open spec fn is_test_crate_dep_edge(e: EdgeView) -> bool {
    e matches EdgeView::CrateDep { context } && context.kind is Test
}

impl Edge {
    /// The edge's context, if it is a dependency edge.
    pub fn context(&self) -> (r: Option<&EdgeContext>)
        ensures
            r is Some == edge_context(self@) is Some,
            r matches Some(c) ==> edge_context(self@) == Some(c@),
    {
        match self {
            Edge::CrateDep { context } => Some(context),
            Edge::ModuleDep { context, .. } => Some(context),
            Edge::Contains => None,
        }
    }

    /// Whether this is a production dependency edge.
    pub fn is_production(&self) -> (r: bool)
        ensures
            r == is_production_edge(self@),
    {
        match self.context() {
            Some(c) => c.kind == DependencyKind::Production,
            None => false,
        }
    }

    pub fn is_production_module_dep(&self) -> (r: bool)
        ensures
            r == is_production_module_dep_edge(self@),
    {
        match self {
            Edge::ModuleDep { context, .. } => context.kind == DependencyKind::Production,
            _ => false,
        }
    }

    pub fn is_production_crate_dep(&self) -> (r: bool)
        ensures
            r == is_production_crate_dep_edge(self@),
    {
        match self {
            Edge::CrateDep { context } => context.kind == DependencyKind::Production,
            _ => false,
        }
    }

    pub fn is_test_crate_dep(&self) -> (r: bool)
        ensures
            r == is_test_crate_dep_edge(self@),
    {
        match self {
            Edge::CrateDep { context } => match context.kind {
                DependencyKind::Test(_) => true,
                _ => false,
            },
            _ => false,
        }
    }

    pub fn is_contains(&self) -> (r: bool)
        ensures
            r == (self@ is Contains),
    {
        match self {
            Edge::Contains => true,
            _ => false,
        }
    }
}

/// The node weights of a dependency graph, by node index.
pub uninterp spec fn graph_nodes(g: DiGraph<Node, Edge>) -> Seq<NodeView>;

/// The edges `(source, target, weight)` of a dependency graph, by edge index.
pub uninterp spec fn graph_edges(g: DiGraph<Node, Edge>) -> Seq<(usize, usize, EdgeView)>;

/// `DiGraph::new`: a graph without nodes or edges.
#[verifier::external_body]
fn graph_new() -> (g: DiGraph<Node, Edge>)
    ensures
        graph_nodes(g) == Seq::<NodeView>::empty(),
        graph_edges(g) == Seq::<(usize, usize, EdgeView)>::empty(),
{
    DiGraph::new()
}

/// `Graph::add_node`: appends a node; its index is the former node count.
/// petgraph panics when the count reaches `u32::MAX`, which `requires` rules out.
#[verifier::external_body]
fn graph_add_node(g: &mut DiGraph<Node, Edge>, n: Node) -> (i: usize)
    requires
        graph_nodes(*old(g)).len() < u32::MAX,
    ensures
        i == graph_nodes(*old(g)).len(),
        graph_nodes(*final(g)) == graph_nodes(*old(g)).push(n@),
        graph_edges(*final(g)) == graph_edges(*old(g)),
{
    g.add_node(n).index()
}

/// `Graph::add_edge`: appends an edge; its index is the former edge count.
/// petgraph panics on an endpoint out of range or at `u32::MAX` edges.
#[verifier::external_body]
fn graph_add_edge(g: &mut DiGraph<Node, Edge>, a: usize, b: usize, e: Edge) -> (i: usize)
    requires
        a < graph_nodes(*old(g)).len(),
        b < graph_nodes(*old(g)).len(),
        graph_nodes(*old(g)).len() <= u32::MAX,
        graph_edges(*old(g)).len() < u32::MAX,
    ensures
        i == graph_edges(*old(g)).len(),
        graph_edges(*final(g)) == graph_edges(*old(g)).push((a, b, e@)),
        graph_nodes(*final(g)) == graph_nodes(*old(g)),
{
    g.add_edge(NodeIndex::new(a), NodeIndex::new(b), e).index()
}

/// `Graph::node_count`.
#[verifier::external_body]
fn graph_node_count(g: &DiGraph<Node, Edge>) -> (r: usize)
    ensures
        r == graph_nodes(*g).len(),
{
    g.node_count()
}

/// `Graph::edge_count`.
#[verifier::external_body]
fn graph_edge_count(g: &DiGraph<Node, Edge>) -> (r: usize)
    ensures
        r == graph_edges(*g).len(),
{
    g.edge_count()
}

/// Indexing by `NodeIndex`: the weight of node `i`.
#[verifier::external_body]
fn graph_node(g: &DiGraph<Node, Edge>, i: usize) -> (n: &Node)
    requires
        i < graph_nodes(*g).len(),
        graph_nodes(*g).len() <= u32::MAX,
    ensures
        n@ == graph_nodes(*g)[i as int],
{
    &g[NodeIndex::new(i)]
}

/// `Graph::raw_edges`: source, target and weight of edge `e`.
#[verifier::external_body]
fn graph_edge(g: &DiGraph<Node, Edge>, e: usize) -> (r: (usize, usize, &Edge))
    requires
        e < graph_edges(*g).len(),
    ensures
        r.0 == graph_edges(*g)[e as int].0,
        r.1 == graph_edges(*g)[e as int].1,
        r.2@ == graph_edges(*g)[e as int].2,
{
    let ed = &g.raw_edges()[e];
    (ed.source().index(), ed.target().index(), &ed.weight)
}

/// Whether some edge goes from `a` to `b`.
pub open spec fn has_edge(edges: Seq<(usize, usize, EdgeView)>, a: usize, b: usize) -> bool {
    exists|e: int| 0 <= e < edges.len() && #[trigger] edges[e].0 == a && edges[e].1 == b
}

/// Edge `e` goes from `a` to `b` and no later edge does.
pub open spec fn is_last_edge(edges: Seq<(usize, usize, EdgeView)>, e: int, a: usize, b: usize) -> bool {
    &&& 0 <= e < edges.len()
    &&& edges[e].0 == a
    &&& edges[e].1 == b
    &&& forall|f: int| e < f < edges.len() ==> !(#[trigger] edges[f].0 == a && edges[f].1 == b)
}

/// `Graph::find_edge`: an edge from `a` to `b`, if any. petgraph walks the
/// outgoing list of `a`, which holds the most recently added edge first, so
/// the edge found is the last one added from `a` to `b`.
#[verifier::external_body]
fn graph_find_edge(g: &DiGraph<Node, Edge>, a: usize, b: usize) -> (r: Option<usize>)
    requires
        a < graph_nodes(*g).len(),
        b < graph_nodes(*g).len(),
        graph_nodes(*g).len() <= u32::MAX,
    ensures
        r is None <==> !has_edge(graph_edges(*g), a, b),
        r is Some ==> is_last_edge(graph_edges(*g), r->0 as int, a, b),
{
    match g.find_edge(NodeIndex::new(a), NodeIndex::new(b)) {
        Some(e) => Some(e.index()),
        None => None,
    }
}

pub struct ArcGraphView {
    pub nodes: Seq<NodeView>,
    pub edges: Seq<(usize, usize, EdgeView)>,
}

/// Directed dependency graph of workspace crates and modules.
pub struct ArcGraph {
    graph: DiGraph<Node, Edge>,
}

impl View for ArcGraph {
    type V = ArcGraphView;

    closed spec fn view(&self) -> ArcGraphView {
        ArcGraphView { nodes: graph_nodes(self.graph), edges: graph_edges(self.graph) }
    }
}

/// Every edge joins two nodes of the graph, and indices fit petgraph's `u32`.
pub open spec fn graph_wf(v: ArcGraphView) -> bool {
    &&& v.nodes.len() <= u32::MAX
    &&& v.edges.len() <= u32::MAX
    &&& forall|e: int| 0 <= e < v.edges.len() ==> (#[trigger] v.edges[e]).0 < v.nodes.len() && v.edges[e].1 < v.nodes.len()
}

impl ArcGraph {
    /// Every graph is well formed (`use_type_invariant` gives it).
    #[verifier::type_invariant]
    pub open spec fn inv(self) -> bool {
        graph_wf(self@)
    }

    /// An empty graph.
    pub fn new() -> (r: Self)
        ensures
            r@.nodes.len() == 0,
            r@.edges.len() == 0,
    {
        ArcGraph { graph: graph_new() }
    }

    /// Adds a node; returns its index.
    pub fn add_node(&mut self, n: Node) -> (i: usize)
        requires
            old(self)@.nodes.len() < u32::MAX,
        ensures
            i == old(self)@.nodes.len(),
            final(self)@.nodes == old(self)@.nodes.push(n@),
            final(self)@.edges == old(self)@.edges,
    {
        proof {
            use_type_invariant(&*self);
        }
        let ghost v = self@;
        let mut g = graph_new();
        std::mem::swap(&mut g, &mut self.graph);
        let i = graph_add_node(&mut g, n);
        self.graph = g;
        proof {
            assert forall|e: int| 0 <= e < self@.edges.len() implies (#[trigger] self@.edges[e]).0 < self@.nodes.len()
                && self@.edges[e].1 < self@.nodes.len() by {
                assert(self@.edges[e] == v.edges[e]);
            }
        }
        i
    }

    /// Adds an edge from `a` to `b`; returns its index.
    pub fn add_edge(&mut self, a: usize, b: usize, e: Edge) -> (i: usize)
        requires
            a < old(self)@.nodes.len(),
            b < old(self)@.nodes.len(),
            old(self)@.edges.len() < u32::MAX,
        ensures
            i == old(self)@.edges.len(),
            final(self)@.edges == old(self)@.edges.push((a, b, e@)),
            final(self)@.nodes == old(self)@.nodes,
    {
        proof {
            use_type_invariant(&*self);
        }
        let ghost v = self@;
        let mut g = graph_new();
        std::mem::swap(&mut g, &mut self.graph);
        let i = graph_add_edge(&mut g, a, b, e);
        self.graph = g;
        proof {
            assert forall|k: int| 0 <= k < self@.edges.len() implies (#[trigger] self@.edges[k]).0 < self@.nodes.len()
                && self@.edges[k].1 < self@.nodes.len() by {
                if k < v.edges.len() {
                    assert(self@.edges[k] == v.edges[k]);
                }
            }
        }
        i
    }

    pub fn node_count(&self) -> (r: usize)
        ensures
            r == self@.nodes.len(),
    {
        graph_node_count(&self.graph)
    }

    pub fn edge_count(&self) -> (r: usize)
        ensures
            r == self@.edges.len(),
    {
        graph_edge_count(&self.graph)
    }

    /// The weight of node `i`.
    pub fn node(&self, i: usize) -> (n: &Node)
        requires
            i < self@.nodes.len(),
        ensures
            n@ == self@.nodes[i as int],
    {
        proof {
            use_type_invariant(self);
        }
        graph_node(&self.graph, i)
    }

    /// Source, target and weight of edge `e`.
    pub fn edge(&self, e: usize) -> (r: (usize, usize, &Edge))
        requires
            e < self@.edges.len(),
        ensures
            r.0 == self@.edges[e as int].0,
            r.1 == self@.edges[e as int].1,
            r.2@ == self@.edges[e as int].2,
            r.0 < self@.nodes.len(),
            r.1 < self@.nodes.len(),
    {
        proof {
            use_type_invariant(self);
        }
        graph_edge(&self.graph, e)
    }

    /// The last added edge from `a` to `b`, if any.
    pub fn find_edge(&self, a: usize, b: usize) -> (r: Option<usize>)
        requires
            a < self@.nodes.len(),
            b < self@.nodes.len(),
        ensures
            r is None <==> !has_edge(self@.edges, a, b),
            r is Some ==> is_last_edge(self@.edges, r->0 as int, a, b),
    {
        proof {
            use_type_invariant(self);
        }
        graph_find_edge(&self.graph, a, b)
    }
}

} // verus!

verus! {

/// The node that owns `i`: the crate of a module, a crate itself.
pub open spec fn owning_crate_spec(v: ArcGraphView, i: usize) -> usize {
    match v.nodes[i as int] {
        NodeView::Module { crate_idx, .. } => crate_idx,
        NodeView::Crate { .. } => i,
    }
}

/// Which edges a closure follows.
#[derive(Clone, Copy)]
pub enum Follow {
    /// Containment edges.
    Containment,
    /// Production crate dependencies into crate nodes.
    ProductionCrateDeps,
}

/// Whether edge `e` is followed.
pub open spec fn follows(f: Follow, v: ArcGraphView, e: int) -> bool {
    match f {
        Follow::Containment => v.edges[e].2 is Contains,
        Follow::ProductionCrateDeps => is_production_crate_dep_edge(v.edges[e].2)
            && v.nodes[v.edges[e].1 as int] is Crate,
    }
}

/// Every followed edge out of `s` ends in `s`.
pub open spec fn closed_under(v: ArcGraphView, f: Follow, s: Set<usize>) -> bool {
    forall|e: int|
        0 <= e < v.edges.len() && s.contains(v.edges[e].0) && #[trigger] follows(f, v, e) ==> s.contains(v.edges[e].1)
}

/// `r` is the least set that holds `start` and is closed under `f`: the
/// nodes reachable from `start` along followed edges.
pub open spec fn is_closure(v: ArcGraphView, f: Follow, start: Set<usize>, r: Set<usize>) -> bool {
    &&& start.subset_of(r)
    &&& closed_under(v, f, r)
    &&& forall|s: Set<usize>| start.subset_of(s) && #[trigger] closed_under(v, f, s) ==> r.subset_of(s)
}

/// The indices whose flag is set.
pub open spec fn mask_set(m: Seq<bool>) -> Set<usize> {
    Set::new(|i: usize| i < m.len() && m[i as int])
}

pub open spec fn count_true(m: Seq<bool>) -> nat
    decreases m.len(),
{
    if m.len() == 0 {
        0
    } else {
        count_true(m.drop_last()) + if m.last() { 1nat } else { 0nat }
    }
}

proof fn lemma_count_true_bound(m: Seq<bool>)
    ensures
        count_true(m) <= m.len(),
    decreases m.len(),
{
    if m.len() > 0 {
        lemma_count_true_bound(m.drop_last());
    }
}

proof fn lemma_count_true_set(m: Seq<bool>, i: int)
    requires
        0 <= i < m.len(),
        !m[i],
    ensures
        count_true(m.update(i, true)) == count_true(m) + 1,
    decreases m.len(),
{
    if i == m.len() - 1 {
        assert(m.update(i, true).drop_last() =~= m.drop_last());
    } else {
        assert(m.update(i, true).drop_last() =~= m.drop_last().update(i, true));
        lemma_count_true_set(m.drop_last(), i);
    }
}

/// The indices whose flag is set, in increasing order.
pub fn mask_indices(m: &Vec<bool>) -> (r: Vec<usize>)
    ensures
        r@.to_set() == mask_set(m@),
        forall|a: int, b: int| 0 <= a < b < r.len() ==> r@[a] < r@[b],
        forall|a: int| 0 <= a < r.len() ==> r@[a] < m.len(),
{
    let mut r: Vec<usize> = Vec::new();
    let mut i: usize = 0;
    while i < m.len()
        invariant
            0 <= i <= m.len(),
            forall|a: int, b: int| 0 <= a < b < r.len() ==> r@[a] < r@[b],
            forall|a: int| 0 <= a < r.len() ==> r@[a] < i,
            forall|a: int| 0 <= a < r.len() ==> m@[r@[a] as int],
            forall|j: usize| j < i && m@[j as int] ==> r@.contains(j),
        decreases m.len() - i,
    {
        let ghost r0 = r@;
        if m[i] {
            r.push(i);
            assert(r@[r.len() - 1] == i);
        }
        assert forall|j: usize| j < i + 1 && m@[j as int] implies r@.contains(j) by {
            if j < i {
                let a = choose|a: int| 0 <= a < r0.len() && r0[a] == j;
                assert(r@[a] == j);
            } else {
                assert(r@[r.len() - 1] == i);
            }
        }
        i = i + 1;
    }
    assert(r@.to_set() =~= mask_set(m@)) by {
        assert forall|j: usize| r@.to_set().contains(j) implies mask_set(m@).contains(j) by {
            let a = choose|a: int| 0 <= a < r.len() && r@[a] == j;
        }
    }
    r
}

impl ArcGraph {
    /// The crate that owns node `i` (a module's crate, or the crate itself).
    pub fn owning_crate(&self, i: usize) -> (r: usize)
        requires
            i < self@.nodes.len(),
        ensures
            r == owning_crate_spec(self@, i),
    {
        match self.node(i) {
            Node::Module { crate_idx, .. } => *crate_idx,
            Node::Crate { .. } => i,
        }
    }

    fn follows_exec(&self, f: Follow, e: usize) -> (r: bool)
        requires
            e < self@.edges.len(),
        ensures
            r == follows(f, self@, e as int),
    {
        let (_, b, w) = self.edge(e);
        match f {
            Follow::Containment => w.is_contains(),
            Follow::ProductionCrateDeps => w.is_production_crate_dep() && self.node(b).is_crate(),
        }
    }

    /// Marks every node reachable from the marked ones along followed edges.
    fn closure(&self, f: Follow, start: Vec<bool>) -> (r: Vec<bool>)
        requires
            start.len() == self@.nodes.len(),
        ensures
            r.len() == self@.nodes.len(),
            is_closure(self@, f, mask_set(start@), mask_set(r@)),
    {
        proof {
            use_type_invariant(self);
        }
        let ghost v = self@;
        let n = self.node_count();
        let ne = self.edge_count();
        let mut work = mask_indices(&start);
        let mut in_set = start;
        proof {
            assert(work@.no_duplicates()) by {
                assert forall|a: int, b: int| 0 <= a < work.len() && 0 <= b < work.len() && a != b implies work@[a]
                    != work@[b] by {
                    if a < b {
                    } else {
                    }
                }
            }
            lemma_count_true_bound(in_set@);
            assert forall|a: int| 0 <= a < work.len() implies work@[a] < n && in_set@[work@[a] as int] by {
                assert(work@.to_set().contains(work@[a]));
                assert(mask_set(start@).contains(work@[a]));
            }
            assert forall|e: int|
                0 <= e < ne && #[trigger] follows(f, v, e) && in_set@[v.edges[e].0 as int]
                    && !work@.contains(v.edges[e].0) implies in_set@[v.edges[e].1 as int] by {
                assert(mask_set(start@).contains(v.edges[e].0));
                assert(work@.to_set().contains(v.edges[e].0));
            }
        }
        while work.len() > 0
            invariant
                v == self@,
                graph_wf(v),
                n == v.nodes.len(),
                ne == v.edges.len(),
                in_set.len() == n,
                mask_set(start@).subset_of(mask_set(in_set@)),
                forall|s: Set<usize>| mask_set(start@).subset_of(s) && #[trigger] closed_under(v, f, s)
                    ==> mask_set(in_set@).subset_of(s),
                work@.no_duplicates(),
                forall|a: int| 0 <= a < work.len() ==> work@[a] < n && in_set@[work@[a] as int],
                forall|e: int|
                    0 <= e < ne && #[trigger] follows(f, v, e) && in_set@[v.edges[e].0 as int]
                        && !work@.contains(v.edges[e].0) ==> in_set@[v.edges[e].1 as int],
                count_true(in_set@) <= n,
            decreases n - count_true(in_set@), work.len(),
        {
            let ghost work_full = work@;
            let x = work.pop().unwrap();
            let ghost before_count = count_true(in_set@);
            let ghost work0 = work@;
            assert(work_full == work0.push(x));
            assert forall|k: int|
                0 <= k < ne && #[trigger] follows(f, v, k) && in_set@[v.edges[k].0 as int]
                    && !work@.contains(v.edges[k].0) && v.edges[k].0 != x implies in_set@[v.edges[k].1 as int] by {
                if work_full.contains(v.edges[k].0) {
                    let a5 = choose|a5: int| 0 <= a5 < work_full.len() && work_full[a5] == v.edges[k].0;
                    if a5 < work0.len() {
                        assert(work0[a5] == v.edges[k].0);
                    }
                }
            }
            assert(!work@.contains(x)) by {
                if work@.contains(x) {
                    let a = choose|a: int| 0 <= a < work.len() && work@[a] == x;
                    assert(work0.push(x)[a] == work0.push(x)[work0.len() as int]);
                }
            }
            let mut e: usize = 0;
            while e < ne
                invariant
                    v == self@,
                    graph_wf(v),
                    n == v.nodes.len(),
                    ne == v.edges.len(),
                    0 <= e <= ne,
                    x < n,
                    in_set@[x as int],
                    in_set.len() == n,
                    mask_set(start@).subset_of(mask_set(in_set@)),
                    forall|s: Set<usize>| mask_set(start@).subset_of(s) && #[trigger] closed_under(v, f, s)
                        ==> mask_set(in_set@).subset_of(s),
                    work@.no_duplicates(),
                    !work@.contains(x),
                    forall|a: int| 0 <= a < work.len() ==> work@[a] < n && in_set@[work@[a] as int],
                    forall|k: int|
                        0 <= k < ne && #[trigger] follows(f, v, k) && in_set@[v.edges[k].0 as int]
                            && !work@.contains(v.edges[k].0) && v.edges[k].0 != x ==> in_set@[v.edges[k].1 as int],
                    forall|k: int| 0 <= k < e && #[trigger] follows(f, v, k) && v.edges[k].0 == x ==> in_set@[v.edges[k].1 as int],
                    count_true(in_set@) <= n,
                    count_true(in_set@) >= before_count,
                    count_true(in_set@) == before_count ==> work@ == work0,
                decreases ne - e,
            {
                let (a, b, _) = self.edge(e);
                if a == x && self.follows_exec(f, e) && !in_set[b] {
                    let ghost old_set = mask_set(in_set@);
                    let ghost old_work = work@;
                    proof {
                        lemma_count_true_set(in_set@, b as int);
                        lemma_count_true_bound(in_set@.update(b as int, true));
                    }
                    in_set.set(b, true);
                    work.push(b);
                    proof {
                        assert(mask_set(in_set@) =~= old_set.insert(b));
                        assert forall|s: Set<usize>| mask_set(start@).subset_of(s) && #[trigger] closed_under(v, f, s)
                            implies mask_set(in_set@).subset_of(s) by {
                            assert(old_set.subset_of(s));
                            assert(old_set.contains(x));
                            assert(s.contains(v.edges[e as int].0));
                        }
                        assert(!old_work.contains(b)) by {
                            if old_work.contains(b) {
                                let a2 = choose|a2: int| 0 <= a2 < old_work.len() && old_work[a2] == b;
                            }
                        }
                        assert forall|k: int|
                            0 <= k < ne && #[trigger] follows(f, v, k) && in_set@[v.edges[k].0 as int]
                                && !work@.contains(v.edges[k].0) && v.edges[k].0 != x implies in_set@[v.edges[k].1 as int] by {
                            if v.edges[k].0 != b {
                                assert(old_work.contains(v.edges[k].0) ==> work@.contains(v.edges[k].0)) by {
                                    if old_work.contains(v.edges[k].0) {
                                        let a3 = choose|a3: int| 0 <= a3 < old_work.len() && old_work[a3] == v.edges[k].0;
                                        assert(work@[a3] == old_work[a3]);
                                    }
                                }
                            } else {
                                assert(work@[work.len() - 1] == b);
                            }
                        }
                        assert(!work@.contains(x)) by {
                            if work@.contains(x) {
                                let a4 = choose|a4: int| 0 <= a4 < work.len() && work@[a4] == x;
                                if a4 < old_work.len() {
                                    assert(old_work[a4] == x);
                                }
                            }
                        }
                    }
                }
                e = e + 1;
            }
        }
        proof {
            assert(closed_under(v, f, mask_set(in_set@))) by {
                assert forall|e: int|
                    0 <= e < v.edges.len() && mask_set(in_set@).contains(v.edges[e].0) && #[trigger] follows(f, v, e)
                    implies mask_set(in_set@).contains(v.edges[e].1) by {
                    assert(!work@.contains(v.edges[e].0));
                }
            }
        }
        in_set
    }

    /// Whether `parent` has a containment edge to `child`.
    pub fn contains_child(&self, parent: usize, child: usize) -> (r: bool)
        ensures
            r == exists|e: int|
                0 <= e < self@.edges.len() && #[trigger] self@.edges[e].0 == parent && self@.edges[e].1 == child
                    && self@.edges[e].2 is Contains,
    {
        let ne = self.edge_count();
        let mut e: usize = 0;
        while e < ne
            invariant
                ne == self@.edges.len(),
                0 <= e <= ne,
                forall|k: int|
                    0 <= k < e ==> !(#[trigger] self@.edges[k].0 == parent && self@.edges[k].1 == child
                        && self@.edges[k].2 is Contains),
            decreases ne - e,
        {
            let (a, b, w) = self.edge(e);
            if a == parent && b == child && w.is_contains() {
                return true;
            }
            e = e + 1;
        }
        false
    }

    /// All descendants of `root` along containment edges, `root` included.
    pub fn containment_subtree(&self, root: usize) -> (r: Vec<usize>)
        requires
            root < self@.nodes.len(),
        ensures
            is_closure(self@, Follow::Containment, set![root], r@.to_set()),
            forall|a: int, b: int| 0 <= a < b < r.len() ==> r@[a] < r@[b],
            forall|a: int| 0 <= a < r.len() ==> r@[a] < self@.nodes.len(),
    {
        let n = self.node_count();
        let mut start: Vec<bool> = Vec::new();
        let mut i: usize = 0;
        while i < n
            invariant
                n == self@.nodes.len(),
                0 <= i <= n,
                start.len() == i,
                forall|j: int| 0 <= j < i ==> start@[j] == (j == root),
            decreases n - i,
        {
            start.push(i == root);
            i = i + 1;
        }
        assert(mask_set(start@) =~= set![root]);
        let m = self.closure(Follow::Containment, start);
        mask_indices(&m)
    }
}

/// Crate nodes that contain modules.
pub open spec fn anchor_crates(v: ArcGraphView) -> Set<usize> {
    Set::new(|i: usize| i < v.nodes.len() && v.nodes[i as int] is Crate && exists|e: int|
        0 <= e < v.edges.len() && #[trigger] v.edges[e].0 == i && v.edges[e].2 is Contains)
}

/// All crate nodes.
pub open spec fn crate_nodes(v: ArcGraphView) -> Set<usize> {
    Set::new(|i: usize| i < v.nodes.len() && v.nodes[i as int] is Crate)
}

/// Whether some crate dependency is a test dependency.
pub open spec fn has_test_crate_dep(v: ArcGraphView) -> bool {
    exists|e: int| 0 <= e < v.edges.len() && #[trigger] is_test_crate_dep_edge(v.edges[e].2)
}

/// The parent of `child` given by the last containment edge into it among
/// the first `n` edges.
pub open spec fn parent_in(edges: Seq<(usize, usize, EdgeView)>, n: int, child: usize) -> Option<usize>
    decreases n,
{
    if n <= 0 {
        None
    } else if edges[n - 1].1 == child && edges[n - 1].2 is Contains {
        Some(edges[n - 1].0)
    } else {
        parent_in(edges, n - 1, child)
    }
}

/// The parent of a node: the source of the last containment edge into it.
pub open spec fn parent_of(v: ArcGraphView, child: usize) -> Option<usize> {
    parent_in(v.edges, v.edges.len() as int, child)
}

impl ArcGraph {
    /// Crates kept in the layout: every crate when some crate dependency is a
    /// test dependency; otherwise the crates that contain modules and the
    /// crates reachable from them along production crate dependencies.
    pub fn production_reachable(&self) -> (r: Vec<usize>)
        ensures
            has_test_crate_dep(self@) ==> r@.to_set() == crate_nodes(self@),
            !has_test_crate_dep(self@) ==> is_closure(
                self@,
                Follow::ProductionCrateDeps,
                anchor_crates(self@),
                r@.to_set(),
            ),
            forall|a: int, b: int| 0 <= a < b < r.len() ==> r@[a] < r@[b],
    {
        let n = self.node_count();
        let ne = self.edge_count();
        let mut any_test = false;
        let mut e: usize = 0;
        while e < ne
            invariant
                ne == self@.edges.len(),
                0 <= e <= ne,
                any_test == exists|k: int| 0 <= k < e && #[trigger] is_test_crate_dep_edge(self@.edges[k].2),
            decreases ne - e,
        {
            let (_, _, w) = self.edge(e);
            if w.is_test_crate_dep() {
                any_test = true;
            }
            e = e + 1;
        }
        let mut mask: Vec<bool> = Vec::new();
        let mut i: usize = 0;
        while i < n
            invariant
                n == self@.nodes.len(),
                ne == self@.edges.len(),
                0 <= i <= n,
                mask.len() == i,
                forall|j: int| 0 <= j < i ==> mask@[j] == if any_test {
                    self@.nodes[j] is Crate
                } else {
                    anchor_crates(self@).contains(j as usize)
                },
            decreases n - i,
        {
            let is_crate = self.node(i).is_crate();
            if any_test {
                mask.push(is_crate);
            } else {
                let mut has_contains = false;
                let mut k: usize = 0;
                while k < ne
                    invariant
                        ne == self@.edges.len(),
                        0 <= k <= ne,
                        has_contains == exists|q: int|
                            0 <= q < k && #[trigger] self@.edges[q].0 == i && self@.edges[q].2 is Contains,
                    decreases ne - k,
                {
                    let (a, _, w) = self.edge(k);
                    if a == i && w.is_contains() {
                        has_contains = true;
                    }
                    k = k + 1;
                }
                mask.push(is_crate && has_contains);
            }
            i = i + 1;
        }
        if any_test {
            assert(mask_set(mask@) =~= crate_nodes(self@));
            return mask_indices(&mask);
        }
        assert(mask_set(mask@) =~= anchor_crates(self@));
        let m = self.closure(Follow::ProductionCrateDeps, mask);
        mask_indices(&m)
    }

    /// For every node, its parent along containment edges (the last such edge wins).
    pub fn parent_map(&self) -> (r: Vec<Option<usize>>)
        ensures
            r.len() == self@.nodes.len(),
            forall|i: int| 0 <= i < r.len() ==> r@[i] == parent_of(self@, i as usize),
    {
        proof {
            use_type_invariant(self);
        }
        let n = self.node_count();
        let ne = self.edge_count();
        let mut r: Vec<Option<usize>> = Vec::new();
        let mut i: usize = 0;
        while i < n
            invariant
                0 <= i <= n,
                r.len() == i,
                forall|j: int| 0 <= j < i ==> r@[j] is None,
            decreases n - i,
        {
            r.push(None);
            i = i + 1;
        }
        let mut e: usize = 0;
        while e < ne
            invariant
                graph_wf(self@),
                n == self@.nodes.len(),
                ne == self@.edges.len(),
                0 <= e <= ne,
                r.len() == n,
                forall|j: int| 0 <= j < n ==> r@[j] == parent_in(self@.edges, e as int, j as usize),
            decreases ne - e,
        {
            let (a, b, w) = self.edge(e);
            if w.is_contains() {
                r.set(b, Some(a));
            }
            e = e + 1;
        }
        r
    }
}

} // verus!

verus! {

/// Views of a list of dependency references.
pub open spec fn ref_views(s: Seq<&DependencyRef>) -> Seq<DependencyRefView> {
    s.map_values(|d: &DependencyRef| d@)
}

/// Two dependencies were found at the same place: the same line of files
/// whose paths have the same components (equal `PathBuf` keys).
pub open spec fn same_place(a: DependencyRefView, b: DependencyRefView) -> bool {
    path_components(a.source_file) == path_components(b.source_file) && a.line == b.line
}

/// `a` was found before `b` in `(file, line)` order.
pub open spec fn place_lt(a: DependencyRefView, b: DependencyRefView) -> bool {
    comps_lt(path_components(a.source_file), path_components(b.source_file)) || (path_components(
        a.source_file,
    ) == path_components(b.source_file) && a.line < b.line)
}

/// Location `a` comes before location `b` in `(file, line)` order.
pub open spec fn loc_lt(a: SourceLocationView, b: SourceLocationView) -> bool {
    comps_lt(path_components(a.file), path_components(b.file)) || (path_components(a.file)
        == path_components(b.file) && a.line < b.line)
}

/// `deps[i]` is the first dependency found at its place.
pub open spec fn first_at_place(deps: Seq<DependencyRefView>, i: int) -> bool {
    forall|j: int| 0 <= j < i ==> !same_place(#[trigger] deps[j], deps[i])
}

/// The items of the dependencies found at the place of `d`, in order.
pub open spec fn items_at(deps: Seq<DependencyRefView>, d: DependencyRefView) -> Seq<Seq<char>>
    decreases deps.len(),
{
    if deps.len() == 0 {
        Seq::empty()
    } else {
        let prev = items_at(deps.drop_last(), d);
        let last = deps.last();
        if same_place(last, d) && last.target_item is Some {
            prev.push(last.target_item->0)
        } else {
            prev
        }
    }
}

/// The module path that the locations of a dependency group carry: the
/// module of the first dependency, or the target for an entry-point one.
pub open spec fn location_module_path(deps: Seq<DependencyRefView>, target: Seq<char>) -> Seq<char> {
    if deps[0].target_module.len() == 0 {
        target
    } else {
        deps[0].target_module
    }
}

proof fn lemma_place_lt_total(a: DependencyRefView, b: DependencyRefView)
    ensures
        place_lt(a, b) || place_lt(b, a) || same_place(a, b),
{
    lemma_comps_total(path_components(a.source_file), path_components(b.source_file));
}

proof fn lemma_place_lt_transitive(a: DependencyRefView, b: DependencyRefView, c: DependencyRefView)
    requires
        place_lt(a, b),
        place_lt(b, c),
    ensures
        place_lt(a, c),
{
    let (pa, pb, pc) = (path_components(a.source_file), path_components(b.source_file), path_components(c.source_file));
    if comps_lt(pa, pb) && comps_lt(pb, pc) {
        lemma_comps_transitive(pa, pb, pc);
    }
}

fn same_place_exec(a: &DependencyRef, b: &DependencyRef) -> (r: bool)
    ensures
        r == same_place(a@, b@),
{
    if a.line != b.line {
        return false;
    }
    let x = path_less(a.source_file.as_str(), b.source_file.as_str());
    let y = path_less(b.source_file.as_str(), a.source_file.as_str());
    proof {
        lemma_comps_total(path_components(a@.source_file), path_components(b@.source_file));
        if path_components(a@.source_file) == path_components(b@.source_file) {
            lemma_comps_irreflexive(path_components(a@.source_file));
        }
    }
    !x && !y
}

fn place_less(a: &DependencyRef, b: &DependencyRef) -> (r: bool)
    ensures
        r == place_lt(a@, b@),
{
    if path_less(a.source_file.as_str(), b.source_file.as_str()) {
        return true;
    }
    if path_less(b.source_file.as_str(), a.source_file.as_str()) {
        proof {
            let (pa, pb) = (path_components(a@.source_file), path_components(b@.source_file));
            if pa == pb {
                lemma_comps_irreflexive(pa);
            }
        }
        return false;
    }
    proof {
        lemma_comps_total(path_components(a@.source_file), path_components(b@.source_file));
    }
    a.line < b.line
}

/// `loc` is the location made for the place of `deps[i]`.
pub open spec fn is_location_of(deps: Seq<DependencyRefView>, target: Seq<char>, i: int, loc: SourceLocationView) -> bool {
    loc == (SourceLocationView {
        file: deps[i].source_file,
        line: deps[i].line,
        symbols: items_at(deps, deps[i]),
        mod_path: location_module_path(deps, target),
    })
}

/// `loc` is the location made for the place of some dependency of `deps`.
pub open spec fn is_location_in(deps: Seq<DependencyRefView>, target: Seq<char>, loc: SourceLocationView) -> bool {
    exists|i: int| 0 <= i < deps.len() && first_at_place(deps, i) && #[trigger] is_location_of(deps, target, i, loc)
}

/// Indices of the first dependency at each place, in order of appearance.
fn first_places(target_deps: &[&DependencyRef]) -> (reps: Vec<usize>)
    ensures
        forall|a: int| 0 <= a < reps.len() ==> reps@[a] < target_deps@.len() && first_at_place(ref_views(target_deps@), reps@[a] as int),
        forall|j: int| 0 <= j < target_deps@.len() && first_at_place(ref_views(target_deps@), j) ==> reps@.contains(j as usize),
        reps@.no_duplicates(),
{
    let ghost dv = ref_views(target_deps@);
    let n = target_deps.len();
    let mut reps: Vec<usize> = Vec::new();
    let mut i: usize = 0;
    while i < n
        invariant
            n == target_deps@.len(),
            dv == ref_views(target_deps@),
            0 <= i <= n,
            forall|a: int| 0 <= a < reps.len() ==> reps@[a] < i && first_at_place(dv, reps@[a] as int),
            forall|j: int| 0 <= j < i && first_at_place(dv, j) ==> reps@.contains(j as usize),
            forall|j: int| 0 <= j < i ==> exists|a: int| 0 <= a < reps.len() && same_place(dv[reps@[a] as int], #[trigger] dv[j]),
            reps@.no_duplicates(),
        decreases n - i,
    {
        let mut seen = false;
        let mut k: usize = 0;
        while k < reps.len()
            invariant
                n == target_deps@.len(),
                dv == ref_views(target_deps@),
                i < n,
                0 <= k <= reps.len(),
                forall|a: int| 0 <= a < reps.len() ==> reps@[a] < i,
                seen == exists|a: int| 0 <= a < k && same_place(dv[reps@[a] as int], dv[i as int]),
            decreases reps.len() - k,
        {
            assert(dv[reps@[k as int] as int] == target_deps@[reps@[k as int] as int]@);
            if same_place_exec(target_deps[reps[k]], target_deps[i]) {
                seen = true;
            }
            k = k + 1;
        }
        let ghost r0 = reps@;
        if !seen {
            proof {
                assert forall|j: int| 0 <= j < i implies !same_place(#[trigger] dv[j], dv[i as int]) by {
                    let a = choose|a: int| 0 <= a < reps.len() && same_place(dv[reps@[a] as int], dv[j]);
                    if same_place(dv[j], dv[i as int]) {
                        assert(same_place(dv[reps@[a] as int], dv[i as int]));
                    }
                }
            }
            reps.push(i);
        }
        proof {
            assert forall|j: int| 0 <= j < i + 1 && first_at_place(dv, j) implies reps@.contains(j as usize) by {
                if j < i {
                    let a = choose|a: int| 0 <= a < r0.len() && r0[a] == j as usize;
                    assert(reps@[a] == j as usize);
                } else {
                    if seen {
                        let a = choose|a: int| 0 <= a < r0.len() && same_place(dv[r0[a] as int], dv[i as int]);
                        assert(r0[a] < i);
                        assert(!same_place(dv[r0[a] as int], dv[j]));
                    }
                    assert(reps@[reps.len() - 1] == i);
                }
            }
            assert forall|j: int| 0 <= j < i + 1 implies exists|a: int| 0 <= a < reps.len() && same_place(dv[reps@[a] as int], #[trigger] dv[j]) by {
                if j < i {
                    let a = choose|a: int| 0 <= a < r0.len() && same_place(dv[r0[a] as int], dv[j]);
                    assert(reps@[a] == r0[a]);
                } else if !seen {
                    assert(reps@[reps.len() - 1] == i);
                    assert(same_place(dv[i as int], dv[i as int]));
                }
            }
            assert forall|a: int| 0 <= a < reps.len() implies reps@[a] < i + 1 && first_at_place(dv, reps@[a] as int) by {
                if a < r0.len() {
                    assert(reps@[a] == r0[a]);
                }
            }
        }
        i = i + 1;
    }
    reps
}

/// The given places in `(file, line)` order.
fn sort_places(target_deps: &[&DependencyRef], reps: &Vec<usize>) -> (sorted: Vec<usize>)
    requires
        forall|a: int| 0 <= a < reps.len() ==> reps@[a] < target_deps@.len() && first_at_place(ref_views(target_deps@), reps@[a] as int),
        reps@.no_duplicates(),
    ensures
        forall|a: int| 0 <= a < sorted.len() ==> sorted@[a] < target_deps@.len() && first_at_place(ref_views(target_deps@), sorted@[a] as int),
        forall|a: int, b: int| 0 <= a < b < sorted.len() ==> place_lt(ref_views(target_deps@)[sorted@[a] as int], ref_views(target_deps@)[sorted@[b] as int]),
        forall|a: int| 0 <= a < reps.len() ==> sorted@.contains(#[trigger] reps@[a]),
{
    let ghost dv = ref_views(target_deps@);
    let n = target_deps.len();
    let mut sorted: Vec<usize> = Vec::new();
    let mut q: usize = 0;
    while q < reps.len()
        invariant
            n == target_deps@.len(),
            dv == ref_views(target_deps@),
            0 <= q <= reps.len(),
            forall|a: int| 0 <= a < reps.len() ==> reps@[a] < n && first_at_place(dv, reps@[a] as int),
            reps@.no_duplicates(),
            forall|a: int| 0 <= a < sorted.len() ==> sorted@[a] < n && first_at_place(dv, sorted@[a] as int),
            forall|a: int, b: int| 0 <= a < b < sorted.len() ==> place_lt(dv[sorted@[a] as int], dv[sorted@[b] as int]),
            forall|a: int| 0 <= a < sorted.len() ==> reps@.take(q as int).contains(#[trigger] sorted@[a]),
            forall|a: int| 0 <= a < q ==> sorted@.contains(#[trigger] reps@[a]),
        decreases reps.len() - q,
    {
        let x = reps[q];
        let mut p: usize = 0;
        while p < sorted.len() && !place_less(target_deps[x], target_deps[sorted[p]])
            invariant
                n == target_deps@.len(),
                dv == ref_views(target_deps@),
                x < n,
                0 <= p <= sorted.len(),
                forall|a: int| 0 <= a < sorted.len() ==> sorted@[a] < n,
                forall|a: int| 0 <= a < p ==> !place_lt(dv[x as int], dv[sorted@[a] as int]),
            decreases sorted.len() - p,
        {
            p = p + 1;
        }
        let ghost s0 = sorted@;
        proof {
            assert forall|a: int| 0 <= a < s0.len() implies !same_place(dv[s0[a] as int], dv[x as int]) by {
                assert(reps@.take(q as int).contains(s0[a]));
                let t = choose|t: int| 0 <= t < q && reps@.take(q as int)[t] == s0[a];
                assert(reps@[t] == s0[a]);
                assert(reps@[t] != reps@[q as int]);
                let (u, w) = (s0[a] as int, x as int);
                if same_place(dv[u], dv[w]) {
                    if u < w {
                        assert(first_at_place(dv, w));
                        assert(!same_place(dv[u], dv[w]));
                    } else {
                        assert(first_at_place(dv, u));
                        assert(same_place(dv[w], dv[u]));
                    }
                }
            }
            assert forall|a: int| 0 <= a < p implies place_lt(dv[s0[a] as int], dv[x as int]) by {
                lemma_place_lt_total(dv[s0[a] as int], dv[x as int]);
            }
            if p < s0.len() {
                assert forall|a: int| p <= a < s0.len() implies place_lt(dv[x as int], dv[s0[a] as int]) by {
                    if a > p {
                        lemma_place_lt_transitive(dv[x as int], dv[s0[p as int] as int], dv[s0[a] as int]);
                    }
                }
            }
        }
        sorted.insert(p, x);
        proof {
            assert forall|a: int, b: int| 0 <= a < b < sorted.len() implies place_lt(dv[sorted@[a] as int], dv[sorted@[b] as int]) by {
                if b < p {
                    assert(sorted@[a] == s0[a] && sorted@[b] == s0[b]);
                } else if b == p {
                    assert(sorted@[a] == s0[a]);
                } else if a < p {
                    assert(sorted@[a] == s0[a] && sorted@[b] == s0[b - 1]);
                    lemma_place_lt_transitive(dv[s0[a] as int], dv[x as int], dv[s0[b - 1] as int]);
                } else if a == p {
                    assert(sorted@[b] == s0[b - 1]);
                } else {
                    assert(sorted@[a] == s0[a - 1] && sorted@[b] == s0[b - 1]);
                }
            }
            assert forall|a: int| 0 <= a < sorted.len() implies reps@.take(q + 1).contains(#[trigger] sorted@[a]) by {
                if a == p {
                    assert(reps@.take(q + 1)[q as int] == x);
                } else {
                    let b = if a < p { a } else { a - 1 };
                    assert(sorted@[a] == s0[b]);
                    assert(reps@.take(q as int).contains(s0[b]));
                    let t = choose|t: int| 0 <= t < q && reps@.take(q as int)[t] == s0[b];
                    assert(reps@.take(q + 1)[t] == s0[b]);
                }
            }
            assert forall|a: int| 0 <= a < q + 1 implies sorted@.contains(#[trigger] reps@[a]) by {
                if a == q {
                    assert(sorted@[p as int] == x);
                } else {
                    let t = choose|t: int| 0 <= t < s0.len() && s0[t] == reps@[a];
                    if t < p {
                        assert(sorted@[t] == s0[t]);
                    } else {
                        assert(sorted@[t + 1] == s0[t]);
                    }
                }
            }
            assert forall|a: int| 0 <= a < sorted.len() implies sorted@[a] < n && first_at_place(dv, sorted@[a] as int) by {
                if a < p {
                    assert(sorted@[a] == s0[a]);
                } else if a > p {
                    assert(sorted@[a] == s0[a - 1]);
                }
            }
        }
        q = q + 1;
    }
    sorted
}

/// The items of the dependencies at the place of `rep`, in order.
fn items_at_place(target_deps: &[&DependencyRef], rep: &DependencyRef) -> (r: Vec<String>)
    ensures
        r.deep_view() == items_at(ref_views(target_deps@), rep@),
{
    let ghost dv = ref_views(target_deps@);
    let n = target_deps.len();
    let mut symbols: Vec<String> = Vec::new();
    let mut j: usize = 0;
    assert(dv.take(0) =~= Seq::<DependencyRefView>::empty());
    while j < n
        invariant
            n == target_deps@.len(),
            dv == ref_views(target_deps@),
            0 <= j <= n,
            symbols.deep_view() == items_at(dv.take(j as int), rep@),
        decreases n - j,
    {
        let d = target_deps[j];
        assert(dv.take(j + 1).drop_last() =~= dv.take(j as int));
        assert(dv.take(j + 1).last() == d@);
        if same_place_exec(d, rep) {
            match &d.target_item {
                Some(item) => {
                    let ghost prev = symbols.deep_view();
                    symbols.push(item.clone());
                    assert(symbols.deep_view() =~= prev.push(item@));
                },
                None => {},
            }
        }
        j = j + 1;
    }
    assert(dv.take(n as int) =~= dv);
    symbols
}

/// Source locations of a group of dependencies on one target: one per
/// `(file, line)` place, in `(file, line)` order, each listing the items
/// used there and carrying the group's module path.
pub fn build_source_locations(target_deps: &[&DependencyRef], target: &str) -> (r: Vec<SourceLocation>)
    requires
        target_deps@.len() > 0,
    ensures
        forall|a: int, b: int| 0 <= a < b < r.len() ==> loc_lt(#[trigger] r@[a]@, #[trigger] r@[b]@),
        forall|k: int| 0 <= k < r.len() ==> is_location_in(ref_views(target_deps@), target@, #[trigger] r@[k]@),
        forall|i: int| 0 <= i < target_deps@.len() && first_at_place(ref_views(target_deps@), i) ==> exists|k: int|
            0 <= k < r.len() && #[trigger] r@[k]@.file == ref_views(target_deps@)[i].source_file
                && r@[k]@.line == ref_views(target_deps@)[i].line,
{
    let ghost dv = ref_views(target_deps@);
    let n = target_deps.len();
    let reps = first_places(target_deps);
    let sorted = sort_places(target_deps, &reps);
    let first = target_deps[0];
    let mod_path = if first.target_module.as_str().is_empty() {
        copy_string(target)
    } else {
        first.target_module.clone()
    };
    assert(mod_path@ == location_module_path(dv, target@));
    let mut out: Vec<SourceLocation> = Vec::new();
    let mut t: usize = 0;
    while t < sorted.len()
        invariant
            n == target_deps@.len(),
            dv == ref_views(target_deps@),
            mod_path@ == location_module_path(dv, target@),
            0 <= t <= sorted.len(),
            out.len() == t,
            forall|a: int| 0 <= a < sorted.len() ==> sorted@[a] < n && first_at_place(dv, sorted@[a] as int),
            forall|a: int| 0 <= a < t ==> #[trigger] out@[a]@ == (SourceLocationView {
                file: dv[sorted@[a] as int].source_file,
                line: dv[sorted@[a] as int].line,
                symbols: items_at(dv, dv[sorted@[a] as int]),
                mod_path: location_module_path(dv, target@),
            }),
        decreases sorted.len() - t,
    {
        let rep = target_deps[sorted[t]];
        let symbols = items_at_place(target_deps, rep);
        out.push(SourceLocation {
            file: rep.source_file.clone(),
            line: rep.line,
            symbols,
            mod_path: mod_path.clone(),
        });
        t = t + 1;
    }
    proof {
        assert forall|i: int| 0 <= i < target_deps@.len() && first_at_place(dv, i) implies exists|k: int|
            0 <= k < out.len() && #[trigger] out@[k]@.file == dv[i].source_file && out@[k]@.line == dv[i].line by {
            assert(reps@.contains(i as usize));
            let a = choose|a: int| 0 <= a < reps.len() && reps@[a] == i as usize;
            assert(sorted@.contains(reps@[a]));
            let k = choose|k: int| 0 <= k < sorted.len() && sorted@[k] == reps@[a];
            assert(out@[k]@.file == dv[i].source_file);
        }
        assert forall|a: int, b: int| 0 <= a < b < out.len() implies loc_lt(#[trigger] out@[a]@, #[trigger] out@[b]@) by {
            assert(place_lt(dv[sorted@[a] as int], dv[sorted@[b] as int]));
        }
        assert forall|k: int| 0 <= k < out.len() implies is_location_in(ref_views(target_deps@), target@, #[trigger] out@[k]@) by {
            let i = sorted@[k] as int;
            assert(0 <= i < target_deps@.len());
            assert(first_at_place(ref_views(target_deps@), i));
            assert(is_location_of(ref_views(target_deps@), target@, i, out@[k]@));
        }
    }
    out
}

/// The context of a dependency group: production when any dependency is a
/// production one, else the first dependency's context.
pub open spec fn aggregate_context_spec(deps: Seq<DependencyRefView>) -> EdgeContextView {
    if exists|i: int| 0 <= i < deps.len() && #[trigger] deps[i].context.kind == DependencyKind::Production {
        EdgeContextView { kind: DependencyKind::Production, features: Seq::empty() }
    } else {
        deps[0].context
    }
}

/// The context of an edge made from a group of dependencies (see
/// `aggregate_context_spec`).
pub fn aggregate_context(deps: &[&DependencyRef]) -> (r: EdgeContext)
    requires
        deps@.len() > 0,
    ensures
        r@ == aggregate_context_spec(ref_views(deps@)),
{
    let ghost dv = ref_views(deps@);
    let mut i: usize = 0;
    while i < deps.len()
        invariant
            dv == ref_views(deps@),
            0 <= i <= deps@.len(),
            forall|j: int| 0 <= j < i ==> dv[j].context.kind != DependencyKind::Production,
        decreases deps@.len() - i,
    {
        if deps[i].context.kind == DependencyKind::Production {
            assert(dv[i as int].context.kind == DependencyKind::Production);
            let r = EdgeContext::production();
            assert(r@.features =~= Seq::<Seq<char>>::empty());
            return r;
        }
        i = i + 1;
    }
    deps[0].context.clone()
}

} // verus!

verus! {


/// Dependencies grouped by module target: targets in increasing order, each
/// group holding the indices of the dependencies on it, in order.
pub open spec fn is_target_grouping(deps: Seq<DependencyRefView>, groups: Seq<(Seq<char>, Seq<usize>)>) -> bool {
    &&& forall|a: int, b: int| 0 <= a < b < groups.len() ==> lex_lt(#[trigger] groups[a].0, #[trigger] groups[b].0)
    &&& forall|a: int| 0 <= a < groups.len() ==> (#[trigger] groups[a]).1.len() > 0
    &&& forall|a: int, k: int| 0 <= a < groups.len() && 0 <= k < groups[a].1.len() ==> (#[trigger] groups[a].1[k]) < deps.len()
        && dep_module_target(deps[groups[a].1[k] as int]) == groups[a].0
    &&& forall|a: int, k: int, l: int| 0 <= a < groups.len() && 0 <= k < l < groups[a].1.len() ==> #[trigger] groups[a].1[k] < #[trigger] groups[a].1[l]
    &&& forall|i: int| 0 <= i < deps.len() ==> #[trigger] grouped(groups, i)
}

/// Dependency `i` is in some group.
pub open spec fn grouped(groups: Seq<(Seq<char>, Seq<usize>)>, i: int) -> bool {
    exists|a: int| 0 <= a < groups.len() && #[trigger] in_group(groups, a, i)
}

/// Dependency `i` is in group `a`.
pub open spec fn in_group(groups: Seq<(Seq<char>, Seq<usize>)>, a: int, i: int) -> bool {
    groups[a].1.contains(i as usize)
}

pub open spec fn groups_view(g: Seq<(String, Vec<usize>)>) -> Seq<(Seq<char>, Seq<usize>)> {
    g.map_values(|x: (String, Vec<usize>)| (x.0@, x.1@))
}

/// The module targets of `deps`, in order.
fn module_targets(deps: &Vec<DependencyRef>) -> (r: Vec<String>)
    ensures
        r.len() == deps.len(),
        forall|i: int| 0 <= i < deps.len() ==> #[trigger] r@[i]@ == dep_module_target(dep_views(deps@)[i]),
{
    let mut r: Vec<String> = Vec::new();
    let mut i: usize = 0;
    while i < deps.len()
        invariant
            0 <= i <= deps.len(),
            r.len() == i,
            forall|j: int| 0 <= j < i ==> #[trigger] r@[j]@ == dep_module_target(dep_views(deps@)[j]),
        decreases deps.len() - i,
    {
        r.push(deps[i].module_target());
        i = i + 1;
    }
    r
}

/// The indices of the strings equal to `key`, in order.
fn positions_of(v: &Vec<String>, key: &String) -> (r: Vec<usize>)
    ensures
        forall|k: int| 0 <= k < r.len() ==> r@[k] < v.len() && v@[r@[k] as int]@ == key@,
        forall|k: int, l: int| 0 <= k < l < r.len() ==> r@[k] < r@[l],
        forall|i: int| 0 <= i < v.len() && v@[i]@ == key@ ==> r@.contains(i as usize),
{
    let mut r: Vec<usize> = Vec::new();
    let mut i: usize = 0;
    while i < v.len()
        invariant
            0 <= i <= v.len(),
            forall|k: int| 0 <= k < r.len() ==> r@[k] < i && v@[r@[k] as int]@ == key@,
            forall|k: int, l: int| 0 <= k < l < r.len() ==> r@[k] < r@[l],
            forall|j: int| 0 <= j < i && v@[j]@ == key@ ==> r@.contains(j as usize),
        decreases v.len() - i,
    {
        let ghost r0 = r@;
        if str_eq(v[i].as_str(), key.as_str()) {
            r.push(i);
        }
        assert forall|j: int| 0 <= j < i + 1 && v@[j]@ == key@ implies r@.contains(j as usize) by {
            if j < i {
                let k = choose|k: int| 0 <= k < r0.len() && r0[k] == j as usize;
                assert(r@[k] == j as usize);
            } else {
                assert(r@[r.len() - 1] == i);
            }
        }
        i = i + 1;
    }
    r
}

/// Inserts `t` into a strictly increasing list unless it is present.
fn insert_sorted(keys: &mut Vec<String>, t: &String)
    requires
        forall|a: int, b: int| 0 <= a < b < old(keys).len() ==> lex_lt(old(keys)@[a]@, old(keys)@[b]@),
    ensures
        forall|a: int, b: int| 0 <= a < b < final(keys).len() ==> lex_lt(final(keys)@[a]@, final(keys)@[b]@),
        final(keys).deep_view().to_set() == old(keys).deep_view().to_set().insert(t@),
{
    let mut p: usize = 0;
    while p < keys.len() && str_lt(keys[p].as_str(), t.as_str())
        invariant
            0 <= p <= keys.len(),
            forall|a: int| 0 <= a < p ==> lex_lt(keys@[a]@, t@),
        decreases keys.len() - p,
    {
        p = p + 1;
    }
    let ghost k0 = keys@;
    let ghost kv0 = keys.deep_view();
    if p < keys.len() && str_eq(keys[p].as_str(), t.as_str()) {
        assert(kv0[p as int] == t@);
        assert(kv0.to_set().insert(t@) =~= kv0.to_set());
        return;
    }
    proof {
        if p < k0.len() {
            lemma_lex_total(t@, k0[p as int]@);
            assert forall|a: int| p <= a < k0.len() implies lex_lt(t@, k0[a]@) by {
                if a > p {
                    lemma_lex_transitive(t@, k0[p as int]@, k0[a]@);
                }
            }
        }
    }
    keys.insert(p, t.clone());
    proof {
        assert forall|a: int, b: int| 0 <= a < b < keys.len() implies lex_lt(keys@[a]@, keys@[b]@) by {
            if b < p {
                assert(keys@[a] == k0[a] && keys@[b] == k0[b]);
            } else if b == p {
                assert(keys@[a] == k0[a]);
            } else if a < p {
                assert(keys@[a] == k0[a] && keys@[b] == k0[b - 1]);
                lemma_lex_transitive(k0[a]@, keys@[p as int]@, k0[b - 1]@);
            } else if a == p {
                assert(keys@[b] == k0[b - 1]);
            } else {
                assert(keys@[a] == k0[a - 1] && keys@[b] == k0[b - 1]);
            }
        }
        assert(keys.deep_view() =~= kv0.insert(p as int, t@));
        assert(keys.deep_view().to_set() =~= kv0.to_set().insert(t@)) by {
            assert forall|x: Seq<char>| keys.deep_view().to_set().contains(x) implies kv0.to_set().insert(t@).contains(x) by {
                let a = choose|a: int| 0 <= a < keys.len() && keys.deep_view()[a] == x;
                if a < p {
                    assert(kv0[a] == x);
                } else if a > p {
                    assert(kv0[a - 1] == x);
                }
            }
            assert forall|x: Seq<char>| kv0.to_set().insert(t@).contains(x) implies keys.deep_view().to_set().contains(x) by {
                if x == t@ {
                    assert(keys.deep_view()[p as int] == x);
                } else {
                    let a = choose|a: int| 0 <= a < kv0.len() && kv0[a] == x;
                    if a < p {
                        assert(keys.deep_view()[a] == x);
                    } else {
                        assert(keys.deep_view()[a + 1] == x);
                    }
                }
            }
        }
    }
}

/// The distinct strings of `v`, in increasing order.
fn sorted_distinct(v: &Vec<String>) -> (keys: Vec<String>)
    ensures
        forall|a: int, b: int| 0 <= a < b < keys.len() ==> lex_lt(keys@[a]@, keys@[b]@),
        keys.deep_view().to_set() == v.deep_view().to_set(),
{
    let mut keys: Vec<String> = Vec::new();
    let mut i: usize = 0;
    assert(keys.deep_view().to_set() =~= v.deep_view().take(0).to_set());
    while i < v.len()
        invariant
            0 <= i <= v.len(),
            forall|a: int, b: int| 0 <= a < b < keys.len() ==> lex_lt(keys@[a]@, keys@[b]@),
            keys.deep_view().to_set() == v.deep_view().take(i as int).to_set(),
        decreases v.len() - i,
    {
        insert_sorted(&mut keys, &v[i]);
        proof {
            assert(v.deep_view().take(i + 1) =~= v.deep_view().take(i as int).push(v@[i as int]@));
            v.deep_view().take(i as int).lemma_push_to_set_commute(v@[i as int]@);
        }
        i = i + 1;
    }
    assert(v.deep_view().take(v.len() as int) =~= v.deep_view());
    keys
}

/// Groups dependencies by module target, targets in increasing order.
fn group_by_module_target(deps: &Vec<DependencyRef>) -> (r: Vec<(String, Vec<usize>)>)
    ensures
        is_target_grouping(dep_views(deps@), groups_view(r@)),
{
    let ghost dv = dep_views(deps@);
    let targets = module_targets(deps);
    let keys = sorted_distinct(&targets);
    let mut out: Vec<(String, Vec<usize>)> = Vec::new();
    let mut k: usize = 0;
    while k < keys.len()
        invariant
            dv == dep_views(deps@),
            targets.len() == deps.len(),
            forall|i: int| 0 <= i < deps.len() ==> #[trigger] targets@[i]@ == dep_module_target(dv[i]),
            0 <= k <= keys.len(),
            out.len() == k,
            forall|a: int| 0 <= a < k ==> (#[trigger] out@[a]).0@ == keys@[a]@,
            forall|a: int, q: int| 0 <= a < k && 0 <= q < out@[a].1.len() ==> (#[trigger] out@[a].1@[q]) < deps.len()
                && targets@[out@[a].1@[q] as int]@ == keys@[a]@,
            forall|a: int, q: int, l: int| 0 <= a < k && 0 <= q < l < out@[a].1.len() ==> #[trigger] out@[a].1@[q] < #[trigger] out@[a].1@[l],
            forall|a: int, i: int| 0 <= a < k && 0 <= i < deps.len() && #[trigger] targets@[i]@ == keys@[a]@
                ==> (#[trigger] out@[a]).1@.contains(i as usize),
        decreases keys.len() - k,
    {
        let members = positions_of(&targets, &keys[k]);
        out.push((keys[k].clone(), members));
        k = k + 1;
    }
    proof {
        let gv = groups_view(out@);
        assert forall|a: int| 0 <= a < gv.len() implies (#[trigger] gv[a]).1.len() > 0 by {
            assert(keys.deep_view()[a] == keys@[a]@);
            assert(targets.deep_view().to_set().contains(keys@[a]@));
            let j = choose|j: int| 0 <= j < targets.len() && targets.deep_view()[j] == keys@[a]@;
            assert(targets@[j]@ == keys@[a]@);
            assert(out@[a].1@.contains(j as usize));
        }
        assert forall|i: int| 0 <= i < dv.len() implies #[trigger] grouped(gv, i) by {
            assert(targets@[i]@ == dep_module_target(dv[i]));
            assert(targets.deep_view()[i] == targets@[i]@);
            assert(keys.deep_view().to_set().contains(targets@[i]@));
            let a = choose|a: int| 0 <= a < keys.len() && keys.deep_view()[a] == targets@[i]@;
            assert(keys@[a]@ == targets@[i]@);
            assert(out@[a].1@.contains(i as usize));
            assert(gv[a].1 == out@[a].1@);
            assert(in_group(gv, a, i));
        }
        assert forall|a: int, b: int| 0 <= a < b < gv.len() implies lex_lt(#[trigger] gv[a].0, #[trigger] gv[b].0) by {
            assert(gv[a].0 == keys@[a]@ && gv[b].0 == keys@[b]@);
        }
        assert forall|a: int, q: int| 0 <= a < gv.len() && 0 <= q < gv[a].1.len() implies (#[trigger] gv[a].1[q]) < dv.len()
            && dep_module_target(dv[gv[a].1[q] as int]) == gv[a].0 by {
            assert(gv[a].1[q] == out@[a].1@[q]);
            assert(targets@[out@[a].1@[q] as int]@ == dep_module_target(dv[out@[a].1@[q] as int]));
        }
        assert forall|a: int, q: int, l: int| 0 <= a < gv.len() && 0 <= q < l < gv[a].1.len() implies #[trigger] gv[a].1[q] < #[trigger] gv[a].1[l] by {
            assert(gv[a].1[q] == out@[a].1@[q] && gv[a].1[l] == out@[a].1@[l]);
        }
    }
    out
}

} // verus!

verus! {

/// The value of the last entry of `m` whose key is `k`.
pub open spec fn lookup_last(m: Seq<(String, usize)>, k: Seq<char>) -> Option<usize>
    decreases m.len(),
{
    if m.len() == 0 {
        None
    } else if m.last().0@ == k {
        Some(m.last().1)
    } else {
        lookup_last(m.drop_last(), k)
    }
}

/// The stashed dependencies of one module: its path with its
/// dependencies, when it has any.
pub open spec fn stash_entry(path: Seq<char>, deps: Seq<DependencyRefView>) -> Seq<(Seq<char>, Seq<DependencyRefView>)> {
    if deps.len() > 0 {
        seq![(path, deps)]
    } else {
        Seq::empty()
    }
}

/// The stashed dependencies of a module subtree, in depth-first order.
pub open spec fn module_stash(m: ModuleInfo) -> Seq<(Seq<char>, Seq<DependencyRefView>)>
    decreases m, 1int,
{
    stash_entry(m.full_path@, dep_views(m.dependencies@)) + forest_stash(m.children@)
}

pub open spec fn forest_stash(ms: Seq<ModuleInfo>) -> Seq<(Seq<char>, Seq<DependencyRefView>)>
    decreases ms, 0int,
{
    if ms.len() == 0 {
        Seq::empty()
    } else {
        forest_stash(ms.drop_last()) + module_stash(ms.last())
    }
}

/// The stashed dependencies of the first `k` module trees (see
/// `trees_added`): for each tree whose root names a node, the root's
/// name with its dependencies, then those of its modules.
pub open spec fn trees_stash(cm: Seq<(String, usize)>, ts: Seq<ModuleTree>, k: int, n0: nat) -> Seq<
    (Seq<char>, Seq<DependencyRefView>),
>
    decreases k,
{
    if k <= 0 {
        Seq::empty()
    } else {
        let pre = trees_stash(cm, ts, k - 1, n0);
        let root = ts[k - 1].root;
        match resolve_name(trees_added(cm, ts, k - 1, n0).2, cm, root.name@) {
            Some(_) => pre + stash_entry(root.name@, dep_views(root.dependencies@)) + forest_stash(root.children@),
            None => pre,
        }
    }
}

/// The views of stashed dependencies.
pub open spec fn stash_view(s: Seq<(String, Vec<DependencyRef>)>) -> Seq<(Seq<char>, Seq<DependencyRefView>)> {
    s.map_values(|e: (String, Vec<DependencyRef>)| (e.0@, dep_views(e.1@)))
}

proof fn lemma_lookup_last_bound(m: Seq<(String, usize)>, k: Seq<char>, lo: int, hi: int)
    requires
        forall|i: int| 0 <= i < m.len() ==> lo <= #[trigger] m[i].1 < hi,
    ensures
        lookup_last(m, k) matches Some(v) ==> lo <= v < hi,
    decreases m.len(),
{
    if m.len() > 0 && m.last().0@ != k {
        lemma_lookup_last_bound(m.drop_last(), k, lo, hi);
    }
}

fn lookup_last_exec(m: &Vec<(String, usize)>, k: &str) -> (r: Option<usize>)
    ensures
        r == lookup_last(m@, k@),
{
    let mut i: usize = m.len();
    assert(m@.take(m.len() as int) =~= m@);
    while i > 0
        invariant
            i <= m.len(),
            lookup_last(m@, k@) == lookup_last(m@.take(i as int), k@),
        decreases i,
    {
        assert(m@.take(i as int).drop_last() =~= m@.take(i - 1));
        assert(m@.take(i as int).last() == m@[i - 1]);
        if str_eq(m[i - 1].0.as_str(), k) {
            return Some(m[i - 1].1);
        }
        i = i - 1;
    }
    None
}

/// `s` with every `_` replaced by `-`.
pub open spec fn underscore_to_hyphen(s: Seq<char>) -> Seq<char> {
    s.map_values(|c: char| if c == '_' { '-' } else { c })
}

fn underscore_to_hyphen_exec(s: &str) -> (r: String)
    ensures
        r@ == underscore_to_hyphen(s@),
{
    let v = crate::strings::str_chars(s);
    let mut out: Vec<char> = Vec::new();
    let mut i: usize = 0;
    while i < v.len()
        invariant
            0 <= i <= v.len(),
            out@ =~= underscore_to_hyphen(v@.take(i as int)),
        decreases v.len() - i,
    {
        out.push(if v[i] == '_' { '-' } else { v[i] });
        assert(v@.take(i + 1) =~= v@.take(i as int).push(v@[i as int]));
        i = i + 1;
    }
    assert(v@.take(v.len() as int) =~= v@);
    crate::strings::string_from_chars(out.as_slice())
}

/// Number of modules in a module subtree.
pub open spec fn module_count(m: ModuleInfo) -> nat
    decreases m, 1int,
{
    1 + forest_count(m.children@)
}

pub open spec fn forest_count(ms: Seq<ModuleInfo>) -> nat
    decreases ms, 0int,
{
    if ms.len() == 0 {
        0
    } else {
        forest_count(ms.drop_last()) + module_count(ms.last())
    }
}

/// The nodes of a module subtree in depth-first order, each a module of
/// the crate at index `ci`.
pub open spec fn module_nodes(m: ModuleInfo, ci: usize) -> Seq<NodeView>
    decreases m, 1int,
{
    seq![NodeView::Module { name: m.name@, crate_idx: ci }] + forest_nodes(m.children@, ci)
}

pub open spec fn forest_nodes(ms: Seq<ModuleInfo>, ci: usize) -> Seq<NodeView>
    decreases ms, 0int,
{
    if ms.len() == 0 {
        Seq::empty()
    } else {
        forest_nodes(ms.drop_last(), ci) + module_nodes(ms.last(), ci)
    }
}

/// The containment edges of a module subtree placed under `parent`, its
/// nodes numbered from `base` in depth-first order.
pub open spec fn module_contains(m: ModuleInfo, parent: usize, base: nat) -> Seq<(usize, usize, EdgeView)>
    decreases m, 1int,
{
    seq![(parent, base as usize, EdgeView::Contains)] + forest_contains(m.children@, base as usize, base + 1)
}

pub open spec fn forest_contains(ms: Seq<ModuleInfo>, parent: usize, base: nat) -> Seq<(usize, usize, EdgeView)>
    decreases ms, 0int,
{
    if ms.len() == 0 {
        Seq::empty()
    } else {
        forest_contains(ms.drop_last(), parent, base) + module_contains(
            ms.last(),
            parent,
            base + forest_count(ms.drop_last()),
        )
    }
}

/// The full path of each module of a subtree with its node index, the
/// nodes numbered from `base` in depth-first order.
pub open spec fn module_paths(m: ModuleInfo, base: nat) -> Seq<(String, usize)>
    decreases m, 1int,
{
    seq![(m.full_path, base as usize)] + forest_paths(m.children@, base + 1)
}

pub open spec fn forest_paths(ms: Seq<ModuleInfo>, base: nat) -> Seq<(String, usize)>
    decreases ms, 0int,
{
    if ms.len() == 0 {
        Seq::empty()
    } else {
        forest_paths(ms.drop_last(), base) + module_paths(ms.last(), base + forest_count(ms.drop_last()))
    }
}

/// What the first `k` module trees add to a graph of `n0` nodes whose
/// crates are named by `cm`: the module nodes, their containment edges,
/// and the full path of each module with its node. A tree whose root
/// names no node (a module by full path, else a crate) adds nothing;
/// otherwise the children of its root go under that node.
pub open spec fn trees_added(cm: Seq<(String, usize)>, ts: Seq<ModuleTree>, k: int, n0: nat) -> (
    Seq<NodeView>,
    Seq<(usize, usize, EdgeView)>,
    Seq<(String, usize)>,
)
    decreases k,
{
    if k <= 0 {
        (Seq::empty(), Seq::empty(), Seq::empty())
    } else {
        let pre = trees_added(cm, ts, k - 1, n0);
        let root = ts[k - 1].root;
        match resolve_name(pre.2, cm, root.name@) {
            Some(ci) => (
                pre.0 + forest_nodes(root.children@, ci),
                pre.1 + forest_contains(root.children@, ci, n0 + pre.0.len()),
                pre.2 + forest_paths(root.children@, n0 + pre.0.len()),
            ),
            None => pre,
        }
    }
}

proof fn lemma_module_nodes_len(m: ModuleInfo, ci: usize)
    ensures
        module_nodes(m, ci).len() == module_count(m),
    decreases m, 1int,
{
    lemma_forest_nodes_len(m.children@, ci);
}

proof fn lemma_forest_nodes_len(ms: Seq<ModuleInfo>, ci: usize)
    ensures
        forest_nodes(ms, ci).len() == forest_count(ms),
    decreases ms, 0int,
{
    if ms.len() > 0 {
        lemma_forest_nodes_len(ms.drop_last(), ci);
        lemma_module_nodes_len(ms.last(), ci);
    }
}

/// No node has two different containment parents.
pub open spec fn containment_forest(v: ArcGraphView) -> bool {
    forall|e1: int, e2: int|
        0 <= e1 < v.edges.len() && 0 <= e2 < v.edges.len() && (#[trigger] v.edges[e1]).2 is Contains
            && (#[trigger] v.edges[e2]).2 is Contains && v.edges[e1].1 == v.edges[e2].1 ==> v.edges[e1].0 == v.edges[e2].0
}

proof fn lemma_name_dep_edges_kind(m: Seq<(String, usize)>, from: usize, names: Seq<String>, ctx: EdgeContextView)
    ensures
        forall|i: int| 0 <= i < name_dep_edges(m, from, names, ctx).len() ==> (#[trigger] name_dep_edges(m, from, names, ctx)[i]).2 is CrateDep,
    decreases names.len(),
{
    if names.len() > 0 {
        lemma_name_dep_edges_kind(m, from, names.drop_last(), ctx);
    }
}

/// The crate-dependency edges are no containment edges.
proof fn lemma_crate_dep_edges_kind(m: Seq<(String, usize)>, crates: Seq<CrateInfo>, k: int)
    ensures
        forall|i: int| 0 <= i < crate_dep_edges(m, crates, k).len() ==> (#[trigger] crate_dep_edges(m, crates, k)[i]).2 is CrateDep,
    decreases k,
{
    if k > 0 {
        lemma_crate_dep_edges_kind(m, crates, k - 1);
        let c = crates[k - 1];
        match lookup_last(m, c.name@) {
            Some(from) => {
                let pre = crate_dep_edges(m, crates, k - 1);
                let a = name_dep_edges(m, from, c.dependencies@, production_context());
                let b = name_dep_edges(m, from, c.dev_dependencies@, unit_test_context());
                lemma_name_dep_edges_kind(m, from, c.dependencies@, production_context());
                lemma_name_dep_edges_kind(m, from, c.dev_dependencies@, unit_test_context());
                let all = pre + a + b;
                assert forall|i: int| 0 <= i < all.len() implies (#[trigger] all[i]).2 is CrateDep by {
                    if i < pre.len() {
                        assert(all[i] == pre[i]);
                    } else if i < pre.len() + a.len() {
                        assert(all[i] == a[i - pre.len()]);
                    } else {
                        assert(all[i] == b[i - pre.len() - a.len()]);
                    }
                }
            },
            None => {},
        }
    }
}

/// Every edge of `es` is a containment edge from an earlier node into a
/// node in `lo..hi`, and no two lead into the same node.
pub open spec fn contains_into_range(es: Seq<(usize, usize, EdgeView)>, lo: nat, hi: nat) -> bool {
    &&& forall|i: int| 0 <= i < es.len() ==> (#[trigger] es[i]).2 is Contains && lo <= es[i].1 < hi && es[i].0 < es[i].1
    &&& forall|i: int, j: int| 0 <= i < j < es.len() ==> (#[trigger] es[i]).1 != (#[trigger] es[j]).1
}

proof fn lemma_contains_concat(a: Seq<(usize, usize, EdgeView)>, b: Seq<(usize, usize, EdgeView)>, lo: nat, mid: nat, hi: nat)
    requires
        contains_into_range(a, lo, mid),
        contains_into_range(b, mid, hi),
        lo <= mid <= hi,
    ensures
        contains_into_range(a + b, lo, hi),
{
    let ab = a + b;
    assert forall|i: int| 0 <= i < ab.len() implies (#[trigger] ab[i]).2 is Contains && lo <= ab[i].1 < hi && ab[i].0 < ab[i].1 by {
        if i < a.len() {
            assert(ab[i] == a[i]);
        } else {
            assert(ab[i] == b[i - a.len()]);
        }
    }
    assert forall|i: int, j: int| 0 <= i < j < ab.len() implies (#[trigger] ab[i]).1 != (#[trigger] ab[j]).1 by {
        if j < a.len() {
            assert(ab[i] == a[i] && ab[j] == a[j]);
        } else if i < a.len() {
            assert(ab[i] == a[i] && ab[j] == b[j - a.len()]);
        } else {
            assert(ab[i] == b[i - a.len()] && ab[j] == b[j - a.len()]);
        }
    }
}

proof fn lemma_module_contains_range(m: ModuleInfo, parent: usize, base: nat)
    requires
        base + module_count(m) <= usize::MAX,
        parent < base,
    ensures
        contains_into_range(module_contains(m, parent, base), base, base + module_count(m)),
    decreases m, 1int,
{
    lemma_forest_contains_range(m.children@, base as usize, base + 1);
    let head = seq![(parent, base as usize, EdgeView::Contains)];
    lemma_contains_concat(head, forest_contains(m.children@, base as usize, base + 1), base, base + 1, base + module_count(m));
}

proof fn lemma_forest_contains_range(ms: Seq<ModuleInfo>, parent: usize, base: nat)
    requires
        base + forest_count(ms) <= usize::MAX,
        parent < base,
    ensures
        contains_into_range(forest_contains(ms, parent, base), base, base + forest_count(ms)),
    decreases ms, 0int,
{
    if ms.len() > 0 {
        let fc = forest_count(ms.drop_last());
        lemma_forest_contains_range(ms.drop_last(), parent, base);
        lemma_module_contains_range(ms.last(), parent, base + fc);
        lemma_contains_concat(
            forest_contains(ms.drop_last(), parent, base),
            module_contains(ms.last(), parent, base + fc),
            base,
            base + fc,
            base + forest_count(ms),
        );
    }
}

proof fn lemma_resolve_name_bound(modules: Seq<(String, usize)>, crates: Seq<(String, usize)>, name: Seq<char>, hi: nat)
    requires
        forall|i: int| 0 <= i < modules.len() ==> #[trigger] modules[i].1 < hi,
        forall|i: int| 0 <= i < crates.len() ==> #[trigger] crates[i].1 < hi,
    ensures
        resolve_name(modules, crates, name) matches Some(x) ==> x < hi,
{
    lemma_lookup_last_bound(modules, name, 0, hi as int);
    lemma_lookup_last_bound(crates, name, 0, hi as int);
    lemma_lookup_last_bound(crates, underscore_to_hyphen(name), 0, hi as int);
}

proof fn lemma_module_paths_range(m: ModuleInfo, base: nat)
    requires
        base + module_count(m) <= usize::MAX,
    ensures
        forall|i: int| 0 <= i < module_paths(m, base).len() ==> #[trigger] module_paths(m, base)[i].1 < base + module_count(m),
    decreases m, 1int,
{
    lemma_forest_paths_range(m.children@, base + 1);
    let mp = module_paths(m, base);
    let fp = forest_paths(m.children@, base + 1);
    assert forall|i: int| 0 <= i < mp.len() implies #[trigger] mp[i].1 < base + module_count(m) by {
        if i > 0 {
            assert(mp[i] == fp[i - 1]);
        }
    }
}

proof fn lemma_forest_paths_range(ms: Seq<ModuleInfo>, base: nat)
    requires
        base + forest_count(ms) <= usize::MAX,
    ensures
        forall|i: int| 0 <= i < forest_paths(ms, base).len() ==> #[trigger] forest_paths(ms, base)[i].1 < base + forest_count(ms),
    decreases ms, 0int,
{
    if ms.len() > 0 {
        let fc = forest_count(ms.drop_last());
        lemma_forest_paths_range(ms.drop_last(), base);
        lemma_module_paths_range(ms.last(), base + fc);
        let a = forest_paths(ms.drop_last(), base);
        let b = module_paths(ms.last(), base + fc);
        let all = forest_paths(ms, base);
        assert forall|i: int| 0 <= i < all.len() implies #[trigger] all[i].1 < base + forest_count(ms) by {
            if i < a.len() {
                assert(all[i] == a[i]);
            } else {
                assert(all[i] == b[i - a.len()]);
            }
        }
    }
}

/// The containment edges of the first `k` trees lead into the nodes that
/// those trees add, each into its own.
proof fn lemma_trees_contains_range(cm: Seq<(String, usize)>, ts: Seq<ModuleTree>, k: int, n0: nat)
    requires
        k <= ts.len(),
        n0 + trees_added(cm, ts, k, n0).0.len() <= usize::MAX,
        forall|i: int| 0 <= i < cm.len() ==> #[trigger] cm[i].1 < n0,
    ensures
        contains_into_range(trees_added(cm, ts, k, n0).1, n0, n0 + trees_added(cm, ts, k, n0).0.len()),
        forall|i: int| 0 <= i < trees_added(cm, ts, k, n0).2.len() ==> #[trigger] trees_added(cm, ts, k, n0).2[i].1 < n0
            + trees_added(cm, ts, k, n0).0.len(),
    decreases k,
{
    if k > 0 {
        let pre = trees_added(cm, ts, k - 1, n0);
        let root = ts[k - 1].root;
        match resolve_name(pre.2, cm, root.name@) {
            Some(ci) => {
                lemma_forest_nodes_len(root.children@, ci);
                lemma_trees_contains_range(cm, ts, k - 1, n0);
                lemma_resolve_name_bound(pre.2, cm, root.name@, n0 + pre.0.len());
                lemma_forest_paths_range(root.children@, n0 + pre.0.len());
                let cur = trees_added(cm, ts, k, n0);
                let fp = forest_paths(root.children@, n0 + pre.0.len());
                assert forall|i: int| 0 <= i < cur.2.len() implies #[trigger] cur.2[i].1 < n0 + cur.0.len() by {
                    if i < pre.2.len() {
                        assert(cur.2[i] == pre.2[i]);
                    } else {
                        assert(cur.2[i] == fp[i - pre.2.len()]);
                    }
                }
                lemma_forest_contains_range(root.children@, ci, n0 + pre.0.len());
                lemma_contains_concat(
                    pre.1,
                    forest_contains(root.children@, ci, n0 + pre.0.len()),
                    n0,
                    n0 + pre.0.len(),
                    n0 + pre.0.len() + forest_count(root.children@),
                );
            },
            None => {
                lemma_trees_contains_range(cm, ts, k - 1, n0);
            },
        }
    }
}

/// Upper bound on the nodes and edges that a module subtree adds: its node,
/// its containment edge, one edge per dependency, and its children's.
pub open spec fn module_weight(m: ModuleInfo) -> nat
    decreases m, 1int,
{
    2 + m.dependencies@.len() + forest_weight(m.children@)
}

pub open spec fn forest_weight(ms: Seq<ModuleInfo>) -> nat
    decreases ms, 0int,
{
    if ms.len() == 0 {
        0
    } else {
        forest_weight(ms.drop_last()) + module_weight(ms.last())
    }
}

pub open spec fn trees_weight(ts: Seq<ModuleTree>) -> nat
    decreases ts.len(),
{
    if ts.len() == 0 {
        0
    } else {
        trees_weight(ts.drop_last()) + ts.last().root.dependencies@.len() + forest_weight(ts.last().root.children@)
    }
}

pub open spec fn crate_deps_weight(cs: Seq<CrateInfo>) -> nat
    decreases cs.len(),
{
    if cs.len() == 0 {
        0
    } else {
        crate_deps_weight(cs.drop_last()) + cs.last().dependencies@.len() + cs.last().dev_dependencies@.len()
    }
}

/// Upper bound on the nodes and edges of the graph built from `cs` and `ts`.
pub open spec fn build_weight(cs: Seq<CrateInfo>, ts: Seq<ModuleTree>) -> nat {
    cs.len() + crate_deps_weight(cs) + trees_weight(ts)
}

pub open spec fn stash_weight(s: Seq<(String, Vec<DependencyRef>)>) -> nat
    decreases s.len(),
{
    if s.len() == 0 {
        0
    } else {
        stash_weight(s.drop_last()) + s.last().1@.len()
    }
}

/// The shape that every built graph has: the first `nc` nodes are crates;
/// every later node is a module of an earlier node, contained by exactly
/// the parent that its containment edge names, an earlier node; crate
/// dependencies join crates; module dependencies join distinct nodes.
pub open spec fn built_shape(v: ArcGraphView, nc: int) -> bool {
    &&& nc <= v.nodes.len()
    &&& forall|i: int| 0 <= i < nc ==> v.nodes[i] is Crate
    &&& forall|i: int| nc <= i < v.nodes.len() ==> (#[trigger] v.nodes[i] matches NodeView::Module { crate_idx, .. } && crate_idx < i)
    &&& forall|i: int| nc <= i < v.nodes.len() ==> (#[trigger] parent_of(v, i as usize) matches Some(p) && p < i)
    &&& forall|e: int| 0 <= e < v.edges.len() ==> match (#[trigger] v.edges[e]).2 {
        EdgeView::Contains => v.edges[e].0 < v.edges[e].1 && nc <= v.edges[e].1,
        EdgeView::CrateDep { .. } => v.edges[e].0 < nc && v.edges[e].1 < nc,
        EdgeView::ModuleDep { .. } => v.edges[e].0 != v.edges[e].1,
    }
}

/// The context of a production edge.
pub open spec fn production_context() -> EdgeContextView {
    EdgeContextView { kind: DependencyKind::Production, features: Seq::empty() }
}

/// The context of a unit-test edge.
pub open spec fn unit_test_context() -> EdgeContextView {
    EdgeContextView { kind: DependencyKind::Test(TestKind::Unit), features: Seq::empty() }
}

/// One crate-dependency edge from `from` per name of `names` that `m`
/// knows (its last entry), in order.
pub open spec fn name_dep_edges(m: Seq<(String, usize)>, from: usize, names: Seq<String>, ctx: EdgeContextView) -> Seq<
    (usize, usize, EdgeView),
>
    decreases names.len(),
{
    if names.len() == 0 {
        Seq::empty()
    } else {
        let pre = name_dep_edges(m, from, names.drop_last(), ctx);
        match lookup_last(m, names.last()@) {
            Some(to) => pre.push((from, to, EdgeView::CrateDep { context: ctx })),
            None => pre,
        }
    }
}

/// The crate-dependency edges of the first `k` crates, in order: for each
/// crate that `m` knows, a production edge per dependency that `m` knows,
/// then a unit-test edge per such dev-dependency.
pub open spec fn crate_dep_edges(m: Seq<(String, usize)>, crates: Seq<CrateInfo>, k: int) -> Seq<(usize, usize, EdgeView)>
    decreases k,
{
    if k <= 0 {
        Seq::empty()
    } else {
        let pre = crate_dep_edges(m, crates, k - 1);
        let c = crates[k - 1];
        match lookup_last(m, c.name@) {
            Some(from) => pre + name_dep_edges(m, from, c.dependencies@, production_context()) + name_dep_edges(
                m,
                from,
                c.dev_dependencies@,
                unit_test_context(),
            ),
            None => pre,
        }
    }
}

/// Each crate's name with its node index.
pub open spec fn crate_index(crates: Seq<CrateInfo>) -> Seq<(String, usize)> {
    Seq::new(crates.len(), |i: int| (crates[i].name, i as usize))
}

/// A node by name: a module by full path, else a crate by name, else a
/// crate by the name with `_` spelled `-`.
pub open spec fn resolve_name(modules: Seq<(String, usize)>, crates: Seq<(String, usize)>, name: Seq<char>) -> Option<usize> {
    if lookup_last(modules, name) is Some {
        lookup_last(modules, name)
    } else if lookup_last(crates, name) is Some {
        lookup_last(crates, name)
    } else {
        lookup_last(crates, underscore_to_hyphen(name))
    }
}

struct GraphBuilder {
    graph: ArcGraph,
    crate_map: Vec<(String, usize)>,
    module_map: Vec<(String, usize)>,
    module_deps: Vec<(String, Vec<DependencyRef>)>,
    ncrates: usize,
}

impl GraphBuilder {
    spec fn size(&self) -> nat {
        self.graph@.nodes.len() + self.graph@.edges.len() + stash_weight(self.module_deps@)
    }

    spec fn wf(&self) -> bool {
        &&& built_shape(self.graph@, self.ncrates as int)
        &&& forall|i: int| 0 <= i < self.crate_map.len() ==> (#[trigger] self.crate_map@[i]).1 < self.ncrates
        &&& forall|i: int| 0 <= i < self.module_map.len() ==> (#[trigger] self.module_map@[i]).1 < self.graph@.nodes.len()
    }

    /// A node by name: a module by full path, else a crate by name, else a
    /// crate by the name with `_` spelled `-`.
    fn resolve_node(&self, name: &str) -> (r: Option<usize>)
        requires
            self.wf(),
        ensures
            r == resolve_name(self.module_map@, self.crate_map@, name@),
            r matches Some(i) ==> i < self.graph@.nodes.len(),
    {
        proof {
            lemma_lookup_last_bound(self.module_map@, name@, 0, self.graph@.nodes.len() as int);
            lemma_lookup_last_bound(self.crate_map@, name@, 0, self.ncrates as int);
        }
        match lookup_last_exec(&self.module_map, name) {
            Some(i) => Some(i),
            None => match lookup_last_exec(&self.crate_map, name) {
                Some(i) => Some(i),
                None => {
                    let alt = underscore_to_hyphen_exec(name);
                    proof {
                        lemma_lookup_last_bound(self.crate_map@, alt@, 0, self.ncrates as int);
                    }
                    lookup_last_exec(&self.crate_map, alt.as_str())
                },
            },
        }
    }
}

proof fn lemma_groups_bound(deps: Seq<DependencyRefView>, groups: Seq<(Seq<char>, Seq<usize>)>)
    requires
        is_target_grouping(deps, groups),
    ensures
        groups.len() <= deps.len(),
{
    let fm = Seq::new(groups.len(), |a: int| groups[a].1[0] as int);
    assert forall|a: int, b: int| 0 <= a < fm.len() && 0 <= b < fm.len() && a != b implies fm[a] != fm[b] by {
        assert(groups[a].1.len() > 0 && groups[b].1.len() > 0);
        let (x, y) = (groups[a].1[0], groups[b].1[0]);
        assert(dep_module_target(deps[x as int]) == groups[a].0);
        assert(dep_module_target(deps[y as int]) == groups[b].0);
        if a < b {
            assert(lex_lt(groups[a].0, groups[b].0));
            lemma_lex_irreflexive(groups[a].0);
        } else {
            assert(lex_lt(groups[b].0, groups[a].0));
            lemma_lex_irreflexive(groups[b].0);
        }
    }
    fm.unique_seq_to_set();
    vstd::set_lib::lemma_int_range(0, deps.len() as int);
    assert forall|x: int| fm.to_set().contains(x) implies vstd::set_lib::set_int_range(0, deps.len() as int).contains(x) by {
        let a = choose|a: int| 0 <= a < fm.len() && fm[a] == x;
        assert(groups[a].1.len() > 0);
        assert(groups[a].1[0] < deps.len());
    }
    vstd::set_lib::lemma_len_subset(fm.to_set(), vstd::set_lib::set_int_range(0, deps.len() as int));
}

proof fn lemma_parent_in_prefix(s1: Seq<(usize, usize, EdgeView)>, s2: Seq<(usize, usize, EdgeView)>, n: int, c: usize)
    requires
        0 <= n <= s1.len(),
        n <= s2.len(),
        s1.take(n) == s2.take(n),
    ensures
        parent_in(s1, n, c) == parent_in(s2, n, c),
    decreases n,
{
    if n > 0 {
        assert(s1[n - 1] == s1.take(n)[n - 1]);
        assert(s2[n - 1] == s2.take(n)[n - 1]);
        assert(s1.take(n - 1) =~= s1.take(n).take(n - 1));
        assert(s2.take(n - 1) =~= s2.take(n).take(n - 1));
        lemma_parent_in_prefix(s1, s2, n - 1, c);
    }
}

/// Adding an edge changes a node's parent only when the edge contains it.
proof fn lemma_parent_push(v: ArcGraphView, x: (usize, usize, EdgeView), c: usize)
    ensures
        parent_of(ArcGraphView { edges: v.edges.push(x), ..v }, c) == if x.1 == c && x.2 is Contains {
            Some(x.0)
        } else {
            parent_of(v, c)
        },
{
    let e2 = v.edges.push(x);
    assert(e2.take(v.edges.len() as int) =~= v.edges.take(v.edges.len() as int));
    lemma_parent_in_prefix(e2, v.edges, v.edges.len() as int, c);
}

proof fn lemma_forest_take(s: Seq<ModuleInfo>, i: int)
    requires
        0 <= i < s.len(),
    ensures
        forest_weight(s.take(i + 1)) == forest_weight(s.take(i)) + module_weight(s[i]),
{
    assert(s.take(i + 1).drop_last() =~= s.take(i));
}

proof fn lemma_forest_take_le(s: Seq<ModuleInfo>, i: int)
    requires
        0 <= i <= s.len(),
    ensures
        forest_weight(s.take(i)) <= forest_weight(s),
    decreases s.len() - i,
{
    if i < s.len() {
        lemma_forest_take(s, i);
        lemma_forest_take_le(s, i + 1);
    } else {
        assert(s.take(i) =~= s);
    }
}

impl GraphBuilder {
    fn new() -> (b: Self)
        ensures
            b.graph@.nodes.len() == 0,
            b.graph@.edges.len() == 0,
            b.crate_map@.len() == 0,
            b.module_map@.len() == 0,
            b.module_deps@.len() == 0,
            b.ncrates == 0,
    {
        GraphBuilder {
            graph: ArcGraph::new(),
            crate_map: Vec::new(),
            module_map: Vec::new(),
            module_deps: Vec::new(),
            ncrates: 0,
        }
    }

    /// One crate node per crate, in order.
    fn add_crates(&mut self, crates: &Vec<CrateInfo>)
        requires
            old(self).graph@.nodes.len() == 0,
            old(self).graph@.edges.len() == 0,
            old(self).crate_map@.len() == 0,
            old(self).module_map@.len() == 0,
            old(self).module_deps@.len() == 0,
            crates.len() < u32::MAX,
        ensures
            final(self).wf(),
            final(self).ncrates == crates.len(),
            final(self).graph@.edges.len() == 0,
            final(self).module_deps@.len() == 0,
            final(self).graph@.nodes.len() == crates.len(),
            final(self).crate_map@ == crate_index(crates@),
            final(self).module_map@.len() == 0,
            forall|i: int| 0 <= i < crates.len() ==> #[trigger] final(self).graph@.nodes[i] == (NodeView::Crate {
                name: crates@[i].name@,
                path: crates@[i].path@,
            }),
    {
        let mut i: usize = 0;
        while i < crates.len()
            invariant
                0 <= i <= crates.len() < u32::MAX,
                self.graph@.nodes.len() == i,
                self.graph@.edges.len() == 0,
                self.module_map@.len() == 0,
                self.module_deps@.len() == 0,
                self.crate_map@.len() == i,
                forall|j: int| 0 <= j < i ==> (#[trigger] self.crate_map@[j]).1 == j,
                forall|j: int| 0 <= j < i ==> #[trigger] self.crate_map@[j] == (crates@[j].name, j as usize),
                forall|j: int| 0 <= j < i ==> #[trigger] self.graph@.nodes[j] == (NodeView::Crate {
                    name: crates@[j].name@,
                    path: crates@[j].path@,
                }),
            decreases crates.len() - i,
        {
            let c = &crates[i];
            let idx = self.graph.add_node(Node::Crate { name: c.name.clone(), path: c.path.clone() });
            self.crate_map.push((c.name.clone(), idx));
            i = i + 1;
        }
        self.ncrates = crates.len();
        assert(self.crate_map@ =~= crate_index(crates@));
        proof {
            assert forall|j: int| 0 <= j < self.crate_map.len() implies (#[trigger] self.crate_map@[j]).1 < self.ncrates by {}
            assert(stash_weight(self.module_deps@) == 0);
        }
    }

    /// Keeps the dependencies found in a module for the module-edge pass.
    fn stash_deps(&mut self, path: &str, deps: &Vec<DependencyRef>)
        ensures
            final(self).module_deps@.len() <= old(self).module_deps@.len() + 1,
            stash_weight(final(self).module_deps@) == stash_weight(old(self).module_deps@) + deps.len(),
            final(self).graph == old(self).graph,
            final(self).crate_map == old(self).crate_map,
            final(self).module_map == old(self).module_map,
            final(self).ncrates == old(self).ncrates,
            stash_view(final(self).module_deps@) == stash_view(old(self).module_deps@) + stash_entry(path@, dep_views(deps@)),
    {
        let ghost old_stash = self.module_deps@;
        if deps.len() > 0 {
            let copies = deps.clone();
            proof {
                assert forall|i: int| 0 <= i < deps.len() implies copies@[i]@ == deps@[i]@ by {
                    assert(cloned::<DependencyRef>(deps@[i], copies@[i]));
                }
                assert(dep_views(copies@) =~= dep_views(deps@));
            }
            self.module_deps.push((crate::strings::copy_string(path), copies));
            assert(self.module_deps@.drop_last() =~= old_stash);
            assert(stash_view(self.module_deps@) =~= stash_view(old_stash) + stash_entry(path@, dep_views(deps@)));
        } else {
            assert(stash_view(self.module_deps@) =~= stash_view(old_stash) + stash_entry(path@, dep_views(deps@)));
        }
    }

    /// Adds `module` under `parent_idx` (and its children under it).
    fn add_modules_recursive(&mut self, module: &ModuleInfo, crate_idx: usize, parent_idx: usize)
        requires
            old(self).wf(),
            crate_idx < old(self).graph@.nodes.len(),
            parent_idx < old(self).graph@.nodes.len(),
            old(self).size() + module_weight(*module) < u32::MAX,
        ensures
            final(self).wf(),
            final(self).size() <= old(self).size() + module_weight(*module),
            final(self).ncrates == old(self).ncrates,
            final(self).crate_map == old(self).crate_map,
            old(self).graph@.nodes.len() <= final(self).graph@.nodes.len(),
            final(self).graph@.nodes.take(old(self).graph@.nodes.len() as int) == old(self).graph@.nodes,
            old(self).graph@.edges.len() <= final(self).graph@.edges.len(),
            final(self).graph@.edges.take(old(self).graph@.edges.len() as int) == old(self).graph@.edges,
            forall|e: int| old(self).graph@.edges.len() <= e < final(self).graph@.edges.len() ==> (#[trigger] final(self).graph@.edges[e]).2 is Contains,
            final(self).graph@.nodes == old(self).graph@.nodes + module_nodes(*module, crate_idx),
            final(self).graph@.edges == old(self).graph@.edges + module_contains(
                *module,
                parent_idx,
                old(self).graph@.nodes.len(),
            ),
            final(self).module_map@ == old(self).module_map@ + module_paths(*module, old(self).graph@.nodes.len()),
            stash_view(final(self).module_deps@) == stash_view(old(self).module_deps@) + module_stash(*module),
        decreases module, 1int,
    {
        let ghost v0 = self.graph@;
        let ghost mm0 = self.module_map@;
        let ghost st0 = stash_view(self.module_deps@);
        let ghost size0 = self.size();
        let ghost nc = self.ncrates as int;
        proof {
            use_type_invariant(&self.graph);
        }
        let module_idx = self.graph.add_node(Node::Module { name: module.name.clone(), crate_idx });
        let ghost v1 = self.graph@;
        self.graph.add_edge(parent_idx, module_idx, Edge::Contains);
        proof {
            let v2 = self.graph@;
            assert(v2 == ArcGraphView { edges: v1.edges.push((parent_idx, module_idx, EdgeView::Contains)), ..v1 });
            assert forall|i: int| nc <= i < v2.nodes.len() implies (#[trigger] parent_of(v2, i as usize) matches Some(p) && p < i) by {
                lemma_parent_push(v1, (parent_idx, module_idx, EdgeView::Contains), i as usize);
                assert(parent_of(v1, i as usize) == parent_of(v0, i as usize));
            }
            assert forall|i: int| nc <= i < v2.nodes.len() implies (#[trigger] v2.nodes[i] matches NodeView::Module { crate_idx, .. } && crate_idx < i) by {
                if i < v0.nodes.len() {
                    assert(v2.nodes[i] == v0.nodes[i]);
                }
            }
            assert forall|e: int| 0 <= e < v2.edges.len() implies match (#[trigger] v2.edges[e]).2 {
                EdgeView::Contains => v2.edges[e].0 < v2.edges[e].1 && nc <= v2.edges[e].1,
                EdgeView::CrateDep { .. } => v2.edges[e].0 < nc && v2.edges[e].1 < nc,
                EdgeView::ModuleDep { .. } => v2.edges[e].0 != v2.edges[e].1,
            } by {
                if e < v0.edges.len() {
                    assert(v2.edges[e] == v0.edges[e]);
                }
            }
            assert forall|i: int| 0 <= i < nc implies v2.nodes[i] is Crate by {
                assert(v2.nodes[i] == v0.nodes[i]);
            }
            assert(v2.edges.take(v0.edges.len() as int) =~= v0.edges);
        }
        self.module_map.push((module.full_path.clone(), module_idx));
        self.stash_deps(module.full_path.as_str(), &module.dependencies);
        proof {
            assert(module.children@.take(0) =~= Seq::<ModuleInfo>::empty());
            assert(self.graph@.nodes =~= v0.nodes + seq![NodeView::Module { name: module.name@, crate_idx }] + forest_nodes(
                module.children@.take(0),
                crate_idx,
            ));
            assert(self.graph@.edges =~= v0.edges + seq![(parent_idx, module_idx, EdgeView::Contains)] + forest_contains(
                module.children@.take(0),
                module_idx,
                (module_idx + 1) as nat,
            ));
            assert(self.module_map@ =~= mm0 + seq![(module.full_path, module_idx)] + forest_paths(module.children@.take(0), (module_idx + 1) as nat));
            assert(stash_view(self.module_deps@) =~= st0 + stash_entry(module.full_path@, dep_views(module.dependencies@))
                + forest_stash(module.children@.take(0)));
        }
        let mut i: usize = 0;
        while i < module.children.len()
            invariant
                self.wf(),
                self.ncrates == nc,
                self.crate_map == old(self).crate_map,
                module_idx < self.graph@.nodes.len(),
                crate_idx < self.graph@.nodes.len(),
                v0.nodes.len() <= self.graph@.nodes.len(),
                self.graph@.nodes.take(v0.nodes.len() as int) == v0.nodes,
                v0.edges.len() <= self.graph@.edges.len(),
                self.graph@.edges.take(v0.edges.len() as int) == v0.edges,
                forall|e: int| v0.edges.len() <= e < self.graph@.edges.len() ==> (#[trigger] self.graph@.edges[e]).2 is Contains,
                module_idx == v0.nodes.len(),
                self.graph@.nodes == v0.nodes + seq![NodeView::Module { name: module.name@, crate_idx }] + forest_nodes(
                    module.children@.take(i as int),
                    crate_idx,
                ),
                self.graph@.edges == v0.edges + seq![(parent_idx, module_idx, EdgeView::Contains)] + forest_contains(
                    module.children@.take(i as int),
                    module_idx,
                    (module_idx + 1) as nat,
                ),
                self.module_map@ == mm0 + seq![(module.full_path, module_idx)] + forest_paths(
                    module.children@.take(i as int),
                    (module_idx + 1) as nat,
                ),
                stash_view(self.module_deps@) == st0 + stash_entry(module.full_path@, dep_views(module.dependencies@))
                    + forest_stash(module.children@.take(i as int)),
                0 <= i <= module.children.len(),
                self.size() <= size0 + 2 + module.dependencies@.len() + forest_weight(module.children@.take(i as int)),
                size0 + module_weight(*module) < u32::MAX,
            decreases module.children.len() - i,
        {
            proof {
                lemma_forest_take(module.children@, i as int);
                lemma_forest_take_le(module.children@, i + 1);
                broadcast use vstd::std_specs::vec::axiom_vec_index_decreases;
                assert(decreases_to!(module.children => module.children[i as int]));
            }
            let ghost n_before = self.graph@.nodes;
            let ghost e_before = self.graph@.edges;
            let ghost m_before = self.module_map@;
            proof {
                lemma_forest_nodes_len(module.children@.take(i as int), crate_idx);
            }
            self.add_modules_recursive(&module.children[i], crate_idx, module_idx);
            proof {
                let pre = module.children@.take(i as int);
                let nxt = module.children@.take(i + 1);
                assert(nxt.drop_last() =~= pre);
                assert(nxt.last() == module.children@[i as int]);
                assert(n_before.len() == module_idx + 1 + forest_count(pre));
                assert(self.graph@.nodes =~= v0.nodes + seq![NodeView::Module { name: module.name@, crate_idx }] + forest_nodes(nxt, crate_idx));
                assert(self.graph@.edges =~= v0.edges + seq![(parent_idx, module_idx, EdgeView::Contains)] + forest_contains(nxt, module_idx, (module_idx + 1) as nat));
                assert(self.module_map@ =~= mm0 + seq![(module.full_path, module_idx)] + forest_paths(nxt, (module_idx + 1) as nat));
                assert(stash_view(self.module_deps@) =~= st0 + stash_entry(module.full_path@, dep_views(module.dependencies@))
                    + forest_stash(nxt));
                assert(self.graph@.nodes.take(v0.nodes.len() as int) =~= self.graph@.nodes.take(n_before.len() as int).take(v0.nodes.len() as int));
                assert(self.graph@.edges.take(v0.edges.len() as int) =~= self.graph@.edges.take(e_before.len() as int).take(v0.edges.len() as int));
                assert forall|e: int| v0.edges.len() <= e < self.graph@.edges.len() implies (#[trigger] self.graph@.edges[e]).2 is Contains by {
                    if e < e_before.len() {
                        assert(self.graph@.edges[e] == self.graph@.edges.take(e_before.len() as int)[e]);
                        assert(e_before[e].2 is Contains);
                    }
                }
            }
            i = i + 1;
        }
        proof {
            assert(module.children@.take(module.children.len() as int) =~= module.children@);
            assert(self.graph@.nodes =~= v0.nodes + module_nodes(*module, crate_idx));
            assert(self.graph@.edges =~= v0.edges + module_contains(*module, parent_idx, v0.nodes.len()));
            assert(self.module_map@ =~= mm0 + module_paths(*module, v0.nodes.len()));
            assert(stash_view(self.module_deps@) =~= st0 + module_stash(*module));
        }
    }
}

proof fn lemma_trees_take(ts: Seq<ModuleTree>, i: int)
    requires
        0 <= i < ts.len(),
    ensures
        trees_weight(ts.take(i + 1)) == trees_weight(ts.take(i)) + ts[i].root.dependencies@.len()
            + forest_weight(ts[i].root.children@),
{
    assert(ts.take(i + 1).drop_last() =~= ts.take(i));
}

proof fn lemma_crate_deps_take(cs: Seq<CrateInfo>, i: int)
    requires
        0 <= i < cs.len(),
    ensures
        crate_deps_weight(cs.take(i + 1)) == crate_deps_weight(cs.take(i)) + cs[i].dependencies@.len()
            + cs[i].dev_dependencies@.len(),
{
    assert(cs.take(i + 1).drop_last() =~= cs.take(i));
}

proof fn lemma_trees_take_le(ts: Seq<ModuleTree>, i: int)
    requires
        0 <= i <= ts.len(),
    ensures
        trees_weight(ts.take(i)) <= trees_weight(ts),
    decreases ts.len() - i,
{
    if i < ts.len() {
        lemma_trees_take(ts, i);
        lemma_trees_take_le(ts, i + 1);
    } else {
        assert(ts.take(i) =~= ts);
    }
}

proof fn lemma_crate_deps_take_le(cs: Seq<CrateInfo>, i: int)
    requires
        0 <= i <= cs.len(),
    ensures
        crate_deps_weight(cs.take(i)) <= crate_deps_weight(cs),
    decreases cs.len() - i,
{
    if i < cs.len() {
        lemma_crate_deps_take(cs, i);
        lemma_crate_deps_take_le(cs, i + 1);
    } else {
        assert(cs.take(i) =~= cs);
    }
}

proof fn lemma_stash_take(s: Seq<(String, Vec<DependencyRef>)>, i: int)
    requires
        0 <= i < s.len(),
    ensures
        stash_weight(s.take(i + 1)) == stash_weight(s.take(i)) + s[i].1@.len(),
{
    assert(s.take(i + 1).drop_last() =~= s.take(i));
}

/// Adding a dependency edge that keeps the shape rules keeps the shape.
proof fn lemma_shape_push_dep_edge(v: ArcGraphView, nc: int, x: (usize, usize, EdgeView))
    requires
        built_shape(v, nc),
        !(x.2 is Contains),
        x.2 is CrateDep ==> x.0 < nc && x.1 < nc,
        x.2 is ModuleDep ==> x.0 != x.1,
    ensures
        built_shape(ArcGraphView { edges: v.edges.push(x), ..v }, nc),
{
    let v2 = ArcGraphView { edges: v.edges.push(x), ..v };
    assert forall|i: int| nc <= i < v2.nodes.len() implies (#[trigger] parent_of(v2, i as usize) matches Some(p) && p < i) by {
        lemma_parent_push(v, x, i as usize);
    }
    assert forall|e: int| 0 <= e < v2.edges.len() implies match (#[trigger] v2.edges[e]).2 {
        EdgeView::Contains => v2.edges[e].0 < v2.edges[e].1 && nc <= v2.edges[e].1,
        EdgeView::CrateDep { .. } => v2.edges[e].0 < nc && v2.edges[e].1 < nc,
        EdgeView::ModuleDep { .. } => v2.edges[e].0 != v2.edges[e].1,
    } by {
        if e < v.edges.len() {
            assert(v2.edges[e] == v.edges[e]);
        }
    }
}

impl GraphBuilder {
    /// Adds the modules of every tree whose root names a known node.
    fn add_modules(&mut self, modules: &Vec<ModuleTree>)
        requires
            old(self).wf(),
            old(self).module_map@.len() == 0,
            old(self).size() + trees_weight(modules@) < u32::MAX,
        ensures
            final(self).wf(),
            final(self).size() <= old(self).size() + trees_weight(modules@),
            final(self).ncrates == old(self).ncrates,
            final(self).crate_map == old(self).crate_map,
            old(self).graph@.nodes.len() <= final(self).graph@.nodes.len(),
            final(self).graph@.nodes.take(old(self).graph@.nodes.len() as int) == old(self).graph@.nodes,
            old(self).graph@.edges.len() <= final(self).graph@.edges.len(),
            final(self).graph@.edges.take(old(self).graph@.edges.len() as int) == old(self).graph@.edges,
            forall|e: int| old(self).graph@.edges.len() <= e < final(self).graph@.edges.len() ==> (#[trigger] final(self).graph@.edges[e]).2 is Contains,
            final(self).graph@.nodes == old(self).graph@.nodes + trees_added(
                old(self).crate_map@,
                modules@,
                modules.len() as int,
                old(self).graph@.nodes.len(),
            ).0,
            final(self).graph@.edges == old(self).graph@.edges + trees_added(
                old(self).crate_map@,
                modules@,
                modules.len() as int,
                old(self).graph@.nodes.len(),
            ).1,
            final(self).module_map@ == trees_added(
                old(self).crate_map@,
                modules@,
                modules.len() as int,
                old(self).graph@.nodes.len(),
            ).2,
            stash_view(final(self).module_deps@) == stash_view(old(self).module_deps@) + trees_stash(
                old(self).crate_map@,
                modules@,
                modules.len() as int,
                old(self).graph@.nodes.len(),
            ),
    {
        let ghost st0 = stash_view(self.module_deps@);
        assert(st0 =~= st0 + trees_stash(self.crate_map@, modules@, 0, self.graph@.nodes.len()));
        let ghost size0 = self.size();
        let ghost n0 = self.graph@.nodes;
        let ghost ed0 = self.graph@.edges;
        let ghost cm = self.crate_map@;
        assert(self.module_map@ =~= trees_added(cm, modules@, 0, n0.len()).2);
        assert(self.graph@.nodes =~= n0 + trees_added(cm, modules@, 0, n0.len()).0);
        assert(self.graph@.edges =~= ed0 + trees_added(cm, modules@, 0, n0.len()).1);
        assert(ed0.take(ed0.len() as int) =~= ed0);
        let mut t: usize = 0;
        assert(n0.take(n0.len() as int) =~= n0);
        while t < modules.len()
            invariant
                self.wf(),
                self.ncrates == old(self).ncrates,
                self.crate_map == old(self).crate_map,
                n0 == old(self).graph@.nodes,
                n0.len() <= self.graph@.nodes.len(),
                self.graph@.nodes.take(n0.len() as int) == n0,
                ed0 == old(self).graph@.edges,
                ed0.len() <= self.graph@.edges.len(),
                self.graph@.edges.take(ed0.len() as int) == ed0,
                forall|e: int| ed0.len() <= e < self.graph@.edges.len() ==> (#[trigger] self.graph@.edges[e]).2 is Contains,
                cm == self.crate_map@,
                self.graph@.nodes == n0 + trees_added(cm, modules@, t as int, n0.len()).0,
                self.graph@.edges == ed0 + trees_added(cm, modules@, t as int, n0.len()).1,
                self.module_map@ == trees_added(cm, modules@, t as int, n0.len()).2,
                stash_view(self.module_deps@) == st0 + trees_stash(cm, modules@, t as int, n0.len()),
                0 <= t <= modules.len(),
                self.size() <= size0 + trees_weight(modules@.take(t as int)),
                size0 + trees_weight(modules@) < u32::MAX,
            decreases modules.len() - t,
        {
            proof {
                lemma_trees_take(modules@, t as int);
                assert(modules@.take(t + 1) =~= modules@.take(t + 1));
            }
            proof {
                lemma_trees_take_le(modules@, t + 1);
            }
            let tree = &modules[t];
            let ghost ta = trees_added(cm, modules@, t as int, n0.len());
            let ghost nt = self.graph@.nodes;
            let ghost et = self.graph@.edges;
            let ghost mt = self.module_map@;
            let ghost stt = stash_view(self.module_deps@);
            match self.resolve_node(tree.root.name.as_str()) {
                Some(crate_idx) => {
                    self.stash_deps(tree.root.name.as_str(), &tree.root.dependencies);
                    let ghost str1 = stash_view(self.module_deps@);
                    assert(str1 =~= str1 + forest_stash(tree.root.children@.take(0))) by {
                        assert(tree.root.children@.take(0) =~= Seq::<ModuleInfo>::empty());
                    }
                    let ghost size1 = self.size();
                    let ghost bse: nat = n0.len() + ta.0.len();
                    proof {
                        assert(tree.root.children@.take(0) =~= Seq::<ModuleInfo>::empty());
                        assert(self.graph@.nodes =~= nt + forest_nodes(tree.root.children@.take(0), crate_idx));
                        assert(self.graph@.edges =~= et + forest_contains(tree.root.children@.take(0), crate_idx, bse));
                        assert(self.module_map@ =~= mt + forest_paths(tree.root.children@.take(0), bse));
                    }
                    let mut c: usize = 0;
                    while c < tree.root.children.len()
                        invariant
                            self.wf(),
                            self.ncrates == old(self).ncrates,
                            self.crate_map == old(self).crate_map,
                            crate_idx < self.graph@.nodes.len(),
                            n0.len() <= self.graph@.nodes.len(),
                            self.graph@.nodes.take(n0.len() as int) == n0,
                            ed0.len() <= self.graph@.edges.len(),
                            self.graph@.edges.take(ed0.len() as int) == ed0,
                            forall|e: int| ed0.len() <= e < self.graph@.edges.len() ==> (#[trigger] self.graph@.edges[e]).2 is Contains,
                            cm == self.crate_map@,
                            nt.len() == bse,
                            self.graph@.nodes == nt + forest_nodes(tree.root.children@.take(c as int), crate_idx),
                            self.graph@.edges == et + forest_contains(tree.root.children@.take(c as int), crate_idx, bse),
                            self.module_map@ == mt + forest_paths(tree.root.children@.take(c as int), bse),
                            stash_view(self.module_deps@) == str1 + forest_stash(tree.root.children@.take(c as int)),
                            0 <= c <= tree.root.children.len(),
                            self.size() <= size1 + forest_weight(tree.root.children@.take(c as int)),
                            size1 + forest_weight(tree.root.children@) < u32::MAX,
                        decreases tree.root.children.len() - c,
                    {
                        proof {
                            lemma_forest_take(tree.root.children@, c as int);
                            lemma_forest_take_le(tree.root.children@, c + 1);
                        }
                        let ghost nb = self.graph@.nodes;
                        let ghost eb = self.graph@.edges;
                        proof {
                            lemma_forest_nodes_len(tree.root.children@.take(c as int), crate_idx);
                        }
                        self.add_modules_recursive(&tree.root.children[c], crate_idx, crate_idx);
                        proof {
                            let pre = tree.root.children@.take(c as int);
                            let nxt = tree.root.children@.take(c + 1);
                            assert(nxt.drop_last() =~= pre);
                            assert(nxt.last() == tree.root.children@[c as int]);
                            assert(nb.len() == bse + forest_count(pre));
                            assert(self.graph@.nodes =~= nt + forest_nodes(nxt, crate_idx));
                            assert(self.graph@.edges =~= et + forest_contains(nxt, crate_idx, bse));
                            assert(self.module_map@ =~= mt + forest_paths(nxt, bse));
                            assert(stash_view(self.module_deps@) =~= str1 + forest_stash(nxt));
                            assert(self.graph@.nodes.take(n0.len() as int) =~= self.graph@.nodes.take(nb.len() as int).take(n0.len() as int));
                            assert(self.graph@.edges.take(ed0.len() as int) =~= self.graph@.edges.take(eb.len() as int).take(ed0.len() as int));
                            assert forall|e: int| ed0.len() <= e < self.graph@.edges.len() implies (#[trigger] self.graph@.edges[e]).2 is Contains by {
                                if e < eb.len() {
                                    assert(self.graph@.edges[e] == self.graph@.edges.take(eb.len() as int)[e]);
                                    assert(eb[e].2 is Contains);
                                }
                            }
                        }
                        c = c + 1;
                    }
                    proof {
                        assert(tree.root.children@.take(tree.root.children.len() as int) =~= tree.root.children@);
                        assert(nt =~= n0 + ta.0);
                        assert(self.graph@.nodes =~= n0 + trees_added(cm, modules@, t + 1, n0.len()).0);
                        assert(self.graph@.edges =~= ed0 + trees_added(cm, modules@, t + 1, n0.len()).1);
                        assert(self.module_map@ =~= trees_added(cm, modules@, t + 1, n0.len()).2);
                        assert(mt == ta.2);
                        assert(stash_view(self.module_deps@) =~= st0 + trees_stash(cm, modules@, t + 1, n0.len()));
                    }
                },
                None => {
                    assert(stash_view(self.module_deps@) =~= st0 + trees_stash(cm, modules@, t + 1, n0.len()));
                },
            }
            t = t + 1;
        }
        proof {
            assert(modules@.take(modules.len() as int) =~= modules@);
        }
    }

    /// Adds a production edge for each workspace dependency of a crate and a
    /// unit-test edge for each workspace dev-dependency.
    fn add_crate_deps(&mut self, crates: &Vec<CrateInfo>)
        requires
            old(self).wf(),
            old(self).size() + crate_deps_weight(crates@) < u32::MAX,
        ensures
            final(self).wf(),
            final(self).size() <= old(self).size() + crate_deps_weight(crates@),
            final(self).ncrates == old(self).ncrates,
            final(self).graph@.nodes == old(self).graph@.nodes,
            final(self).module_map == old(self).module_map,
            final(self).module_deps == old(self).module_deps,
            final(self).crate_map == old(self).crate_map,
            final(self).graph@.edges == old(self).graph@.edges + crate_dep_edges(
                old(self).crate_map@,
                crates@,
                crates.len() as int,
            ),
    {
        let ghost size0 = self.size();
        let ghost e0 = self.graph@.edges;
        let ghost m = self.crate_map@;
        let mut c: usize = 0;
        while c < crates.len()
            invariant
                self.wf(),
                self.ncrates == old(self).ncrates,
                self.graph@.nodes == old(self).graph@.nodes,
                self.module_map == old(self).module_map,
                self.module_deps == old(self).module_deps,
                self.crate_map == old(self).crate_map,
                m == self.crate_map@,
                self.graph@.edges == e0 + crate_dep_edges(m, crates@, c as int),
                0 <= c <= crates.len(),
                self.size() <= size0 + crate_deps_weight(crates@.take(c as int)),
                size0 + crate_deps_weight(crates@) < u32::MAX,
            decreases crates.len() - c,
        {
            proof {
                lemma_crate_deps_take(crates@, c as int);
            }
            proof {
                lemma_crate_deps_take_le(crates@, c + 1);
            }
            let info = &crates[c];
            proof {
                lemma_lookup_last_bound(self.crate_map@, info.name@, 0, self.ncrates as int);
            }
            let ghost base = self.graph@.edges;
            match lookup_last_exec(&self.crate_map, info.name.as_str()) {
                Some(from) => {
                    let ghost size1 = self.size();
                    let mut pass: usize = 0;
                    while pass < 2
                        invariant
                            m == self.crate_map@,
                            *info == crates@[c as int],
                            lookup_last(m, info.name@) == Some(from),
                            self.graph@.edges == base + (if pass == 0 {
                                Seq::empty()
                            } else {
                                name_dep_edges(m, from, info.dependencies@, production_context())
                            }) + (if pass <= 1 {
                                Seq::empty()
                            } else {
                                name_dep_edges(m, from, info.dev_dependencies@, unit_test_context())
                            }),
                            self.wf(),
                            self.ncrates == old(self).ncrates,
                            self.graph@.nodes == old(self).graph@.nodes,
                            self.module_map == old(self).module_map,
                            self.module_deps == old(self).module_deps,
                            self.crate_map == old(self).crate_map,
                            from < self.ncrates,
                            0 <= pass <= 2,
                            self.size() <= size1 + if pass == 0 { 0int } else if pass == 1 {
                                info.dependencies@.len() as int
                            } else {
                                (info.dependencies@.len() + info.dev_dependencies@.len()) as int
                            },
                            size1 + info.dependencies@.len() + info.dev_dependencies@.len() < u32::MAX,
                        decreases 2 - pass,
                    {
                        let names = if pass == 0 { &info.dependencies } else { &info.dev_dependencies };
                        let ghost size2 = self.size();
                        let ghost base2 = self.graph@.edges;
                        let ghost ctx = if pass == 0 { production_context() } else { unit_test_context() };
                        let mut d: usize = 0;
                        while d < names.len()
                            invariant
                                m == self.crate_map@,
                                self.graph@.edges == base2 + name_dep_edges(m, from, names@.take(d as int), ctx),
                                ctx == if pass == 0 { production_context() } else { unit_test_context() },
                                self.wf(),
                                self.ncrates == old(self).ncrates,
                                self.graph@.nodes == old(self).graph@.nodes,
                                self.module_map == old(self).module_map,
                                self.module_deps == old(self).module_deps,
                                self.crate_map == old(self).crate_map,
                                from < self.ncrates,
                                0 <= d <= names.len(),
                                self.size() <= size2 + d,
                                size2 + names.len() < u32::MAX,
                            decreases names.len() - d,
                        {
                            proof {
                                lemma_lookup_last_bound(self.crate_map@, names@[d as int]@, 0, self.ncrates as int);
                                use_type_invariant(&self.graph);
                            }
                            match lookup_last_exec(&self.crate_map, names[d].as_str()) {
                                Some(to) => {
                                    let context = if pass == 0 {
                                        EdgeContext::production()
                                    } else {
                                        EdgeContext::test(TestKind::Unit)
                                    };
                                    let ghost v0 = self.graph@;
                                    let ghost cv = context@;
                                    assert(cv.features =~= Seq::<Seq<char>>::empty());
                                    assert(cv == ctx);
                                    self.graph.add_edge(from, to, Edge::CrateDep { context });
                                    proof {
                                        lemma_shape_push_dep_edge(v0, self.ncrates as int, (from, to, EdgeView::CrateDep { context: cv }));
                                    }
                                },
                                None => {},
                            }
                            proof {
                                assert(names@.take(d + 1).drop_last() =~= names@.take(d as int));
                            }
                            d = d + 1;
                        }
                        proof {
                            assert(names@.take(names.len() as int) =~= names@);
                            if pass == 0 {
                                assert(self.graph@.edges =~= base + name_dep_edges(m, from, info.dependencies@, production_context()) + Seq::empty());
                            } else {
                                assert(self.graph@.edges =~= base + name_dep_edges(m, from, info.dependencies@, production_context()) + name_dep_edges(m, from, info.dev_dependencies@, unit_test_context()));
                            }
                        }
                        pass = pass + 1;
                    }
                },
                None => {},
            }
            proof {
                assert(self.graph@.edges =~= e0 + crate_dep_edges(m, crates@, c + 1));
            }
            c = c + 1;
        }
        proof {
            assert(crates@.take(crates.len() as int) =~= crates@);
        }
    }
}

/// Dependency `i` of stashed entry `k` leads from the node that the
/// entry's path names to the node that its module target names, and
/// these are two different nodes (names resolved by `resolve_name`).
pub open spec fn dep_link(
    mm: Seq<(String, usize)>,
    cm: Seq<(String, usize)>,
    sv: Seq<(Seq<char>, Seq<DependencyRefView>)>,
    k: int,
    i: int,
    from: usize,
    to: usize,
) -> bool {
    &&& 0 <= k < sv.len()
    &&& 0 <= i < sv[k].1.len()
    &&& resolve_name(mm, cm, sv[k].0) == Some(from)
    &&& resolve_name(mm, cm, dep_module_target(sv[k].1[i])) == Some(to)
    &&& from != to
}

/// Some dependency of `deps` with module target `t` is a production one.
pub open spec fn target_has_production(deps: Seq<DependencyRefView>, t: Seq<char>) -> bool {
    exists|j: int| 0 <= j < deps.len() && dep_module_target(#[trigger] deps[j]) == t && deps[j].context.kind == DependencyKind::Production
}

/// Edge `x` is the module-dependency edge made for dependency `i` of
/// stashed entry `k`: it joins the nodes that `dep_link` names, and it is
/// a production edge exactly when some dependency of the entry with the
/// same module target is one.
pub open spec fn edge_for_dep(
    mm: Seq<(String, usize)>,
    cm: Seq<(String, usize)>,
    sv: Seq<(Seq<char>, Seq<DependencyRefView>)>,
    x: (usize, usize, EdgeView),
    k: int,
    i: int,
) -> bool {
    &&& dep_link(mm, cm, sv, k, i, x.0, x.1)
    &&& x.2 matches EdgeView::ModuleDep { context, locations } && (context.kind == DependencyKind::Production
        <==> target_has_production(sv[k].1, dep_module_target(sv[k].1[i]))) && places_covered(
        sv[k].1,
        dep_module_target(sv[k].1[i]),
        locations,
    ) && locations_of_group(sv[k].1, dep_module_target(sv[k].1[i]), locations)
}

/// The dependencies of `deps` on module target `t`, in order.
pub open spec fn target_deps(deps: Seq<DependencyRefView>, t: Seq<char>) -> Seq<DependencyRefView> {
    deps.filter(on_target(t))
}

/// Whether a dependency is on module target `t`.
pub open spec fn on_target(t: Seq<char>) -> spec_fn(DependencyRefView) -> bool {
    |d: DependencyRefView| dep_module_target(d) == t
}

/// `locs` are sorted by place, one per place, and each is the location made
/// for the place of a dependency of `deps` on `t`.
#[verifier::opaque]
pub open spec fn locations_of_group(deps: Seq<DependencyRefView>, t: Seq<char>, locs: Seq<SourceLocationView>) -> bool {
    &&& forall|a: int, b: int| 0 <= a < b < locs.len() ==> loc_lt(#[trigger] locs[a], #[trigger] locs[b])
    &&& forall|q: int| 0 <= q < locs.len() ==> is_location_in(target_deps(deps, t), t, #[trigger] locs[q])
}

/// The members of a target group, in order, are exactly the dependencies on
/// that target.
proof fn lemma_group_is_filter(dv: Seq<DependencyRefView>, gv: Seq<(Seq<char>, Seq<usize>)>, g: int, rv: Seq<DependencyRefView>)
    requires
        is_target_grouping(dv, gv),
        dv.len() <= usize::MAX,
        0 <= g < gv.len(),
        rv.len() == gv[g].1.len(),
        forall|q: int| 0 <= q < rv.len() ==> #[trigger] rv[q] == dv[gv[g].1[q] as int],
    ensures
        rv == target_deps(dv, gv[g].0),
{
    let t = gv[g].0;
    let m = gv[g].1;
    assert forall|j: int| 0 <= j < dv.len() && dep_module_target(dv[j]) == t implies #[trigger] m.contains(j as usize) by {
        assert(grouped(gv, j));
        let a = choose|a: int| 0 <= a < gv.len() && #[trigger] in_group(gv, a, j);
        let q = choose|q: int| 0 <= q < gv[a].1.len() && gv[a].1[q] == j as usize;
        assert(dep_module_target(dv[gv[a].1[q] as int]) == gv[a].0);
        if a < g {
            assert(lex_lt(gv[a].0, gv[g].0));
            lemma_lex_irreflexive(gv[a].0);
        } else if g < a {
            assert(lex_lt(gv[g].0, gv[a].0));
            lemma_lex_irreflexive(gv[g].0);
        }
    }
    lemma_increasing_filter(dv, t, m, dv.len() as int, m.len() as int);
    assert(m.take(m.len() as int) =~= m);
    assert(dv.take(dv.len() as int) =~= dv);
    assert(rv =~= m.map_values(|x: usize| dv[x as int]));
}

/// A strictly increasing list of exactly the indices whose dependency is on
/// `t`, cut below `n` and mapped to the dependencies, is the filter of the
/// first `n` dependencies.
proof fn lemma_increasing_filter(dv: Seq<DependencyRefView>, t: Seq<char>, m: Seq<usize>, n: int, c: int)
    requires
        0 <= n <= dv.len(),
        dv.len() <= usize::MAX,
        0 <= c <= m.len(),
        forall|k: int, l: int| 0 <= k < l < m.len() ==> #[trigger] m[k] < #[trigger] m[l],
        forall|k: int| 0 <= k < m.len() ==> (#[trigger] m[k]) < dv.len() && dep_module_target(dv[m[k] as int]) == t,
        forall|j: int| 0 <= j < dv.len() && dep_module_target(dv[j]) == t ==> #[trigger] m.contains(j as usize),
        forall|k: int| 0 <= k < c ==> #[trigger] m[k] < n,
        c < m.len() ==> m[c] >= n,
    ensures
        m.take(c).map_values(|x: usize| dv[x as int]) == target_deps(dv.take(n), t),
    decreases n,
{
    reveal(Seq::filter);
    if n == 0 {
        assert(m.take(c).len() == 0) by {
            if c > 0 {
                assert(m[0] < 0);
            }
        }
        assert(m.take(c).map_values(|x: usize| dv[x as int]) =~= Seq::<DependencyRefView>::empty());
        assert(target_deps(dv.take(0), t) =~= Seq::<DependencyRefView>::empty());
    } else {
        let d = dv.take(n);
        assert(d.drop_last() =~= dv.take(n - 1));
        assert(d.last() == dv[n - 1]);
        if dep_module_target(dv[n - 1]) == t {
            assert(m.contains((n - 1) as usize));
            let p = choose|p: int| 0 <= p < m.len() && m[p] == (n - 1) as usize;
            assert(p == c - 1) by {
                if p >= c {
                    if p > c {
                        assert(m[c] < m[p]);
                    }
                } else if p < c - 1 {
                    assert(m[p] < m[c - 1]);
                }
            }
            lemma_increasing_filter(dv, t, m, n - 1, c - 1);
            assert(m.take(c) =~= m.take(c - 1).push(m[c - 1]));
            assert(m.take(c).map_values(|x: usize| dv[x as int]) =~= m.take(c - 1).map_values(|x: usize| dv[x as int]).push(dv[n - 1]));
        } else {
            assert(c == 0 || m[c - 1] < n - 1) by {
                if c > 0 && m[c - 1] == n - 1 {
                    assert(dep_module_target(dv[m[c - 1] as int]) == t);
                }
            }
            lemma_increasing_filter(dv, t, m, n - 1, c);
        }
    }
}

/// Every dependency of `deps` on module target `t` has its place (the same
/// file, by path components, and line) among `locs`.
#[verifier::opaque]
pub open spec fn places_covered(deps: Seq<DependencyRefView>, t: Seq<char>, locs: Seq<SourceLocationView>) -> bool {
    forall|j: int|
        0 <= j < deps.len() && #[trigger] dep_module_target(deps[j]) == t ==> exists|q: int|
            0 <= q < locs.len() && path_components(#[trigger] locs[q].file) == path_components(deps[j].source_file) && locs[q].line
                == deps[j].line
}

/// Every dependency has an earlier or equal one at its place that is the
/// first there.
proof fn lemma_first_place_of(deps: Seq<DependencyRefView>, q: int)
    requires
        0 <= q < deps.len(),
    ensures
        exists|i: int| 0 <= i <= q && first_at_place(deps, i) && #[trigger] same_place(deps[i], deps[q]),
    decreases q,
{
    if first_at_place(deps, q) {
        assert(same_place(deps[q], deps[q]));
    } else {
        let j = choose|j: int| 0 <= j < q && same_place(#[trigger] deps[j], deps[q]);
        lemma_first_place_of(deps, j);
        let i = choose|i: int| 0 <= i <= j && first_at_place(deps, i) && #[trigger] same_place(deps[i], deps[j]);
        assert(same_place(deps[i], deps[q]));
    }
}

proof fn lemma_locations_cover_group(
    dv: Seq<DependencyRefView>,
    gv: Seq<(Seq<char>, Seq<usize>)>,
    g: int,
    rv: Seq<DependencyRefView>,
    locations: Seq<SourceLocation>,
)
    requires
        is_target_grouping(dv, gv),
        dv.len() <= usize::MAX,
        0 <= g < gv.len(),
        rv.len() == gv[g].1.len(),
        forall|q: int| 0 <= q < rv.len() ==> #[trigger] rv[q] == dv[gv[g].1[q] as int],
        forall|i: int| 0 <= i < rv.len() && first_at_place(rv, i) ==> exists|k: int|
            0 <= k < locations.len() && #[trigger] locations[k]@.file == rv[i].source_file && locations[k]@.line == rv[i].line,
        forall|a: int, b: int| 0 <= a < b < locations.len() ==> loc_lt(#[trigger] locations[a]@, #[trigger] locations[b]@),
        forall|k: int| 0 <= k < locations.len() ==> is_location_in(rv, gv[g].0, #[trigger] locations[k]@),
    ensures
        places_covered(dv, gv[g].0, loc_views(locations)),
        locations_of_group(dv, gv[g].0, loc_views(locations)),
{
    lemma_group_is_filter(dv, gv, g, rv);
    reveal(locations_of_group);
    let lv0 = loc_views(locations);
    assert forall|a: int, b: int| 0 <= a < b < lv0.len() implies loc_lt(#[trigger] lv0[a], #[trigger] lv0[b]) by {
        assert(lv0[a] == locations[a]@ && lv0[b] == locations[b]@);
    }
    assert forall|q: int| 0 <= q < lv0.len() implies is_location_in(target_deps(dv, gv[g].0), gv[g].0, #[trigger] lv0[q]) by {
        assert(lv0[q] == locations[q]@);
    }
    let lv = loc_views(locations);
    assert forall|i: int| 0 <= i < rv.len() && first_at_place(rv, i) implies exists|kk: int|
        0 <= kk < lv.len() && #[trigger] lv[kk].file == rv[i].source_file && lv[kk].line == rv[i].line by {
        let kk = choose|kk: int| 0 <= kk < locations.len() && #[trigger] locations[kk]@.file == rv[i].source_file && locations[kk]@.line == rv[i].line;
        assert(lv[kk] == locations[kk]@);
    }
    lemma_group_places_covered(dv, gv, g, rv, lv);
}

/// The locations made for a target group cover the place of every
/// dependency of the module on that target.
proof fn lemma_group_places_covered(
    dv: Seq<DependencyRefView>,
    gv: Seq<(Seq<char>, Seq<usize>)>,
    g: int,
    rv: Seq<DependencyRefView>,
    locs: Seq<SourceLocationView>,
)
    requires
        is_target_grouping(dv, gv),
        dv.len() <= usize::MAX,
        0 <= g < gv.len(),
        rv.len() == gv[g].1.len(),
        forall|q: int| 0 <= q < rv.len() ==> #[trigger] rv[q] == dv[gv[g].1[q] as int],
        forall|i: int| 0 <= i < rv.len() && first_at_place(rv, i) ==> exists|k: int|
            0 <= k < locs.len() && #[trigger] locs[k].file == rv[i].source_file && locs[k].line == rv[i].line,
    ensures
        places_covered(dv, gv[g].0, locs),
{
    reveal(places_covered);
    assert forall|j: int| 0 <= j < dv.len() && #[trigger] dep_module_target(dv[j]) == gv[g].0 implies exists|q: int|
        0 <= q < locs.len() && path_components(#[trigger] locs[q].file) == path_components(dv[j].source_file) && locs[q].line
            == dv[j].line by {
        assert(grouped(gv, j));
        let a = choose|a: int| 0 <= a < gv.len() && #[trigger] in_group(gv, a, j);
        let q = choose|q: int| 0 <= q < gv[a].1.len() && gv[a].1[q] == j as usize;
        assert(dep_module_target(dv[gv[a].1[q] as int]) == gv[a].0);
        if a < g {
            assert(lex_lt(gv[a].0, gv[g].0));
            crate::order::lemma_lex_irreflexive(gv[a].0);
        } else if g < a {
            assert(lex_lt(gv[g].0, gv[a].0));
            crate::order::lemma_lex_irreflexive(gv[g].0);
        }
        assert(a == g);
        assert(gv[g].1[q] == j as usize);
        assert(rv[q] == dv[gv[g].1[q] as int]);
        assert(rv[q] == dv[j]);
        lemma_first_place_of(rv, q);
        let i = choose|i: int| 0 <= i <= q && first_at_place(rv, i) && #[trigger] same_place(rv[i], rv[q]);
        let k = choose|k: int| 0 <= k < locs.len() && #[trigger] locs[k].file == rv[i].source_file && locs[k].line == rv[i].line;
        assert(path_components(locs[k].file) == path_components(dv[j].source_file));
    }
}

/// Every edge at or after `lo` is the edge made for some stashed dependency.
pub open spec fn edges_explained(
    mm: Seq<(String, usize)>,
    cm: Seq<(String, usize)>,
    sv: Seq<(Seq<char>, Seq<DependencyRefView>)>,
    edges: Seq<(usize, usize, EdgeView)>,
    lo: int,
) -> bool {
    forall|e: int| lo <= e < edges.len() ==> #[trigger] edge_explained(mm, cm, sv, edges, e)
}

/// Edge `e` is the edge made for some stashed dependency.
pub open spec fn edge_explained(
    mm: Seq<(String, usize)>,
    cm: Seq<(String, usize)>,
    sv: Seq<(Seq<char>, Seq<DependencyRefView>)>,
    edges: Seq<(usize, usize, EdgeView)>,
    e: int,
) -> bool {
    exists|k: int, i: int| #[trigger] edge_for_dep(mm, cm, sv, edges[e], k, i)
}

/// Some edge at or after `lo` goes from `from` to `to`.
pub open spec fn has_edge_after(edges: Seq<(usize, usize, EdgeView)>, lo: int, from: usize, to: usize) -> bool {
    exists|e: int| lo <= e < edges.len() && #[trigger] edges[e].0 == from && edges[e].1 == to
}

/// `b` is `a` followed by module-dependency edges only.
pub open spec fn grows_by_module_deps(a: Seq<(usize, usize, EdgeView)>, b: Seq<(usize, usize, EdgeView)>) -> bool {
    &&& a.len() <= b.len()
    &&& b.take(a.len() as int) == a
    &&& forall|e: int| a.len() <= e < b.len() ==> (#[trigger] b[e]).2 is ModuleDep
}

proof fn lemma_grows_push(a: Seq<(usize, usize, EdgeView)>, b: Seq<(usize, usize, EdgeView)>, x: (usize, usize, EdgeView))
    requires
        grows_by_module_deps(a, b),
        x.2 is ModuleDep,
    ensures
        grows_by_module_deps(a, b.push(x)),
{
    assert(b.push(x).take(a.len() as int) =~= b.take(a.len() as int));
    assert forall|e: int| a.len() <= e < b.push(x).len() implies (#[trigger] b.push(x)[e]).2 is ModuleDep by {
        if e < b.len() {
            assert(b.push(x)[e] == b[e]);
        }
    }
}

impl GraphBuilder {
    /// One module-dependency edge per (module, target) pair found in the
    /// stashed dependencies, targets in name order, self-edges left out.
    fn add_module_deps(&mut self)
        requires
            old(self).wf(),
            old(self).size() < u32::MAX,
        ensures
            final(self).wf(),
            final(self).graph@.nodes == old(self).graph@.nodes,
            final(self).ncrates == old(self).ncrates,
            old(self).graph@.edges.len() <= final(self).graph@.edges.len(),
            final(self).graph@.edges.take(old(self).graph@.edges.len() as int) == old(self).graph@.edges,
            forall|e: int| old(self).graph@.edges.len() <= e < final(self).graph@.edges.len() ==> (#[trigger] final(self).graph@.edges[e]).2 is ModuleDep,
            edges_explained(
                old(self).module_map@,
                old(self).crate_map@,
                stash_view(old(self).module_deps@),
                final(self).graph@.edges,
                old(self).graph@.edges.len() as int,
            ),
            forall|k: int, i: int, from: usize, to: usize|
                #[trigger] dep_link(old(self).module_map@, old(self).crate_map@, stash_view(old(self).module_deps@), k, i, from, to)
                    ==> has_edge_after(final(self).graph@.edges, old(self).graph@.edges.len() as int, from, to),
    {
        let ghost ed0 = self.graph@.edges;
        let ghost mm = self.module_map@;
        let ghost cm = self.crate_map@;
        let ghost sv = stash_view(self.module_deps@);
        assert(ed0.take(ed0.len() as int) =~= ed0);
        let mut stash: Vec<(String, Vec<DependencyRef>)> = Vec::new();
        std::mem::swap(&mut stash, &mut self.module_deps);
        let ghost n0 = self.graph@.nodes.len();
        let ghost e0 = self.graph@.edges.len();
        assert(stash@.take(0) =~= Seq::<(String, Vec<DependencyRef>)>::empty());
        let mut k: usize = 0;
        while k < stash.len()
            invariant
                self.wf(),
                self.module_deps@.len() == 0,
                self.graph@.nodes == old(self).graph@.nodes,
                self.ncrates == old(self).ncrates,
                n0 == self.graph@.nodes.len(),
                grows_by_module_deps(ed0, self.graph@.edges),
                n0 + e0 + stash_weight(stash@) < u32::MAX,
                0 <= k <= stash.len(),
                self.graph@.edges.len() <= e0 + stash_weight(stash@.take(k as int)),
                mm == self.module_map@,
                cm == self.crate_map@,
                sv == stash_view(stash@),
                e0 == ed0.len(),
                edges_explained(mm, cm, sv, self.graph@.edges, e0 as int),
                forall|kk: int, i: int, from: usize, to: usize|
                    0 <= kk < k && #[trigger] dep_link(mm, cm, sv, kk, i, from, to) ==> has_edge_after(
                        self.graph@.edges,
                        e0 as int,
                        from,
                        to,
                    ),
            decreases stash.len() - k,
        {
            proof {
                lemma_stash_take(stash@, k as int);
                lemma_stash_take_le(stash@, k + 1);
            }
            let (ref from_path, ref deps) = stash[k];
            let ghost dv = dep_views(deps@);
            proof {
                assert(sv[k as int] == (from_path@, dv));
            }
            match self.resolve_node(from_path.as_str()) {
                Some(from) => {
                    let groups = group_by_module_target(deps);
                    let ghost gv = groups_view(groups@);
                    proof {
                        lemma_groups_bound(dep_views(deps@), groups_view(groups@));
                    }
                    let ghost ebase = self.graph@.edges.len();
                    let mut g: usize = 0;
                    while g < groups.len()
                        invariant
                            self.wf(),
                            self.module_deps@.len() == 0,
                            self.graph@.nodes == old(self).graph@.nodes,
                            self.ncrates == old(self).ncrates,
                            n0 == self.graph@.nodes.len(),
                            grows_by_module_deps(ed0, self.graph@.edges),
                            from < n0,
                            is_target_grouping(dep_views(deps@), groups_view(groups@)),
                            groups.len() <= deps.len(),
                            0 <= g <= groups.len(),
                            self.graph@.edges.len() <= ebase + g,
                            ebase + deps.len() + n0 < u32::MAX,
                            mm == self.module_map@,
                            cm == self.crate_map@,
                            e0 == ed0.len(),
                            0 <= k < sv.len(),
                            sv[k as int] == (from_path@, dv),
                            dv == dep_views(deps@),
                            gv == groups_view(groups@),
                            resolve_name(mm, cm, from_path@) == Some(from),
                            edges_explained(mm, cm, sv, self.graph@.edges, e0 as int),
                            forall|kk: int, i: int, fr: usize, to: usize|
                                0 <= kk < k && #[trigger] dep_link(mm, cm, sv, kk, i, fr, to) ==> has_edge_after(
                                    self.graph@.edges,
                                    e0 as int,
                                    fr,
                                    to,
                                ),
                            forall|i: int, to: usize|
                                #[trigger] dep_link(mm, cm, sv, k as int, i, from, to) && (exists|a: int| 0 <= a < g && #[trigger] in_group(gv, a, i))
                                    ==> has_edge_after(self.graph@.edges, e0 as int, from, to),
                        decreases groups.len() - g,
                    {
                        let (ref target, ref members) = groups[g];
                        proof {
                            let gv = groups_view(groups@);
                            assert(gv[g as int] == (target@, members@));
                            assert(members.len() > 0);
                        }
                        match self.resolve_node(target.as_str()) {
                            Some(to) => {
                                if from != to {
                                    let mut refs: Vec<&DependencyRef> = Vec::new();
                                    let mut m: usize = 0;
                                    while m < members.len()
                                        invariant
                                            is_target_grouping(dep_views(deps@), groups_view(groups@)),
                                            g < groups.len(),
                                            groups_view(groups@)[g as int].1 == members@,
                                            0 <= m <= members.len(),
                                            refs.len() == m,
                                            forall|q: int| 0 <= q < m ==> #[trigger] ref_views(refs@)[q] == dep_views(deps@)[members@[q] as int],
                                        decreases members.len() - m,
                                    {
                                        proof {
                                            let gv = groups_view(groups@);
                                            assert(gv[g as int].1[m as int] < dep_views(deps@).len());
                                        }
                                        let ghost r0 = refs@;
                                        refs.push(&deps[members[m]]);
                                        proof {
                                            assert forall|q: int| 0 <= q < m + 1 implies #[trigger] ref_views(refs@)[q] == dep_views(deps@)[members@[q] as int] by {
                                                if q < m {
                                                    assert(refs@[q] == r0[q]);
                                                    assert(ref_views(r0)[q] == dep_views(deps@)[members@[q] as int]);
                                                }
                                            }
                                        }
                                        m = m + 1;
                                    }
                                    let context = aggregate_context(refs.as_slice());
                                    let locations = build_source_locations(refs.as_slice(), target.as_str());
                                    proof {
                                        use_type_invariant(&self.graph);
                                    }
                                    let ghost v0 = self.graph@;
                                    let ghost ev = Edge::ModuleDep { locations, context }@;
                                    proof {
                                        lemma_group_production(dv, gv, g as int, ref_views(refs@));
                                        lemma_locations_cover_group(dv, gv, g as int, ref_views(refs@), locations@);
                                    }
                                    self.graph.add_edge(from, to, Edge::ModuleDep { locations, context });
                                    proof {
                                        lemma_shape_push_dep_edge(v0, self.ncrates as int, (from, to, ev));
                                        lemma_grows_push(ed0, v0.edges, (from, to, ev));
                                        let ne = self.graph@.edges;
                                        let i0 = gv[g as int].1[0] as int;
                                        assert(gv[g as int] == (target@, members@));
                                        assert(dep_module_target(dv[i0]) == gv[g as int].0);
                                        assert(edge_for_dep(mm, cm, sv, ne[v0.edges.len() as int], k as int, i0));
                                        lemma_explained_push(mm, cm, sv, v0.edges, e0 as int, (from, to, ev), k as int, i0);
                                        assert(ne == v0.edges.push((from, to, ev)));
                                        assert forall|kk: int, i: int, fr: usize, t2: usize|
                                            0 <= kk < k && #[trigger] dep_link(mm, cm, sv, kk, i, fr, t2) implies has_edge_after(
                                                ne,
                                                e0 as int,
                                                fr,
                                                t2,
                                            ) by {
                                            let w = choose|w: int| e0 <= w < v0.edges.len() && #[trigger] v0.edges[w].0 == fr && v0.edges[w].1 == t2;
                                            assert(ne[w] == v0.edges[w]);
                                        }
                                        assert(has_edge_after(ne, e0 as int, from, to)) by {
                                            assert(ne[v0.edges.len() as int].0 == from);
                                        }
                                        assert forall|i: int, t2: usize|
                                            #[trigger] dep_link(mm, cm, sv, k as int, i, from, t2) && (exists|a: int| 0 <= a < g + 1 && #[trigger] in_group(gv, a, i))
                                                implies has_edge_after(ne, e0 as int, from, t2) by {
                                            let a = choose|a: int| 0 <= a < g + 1 && #[trigger] in_group(gv, a, i);
                                            if a < g {
                                                let w = choose|w: int| e0 <= w < v0.edges.len() && #[trigger] v0.edges[w].0 == from && v0.edges[w].1 == t2;
                                                assert(ne[w] == v0.edges[w]);
                                            } else {
                                                let q = choose|q: int| 0 <= q < gv[a].1.len() && gv[a].1[q] == i as usize;
                                                assert(dep_module_target(dv[gv[a].1[q] as int]) == gv[a].0);
                                                assert(t2 == to);
                                            }
                                        }
                                    }
                                }
                            },
                            None => {},
                        }
                        g = g + 1;
                    }
                    proof {
                        assert forall|kk: int, i: int, fr: usize, to: usize|
                            0 <= kk < k + 1 && #[trigger] dep_link(mm, cm, sv, kk, i, fr, to) implies has_edge_after(
                                self.graph@.edges,
                                e0 as int,
                                fr,
                                to,
                            ) by {
                            if kk == k {
                                assert(fr == from);
                                assert(grouped(gv, i));
                                let a = choose|a: int| 0 <= a < gv.len() && #[trigger] in_group(gv, a, i);
                                assert(dep_link(mm, cm, sv, k as int, i, from, to));
                            }
                        }
                    }
                },
                None => {
                    proof {
                        assert forall|kk: int, i: int, fr: usize, to: usize|
                            0 <= kk < k + 1 && #[trigger] dep_link(mm, cm, sv, kk, i, fr, to) implies has_edge_after(
                                self.graph@.edges,
                                e0 as int,
                                fr,
                                to,
                            ) by {
                            if kk == k {
                                assert(resolve_name(mm, cm, sv[k as int].0) is None);
                            }
                        }
                    }
                },
            }
            k = k + 1;
        }
    }
}

proof fn lemma_explained_push(
    mm: Seq<(String, usize)>,
    cm: Seq<(String, usize)>,
    sv: Seq<(Seq<char>, Seq<DependencyRefView>)>,
    edges: Seq<(usize, usize, EdgeView)>,
    lo: int,
    x: (usize, usize, EdgeView),
    k: int,
    i: int,
)
    requires
        0 <= lo,
        edges_explained(mm, cm, sv, edges, lo),
        edge_for_dep(mm, cm, sv, x, k, i),
    ensures
        edges_explained(mm, cm, sv, edges.push(x), lo),
{
    let ne = edges.push(x);
    assert forall|e: int| lo <= e < ne.len() implies #[trigger] edge_explained(mm, cm, sv, ne, e) by {
        if e < edges.len() {
            assert(ne[e] == edges[e]);
            assert(edge_explained(mm, cm, sv, edges, e));
            let (kk, ii) = choose|kk: int, ii: int| #[trigger] edge_for_dep(mm, cm, sv, edges[e], kk, ii);
            assert(edge_for_dep(mm, cm, sv, ne[e], kk, ii));
        } else {
            assert(ne[e] == x);
            assert(edge_for_dep(mm, cm, sv, ne[e], k, i));
        }
    }
}

proof fn lemma_group_production(
    dv: Seq<DependencyRefView>,
    gv: Seq<(Seq<char>, Seq<usize>)>,
    g: int,
    rv: Seq<DependencyRefView>,
)
    requires
        is_target_grouping(dv, gv),
        dv.len() <= usize::MAX,
        0 <= g < gv.len(),
        rv.len() == gv[g].1.len(),
        forall|q: int| 0 <= q < rv.len() ==> #[trigger] rv[q] == dv[gv[g].1[q] as int],
    ensures
        aggregate_context_spec(rv).kind == DependencyKind::Production <==> target_has_production(dv, gv[g].0),
{
    assert(gv[g].1.len() > 0);
    if aggregate_context_spec(rv).kind == DependencyKind::Production {
        if !(exists|i: int| 0 <= i < rv.len() && #[trigger] rv[i].context.kind == DependencyKind::Production) {
            assert(rv[0] == dv[gv[g].1[0] as int]);
        }
        let q = choose|i: int| 0 <= i < rv.len() && #[trigger] rv[i].context.kind == DependencyKind::Production;
        let j = gv[g].1[q] as int;
        assert(rv[q] == dv[j]);
        assert(dep_module_target(dv[j]) == gv[g].0);
    }
    if target_has_production(dv, gv[g].0) {
        let j = choose|j: int|
            0 <= j < dv.len() && dep_module_target(#[trigger] dv[j]) == gv[g].0 && dv[j].context.kind == DependencyKind::Production;
        assert(grouped(gv, j));
        let a = choose|a: int| 0 <= a < gv.len() && #[trigger] in_group(gv, a, j);
        let q0 = choose|q: int| 0 <= q < gv[a].1.len() && gv[a].1[q] == j as usize;
        assert(dep_module_target(dv[gv[a].1[q0] as int]) == gv[a].0);
        if a < g {
            assert(lex_lt(gv[a].0, gv[g].0));
            lemma_lex_irreflexive(gv[g].0);
        } else if g < a {
            assert(lex_lt(gv[g].0, gv[a].0));
            lemma_lex_irreflexive(gv[g].0);
        }
        assert(rv[q0] == dv[j]);
        assert(rv[q0].context.kind == DependencyKind::Production);
    }
}

proof fn lemma_stash_take_le(s: Seq<(String, Vec<DependencyRef>)>, i: int)
    requires
        0 <= i <= s.len(),
    ensures
        stash_weight(s.take(i)) <= stash_weight(s),
    decreases s.len() - i,
{
    if i < s.len() {
        lemma_stash_take(s, i);
        lemma_stash_take_le(s, i + 1);
    } else {
        assert(s.take(i) =~= s);
    }
}

/// The full path of every module of the built graph with its node.
pub open spec fn built_module_map(crates: Seq<CrateInfo>, modules: Seq<ModuleTree>) -> Seq<(String, usize)> {
    trees_added(crate_index(crates), modules, modules.len() as int, crates.len() as nat).2
}

/// The dependencies that the built graph turns into module-dependency
/// edges, each list with the path of the module (or tree root) it was
/// found in.
pub open spec fn built_stash(crates: Seq<CrateInfo>, modules: Seq<ModuleTree>) -> Seq<(Seq<char>, Seq<DependencyRefView>)> {
    trees_stash(crate_index(crates), modules, modules.len() as int, crates.len() as nat)
}

/// The locations `locs` record the uses of target `t` among `deps`: every
/// dependency on `t` has its file (by path components) and line among them;
/// each of them has the file and line of a dependency on `t`; and they are
/// sorted by place, one per place.
pub open spec fn records_uses(deps: Seq<DependencyRefView>, t: Seq<char>, locs: Seq<SourceLocationView>) -> bool {
    &&& forall|j: int|
        0 <= j < deps.len() && #[trigger] dep_module_target(deps[j]) == t ==> exists|q: int|
            0 <= q < locs.len() && path_components(#[trigger] locs[q].file) == path_components(deps[j].source_file) && locs[q].line
                == deps[j].line
    &&& forall|q: int| 0 <= q < locs.len() ==> #[trigger] at_use_of(deps, t, locs[q])
    &&& forall|a: int, b: int| 0 <= a < b < locs.len() ==> loc_lt(#[trigger] locs[a], #[trigger] locs[b])
}

/// `loc` has the file and line of a dependency of `deps` on `t`.
pub open spec fn at_use_of(deps: Seq<DependencyRefView>, t: Seq<char>, loc: SourceLocationView) -> bool {
    exists|j: int|
        0 <= j < deps.len() && dep_module_target(deps[j]) == t && #[trigger] deps[j].source_file == loc.file && loc.line == deps[j].line
}

/// Each module-dependency edge of a built graph was made for the
/// dependencies of one module on one module target, and its locations
/// record every use of that target in that module and nothing else: no use
/// is dropped, none is made up, one location per place, sorted by place.
pub proof fn law_module_dep_edge_keeps_every_place(
    crates: Seq<CrateInfo>,
    modules: Seq<ModuleTree>,
    edges: Seq<(usize, usize, EdgeView)>,
    e: int,
)
    requires
        edges_explained(
            built_module_map(crates, modules),
            crate_index(crates),
            built_stash(crates, modules),
            edges,
            module_dep_start(crates, modules),
        ),
        module_dep_start(crates, modules) <= e < edges.len(),
    ensures
        edges[e].2 is ModuleDep,
        exists|k: int, i: int|
            #![trigger built_stash(crates, modules)[k].1[i]]
            0 <= k < built_stash(crates, modules).len() && 0 <= i < built_stash(crates, modules)[k].1.len()
                && resolve_name(built_module_map(crates, modules), crate_index(crates), built_stash(crates, modules)[k].0)
                == Some(edges[e].0) && records_uses(
                built_stash(crates, modules)[k].1,
                dep_module_target(built_stash(crates, modules)[k].1[i]),
                edges[e].2->ModuleDep_locations,
            ),
{
    let sv = built_stash(crates, modules);
    assert(edge_explained(built_module_map(crates, modules), crate_index(crates), sv, edges, e));
    let (k, i) = choose|k: int, i: int| #[trigger] edge_for_dep(built_module_map(crates, modules), crate_index(crates), sv, edges[e], k, i);
    assert(resolve_name(built_module_map(crates, modules), crate_index(crates), sv[k].0) == Some(edges[e].0));
    lemma_group_locations_facts(sv[k].1, dep_module_target(sv[k].1[i]), edges[e].2->ModuleDep_locations);
}

proof fn lemma_group_locations_facts(deps: Seq<DependencyRefView>, t: Seq<char>, locs: Seq<SourceLocationView>)
    requires
        places_covered(deps, t, locs),
        locations_of_group(deps, t, locs),
    ensures
        records_uses(deps, t, locs),
{
    reveal(places_covered);
    reveal(locations_of_group);
    let td = target_deps(deps, t);
    assert forall|q: int| 0 <= q < locs.len() implies #[trigger] at_use_of(deps, t, locs[q]) by {
        assert(is_location_in(td, t, locs[q]));
        let i2 = choose|i2: int| 0 <= i2 < td.len() && first_at_place(td, i2) && #[trigger] is_location_of(td, t, i2, locs[q]);
        assert(td.contains(td[i2]));
        deps.lemma_filter_contains_rev(on_target(t), td[i2]);
        deps.filter_lemma(on_target(t));
        assert(deps.contains(td[i2]));
        let j = choose|j: int| 0 <= j < deps.len() && deps[j] == td[i2];
        assert(deps[j] == td[i2]);
        assert(on_target(t)(td[i2]));
        assert(dep_module_target(deps[j]) == t);
        assert(locs[q].file == td[i2].source_file && locs[q].line == td[i2].line);
        assert(0 <= j < deps.len() && dep_module_target(deps[j]) == t && deps[j].source_file == locs[q].file && locs[q].line
            == deps[j].line);
    }
}

/// Where the module-dependency edges of the built graph start.
pub open spec fn module_dep_start(crates: Seq<CrateInfo>, modules: Seq<ModuleTree>) -> int {
    (trees_added(crate_index(crates), modules, modules.len() as int, crates.len() as nat).1.len() + crate_dep_edges(
        crate_index(crates),
        crates,
        crates.len() as int,
    ).len()) as int
}

/// One crate node per crate, in order.
pub open spec fn crate_node_list(crates: Seq<CrateInfo>) -> Seq<NodeView> {
    Seq::new(crates.len(), |i: int| NodeView::Crate { name: crates[i].name@, path: crates[i].path@ })
}

/// The edges are the containment edges `cont`, then the crate-dependency
/// edges `cd`, then module-dependency edges only.
pub open spec fn edges_in_phases(v: ArcGraphView, cont: Seq<(usize, usize, EdgeView)>, cd: Seq<(usize, usize, EdgeView)>) -> bool {
    &&& cont.len() + cd.len() <= v.edges.len()
    &&& v.edges.take(cont.len() as int) == cont
    &&& v.edges.subrange(cont.len() as int, (cont.len() + cd.len()) as int) == cd
    &&& forall|e: int| cont.len() + cd.len() <= e < v.edges.len() ==> (#[trigger] v.edges[e]).2 is ModuleDep
}

impl ArcGraph {
    /// The graph of the given crates and module trees: one node per crate,
    /// in order, then the modules of each tree whose root names a crate (or
    /// module) under it, depth first, with their containment edges; a
    /// production edge per workspace dependency and a unit-test edge per
    /// workspace dev-dependency between crates; and a module-dependency
    /// edge wherever a module's (or root's) dependency names another node,
    /// one per (module, target) pair, targets in name order, a production
    /// edge when some dependency on that target is one. No node gets two
    /// containment parents, and every parent comes before its children.
    pub fn build(crates: &Vec<CrateInfo>, modules: &Vec<ModuleTree>) -> (r: ArcGraph)
        requires
            build_weight(crates@, modules@) < u32::MAX,
        ensures
            built_shape(r@, crates.len() as int),
            r@.nodes == crate_node_list(crates@) + trees_added(
                crate_index(crates@),
                modules@,
                modules.len() as int,
                crates.len() as nat,
            ).0,
            edges_in_phases(
                r@,
                trees_added(crate_index(crates@), modules@, modules.len() as int, crates.len() as nat).1,
                crate_dep_edges(crate_index(crates@), crates@, crates.len() as int),
            ),
            edges_explained(
                built_module_map(crates@, modules@),
                crate_index(crates@),
                built_stash(crates@, modules@),
                r@.edges,
                module_dep_start(crates@, modules@),
            ),
            forall|k: int, i: int, from: usize, to: usize|
                #[trigger] dep_link(built_module_map(crates@, modules@), crate_index(crates@), built_stash(crates@, modules@), k, i, from, to)
                    ==> has_edge_after(r@.edges, module_dep_start(crates@, modules@), from, to),
            containment_forest(r@),
            crate::layout::parents_end(r@),
    {
        let mut b = GraphBuilder::new();
        b.add_crates(crates);
        assert(b.size() == crates.len());
        let ghost nodes1 = b.graph@.nodes;
        let ghost edges0 = b.graph@.edges;
        b.add_modules(modules);
        let ghost edges1 = b.graph@.edges;
        assert(stash_view(b.module_deps@) =~= built_stash(crates@, modules@));
        b.add_crate_deps(crates);
        let ghost edges2 = b.graph@.edges;
        assert(edges2.len() == module_dep_start(crates@, modules@));
        b.add_module_deps();
        proof {
            let cd = crate_dep_edges(crate_index(crates@), crates@, crates.len() as int);
            let ta = trees_added(crate_index(crates@), modules@, modules.len() as int, crates.len() as nat);
            let k = edges1.len() as int;
            let v = b.graph@;
            assert(edges0.len() == 0);
            assert(edges1 =~= ta.1);
            assert(nodes1 =~= crate_node_list(crates@));
            assert(edges2 == edges1 + cd);
            assert(v.edges.take(edges2.len() as int) == edges2);
            assert(v.edges.take(k) =~= ta.1) by {
                assert forall|j: int| 0 <= j < k implies v.edges.take(k)[j] == ta.1[j] by {
                    assert(v.edges[j] == edges2[j]);
                }
            }
            assert(v.edges.subrange(k, k + cd.len()) =~= cd) by {
                assert forall|j: int| 0 <= j < cd.len() implies v.edges.subrange(k, k + cd.len())[j] == cd[j] by {
                    assert(v.edges[k + j] == edges2[k + j]);
                }
            }
            use_type_invariant(&b.graph);
            lemma_trees_contains_range(crate_index(crates@), modules@, modules.len() as int, crates.len() as nat);
            lemma_crate_dep_edges_kind(crate_index(crates@), crates@, crates.len() as int);
            assert forall|e: int| 0 <= e < v.edges.len() && (#[trigger] v.edges[e]).2 is Contains implies e < k by {
                if k <= e < k + cd.len() {
                    assert(v.edges.subrange(k, k + cd.len())[e - k] == cd[e - k]);
                }
            }
            assert forall|e: int| 0 <= e < v.edges.len() && (#[trigger] v.edges[e]).2 is Contains implies v.edges[e].0 < v.edges[e].1 by {
                assert(e < k);
                assert(v.edges.take(k)[e] == v.edges[e]);
            }
            crate::layout::law_parents_first_chains_end(v);
            assert(containment_forest(v)) by {
                assert forall|e1: int, e2: int|
                    0 <= e1 < v.edges.len() && 0 <= e2 < v.edges.len() && (#[trigger] v.edges[e1]).2 is Contains
                        && (#[trigger] v.edges[e2]).2 is Contains && v.edges[e1].1 == v.edges[e2].1 implies v.edges[e1].0 == v.edges[e2].0 by {
                    assert(e1 < k && e2 < k);
                    assert(v.edges.take(k)[e1] == v.edges[e1]);
                    assert(v.edges.take(k)[e2] == v.edges[e2]);
                    if e1 < e2 {
                        assert(ta.1[e1].1 != ta.1[e2].1);
                    } else if e2 < e1 {
                        assert(ta.1[e2].1 != ta.1[e1].1);
                    }
                }
            }
        }
        proof {
            assert forall|i: int| 0 <= i < crates.len() implies #[trigger] b.graph@.nodes[i] == (NodeView::Crate {
                name: crates@[i].name@,
                path: crates@[i].path@,
            }) by {
                assert(b.graph@.nodes.take(nodes1.len() as int)[i] == nodes1[i]);
            }
        }
        b.graph
    }
}

/// `w` capped at `u32::MAX`.
pub open spec fn capped(w: nat) -> nat {
    if w < u32::MAX {
        w
    } else {
        u32::MAX as nat
    }
}

fn add_capped(a: u64, b: u64) -> (r: u64)
    requires
        a <= u32::MAX,
        b <= u32::MAX,
    ensures
        r == capped((a + b) as nat),
{
    let s = a + b;
    if s < 0xffff_ffffu64 {
        s
    } else {
        0xffff_ffffu64
    }
}

proof fn lemma_capped_add(a: nat, b: nat)
    ensures
        capped(capped(a) + capped(b)) == capped(a + b),
{
}

fn module_weight_capped(m: &ModuleInfo) -> (r: u64)
    ensures
        r == capped(module_weight(*m)),
    decreases m, 1int,
{
    let f = forest_weight_capped(&m.children);
    let d = if m.dependencies.len() < 0xffff_ffffusize { m.dependencies.len() as u64 } else { 0xffff_ffffu64 };
    let r = add_capped(add_capped(2, d), f);
    proof {
        lemma_capped_add(2 + m.dependencies@.len(), forest_weight(m.children@));
        lemma_capped_add(2, m.dependencies@.len() as nat);
    }
    r
}

fn forest_weight_capped(ms: &Vec<ModuleInfo>) -> (r: u64)
    ensures
        r == capped(forest_weight(ms@)),
    decreases ms, 0int,
{
    let mut acc: u64 = 0;
    let mut i: usize = 0;
    while i < ms.len()
        invariant
            0 <= i <= ms.len(),
            acc == capped(forest_weight(ms@.take(i as int))),
        decreases ms.len() - i,
    {
        proof {
            assert(ms@.take(i + 1).drop_last() =~= ms@.take(i as int));
            assert(ms@.take(i + 1).last() == ms@[i as int]);
            broadcast use vstd::std_specs::vec::axiom_vec_index_decreases;
            assert(decreases_to!(*ms => ms[i as int]));
        }
        let w = module_weight_capped(&ms[i]);
        proof {
            lemma_capped_add(forest_weight(ms@.take(i as int)), module_weight(ms@[i as int]));
        }
        acc = add_capped(acc, w);
        i = i + 1;
    }
    assert(ms@.take(ms.len() as int) =~= ms@);
    acc
}

/// The weight of the inputs of `ArcGraph::build`, capped at `u32::MAX`.
fn build_weight_capped(crates: &Vec<CrateInfo>, modules: &Vec<ModuleTree>) -> (r: u64)
    ensures
        r == capped(build_weight(crates@, modules@)),
{
    let mut cw: u64 = if crates.len() < 0xffff_ffffusize { crates.len() as u64 } else { 0xffff_ffffu64 };
    let mut i: usize = 0;
    assert(crates@.take(0) =~= Seq::<CrateInfo>::empty());
    while i < crates.len()
        invariant
            0 <= i <= crates.len(),
            cw == capped(crates@.len() + crate_deps_weight(crates@.take(i as int))),
        decreases crates.len() - i,
    {
        assert(crates@.take(i + 1).drop_last() =~= crates@.take(i as int));
        let c = &crates[i];
        let a = if c.dependencies.len() < 0xffff_ffffusize { c.dependencies.len() as u64 } else { 0xffff_ffffu64 };
        let b = if c.dev_dependencies.len() < 0xffff_ffffusize { c.dev_dependencies.len() as u64 } else { 0xffff_ffffu64 };
        proof {
            lemma_capped_add(crates@.len() + crate_deps_weight(crates@.take(i as int)), c.dependencies@.len() + c.dev_dependencies@.len());
            lemma_capped_add(c.dependencies@.len() as nat, c.dev_dependencies@.len() as nat);
        }
        cw = add_capped(cw, add_capped(a, b));
        i = i + 1;
    }
    assert(crates@.take(crates.len() as int) =~= crates@);
    let mut tw: u64 = 0;
    let mut k: usize = 0;
    assert(modules@.take(0) =~= Seq::<ModuleTree>::empty());
    while k < modules.len()
        invariant
            0 <= k <= modules.len(),
            tw == capped(trees_weight(modules@.take(k as int))),
        decreases modules.len() - k,
    {
        assert(modules@.take(k + 1).drop_last() =~= modules@.take(k as int));
        let t = &modules[k];
        let d = if t.root.dependencies.len() < 0xffff_ffffusize { t.root.dependencies.len() as u64 } else { 0xffff_ffffu64 };
        let f = forest_weight_capped(&t.root.children);
        proof {
            lemma_capped_add(trees_weight(modules@.take(k as int)), t.root.dependencies@.len() + forest_weight(t.root.children@));
            lemma_capped_add(t.root.dependencies@.len() as nat, forest_weight(t.root.children@));
        }
        tw = add_capped(tw, add_capped(d, f));
        k = k + 1;
    }
    assert(modules@.take(modules.len() as int) =~= modules@);
    proof {
        lemma_capped_add(crates@.len() + crate_deps_weight(crates@), trees_weight(modules@));
    }
    add_capped(cw, tw)
}

impl ArcGraph {
    /// `build`, when its inputs are small enough (their weight below
    /// `u32::MAX`); `None` otherwise.
    pub fn try_build(crates: &Vec<CrateInfo>, modules: &Vec<ModuleTree>) -> (r: Option<ArcGraph>)
        ensures
            r is Some <==> build_weight(crates@, modules@) < u32::MAX,
            r matches Some(g) ==> built_shape(g@, crates.len() as int) && g@.nodes == crate_node_list(crates@) + trees_added(
                crate_index(crates@),
                modules@,
                modules.len() as int,
                crates.len() as nat,
            ).0 && edges_in_phases(
                g@,
                trees_added(crate_index(crates@), modules@, modules.len() as int, crates.len() as nat).1,
                crate_dep_edges(crate_index(crates@), crates@, crates.len() as int),
            ) && edges_explained(
                built_module_map(crates@, modules@),
                crate_index(crates@),
                built_stash(crates@, modules@),
                g@.edges,
                module_dep_start(crates@, modules@),
            ),
            r matches Some(g) ==> forall|k: int, i: int, from: usize, to: usize|
                #[trigger] dep_link(built_module_map(crates@, modules@), crate_index(crates@), built_stash(crates@, modules@), k, i, from, to)
                    ==> has_edge_after(g@.edges, module_dep_start(crates@, modules@), from, to),
            r matches Some(g) ==> containment_forest(g@) && crate::layout::parents_end(g@),
    {
        if build_weight_capped(crates, modules) < 0xffff_ffffu64 {
            Some(ArcGraph::build(crates, modules))
        } else {
            None
        }
    }
}

} // verus!
