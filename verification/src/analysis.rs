use std::collections::HashMap;

use petgraph::graph::{DiGraph, Graph, NodeIndex};
use petgraph::unionfind::UnionFind;
use petgraph::visit::EdgeRef;
use petgraph::Directed;
use vstd::prelude::*;

use crate::graph::{node_map_key, node_map_len, node_map_value, LinkGraph};
use crate::object::{lemma_node_ref_eq, FileObject, KeyView, Node, NodeRef, Object, ObjectKey};

verus! {

broadcast use vstd::std_specs::hash::group_hash_axioms;

#[verifier::external_type_specification]
#[verifier::external_body]
#[verifier::reject_recursive_types(N)]
#[verifier::reject_recursive_types(E)]
#[verifier::reject_recursive_types(Ty)]
#[verifier::reject_recursive_types(Ix)]
pub struct ExGraph<N, E, Ty, Ix>(Graph<N, E, Ty, Ix>);

#[verifier::external_type_specification]
#[verifier::external_body]
pub struct ExDirected(Directed);

#[verifier::external_type_specification]
#[verifier::external_body]
#[verifier::reject_recursive_types(K)]
pub struct ExUnionFind<K>(UnionFind<K>);

// ---------------------------------------------------------------------------------------
// Paths in a directed graph given by its edge list.
/// Whether a walk of exactly `n` edges leads from `s` to `t`.
pub open spec fn walk_of_len(edges: Seq<(int, int)>, s: int, t: int, n: nat) -> bool
    decreases n,
{
    if n == 0 {
        s == t
    } else {
        exists|i: int|
            0 <= i < edges.len() && edges[i].1 == t && walk_of_len(edges, s, edges[i].0, (n - 1) as nat)
    }
}

/// Whether `t` can be reached from `s`.
pub open spec fn reachable(edges: Seq<(int, int)>, s: int, t: int) -> bool {
    exists|n: nat| walk_of_len(edges, s, t, n)
}

/// Whether `d` is the length of a shortest walk from `s` to `t`.
pub open spec fn is_distance(edges: Seq<(int, int)>, s: int, t: int, d: nat) -> bool {
    walk_of_len(edges, s, t, d) && forall|m: nat| m < d ==> !walk_of_len(edges, s, t, m)
}

/// The length of a shortest walk from `s` to `t` (meaningful when `t` is reachable).
pub open spec fn distance(edges: Seq<(int, int)>, s: int, t: int) -> nat {
    choose|d: nat| is_distance(edges, s, t, d)
}

/// The nodes among `0..n` that can be reached from `s`.
pub open spec fn reach_set(edges: Seq<(int, int)>, n: nat, s: int) -> Set<usize> {
    Set::new(|t: usize| t < n && reachable(edges, s, t as int))
}

/// Shortest distances are unique, and a reachable node has one.
pub proof fn lemma_distance(edges: Seq<(int, int)>, s: int, t: int, d: nat)
    requires
        is_distance(edges, s, t, d),
    ensures
        distance(edges, s, t) == d,
{
    let e = distance(edges, s, t);
    assert(is_distance(edges, s, t, e));
    if e < d {
        assert(!walk_of_len(edges, s, t, e));
    }
    if d < e {
        assert(!walk_of_len(edges, s, t, d));
    }
}

// ---------------------------------------------------------------------------------------
// The link graph as petgraph holds it: nodes without weights, edges without weights.
/// The number of nodes of a graph.
pub uninterp spec fn graph_order(g: DiGraph<(), ()>) -> nat;

/// The edges of a graph, source and target positions, in the order of their indices.
pub uninterp spec fn graph_edges(g: DiGraph<(), ()>) -> Seq<(int, int)>;

/// `Graph::with_capacity`: a graph with no nodes and no edges.
#[verifier::external_body]
fn graph_with_capacity(nodes: usize, edges: usize) -> (g: DiGraph<(), ()>)
    ensures
        graph_order(g) == 0,
        graph_edges(g) == Seq::<(int, int)>::empty(),
{
    Graph::with_capacity(nodes, edges)
}

/// `Graph::node_count`.
#[verifier::external_body]
fn graph_node_count(g: &DiGraph<(), ()>) -> (n: usize)
    ensures
        n == graph_order(*g),
{
    g.node_count()
}

/// `Graph::add_node`: the new node takes the next position (it panics once the index type
/// is used up).
#[verifier::external_body]
fn graph_add_node(g: &mut DiGraph<(), ()>) -> (i: usize)
    requires
        graph_order(*old(g)) < u32::MAX,
    ensures
        i == graph_order(*old(g)),
        graph_order(*final(g)) == graph_order(*old(g)) + 1,
        graph_edges(*final(g)) == graph_edges(*old(g)),
{
    g.add_node(()).index()
}

/// `Graph::update_edge`: adds the edge from `a` to `b` unless it is there already (it panics
/// on a missing node, or once the edge index type is used up).
#[verifier::external_body]
fn graph_update_edge(g: &mut DiGraph<(), ()>, a: usize, b: usize)
    requires
        a < graph_order(*old(g)),
        b < graph_order(*old(g)),
        graph_edges(*old(g)).len() < u32::MAX,
    ensures
        graph_order(*final(g)) == graph_order(*old(g)),
        graph_edges(*old(g)).contains((a as int, b as int)) ==> graph_edges(*final(g))
            == graph_edges(*old(g)),
        !graph_edges(*old(g)).contains((a as int, b as int)) ==> graph_edges(*final(g))
            == graph_edges(*old(g)).push((a as int, b as int)),
{
    g.update_edge(NodeIndex::new(a), NodeIndex::new(b), ());
}

/// `Graph::edge_references`: the edges, source and target positions, in index order.
#[verifier::external_body]
fn graph_edge_list(g: &DiGraph<(), ()>) -> (v: Vec<(usize, usize)>)
    ensures
        v@.len() == graph_edges(*g).len(),
        forall|i: int|
            0 <= i < v@.len() ==> (#[trigger] v@[i]).0 as int == graph_edges(*g)[i].0 && v@[i].1
                as int == graph_edges(*g)[i].1,
{
    g.edge_references().map(|e| (e.source().index(), e.target().index())).collect()
}

/// `petgraph::algo::dijkstra` from `start` with every edge costing 1: the reachable nodes,
/// each with the length of a shortest walk to it.
#[verifier::external_body]
fn graph_distances(g: &DiGraph<(), ()>, start: usize) -> (m: HashMap<usize, usize>)
    requires
        start < graph_order(*g),
    ensures
        forall|t: usize|
            m@.contains_key(t) == (t < graph_order(*g) && reachable(
                graph_edges(*g),
                start as int,
                t as int,
            )),
        forall|t: usize|
            m@.contains_key(t) ==> is_distance(
                graph_edges(*g),
                start as int,
                t as int,
                #[trigger] m@[t] as nat,
            ),
{
    petgraph::algo::dijkstra(g, NodeIndex::new(start), None, |_| 1usize)
        .into_iter()
        .map(|(k, v)| (k.index(), v))
        .collect()
}

/// Whether `a` and `b` reach each other.
pub open spec fn mutually_reachable(edges: Seq<(int, int)>, a: int, b: int) -> bool {
    reachable(edges, a, b) && reachable(edges, b, a)
}

/// Whether `t` occurs in one of the lists of `c`.
pub open spec fn occurs_in(c: Seq<Seq<usize>>, t: usize) -> bool {
    exists|i: int, j: int| 0 <= i < c.len() && 0 <= j < c[i].len() && #[trigger] c[i][j] == t
}

/// Whether `c` lists the strongly connected components of a graph with `n` nodes: each node
/// occurs in exactly one component, once, and two nodes share a component exactly when
/// they reach each other.
pub open spec fn is_scc_partition(c: Seq<Seq<usize>>, edges: Seq<(int, int)>, n: nat) -> bool {
    &&& forall|i: int, j: int| 0 <= i < c.len() && 0 <= j < c[i].len() ==> #[trigger] c[i][j] < n
    &&& forall|t: usize| t < n ==> #[trigger] occurs_in(c, t)
    &&& forall|i1: int, j1: int, i2: int, j2: int|
        0 <= i1 < c.len() && 0 <= j1 < c[i1].len() && 0 <= i2 < c.len() && 0 <= j2 < c[i2].len()
            && #[trigger] c[i1][j1] == #[trigger] c[i2][j2] ==> i1 == i2 && j1 == j2
    &&& forall|i1: int, j1: int, i2: int, j2: int|
        0 <= i1 < c.len() && 0 <= j1 < c[i1].len() && 0 <= i2 < c.len() && 0 <= j2 < c[i2].len()
            ==> ((i1 == i2) == mutually_reachable(edges, #[trigger] c[i1][j1] as int, #[trigger] c[i2][j2] as int))
}

/// Whether the components of `c` come in reverse topological order: an edge between two
/// components leads to one listed earlier.
pub open spec fn scc_order(c: Seq<Seq<usize>>, edges: Seq<(int, int)>) -> bool {
    forall|k: int, i1: int, j1: int, i2: int, j2: int|
        0 <= k < edges.len() && 0 <= i1 < c.len() && 0 <= j1 < c[i1].len() && 0 <= i2 < c.len() && 0
            <= j2 < c[i2].len() && #[trigger] c[i1][j1] == (#[trigger] edges[k]).0 && #[trigger] c[i2][j2]
            == edges[k].1 && i1 != i2 ==> i2 < i1
}

/// `petgraph::algo::kosaraju_scc`: the strongly connected components, each as the positions
/// of its nodes, in their post order (reverse topological order, as its documentation says).
#[verifier::external_body]
fn graph_scc(g: &DiGraph<(), ()>) -> (c: Vec<Vec<usize>>)
    ensures
        is_scc_partition(c@.map_values(|v: Vec<usize>| v@), graph_edges(*g), graph_order(*g)),
        scc_order(c@.map_values(|v: Vec<usize>| v@), graph_edges(*g)),
{
    petgraph::algo::kosaraju_scc(g)
        .into_iter()
        .map(|com| com.into_iter().map(|n| n.index()).collect())
        .collect()
}

// ---------------------------------------------------------------------------------------
// Subgraphs: each node carries the position of the node it stands for in the whole graph.
/// The node weights of a subgraph, in node order.
pub uninterp spec fn sub_weights(g: DiGraph<usize, ()>) -> Seq<usize>;

/// The edges of a subgraph, source and target positions, in index order.
pub uninterp spec fn sub_edges(g: DiGraph<usize, ()>) -> Seq<(int, int)>;

/// `Graph::new`: a subgraph with no nodes and no edges.
#[verifier::external_body]
fn sub_new() -> (g: DiGraph<usize, ()>)
    ensures
        sub_weights(g) == Seq::<usize>::empty(),
        sub_edges(g) == Seq::<(int, int)>::empty(),
{
    Graph::new()
}

/// `Graph::add_node`: the node takes the next position (it panics once the index type is
/// used up).
#[verifier::external_body]
fn sub_add_node(g: &mut DiGraph<usize, ()>, w: usize) -> (i: usize)
    requires
        sub_weights(*old(g)).len() < u32::MAX,
    ensures
        i == sub_weights(*old(g)).len(),
        sub_weights(*final(g)) == sub_weights(*old(g)).push(w),
        sub_edges(*final(g)) == sub_edges(*old(g)),
{
    g.add_node(w).index()
}

/// `Graph::add_edge`: appends the edge from `a` to `b` (it panics on a missing node, or once
/// the edge index type is used up).
#[verifier::external_body]
fn sub_add_edge(g: &mut DiGraph<usize, ()>, a: usize, b: usize)
    requires
        a < sub_weights(*old(g)).len(),
        b < sub_weights(*old(g)).len(),
        sub_edges(*old(g)).len() < u32::MAX,
    ensures
        sub_weights(*final(g)) == sub_weights(*old(g)),
        sub_edges(*final(g)) == sub_edges(*old(g)).push((a as int, b as int)),
{
    g.add_edge(NodeIndex::new(a), NodeIndex::new(b), ());
}

/// `Index<NodeIndex>` of `Graph`: the weight of node `i` (it panics past the last node).
#[verifier::external_body]
fn sub_weight(g: &DiGraph<usize, ()>, i: usize) -> (w: usize)
    requires
        i < sub_weights(*g).len(),
    ensures
        w == sub_weights(*g)[i as int],
{
    g[NodeIndex::new(i)]
}

/// A list of distinct positions below `n` holds at most `n` of them.
pub proof fn lemma_distinct_below(s: Seq<usize>, n: nat)
    requires
        forall|i: int| 0 <= i < s.len() ==> #[trigger] s[i] < n,
        forall|i: int, j: int| 0 <= i < s.len() && 0 <= j < s.len() && #[trigger] s[i] == #[trigger] s[j] ==> i == j,
    ensures
        s.len() <= n,
{
    let t = s.map_values(|x: usize| x as int);
    assert(t.no_duplicates()) by {
        assert forall|i: int, j: int| 0 <= i < t.len() && 0 <= j < t.len() && i != j implies t[i] != t[j] by {
            if t[i] == t[j] {
                assert(s[i] == s[j]);
            }
        }
    }
    t.unique_seq_to_set();
    vstd::set_lib::lemma_int_range(0, n as int);
    assert(t.to_set().subset_of(vstd::set_lib::set_int_range(0, n as int))) by {
        assert forall|x: int| t.to_set().contains(x) implies vstd::set_lib::set_int_range(0, n as int).contains(x) by {
            let i = choose|i: int| 0 <= i < t.len() && t[i] == x;
            assert(s[i] < n);
        }
    }
    vstd::set_lib::lemma_len_subset(t.to_set(), vstd::set_lib::set_int_range(0, n as int));
}

/// The edges whose ends lie in component `c`, as positions inside it, in their order.
pub open spec fn local_edges(edges: Seq<(int, int)>, binding: Seq<(usize, usize)>, c: int) -> Seq<
    (int, int),
>
    decreases edges.len(),
{
    if edges.len() == 0 {
        Seq::empty()
    } else {
        let prev = local_edges(edges.drop_last(), binding, c);
        let e = edges.last();
        if binding[e.0].0 == c && binding[e.1].0 == c {
            prev.push((binding[e.0].1 as int, binding[e.1].1 as int))
        } else {
            prev
        }
    }
}

pub proof fn lemma_local_edges_len(edges: Seq<(int, int)>, binding: Seq<(usize, usize)>, c: int)
    ensures
        local_edges(edges, binding, c).len() <= edges.len(),
    decreases edges.len(),
{
    if edges.len() > 0 {
        lemma_local_edges_len(edges.drop_last(), binding, c);
    }
}

/// Whether a graph fits the limits the component tables need: fewer than `u32::MAX` nodes
/// and edges, and every edge between nodes of the graph.
pub open spec fn graph_fits(g: DiGraph<(), ()>) -> bool {
    &&& graph_order(g) < u32::MAX
    &&& graph_edges(g).len() < u32::MAX
    &&& forall|i: int|
        0 <= i < graph_edges(g).len() ==> 0 <= (#[trigger] graph_edges(g)[i]).0 < graph_order(g) && 0
            <= graph_edges(g)[i].1 < graph_order(g)
}

/// Tests `graph_fits`.
pub fn check_graph_fits(g: &DiGraph<(), ()>) -> (b: bool)
    ensures
        b == graph_fits(*g),
{
    let n = graph_node_count(g);
    let list = graph_edge_list(g);
    if n >= 4294967295 || list.len() >= 4294967295 {
        return false;
    }
    let ghost edges = graph_edges(*g);
    for k in 0..list.len()
        invariant
            n == graph_order(*g),
            edges == graph_edges(*g),
            list@.len() == edges.len(),
            forall|i: int|
                0 <= i < list@.len() ==> (#[trigger] list@[i]).0 as int == edges[i].0 && list@[i].1 as int
                    == edges[i].1,
            forall|i: int| 0 <= i < k ==> 0 <= (#[trigger] edges[i]).0 < n && 0 <= edges[i].1 < n,
    {
        let (x, y) = list[k];
        if x >= n || y >= n {
            assert(!(0 <= edges[k as int].0 < n && 0 <= edges[k as int].1 < n));
            return false;
        }
    }
    true
}

/// The strongly connected components of a graph, each as a subgraph of its own.
pub struct Scc {
    components: Vec<DiGraph<usize, ()>>,
    binding: Vec<(usize, usize)>,
}

impl Scc {
    /// The nodes of each component, as positions in the whole graph.
    pub closed spec fn members(self) -> Seq<Seq<usize>> {
        self.components@.map_values(|g: DiGraph<usize, ()>| sub_weights(g))
    }

    /// The edges of component `c`, as positions inside it.
    pub closed spec fn component_edges(self, c: int) -> Seq<(int, int)> {
        sub_edges(self.components@[c])
    }

    /// For each node: its component and its position in it.
    pub closed spec fn binding_view(self) -> Seq<(usize, usize)> {
        self.binding@
    }

    /// Every node of a graph with `n` nodes is bound to the place it holds in its component.
    pub open spec fn binds(self, n: nat) -> bool {
        &&& self.binding_view().len() == n
        &&& forall|v: int|
            0 <= v < n ==> {
                let b = #[trigger] self.binding_view()[v];
                &&& b.0 < self.members().len()
                &&& b.1 < self.members()[b.0 as int].len()
                &&& self.members()[b.0 as int][b.1 as int] == v
            }
    }

    /// Whether an edge between two components always leads to an earlier one (reverse
    /// topological order); kept opaque, as callers seldom need it: `reveal` it to use it.
    #[verifier::opaque]
    pub open spec fn ordered(self, edges: Seq<(int, int)>) -> bool {
        forall|k: int|
            0 <= k < edges.len() && self.binding_view()[(#[trigger] edges[k]).0].0
                != self.binding_view()[edges[k].1].0 ==> self.binding_view()[edges[k].1].0
                < self.binding_view()[edges[k].0].0
    }

    /// The components of the graph with edges `edges` and `n` nodes, with their edges, in
    /// reverse topological order: an edge between components leads to an earlier one.
    pub open spec fn describes(self, edges: Seq<(int, int)>, n: nat) -> bool {
        &&& is_scc_partition(self.members(), edges, n)
        &&& self.binds(n)
        &&& self.ordered(edges)
        &&& forall|c: int|
            0 <= c < self.members().len() ==> #[trigger] self.component_edges(c) == local_edges(
                edges,
                self.binding_view(),
                c,
            )
    }

    /// The strongly connected components of `g`, as `new` gives them, when `g` fits the
    /// limits of `graph_fits`; `None` otherwise.
    pub fn checked_new(g: &DiGraph<(), ()>) -> (r: Option<Scc>)
        ensures
            r is Some <==> graph_fits(*g),
            r matches Some(sc) ==> sc.describes(graph_edges(*g), graph_order(*g)),
    {
        if check_graph_fits(g) {
            Some(Scc::new(g))
        } else {
            None
        }
    }

    /// The strongly connected components of `g`, each a subgraph whose nodes carry the
    /// positions of the nodes they stand for, with the edges of `g` between them.
    pub fn new(g: &DiGraph<(), ()>) -> (sc: Scc)
        requires
            graph_order(*g) < u32::MAX,
            graph_edges(*g).len() < u32::MAX,
            forall|i: int|
                0 <= i < graph_edges(*g).len() ==> 0 <= (#[trigger] graph_edges(*g)[i]).0 < graph_order(*g)
                    && 0 <= graph_edges(*g)[i].1 < graph_order(*g),
        ensures
            sc.describes(graph_edges(*g), graph_order(*g)),
    {
        let n = graph_node_count(g);
        let ghost edges = graph_edges(*g);
        let scc = graph_scc(g);
        let ghost c = scc@.map_values(|v: Vec<usize>| v@);
        let mut binding: Vec<(usize, usize)> = Vec::new();
        for v in 0..n
            invariant
                binding@.len() == v,
        {
            binding.push((0, 0));
        }
        let mut i: usize = 0;
        while i < scc.len()
            invariant
                c == scc@.map_values(|v: Vec<usize>| v@),
                is_scc_partition(c, edges, n as nat),
                binding@.len() == n,
                0 <= i <= scc@.len(),
                forall|i1: int, j1: int|
                    0 <= i1 < i && 0 <= j1 < c[i1].len() ==> binding@[#[trigger] c[i1][j1] as int]
                        == (i1 as usize, j1 as usize),
            decreases scc@.len() - i,
        {
            let mut j: usize = 0;
            while j < scc[i].len()
                invariant
                    c == scc@.map_values(|v: Vec<usize>| v@),
                    is_scc_partition(c, edges, n as nat),
                    binding@.len() == n,
                    0 <= i < scc@.len(),
                    0 <= j <= c[i as int].len(),
                    forall|i1: int, j1: int|
                        (0 <= i1 < i && 0 <= j1 < c[i1].len()) || (i1 == i && 0 <= j1 < j)
                            ==> binding@[#[trigger] c[i1][j1] as int] == (i1 as usize, j1 as usize),
                decreases c[i as int].len() - j,
            {
                let v = scc[i][j];
                assert(v == c[i as int][j as int]);
                binding.set(v, (i, j));
                j = j + 1;
            }
            i = i + 1;
        }
        proof {
            assert forall|v: int| 0 <= v < n implies {
                let b = #[trigger] binding@[v];
                &&& b.0 < c.len()
                &&& b.1 < c[b.0 as int].len()
                &&& c[b.0 as int][b.1 as int] == v
            } by {
                assert(occurs_in(c, v as usize));
                let (i1, j1) = choose|i1: int, j1: int|
                    0 <= i1 < c.len() && 0 <= j1 < c[i1].len() && #[trigger] c[i1][j1] == v as usize;
                assert(binding@[c[i1][j1] as int] == (i1 as usize, j1 as usize));
            }
            assert forall|k: int|
                0 <= k < edges.len() && binding@[(#[trigger] edges[k]).0].0 != binding@[edges[k].1].0
                    implies binding@[edges[k].1].0 < binding@[edges[k].0].0 by {
                let u = edges[k].0;
                let v = edges[k].1;
                let bu = binding@[u];
                let bv = binding@[v];
                assert(c[bu.0 as int][bu.1 as int] == u);
                assert(c[bv.0 as int][bv.1 as int] == v);
            }
        }
        let mut components: Vec<DiGraph<usize, ()>> = Vec::new();
        let mut i: usize = 0;
        while i < scc.len()
            invariant
                c == scc@.map_values(|v: Vec<usize>| v@),
                is_scc_partition(c, edges, n as nat),
                n < u32::MAX,
                0 <= i <= scc@.len(),
                components@.len() == i,
                forall|k: int| 0 <= k < i ==> sub_weights(#[trigger] components@[k]) == c[k],
                forall|k: int| 0 <= k < i ==> sub_edges(#[trigger] components@[k]) == Seq::<(int, int)>::empty(),
            decreases scc@.len() - i,
        {
            proof {
                assert forall|a: int, b: int| 0 <= a < c[i as int].len() && 0 <= b < c[i as int].len()
                    && #[trigger] c[i as int][a] == #[trigger] c[i as int][b] implies a == b by {}
                lemma_distinct_below(c[i as int], n as nat);
            }
            let mut subg = sub_new();
            let mut j: usize = 0;
            while j < scc[i].len()
                invariant
                    c == scc@.map_values(|v: Vec<usize>| v@),
                    0 <= i < scc@.len(),
                    c[i as int].len() <= n < u32::MAX,
                    0 <= j <= c[i as int].len(),
                    sub_weights(subg) == c[i as int].take(j as int),
                    sub_edges(subg) == Seq::<(int, int)>::empty(),
                decreases c[i as int].len() - j,
            {
                sub_add_node(&mut subg, scc[i][j]);
                assert(c[i as int].take(j + 1) =~= c[i as int].take(j as int).push(c[i as int][j as int]));
                j = j + 1;
            }
            assert(c[i as int].take(j as int) =~= c[i as int]);
            components.push(subg);
            i = i + 1;
        }
        let list = graph_edge_list(g);
        let mut k: usize = 0;
        while k < list.len()
            invariant
                c == scc@.map_values(|v: Vec<usize>| v@),
                is_scc_partition(c, edges, n as nat),
                edges == graph_edges(*g),
                edges.len() < u32::MAX,
                list@.len() == edges.len(),
                forall|i: int|
                    0 <= i < list@.len() ==> (#[trigger] list@[i]).0 as int == edges[i].0 && list@[i].1
                        as int == edges[i].1,
                forall|i: int|
                    0 <= i < edges.len() ==> 0 <= (#[trigger] edges[i]).0 < n && 0 <= edges[i].1 < n,
                binding@.len() == n,
                forall|v: int|
                    0 <= v < n ==> {
                        let b = #[trigger] binding@[v];
                        &&& b.0 < c.len()
                        &&& b.1 < c[b.0 as int].len()
                        &&& c[b.0 as int][b.1 as int] == v
                    },
                0 <= k <= list@.len(),
                components@.len() == c.len(),
                forall|q: int| 0 <= q < c.len() ==> sub_weights(#[trigger] components@[q]) == c[q],
                forall|q: int|
                    0 <= q < c.len() ==> sub_edges(#[trigger] components@[q]) == local_edges(
                        edges.take(k as int),
                        binding@,
                        q,
                    ),
            decreases list@.len() - k,
        {
            let (s, t) = list[k];
            let (ac, a) = binding[s];
            let (bc, b) = binding[t];
            proof {
                assert(edges.take(k + 1).drop_last() =~= edges.take(k as int));
                assert(edges.take(k + 1).last() == edges[k as int]);
                lemma_local_edges_len(edges.take(k as int), binding@, ac as int);
            }
            if ac == bc {
                sub_add_edge(&mut components[ac], a, b);
            }
            proof {
                assert forall|q: int| 0 <= q < c.len() implies sub_edges(#[trigger] components@[q])
                    == local_edges(edges.take(k + 1), binding@, q) by {}
            }
            k = k + 1;
        }
        assert(edges.take(k as int) =~= edges);
        let sc = Scc { components, binding };
        assert(sc.members() =~= c);
        proof {
            reveal(Scc::ordered);
        }
        sc
    }
}

impl Scc {
    /// Whether nodes `a` and `b` lie in the same component.
    pub fn are_shared(&self, a: usize, b: usize) -> (r: bool)
        requires
            a < self.binding_view().len(),
            b < self.binding_view().len(),
        ensures
            r == (self.binding_view()[a as int].0 == self.binding_view()[b as int].0),
    {
        self.binding[a].0 == self.binding[b].0
    }

    /// The component of `node` and the position of `node` in it.
    pub fn find(&self, node: usize) -> (r: (&DiGraph<usize, ()>, usize))
        requires
            self.binds(self.binding_view().len()),
            node < self.binding_view().len(),
        ensures
            sub_weights(*r.0) == self.members()[self.binding_view()[node as int].0 as int],
            sub_edges(*r.0) == self.component_edges(self.binding_view()[node as int].0 as int),
            r.1 == self.binding_view()[node as int].1,
            r.1 < sub_weights(*r.0).len(),
            sub_weights(*r.0)[r.1 as int] == node,
    {
        let (c, i) = self.binding[node];
        (&self.components[c], i)
    }

    /// The component of each node, in node order.
    pub fn binding(&self) -> (v: Vec<usize>)
        ensures
            v@ == self.binding_view().map_values(|b: (usize, usize)| b.0),
    {
        let mut v: Vec<usize> = Vec::new();
        for i in 0..self.binding.len()
            invariant
                v@ == self.binding_view().take(i as int).map_values(|b: (usize, usize)| b.0),
        {
            v.push(self.binding[i].0);
            assert(self.binding_view().take(i + 1) =~= self.binding_view().take(i as int).push(
                self.binding_view()[i as int],
            ));
            assert(v@ =~= self.binding_view().take(i + 1).map_values(|b: (usize, usize)| b.0));
        }
        assert(self.binding_view().take(self.binding@.len() as int) =~= self.binding_view());
        v
    }
}

/// The edges of component `c`, as positions inside it, are those of the whole graph between
/// two of its nodes.
proof fn lemma_local_edges_contains(
    edges: Seq<(int, int)>,
    binding: Seq<(usize, usize)>,
    c: int,
    x: int,
    y: int,
)
    ensures
        local_edges(edges, binding, c).contains((x, y)) <==> exists|k: int|
            0 <= k < edges.len() && binding[(#[trigger] edges[k]).0].0 == c && binding[edges[k].1].0
                == c && binding[edges[k].0].1 == x && binding[edges[k].1].1 == y,
    decreases edges.len(),
{
    if edges.len() > 0 {
        let prev = edges.drop_last();
        lemma_local_edges_contains(prev, binding, c, x, y);
        let lp = local_edges(prev, binding, c);
        let e = edges.last();
        if local_edges(edges, binding, c).contains((x, y)) {
            if lp.contains((x, y)) {
                let k = choose|k: int|
                    0 <= k < prev.len() && binding[(#[trigger] prev[k]).0].0 == c && binding[prev[k].1].0
                        == c && binding[prev[k].0].1 == x && binding[prev[k].1].1 == y;
                assert(edges[k] == prev[k]);
            } else {
                let t = choose|t: int| 0 <= t < local_edges(edges, binding, c).len() && local_edges(edges, binding, c)[t] == (x, y);
                assert(t == lp.len());
                assert(edges[edges.len() - 1] == e);
            }
        }
        if exists|k: int|
            0 <= k < edges.len() && binding[(#[trigger] edges[k]).0].0 == c && binding[edges[k].1].0
                == c && binding[edges[k].0].1 == x && binding[edges[k].1].1 == y {
            let k = choose|k: int|
                0 <= k < edges.len() && binding[(#[trigger] edges[k]).0].0 == c && binding[edges[k].1].0
                    == c && binding[edges[k].0].1 == x && binding[edges[k].1].1 == y;
            if k < prev.len() {
                assert(prev[k] == edges[k]);
                assert(lp.contains((x, y)));
                let t = choose|t: int| 0 <= t < lp.len() && lp[t] == (x, y);
                assert(local_edges(edges, binding, c)[t] == (x, y));
            } else {
                assert(local_edges(edges, binding, c) == lp.push((x, y)));
                assert(local_edges(edges, binding, c)[lp.len() as int] == (x, y));
            }
        }
    }
}

/// What `Scc::find` gives for a node: the node sits at its place in its component; the
/// component's nodes are exactly those that reach it and that it reaches; and the component
/// has an edge between two of its places exactly when the graph has one between the nodes
/// there.
pub proof fn lemma_scc_component_of(sc: Scc, edges: Seq<(int, int)>, n: nat, i: int)
    requires
        sc.describes(edges, n),
        forall|k: int| 0 <= k < edges.len() ==> 0 <= (#[trigger] edges[k]).0 < n && 0 <= edges[k].1 < n,
        0 <= i < n,
    ensures
        ({
            let c = sc.binding_view()[i].0 as int;
            let m = sc.members()[c];
            &&& sc.binding_view()[i].1 < m.len()
            &&& m[sc.binding_view()[i].1 as int] == i
            &&& forall|v: usize| v < n ==> (m.contains(v) <==> mutually_reachable(edges, i, v as int))
            &&& forall|x: int, y: int|
                #![trigger sc.component_edges(c).contains((x, y))]
                sc.component_edges(c).contains((x, y)) <==> (0 <= x < m.len() && 0 <= y < m.len()
                    && has_edge(edges, m[x] as int, m[y] as int))
        }),
{
    let b = sc.binding_view();
    let c = b[i].0 as int;
    let mm = sc.members();
    let m = mm[c];
    assert(mm[b[i].0 as int][b[i].1 as int] == i);
    assert forall|v: usize| v < n implies (m.contains(v) <==> mutually_reachable(edges, i, v as int)) by {
        if m.contains(v) {
            let jj = choose|jj: int| 0 <= jj < m.len() && m[jj] == v;
            assert(mm[c][jj] == v);
        }
        if mutually_reachable(edges, i, v as int) {
            assert(occurs_in(mm, v));
            let (i2, j2) = choose|i2: int, j2: int| 0 <= i2 < mm.len() && 0 <= j2 < mm[i2].len() && #[trigger] mm[i2][j2] == v;
            assert(mm[c][b[i].1 as int] == i);
            assert(i2 == c);
            assert(m[j2] == v);
        }
    }
    assert forall|x: int, y: int| #![trigger sc.component_edges(c).contains((x, y))]
        sc.component_edges(c).contains((x, y)) <==> (0 <= x < m.len() && 0 <= y < m.len() && has_edge(
            edges,
            m[x] as int,
            m[y] as int,
        )) by {
        assert(sc.component_edges(c) == local_edges(edges, b, c));
        lemma_local_edges_contains(edges, b, c, x, y);
        if sc.component_edges(c).contains((x, y)) {
            let k = choose|k: int|
                0 <= k < edges.len() && b[(#[trigger] edges[k]).0].0 == c && b[edges[k].1].0 == c && b[edges[k].0].1
                    == x && b[edges[k].1].1 == y;
            let u = edges[k].0;
            let v = edges[k].1;
            assert(mm[b[u].0 as int][b[u].1 as int] == u);
            assert(mm[b[v].0 as int][b[v].1 as int] == v);
        }
        if 0 <= x < m.len() && 0 <= y < m.len() && has_edge(edges, m[x] as int, m[y] as int) {
            let k = choose|k: int| 0 <= k < edges.len() && edges[k] == (m[x] as int, m[y] as int);
            let u = edges[k].0;
            let v = edges[k].1;
            assert(mm[b[u].0 as int][b[u].1 as int] == u);
            assert(mm[b[v].0 as int][b[v].1 as int] == v);
            assert(mm[c][x] == u);
            assert(mm[c][y] == v);
        }
    }
}

/// In the components of a graph, two nodes are placed together exactly when they reach
/// each other.
pub proof fn lemma_shared_iff_mutually_reachable(
    sc: Scc,
    edges: Seq<(int, int)>,
    n: nat,
    a: int,
    b: int,
)
    requires
        sc.describes(edges, n),
        0 <= a < n,
        0 <= b < n,
    ensures
        (sc.binding_view()[a].0 == sc.binding_view()[b].0) == mutually_reachable(edges, a, b),
{
    let ba = sc.binding_view()[a];
    let bb = sc.binding_view()[b];
    let c = sc.members();
    assert(c[ba.0 as int][ba.1 as int] == a);
    assert(c[bb.0 as int][bb.1 as int] == b);
}

// ---------------------------------------------------------------------------------------
// Disjoint sets.
/// The number of elements of a union-find structure.
pub uninterp spec fn uf_size(u: UnionFind<usize>) -> nat;

/// The pairs of elements that a union-find structure holds in one set.
pub uninterp spec fn uf_related(u: UnionFind<usize>) -> Set<(int, int)>;

/// The pairs related once the sets of `x` and `y` are joined.
pub open spec fn joined(r: Set<(int, int)>, x: int, y: int) -> Set<(int, int)> {
    Set::new(
        |p: (int, int)|
            r.contains(p) || (r.contains((p.0, x)) && r.contains((y, p.1))) || (r.contains((p.0, y))
                && r.contains((x, p.1))),
    )
}

/// Each of `0..n` related to itself alone.
pub open spec fn singletons(n: nat) -> Set<(int, int)> {
    Set::new(|p: (int, int)| 0 <= p.0 < n && p.0 == p.1)
}

/// The pairs related once the ends of each edge are joined, starting from singletons.
pub open spec fn edge_closure(edges: Seq<(int, int)>, n: nat) -> Set<(int, int)>
    decreases edges.len(),
{
    if edges.len() == 0 {
        singletons(n)
    } else {
        joined(edge_closure(edges.drop_last(), n), edges.last().0, edges.last().1)
    }
}

/// The edges taken in both directions.
pub open spec fn undirected(edges: Seq<(int, int)>) -> Seq<(int, int)> {
    edges + edges.map_values(|e: (int, int)| (e.1, e.0))
}

/// A single edge is a walk of length one.
proof fn lemma_edge_walk(edges: Seq<(int, int)>, u: int, v: int)
    requires
        has_edge(edges, u, v),
    ensures
        walk_of_len(edges, u, v, 1),
{
    let k = choose|k: int| 0 <= k < edges.len() && edges[k] == (u, v);
    assert(edges[k].1 == v && walk_of_len(edges, u, edges[k].0, 0));
}

/// A walk over edges that all occur in `b` is a walk over `b`.
proof fn lemma_walk_sub(a: Seq<(int, int)>, b: Seq<(int, int)>, s: int, t: int, m: nat)
    requires
        forall|i: int| 0 <= i < a.len() ==> has_edge(b, (#[trigger] a[i]).0, a[i].1),
        walk_of_len(a, s, t, m),
    ensures
        walk_of_len(b, s, t, m),
    decreases m,
{
    if m > 0 {
        let i = choose|i: int| 0 <= i < a.len() && a[i].1 == t && walk_of_len(a, s, a[i].0, (m - 1) as nat);
        lemma_walk_sub(a, b, s, a[i].0, (m - 1) as nat);
        assert(has_edge(b, a[i].0, a[i].1));
        let k = choose|k: int| 0 <= k < b.len() && b[k] == (a[i].0, a[i].1);
        assert(b[k].1 == t && walk_of_len(b, s, b[k].0, (m - 1) as nat));
    }
}

/// The undirected edges of `edges`: each edge in both directions, and nothing else.
proof fn lemma_undirected_edges(edges: Seq<(int, int)>, u: int, v: int)
    ensures
        has_edge(undirected(edges), u, v) <==> (has_edge(edges, u, v) || has_edge(edges, v, u)),
{
    let un = undirected(edges);
    let n = edges.len() as int;
    if has_edge(un, u, v) {
        let k = choose|k: int| 0 <= k < un.len() && un[k] == (u, v);
        if k < n {
            assert(edges[k] == (u, v));
        } else {
            assert(edges[k - n] == (v, u));
        }
    }
    if has_edge(edges, u, v) {
        let k = choose|k: int| 0 <= k < n && edges[k] == (u, v);
        assert(un[k] == (u, v));
    }
    if has_edge(edges, v, u) {
        let k = choose|k: int| 0 <= k < n && edges[k] == (v, u);
        assert(un[n + k] == (u, v));
    }
}

/// Undirected reachability in some edges carries over to more edges.
proof fn lemma_undirected_grows(edges: Seq<(int, int)>, x: int, y: int, s: int, t: int)
    requires
        reachable(undirected(edges), s, t),
    ensures
        reachable(undirected(edges.push((x, y))), s, t),
{
    let a = undirected(edges);
    let b = undirected(edges.push((x, y)));
    assert forall|i: int| 0 <= i < a.len() implies has_edge(b, (#[trigger] a[i]).0, a[i].1) by {
        lemma_undirected_edges(edges, a[i].0, a[i].1);
        lemma_undirected_edges(edges.push((x, y)), a[i].0, a[i].1);
        if has_edge(edges, a[i].0, a[i].1) {
            let k = choose|k: int| 0 <= k < edges.len() && edges[k] == (a[i].0, a[i].1);
            assert(edges.push((x, y))[k] == edges[k]);
        } else {
            let k = choose|k: int| 0 <= k < edges.len() && edges[k] == (a[i].1, a[i].0);
            assert(edges.push((x, y))[k] == edges[k]);
        }
    }
    let m = choose|m: nat| walk_of_len(a, s, t, m);
    lemma_walk_sub(a, b, s, t, m);
}

/// A walk that may use one more edge `(x, y)`, in either direction, reaches its end
/// without it, or through `x` and `y`.
proof fn lemma_undirected_split(edges: Seq<(int, int)>, x: int, y: int, s: int, t: int, m: nat)
    requires
        walk_of_len(undirected(edges.push((x, y))), s, t, m),
    ensures
        ({
            let un = undirected(edges);
            ||| reachable(un, s, t)
            ||| reachable(un, s, x) && reachable(un, y, t)
            ||| reachable(un, s, y) && reachable(un, x, t)
        }),
    decreases m,
{
    let un = undirected(edges);
    let un2 = undirected(edges.push((x, y)));
    if m == 0 {
        lemma_distance_self(un, s);
    } else {
        let i = choose|i: int| 0 <= i < un2.len() && un2[i].1 == t && walk_of_len(un2, s, un2[i].0, (m - 1) as nat);
        let u = un2[i].0;
        lemma_undirected_split(edges, x, y, s, u, (m - 1) as nat);
        assert(has_edge(un2, u, t));
        lemma_undirected_edges(edges.push((x, y)), u, t);
        lemma_distance_self(un, x);
        lemma_distance_self(un, y);
        lemma_distance_self(un, t);
        let e2 = edges.push((x, y));
        let old_edge = (has_edge(e2, u, t) && !(u == x && t == y)) || (has_edge(e2, t, u) && !(t == x
            && u == y));
        if old_edge {
            assert(has_edge(un, u, t)) by {
                if has_edge(e2, u, t) && !(u == x && t == y) {
                    let k = choose|k: int| 0 <= k < e2.len() && e2[k] == (u, t);
                    assert(k < edges.len());
                    assert(edges[k] == (u, t));
                    lemma_undirected_edges(edges, u, t);
                } else {
                    let k = choose|k: int| 0 <= k < e2.len() && e2[k] == (t, u);
                    assert(k < edges.len());
                    assert(edges[k] == (t, u));
                    lemma_undirected_edges(edges, u, t);
                }
            }
            lemma_edge_walk(un, u, t);
            // Every way of reaching `u` goes on to `t`.
            if reachable(un, s, u) {
                let k = choose|k: nat| walk_of_len(un, s, u, k);
                lemma_walk_concat(un, s, u, t, k, 1);
            }
            if reachable(un, y, u) {
                let k = choose|k: nat| walk_of_len(un, y, u, k);
                lemma_walk_concat(un, y, u, t, k, 1);
            }
            if reachable(un, x, u) {
                let k = choose|k: nat| walk_of_len(un, x, u, k);
                lemma_walk_concat(un, x, u, t, k, 1);
            }
        } else if u == x && t == y {
            if reachable(un, s, y) && reachable(un, x, x) {
                assert(reachable(un, s, t));
            }
        } else {
            assert(t == x && u == y);
            if reachable(un, s, x) && reachable(un, y, y) {
                assert(reachable(un, s, t));
            }
        }
    }
}

/// The pairs that `edge_closure` relates are those joined by a walk that takes edges in
/// either direction.
pub proof fn lemma_edge_closure_undirected(edges: Seq<(int, int)>, n: nat)
    requires
        forall|i: int| 0 <= i < edges.len() ==> 0 <= (#[trigger] edges[i]).0 < n && 0 <= edges[i].1 < n,
    ensures
        forall|i: int, j: int|
            #![trigger edge_closure(edges, n).contains((i, j))]
            #![trigger reachable(undirected(edges), i, j)]
            0 <= i < n && 0 <= j < n ==> (edge_closure(edges, n).contains((i, j)) <==> reachable(
                undirected(edges),
                i,
                j,
            )),
    decreases edges.len(),
{
    if edges.len() == 0 {
        assert forall|i: int, j: int| 0 <= i < n && 0 <= j < n && reachable(undirected(edges), i, j) implies i == j by {
            let m = choose|m: nat| walk_of_len(undirected(edges), i, j, m);
            assert(undirected(edges).len() == 0);
            if m > 0 {
                assert(!walk_of_len(undirected(edges), i, j, m));
            }
        }
        assert forall|i: int| 0 <= i < n implies reachable(undirected(edges), i, i) by {
            lemma_distance_self(undirected(edges), i);
        }
    } else {
        let e0 = edges.drop_last();
        let x = edges.last().0;
        let y = edges.last().1;
        assert(edges =~= e0.push((x, y)));
        assert forall|i: int| 0 <= i < e0.len() implies 0 <= (#[trigger] e0[i]).0 < n && 0 <= e0[i].1 < n by {
            assert(e0[i] == edges[i]);
        }
        lemma_edge_closure_undirected(e0, n);
        let un0 = undirected(e0);
        let un = undirected(edges);
        assert(has_edge(edges, x, y)) by {
            assert(edges[edges.len() - 1] == (x, y));
        }
        lemma_undirected_edges(edges, x, y);
        lemma_undirected_edges(edges, y, x);
        lemma_edge_walk(un, x, y);
        lemma_edge_walk(un, y, x);
        assert forall|i: int, j: int|
            0 <= i < n && 0 <= j < n implies (edge_closure(edges, n).contains((i, j)) <==> reachable(un, i, j)) by {
            assert(edge_closure(edges, n) == joined(edge_closure(e0, n), x, y));
            assert(edge_closure(e0, n).contains((i, x)) <==> reachable(un0, i, x));
            assert(edge_closure(e0, n).contains((y, j)) <==> reachable(un0, y, j));
            assert(edge_closure(e0, n).contains((i, y)) <==> reachable(un0, i, y));
            assert(edge_closure(e0, n).contains((x, j)) <==> reachable(un0, x, j));
            assert(edge_closure(e0, n).contains((i, j)) <==> reachable(un0, i, j));
            if reachable(un, i, j) {
                let m = choose|m: nat| walk_of_len(un, i, j, m);
                lemma_undirected_split(e0, x, y, i, j, m);
            }
            if reachable(un0, i, j) {
                lemma_undirected_grows(e0, x, y, i, j);
            }
            if reachable(un0, i, x) && reachable(un0, y, j) {
                lemma_undirected_grows(e0, x, y, i, x);
                lemma_undirected_grows(e0, x, y, y, j);
                let k1 = choose|k: nat| walk_of_len(un, i, x, k);
                let k2 = choose|k: nat| walk_of_len(un, y, j, k);
                lemma_walk_concat(un, i, x, y, k1, 1);
                lemma_walk_concat(un, i, y, j, k1 + 1, k2);
            }
            if reachable(un0, i, y) && reachable(un0, x, j) {
                lemma_undirected_grows(e0, x, y, i, y);
                lemma_undirected_grows(e0, x, y, x, j);
                let k1 = choose|k: nat| walk_of_len(un, i, y, k);
                let k2 = choose|k: nat| walk_of_len(un, x, j, k);
                lemma_walk_concat(un, i, y, x, k1, 1);
                lemma_walk_concat(un, i, x, j, k1 + 1, k2);
            }
        }
    }
}

/// `UnionFind::new`: `n` elements, each a set of its own.
#[verifier::external_body]
fn uf_new(n: usize) -> (u: UnionFind<usize>)
    ensures
        uf_size(u) == n,
        uf_related(u) == singletons(n as nat),
{
    UnionFind::new(n)
}

/// `UnionFind::union`: joins the sets of `x` and `y` (it panics on an element out of range).
#[verifier::external_body]
fn uf_union(u: &mut UnionFind<usize>, x: usize, y: usize)
    requires
        x < uf_size(*old(u)),
        y < uf_size(*old(u)),
    ensures
        uf_size(*final(u)) == uf_size(*old(u)),
        uf_related(*final(u)) == joined(uf_related(*old(u)), x as int, y as int),
{
    u.union(x, y);
}

/// `UnionFind::into_labeling`: for each element the representative of its set, a member
/// of that set; two elements share a representative exactly when they share a set.
#[verifier::external_body]
fn uf_labeling(u: UnionFind<usize>) -> (l: Vec<usize>)
    ensures
        l@.len() == uf_size(u),
        forall|i: int| 0 <= i < l@.len() ==> (#[trigger] l@[i]) < uf_size(u),
        forall|i: int| 0 <= i < l@.len() ==> uf_related(u).contains((i, #[trigger] l@[i] as int)),
        forall|i: int, j: int|
            0 <= i < l@.len() && 0 <= j < l@.len() ==> ((#[trigger] l@[i] == #[trigger] l@[j])
                == uf_related(u).contains((i, j))),
{
    u.into_labeling()
}

/// Joining keeps every pair related, and a set that relates each element to itself keeps
/// doing so.
proof fn lemma_joined_grows(r: Set<(int, int)>, x: int, y: int, n: nat)
    requires
        forall|v: int| 0 <= v < n ==> r.contains((v, v)),
        0 <= x < n,
        0 <= y < n,
    ensures
        r.subset_of(joined(r, x, y)),
        joined(r, x, y).contains((x, y)),
{
}

/// After joining the ends of every edge, the ends of each edge are related.
proof fn lemma_edge_closure_relates_edges(edges: Seq<(int, int)>, n: nat)
    requires
        forall|i: int| 0 <= i < edges.len() ==> 0 <= (#[trigger] edges[i]).0 < n && 0 <= edges[i].1 < n,
    ensures
        forall|v: int| 0 <= v < n ==> edge_closure(edges, n).contains((v, v)),
        forall|i: int| 0 <= i < edges.len() ==> edge_closure(edges, n).contains(#[trigger] edges[i]),
    decreases edges.len(),
{
    if edges.len() > 0 {
        let prev = edges.drop_last();
        assert forall|i: int| 0 <= i < prev.len() implies 0 <= (#[trigger] prev[i]).0 < n && 0 <= prev[i].1 < n by {
            assert(prev[i] == edges[i]);
        }
        lemma_edge_closure_relates_edges(prev, n);
        lemma_joined_grows(edge_closure(prev, n), edges.last().0, edges.last().1, n);
        assert forall|i: int| 0 <= i < edges.len() implies edge_closure(edges, n).contains(#[trigger] edges[i]) by {
            if i < edges.len() - 1 {
                assert(prev[i] == edges[i]);
            }
        }
    }
}

/// The nodes below `k` that carry label `l`, in increasing order.
pub open spec fn label_members(labels: Seq<usize>, l: usize, k: int) -> Seq<usize>
    decreases k,
{
    if k <= 0 {
        Seq::empty()
    } else {
        let prev = label_members(labels, l, k - 1);
        if labels[k - 1] == l {
            prev.push((k - 1) as usize)
        } else {
            prev
        }
    }
}

proof fn lemma_label_members_none(labels: Seq<usize>, l: usize, k: int)
    requires
        0 <= k <= labels.len(),
        forall|j: int| 0 <= j < k ==> #[trigger] labels[j] != l,
    ensures
        label_members(labels, l, k) == Seq::<usize>::empty(),
    decreases k,
{
    if k > 0 {
        lemma_label_members_none(labels, l, k - 1);
    }
}

proof fn lemma_label_members_len(labels: Seq<usize>, l: usize, k: int)
    requires
        0 <= k,
    ensures
        label_members(labels, l, k).len() <= k,
    decreases k,
{
    if k > 0 {
        lemma_label_members_len(labels, l, k - 1);
    }
}

/// The edges whose source carries label `l`, as positions inside the subgraph of `l`.
pub open spec fn labelled_edges(
    edges: Seq<(int, int)>,
    labels: Seq<usize>,
    positions: Seq<usize>,
    l: usize,
) -> Seq<(int, int)>
    decreases edges.len(),
{
    if edges.len() == 0 {
        Seq::empty()
    } else {
        let prev = labelled_edges(edges.drop_last(), labels, positions, l);
        let e = edges.last();
        if labels[e.0] == l {
            prev.push((positions[e.0] as int, positions[e.1] as int))
        } else {
            prev
        }
    }
}

proof fn lemma_labelled_edges_len(
    edges: Seq<(int, int)>,
    labels: Seq<usize>,
    positions: Seq<usize>,
    l: usize,
)
    ensures
        labelled_edges(edges, labels, positions, l).len() <= edges.len(),
    decreases edges.len(),
{
    if edges.len() > 0 {
        lemma_labelled_edges_len(edges.drop_last(), labels, positions, l);
    }
}

/// The weakly connected components of a graph, each as a subgraph of its own.
pub struct ConnectedComponents {
    labelling: Vec<usize>,
    component_indices: Vec<usize>,
    components: HashMap<usize, DiGraph<usize, ()>>,
}

impl ConnectedComponents {
    /// The label of each node: the representative of its component.
    pub closed spec fn labels(self) -> Seq<usize> {
        self.labelling@
    }

    /// The position of each node inside its component.
    pub closed spec fn positions(self) -> Seq<usize> {
        self.component_indices@
    }

    /// The component subgraphs, by label.
    pub closed spec fn graphs(self) -> Map<usize, DiGraph<usize, ()>> {
        self.components@
    }

    /// Nodes `i` and `j` are labelled alike exactly when the edges join them; each node sits
    /// in the subgraph of its label at its position, and that subgraph holds the nodes of
    /// the label in increasing order, with the edges between them.
    pub open spec fn describes(self, edges: Seq<(int, int)>, n: nat) -> bool {
        &&& self.labels().len() == n
        &&& self.positions().len() == n
        &&& forall|i: int, j: int|
            0 <= i < n && 0 <= j < n ==> ((#[trigger] self.labels()[i] == #[trigger] self.labels()[j])
                == edge_closure(edges, n).contains((i, j)))
        &&& forall|i: int|
            0 <= i < n ==> {
                let l = #[trigger] self.labels()[i];
                &&& self.graphs().contains_key(l)
                &&& self.positions()[i] < sub_weights(self.graphs()[l]).len()
                &&& sub_weights(self.graphs()[l])[self.positions()[i] as int] == i
            }
        &&& forall|l: usize|
            #[trigger] self.graphs().contains_key(l) ==> {
                &&& sub_weights(self.graphs()[l]) == label_members(self.labels(), l, n as int)
                &&& sub_edges(self.graphs()[l]) == labelled_edges(
                    edges,
                    self.labels(),
                    self.positions(),
                    l,
                )
            }
    }

    /// The weakly connected components of `g`, as `new` gives them, when `g` fits the limits
    /// of `graph_fits`; `None` otherwise.
    pub fn checked_new(g: &DiGraph<(), ()>) -> (r: Option<ConnectedComponents>)
        ensures
            r is Some <==> graph_fits(*g),
            r matches Some(cc) ==> cc.describes(graph_edges(*g), graph_order(*g)),
    {
        if check_graph_fits(g) {
            Some(ConnectedComponents::new(g))
        } else {
            None
        }
    }

    /// The weakly connected components of `g`: nodes share a component when edges join
    /// them, whatever their direction.
    pub fn new(g: &DiGraph<(), ()>) -> (cc: ConnectedComponents)
        requires
            graph_order(*g) < u32::MAX,
            graph_edges(*g).len() < u32::MAX,
            forall|i: int|
                0 <= i < graph_edges(*g).len() ==> 0 <= (#[trigger] graph_edges(*g)[i]).0 < graph_order(*g)
                    && 0 <= graph_edges(*g)[i].1 < graph_order(*g),
        ensures
            cc.describes(graph_edges(*g), graph_order(*g)),
    {
        let n = graph_node_count(g);
        let ghost edges = graph_edges(*g);
        let mut sets = uf_new(n);
        let list = graph_edge_list(g);
        let mut k: usize = 0;
        while k < list.len()
            invariant
                edges == graph_edges(*g),
                n == graph_order(*g),
                list@.len() == edges.len(),
                forall|i: int|
                    0 <= i < list@.len() ==> (#[trigger] list@[i]).0 as int == edges[i].0 && list@[i].1
                        as int == edges[i].1,
                forall|i: int|
                    0 <= i < edges.len() ==> 0 <= (#[trigger] edges[i]).0 < n && 0 <= edges[i].1 < n,
                0 <= k <= list@.len(),
                uf_size(sets) == n,
                uf_related(sets) == edge_closure(edges.take(k as int), n as nat),
            decreases list@.len() - k,
        {
            let (s, t) = list[k];
            uf_union(&mut sets, s, t);
            assert(edges.take(k + 1).drop_last() =~= edges.take(k as int));
            k = k + 1;
        }
        assert(edges.take(k as int) =~= edges);
        let labelling = uf_labeling(sets);
        let mut component_indices: Vec<usize> = Vec::new();
        let mut components: HashMap<usize, DiGraph<usize, ()>> = HashMap::new();
        let mut i: usize = 0;
        while i < n
            invariant
                n == graph_order(*g),
                n < u32::MAX,
                labelling@.len() == n,
                forall|j: int| 0 <= j < n ==> (#[trigger] labelling@[j]) < n,
                0 <= i <= n,
                component_indices@.len() == i,
                forall|l: usize|
                    #[trigger] components@.contains_key(l) <==> exists|j: int|
                        0 <= j < i && labelling@[j] == l,
                forall|l: usize|
                    #[trigger] components@.contains_key(l) ==> sub_weights(components@[l])
                        == label_members(labelling@, l, i as int) && sub_edges(components@[l])
                        == Seq::<(int, int)>::empty(),
                forall|j: int|
                    0 <= j < i ==> {
                        let l = #[trigger] labelling@[j];
                        &&& components@.contains_key(l)
                        &&& component_indices@[j] < label_members(labelling@, l, i as int).len()
                        &&& label_members(labelling@, l, i as int)[component_indices@[j] as int] == j
                    },
            decreases n - i,
        {
            let l = labelling[i];
            let ghost before = components@;
            let mut sub = match components.remove(&l) {
                Some(sg) => sg,
                None => {
                    proof {
                        assert forall|j: int| 0 <= j < i implies #[trigger] labelling@[j] != l by {
                            if labelling@[j] == l {
                                assert(components@.contains_key(l));
                            }
                        }
                        lemma_label_members_none(labelling@, l, i as int);
                    }
                    sub_new()
                },
            };
            proof {
                lemma_label_members_len(labelling@, l, i as int);
            }
            let idx = sub_add_node(&mut sub, i);
            components.insert(l, sub);
            component_indices.push(idx);
            proof {
                assert forall|l2: usize| #[trigger] components@.contains_key(l2) implies sub_weights(
                    components@[l2],
                ) == label_members(labelling@, l2, i + 1) && sub_edges(components@[l2])
                    == Seq::<(int, int)>::empty() by {
                    if l2 != l {
                        assert(before.contains_key(l2));
                    }
                }
                assert forall|l2: usize| #[trigger] components@.contains_key(l2) <==> exists|j: int|
                    0 <= j < i + 1 && labelling@[j] == l2 by {
                    if components@.contains_key(l2) && l2 != l {
                        assert(before.contains_key(l2));
                    }
                    if exists|j: int| 0 <= j < i + 1 && labelling@[j] == l2 {
                        let j = choose|j: int| 0 <= j < i + 1 && labelling@[j] == l2;
                        if j < i {
                            assert(before.contains_key(l2));
                        }
                    }
                }
                assert forall|j: int| 0 <= j < i + 1 implies {
                    let l2 = #[trigger] labelling@[j];
                    &&& components@.contains_key(l2)
                    &&& component_indices@[j] < label_members(labelling@, l2, i + 1).len()
                    &&& label_members(labelling@, l2, i + 1)[component_indices@[j] as int] == j
                } by {
                    if j < i {
                        let l2 = labelling@[j];
                        assert(before.contains_key(l2));
                    }
                }
            }
            i = i + 1;
        }
        proof {
            lemma_edge_closure_relates_edges(edges, n as nat);
        }
        let mut k: usize = 0;
        while k < list.len()
            invariant
                edges == graph_edges(*g),
                n == graph_order(*g),
                n < u32::MAX,
                edges.len() < u32::MAX,
                list@.len() == edges.len(),
                forall|i: int|
                    0 <= i < list@.len() ==> (#[trigger] list@[i]).0 as int == edges[i].0 && list@[i].1
                        as int == edges[i].1,
                forall|i: int|
                    0 <= i < edges.len() ==> 0 <= (#[trigger] edges[i]).0 < n && 0 <= edges[i].1 < n,
                forall|i: int|
                    0 <= i < edges.len() ==> edge_closure(edges, n as nat).contains(#[trigger] edges[i]),
                labelling@.len() == n,
                forall|i: int, j: int|
                    0 <= i < n && 0 <= j < n ==> ((#[trigger] labelling@[i] == #[trigger] labelling@[j])
                        == edge_closure(edges, n as nat).contains((i, j))),
                component_indices@.len() == n,
                forall|j: int|
                    0 <= j < n ==> {
                        let l = #[trigger] labelling@[j];
                        &&& components@.contains_key(l)
                        &&& component_indices@[j] < label_members(labelling@, l, n as int).len()
                        &&& label_members(labelling@, l, n as int)[component_indices@[j] as int] == j
                    },
                0 <= k <= list@.len(),
                forall|l: usize|
                    #[trigger] components@.contains_key(l) ==> sub_weights(components@[l])
                        == label_members(labelling@, l, n as int) && sub_edges(components@[l])
                        == labelled_edges(edges.take(k as int), labelling@, component_indices@, l),
            decreases list@.len() - k,
        {
            let (s, t) = list[k];
            let l = labelling[s];
            let a = component_indices[s];
            let b = component_indices[t];
            let ghost before = components@;
            proof {
                assert(edges[k as int] == (s as int, t as int));
                assert(labelling@[s as int] == labelling@[t as int]);
                lemma_labelled_edges_len(edges.take(k as int), labelling@, component_indices@, l);
                assert(edges.take(k + 1).drop_last() =~= edges.take(k as int));
                assert(edges.take(k + 1).last() == edges[k as int]);
            }
            let mut sub = components.remove(&l).unwrap();
            sub_add_edge(&mut sub, a, b);
            components.insert(l, sub);
            proof {
                assert forall|l2: usize| #[trigger] components@.contains_key(l2) implies sub_weights(
                    components@[l2],
                ) == label_members(labelling@, l2, n as int) && sub_edges(components@[l2])
                    == labelled_edges(edges.take(k + 1), labelling@, component_indices@, l2) by {
                    if l2 != l {
                        assert(before.contains_key(l2));
                    }
                }
                assert forall|j: int| 0 <= j < n implies {
                    let l2 = #[trigger] labelling@[j];
                    &&& components@.contains_key(l2)
                    &&& component_indices@[j] < label_members(labelling@, l2, n as int).len()
                    &&& label_members(labelling@, l2, n as int)[component_indices@[j] as int] == j
                } by {
                    let l2 = labelling@[j];
                    assert(before.contains_key(l2));
                }
            }
            k = k + 1;
        }
        assert(edges.take(k as int) =~= edges);
        let cc = ConnectedComponents { labelling, component_indices, components };
        cc
    }

    /// The component of `node` and the position of `node` in it.
    pub fn find(&self, node: usize) -> (r: (&DiGraph<usize, ()>, usize))
        requires
            node < self.labels().len(),
            node < self.positions().len(),
            self.graphs().contains_key(self.labels()[node as int]),
        ensures
            *r.0 == self.graphs()[self.labels()[node as int]],
            r.1 == self.positions()[node as int],
    {
        let l = self.labelling[node];
        let g = self.components.get(&l).unwrap();
        (g, self.component_indices[node])
    }
}

// ---------------------------------------------------------------------------------------
/// The members of label `l` among the first `k` nodes are those nodes, in increasing order.
proof fn lemma_label_members_contains(labels: Seq<usize>, l: usize, k: int)
    requires
        0 <= k <= labels.len(),
        k <= usize::MAX,
    ensures
        forall|v: usize| label_members(labels, l, k).contains(v) <==> (v < k && labels[v as int] == l),
        forall|s: int, t: int|
            0 <= s < t < label_members(labels, l, k).len() ==> label_members(labels, l, k)[s]
                < label_members(labels, l, k)[t],
        forall|t: int| 0 <= t < label_members(labels, l, k).len() ==> label_members(labels, l, k)[t] < k,
    decreases k,
{
    if k > 0 {
        lemma_label_members_contains(labels, l, k - 1);
        let prev = label_members(labels, l, k - 1);
        let cur = label_members(labels, l, k);
        assert forall|v: usize| cur.contains(v) <==> (v < k && labels[v as int] == l) by {
            if cur.contains(v) {
                let t = choose|t: int| 0 <= t < cur.len() && cur[t] == v;
                if t < prev.len() {
                    assert(prev[t] == v);
                    assert(prev.contains(v));
                }
            }
            if v < k && labels[v as int] == l {
                if v < k - 1 {
                    assert(prev.contains(v));
                    let t = choose|t: int| 0 <= t < prev.len() && prev[t] == v;
                    if labels[k - 1] == l {
                        assert(cur[t] == v);
                    }
                } else {
                    assert(cur[prev.len() as int] == v);
                }
            }
        }
    }
}

/// The edges of the subgraph of label `l` are those of the whole graph whose source carries
/// the label, as positions.
proof fn lemma_labelled_edges_contains(
    edges: Seq<(int, int)>,
    labels: Seq<usize>,
    positions: Seq<usize>,
    l: usize,
    x: int,
    y: int,
)
    ensures
        labelled_edges(edges, labels, positions, l).contains((x, y)) <==> exists|k: int|
            0 <= k < edges.len() && labels[(#[trigger] edges[k]).0] == l && positions[edges[k].0] == x
                && positions[edges[k].1] == y,
    decreases edges.len(),
{
    if edges.len() > 0 {
        let prev = edges.drop_last();
        lemma_labelled_edges_contains(prev, labels, positions, l, x, y);
        let lp = labelled_edges(prev, labels, positions, l);
        let cur = labelled_edges(edges, labels, positions, l);
        if cur.contains((x, y)) {
            if lp.contains((x, y)) {
                let k = choose|k: int|
                    0 <= k < prev.len() && labels[(#[trigger] prev[k]).0] == l && positions[prev[k].0] == x
                        && positions[prev[k].1] == y;
                assert(edges[k] == prev[k]);
            } else {
                let t = choose|t: int| 0 <= t < cur.len() && cur[t] == (x, y);
                assert(t == lp.len());
                assert(edges[edges.len() - 1] == edges.last());
            }
        }
        if exists|k: int|
            0 <= k < edges.len() && labels[(#[trigger] edges[k]).0] == l && positions[edges[k].0] == x
                && positions[edges[k].1] == y {
            let k = choose|k: int|
                0 <= k < edges.len() && labels[(#[trigger] edges[k]).0] == l && positions[edges[k].0] == x
                    && positions[edges[k].1] == y;
            if k < prev.len() {
                assert(prev[k] == edges[k]);
                assert(lp.contains((x, y)));
                let t = choose|t: int| 0 <= t < lp.len() && lp[t] == (x, y);
                assert(cur[t] == (x, y));
            } else {
                assert(cur[lp.len() as int] == (x, y));
            }
        }
    }
}

/// What `ConnectedComponents::find` gives for a node: the node sits at its place in its
/// subgraph; the subgraph's nodes are exactly those joined to it by a walk that takes edges
/// in either direction; and the subgraph has an edge between two places exactly when the
/// graph has one between the nodes there.
pub proof fn lemma_weak_component_of(cc: ConnectedComponents, edges: Seq<(int, int)>, n: nat, i: int)
    requires
        cc.describes(edges, n),
        n <= usize::MAX,
        forall|k: int| 0 <= k < edges.len() ==> 0 <= (#[trigger] edges[k]).0 < n && 0 <= edges[k].1 < n,
        0 <= i < n,
    ensures
        ({
            let g = cc.graphs()[cc.labels()[i]];
            let w = sub_weights(g);
            &&& cc.graphs().contains_key(cc.labels()[i])
            &&& cc.positions()[i] < w.len()
            &&& w[cc.positions()[i] as int] == i
            &&& forall|v: usize| v < n ==> (w.contains(v) <==> reachable(undirected(edges), i, v as int))
            &&& forall|x: int, y: int|
                #![trigger sub_edges(g).contains((x, y))]
                sub_edges(g).contains((x, y)) <==> (0 <= x < w.len() && 0 <= y < w.len() && has_edge(
                    edges,
                    w[x] as int,
                    w[y] as int,
                ))
        }),
{
    let labels = cc.labels();
    let pos = cc.positions();
    let l = labels[i];
    let g = cc.graphs()[l];
    let w = sub_weights(g);
    assert(w == label_members(labels, l, n as int));
    lemma_label_members_contains(labels, l, n as int);
    lemma_edge_closure_undirected(edges, n);
    lemma_edge_closure_relates_edges(edges, n);
    assert forall|v: usize| v < n implies (w.contains(v) <==> reachable(undirected(edges), i, v as int)) by {
        assert((labels[i] == labels[v as int]) == edge_closure(edges, n).contains((i, v as int)));
        assert(edge_closure(edges, n).contains((i, v as int)) <==> reachable(undirected(edges), i, v as int));
    }
    assert forall|x: int, y: int| #![trigger sub_edges(g).contains((x, y))]
        sub_edges(g).contains((x, y)) <==> (0 <= x < w.len() && 0 <= y < w.len() && has_edge(
            edges,
            w[x] as int,
            w[y] as int,
        )) by {
        lemma_labelled_edges_contains(edges, labels, pos, l, x, y);
        if sub_edges(g).contains((x, y)) {
            let k = choose|k: int|
                0 <= k < edges.len() && labels[(#[trigger] edges[k]).0] == l && pos[edges[k].0] == x
                    && pos[edges[k].1] == y;
            let u = edges[k].0;
            let v = edges[k].1;
            assert(edge_closure(edges, n).contains(edges[k]));
            assert(labels[u] == labels[v]);
            assert(sub_weights(cc.graphs()[labels[u]])[pos[u] as int] == u);
            assert(sub_weights(cc.graphs()[labels[v]])[pos[v] as int] == v);
            assert(edges[k] == (w[x] as int, w[y] as int));
        }
        if 0 <= x < w.len() && 0 <= y < w.len() && has_edge(edges, w[x] as int, w[y] as int) {
            let k = choose|k: int| 0 <= k < edges.len() && edges[k] == (w[x] as int, w[y] as int);
            let u = w[x];
            let v = w[y];
            assert(w.contains(u));
            assert(w.contains(v));
            assert(labels[u as int] == l && labels[v as int] == l);
            assert(w[pos[u as int] as int] == u);
            assert(w[pos[v as int] as int] == v);
            if pos[u as int] as int != x {
                if (pos[u as int] as int) < x {
                    assert(w[pos[u as int] as int] < w[x]);
                } else {
                    assert(w[x] < w[pos[u as int] as int]);
                }
            }
            if pos[v as int] as int != y {
                if (pos[v as int] as int) < y {
                    assert(w[pos[v as int] as int] < w[y]);
                } else {
                    assert(w[y] < w[pos[v as int] as int]);
                }
            }
            assert(labels[edges[k].0] == l);
        }
    }
}

/// Two nodes share a weakly connected component exactly when a walk that takes edges in
/// either direction joins them.
pub proof fn lemma_weak_components_are_undirected_reach(
    cc: ConnectedComponents,
    edges: Seq<(int, int)>,
    n: nat,
    i: int,
    j: int,
)
    requires
        cc.describes(edges, n),
        forall|k: int| 0 <= k < edges.len() ==> 0 <= (#[trigger] edges[k]).0 < n && 0 <= edges[k].1 < n,
        0 <= i < n,
        0 <= j < n,
    ensures
        (cc.labels()[i] == cc.labels()[j]) == reachable(undirected(edges), i, j),
{
    lemma_edge_closure_undirected(edges, n);
    assert(edge_closure(edges, n).contains((i, j)) <==> reachable(undirected(edges), i, j));
}

/// The row of shortest distances from `i`: empty when `i` reaches no other node, else the
/// distance to each node, `0` for the nodes it does not reach.
pub open spec fn distance_row(edges: Seq<(int, int)>, n: nat, i: int) -> Seq<usize> {
    if reach_set(edges, n, i).len() <= 1 {
        Seq::empty()
    } else {
        Seq::new(
            n,
            |j: int|
                if reachable(edges, i, j) {
                    distance(edges, i, j) as usize
                } else {
                    0usize
                },
        )
    }
}

/// Every shortest distance between nodes of the graph fits in a `usize`.
pub open spec fn distances_fit(edges: Seq<(int, int)>, n: nat) -> bool {
    forall|s: int, t: int|
        0 <= s < n && 0 <= t < n && #[trigger] reachable(edges, s, t) ==> distance(edges, s, t)
            <= usize::MAX
}

/// The rows of shortest distances of all nodes.
pub open spec fn distance_rows(edges: Seq<(int, int)>, n: nat) -> Seq<Seq<usize>> {
    Seq::new(n, |i: int| distance_row(edges, n, i))
}

/// The lengths of shortest paths between the nodes of a graph.
#[derive(Clone)]
pub struct ShortestPaths {
    square: Vec<Vec<usize>>,
}

impl ShortestPaths {
    /// The rows of the table.
    pub closed spec fn rows(self) -> Seq<Seq<usize>> {
        self.square@.map_values(|r: Vec<usize>| r@)
    }

    /// The shortest distances from every node of `g` (every edge counting 1).
    pub fn new(g: &DiGraph<(), ()>) -> (sp: ShortestPaths)
        ensures
            sp.rows() == distance_rows(graph_edges(*g), graph_order(*g)),
            distances_fit(graph_edges(*g), graph_order(*g)),
    {
        let n = graph_node_count(g);
        let ghost edges = graph_edges(*g);
        let mut square: Vec<Vec<usize>> = Vec::new();
        for i in 0..n
            invariant
                n == graph_order(*g),
                edges == graph_edges(*g),
                square@.len() == i,
                forall|k: int|
                    0 <= k < i ==> (#[trigger] square@[k])@ == distance_row(edges, n as nat, k),
                forall|s: int, t: int|
                    0 <= s < i && 0 <= t < n && #[trigger] reachable(edges, s, t) ==> distance(
                        edges,
                        s,
                        t,
                    ) <= usize::MAX,
        {
            let run = graph_distances(g, i);
            proof {
                assert forall|t: int| 0 <= t < n && #[trigger] reachable(edges, i as int, t) implies distance(
                    edges,
                    i as int,
                    t,
                ) <= usize::MAX by {
                    assert(run@.contains_key(t as usize));
                    lemma_distance(edges, i as int, t, run@[t as usize] as nat);
                }
            }
            assert(run@.dom() =~= reach_set(edges, n as nat, i as int));
            if run.len() <= 1 {
                square.push(Vec::new());
            } else {
                let mut row: Vec<usize> = Vec::new();
                for j in 0..n
                    invariant
                        n == graph_order(*g),
                        edges == graph_edges(*g),
                        row@.len() == j,
                        i < n,
                        forall|t: usize|
                            run@.contains_key(t) == (t < n && reachable(
                                edges,
                                i as int,
                                t as int,
                            )),
                        forall|t: usize|
                            run@.contains_key(t) ==> is_distance(
                                edges,
                                i as int,
                                t as int,
                                #[trigger] run@[t] as nat,
                            ),
                        forall|k: int|
                            0 <= k < j ==> #[trigger] row@[k] == (if reachable(edges, i as int, k) {
                                distance(edges, i as int, k) as usize
                            } else {
                                0usize
                            }),
                {
                    let d = match run.get(&j) {
                        Some(d) => {
                            proof {
                                assert(run@.contains_key(j));
                                lemma_distance(edges, i as int, j as int, run@[j] as nat);
                            }
                            *d
                        },
                        None => 0,
                    };
                    row.push(d);
                }
                assert(row@ =~= distance_row(edges, n as nat, i as int));
                square.push(row);
            }
        }
        let sp = ShortestPaths { square };
        assert(sp.rows() =~= distance_rows(edges, n as nat));
        sp
    }

    /// The row of `a` (it panics past the last node).
    pub fn lenths_from(&self, a: NodeRef) -> (row: &[usize])
        requires
            a@ < self.rows().len(),
        ensures
            row@ == self.rows()[a@ as int],
    {
        self.square[usize::from(a)].as_slice()
    }

    /// The length of a shortest path from `a` to `b`: `0` from a node to itself; otherwise
    /// the entry of `b` in the row of `a`, `None` when that row is too short for it.
    pub fn length(&self, a: NodeRef, b: NodeRef) -> (d: Option<usize>)
        requires
            a != b ==> a@ < self.rows().len(),
        ensures
            d == (if a == b {
                Some(0usize)
            } else if b@ < self.rows()[a@ as int].len() {
                Some(self.rows()[a@ as int][b@ as int])
            } else {
                None
            }),
    {
        if a == b {
            return Some(0);
        }
        let row = self.lenths_from(a);
        let j = usize::from(b);
        if j < row.len() {
            Some(row[j])
        } else {
            None
        }
    }

    /// The table itself.
    pub fn into_square(self) -> (square: Vec<Vec<usize>>)
        ensures
            square@.map_values(|r: Vec<usize>| r@) == self.rows(),
    {
        self.square
    }
}

// ---------------------------------------------------------------------------------------
// Walks.
/// Walks compose.
pub proof fn lemma_walk_concat(edges: Seq<(int, int)>, x: int, y: int, z: int, m1: nat, m2: nat)
    requires
        walk_of_len(edges, x, y, m1),
        walk_of_len(edges, y, z, m2),
    ensures
        walk_of_len(edges, x, z, m1 + m2),
    decreases m2,
{
    if m2 > 0 {
        let i = choose|i: int|
            0 <= i < edges.len() && edges[i].1 == z && walk_of_len(edges, y, edges[i].0, (m2 - 1) as nat);
        lemma_walk_concat(edges, x, y, edges[i].0, m1, (m2 - 1) as nat);
        assert(walk_of_len(edges, x, z, m1 + m2)) by {
            assert(((m1 + m2) - 1) as nat == m1 + (m2 - 1) as nat);
        }
    }
}

/// Reachability is transitive.
pub proof fn lemma_reachable_trans(edges: Seq<(int, int)>, x: int, y: int, z: int)
    requires
        reachable(edges, x, y),
        reachable(edges, y, z),
    ensures
        reachable(edges, x, z),
{
    let m1 = choose|m: nat| walk_of_len(edges, x, y, m);
    let m2 = choose|m: nat| walk_of_len(edges, y, z, m);
    lemma_walk_concat(edges, x, y, z, m1, m2);
}

/// Every node reaches itself, at distance zero.
pub proof fn lemma_distance_self(edges: Seq<(int, int)>, x: int)
    ensures
        walk_of_len(edges, x, x, 0),
        reachable(edges, x, x),
        is_distance(edges, x, x, 0),
        distance(edges, x, x) == 0,
{
    assert(walk_of_len(edges, x, x, 0));
    lemma_distance(edges, x, x, 0);
}

/// A node at distance zero is the start itself.
pub proof fn lemma_distance_zero(edges: Seq<(int, int)>, x: int, y: int)
    requires
        reachable(edges, x, y),
        distance(edges, x, y) == 0,
    ensures
        x == y,
{
    let m = choose|m: nat| walk_of_len(edges, x, y, m);
    lemma_least_walk(edges, x, y, m);
}

/// A reachable node has a shortest distance.
pub proof fn lemma_least_walk(edges: Seq<(int, int)>, x: int, y: int, m: nat)
    requires
        walk_of_len(edges, x, y, m),
    ensures
        is_distance(edges, x, y, distance(edges, x, y)),
        distance(edges, x, y) <= m,
    decreases m,
{
    if exists|k: nat| k < m && walk_of_len(edges, x, y, k) {
        let k = choose|k: nat| k < m && walk_of_len(edges, x, y, k);
        lemma_least_walk(edges, x, y, k);
    } else {
        assert(is_distance(edges, x, y, m));
        lemma_distance(edges, x, y, m);
    }
}

/// A node that reaches another node reaches at least two nodes.
pub proof fn lemma_reach_set_two(edges: Seq<(int, int)>, n: usize, s: usize, t: usize)
    requires
        s != t,
        s < n,
        t < n,
        reachable(edges, s as int, t as int),
    ensures
        reach_set(edges, n as nat, s as int).len() > 1,
{
    let r = reach_set(edges, n as nat, s as int);
    let full = Set::<usize>::range(0usize, n);
    vstd::set_lib::range_set_properties(0usize, n);
    assert(r.subset_of(full));
    vstd::set_lib::lemma_len_subset(r, full);
    lemma_distance_self(edges, s as int);
    assert(r.contains(s));
    assert(r.contains(t));
    assert(r.remove(s).contains(t));
    assert(r.remove(s).len() > 0);
}

// ---------------------------------------------------------------------------------------
// Counting shortest paths layer by layer.
/// Whether `p` lies in the strong component of `a`, at distance `k` from it.
pub open spec fn on_level(edges: Seq<(int, int)>, a: int, p: int, k: int) -> bool {
    mutually_reachable(edges, a, p) && distance(edges, a, p) == k
}

/// The walks from `p`, taken to lie at level `k`, to `b` at level `n`, each step going one
/// level up, every node before `b` in the strong component of `a` at the distance from
/// `a` of its level.
pub open spec fn layered_walks(edges: Seq<(int, int)>, a: int, b: int, n: int, p: int, k: int) -> nat
    decreases n - k, edges.len() + 1,
{
    if k >= n {
        if p == b {
            1
        } else {
            0
        }
    } else if !on_level(edges, a, p, k) {
        0
    } else {
        layered_out(edges, a, b, n, p, k, edges.len() as int)
    }
}

/// The layered walks from `p` at level `k` that leave by one of the first `m` edges.
pub open spec fn layered_out(
    edges: Seq<(int, int)>,
    a: int,
    b: int,
    n: int,
    p: int,
    k: int,
    m: int,
) -> nat
    decreases n - k, m,
{
    if m <= 0 || k >= n || m > edges.len() {
        0
    } else {
        layered_out(edges, a, b, n, p, k, m - 1) + if edges[m - 1].0 == p {
            layered_walks(edges, a, b, n, edges[m - 1].1, k + 1)
        } else {
            0
        }
    }
}

/// The walks through edge `i` are among those leaving by the first `m` edges.
proof fn lemma_layered_out_term(
    edges: Seq<(int, int)>,
    a: int,
    b: int,
    n: int,
    p: int,
    k: int,
    m: int,
    i: int,
)
    requires
        0 <= i < m <= edges.len(),
        k < n,
        edges[i].0 == p,
    ensures
        layered_out(edges, a, b, n, p, k, m) >= layered_walks(edges, a, b, n, edges[i].1, k + 1),
    decreases m,
{
    if i < m - 1 {
        lemma_layered_out_term(edges, a, b, n, p, k, m - 1, i);
    }
}

/// When `a` and `b` reach each other, a shortest walk from `a` to `b` runs through the
/// levels: from every level `j` some node with layered walks is reached along it.
proof fn lemma_layered_walk_exists(edges: Seq<(int, int)>, a: int, b: int, j: int)
    requires
        mutually_reachable(edges, a, b),
        0 <= j <= distance(edges, a, b),
    ensures
        exists|t: int|
            walk_of_len(edges, a, t, j as nat) && (j == distance(edges, a, b) ==> t == b) && (
            j < distance(edges, a, b) ==> on_level(edges, a, t, j)) && #[trigger] layered_walks(
                edges,
                a,
                b,
                distance(edges, a, b) as int,
                t,
                j,
            ) >= 1,
    decreases distance(edges, a, b) - j,
{
    let n = distance(edges, a, b) as int;
    let m0 = choose|m: nat| walk_of_len(edges, a, b, m);
    lemma_least_walk(edges, a, b, m0);
    if j == n {
        assert(layered_walks(edges, a, b, n, b, j) == 1);
    } else {
        lemma_layered_walk_exists(edges, a, b, j + 1);
        let t = choose|t: int|
            walk_of_len(edges, a, t, (j + 1) as nat) && (j + 1 == n ==> t == b) && (j + 1 < n
                ==> on_level(edges, a, t, j + 1)) && #[trigger] layered_walks(edges, a, b, n, t, j + 1)
                >= 1;
        let i = choose|i: int|
            0 <= i < edges.len() && edges[i].1 == t && walk_of_len(edges, a, edges[i].0, j as nat);
        let q = edges[i].0;
        lemma_least_walk(edges, a, t, (j + 1) as nat);
        // `q` lies at distance `j`: a shorter walk to it would give a shorter one to `t`.
        assert(is_distance(edges, a, q, j as nat)) by {
            assert forall|m: nat| m < j implies !walk_of_len(edges, a, q, m) by {
                if walk_of_len(edges, a, q, m) {
                    assert(walk_of_len(edges, a, t, m + 1));
                    assert(is_distance(edges, a, t, (j + 1) as nat));
                }
            }
        }
        lemma_distance(edges, a, q, j as nat);
        // `q` lies in the strong component of `a`.
        assert(walk_of_len(edges, q, t, 1)) by {
            assert(walk_of_len(edges, q, q, 0));
        }
        assert(reachable(edges, q, t));
        assert(reachable(edges, t, a));
        lemma_reachable_trans(edges, q, t, a);
        assert(reachable(edges, a, q));
        assert(on_level(edges, a, q, j));
        lemma_layered_out_term(edges, a, b, n, q, j, edges.len() as int, i);
        assert(layered_walks(edges, a, b, n, q, j) >= 1);
    }
}

/// Whether `edges` holds an edge from `x` to `y`.
pub open spec fn has_edge(edges: Seq<(int, int)>, x: int, y: int) -> bool {
    exists|i: int| 0 <= i < edges.len() && edges[i] == (x, y)
}

/// Whether `w` is a walk: a non-empty sequence of nodes, each joined to the next by an edge.
pub open spec fn is_walk(edges: Seq<(int, int)>, w: Seq<int>) -> bool {
    w.len() > 0 && forall|j: int| 0 <= j < w.len() - 1 ==> #[trigger] has_edge(edges, w[j], w[j + 1])
}

/// The shortest walks from `a` to `b`, each as its sequence of nodes.
pub open spec fn shortest_walks(edges: Seq<(int, int)>, a: int, b: int) -> Set<Seq<int>> {
    Set::new(
        |w: Seq<int>|
            is_walk(edges, w) && w.len() == distance(edges, a, b) + 1 && w[0] == a && w.last() == b,
    )
}

/// The walks that `layered_walks` counts, as sequences of nodes.
pub open spec fn level_walks(edges: Seq<(int, int)>, a: int, b: int, n: int, p: int, k: int) -> Set<
    Seq<int>,
> {
    Set::new(
        |w: Seq<int>|
            is_walk(edges, w) && w.len() == n - k + 1 && w[0] == p && w.last() == b && forall|j: int|
                0 <= j < n - k ==> #[trigger] on_level(edges, a, w[j], k + j),
    )
}

/// The walks of `level_walks` that leave by one of the first `m` edges.
pub open spec fn level_walks_out(
    edges: Seq<(int, int)>,
    a: int,
    b: int,
    n: int,
    p: int,
    k: int,
    m: int,
) -> Set<Seq<int>> {
    Set::new(
        |w: Seq<int>|
            level_walks(edges, a, b, n, p, k).contains(w) && exists|i: int|
                0 <= i < m && #[trigger] edges[i] == (w[0], w[1]),
    )
}

/// Whether the count of walks from `a` to `b` at distance `n` passes through `p`: `p` lies
/// at some level `k` before `n`, at distance `k` from `a` in its strong component, and walks
/// on through the levels to `b`.
pub open spec fn passes_through(edges: Seq<(int, int)>, a: int, b: int, n: int, p: int) -> bool {
    exists|k: int| 0 <= k < n && on_level(edges, a, p, k) && #[trigger] layered_walks(edges, a, b, n, p, k) > 0
}

/// How often the count passes through `p` at level `k` along the first `m` edges: once for
/// each edge from `p`, lying at level `k`, to a node with layered walks on from level `k + 1`.
pub open spec fn visits_at(edges: Seq<(int, int)>, a: int, b: int, n: int, p: int, k: int, m: int) -> nat
    decreases m,
{
    if m <= 0 || m > edges.len() {
        0
    } else {
        visits_at(edges, a, b, n, p, k, m - 1) + if edges[m - 1].0 == p && on_level(edges, a, p, k)
            && layered_walks(edges, a, b, n, edges[m - 1].1, k + 1) > 0 {
            1nat
        } else {
            0nat
        }
    }
}

/// How often the count from `b` back to `a` passes through `p` at the levels from `k` up to
/// (not including) `n`.
pub open spec fn visits_from(edges: Seq<(int, int)>, a: int, b: int, n: int, p: int, k: int) -> nat
    decreases n - k,
{
    if k >= n {
        0
    } else {
        visits_at(edges, a, b, n, p, k, edges.len() as int) + visits_from(edges, a, b, n, p, k + 1)
    }
}

/// Passes at a level number at most the edges looked at, and none off the node's level.
proof fn lemma_visits_at_bound(edges: Seq<(int, int)>, a: int, b: int, n: int, p: int, k: int, m: int)
    requires
        0 <= m <= edges.len(),
    ensures
        visits_at(edges, a, b, n, p, k, m) <= m,
        !on_level(edges, a, p, k) ==> visits_at(edges, a, b, n, p, k, m) == 0,
    decreases m,
{
    if m > 0 {
        lemma_visits_at_bound(edges, a, b, n, p, k, m - 1);
    }
}

/// A node at none of the levels from `k` on is not passed through there.
proof fn lemma_visits_from_none(edges: Seq<(int, int)>, a: int, b: int, n: int, p: int, k: int)
    requires
        forall|l: int| k <= l < n ==> !#[trigger] on_level(edges, a, p, l),
    ensures
        visits_from(edges, a, b, n, p, k) == 0,
    decreases n - k,
{
    if k < n {
        lemma_visits_at_bound(edges, a, b, n, p, k, edges.len() as int);
        lemma_visits_from_none(edges, a, b, n, p, k + 1);
    }
}

/// A node that the count passes through is one that `passes_through` admits, so it lies on a
/// shortest walk from `a` to `b` and is not `b` (see `lemma_passes_on_shortest_path`).
pub proof fn lemma_visited_passes_through(edges: Seq<(int, int)>, a: int, b: int, n: int, p: int, k: int)
    requires
        0 <= k,
        visits_from(edges, a, b, n, p, k) > 0,
    ensures
        passes_through(edges, a, b, n, p),
    decreases n - k,
{
    if k < n {
        if visits_at(edges, a, b, n, p, k, edges.len() as int) > 0 {
            lemma_visits_at_witness(edges, a, b, n, p, k, edges.len() as int);
        } else {
            lemma_visited_passes_through(edges, a, b, n, p, k + 1);
        }
    }
}

/// A pass at level `k` comes from an edge on to a node with layered walks, so `p` has layered
/// walks at `k` itself.
proof fn lemma_visits_at_witness(edges: Seq<(int, int)>, a: int, b: int, n: int, p: int, k: int, m: int)
    requires
        0 <= k < n,
        0 <= m <= edges.len(),
        visits_at(edges, a, b, n, p, k, m) > 0,
    ensures
        passes_through(edges, a, b, n, p),
    decreases m,
{
    if visits_at(edges, a, b, n, p, k, m - 1) > 0 {
        lemma_visits_at_witness(edges, a, b, n, p, k, m - 1);
    } else {
        lemma_layered_out_term(edges, a, b, n, p, k, edges.len() as int, m - 1);
        assert(layered_walks(edges, a, b, n, p, k) > 0);
    }
}

/// `layered_walks` counts the walks of `level_walks`, when no edge occurs twice.
proof fn lemma_level_walks_count(edges: Seq<(int, int)>, a: int, b: int, n: int, p: int, k: int)
    requires
        edges.no_duplicates(),
        0 <= k <= n,
    ensures
        level_walks(edges, a, b, n, p, k).finite(),
        level_walks(edges, a, b, n, p, k).len() == layered_walks(edges, a, b, n, p, k),
    decreases n - k, edges.len() + 1,
{
    let lw = level_walks(edges, a, b, n, p, k);
    if k >= n {
        if p == b {
            assert(is_walk(edges, seq![p]));
            assert(lw.contains(seq![p]));
            assert forall|w: Seq<int>| lw.contains(w) implies w == seq![p] by {
                assert(w =~= seq![p]);
            }
            assert(lw =~= set![seq![p]]);
        } else {
            assert(lw =~= Set::<Seq<int>>::empty());
        }
    } else if !on_level(edges, a, p, k) {
        assert forall|w: Seq<int>| !lw.contains(w) by {
            if lw.contains(w) {
                assert(on_level(edges, a, w[0], k + 0));
            }
        }
        assert(lw =~= Set::<Seq<int>>::empty());
    } else {
        let e = edges.len() as int;
        lemma_level_walks_out_count(edges, a, b, n, p, k, e);
        assert forall|w: Seq<int>| lw.contains(w) implies level_walks_out(edges, a, b, n, p, k, e).contains(w) by {
            assert(has_edge(edges, w[0], w[0int + 1]));
            let i = choose|i: int| 0 <= i < edges.len() && edges[i] == (w[0], w[1]);
            assert(edges[i] == (w[0], w[1]));
        }
        assert(lw =~= level_walks_out(edges, a, b, n, p, k, e));
    }
}

/// `layered_out` counts the walks of `level_walks_out`, when no edge occurs twice.
proof fn lemma_level_walks_out_count(
    edges: Seq<(int, int)>,
    a: int,
    b: int,
    n: int,
    p: int,
    k: int,
    m: int,
)
    requires
        edges.no_duplicates(),
        0 <= k < n,
        0 <= m <= edges.len(),
        on_level(edges, a, p, k),
    ensures
        level_walks_out(edges, a, b, n, p, k, m).finite(),
        level_walks_out(edges, a, b, n, p, k, m).len() == layered_out(edges, a, b, n, p, k, m),
    decreases n - k, m,
{
    let out = level_walks_out(edges, a, b, n, p, k, m);
    let lw = level_walks(edges, a, b, n, p, k);
    if m == 0 {
        assert(out =~= Set::<Seq<int>>::empty());
    } else {
        lemma_level_walks_out_count(edges, a, b, n, p, k, m - 1);
        let prev = level_walks_out(edges, a, b, n, p, k, m - 1);
        let e = edges[m - 1];
        let extra = Set::new(|w: Seq<int>| lw.contains(w) && w[0] == e.0 && w[1] == e.1);
        assert forall|w: Seq<int>| #[trigger] out.contains(w) <==> prev.contains(w) || extra.contains(w) by {
            if out.contains(w) && !prev.contains(w) {
                let i = choose|i: int| 0 <= i < m && #[trigger] edges[i] == (w[0], w[1]);
                assert(i == m - 1);
            }
            if extra.contains(w) {
                assert(edges[m - 1] == (w[0], w[1]));
            }
        }
        assert(out =~= prev + extra);
        assert(prev.disjoint(extra)) by {
            assert forall|w: Seq<int>| prev.contains(w) implies !extra.contains(w) by {
                let i = choose|i: int| 0 <= i < m - 1 && #[trigger] edges[i] == (w[0], w[1]);
                if extra.contains(w) {
                    assert(edges[i] == edges[m - 1]);
                }
            }
        }
        if e.0 == p {
            let q = e.1;
            lemma_level_walks_count(edges, a, b, n, q, k + 1);
            let next = level_walks(edges, a, b, n, q, k + 1);
            let f = |w: Seq<int>| seq![p] + w;
            assert forall|w: Seq<int>| #[trigger] extra.contains(w) <==> next.map(f).contains(w) by {
                if extra.contains(w) {
                    let v = w.drop_first();
                    assert(w =~= seq![p] + v);
                    assert forall|j: int| 0 <= j < v.len() - 1 implies #[trigger] has_edge(edges, v[j], v[j + 1]) by {
                        assert(has_edge(edges, w[j + 1], w[j + 1 + 1]));
                    }
                    assert forall|j: int| 0 <= j < n - (k + 1) implies #[trigger] on_level(edges, a, v[j], k + 1 + j) by {
                        assert(on_level(edges, a, w[j + 1], k + (j + 1)));
                    }
                    assert(next.contains(v));
                    assert(f(v) == w);
                }
                if next.map(f).contains(w) {
                    let v = choose|v: Seq<int>| next.contains(v) && f(v) == w;
                    assert(w =~= seq![p] + v);
                    assert forall|j: int| 0 <= j < w.len() - 1 implies #[trigger] has_edge(edges, w[j], w[j + 1]) by {
                        if j == 0 {
                            assert(edges[m - 1] == (w[0], w[1]));
                        } else {
                            assert(has_edge(edges, v[j - 1], v[j - 1 + 1]));
                        }
                    }
                    assert forall|j: int| 0 <= j < n - k implies #[trigger] on_level(edges, a, w[j], k + j) by {
                        if j > 0 {
                            assert(on_level(edges, a, v[j - 1], k + 1 + (j - 1)));
                        }
                    }
                    assert(lw.contains(w));
                }
            }
            assert(extra =~= next.map(f));
            assert(vstd::relations::injective_on(f, next)) by {
                assert forall|x: Seq<int>, y: Seq<int>| next.contains(x) && next.contains(y) && #[trigger] f(x) == #[trigger] f(y) implies x == y by {
                    assert(x =~= f(x).drop_first());
                    assert(y =~= f(y).drop_first());
                }
            }
            vstd::set_lib::lemma_map_size(next, extra, f);
        } else {
            assert(extra =~= Set::<Seq<int>>::empty());
        }
        vstd::set_lib::lemma_set_disjoint_lens(prev, extra);
    }
}

/// The nodes of a walk, from position `i` to position `j`, make a walk of `j - i` edges.
proof fn lemma_walk_segment(edges: Seq<(int, int)>, w: Seq<int>, i: int, j: int)
    requires
        is_walk(edges, w),
        0 <= i <= j < w.len(),
    ensures
        walk_of_len(edges, w[i], w[j], (j - i) as nat),
    decreases j - i,
{
    if j > i {
        lemma_walk_segment(edges, w, i, j - 1);
        assert(has_edge(edges, w[j - 1], w[j - 1 + 1]));
        let e = choose|e: int| 0 <= e < edges.len() && edges[e] == (w[j - 1], w[j]);
        assert(edges[e].1 == w[j] && walk_of_len(edges, w[i], edges[e].0, (j - i - 1) as nat));
    }
}

/// Between two nodes of one strong component, when no edge occurs twice, the shortest walks
/// are finitely many, and `layered_walks` from the first node counts exactly them.
pub proof fn lemma_layered_walks_are_shortest_walks(edges: Seq<(int, int)>, a: int, b: int)
    requires
        edges.no_duplicates(),
        mutually_reachable(edges, a, b),
    ensures
        shortest_walks(edges, a, b).finite(),
        shortest_walks(edges, a, b).len() == layered_walks(
            edges,
            a,
            b,
            distance(edges, a, b) as int,
            a,
            0,
        ),
{
    let d = distance(edges, a, b);
    let m0 = choose|m: nat| walk_of_len(edges, a, b, m);
    lemma_least_walk(edges, a, b, m0);
    lemma_level_walks_count(edges, a, b, d as int, a, 0);
    let sw = shortest_walks(edges, a, b);
    let lw = level_walks(edges, a, b, d as int, a, 0);
    assert forall|w: Seq<int>| sw.contains(w) implies lw.contains(w) by {
        assert forall|j: int| 0 <= j < d - 0 implies #[trigger] on_level(edges, a, w[j], 0 + j) by {
            lemma_walk_segment(edges, w, 0, j);
            lemma_walk_segment(edges, w, j, d as int);
            assert(is_distance(edges, a, w[j], j as nat)) by {
                assert forall|m: nat| m < j implies !walk_of_len(edges, a, w[j], m) by {
                    if walk_of_len(edges, a, w[j], m) {
                        lemma_walk_concat(edges, a, w[j], b, m, (d - j) as nat);
                    }
                }
            }
            lemma_distance(edges, a, w[j], j as nat);
            assert(reachable(edges, w[j], b));
            lemma_reachable_trans(edges, w[j], b, a);
        }
    }
    assert(sw =~= lw);
}

/// A node that the count from `a` to `b` passes through lies on a shortest walk from `a` to
/// `b` and is not `b`: it shares the strong component of `a`, and its distances from `a` and
/// to `b` add up to the distance from `a` to `b`.
pub proof fn lemma_passes_on_shortest_path(edges: Seq<(int, int)>, a: int, b: int, p: int)
    requires
        edges.no_duplicates(),
        mutually_reachable(edges, a, b),
        passes_through(edges, a, b, distance(edges, a, b) as int, p),
    ensures
        p != b,
        mutually_reachable(edges, a, p),
        reachable(edges, p, b),
        distance(edges, a, p) + distance(edges, p, b) == distance(edges, a, b),
{
    let n = distance(edges, a, b) as int;
    let k = choose|k: int| 0 <= k < n && on_level(edges, a, p, k) && #[trigger] layered_walks(edges, a, b, n, p, k) > 0;
    lemma_level_walks_count(edges, a, b, n, p, k);
    let lw = level_walks(edges, a, b, n, p, k);
    assert(lw.len() > 0);
    if lw =~= Set::<Seq<int>>::empty() {
        assert(lw.len() == 0);
    }
    let w = lw.choose();
    assert(lw.contains(w));
    lemma_walk_segment(edges, w, 0, n - k);
    assert(walk_of_len(edges, p, b, (n - k) as nat));
    lemma_least_walk(edges, p, b, (n - k) as nat);
    let m0 = choose|m: nat| walk_of_len(edges, a, b, m);
    lemma_least_walk(edges, a, b, m0);
    let m1 = choose|m: nat| walk_of_len(edges, a, p, m);
    lemma_least_walk(edges, a, p, m1);
    let dp = distance(edges, p, b);
    lemma_walk_concat(edges, a, p, b, k as nat, dp);
    assert(!(k + dp < n));
}

// ---------------------------------------------------------------------------------------
/// The edges of a link graph as positions, each kept at its first occurrence only.
pub open spec fn distinct_edges(es: Seq<(NodeRef, NodeRef)>) -> Seq<(int, int)>
    decreases es.len(),
{
    if es.len() == 0 {
        Seq::empty()
    } else {
        let prev = distinct_edges(es.drop_last());
        let e = (es.last().0@ as int, es.last().1@ as int);
        if prev.contains(e) {
            prev
        } else {
            prev.push(e)
        }
    }
}

/// Every link, a link of a node to itself included, is an edge, and every edge is a link.
pub proof fn lemma_distinct_edges_are_links(es: Seq<(NodeRef, NodeRef)>)
    ensures
        forall|k: int|
            0 <= k < es.len() ==> distinct_edges(es).contains(
                ((#[trigger] es[k]).0@ as int, es[k].1@ as int),
            ),
        forall|j: int|
            0 <= j < distinct_edges(es).len() ==> exists|k: int|
                0 <= k < es.len() && #[trigger] distinct_edges(es)[j] == ((#[trigger] es[k]).0@ as int, es[k].1@ as int),
    decreases es.len(),
{
    if es.len() > 0 {
        let prev = es.drop_last();
        lemma_distinct_edges_are_links(prev);
        let d0 = distinct_edges(prev);
        let d = distinct_edges(es);
        let e = (es.last().0@ as int, es.last().1@ as int);
        assert forall|k: int| 0 <= k < es.len() implies d.contains(((#[trigger] es[k]).0@ as int, es[k].1@ as int)) by {
            if k < prev.len() {
                assert(prev[k] == es[k]);
                let t = choose|t: int| 0 <= t < d0.len() && d0[t] == (prev[k].0@ as int, prev[k].1@ as int);
                if !d0.contains(e) {
                    assert(d[t] == d0[t]);
                }
            } else {
                if !d0.contains(e) {
                    assert(d[d0.len() as int] == e);
                }
            }
        }
        assert forall|j: int| 0 <= j < d.len() implies exists|k: int|
            0 <= k < es.len() && #[trigger] d[j] == ((#[trigger] es[k]).0@ as int, es[k].1@ as int) by {
            if j < d0.len() {
                assert(d[j] == d0[j]);
                let k = choose|k: int| 0 <= k < prev.len() && d0[j] == ((prev[k]).0@ as int, prev[k].1@ as int);
                assert(prev[k] == es[k]);
            } else {
                assert(es[es.len() - 1] == es.last());
            }
        }
    }
}

proof fn lemma_distinct_edges(es: Seq<(NodeRef, NodeRef)>, n: nat)
    requires
        forall|i: int| 0 <= i < es.len() ==> (#[trigger] es[i]).0@ < n && es[i].1@ < n,
    ensures
        distinct_edges(es).len() <= es.len(),
        forall|i: int|
            0 <= i < distinct_edges(es).len() ==> 0 <= (#[trigger] distinct_edges(es)[i]).0 < n && 0
                <= distinct_edges(es)[i].1 < n,
        distinct_edges(es).no_duplicates(),
    decreases es.len(),
{
    if es.len() > 0 {
        let prev = es.drop_last();
        assert forall|i: int| 0 <= i < prev.len() implies (#[trigger] prev[i]).0@ < n && prev[i].1@ < n by {
            assert(prev[i] == es[i]);
        }
        lemma_distinct_edges(prev, n);
        let d = distinct_edges(prev);
        let e = (es.last().0@ as int, es.last().1@ as int);
        if !d.contains(e) {
            assert forall|i: int, j: int| 0 <= i < d.push(e).len() && 0 <= j < d.push(e).len() && i != j implies d.push(e)[i] != d.push(e)[j] by {
                if i < d.len() && j < d.len() {
                } else if i < d.len() {
                    assert(d.contains(d[i]));
                } else if j < d.len() {
                    assert(d.contains(d[j]));
                }
            }
        }
    }
}

/// The graph of `links`: a node for each object, an edge for each distinct link, in the
/// order of its first occurrence.
fn link_digraph(links: &LinkGraph) -> (graph: DiGraph<(), ()>)
    requires
        links.entries().len() < u32::MAX,
        links.edges@.len() < u32::MAX,
        forall|i: int|
            0 <= i < links.edges@.len() ==> (#[trigger] links.edges@[i]).0@ < links.entries().len()
                && links.edges@[i].1@ < links.entries().len(),
    ensures
        graph_order(graph) == links.entries().len(),
        graph_edges(graph) == distinct_edges(links.edges@),
{
    let n = node_map_len(&links.nodes);
    let mut graph = graph_with_capacity(n, links.edges.len());
    for i in 0..n
        invariant
            graph_order(graph) == i,
            graph_edges(graph) == Seq::<(int, int)>::empty(),
            n < u32::MAX,
    {
        let added = graph_add_node(&mut graph);
        assert(added == i);
    }
    proof {
        lemma_distinct_edges(links.edges@, n as nat);
    }
    for k in 0..links.edges.len()
        invariant
            graph_order(graph) == n,
            n == links.entries().len(),
            links.edges@.len() < u32::MAX,
            forall|i: int|
                0 <= i < links.edges@.len() ==> (#[trigger] links.edges@[i]).0@ < n && links.edges@[i].1@ < n,
            graph_edges(graph) == distinct_edges(links.edges@.take(k as int)),
    {
        let (a, b) = links.edges[k];
        proof {
            assert(links.edges@.take(k + 1).drop_last() =~= links.edges@.take(k as int));
            lemma_distinct_edges(links.edges@.take(k as int), n as nat);
        }
        graph_update_edge(&mut graph, a.index(), b.index());
    }
    assert(links.edges@.take(links.edges@.len() as int) =~= links.edges@);
    proof {
        lemma_distinct_edges(links.edges@, n as nat);
    }
    graph
}

/// The number of edges of `d` that leave `i`.
pub open spec fn out_degree(d: Seq<(int, int)>, i: int) -> nat
    decreases d.len(),
{
    if d.len() == 0 {
        0
    } else {
        out_degree(d.drop_last(), i) + if d.last().0 == i {
            1nat
        } else {
            0nat
        }
    }
}

/// The number of edges of `d` that enter `i`.
pub open spec fn in_degree(d: Seq<(int, int)>, i: int) -> nat
    decreases d.len(),
{
    if d.len() == 0 {
        0
    } else {
        in_degree(d.drop_last(), i) + if d.last().1 == i {
            1nat
        } else {
            0nat
        }
    }
}

/// Whether the entry at `x` is a wiki page.
pub open spec fn is_page_at(e: Seq<(KeyView, Node)>, x: int) -> bool {
    0 <= x < e.len() && e[x].1.object.is_markdown_spec()
}

/// The number of edges of `d` at `i` whose other end is a wiki page, each edge counted once
/// for each of its ends that is `i`.
pub open spec fn page_neighbours(d: Seq<(int, int)>, e: Seq<(KeyView, Node)>, i: int) -> nat
    decreases d.len(),
{
    if d.len() == 0 {
        0
    } else {
        page_neighbours(d.drop_last(), e, i) + (if d.last().0 == i && is_page_at(e, d.last().1) {
            1nat
        } else {
            0nat
        }) + (if d.last().1 == i && is_page_at(e, d.last().0) {
            1nat
        } else {
            0nat
        })
    }
}

/// Only wiki pages count as page neighbours: where no edge at `i` has a wiki page at its
/// other end (a found attachment, a dead link or an outside URL instead), the count is zero;
/// where every edge at `i` has one there, each edge counts once for each of its ends at `i`.
pub proof fn lemma_page_neighbours_count_pages(d: Seq<(int, int)>, e: Seq<(KeyView, Node)>, i: int)
    ensures
        (forall|k: int|
            0 <= k < d.len() ==> {
                &&& (#[trigger] d[k]).0 == i ==> !(0 <= d[k].1 < e.len() && e[d[k].1].1.object matches Object::File(
                    FileObject::WikiPage(_),
                ))
                &&& d[k].1 == i ==> !(0 <= d[k].0 < e.len() && e[d[k].0].1.object matches Object::File(
                    FileObject::WikiPage(_),
                ))
            }) ==> page_neighbours(d, e, i) == 0,
        (forall|k: int|
            0 <= k < d.len() ==> {
                &&& (#[trigger] d[k]).0 == i ==> (0 <= d[k].1 < e.len() && e[d[k].1].1.object matches Object::File(
                    FileObject::WikiPage(_),
                ))
                &&& d[k].1 == i ==> (0 <= d[k].0 < e.len() && e[d[k].0].1.object matches Object::File(
                    FileObject::WikiPage(_),
                ))
            }) ==> page_neighbours(d, e, i) == out_degree(d, i) + in_degree(d, i),
    decreases d.len(),
{
    if d.len() > 0 {
        let t = d.drop_last();
        assert forall|k: int| 0 <= k < t.len() implies t[k] == d[k] by {}
        lemma_page_neighbours_count_pages(t, e, i);
        assert(d.last() == d[d.len() - 1]);
    }
}

/// The label of a node: `/` and the path for a file, the URL for an outside link.
pub open spec fn node_label(k: KeyView) -> Seq<char> {
    match k {
        KeyView::File(s) => seq!['/'] + s,
        KeyView::External(s) => s,
    }
}

/// For each node of `links`, in order: its label, and, counting each distinct link once, the
/// number of links out of it, the number into it, and the number of its links whose other
/// end is a wiki page.
pub fn node_labels_and_degrees(links: &LinkGraph) -> (v: Vec<(String, usize, usize, usize)>)
    requires
        links.entries().len() < u32::MAX,
        links.edges@.len() < u32::MAX,
        links.edges@.len() <= usize::MAX / 2,
        forall|i: int|
            0 <= i < links.edges@.len() ==> (#[trigger] links.edges@[i]).0@ < links.entries().len()
                && links.edges@[i].1@ < links.entries().len(),
    ensures
        v@.len() == links.entries().len(),
        forall|i: int|
            0 <= i < v@.len() ==> {
                let d = distinct_edges(links.edges@);
                &&& (#[trigger] v@[i]).0@ == node_label(links.entries()[i].0)
                &&& v@[i].1 == out_degree(d, i)
                &&& v@[i].2 == in_degree(d, i)
                &&& v@[i].3 == page_neighbours(d, links.entries(), i)
            },
{
    let ghost e = links.entries();
    let n = node_map_len(&links.nodes);
    let graph = link_digraph(links);
    let ghost d = distinct_edges(links.edges@);
    proof {
        lemma_distinct_edges(links.edges@, n as nat);
    }
    let list = graph_edge_list(&graph);
    let mut flags: Vec<bool> = Vec::new();
    let mut outs: Vec<usize> = Vec::new();
    let mut ins: Vec<usize> = Vec::new();
    let mut pages: Vec<usize> = Vec::new();
    for x in 0..n
        invariant
            n == e.len(),
            e == links.entries(),
            flags@.len() == x,
            outs@.len() == x,
            ins@.len() == x,
            pages@.len() == x,
            forall|y: int| 0 <= y < x ==> #[trigger] flags@[y] == is_page_at(e, y),
            forall|y: int| 0 <= y < x ==> #[trigger] outs@[y] == 0,
            forall|y: int| 0 <= y < x ==> #[trigger] ins@[y] == 0,
            forall|y: int| 0 <= y < x ==> #[trigger] pages@[y] == 0,
    {
        let node = node_map_value(&links.nodes, x);
        let page = node.object.is_markdown();
        flags.push(page);
        outs.push(0);
        ins.push(0);
        pages.push(0);
        assert(flags@[x as int] == is_page_at(e, x as int));
    }
    for j in 0..list.len()
        invariant
            n == e.len(),
            e == links.entries(),
            d == distinct_edges(links.edges@),
            list@.len() == d.len(),
            d.len() <= links.edges@.len(),
            links.edges@.len() <= usize::MAX / 2,
            forall|k: int|
                0 <= k < list@.len() ==> (#[trigger] list@[k]).0 as int == d[k].0 && list@[k].1 as int
                    == d[k].1,
            forall|k: int| 0 <= k < d.len() ==> 0 <= (#[trigger] d[k]).0 < n && 0 <= d[k].1 < n,
            flags@.len() == n,
            outs@.len() == n,
            ins@.len() == n,
            pages@.len() == n,
            forall|y: int| 0 <= y < n ==> #[trigger] flags@[y] == is_page_at(e, y),
            forall|y: int|
                0 <= y < n ==> #[trigger] outs@[y] == out_degree(d.take(j as int), y) && outs@[y] <= j,
            forall|y: int|
                0 <= y < n ==> #[trigger] ins@[y] == in_degree(d.take(j as int), y) && ins@[y] <= j,
            forall|y: int|
                0 <= y < n ==> #[trigger] pages@[y] == page_neighbours(d.take(j as int), e, y)
                    && pages@[y] <= 2 * j,
    {
        let (a, b) = list[j];
        let ghost old_outs = outs@;
        let ghost old_ins = ins@;
        let ghost old_pages = pages@;
        proof {
            assert(d.take(j + 1).drop_last() =~= d.take(j as int));
            assert(d.take(j + 1).last() == d[j as int]);
        }
        let o = outs[a];
        outs.set(a, o + 1);
        let i = ins[b];
        ins.set(b, i + 1);
        if flags[b] {
            let p = pages[a];
            pages.set(a, p + 1);
        }
        if flags[a] {
            let p = pages[b];
            pages.set(b, p + 1);
        }
        proof {
            assert forall|y: int| 0 <= y < n implies #[trigger] outs@[y] == out_degree(d.take(j + 1), y)
                && outs@[y] <= j + 1 by {
                assert(old_outs[y] == out_degree(d.take(j as int), y));
            }
            assert forall|y: int| 0 <= y < n implies #[trigger] ins@[y] == in_degree(d.take(j + 1), y)
                && ins@[y] <= j + 1 by {
                assert(old_ins[y] == in_degree(d.take(j as int), y));
            }
            assert forall|y: int| 0 <= y < n implies #[trigger] pages@[y] == page_neighbours(
                d.take(j + 1),
                e,
                y,
            ) && pages@[y] <= 2 * (j + 1) by {
                assert(old_pages[y] == page_neighbours(d.take(j as int), e, y));
            }
        }
    }
    assert(d.take(list@.len() as int) =~= d);
    let mut v: Vec<(String, usize, usize, usize)> = Vec::new();
    for i in 0..n
        invariant
            n == e.len(),
            e == links.entries(),
            d == distinct_edges(links.edges@),
            outs@.len() == n,
            ins@.len() == n,
            pages@.len() == n,
            forall|y: int|
                0 <= y < n ==> {
                    &&& #[trigger] outs@[y] == out_degree(d, y)
                    &&& ins@[y] == in_degree(d, y)
                    &&& pages@[y] == page_neighbours(d, e, y)
                },
            v@.len() == i,
            forall|y: int|
                0 <= y < i ==> {
                    &&& (#[trigger] v@[y]).0@ == node_label(e[y].0)
                    &&& v@[y].1 == out_degree(d, y)
                    &&& v@[y].2 == in_degree(d, y)
                    &&& v@[y].3 == page_neighbours(d, e, y)
                },
    {
        let label = match node_map_key(&links.nodes, i) {
            Some(ObjectKey::File(s)) => {
                proof {
                    reveal_strlit("/");
                }
                let mut l = "/".to_owned();
                l.append(s.as_str());
                assert(l@ =~= seq!['/'] + s@);
                l
            },
            Some(ObjectKey::External(s)) => s.as_str().to_owned(),
            None => String::new(),
        };
        v.push((label, outs[i], ins[i], pages[i]));
    }
    v
}

/// A link graph prepared for analysis: the graph with each link once, the shortest paths
/// between its nodes, and its weakly and strongly connected components.
pub struct AnalysisGraph {
    graph: DiGraph<(), ()>,
    shortest_paths: ShortestPaths,
    cc: ConnectedComponents,
    scc: Scc,
}

impl AnalysisGraph {
    /// The number of nodes.
    pub closed spec fn order(self) -> nat {
        graph_order(self.graph)
    }

    /// The edges, in order.
    pub closed spec fn edges(self) -> Seq<(int, int)> {
        graph_edges(self.graph)
    }

    /// The table of shortest paths.
    pub closed spec fn paths(self) -> ShortestPaths {
        self.shortest_paths
    }

    /// The weakly connected components.
    pub closed spec fn weak_components(self) -> ConnectedComponents {
        self.cc
    }

    /// The strongly connected components.
    pub closed spec fn strong_components(self) -> Scc {
        self.scc
    }

    /// Whether the parts describe the graph.
    pub open spec fn wf(self) -> bool {
        &&& self.order() < u32::MAX
        &&& self.edges().len() < u32::MAX
        &&& self.edges().no_duplicates()
        &&& forall|i: int|
            0 <= i < self.edges().len() ==> 0 <= (#[trigger] self.edges()[i]).0 < self.order() && 0
                <= self.edges()[i].1 < self.order()
        &&& self.paths().rows() == distance_rows(self.edges(), self.order())
        &&& distances_fit(self.edges(), self.order())
        &&& self.weak_components().describes(self.edges(), self.order())
        &&& self.strong_components().describes(self.edges(), self.order())
    }

    /// The graph of `links`: a node for each object, an edge for each distinct link.
    pub fn new(links: &LinkGraph) -> (ag: AnalysisGraph)
        requires
            links.entries().len() < u32::MAX,
            links.edges@.len() < u32::MAX,
            forall|i: int|
                0 <= i < links.edges@.len() ==> (#[trigger] links.edges@[i]).0@ < links.entries().len()
                    && links.edges@[i].1@ < links.entries().len(),
        ensures
            ag.wf(),
            ag.order() == links.entries().len(),
            ag.edges() == distinct_edges(links.edges@),
            forall|k: int|
                0 <= k < links.edges@.len() ==> ag.edges().contains(
                    ((#[trigger] links.edges@[k]).0@ as int, links.edges@[k].1@ as int),
                ),
            forall|j: int|
                0 <= j < ag.edges().len() ==> exists|k: int|
                    0 <= k < links.edges@.len() && #[trigger] ag.edges()[j] == (
                        (#[trigger] links.edges@[k]).0@ as int,
                        links.edges@[k].1@ as int,
                    ),
    {
        let graph = link_digraph(links);
        proof {
            lemma_distinct_edges(links.edges@, links.entries().len());
            lemma_distinct_edges_are_links(links.edges@);
        }
        AnalysisGraph {
            cc: ConnectedComponents::new(&graph),
            scc: Scc::new(&graph),
            shortest_paths: ShortestPaths::new(&graph),
            graph,
        }
    }


    /// The length of a shortest path from `a` to `b` as the table gives it: `0` from a
    /// node to itself, `None` where the row of `a` is empty.
    pub open spec fn path_length(self, a: int, b: int) -> Option<usize> {
        if a == b {
            Some(0usize)
        } else if b < self.paths().rows()[a].len() {
            Some(self.paths().rows()[a][b])
        } else {
            None
        }
    }

    /// What `count_shortest_paths` gives for `a` and `b`.
    pub open spec fn path_count(self, a: int, b: int) -> int {
        match self.path_length(a, b) {
            None => 0,
            Some(n) => if n == 0 {
                1
            } else {
                layered_walks(self.edges(), a, b, n as int, a, 0) as int % (usize::MAX as int + 1)
            },
        }
    }

    /// How often `count_shortest_paths` passes through `p` when counting from `a` to `b`.
    pub open spec fn path_visits(self, a: int, b: int, p: int) -> nat {
        match self.path_length(a, b) {
            Some(n) => if n == 0 {
                0
            } else {
                visits_from(self.edges(), a, b, n as int, p, 0)
            },
            None => 0,
        }
    }

    /// The number of shortest paths from `a` to `b`, counted (modulo `usize::MAX + 1`)
    /// layer by layer back from `b` through the strong component of `a`, and, for each node,
    /// how often a count passes through it on the way: once for each edge from it, at its
    /// level, to a node the count has reached. The nodes passed through lie on shortest walks
    /// from `a` to `b` and are not `b` (see `lemma_visited_passes_through` and
    /// `lemma_passes_on_shortest_path`). The count must reach `a`. When `a` and `b` reach
    /// each other it does, and the count is the number of shortest walks from `a` to `b`
    /// (see `lemma_count_within_component`).
    pub fn count_shortest_paths(&self, a: NodeRef, b: NodeRef) -> (r: (usize, Vec<usize>))
        requires
            self.wf(),
            a@ < self.order(),
            b@ < self.order(),
            match self.path_length(a@ as int, b@ as int) {
                Some(n) => n == 0 || layered_walks(self.edges(), a@ as int, b@ as int, n as int, a@ as int, 0) > 0,
                None => true,
            },
        ensures
            r.0 == self.path_count(a@ as int, b@ as int),
            r.1@.len() == self.order(),
            forall|p: int| 0 <= p < self.order() ==> #[trigger] r.1@[p] == self.path_visits(a@ as int, b@ as int, p),
    {
        let ghost edges = self.edges();
        let ghost nn = self.order();
        let ghost ag = a@ as int;
        let ghost bg = b@ as int;
        let ghost modulus: nat = (usize::MAX + 1) as nat;
        proof {
            lemma_node_ref_eq(a, b);
        }
        let order = graph_node_count(&self.graph);
        let mut counts: Vec<usize> = Vec::new();
        for q in 0..order
            invariant
                counts@.len() == q,
                forall|y: int| 0 <= y < q ==> #[trigger] counts@[y] == 0,
        {
            counts.push(0);
        }
        let n = match self.shortest_paths.length(a, b) {
            None => {
                return (0, counts);
            },
            Some(n) => n,
        };
        if n == 0 {
            return (1, counts);
        }
        let ai = a.index();
        let bi = b.index();
        let mut stack: HashMap<usize, usize> = HashMap::new();
        stack.insert(bi, 1);
        let list = graph_edge_list(&self.graph);
        let mut k = n;
        while k > 0
            invariant
                self.wf(),
                edges == self.edges(),
                nn == self.order(),
                ag == a@ as int,
                ag == ai,
                bg == b@ as int,
                ai < nn,
                0 < n,
                self.path_length(ag, bg) == Some(n),
                layered_walks(edges, ag, bg, n as int, ag, 0) > 0,
                modulus == usize::MAX as int + 1,
                0 <= k <= n,
                list@.len() == edges.len(),
                forall|i: int|
                    0 <= i < list@.len() ==> (#[trigger] list@[i]).0 as int == edges[i].0 && list@[i].1
                        as int == edges[i].1,
                counts@.len() == nn,
                forall|y: int| 0 <= y < nn ==> #[trigger] counts@[y] == visits_from(edges, ag, bg, n as int, y, k as int),
                forall|p: usize|
                    #[trigger] stack@.contains_key(p) == (layered_walks(edges, ag, bg, n as int, p as int, k as int) > 0),
                forall|p: usize|
                    #[trigger] stack@.contains_key(p) ==> stack@[p] == layered_walks(
                        edges,
                        ag,
                        bg,
                        n as int,
                        p as int,
                        k as int,
                    ) % modulus,
            decreases k,
        {
            k = k - 1;
            let mut stack2: HashMap<usize, usize> = HashMap::new();
            let mut j: usize = 0;
            while j < list.len()
                invariant
                    self.wf(),
                    edges == self.edges(),
                    nn == self.order(),
                    ag == a@ as int,
                    ag == ai,
                    ai < nn,
                    modulus == usize::MAX as int + 1,
                    0 <= k < n,
                    0 <= j <= list@.len(),
                    list@.len() == edges.len(),
                    forall|i: int|
                        0 <= i < list@.len() ==> (#[trigger] list@[i]).0 as int == edges[i].0
                            && list@[i].1 as int == edges[i].1,
                    self.path_length(ag, bg) == Some(n),
                    counts@.len() == nn,
                    forall|y: int|
                        0 <= y < nn ==> #[trigger] counts@[y] == visits_from(edges, ag, bg, n as int, y, k + 1)
                            + visits_at(edges, ag, bg, n as int, y, k as int, j as int),
                    forall|p: usize|
                        #[trigger] stack@.contains_key(p) == (layered_walks(edges, ag, bg, n as int, p as int, k + 1) > 0),
                    forall|p: usize|
                        #[trigger] stack@.contains_key(p) ==> stack@[p] == layered_walks(
                            edges,
                            ag,
                            bg,
                            n as int,
                            p as int,
                            k + 1,
                        ) % modulus,
                    forall|p: usize|
                        #[trigger] stack2@.contains_key(p) == (on_level(edges, ag, p as int, k as int)
                            && layered_out(edges, ag, bg, n as int, p as int, k as int, j as int) > 0),
                    forall|p: usize|
                        #[trigger] stack2@.contains_key(p) ==> stack2@[p] == layered_out(
                            edges,
                            ag,
                            bg,
                            n as int,
                            p as int,
                            k as int,
                            j as int,
                        ) % modulus,
                decreases list@.len() - j,
            {
                let (p, i) = list[j];
                let ghost before = stack2@;
                proof {
                    assert(edges[j as int] == (p as int, i as int));
                    assert forall|q: usize| q != p implies #[trigger] layered_out(
                        edges,
                        ag,
                        bg,
                        n as int,
                        q as int,
                        k as int,
                        j + 1,
                    ) == layered_out(edges, ag, bg, n as int, q as int, k as int, j as int) by {}
                    assert(layered_out(edges, ag, bg, n as int, p as int, k as int, j + 1) == layered_out(
                        edges,
                        ag,
                        bg,
                        n as int,
                        p as int,
                        k as int,
                        j as int,
                    ) + layered_walks(edges, ag, bg, n as int, i as int, k + 1));
                }
                match stack.get(&i) {
                    Some(count) => {
                        let count = *count;
                        proof {
                            lemma_shared_iff_mutually_reachable(
                                self.scc,
                                edges,
                                nn,
                                ag,
                                p as int,
                            );
                            if p as int != ag && mutually_reachable(edges, ag, p as int) {
                                lemma_reach_set_two(edges, nn as usize, ai, p);
                            }
                        }
                        let pr = NodeRef::new(p);
                        proof {
                            lemma_node_ref_eq(a, pr);
                        }
                        if self.scc.are_shared(ai, p) && self.shortest_paths.length(a, pr).unwrap() == k {
                            proof {
                                if p as int == ag {
                                    lemma_distance_self(edges, ag);
                                }
                                assert(on_level(edges, ag, p as int, k as int));
                            }
                            proof {
                                lemma_visits_from_none(edges, ag, bg, n as int, p as int, k + 1);
                                lemma_visits_at_bound(edges, ag, bg, n as int, p as int, k as int, j as int);
                            }
                            let seen = counts[p];
                            counts.set(p, seen + 1);
                            let cur = match stack2.get(&p) {
                                Some(c) => *c,
                                None => 0,
                            };
                            let next = cur.wrapping_add(count);
                            proof {
                                let o = layered_out(edges, ag, bg, n as int, p as int, k as int, j as int);
                                let w = layered_walks(edges, ag, bg, n as int, i as int, k + 1);
                                assert(cur == o % modulus);
                                assert(count == w % modulus);
                                vstd::arithmetic::div_mod::lemma_add_mod_noop(o as int, w as int, modulus as int);
                                if cur + count < modulus {
                                    vstd::arithmetic::div_mod::lemma_small_mod((cur + count) as nat, modulus);
                                } else {
                                    vstd::arithmetic::div_mod::lemma_small_mod(next as nat, modulus);
                                    vstd::arithmetic::div_mod::lemma_mod_self_0(modulus as int);
                                    vstd::arithmetic::div_mod::lemma_add_mod_noop(
                                        next as int,
                                        modulus as int,
                                        modulus as int,
                                    );
                                }
                            }
                            stack2.insert(p, next);
                        } else {
                            proof {
                                if p as int != ag && mutually_reachable(edges, ag, p as int) {
                                    assert(self.paths().rows()[ag][p as int] == distance(
                                        edges,
                                        ag,
                                        p as int,
                                    ) as usize);
                                }
                                if p as int == ag {
                                    lemma_distance_self(edges, ag);
                                }
                                assert(!on_level(edges, ag, p as int, k as int));
                            }
                        }
                    },
                    None => {
                        assert(layered_walks(edges, ag, bg, n as int, i as int, k + 1) == 0);
                    },
                }
                j = j + 1;
            }
            proof {
                assert forall|y: int| 0 <= y < nn implies #[trigger] counts@[y] == visits_from(
                    edges,
                    ag,
                    bg,
                    n as int,
                    y,
                    k as int,
                ) by {}
                assert forall|q: usize| #[trigger] stack2@.contains_key(q) == (layered_walks(
                    edges,
                    ag,
                    bg,
                    n as int,
                    q as int,
                    k as int,
                ) > 0) by {}
            }
            stack = stack2;
        }
        let c = match stack.get(&ai) {
            Some(c) => *c,
            None => 0,
        };
        (c, counts)
    }

    /// The graph itself.
    pub fn graph(&self) -> (g: &DiGraph<(), ()>)
        ensures
            graph_order(*g) == self.order(),
            graph_edges(*g) == self.edges(),
    {
        &self.graph
    }

    /// The table of shortest paths.
    pub fn shortest_paths(&self) -> (sp: &ShortestPaths)
        ensures
            *sp == self.paths(),
    {
        &self.shortest_paths
    }

    /// The strongly connected components.
    pub fn scc(&self) -> (sc: &Scc)
        ensures
            *sc == self.strong_components(),
    {
        &self.scc
    }

    /// The table of shortest path lengths, row by row.
    pub fn export_shortest_paths(&self) -> (square: Vec<Vec<usize>>)
        ensures
            square@.map_values(|r: Vec<usize>| r@) == self.paths().rows(),
    {
        let mut square: Vec<Vec<usize>> = Vec::new();
        for i in 0..self.shortest_paths.square.len()
            invariant
                square@.len() == i,
                forall|j: int| 0 <= j < i ==> (#[trigger] square@[j])@ == self.paths().rows()[j],
        {
            let row = self.shortest_paths.square[i].clone();
            assert(row@ =~= self.shortest_paths.square@[i as int]@);
            square.push(row);
        }
        assert(square@.map_values(|r: Vec<usize>| r@) =~= self.paths().rows());
        square
    }

    /// The strongly connected component of each node.
    pub fn export_scc(&self) -> (v: Vec<usize>)
        ensures
            v@ == self.strong_components().binding_view().map_values(|b: (usize, usize)| b.0),
    {
        self.scc.binding()
    }
}

/// For two nodes of one strong component the count of shortest paths is defined: the table
/// gives their distance, and the count reaches the first node. What `count_shortest_paths`
/// returns for them is then the number of shortest walks from the first to the second node,
/// which is at least one, modulo `usize::MAX + 1`.
#[verifier::spinoff_prover]
pub proof fn lemma_count_within_component(g: AnalysisGraph, a: int, b: int)
    requires
        g.wf(),
        0 <= a < g.order(),
        0 <= b < g.order(),
        mutually_reachable(g.edges(), a, b),
    ensures
        g.path_length(a, b) == Some(distance(g.edges(), a, b) as usize),
        distance(g.edges(), a, b) <= usize::MAX,
        distance(g.edges(), a, b) == 0 || layered_walks(
            g.edges(),
            a,
            b,
            distance(g.edges(), a, b) as int,
            a,
            0,
        ) >= 1,
        shortest_walks(g.edges(), a, b).finite(),
        shortest_walks(g.edges(), a, b).len() >= 1,
        g.path_count(a, b) == shortest_walks(g.edges(), a, b).len() as int % (usize::MAX as int + 1),
{
    let edges = g.edges();
    let d = distance(edges, a, b);
    lemma_layered_walks_are_shortest_walks(edges, a, b);
    if a == b {
        lemma_distance_self(edges, a);
        assert(layered_walks(edges, a, b, 0, a, 0) == 1);
    } else {
        lemma_reach_set_two(edges, g.order() as usize, a as usize, b as usize);
        assert(reachable(edges, a, b));
        assert(d <= usize::MAX);
        assert(g.paths().rows()[a][b] == d as usize);
        if d > 0 {
            lemma_layered_walk_exists(edges, a, b, 0);
        } else {
            let m0 = choose|m: nat| walk_of_len(edges, a, b, m);
            lemma_least_walk(edges, a, b, m0);
            lemma_distance_zero(edges, a, b);
        }
    }
}

} // verus!
