//! The "must be loaded before" graph over interned identifiers, kept in a
//! `petgraph` graph map, and the properties of such graphs that the rest of
//! the library argues with.

use petgraph::algo::Cycle;
use petgraph::graphmap::DiGraphMap;
use vstd::prelude::*;

verus! {

/// `petgraph::graphmap::GraphMap`, taken as it is: what it holds is spoken
/// of through `graph_nodes` and `graph_edges`.
#[verifier::external_type_specification]
#[verifier::external_body]
#[verifier::reject_recursive_types(N)]
#[verifier::reject_recursive_types(E)]
#[verifier::reject_recursive_types(Ty)]
#[verifier::reject_recursive_types(S)]
pub struct ExGraphMap<N, E, Ty, S: core::hash::BuildHasher>(
    petgraph::graphmap::GraphMap<N, E, Ty, S>,
);

/// `petgraph::Directed`, the marker of graphs with directed edges.
#[verifier::external_type_specification]
#[verifier::external_body]
pub struct ExDirected(petgraph::Directed);

/// `petgraph::algo::Cycle`, the report that a graph has a cycle.
#[verifier::external_type_specification]
#[verifier::external_body]
#[verifier::reject_recursive_types(N)]
pub struct ExCycle<N>(petgraph::algo::Cycle<N>);

/// The nodes of a graph map, in the order in which it lists them.
pub uninterp spec fn graph_nodes(g: DiGraphMap<u32, ()>) -> Seq<u32>;

/// The edges of a graph map as (source, target), in the order in which it
/// lists them.
pub uninterp spec fn graph_edges(g: DiGraphMap<u32, ()>) -> Seq<(u32, u32)>;

/// The node that a cycle report carries.
pub uninterp spec fn cycle_node(c: Cycle<u32>) -> u32;

/// `nodes`, with `n` appended unless it is there already.
pub open spec fn with_node(nodes: Seq<u32>, n: u32) -> Seq<u32> {
    if nodes.contains(n) {
        nodes
    } else {
        nodes.push(n)
    }
}

/// `edges`, with `e` appended unless it is there already.
pub open spec fn with_edge(edges: Seq<(u32, u32)>, e: (u32, u32)) -> Seq<(u32, u32)> {
    if edges.contains(e) {
        edges
    } else {
        edges.push(e)
    }
}

/// `walk` is a non-empty sequence of nodes, each joined to the next by an
/// edge.
pub open spec fn is_walk<T>(edges: Set<(T, T)>, walk: Seq<T>) -> bool {
    &&& walk.len() >= 1
    &&& forall|i: int, j: int|
        0 <= i && j == i + 1 && j < walk.len() ==> edges.contains(
            (#[trigger] walk[i], #[trigger] walk[j]),
        )
}

/// `to` can be reached from `from` by following one edge or more: some
/// walk starts at `from`, and its last node has an edge to `to`.
pub open spec fn reaches<T>(edges: Set<(T, T)>, from: T, to: T) -> bool {
    exists|walk: Seq<T>| #[trigger]
        is_walk(edges, walk) && walk[0] == from && edges.contains((walk.last(), to))
}

/// `n` lies on a cycle: it reaches itself. A self-loop is a cycle of one
/// node.
pub open spec fn on_cycle<T>(edges: Set<(T, T)>, n: T) -> bool {
    reaches(edges, n, n)
}

/// Some node lies on a cycle.
pub open spec fn has_cycle<T>(edges: Set<(T, T)>) -> bool {
    exists|n: T| #[trigger] on_cycle(edges, n)
}

/// `order` lists every node of `nodes` exactly once, and every edge goes
/// from an earlier position to a later one.
pub open spec fn is_topological_order<T>(order: Seq<T>, nodes: Set<T>, edges: Set<(T, T)>) -> bool {
    &&& order.no_duplicates()
    &&& order.to_set() == nodes
    &&& forall|i: int, j: int|
        0 <= i < order.len() && 0 <= j < order.len() && edges.contains(
            (#[trigger] order[i], #[trigger] order[j]),
        ) ==> i < j
}

/// Two sequences that hold the same elements, each of them once, are
/// permutations of one another.
pub proof fn lemma_same_elements_once<T>(a: Seq<T>, b: Seq<T>)
    requires
        a.no_duplicates(),
        b.no_duplicates(),
        a.to_set() == b.to_set(),
    ensures
        a.to_multiset() == b.to_multiset(),
        a.len() == b.len(),
{
    a.lemma_multiset_has_no_duplicates();
    b.lemma_multiset_has_no_duplicates();
    a.to_multiset_ensures();
    b.to_multiset_ensures();
    assert forall|x: T| a.to_multiset().count(x) == b.to_multiset().count(x) by {
        assert(a.contains(x) <==> a.to_set().contains(x));
    }
    assert(a.to_multiset() =~= b.to_multiset());
}

/// Every edge joins two nodes of `nodes`.
pub open spec fn edges_within<T>(edges: Set<(T, T)>, nodes: Set<T>) -> bool {
    forall|e: (T, T)| #[trigger] edges.contains(e) ==> nodes.contains(e.0) && nodes.contains(e.1)
}

/// In a topological order, the start of a walk stands before every node
/// that the end of the walk has an edge to.
proof fn lemma_walk_ascends<T>(order: Seq<T>, nodes: Set<T>, edges: Set<(T, T)>, walk: Seq<T>, t: T)
    requires
        is_topological_order(order, nodes, edges),
        edges_within(edges, nodes),
        is_walk(edges, walk),
        edges.contains((walk.last(), t)),
    ensures
        order.contains(walk[0]),
        order.contains(t),
        order.index_of(walk[0]) < order.index_of(t),
    decreases walk.len(),
{
    let last = walk.last();
    if walk.len() > 1 {
        let rest = walk.drop_last();
        lemma_walk_ascends(order, nodes, edges, rest, last);
    }
}

/// In a topological order, a node stands before every node that it
/// reaches.
pub proof fn lemma_reached_comes_later<T>(
    order: Seq<T>,
    nodes: Set<T>,
    edges: Set<(T, T)>,
    from: T,
    to: T,
)
    requires
        is_topological_order(order, nodes, edges),
        edges_within(edges, nodes),
        reaches(edges, from, to),
    ensures
        order.contains(from),
        order.contains(to),
        order.index_of(from) < order.index_of(to),
{
    let walk = choose|walk: Seq<T>| #[trigger]
        is_walk(edges, walk) && walk[0] == from && edges.contains((walk.last(), to));
    lemma_walk_ascends(order, nodes, edges, walk, to);
}

/// A node that every other node reaches stands last in every topological
/// order.
pub proof fn lemma_reached_by_all_is_last<T>(
    order: Seq<T>,
    nodes: Set<T>,
    edges: Set<(T, T)>,
    sink: T,
)
    requires
        is_topological_order(order, nodes, edges),
        edges_within(edges, nodes),
        nodes.contains(sink),
        forall|n: T| nodes.contains(n) && n != sink ==> #[trigger] reaches(edges, n, sink),
    ensures
        order.len() > 0,
        order.last() == sink,
{
    let last = order.last();
    if last != sink {
        lemma_reached_comes_later(order, nodes, edges, last, sink);
    }
}

/// A graph whose nodes can be put in topological order has no cycle.
pub proof fn lemma_topological_order_excludes_cycle<T>(
    order: Seq<T>,
    nodes: Set<T>,
    edges: Set<(T, T)>,
)
    requires
        is_topological_order(order, nodes, edges),
        edges_within(edges, nodes),
    ensures
        !has_cycle(edges),
{
    assert forall|n: T| !on_cycle(edges, n) by {
        if on_cycle(edges, n) {
            lemma_reached_comes_later(order, nodes, edges, n, n);
        }
    }
}

/// `petgraph::graphmap::GraphMap::new`: the new graph has no node and no
/// edge.
#[verifier::external_body]
pub(crate) fn graph_new() -> (g: DiGraphMap<u32, ()>)
    ensures
        graph_nodes(g) == Seq::<u32>::empty(),
        graph_edges(g) == Seq::<(u32, u32)>::empty(),
{
    DiGraphMap::new()
}

/// `petgraph::graphmap::GraphMap::contains_node`: whether `n` is a node.
#[verifier::external_body]
pub(crate) fn graph_contains_node(g: &DiGraphMap<u32, ()>, n: u32) -> (r: bool)
    ensures
        r == graph_nodes(*g).contains(n),
{
    g.contains_node(n)
}

/// `petgraph::graphmap::GraphMap::add_node`: a node that is new goes to the
/// end of the node list, one that is there changes nothing; the edges stay.
#[verifier::external_body]
pub(crate) fn graph_add_node(g: &mut DiGraphMap<u32, ()>, n: u32)
    ensures
        graph_nodes(*final(g)) == with_node(graph_nodes(*old(g)), n),
        graph_edges(*final(g)) == graph_edges(*old(g)),
{
    g.add_node(n);
}

/// `petgraph::graphmap::GraphMap::add_edge`: an edge that is there changes
/// nothing. A new edge goes to the end of the edge list, and its source and
/// then its target go to the end of the node list where they are missing.
#[verifier::external_body]
pub(crate) fn graph_add_edge(g: &mut DiGraphMap<u32, ()>, a: u32, b: u32)
    ensures
        graph_edges(*final(g)) == with_edge(graph_edges(*old(g)), (a, b)),
        graph_nodes(*final(g)) == if graph_edges(*old(g)).contains((a, b)) {
            graph_nodes(*old(g))
        } else {
            with_node(with_node(graph_nodes(*old(g)), a), b)
        },
{
    g.add_edge(a, b, ());
}

/// `petgraph::graphmap::GraphMap::nodes`: the nodes, as the graph lists
/// them.
#[verifier::external_body]
pub(crate) fn graph_node_list(g: &DiGraphMap<u32, ()>) -> (r: Vec<u32>)
    ensures
        r@ == graph_nodes(*g),
{
    g.nodes().collect()
}

/// `petgraph::graphmap::GraphMap::all_edges`: the edges, as the graph lists
/// them, each as (source, target).
#[verifier::external_body]
pub(crate) fn graph_edge_list(g: &DiGraphMap<u32, ()>) -> (r: Vec<(u32, u32)>)
    ensures
        r@ == graph_edges(*g),
{
    g.all_edges().map(|e| (e.0, e.1)).collect()
}

/// `petgraph::algo::toposort`: for a graph without a cycle, all its nodes,
/// each once and each before its successors; otherwise a report that
/// carries a node of some cycle.
#[verifier::external_body]
pub(crate) fn graph_toposort(g: &DiGraphMap<u32, ()>) -> (r: Result<Vec<u32>, Cycle<u32>>)
    ensures
        match r {
            Ok(order) => is_topological_order(
                order@,
                graph_nodes(*g).to_set(),
                graph_edges(*g).to_set(),
            ),
            Err(c) => on_cycle(graph_edges(*g).to_set(), cycle_node(c)),
        },
{
    petgraph::algo::toposort(g, None)
}

/// `petgraph::algo::Cycle::node_id`: the node that the report carries.
#[verifier::external_body]
pub(crate) fn cycle_node_id(c: &Cycle<u32>) -> (r: u32)
    ensures
        r == cycle_node(*c),
{
    c.node_id()
}

} // verus!
