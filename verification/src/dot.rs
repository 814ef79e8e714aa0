//! The plan as a diagram: one node per vertex, labelled with its name, and
//! one unlabelled edge per edge, in Graphviz' DOT language as `petgraph`
//! writes it.

use petgraph::graph::{Graph, NodeIndex};
use vstd::hash_map::StringHashMap;
use vstd::prelude::*;
use vstd::string::*;

use crate::order::Name;
use crate::plan::TopoSortResult;

verus! {

/// `petgraph::graph::Graph`, taken as it is: what it holds is spoken of
/// through `diagram_labels` and `diagram_links`.
#[verifier::external_type_specification]
#[verifier::external_body]
#[verifier::reject_recursive_types(N)]
#[verifier::reject_recursive_types(E)]
#[verifier::reject_recursive_types(Ty)]
#[verifier::reject_recursive_types(Ix)]
pub struct ExGraph<N, E, Ty, Ix>(petgraph::graph::Graph<N, E, Ty, Ix>);

/// The labels of the nodes of a diagram, each at the index of its node.
pub uninterp spec fn diagram_labels(g: Graph<String, i32>) -> Seq<Seq<char>>;

/// The edges of a diagram in the order in which they were added, each as
/// the indices of its source and its target.
pub uninterp spec fn diagram_links(g: Graph<String, i32>) -> Seq<(int, int)>;

/// The DOT text of the directed graph whose nodes have the labels `labels`
/// and whose edges, without labels, are `links`.
pub uninterp spec fn dot_text(labels: Seq<Seq<char>>, links: Seq<(int, int)>) -> Seq<char>;

/// `petgraph::graph::Graph::new`: a directed graph without nodes and edges.
#[verifier::external_body]
fn diagram_new() -> (g: Graph<String, i32>)
    ensures
        diagram_labels(g) == Seq::<Name>::empty(),
        diagram_links(g) == Seq::<(int, int)>::empty(),
{
    Graph::new()
}

/// `petgraph::graph::Graph::add_node`: the new node gets the next index,
/// which is returned; the edges stay. The graph must have room for it.
#[verifier::external_body]
fn diagram_add_node(g: &mut Graph<String, i32>, label: String) -> (index: usize)
    requires
        diagram_labels(*old(g)).len() < u32::MAX,
    ensures
        index == diagram_labels(*old(g)).len(),
        diagram_labels(*final(g)) == diagram_labels(*old(g)).push(label@),
        diagram_links(*final(g)) == diagram_links(*old(g)),
{
    g.add_node(label).index()
}

/// `petgraph::graph::Graph::add_edge`: an edge from node `from` to node
/// `to` is added behind those that are there; the nodes stay. Both nodes
/// must exist, and the graph must have room for the edge.
#[verifier::external_body]
fn diagram_add_edge(g: &mut Graph<String, i32>, from: usize, to: usize)
    requires
        from < diagram_labels(*old(g)).len(),
        to < diagram_labels(*old(g)).len(),
        diagram_links(*old(g)).len() < u32::MAX,
    ensures
        diagram_labels(*final(g)) == diagram_labels(*old(g)),
        diagram_links(*final(g)) == diagram_links(*old(g)).push((from as int, to as int)),
{
    g.add_edge(NodeIndex::new(from), NodeIndex::new(to), 0);
}

/// `petgraph::dot::Dot` with `Config::EdgeNoLabel`, written out: the DOT
/// text of the diagram.
#[verifier::external_body]
fn diagram_render(g: &Graph<String, i32>) -> (text: String)
    ensures
        text@ == dot_text(diagram_labels(*g), diagram_links(*g)),
{
    format!("{}", petgraph::dot::Dot::with_config(g, &[petgraph::dot::Config::EdgeNoLabel]))
}

/// The index of the node that stands for `name`: the last place at which
/// `name` occurs in `labels`.
pub open spec fn node_of(labels: Seq<Name>, name: Name) -> int {
    choose|i: int|
        0 <= i < labels.len() && labels[i] == name && forall|j: int|
            i < j < labels.len() ==> labels[j] != name
}

/// The edges of `result` as pairs of node indices.
pub open spec fn links_of(result: TopoSortResult) -> Seq<(int, int)> {
    Seq::new(
        result.edges@.len(),
        |i: int|
            (
                node_of(result.vertex_names(), result.edges@[i].src@),
                node_of(result.vertex_names(), result.edges@[i].dst@),
            ),
    )
}

/// Both ends of every edge of `result` are among its vertices, and the
/// vertices and the edges are few enough for a diagram.
pub open spec fn drawable(result: TopoSortResult) -> bool {
    &&& result.vertices@.len() <= u32::MAX
    &&& result.edges@.len() <= u32::MAX
    &&& forall|i: int|
        0 <= i < result.edges@.len() ==> result.vertex_names().contains(
            (#[trigger] result.edges@[i]).src@,
        )
            && result.vertex_names().contains(result.edges@[i].dst@)
}

/// A plan whose parts agree can be drawn, unless it is too large.
pub proof fn lemma_drawable(result: TopoSortResult)
    requires
        result.wf(),
        result.vertices@.len() <= u32::MAX,
        result.edges@.len() <= u32::MAX,
    ensures
        drawable(result),
{
    let pairs = result.edge_pairs();
    assert forall|i: int| 0 <= i < result.edges@.len() implies {
        &&& result.vertex_names().contains((#[trigger] result.edges@[i]).src@)
        &&& result.vertex_names().contains(result.edges@[i].dst@)
    } by {
        assert(pairs.to_set().contains(pairs[i]));
    }
}

/// Whether `result` can be drawn.
pub fn is_drawable(result: &TopoSortResult) -> (r: bool)
    ensures
        r == drawable(*result),
{
    if result.vertices.len() > u32::MAX as usize || result.edges.len() > u32::MAX as usize {
        return false;
    }
    let ghost labels = result.vertex_names();
    let mut known: StringHashMap<()> = StringHashMap::new();
    let mut k: usize = 0;
    while k < result.vertices.len()
        invariant
            k <= result.vertices@.len(),
            labels == result.vertex_names(),
            forall|n: Name| known@.contains_key(n) <==> labels.take(k as int).contains(n),
        decreases result.vertices@.len() - k,
    {
        known.insert(result.vertices[k].clone(), ());
        proof {
            let next = labels.take(k + 1);
            assert forall|n: Name| known@.contains_key(n) <==> next.contains(n) by {
                if n == labels[k as int] {
                    assert(next[k as int] == n);
                }
            }
        }
        k += 1;
    }
    assert(labels.take(k as int) =~= labels);
    let mut e: usize = 0;
    while e < result.edges.len()
        invariant
            e <= result.edges@.len(),
            labels == result.vertex_names(),
            forall|n: Name| known@.contains_key(n) <==> labels.contains(n),
            forall|i: int|
                0 <= i < e ==> labels.contains((#[trigger] result.edges@[i]).src@)
                    && labels.contains(
                    result.edges@[i].dst@,
                ),
        decreases result.edges@.len() - e,
    {
        let edge = &result.edges[e];
        if !known.contains_key(edge.src.as_str()) || !known.contains_key(edge.dst.as_str()) {
            return false;
        }
        e += 1;
    }
    true
}

/// The diagram of `result` as DOT text: a node for each vertex in the order
/// of `vertices`, labelled with its name, then an edge for each edge in the
/// order of `edges`.
pub fn export_to_dot(result: &TopoSortResult) -> (text: String)
    requires
        drawable(*result),
    ensures
        text@ == dot_text(result.vertex_names(), links_of(*result)),
{
    let ghost labels = result.vertex_names();
    let mut graph_to_export = diagram_new();
    let mut vertex_to_index: StringHashMap<usize> = StringHashMap::new();
    let mut k: usize = 0;
    while k < result.vertices.len()
        invariant
            k <= result.vertices@.len(),
            result.vertices@.len() <= u32::MAX,
            labels == result.vertex_names(),
            diagram_labels(graph_to_export) == labels.take(k as int),
            diagram_links(graph_to_export) == Seq::<(int, int)>::empty(),
            forall|n: Name| vertex_to_index@.contains_key(n) <==> labels.take(k as int).contains(n),
            forall|n: Name| #[trigger]
                vertex_to_index@.contains_key(n) ==> vertex_to_index@[n] == node_of(
                    labels.take(k as int),
                    n,
                ),
        decreases result.vertices@.len() - k,
    {
        let v = &result.vertices[k];
        let idx = diagram_add_node(&mut graph_to_export, v.clone());
        vertex_to_index.insert(v.clone(), idx);
        proof {
            let done = labels.take(k as int);
            let next = labels.take(k + 1);
            assert forall|n: Name| vertex_to_index@.contains_key(n) <==> next.contains(n) by {
                if n == v@ {
                    assert(next[k as int] == n);
                }
            }
            assert forall|n: Name| #[trigger]
                vertex_to_index@.contains_key(n) implies vertex_to_index@[n] == node_of(
                next,
                n,
            ) by {
                if n != v@ {
                    lemma_node_of(done, n);
                } else {
                    assert(next[k as int] == n);
                }
            }
        }
        k += 1;
    }
    assert(labels.take(k as int) =~= labels);
    let mut e: usize = 0;
    while e < result.edges.len()
        invariant
            e <= result.edges@.len(),
            drawable(*result),
            labels == result.vertex_names(),
            diagram_labels(graph_to_export) == labels,
            diagram_links(graph_to_export) == links_of(*result).take(e as int),
            forall|n: Name| vertex_to_index@.contains_key(n) <==> labels.contains(n),
            forall|n: Name| #[trigger]
                vertex_to_index@.contains_key(n) ==> vertex_to_index@[n] == node_of(labels, n),
        decreases result.edges@.len() - e,
    {
        let edge = &result.edges[e];
        proof {
            lemma_node_of(labels, edge.src@);
            lemma_node_of(labels, edge.dst@);
        }
        let from_idx = *vertex_to_index.get(edge.src.as_str()).unwrap();
        let to_idx = *vertex_to_index.get(edge.dst.as_str()).unwrap();
        diagram_add_edge(&mut graph_to_export, from_idx, to_idx);
        e += 1;
    }
    assert(links_of(*result).take(e as int) =~= links_of(*result));
    diagram_render(&graph_to_export)
}

/// A name that occurs in `labels` has a last place there.
pub proof fn lemma_node_of(labels: Seq<Name>, name: Name)
    requires
        labels.contains(name),
    ensures
        0 <= node_of(labels, name) < labels.len(),
        labels[node_of(labels, name)] == name,
        forall|j: int| node_of(labels, name) < j < labels.len() ==> labels[j] != name,
    decreases labels.len(),
{
    if labels.last() != name {
        let rest = labels.drop_last();
        let at = choose|i: int| 0 <= i < labels.len() && labels[i] == name;
        assert(rest[at] == name);
        lemma_node_of(rest, name);
        let i = node_of(rest, name);
        assert(labels[i] == name && forall|j: int| i < j < labels.len() ==> labels[j] != name) by {
            assert forall|j: int| i < j < labels.len() implies labels[j] != name by {
                if j < rest.len() {
                    assert(rest[j] != name);
                }
            }
        }
    }
}

} // verus!
