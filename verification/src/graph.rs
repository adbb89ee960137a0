//! Connected components of an undirected graph whose nodes are numbered
//! from zero.

use crate::chainable::rows;
use vstd::prelude::*;

verus! {

/// `petgraph::graph::Graph`, carried as an opaque value.
#[verifier::external_type_specification]
#[verifier::external_body]
#[verifier::reject_recursive_types(N)]
#[verifier::reject_recursive_types(E)]
#[verifier::reject_recursive_types(Ty)]
#[verifier::reject_recursive_types(Ix)]
pub struct ExGraph<N, E, Ty, Ix>(petgraph::graph::Graph<N, E, Ty, Ix>);

/// `petgraph::Undirected`, the marker of graphs whose edges have no
/// direction.
#[verifier::external_type_specification]
#[verifier::external_body]
pub struct ExUndirected(petgraph::Undirected);

/// The number of nodes of a graph. Its nodes are numbered from zero in the
/// order in which they were added.
pub uninterp spec fn graph_nodes(graph: petgraph::graph::Graph<(), (), petgraph::Undirected, usize>) -> nat;

/// The edges of a graph as pairs of node numbers, in the order in which
/// they were added.
pub uninterp spec fn graph_edges(
    graph: petgraph::graph::Graph<(), (), petgraph::Undirected, usize>,
) -> Seq<(int, int)>;

/// Whether an edge joins `a` and `b`, in either direction.
pub open spec fn adjacent(edges: Seq<(int, int)>, a: int, b: int) -> bool {
    edges.contains((a, b)) || edges.contains((b, a))
}

/// Whether each node of `path` but the first is joined to the one before it.
pub open spec fn is_path(edges: Seq<(int, int)>, path: Seq<int>) -> bool {
    &&& path.len() > 0
    &&& forall|k: int| 0 <= k < path.len() - 1 ==> adjacent(edges, #[trigger] path[k], path[k + 1])
}

/// Whether a path leads from `a` to `b`. Every node is connected to itself.
pub open spec fn connected(edges: Seq<(int, int)>, a: int, b: int) -> bool {
    exists|path: Seq<int>| #[trigger] is_path(edges, path) && path.first() == a && path.last() == b
}

/// Whether `parts` splits the numbers below `n` into non-empty groups: each
/// number is in one group, at one place.
pub open spec fn is_partition(parts: Seq<Seq<usize>>, n: nat) -> bool {
    &&& forall|c: int| 0 <= c < parts.len() ==> (#[trigger] parts[c]).len() > 0
    &&& forall|c: int, k: int|
        0 <= c < parts.len() && 0 <= k < parts[c].len() ==> (#[trigger] parts[c][k]) < n
    &&& forall|a: usize| a < n ==> #[trigger] together(parts, a, a)
    &&& forall|c: int, k: int, d: int, l: int|
        0 <= c < parts.len() && 0 <= k < parts[c].len() && 0 <= d < parts.len() && 0 <= l
            < parts[d].len() && #[trigger] parts[c][k] == #[trigger] parts[d][l] ==> c == d && k == l
}

/// Whether one group of `parts` holds both `a` and `b`.
pub open spec fn together(parts: Seq<Seq<usize>>, a: usize, b: usize) -> bool {
    exists|c: int| 0 <= c < parts.len() && (#[trigger] parts[c]).contains(a) && parts[c].contains(b)
}

/// Whether `parts` are the connected components of the graph with nodes
/// `0..n` and the given edges.
pub open spec fn is_components(parts: Seq<Seq<usize>>, n: nat, edges: Seq<(int, int)>) -> bool {
    &&& is_partition(parts, n)
    &&& forall|a: usize, b: usize|
        a < n && b < n ==> (#[trigger] together(parts, a, b) <==> connected(
            edges,
            a as int,
            b as int,
        ))
}

/// `petgraph::graph::Graph::with_capacity` with no room asked for: a graph
/// without nodes and edges.
#[verifier::external_body]
pub(crate) fn graph_new() -> (graph: petgraph::graph::Graph<(), (), petgraph::Undirected, usize>)
    ensures
        graph_nodes(graph) == 0,
        graph_edges(graph) == Seq::<(int, int)>::empty(),
{
    petgraph::graph::Graph::with_capacity(0, 0)
}

/// `petgraph::graph::Graph::add_node`: the new node gets the next number, and
/// the edges stay. With `usize` numbers the graph is never full.
#[verifier::external_body]
pub(crate) fn graph_add_node(
    graph: &mut petgraph::graph::Graph<(), (), petgraph::Undirected, usize>,
) -> (at: usize)
    ensures
        at == graph_nodes(*old(graph)),
        graph_nodes(*final(graph)) == graph_nodes(*old(graph)) + 1,
        graph_edges(*final(graph)) == graph_edges(*old(graph)),
{
    graph.add_node(()).index()
}

/// `petgraph::graph::Graph::add_edge` between two nodes that exist: the edge
/// is added behind the others, and the nodes stay.
#[verifier::external_body]
pub(crate) fn graph_add_edge(
    graph: &mut petgraph::graph::Graph<(), (), petgraph::Undirected, usize>,
    a: usize,
    b: usize,
)
    requires
        a < graph_nodes(*old(graph)),
        b < graph_nodes(*old(graph)),
    ensures
        graph_nodes(*final(graph)) == graph_nodes(*old(graph)),
        graph_edges(*final(graph)) == graph_edges(*old(graph)).push((a as int, b as int)),
{
    graph.add_edge(petgraph::graph::NodeIndex::new(a), petgraph::graph::NodeIndex::new(b), ());
}

/// `petgraph::algo::kosaraju_scc`, each node handed out as its number. On an
/// undirected graph the components found are the connected components: they
/// split the nodes, and two nodes share a component exactly when a path
/// joins them. The order of the components and within them is the
/// algorithm's.
#[verifier::external_body]
pub(crate) fn graph_components(
    graph: &petgraph::graph::Graph<(), (), petgraph::Undirected, usize>,
) -> (parts: Vec<Vec<usize>>)
    ensures
        is_components(rows(parts@), graph_nodes(*graph), graph_edges(*graph)),
{
    petgraph::algo::kosaraju_scc(graph).into_iter().map(
        |part| part.into_iter().map(|node| node.index()).collect(),
    ).collect()
}

} // verus!
