//! The graph algorithms that the decompositions take from `petgraph`.
//!
//! Nothing in this module is proved: each function states what the
//! documentation of the outside function promises, and the decompositions are
//! verified against those statements.

use vstd::prelude::*;
use petgraph::graphmap::GraphMap;
use petgraph::graph::{Graph, NodeIndex};
use petgraph::{Directed, Undirected};
use std::hash::BuildHasher;

verus! {

/// [`petgraph::Directed`], the marker of graphs with directed edges, made
/// known to the verifier as a type without content.
#[verifier::external_type_specification]
#[verifier::external_body]
pub struct ExDirected(Directed);

/// [`petgraph::Undirected`], the marker of graphs with undirected edges,
/// made known to the verifier as a type without content.
#[verifier::external_type_specification]
#[verifier::external_body]
pub struct ExUndirected(Undirected);

/// [`petgraph::graphmap::GraphMap`], made known to the verifier as an
/// opaque type: what a graph holds is named by [`digraph_nodes`] and
/// [`digraph_edges`].
#[verifier::external_type_specification]
#[verifier::external_body]
#[verifier::reject_recursive_types(N)]
#[verifier::reject_recursive_types(E)]
#[verifier::reject_recursive_types(Ty)]
#[verifier::reject_recursive_types(S)]
pub struct ExGraphMap<N, E, Ty, S: BuildHasher>(GraphMap<N, E, Ty, S>);

/// [`petgraph::graph::Graph`], made known to the verifier as an opaque
/// type: what a graph holds is named by [`graph_nodes`] and
/// [`graph_edges`].
#[verifier::external_type_specification]
#[verifier::external_body]
#[verifier::reject_recursive_types(N)]
#[verifier::reject_recursive_types(E)]
#[verifier::reject_recursive_types(Ty)]
#[verifier::reject_recursive_types(Ix)]
pub struct ExGraph<N, E, Ty, Ix>(Graph<N, E, Ty, Ix>);

/// The nodes of a directed graph: what [`GraphMap::add_node`] and
/// [`GraphMap::add_edge`] have put into it.
pub uninterp spec fn digraph_nodes(g: GraphMap<u32, (), Directed>) -> Set<u32>;

/// The edges of a directed graph, each as (source, target): what
/// [`GraphMap::add_edge`] has put into it.
pub uninterp spec fn digraph_edges(g: GraphMap<u32, (), Directed>) -> Set<(u32, u32)>;

/// [`GraphMap::new`]: a graph without nodes or edges.
#[verifier::external_body]
pub(crate) fn digraph_new() -> (g: GraphMap<u32, (), Directed>)
    ensures
        digraph_nodes(g) == Set::<u32>::empty(),
        digraph_edges(g) == Set::<(u32, u32)>::empty(),
{
    GraphMap::new()
}

/// [`GraphMap::add_node`]: the graph gains the node `n`, if it did not have
/// it, and no edge.
#[verifier::external_body]
pub(crate) fn digraph_add_node(g: &mut GraphMap<u32, (), Directed>, n: u32)
    ensures
        digraph_nodes(*final(g)) == digraph_nodes(*old(g)).insert(n),
        digraph_edges(*final(g)) == digraph_edges(*old(g)),
{
    g.add_node(n);
}

/// [`GraphMap::add_edge`]: the graph gains the edge from `a` to `b`, and
/// both nodes, where it did not have them.
#[verifier::external_body]
pub(crate) fn digraph_add_edge(g: &mut GraphMap<u32, (), Directed>, a: u32, b: u32)
    ensures
        digraph_nodes(*final(g)) == digraph_nodes(*old(g)).insert(a).insert(b),
        digraph_edges(*final(g)) == digraph_edges(*old(g)).insert((a, b)),
{
    g.add_edge(a, b, ());
}

/// Node `k` of `walk` has an edge to the next node.
pub open spec fn is_step(edges: Set<(u32, u32)>, walk: Seq<u32>, k: int) -> bool {
    edges.contains((walk[k], walk[k + 1]))
}

/// A walk along the edges: each node of `walk` has an edge to the next.
pub open spec fn is_walk(edges: Set<(u32, u32)>, walk: Seq<u32>) -> bool {
    &&& walk.len() >= 1
    &&& forall|k: int| 0 <= k < walk.len() - 1 ==> #[trigger] is_step(edges, walk, k)
}

/// Some walk leads from `a` to `b`.
pub open spec fn reaches(edges: Set<(u32, u32)>, a: u32, b: u32) -> bool {
    exists|walk: Seq<u32>| #[trigger] is_walk(edges, walk) && walk[0] == a && walk.last() == b
}

/// The nodes of each component, as sets.
pub open spec fn sets_of(lists: Seq<Vec<u32>>) -> Seq<Set<u32>> {
    Seq::new(lists.len(), |i: int| lists[i]@.to_set())
}

/// Every node is in some part, and every part is made of nodes.
pub open spec fn parts_cover(nodes: Set<u32>, parts: Seq<Set<u32>>) -> bool {
    &&& forall|i: int, x: u32|
        0 <= i < parts.len() && #[trigger] parts[i].contains(x) ==> nodes.contains(x)
    &&& forall|x: u32|
        nodes.contains(x) ==> exists|i: int| 0 <= i < parts.len() && #[trigger] parts[i].contains(x)
}

/// No part is empty.
#[verifier::opaque]
pub open spec fn no_part_is_empty(parts: Seq<Set<u32>>) -> bool {
    forall|i: int| 0 <= i < parts.len() ==> !(#[trigger] parts[i]).is_empty()
}

/// Two nodes share a part exactly if each reaches the other.
#[verifier::opaque]
pub open spec fn parts_are_components(edges: Set<(u32, u32)>, parts: Seq<Set<u32>>) -> bool {
    forall|i: int, j: int, x: u32, y: u32|
        0 <= i < parts.len() && 0 <= j < parts.len() && #[trigger] parts[i].contains(x)
            && #[trigger] parts[j].contains(y) ==> (i == j <==> reaches(edges, x, y) && reaches(
            edges,
            y,
            x,
        ))
}

/// No edge leads from a part to a later one.
#[verifier::opaque]
pub open spec fn parts_in_reverse_order(edges: Set<(u32, u32)>, parts: Seq<Set<u32>>) -> bool {
    forall|i: int, j: int, x: u32, y: u32|
        0 <= i < parts.len() && 0 <= j < parts.len() && #[trigger] parts[i].contains(x)
            && #[trigger] parts[j].contains(y) && edges.contains((x, y)) ==> j <= i
}

/// `parts` holds the strongly connected components of the graph, in reverse
/// topological order: every node is in a component, two nodes share a
/// component exactly if each reaches the other, no component is empty, and
/// no edge leads from a component to a later one.
pub open spec fn is_scc_decomposition(
    nodes: Set<u32>,
    edges: Set<(u32, u32)>,
    parts: Seq<Set<u32>>,
) -> bool {
    &&& parts_cover(nodes, parts)
    &&& no_part_is_empty(parts)
    &&& parts_are_components(edges, parts)
    &&& parts_in_reverse_order(edges, parts)
}

/// [`petgraph::algo::tarjan_scc`]: the strongly connected components of the
/// graph, in postorder, that is in reverse topological order.  The order of
/// the nodes within a component is left open; no node is listed twice.  The
/// outside function recurses once for every node of the longest path that
/// it follows, so it needs stack in proportion.
#[verifier::external_body]
pub(crate) fn digraph_tarjan_scc(g: &GraphMap<u32, (), Directed>) -> (sccs: Vec<Vec<u32>>)
    ensures
        is_scc_decomposition(digraph_nodes(*g), digraph_edges(*g), sets_of(sccs@)),
        forall|i: int| 0 <= i < sccs@.len() ==> (#[trigger] sccs@[i])@.no_duplicates(),
{
    petgraph::algo::tarjan_scc(g)
}

/// The weights of the nodes of an undirected graph, in the order of their
/// indices.
pub uninterp spec fn graph_nodes(g: Graph<u32, (), Undirected, usize>) -> Seq<u32>;

/// The edges of an undirected graph, each as the indices of its two ends, in
/// the order in which they were added.
pub uninterp spec fn graph_edges(g: Graph<u32, (), Undirected, usize>) -> Seq<(usize, usize)>;

/// [`Graph::default`]: a graph without nodes or edges.
#[verifier::external_body]
pub(crate) fn graph_new() -> (g: Graph<u32, (), Undirected, usize>)
    ensures
        graph_nodes(g) == Seq::<u32>::empty(),
        graph_edges(g) == Seq::<(usize, usize)>::empty(),
{
    Graph::default()
}

/// [`Graph::add_node`]: the graph gains a node of the given weight, whose
/// index is the number of nodes it had.  With `usize` indices the outside
/// function does not panic.
#[verifier::external_body]
pub(crate) fn graph_add_node(g: &mut Graph<u32, (), Undirected, usize>, weight: u32) -> (index: usize)
    ensures
        graph_nodes(*final(g)) == graph_nodes(*old(g)).push(weight),
        graph_edges(*final(g)) == graph_edges(*old(g)),
        index == graph_nodes(*old(g)).len(),
{
    g.add_node(weight).index()
}

/// [`Graph::add_edge`]: the graph gains an edge between the nodes of index
/// `a` and `b`.  The outside function panics where a node does not exist.
#[verifier::external_body]
pub(crate) fn graph_add_edge(g: &mut Graph<u32, (), Undirected, usize>, a: usize, b: usize)
    requires
        a < graph_nodes(*old(g)).len(),
        b < graph_nodes(*old(g)).len(),
    ensures
        graph_nodes(*final(g)) == graph_nodes(*old(g)),
        graph_edges(*final(g)) == graph_edges(*old(g)).push((a, b)),
{
    g.add_edge(NodeIndex::new(a), NodeIndex::new(b), ());
}

/// Some edge joins the nodes of index `a` and `b`.
pub open spec fn joined(edges: Seq<(usize, usize)>, a: int, b: int) -> bool {
    exists|e: int|
        0 <= e < edges.len() && ((#[trigger] edges[e]) == (a as usize, b as usize) || edges[e] == (
            b as usize,
            a as usize,
        ))
}

/// `mates[a]` is the node matched to node `a`, if any: mates are mutual,
/// and every matched pair is joined by an edge.
pub open spec fn is_graph_matching(
    n: nat,
    edges: Seq<(usize, usize)>,
    mates: Seq<Option<usize>>,
) -> bool {
    &&& mates.len() == n
    &&& forall|a: int|
        0 <= a < n && (#[trigger] mates[a]) is Some ==> mates[a]->0 < n && mates[mates[a]->0 as int]
            == Some(a as usize) && joined(edges, a, mates[a]->0 as int)
}

/// The nodes that a matching matches.
pub open spec fn matched_nodes(mates: Seq<Option<usize>>) -> Set<int> {
    Set::new(|a: int| 0 <= a < mates.len() && mates[a] is Some)
}

/// [`petgraph::algo::maximum_matching`], read off node by node with
/// [`petgraph::algo::Matching::mate`]: a matching of the graph, and no
/// matching of the graph matches more nodes.  The outside function panics
/// on a graph of `usize::MAX` nodes; a graph with an edge from a node to
/// itself is left out here.
#[verifier::external_body]
pub(crate) fn graph_maximum_matching(g: &Graph<u32, (), Undirected, usize>) -> (mates: Vec<
    Option<usize>,
>)
    requires
        graph_nodes(*g).len() < usize::MAX,
        forall|e: int|
            0 <= e < graph_edges(*g).len() ==> (#[trigger] graph_edges(*g)[e]).0 != graph_edges(
                *g,
            )[e].1,
    ensures
        is_graph_matching(graph_nodes(*g).len(), graph_edges(*g), mates@),
        forall|other: Seq<Option<usize>>|
            is_graph_matching(graph_nodes(*g).len(), graph_edges(*g), other) ==> (
            #[trigger] matched_nodes(other)).len() <= matched_nodes(mates@).len(),
{
    let matching = petgraph::algo::maximum_matching(g);
    (0..g.node_count()).map(|a| matching.mate(NodeIndex::new(a)).map(|b| b.index())).collect()
}

} // verus!
