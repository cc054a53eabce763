//! The graph store: a `petgraph` directed graph whose nodes carry the integer
//! labels of the data set, seen by the rest of the library as adjacency lists.

use crate::paths::with_edge;
use petgraph::graph::NodeIndex;
use vstd::prelude::*;

verus! {

/// `petgraph::graph::Graph`, taken as it is: the library sees nothing inside
/// a graph and learns of its contents through the functions below.
#[verifier::external_type_specification]
#[verifier::external_body]
#[verifier::reject_recursive_types(N)]
#[verifier::reject_recursive_types(E)]
#[verifier::reject_recursive_types(Ty)]
#[verifier::reject_recursive_types(Ix)]
pub struct ExGraph<N, E, Ty, Ix>(petgraph::graph::Graph<N, E, Ty, Ix>);

/// `petgraph::Directed`, the marker of a graph whose edges have a direction.
#[verifier::external_type_specification]
#[verifier::external_body]
pub struct ExDirected(petgraph::Directed);

/// A directed graph whose node weights are the labels of the data set and
/// whose edges carry no weight.
pub type DiGraph = petgraph::graph::Graph<u32, (), petgraph::Directed, u32>;

/// The out-neighbours of every node of `g`, by node index: entry `a` lists the
/// targets of the edges that leave node `a`, in the order in which
/// `Graph::neighbors` walks them. A target appears once per parallel edge.
pub uninterp spec fn successors(g: DiGraph) -> Seq<Seq<usize>>;

/// The labels (node weights) of `g`, by node index.
pub uninterp spec fn labels(g: DiGraph) -> Seq<u32>;

/// The number of edges of `g`.
pub uninterp spec fn edge_total(g: DiGraph) -> nat;

/// `Graph::new`: a graph without nodes or edges.
#[verifier::external_body]
pub(crate) fn new_graph() -> (g: DiGraph)
    ensures
        successors(g) == Seq::<Seq<usize>>::empty(),
        labels(g) == Seq::<u32>::empty(),
        edge_total(g) == 0,
{
    petgraph::graph::Graph::new()
}

/// `Graph::add_node`: appends a node with the given label and without edges,
/// and returns its index. The call panics once `u32::MAX` nodes exist.
#[verifier::external_body]
pub(crate) fn add_node(g: &mut DiGraph, label: u32) -> (index: usize)
    requires
        labels(*old(g)).len() < u32::MAX,
    ensures
        index == labels(*old(g)).len(),
        labels(*final(g)) == labels(*old(g)).push(label),
        successors(*final(g)) == successors(*old(g)).push(Seq::<usize>::empty()),
        edge_total(*final(g)) == edge_total(*old(g)),
{
    g.add_node(label).index()
}

/// `Graph::add_edge`: adds an edge from node `a` to node `b`, which
/// `Graph::neighbors` then lists before the other edges that leave `a`. The
/// call panics where `a` or `b` is no node, and once `u32::MAX` edges exist.
#[verifier::external_body]
pub(crate) fn add_edge(g: &mut DiGraph, a: usize, b: usize)
    requires
        a < successors(*old(g)).len(),
        b < successors(*old(g)).len(),
        edge_total(*old(g)) < u32::MAX,
    ensures
        successors(*final(g)) == with_edge(successors(*old(g)), a as int, b),
        labels(*final(g)) == labels(*old(g)),
        edge_total(*final(g)) == edge_total(*old(g)) + 1,
{
    g.add_edge(NodeIndex::new(a), NodeIndex::new(b), ());
}

/// `Graph::node_count`: the number of nodes, which is the length of both
/// `successors` and `labels`. A graph indexed by `u32` never holds more than
/// `u32::MAX` nodes, because `Graph::add_node` refuses to go beyond.
#[verifier::external_body]
pub(crate) fn node_count(g: &DiGraph) -> (n: usize)
    ensures
        n == successors(*g).len(),
        n == labels(*g).len(),
        n <= u32::MAX,
{
    g.node_count()
}

/// `Graph::neighbors`, collected: the targets of the edges leaving node `a`,
/// most recently added edge first, every one of them a node of the graph.
#[verifier::external_body]
pub(crate) fn neighbors(g: &DiGraph, a: usize) -> (out: Vec<usize>)
    requires
        a < successors(*g).len(),
    ensures
        out@ == successors(*g)[a as int],
        forall|j: int| 0 <= j < out.len() ==> out[j] < successors(*g).len(),
{
    g.neighbors(NodeIndex::new(a)).map(|w| w.index()).collect()
}

} // verus!
