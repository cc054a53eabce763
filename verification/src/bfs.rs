//! Breadth-first search from one source over the out-edges of the graph.

use crate::graph::{neighbors, node_count, successors, DiGraph};
use crate::paths::{
    has_walk, hops, is_distance, lemma_distance_unique, lemma_walk_extends, lemma_walk_last_edge,
    reachable,
};
use vstd::prelude::*;

verus! {

/// What one search from a source found.
pub struct Traversal {
    /// The nodes that the source reaches, in the order in which the search met
    /// them; the source comes first.
    pub order: Vec<usize>,
    /// By node index: the hop distance from the source, `None` where the source
    /// does not reach the node.
    pub dist: Vec<Option<usize>>,
}

/// `order`, followed by those of `targets` that it does not hold yet: each
/// once, in the order of `targets`.
pub open spec fn discover(order: Seq<usize>, targets: Seq<usize>) -> Seq<usize>
    decreases targets.len(),
{
    if targets.len() == 0 {
        order
    } else {
        let met = discover(order, targets.drop_last());
        if met.contains(targets.last()) {
            met
        } else {
            met.push(targets.last())
        }
    }
}

/// The order of discovery once the nodes `order[head ..]` have been expanded
/// in turn, each adding its undiscovered out-neighbours at the end.
pub open spec fn search_from(adj: Seq<Seq<usize>>, order: Seq<usize>, head: nat) -> Seq<usize>
    decreases adj.len() - head,
{
    if head < order.len() && head < adj.len() && order[head as int] < adj.len() {
        search_from(adj, discover(order, adj[order[head as int] as int]), head + 1)
    } else {
        order
    }
}

/// The order in which a first-in-first-out search from `s` meets the nodes.
pub open spec fn discovery_order(adj: Seq<Seq<usize>>, s: usize) -> Seq<usize> {
    search_from(adj, seq![s], 0)
}

/// `order` holds the node `v`.
pub open spec fn lists(order: Seq<usize>, v: int) -> bool {
    exists|p: int| 0 <= p < order.len() && #[trigger] order[p] == v
}

/// A distance label as a mathematical value.
pub open spec fn as_hops(label: Option<usize>) -> Option<nat> {
    match label {
        Some(d) => Some(d as nat),
        None => None,
    }
}

/// `dist` labels every node with its hop distance from `s`.
pub open spec fn exact_distances(adj: Seq<Seq<usize>>, s: int, dist: Seq<Option<usize>>) -> bool {
    &&& dist.len() == adj.len()
    &&& forall|v: int| 0 <= v < adj.len() ==> as_hops(#[trigger] dist[v]) == hops(adj, s, v)
}

/// `order` lists the labelled nodes, each once, nearest first.
pub open spec fn lists_by_distance(order: Seq<usize>, dist: Seq<Option<usize>>) -> bool {
    &&& order.no_duplicates()
    &&& order.len() <= dist.len()
    &&& forall|p: int|
        0 <= p < order.len() ==> (#[trigger] order[p]) < dist.len() && dist[order[p] as int].is_some()
            && dist[order[p] as int].unwrap() <= p
    &&& forall|v: int|
        0 <= v < dist.len() && (#[trigger] dist[v]).is_some() ==> lists(order, v)
    &&& forall|p: int, q: int|
        0 <= p <= q < order.len() ==> dist[#[trigger] order[p] as int].unwrap()
            <= dist[#[trigger] order[q] as int].unwrap()
}

impl Traversal {
    /// This is the outcome of the search of `adj` from `s`: the distances are
    /// the hop distances, and the order is the first-in-first-out discovery
    /// order, which lists exactly the reachable nodes, nearest first.
    pub open spec fn is_search_of(&self, adj: Seq<Seq<usize>>, s: usize) -> bool {
        &&& exact_distances(adj, s as int, self.dist@)
        &&& lists_by_distance(self.order@, self.dist@)
        &&& self.order@ == discovery_order(adj, s)
        &&& self.order@.len() >= 1
        &&& self.order@[0] == s
    }
}

/// The number of labelled nodes among the first `m`.
spec fn labelled(dist: Seq<Option<usize>>, m: nat) -> nat
    decreases m,
{
    if m == 0 {
        0
    } else {
        labelled(dist, (m - 1) as nat) + if dist[m - 1].is_some() {
            1nat
        } else {
            0nat
        }
    }
}

proof fn lemma_labelled_bound(dist: Seq<Option<usize>>, m: nat)
    ensures
        labelled(dist, m) <= m,
    decreases m,
{
    if m > 0 {
        lemma_labelled_bound(dist, (m - 1) as nat);
    }
}

proof fn lemma_labelled_none(dist: Seq<Option<usize>>, m: nat)
    requires
        m <= dist.len(),
        forall|v: int| 0 <= v < m ==> dist[v].is_none(),
    ensures
        labelled(dist, m) == 0,
    decreases m,
{
    if m > 0 {
        lemma_labelled_none(dist, (m - 1) as nat);
    }
}

proof fn lemma_labelled_update(dist: Seq<Option<usize>>, w: int, d: usize, m: nat)
    requires
        m <= dist.len(),
        0 <= w < dist.len(),
        dist[w].is_none(),
    ensures
        labelled(dist.update(w, Some(d)), m) == labelled(dist, m) + if w < m {
            1nat
        } else {
            0nat
        },
    decreases m,
{
    if m > 0 {
        lemma_labelled_update(dist, w, d, (m - 1) as nat);
    }
}

/// The edge in slot `j` of node `u` ends in a labelled node that is at most
/// one hop farther than `u`.
spec fn relaxed(adj: Seq<Seq<usize>>, dist: Seq<Option<usize>>, u: int, j: int) -> bool {
    let w = adj[u][j] as int;
    &&& w < dist.len()
    &&& dist[w].is_some()
    &&& dist[u].is_some()
    &&& dist[w].unwrap() <= dist[u].unwrap() + 1
}

/// The state of a search that has expanded `order[.. head]` in full and the
/// first `j` out-edges of `order[head]`.
spec fn searching(
    adj: Seq<Seq<usize>>,
    s: int,
    order: Seq<usize>,
    dist: Seq<Option<usize>>,
    head: nat,
    j: nat,
) -> bool {
    &&& dist.len() == adj.len()
    &&& 0 <= s < adj.len()
    &&& order.len() >= 1
    &&& order[0] == s
    &&& dist[s] == Some(0usize)
    &&& head <= order.len()
    &&& order.len() == labelled(dist, adj.len())
    &&& lists_by_distance(order, dist)
    &&& forall|v: int|
        0 <= v < adj.len() && (#[trigger] dist[v]).is_some() ==> has_walk(
            adj,
            s,
            v,
            dist[v].unwrap() as nat,
        )
    &&& head < order.len() ==> forall|q: int|
        0 <= q < order.len() ==> dist[#[trigger] order[q] as int].unwrap() <= dist[order[head as int] as int].unwrap()
            + 1
    &&& forall|p: int, i: int|
        0 <= p < head && 0 <= i < adj[order[p] as int].len() ==> #[trigger] relaxed(
            adj,
            dist,
            order[p] as int,
            i,
        )
    &&& j > 0 ==> head < order.len() && j <= adj[order[head as int] as int].len()
    &&& forall|i: int| 0 <= i < j ==> #[trigger] relaxed(adj, dist, order[head as int] as int, i)
}

/// Once every labelled node has all its out-edges relaxed, a walk of `k` edges
/// can only end in a node labelled `k` or less.
proof fn lemma_labels_bound_walks(
    adj: Seq<Seq<usize>>,
    s: int,
    order: Seq<usize>,
    dist: Seq<Option<usize>>,
    v: int,
    k: nat,
)
    requires
        searching(adj, s, order, dist, order.len(), 0),
        has_walk(adj, s, v, k),
    ensures
        0 <= v < adj.len(),
        dist[v].is_some(),
        dist[v].unwrap() <= k,
    decreases k,
{
    if k > 0 {
        let (u, j) = lemma_walk_last_edge(adj, s, v, k);
        lemma_labels_bound_walks(adj, s, order, dist, u, (k - 1) as nat);
        assert(lists(order, u));
        let p = choose|p: int| 0 <= p < order.len() && #[trigger] order[p] == u;
        assert(relaxed(adj, dist, order[p] as int, j));
    }
}

/// A finished search has labelled every node with its hop distance.
proof fn lemma_search_complete(
    adj: Seq<Seq<usize>>,
    s: int,
    order: Seq<usize>,
    dist: Seq<Option<usize>>,
)
    requires
        searching(adj, s, order, dist, order.len(), 0),
    ensures
        exact_distances(adj, s, dist),
{
    assert forall|v: int| 0 <= v < adj.len() implies as_hops(#[trigger] dist[v]) == hops(
        adj,
        s,
        v,
    ) by {
        match dist[v] {
            Some(d) => {
                assert forall|k: nat| k < d implies !has_walk(adj, s, v, k) by {
                    if has_walk(adj, s, v, k) {
                        lemma_labels_bound_walks(adj, s, order, dist, v, k);
                    }
                }
                assert(is_distance(adj, s, v, d as nat));
                lemma_distance_unique(adj, s, v, d as nat);
            },
            None => {
                if reachable(adj, s, v) {
                    let k = choose|k: nat| has_walk(adj, s, v, k);
                    lemma_labels_bound_walks(adj, s, order, dist, v, k);
                }
            },
        }
    }
}

/// Searches the graph breadth-first from `source`, following out-edges, with a
/// first-in-first-out frontier.
pub fn breadth_first(graph: &DiGraph, source: usize) -> (t: Traversal)
    requires
        source < successors(*graph).len(),
    ensures
        t.is_search_of(successors(*graph), source),
{
    let n = node_count(graph);
    let ghost adj = successors(*graph);
    let mut dist: Vec<Option<usize>> = Vec::new();
    let mut v: usize = 0;
    while v < n
        invariant
            v <= n,
            dist.len() == v,
            forall|x: int| 0 <= x < v ==> dist[x].is_none(),
        decreases n - v,
    {
        dist.push(None);
        v += 1;
    }
    proof {
        lemma_labelled_none(dist@, n as nat);
        lemma_labelled_update(dist@, source as int, 0, n as nat);
    }
    dist.set(source, Some(0));
    let mut order: Vec<usize> = Vec::new();
    order.push(source);
    let mut head: usize = 0;
    proof {
        assert(order@[0] == source);
        assert(has_walk(adj, source as int, source as int, 0));
    }
    while head < order.len()
        invariant
            adj == successors(*graph),
            n == adj.len(),
            searching(adj, source as int, order@, dist@, head as nat, 0),
            search_from(adj, order@, head as nat) == discovery_order(adj, source),
        decreases n - head,
    {
        proof {
            lemma_labelled_bound(dist@, n as nat);
        }
        let u = order[head];
        let du = dist[u].unwrap();
        let targets = neighbors(graph, u);
        let ghost before = order@;
        let mut j: usize = 0;
        while j < targets.len()
            invariant
                adj == successors(*graph),
                n == adj.len(),
                head < order.len(),
                head < before.len(),
                u == order@[head as int],
                u == before[head as int],
                u < n,
                dist@[u as int] == Some(du),
                targets@ == adj[u as int],
                forall|i: int| 0 <= i < targets.len() ==> targets[i] < n,
                j <= targets.len(),
                searching(adj, source as int, order@, dist@, head as nat, j as nat),
                order@ == discover(before, targets@.take(j as int)),
            decreases targets.len() - j,
        {
            let w = targets[j];
            let ghost old_order = order@;
            let ghost old_dist = dist@;
            proof {
                assert(targets@.take(j + 1).drop_last() =~= targets@.take(j as int));
                lemma_walk_extends(adj, source as int, u as int, j as int, du as nat);
            }
            if dist[w].is_none() {
                proof {
                    lemma_labelled_update(dist@, w as int, (du + 1) as usize, n as nat);
                    lemma_labelled_bound(dist@, n as nat);
                    assert(!old_order.contains(w)) by {
                        if old_order.contains(w) {
                            let p = choose|p: int| 0 <= p < old_order.len() && old_order[p] == w;
                            assert(old_dist[old_order[p] as int].is_some());
                        }
                    }
                }
                dist.set(w, Some(du + 1));
                order.push(w);
                proof {
                    lemma_discovered(
                        adj,
                        source as int,
                        old_order,
                        old_dist,
                        head as nat,
                        j as nat,
                        w,
                        du,
                    );
                }
            } else {
                proof {
                    assert(lists(old_order, w as int));
                    let q = choose|q: int| 0 <= q < old_order.len() && #[trigger] old_order[q] == w;
                    assert(old_order.contains(w));
                }
            }
            j += 1;
        }
        proof {
            assert(targets@.take(j as int) =~= targets@);
        }
        head += 1;
    }
    proof {
        lemma_search_complete(adj, source as int, order@, dist@);
    }
    Traversal { order, dist }
}

/// Labelling a newly met node and appending it keeps the search state.
proof fn lemma_discovered(
    adj: Seq<Seq<usize>>,
    s: int,
    order: Seq<usize>,
    dist: Seq<Option<usize>>,
    head: nat,
    j: nat,
    w: usize,
    du: usize,
)
    requires
        searching(adj, s, order, dist, head, j),
        head < order.len(),
        j < adj[order[head as int] as int].len(),
        adj[order[head as int] as int][j as int] == w,
        w < adj.len(),
        dist[w as int].is_none(),
        dist[order[head as int] as int] == Some(du),
        du < usize::MAX,
        has_walk(adj, s, w as int, (du + 1) as nat),
        labelled(dist.update(w as int, Some((du + 1) as usize)), adj.len()) == labelled(
            dist,
            adj.len(),
        ) + 1,
    ensures
        searching(
            adj,
            s,
            order.push(w),
            dist.update(w as int, Some((du + 1) as usize)),
            head,
            j + 1,
        ),
{
    let order2 = order.push(w);
    let dist2 = dist.update(w as int, Some((du + 1) as usize));
    lemma_labelled_bound(dist2, adj.len());
    assert forall|p: int| 0 <= p < order.len() implies order2[p] == order[p] && order[p] != w
        && dist2[order[p] as int] == dist[order[p] as int] by {
        assert(dist[order[p] as int].is_some());
    }
    assert(order2.no_duplicates());
    assert forall|v: int| 0 <= v < dist2.len() && (#[trigger] dist2[v]).is_some() implies lists(
        order2,
        v,
    ) by {
        if v == w {
            assert(order2[order.len() as int] == w);
        } else {
            assert(dist[v].is_some());
            assert(lists(order, v));
            let p = choose|p: int| 0 <= p < order.len() && #[trigger] order[p] == v;
            assert(order2[p] == v);
        }
    }
    assert forall|p: int, i: int|
        0 <= p < head && 0 <= i < adj[order2[p] as int].len() implies #[trigger] relaxed(
        adj,
        dist2,
        order2[p] as int,
        i,
    ) by {
        assert(relaxed(adj, dist, order[p] as int, i));
    }
    assert forall|i: int| 0 <= i < j + 1 implies #[trigger] relaxed(
        adj,
        dist2,
        order2[head as int] as int,
        i,
    ) by {
        if i < j {
            assert(relaxed(adj, dist, order[head as int] as int, i));
        }
    }
}

} // verus!
