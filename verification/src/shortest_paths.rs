//! The shortest paths from one source: the number of shortest paths to every
//! node and, for every node, the nodes that come directly before it on a
//! shortest path.

use crate::bfs::{
    as_hops, breadth_first, discovery_order, exact_distances, lists, lists_by_distance,
};
use crate::counting::{
    all_edges, lemma_count_is_shares, lemma_no_shares, lemma_shares_agree, lemma_shares_monotone,
    lemma_shares_step, shares,
};
use crate::graph::{neighbors, node_count, successors, DiGraph};
use crate::paths::{
    lemma_distance_is_least, lemma_distance_zero, lemma_edge_bounds_distance,
    lemma_occurrences_push, occurrences, precedes, reachable, shortest_count,
};
use vstd::prelude::*;

verus! {

/// The shortest paths from one source.
pub struct ShortestPaths {
    /// The nodes that the source reaches, nearest first, in the order in which
    /// a breadth-first search meets them.
    pub order: Vec<usize>,
    /// By node index: the hop distance from the source, `None` where the source
    /// does not reach the node.
    pub dist: Vec<Option<usize>>,
    /// By node index: the number of shortest paths from the source to the node;
    /// one for the source itself and zero for a node out of reach.
    pub sigma: Vec<u64>,
    /// By node index: the nodes that come directly before the node on a
    /// shortest path from the source, once per edge.
    pub pred: Vec<Vec<usize>>,
}

/// The predecessors of `w` found by the out-edges read so far: all those of
/// `order[.. i]` and the first `j` of `order[i]`, in that order.
pub open spec fn preds_before(
    adj: Seq<Seq<usize>>,
    s: int,
    order: Seq<usize>,
    i: nat,
    j: nat,
    w: int,
) -> Seq<usize>
    decreases i, j,
{
    if j > 0 {
        let rest = preds_before(adj, s, order, i, (j - 1) as nat, w);
        let u = order[i as int];
        if adj[u as int][j - 1] == w && precedes(adj, s, u as int, w) {
            rest.push(u)
        } else {
            rest
        }
    } else if i > 0 {
        preds_before(adj, s, order, (i - 1) as nat, adj[order[i - 1] as int].len(), w)
    } else {
        Seq::empty()
    }
}

/// The nodes that come directly before `w` on a shortest path from `s`, once
/// per edge, in the order in which a breadth-first search reads those edges.
pub open spec fn predecessors(adj: Seq<Seq<usize>>, s: usize, w: int) -> Seq<usize> {
    let order = discovery_order(adj, s);
    preds_before(adj, s as int, order, order.len(), 0, w)
}

/// The number of shortest paths from `s` to every node fits in 64 bits.
pub open spec fn counts_fit(adj: Seq<Seq<usize>>, s: int) -> bool {
    forall|v: int| 0 <= v < adj.len() ==> #[trigger] shortest_count(adj, s, v) <= u64::MAX
}

impl ShortestPaths {
    /// These are the shortest paths of `adj` from `s`.
    pub open spec fn is_paths_of(&self, adj: Seq<Seq<usize>>, s: usize) -> bool {
        &&& exact_distances(adj, s as int, self.dist@)
        &&& lists_by_distance(self.order@, self.dist@)
        &&& self.order@ == discovery_order(adj, s)
        &&& self.sigma@.len() == adj.len()
        &&& forall|v: int|
            0 <= v < adj.len() ==> (#[trigger] self.sigma@[v]) == shortest_count(adj, s as int, v)
        &&& self.pred@.len() == adj.len()
        &&& forall|w: int|
            0 <= w < adj.len() ==> (#[trigger] self.pred@[w])@ == predecessors(adj, s, w)
        &&& forall|w: int, u: int|
            0 <= w < adj.len() && 0 <= u < adj.len() ==> #[trigger] occurrences(self.pred@[w]@, u)
                == if precedes(adj, s as int, u, w) {
                occurrences(adj[u], w)
            } else {
                0
            }
        &&& forall|w: int, k: int|
            0 <= w < adj.len() && 0 <= k < self.pred@[w]@.len() ==> (#[trigger] self.pred@[w]@[k])
                < adj.len()
    }
}

/// The state of the count once the out-edges of `order[.. i]` and the first
/// `j` of `order[i]` have been read; `limit` says, for every node, how many of
/// its out-edges that is.
spec fn counting(
    adj: Seq<Seq<usize>>,
    s: usize,
    order: Seq<usize>,
    dist: Seq<Option<usize>>,
    sigma: Seq<u64>,
    pred: Seq<Vec<usize>>,
    limit: Seq<nat>,
    i: nat,
    j: nat,
) -> bool {
    &&& s < adj.len()
    &&& exact_distances(adj, s as int, dist)
    &&& lists_by_distance(order, dist)
    &&& limit.len() == adj.len()
    &&& sigma.len() == adj.len()
    &&& pred.len() == adj.len()
    &&& i <= order.len()
    &&& j > 0 ==> i < order.len() && j <= adj[order[i as int] as int].len()
    &&& forall|v: int| 0 <= v < adj.len() ==> (#[trigger] limit[v]) <= adj[v].len()
    &&& forall|v: int| 0 <= v < adj.len() && dist[v].is_none() ==> (#[trigger] limit[v]) == 0
    &&& forall|p: int|
        0 <= p < order.len() ==> limit[#[trigger] order[p] as int] == if p < i {
            adj[order[p] as int].len()
        } else if p == i {
            j
        } else {
            0
        }
    &&& forall|w: int|
        0 <= w < adj.len() ==> (#[trigger] sigma[w]) == shares(adj, s as int, limit, w, adj.len())
            + if w == s {
            1nat
        } else {
            0nat
        }
    &&& forall|w: int|
        0 <= w < adj.len() ==> (#[trigger] pred[w])@ == preds_before(adj, s as int, order, i, j, w)
    &&& forall|w: int, u: int|
        0 <= w < adj.len() && 0 <= u < adj.len() ==> #[trigger] occurrences(pred[w]@, u)
            == if precedes(adj, s as int, u, w) {
            occurrences(adj[u].take(limit[u] as int), w)
        } else {
            0
        }
    &&& forall|w: int, k: int|
        0 <= w < adj.len() && 0 <= k < pred[w]@.len() ==> (#[trigger] pred[w]@[k]) < adj.len()
}

/// Once every out-edge of every node that precedes `w` has been read, the
/// shares of `w` are all its shortest walks.
proof fn lemma_count_settled(adj: Seq<Seq<usize>>, s: int, limit: Seq<nat>, w: int)
    requires
        limit.len() == adj.len(),
        0 <= w < adj.len(),
        forall|u: int| 0 <= u < adj.len() && precedes(adj, s, u, w) ==> limit[u] == adj[u].len(),
    ensures
        shortest_count(adj, s, w) == shares(adj, s, limit, w, adj.len()) + if w == s {
            1nat
        } else {
            0nat
        },
{
    lemma_distance_zero(adj, s, w);
    if reachable(adj, s, w) && w != s {
        lemma_shares_agree(adj, s, limit, all_edges(adj), w, adj.len());
        lemma_count_is_shares(adj, s, w);
    } else {
        lemma_no_shares(adj, s, limit, w, adj.len());
    }
}

/// Every node that precedes `order[i]`, or any node at all once `i` is the
/// length of the order, stands before position `i` and has been read in full.
proof fn lemma_nearer_are_read(
    adj: Seq<Seq<usize>>,
    s: usize,
    order: Seq<usize>,
    dist: Seq<Option<usize>>,
    sigma: Seq<u64>,
    pred: Seq<Vec<usize>>,
    limit: Seq<nat>,
    i: nat,
    w: int,
)
    requires
        counting(adj, s, order, dist, sigma, pred, limit, i, 0),
        0 <= w < adj.len(),
        i == order.len() || order[i as int] == w,
    ensures
        forall|u: int| 0 <= u < adj.len() && precedes(adj, s as int, u, w) ==> limit[u] == adj[u].len(),
        sigma[w] == shortest_count(adj, s as int, w),
{
    assert forall|u: int| 0 <= u < adj.len() && precedes(adj, s as int, u, w) implies limit[u]
        == adj[u].len() by {
        assert(dist[u].is_some());
        assert(lists(order, u));
        let p = choose|p: int| 0 <= p < order.len() && #[trigger] order[p] == u;
        if p >= i {
            assert(dist[w].is_some());
            assert(dist[order[i as int] as int].unwrap() <= dist[order[p] as int].unwrap());
        }
    }
    lemma_count_settled(adj, s as int, limit, w);
}

/// Reading the next out-edge of `order[i]`: where the edge lies on a shortest
/// path, its target gains the shortest walks to `order[i]` and `order[i]` as a
/// predecessor.
proof fn lemma_edge_read(
    adj: Seq<Seq<usize>>,
    s: usize,
    order: Seq<usize>,
    dist: Seq<Option<usize>>,
    sigma: Seq<u64>,
    pred: Seq<Vec<usize>>,
    limit: Seq<nat>,
    i: nat,
    j: nat,
    sigma2: Seq<u64>,
    pred2: Seq<Vec<usize>>,
)
    requires
        counting(adj, s, order, dist, sigma, pred, limit, i, j),
        i < order.len(),
        j < adj[order[i as int] as int].len(),
        adj[order[i as int] as int][j as int] < adj.len(),
        sigma[order[i as int] as int] == shortest_count(adj, s as int, order[i as int] as int),
        sigma2.len() == sigma.len(),
        pred2.len() == pred.len(),
        ({
            let u = order[i as int];
            let w = adj[u as int][j as int];
            if precedes(adj, s as int, u as int, w as int) {
                &&& sigma2 == sigma.update(w as int, sigma2[w as int])
                &&& sigma2[w as int] == sigma[w as int] + sigma[u as int]
                &&& forall|x: int| 0 <= x < pred.len() && x != w ==> pred2[x] == pred[x]
                &&& pred2[w as int]@ == pred[w as int]@.push(u)
            } else {
                sigma2 == sigma && pred2 == pred
            }
        }),
    ensures
        counting(
            adj,
            s,
            order,
            dist,
            sigma2,
            pred2,
            limit.update(order[i as int] as int, j + 1),
            i,
            j + 1,
        ),
{
    let u = order[i as int];
    let w = adj[u as int][j as int];
    let limit2 = limit.update(u as int, j + 1);
    assert(limit[u as int] == j);
    assert(adj[u as int].take(j as int + 1).drop_last() =~= adj[u as int].take(j as int));
    assert forall|p: int| 0 <= p < order.len() implies limit2[#[trigger] order[p] as int] == if p
        < i {
        adj[order[p] as int].len()
    } else if p == i {
        j + 1
    } else {
        0
    } by {
        if p != i {
            assert(order[p] != order[i as int]);
        }
    }
    assert forall|x: int| 0 <= x < adj.len() implies (#[trigger] sigma2[x]) == shares(
        adj,
        s as int,
        limit2,
        x,
        adj.len(),
    ) + if x == s {
        1nat
    } else {
        0nat
    } by {
        lemma_shares_step(adj, s as int, limit, u as int, x, adj.len());
        assert(sigma[x] == shares(adj, s as int, limit, x, adj.len()) + if x == s {
            1nat
        } else {
            0nat
        });
    }
    assert forall|x: int| 0 <= x < adj.len() implies (#[trigger] pred2[x])@ == preds_before(
        adj,
        s as int,
        order,
        i,
        j + 1,
        x,
    ) by {
        assert(pred[x]@ == preds_before(adj, s as int, order, i, j, x));
    }
    assert forall|x: int, y: int| 0 <= x < adj.len() && 0 <= y < adj.len() implies #[trigger] occurrences(
        pred2[x]@,
        y,
    ) == if precedes(adj, s as int, y, x) {
        occurrences(adj[y].take(limit2[y] as int), x)
    } else {
        0
    } by {
        assert(occurrences(pred[x]@, y) == if precedes(adj, s as int, y, x) {
            occurrences(adj[y].take(limit[y] as int), x)
        } else {
            0
        });
        if x == w && precedes(adj, s as int, u as int, w as int) {
            lemma_occurrences_push(pred[x]@, u, y);
        }
    }
    assert forall|x: int, k: int| 0 <= x < adj.len() && 0 <= k < pred2[x]@.len() implies (
    #[trigger] pred2[x]@[k]) < adj.len() by {
        if k < pred[x]@.len() {
            assert(pred[x]@[k] < adj.len());
        }
    }
}

/// Finds the shortest paths from `source`: the breadth-first order, the hop
/// distances, the number of shortest paths to every node and the predecessor
/// lists. Returns `None` where one of those numbers does not fit in 64 bits.
pub fn shortest_paths(graph: &DiGraph, source: usize) -> (found: Option<ShortestPaths>)
    requires
        source < successors(*graph).len(),
    ensures
        found.is_some() == counts_fit(successors(*graph), source as int),
        found matches Some(paths) ==> paths.is_paths_of(successors(*graph), source),
{
    let n = node_count(graph);
    let search = breadth_first(graph, source);
    let order = search.order;
    let dist = search.dist;
    let ghost adj = successors(*graph);
    let mut sigma: Vec<u64> = Vec::new();
    let mut pred: Vec<Vec<usize>> = Vec::new();
    let mut v: usize = 0;
    while v < n
        invariant
            v <= n,
            sigma.len() == v,
            pred.len() == v,
            forall|x: int| 0 <= x < v ==> sigma[x] == 0,
            forall|x: int| 0 <= x < v ==> (#[trigger] pred@[x])@ == Seq::<usize>::empty(),
        decreases n - v,
    {
        sigma.push(0);
        pred.push(Vec::new());
        v += 1;
    }
    sigma.set(source, 1);
    let ghost mut limit: Seq<nat> = Seq::new(n as nat, |u: int| 0nat);
    proof {
        assert forall|w: int| 0 <= w < adj.len() implies shares(
            adj,
            source as int,
            limit,
            w,
            adj.len(),
        ) == 0 by {
            lemma_nothing_read(adj, source as int, limit, w, adj.len());
        }
        assert forall|w: int, u: int| 0 <= w < adj.len() && 0 <= u < adj.len() implies #[trigger] occurrences(
            pred@[w]@,
            u,
        ) == if precedes(adj, source as int, u, w) {
            occurrences(adj[u].take(limit[u] as int), w)
        } else {
            0
        } by {
            assert(adj[u].take(0) =~= Seq::<usize>::empty());
        }
    }
    let mut i: usize = 0;
    while i < order.len()
        invariant
            adj == successors(*graph),
            n == adj.len(),
            counting(adj, source, order@, dist@, sigma@, pred@, limit, i as nat, 0),
            order@ == discovery_order(adj, source),
        decreases order.len() - i,
    {
        let u = order[i];
        let du = dist[u].unwrap();
        let su = sigma[u];
        proof {
            lemma_nearer_are_read(adj, source, order@, dist@, sigma@, pred@, limit, i as nat, u as int);
        }
        let targets = neighbors(graph, u);
        let mut j: usize = 0;
        while j < targets.len()
            invariant
                adj == successors(*graph),
                n == adj.len(),
                i < order.len(),
                u == order@[i as int],
                u < n,
                dist@[u as int] == Some(du),
                du < n,
                su == shortest_count(adj, source as int, u as int),
                sigma@[u as int] == su,
                targets@ == adj[u as int],
                forall|k: int| 0 <= k < targets.len() ==> targets[k] < n,
                j <= targets.len(),
                counting(adj, source, order@, dist@, sigma@, pred@, limit, i as nat, j as nat),
            decreases targets.len() - j,
        {
            let w = targets[j];
            let ghost old_sigma = sigma@;
            let ghost old_pred = pred@;
            proof {
                lemma_edge_bounds_distance(adj, source as int, u as int, j as int);
                assert(dist@[w as int].is_some());
            }
            let dw = dist[w].unwrap();
            if dw == du + 1 {
                match sigma[w].checked_add(su) {
                    Some(total) => {
                        sigma.set(w, total);
                        pred[w].push(u);
                    },
                    None => {
                        proof {
                            let limit2 = limit.update(u as int, (j + 1) as nat);
                            lemma_shares_step(adj, source as int, limit, u as int, w as int, adj.len());
                            lemma_shares_monotone(adj, source as int, limit2, w as int, adj.len());
                            lemma_distance_zero(adj, source as int, w as int);
                            lemma_count_is_shares(adj, source as int, w as int);
                            assert(shortest_count(adj, source as int, w as int) > u64::MAX);
                        }
                        return None;
                    },
                }
            }
            proof {
                lemma_edge_read(
                    adj,
                    source,
                    order@,
                    dist@,
                    old_sigma,
                    old_pred,
                    limit,
                    i as nat,
                    j as nat,
                    sigma@,
                    pred@,
                );
                limit = limit.update(u as int, (j + 1) as nat);
            }
            j += 1;
        }
        i += 1;
    }
    proof {
        assert forall|w: int| 0 <= w < adj.len() implies (#[trigger] sigma@[w]) == shortest_count(
            adj,
            source as int,
            w,
        ) by {
            lemma_nearer_are_read(adj, source, order@, dist@, sigma@, pred@, limit, i as nat, w);
        }
        assert forall|w: int, u: int| 0 <= w < adj.len() && 0 <= u < adj.len() implies #[trigger] occurrences(
            pred@[w]@,
            u,
        ) == if precedes(adj, source as int, u, w) {
            occurrences(adj[u], w)
        } else {
            0
        } by {
            lemma_nearer_are_read(adj, source, order@, dist@, sigma@, pred@, limit, i as nat, w);
            assert(adj[u].take(adj[u].len() as int) =~= adj[u]);
        }
    }
    proof {
        assert forall|v: int| 0 <= v < adj.len() implies #[trigger] shortest_count(
            adj,
            source as int,
            v,
        ) <= u64::MAX by {
            assert(sigma@[v] == shortest_count(adj, source as int, v));
        }
    }
    Some(ShortestPaths { order, dist, sigma, pred })
}

/// The shortest paths from a source are determined by the graph: two results
/// for the same source of the same graph agree in every entry.
pub proof fn law_paths_are_repeatable(
    adj: Seq<Seq<usize>>,
    s: usize,
    first: ShortestPaths,
    second: ShortestPaths,
)
    requires
        first.is_paths_of(adj, s),
        second.is_paths_of(adj, s),
    ensures
        first.order@ == second.order@,
        first.dist@ == second.dist@,
        first.sigma@ == second.sigma@,
        first.pred@.len() == second.pred@.len(),
        forall|w: int| 0 <= w < adj.len() ==> (#[trigger] first.pred@[w])@ == second.pred@[w]@,
{
    assert forall|v: int| 0 <= v < adj.len() implies first.dist@[v] == second.dist@[v] by {
        assert(as_hops(first.dist@[v]) == as_hops(second.dist@[v]));
    }
    assert(first.dist@ =~= second.dist@);
    assert(first.sigma@ =~= second.sigma@);
}

/// The sum of the path counts of the nodes in `list`.
pub open spec fn count_sum(sigma: Seq<u64>, list: Seq<usize>) -> nat
    decreases list.len(),
{
    if list.len() == 0 {
        0
    } else {
        count_sum(sigma, list.drop_last()) + sigma[list.last() as int] as nat
    }
}

/// The path counts of the nodes `0 .. m`, each taken as often as the node
/// occurs in `list`.
spec fn weighed(sigma: Seq<u64>, list: Seq<usize>, m: nat) -> nat
    decreases m,
{
    if m == 0 {
        0
    } else {
        weighed(sigma, list, (m - 1) as nat) + occurrences(list, m - 1) * sigma[m - 1] as nat
    }
}

proof fn lemma_weighed_push(sigma: Seq<u64>, list: Seq<usize>, x: usize, m: nat)
    ensures
        weighed(sigma, list.push(x), m) == weighed(sigma, list, m) + if x < m {
            sigma[x as int] as nat
        } else {
            0nat
        },
    decreases m,
{
    if m > 0 {
        lemma_weighed_push(sigma, list, x, (m - 1) as nat);
        lemma_occurrences_push(list, x, m - 1);
        let had = occurrences(list, m - 1);
        let count = sigma[m - 1] as nat;
        assert((had + 1) * count == had * count + count) by (nonlinear_arith);
    }
}

proof fn lemma_sum_is_weighed(sigma: Seq<u64>, list: Seq<usize>, n: nat)
    requires
        forall|k: int| 0 <= k < list.len() ==> list[k] < n,
    ensures
        count_sum(sigma, list) == weighed(sigma, list, n),
    decreases list.len(),
{
    if list.len() == 0 {
        lemma_weighed_empty(sigma, list, n);
    } else {
        lemma_sum_is_weighed(sigma, list.drop_last(), n);
        lemma_weighed_push(sigma, list.drop_last(), list.last(), n);
        assert(list.drop_last().push(list.last()) =~= list);
    }
}

proof fn lemma_weighed_empty(sigma: Seq<u64>, list: Seq<usize>, m: nat)
    requires
        list.len() == 0,
    ensures
        weighed(sigma, list, m) == 0,
    decreases m,
{
    if m > 0 {
        lemma_weighed_empty(sigma, list, (m - 1) as nat);
        let count = sigma[m - 1] as nat;
        assert(0 * count == 0) by (nonlinear_arith);
    }
}

proof fn lemma_weighed_is_shares(adj: Seq<Seq<usize>>, s: usize, paths: ShortestPaths, w: int, m: nat)
    requires
        paths.is_paths_of(adj, s),
        0 <= w < adj.len(),
        m <= adj.len(),
    ensures
        weighed(paths.sigma@, paths.pred@[w]@, m) == shares(adj, s as int, all_edges(adj), w, m),
    decreases m,
{
    if m > 0 {
        lemma_weighed_is_shares(adj, s, paths, w, (m - 1) as nat);
        let u = m - 1;
        assert(adj[u].take(adj[u].len() as int) =~= adj[u]);
        assert(occurrences(paths.pred@[w]@, u) == if precedes(adj, s as int, u, w) {
            occurrences(adj[u], w)
        } else {
            0
        });
        assert(paths.sigma@[u] == shortest_count(adj, s as int, u));
        let count = paths.sigma@[u] as nat;
        assert(0 * count == 0) by (nonlinear_arith);
    }
}

/// The source has one shortest path, the empty one, and every other node has
/// as many as its predecessors have together, each counted once per edge.
pub proof fn law_counts_add_up(adj: Seq<Seq<usize>>, s: usize, paths: ShortestPaths, w: int)
    requires
        paths.is_paths_of(adj, s),
        s < adj.len(),
        0 <= w < adj.len(),
    ensures
        paths.sigma@[s as int] == 1,
        w != s ==> paths.sigma@[w] == count_sum(paths.sigma@, paths.pred@[w]@),
{
    lemma_distance_zero(adj, s as int, s as int);
    assert(paths.sigma@[s as int] == shortest_count(adj, s as int, s as int));
    if w != s {
        assert(paths.sigma@[w] == shortest_count(adj, s as int, w));
        assert forall|k: int| 0 <= k < paths.pred@[w]@.len() implies paths.pred@[w]@[k]
            < adj.len() by {}
        lemma_sum_is_weighed(paths.sigma@, paths.pred@[w]@, adj.len());
        lemma_weighed_is_shares(adj, s, paths, w, adj.len());
        if reachable(adj, s as int, w) {
            lemma_count_is_shares(adj, s as int, w);
        } else {
            lemma_no_shares(adj, s as int, all_edges(adj), w, adj.len());
        }
    }
}

/// A node has a shortest path from the source exactly when the source
/// reaches it, so no step of a plan divides by zero.
pub proof fn law_reachable_nodes_have_paths(adj: Seq<Seq<usize>>, s: int, v: int)
    ensures
        reachable(adj, s, v) <==> shortest_count(adj, s, v) >= 1,
{
    if reachable(adj, s, v) {
        lemma_distance_is_least(adj, s, v);
    }
}

/// Nothing read, nothing shared.
proof fn lemma_nothing_read(
    adj: Seq<Seq<usize>>,
    s: int,
    limit: Seq<nat>,
    w: int,
    m: nat,
)
    requires
        m <= adj.len(),
        limit.len() == adj.len(),
        forall|u: int| 0 <= u < adj.len() ==> limit[u] == 0,
    ensures
        shares(adj, s, limit, w, m) == 0,
    decreases m,
{
    if m > 0 {
        lemma_nothing_read(adj, s, limit, w, (m - 1) as nat);
        assert(adj[m - 1].take(0) =~= Seq::<usize>::empty());
        let c = shortest_count(adj, s, m - 1);
        assert(0 * c == 0) by (nonlinear_arith);
    }
}

} // verus!
