//! Shortest-path counts as sums over the edges that lie on shortest paths.

use crate::paths::{
    distance, lemma_distance_is_least, lemma_distance_zero, lemma_edge_bounds_distance,
    lemma_occurrences_positive, lemma_occurrences_prefix, lemma_walk_bounds_distance, occurrences,
    precedes, reachable, shortest_count, walk_count, walks_via,
};
use vstd::prelude::*;

verus! {

/// What the first `limit[u]` out-edges of `u` add to the number of shortest
/// walks to `w`: one shortest walk to `u` for each of them that ends in `w`,
/// provided that `u` precedes `w`.
pub open spec fn share(adj: Seq<Seq<usize>>, s: int, limit: Seq<nat>, w: int, u: int) -> nat {
    if precedes(adj, s, u, w) {
        occurrences(adj[u].take(limit[u] as int), w) * shortest_count(adj, s, u)
    } else {
        0
    }
}

/// The shares of the nodes `0 .. m` in the number of shortest walks to `w`.
pub open spec fn shares(adj: Seq<Seq<usize>>, s: int, limit: Seq<nat>, w: int, m: nat) -> nat
    decreases m,
{
    if m == 0 {
        0
    } else {
        shares(adj, s, limit, w, (m - 1) as nat) + share(adj, s, limit, w, m - 1)
    }
}

/// Every out-edge of every node.
pub open spec fn all_edges(adj: Seq<Seq<usize>>) -> Seq<nat> {
    Seq::new(adj.len(), |u: int| adj[u].len())
}

/// The last step of a shortest walk: what node `u` adds to the walks of
/// `distance(w)` edges that end in `w` is its share.
proof fn lemma_last_step(adj: Seq<Seq<usize>>, s: int, w: int, u: int)
    requires
        0 <= u < adj.len(),
        reachable(adj, s, w),
        w != s,
    ensures
        distance(adj, s, w) > 0,
        occurrences(adj[u], w) * walk_count(adj, s, u, (distance(adj, s, w) - 1) as nat) == share(
            adj,
            s,
            all_edges(adj),
            w,
            u,
        ),
{
    lemma_distance_is_least(adj, s, w);
    lemma_distance_zero(adj, s, w);
    let d = distance(adj, s, w);
    let edges = occurrences(adj[u], w);
    let walks = walk_count(adj, s, u, (d - 1) as nat);
    assert(adj[u].take(adj[u].len() as int) =~= adj[u]);
    if precedes(adj, s, u, w) {
    } else {
        if edges > 0 && walks > 0 {
            lemma_occurrences_positive(adj[u], w);
            let j = choose|j: int| 0 <= j < adj[u].len() && #[trigger] adj[u][j] == w;
            lemma_walk_bounds_distance(adj, s, u, (d - 1) as nat);
            lemma_edge_bounds_distance(adj, s, u, j);
            assert(false);
        }
        assert(edges * walks == 0) by (nonlinear_arith)
            requires
                edges == 0 || walks == 0,
        ;
    }
}

proof fn lemma_walks_are_shares(adj: Seq<Seq<usize>>, s: int, w: int, m: nat)
    requires
        m <= adj.len(),
        reachable(adj, s, w),
        w != s,
    ensures
        walks_via(adj, s, w, distance(adj, s, w), m) == shares(adj, s, all_edges(adj), w, m),
    decreases m,
{
    if m > 0 {
        lemma_walks_are_shares(adj, s, w, (m - 1) as nat);
        lemma_last_step(adj, s, w, m - 1);
    } else {
        lemma_distance_is_least(adj, s, w);
    }
}

/// The number of shortest walks to a node other than the source is the sum,
/// over the edges that enter it from a node one hop nearer, of the number of
/// shortest walks to that node.
pub proof fn lemma_count_is_shares(adj: Seq<Seq<usize>>, s: int, w: int)
    requires
        reachable(adj, s, w),
        w != s,
    ensures
        shortest_count(adj, s, w) == shares(adj, s, all_edges(adj), w, adj.len()),
{
    lemma_walks_are_shares(adj, s, w, adj.len());
    lemma_last_step_distance(adj, s, w);
}

proof fn lemma_last_step_distance(adj: Seq<Seq<usize>>, s: int, w: int)
    requires
        reachable(adj, s, w),
        w != s,
    ensures
        distance(adj, s, w) > 0,
{
    lemma_distance_is_least(adj, s, w);
    lemma_distance_zero(adj, s, w);
}

/// No node precedes one that is out of reach, and none precedes the source.
pub proof fn lemma_no_shares(adj: Seq<Seq<usize>>, s: int, limit: Seq<nat>, w: int, m: nat)
    requires
        !reachable(adj, s, w) || w == s,
    ensures
        shares(adj, s, limit, w, m) == 0,
    decreases m,
{
    lemma_distance_zero(adj, s, w);
    if m > 0 {
        lemma_no_shares(adj, s, limit, w, (m - 1) as nat);
    }
}

/// Shares depend only on how far the nodes that precede `w` have been read.
pub proof fn lemma_shares_agree(
    adj: Seq<Seq<usize>>,
    s: int,
    one: Seq<nat>,
    other: Seq<nat>,
    w: int,
    m: nat,
)
    requires
        forall|u: int| 0 <= u < m && precedes(adj, s, u, w) ==> one[u] == other[u],
    ensures
        shares(adj, s, one, w, m) == shares(adj, s, other, w, m),
    decreases m,
{
    if m > 0 {
        lemma_shares_agree(adj, s, one, other, w, (m - 1) as nat);
    }
}

/// Reading fewer edges gives no more shares.
pub proof fn lemma_shares_monotone(adj: Seq<Seq<usize>>, s: int, limit: Seq<nat>, w: int, m: nat)
    requires
        m <= adj.len(),
        forall|u: int| 0 <= u < m ==> limit[u] <= adj[u].len(),
    ensures
        shares(adj, s, limit, w, m) <= shares(adj, s, all_edges(adj), w, m),
    decreases m,
{
    if m > 0 {
        lemma_shares_monotone(adj, s, limit, w, (m - 1) as nat);
        let u = m - 1;
        lemma_occurrences_prefix(adj[u], limit[u] as int, w);
        assert(adj[u].take(adj[u].len() as int) =~= adj[u]);
        let a = occurrences(adj[u].take(limit[u] as int), w);
        let b = occurrences(adj[u], w);
        let c = shortest_count(adj, s, u);
        assert(a * c <= b * c) by (nonlinear_arith)
            requires
                a <= b,
                c >= 0,
        ;
    }
}

/// Reading one more out-edge of `u` adds one shortest walk to `u` for the node
/// that the edge ends in, if `u` precedes it, and nothing for any other node.
pub proof fn lemma_shares_step(
    adj: Seq<Seq<usize>>,
    s: int,
    limit: Seq<nat>,
    u: int,
    w: int,
    m: nat,
)
    requires
        limit.len() == adj.len(),
        m <= adj.len(),
        0 <= u < adj.len(),
        limit[u] < adj[u].len(),
    ensures
        shares(adj, s, limit.update(u, limit[u] + 1), w, m) == shares(adj, s, limit, w, m) + if u
            < m && adj[u][limit[u] as int] == w && precedes(adj, s, u, w) {
            shortest_count(adj, s, u)
        } else {
            0
        },
    decreases m,
{
    if m > 0 {
        lemma_shares_step(adj, s, limit, u, w, (m - 1) as nat);
        if u == m - 1 {
            let j = limit[u] as int;
            assert(adj[u].take(j + 1).drop_last() =~= adj[u].take(j));
            let a = occurrences(adj[u].take(j), w);
            let c = shortest_count(adj, s, u);
            assert((a + 1) * c == a * c + c) by (nonlinear_arith);
        }
    }
}

} // verus!
