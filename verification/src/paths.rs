//! Walks, reachability, hop distance and shortest-path counts in a directed
//! multigraph given by adjacency lists.
//!
//! The graph is a `Seq<Seq<usize>>`: entry `u` lists the targets of the edges
//! that leave node `u`, one entry per edge, so parallel edges are counted
//! apart. Nodes are the indices `0 .. adj.len()`.

use vstd::prelude::*;

verus! {

/// Every edge ends in a node of the graph.
pub open spec fn well_formed(adj: Seq<Seq<usize>>) -> bool {
    forall|u: int, j: int|
        0 <= u < adj.len() && 0 <= j < adj[u].len() ==> (#[trigger] adj[u][j]) < adj.len()
}

/// The graph with one more edge, from the node `a` to `b`, put in front of the
/// other edges that leave `a`.
pub open spec fn with_edge(adj: Seq<Seq<usize>>, a: int, b: usize) -> Seq<Seq<usize>> {
    if 0 <= a < adj.len() {
        adj.update(a, seq![b] + adj[a])
    } else {
        adj
    }
}

/// How many entries of `list` are the node `v`.
pub open spec fn occurrences(list: Seq<usize>, v: int) -> nat
    decreases list.len(),
{
    if list.len() == 0 {
        0
    } else {
        occurrences(list.drop_last(), v) + if list.last() == v {
            1nat
        } else {
            0nat
        }
    }
}

/// The number of walks of exactly `k` edges that lead from `s` to `v`.
pub open spec fn walk_count(adj: Seq<Seq<usize>>, s: int, v: int, k: nat) -> nat
    decreases k, 1nat, 0nat,
{
    if k == 0 {
        if v == s {
            1
        } else {
            0
        }
    } else {
        walks_via(adj, s, v, k, adj.len())
    }
}

/// The number of walks of exactly `k` edges from `s` to `v` whose last edge
/// leaves one of the nodes `0 .. m`.
pub open spec fn walks_via(adj: Seq<Seq<usize>>, s: int, v: int, k: nat, m: nat) -> nat
    decreases k, 0nat, m,
{
    if k == 0 || m == 0 {
        0
    } else {
        walks_via(adj, s, v, k, (m - 1) as nat) + occurrences(adj[m - 1], v) * walk_count(
            adj,
            s,
            m - 1,
            (k - 1) as nat,
        )
    }
}

/// Some walk of exactly `k` edges leads from `s` to `v`.
pub open spec fn has_walk(adj: Seq<Seq<usize>>, s: int, v: int, k: nat) -> bool {
    walk_count(adj, s, v, k) > 0
}

/// Some walk leads from `s` to `v`.
pub open spec fn reachable(adj: Seq<Seq<usize>>, s: int, v: int) -> bool {
    exists|k: nat| has_walk(adj, s, v, k)
}

/// `d` is the length of a shortest walk from `s` to `v`.
pub open spec fn is_distance(adj: Seq<Seq<usize>>, s: int, v: int, d: nat) -> bool {
    has_walk(adj, s, v, d) && forall|k: nat| k < d ==> !has_walk(adj, s, v, k)
}

/// The hop distance from `s` to `v`; meaningful where `v` is reachable.
pub open spec fn distance(adj: Seq<Seq<usize>>, s: int, v: int) -> nat {
    choose|d: nat| is_distance(adj, s, v, d)
}

/// The hop distance from `s` to `v`, or `None` where no walk leads there.
pub open spec fn hops(adj: Seq<Seq<usize>>, s: int, v: int) -> Option<nat> {
    if reachable(adj, s, v) {
        Some(distance(adj, s, v))
    } else {
        None
    }
}

/// The number of shortest walks from `s` to `v`, zero where `v` is out of reach.
pub open spec fn shortest_count(adj: Seq<Seq<usize>>, s: int, v: int) -> nat {
    if reachable(adj, s, v) {
        walk_count(adj, s, v, distance(adj, s, v))
    } else {
        0
    }
}

/// `u` and `w` are both reachable from `s`, and `w` is one hop farther than
/// `u`: an edge from `u` to `w` lies on a shortest walk from `s` to `w`.
pub open spec fn precedes(adj: Seq<Seq<usize>>, s: int, u: int, w: int) -> bool {
    &&& reachable(adj, s, u)
    &&& reachable(adj, s, w)
    &&& distance(adj, s, w) == distance(adj, s, u) + 1
}

pub proof fn lemma_occurrences_positive(list: Seq<usize>, v: int)
    ensures
        occurrences(list, v) > 0 <==> exists|j: int| 0 <= j < list.len() && #[trigger] list[j] == v,
    decreases list.len(),
{
    if list.len() > 0 {
        let front = list.drop_last();
        lemma_occurrences_positive(front, v);
        if list.last() == v {
            assert(list[list.len() - 1] == v);
        } else if occurrences(list, v) > 0 {
            let j = choose|j: int| 0 <= j < front.len() && #[trigger] front[j] == v;
            assert(list[j] == v);
        } else if exists|j: int| 0 <= j < list.len() && #[trigger] list[j] == v {
            let j = choose|j: int| 0 <= j < list.len() && #[trigger] list[j] == v;
            assert(front[j] == v);
        }
    }
}

/// Appending an entry adds one occurrence of that entry and none of any other.
pub proof fn lemma_occurrences_push(list: Seq<usize>, x: usize, v: int)
    ensures
        occurrences(list.push(x), v) == occurrences(list, v) + if x == v {
            1nat
        } else {
            0nat
        },
{
    assert(list.push(x).drop_last() =~= list);
}

/// A prefix holds no more occurrences than the whole list.
pub proof fn lemma_occurrences_prefix(list: Seq<usize>, len: int, v: int)
    requires
        0 <= len <= list.len(),
    ensures
        occurrences(list.take(len), v) <= occurrences(list, v),
    decreases list.len() - len,
{
    if len < list.len() {
        lemma_occurrences_prefix(list, len + 1, v);
        assert(list.take(len + 1).drop_last() =~= list.take(len));
    } else {
        assert(list.take(len) =~= list);
    }
}

pub proof fn lemma_walks_via_monotone(
    adj: Seq<Seq<usize>>,
    s: int,
    v: int,
    k: nat,
    lo: nat,
    hi: nat,
)
    requires
        lo <= hi,
    ensures
        walks_via(adj, s, v, k, lo) <= walks_via(adj, s, v, k, hi),
    decreases hi,
{
    if lo < hi && k > 0 {
        lemma_walks_via_monotone(adj, s, v, k, lo, (hi - 1) as nat);
    }
}

/// Extending a walk by one edge gives a walk that is one edge longer.
pub proof fn lemma_walk_extends(adj: Seq<Seq<usize>>, s: int, u: int, j: int, k: nat)
    requires
        0 <= u < adj.len(),
        0 <= j < adj[u].len(),
        has_walk(adj, s, u, k),
    ensures
        has_walk(adj, s, adj[u][j] as int, k + 1),
{
    let w = adj[u][j] as int;
    lemma_occurrences_positive(adj[u], w);
    lemma_walks_via_monotone(adj, s, w, k + 1, (u + 1) as nat, adj.len());
    let a = occurrences(adj[u], w);
    let b = walk_count(adj, s, u, k);
    assert(a * b >= 1) by (nonlinear_arith)
        requires
            a >= 1,
            b >= 1,
    ;
}

proof fn lemma_walks_via_witness(adj: Seq<Seq<usize>>, s: int, v: int, k: nat, m: nat) -> (r: (
    int,
    int,
))
    requires
        m <= adj.len(),
        walks_via(adj, s, v, k, m) > 0,
    ensures
        0 <= r.0 < m,
        0 <= r.1 < adj[r.0].len(),
        adj[r.0][r.1] == v,
        k > 0,
        has_walk(adj, s, r.0, (k - 1) as nat),
    decreases m,
{
    if walks_via(adj, s, v, k, (m - 1) as nat) > 0 {
        lemma_walks_via_witness(adj, s, v, k, (m - 1) as nat)
    } else {
        let a = occurrences(adj[m - 1], v);
        let b = walk_count(adj, s, m - 1, (k - 1) as nat);
        assert(a > 0 && b > 0) by (nonlinear_arith)
            requires
                a * b > 0,
                a >= 0,
                b >= 0,
        ;
        lemma_occurrences_positive(adj[m - 1], v);
        let j = choose|j: int| 0 <= j < adj[m - 1].len() && #[trigger] adj[m - 1][j] == v;
        (m - 1, j)
    }
}

/// A walk of at least one edge has a last edge: it leaves a node that a walk one
/// edge shorter reaches.
pub proof fn lemma_walk_last_edge(adj: Seq<Seq<usize>>, s: int, v: int, k: nat) -> (r: (int, int))
    requires
        k > 0,
        has_walk(adj, s, v, k),
    ensures
        0 <= r.0 < adj.len(),
        0 <= r.1 < adj[r.0].len(),
        adj[r.0][r.1] == v,
        has_walk(adj, s, r.0, (k - 1) as nat),
{
    lemma_walks_via_witness(adj, s, v, k, adj.len())
}

proof fn lemma_least_walk(adj: Seq<Seq<usize>>, s: int, v: int, k: nat)
    requires
        has_walk(adj, s, v, k),
    ensures
        exists|d: nat| is_distance(adj, s, v, d),
    decreases k,
{
    if exists|j: nat| j < k && has_walk(adj, s, v, j) {
        let j = choose|j: nat| j < k && has_walk(adj, s, v, j);
        lemma_least_walk(adj, s, v, j);
    } else {
        assert(is_distance(adj, s, v, k));
    }
}

/// Where `v` is reachable, `distance` is the length of a shortest walk.
pub proof fn lemma_distance_is_least(adj: Seq<Seq<usize>>, s: int, v: int)
    requires
        reachable(adj, s, v),
    ensures
        is_distance(adj, s, v, distance(adj, s, v)),
{
    let k = choose|k: nat| has_walk(adj, s, v, k);
    lemma_least_walk(adj, s, v, k);
}

/// The length of a shortest walk is unique.
pub proof fn lemma_distance_unique(adj: Seq<Seq<usize>>, s: int, v: int, d: nat)
    requires
        is_distance(adj, s, v, d),
    ensures
        reachable(adj, s, v),
        distance(adj, s, v) == d,
        hops(adj, s, v) == Some(d),
{
    lemma_distance_is_least(adj, s, v);
}

/// A node is at distance zero from `s` exactly when it is `s`.
pub proof fn lemma_distance_zero(adj: Seq<Seq<usize>>, s: int, v: int)
    ensures
        is_distance(adj, s, v, 0) <==> v == s,
        reachable(adj, s, s),
        distance(adj, s, s) == 0,
{
    assert(is_distance(adj, s, s, 0));
    lemma_distance_unique(adj, s, s, 0);
}

/// An edge out of a reachable node ends in a node that is reachable and at
/// most one hop farther.
pub proof fn lemma_edge_bounds_distance(adj: Seq<Seq<usize>>, s: int, u: int, j: int)
    requires
        0 <= u < adj.len(),
        0 <= j < adj[u].len(),
        reachable(adj, s, u),
    ensures
        reachable(adj, s, adj[u][j] as int),
        distance(adj, s, adj[u][j] as int) <= distance(adj, s, u) + 1,
{
    lemma_distance_is_least(adj, s, u);
    lemma_walk_extends(adj, s, u, j, distance(adj, s, u));
    lemma_distance_is_least(adj, s, adj[u][j] as int);
}

/// A walk is never shorter than the distance.
pub proof fn lemma_walk_bounds_distance(adj: Seq<Seq<usize>>, s: int, v: int, k: nat)
    requires
        has_walk(adj, s, v, k),
    ensures
        reachable(adj, s, v),
        distance(adj, s, v) <= k,
{
    lemma_distance_is_least(adj, s, v);
}

} // verus!
