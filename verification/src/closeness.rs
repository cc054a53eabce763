//! Closeness centrality: for every node, how many other nodes it reaches,
//! over the sum of its hop distances to them.

use crate::bfs::{as_hops, breadth_first, lists};
use crate::graph::{node_count, successors, DiGraph};
use crate::paths::{
    distance, has_walk, hops, lemma_distance_is_least, lemma_distance_zero, lemma_walk_bounds_distance,
    lemma_walk_extends, lemma_walk_last_edge, reachable, with_edge,
};
use vstd::prelude::*;

verus! {

/// An exact score: the fraction `num / den`, whose denominator is never zero.
#[derive(Clone, Copy, Debug, PartialEq, Eq, Structural)]
pub struct Ratio {
    pub num: u64,
    pub den: u64,
}

impl View for Ratio {
    type V = (nat, nat);

    open spec fn view(&self) -> (nat, nat) {
        (self.num as nat, self.den as nat)
    }
}

/// The fraction `x` is at most the fraction `y`; both denominators are positive.
pub open spec fn at_most(x: (nat, nat), y: (nat, nat)) -> bool {
    x.0 * y.1 <= y.0 * x.1
}

/// How many of the nodes `0 .. m` the node `s` reaches; `s` reaches itself.
pub open spec fn reach_count(adj: Seq<Seq<usize>>, s: int, m: nat) -> nat
    decreases m,
{
    if m == 0 {
        0
    } else {
        reach_count(adj, s, (m - 1) as nat) + if reachable(adj, s, m - 1) {
            1nat
        } else {
            0nat
        }
    }
}

/// The sum of the hop distances from `s` to those of the nodes `0 .. m` that
/// it reaches.
pub open spec fn distance_sum(adj: Seq<Seq<usize>>, s: int, m: nat) -> nat
    decreases m,
{
    if m == 0 {
        0
    } else {
        distance_sum(adj, s, (m - 1) as nat) + if reachable(adj, s, m - 1) {
            distance(adj, s, m - 1)
        } else {
            0nat
        }
    }
}

/// The closeness of `s` as numerator and denominator: the number of nodes
/// that `s` reaches beside itself, over the sum of its distances to them; zero,
/// written `0 / 1`, where `s` reaches no other node.
pub open spec fn closeness(adj: Seq<Seq<usize>>, s: int) -> (nat, nat) {
    let reached = reach_count(adj, s, adj.len());
    let total = distance_sum(adj, s, adj.len());
    if reached > 1 && total > 0 {
        ((reached - 1) as nat, total)
    } else {
        (0, 1)
    }
}

/// `scores` holds, by node index, the closeness of every node of `adj`.
pub open spec fn closeness_scores(adj: Seq<Seq<usize>>, scores: Seq<Ratio>) -> bool {
    &&& scores.len() == adj.len()
    &&& forall|s: int| 0 <= s < adj.len() ==> (#[trigger] scores[s])@ == closeness(adj, s)
}

/// Computes the closeness of the node `source` by one search from it.
pub fn node_closeness(graph: &DiGraph, source: usize) -> (score: Ratio)
    requires
        source < successors(*graph).len(),
    ensures
        score@ == closeness(successors(*graph), source as int),
        score.den > 0,
{
    let n = node_count(graph);
    let found = breadth_first(graph, source);
    let ghost adj = successors(*graph);
    let mut reached: u64 = 0;
    let mut total: u64 = 0;
    let mut v: usize = 0;
    while v < n
        invariant
            found.is_search_of(adj, source),
            n == adj.len(),
            n <= u32::MAX,
            v <= n,
            reached == reach_count(adj, source as int, v as nat),
            total == distance_sum(adj, source as int, v as nat),
            reached <= v,
            total <= v * 0xFFFF_FFFF,
        decreases n - v,
    {
        proof {
            assert(as_hops(found.dist@[v as int]) == hops(adj, source as int, v as int));
        }
        match found.dist[v] {
            Some(d) => {
                proof {
                    assert(lists(found.order@, v as int));
                    let p = choose|p: int|
                        0 <= p < found.order@.len() && #[trigger] found.order@[p] == v;
                    assert(found.dist@[found.order@[p] as int].unwrap() <= p);
                }
                reached += 1;
                total += d as u64;
            },
            None => {},
        }
        v += 1;
    }
    if reached > 1 && total > 0 {
        Ratio { num: reached - 1, den: total }
    } else {
        Ratio { num: 0, den: 1 }
    }
}

/// Computes the closeness of every node: entry `s` of the result is the score
/// of node `s`.
pub fn compute_closeness(graph: &DiGraph) -> (scores: Vec<Ratio>)
    ensures
        closeness_scores(successors(*graph), scores@),
        forall|s: int| 0 <= s < scores.len() ==> scores[s].den > 0,
{
    let n = node_count(graph);
    let mut scores: Vec<Ratio> = Vec::new();
    let mut s: usize = 0;
    while s < n
        invariant
            n == successors(*graph).len(),
            n <= u32::MAX,
            s <= n,
            scores.len() == s,
            forall|x: int|
                0 <= x < s ==> (#[trigger] scores[x])@ == closeness(successors(*graph), x)
                    && scores[x].den > 0,
        decreases n - s,
    {
        let score = node_closeness(graph, s);
        scores.push(score);
        s += 1;
    }
    scores
}

/// A walk stays a walk when the graph gains an edge.
proof fn lemma_walk_survives(adj: Seq<Seq<usize>>, a: int, b: usize, s: int, v: int, k: nat)
    requires
        0 <= a < adj.len(),
        has_walk(adj, s, v, k),
    ensures
        has_walk(with_edge(adj, a, b), s, v, k),
    decreases k,
{
    if k > 0 {
        let more = with_edge(adj, a, b);
        let (u, j) = lemma_walk_last_edge(adj, s, v, k);
        lemma_walk_survives(adj, a, b, s, u, (k - 1) as nat);
        if u == a {
            assert(more[u][j + 1] == adj[u][j]);
            lemma_walk_extends(more, s, u, j + 1, (k - 1) as nat);
        } else {
            lemma_walk_extends(more, s, u, j, (k - 1) as nat);
        }
    }
}

/// What was in reach stays in reach, and no farther, when the graph gains an
/// edge.
proof fn lemma_edge_shortens(adj: Seq<Seq<usize>>, a: int, b: usize, s: int, v: int)
    requires
        0 <= a < adj.len(),
        reachable(adj, s, v),
    ensures
        reachable(with_edge(adj, a, b), s, v),
        distance(with_edge(adj, a, b), s, v) <= distance(adj, s, v),
{
    lemma_distance_is_least(adj, s, v);
    lemma_walk_survives(adj, a, b, s, v, distance(adj, s, v));
    lemma_walk_bounds_distance(with_edge(adj, a, b), s, v, distance(adj, s, v));
}

proof fn lemma_sums_after_edge(adj: Seq<Seq<usize>>, a: int, b: usize, s: int, m: nat)
    requires
        0 <= a < adj.len(),
        m <= adj.len(),
        forall|t: int|
            0 <= t < adj.len() && reachable(with_edge(adj, a, b), s, t) ==> reachable(adj, s, t),
    ensures
        reach_count(with_edge(adj, a, b), s, m) == reach_count(adj, s, m),
        distance_sum(with_edge(adj, a, b), s, m) <= distance_sum(adj, s, m),
    decreases m,
{
    if m > 0 {
        lemma_sums_after_edge(adj, a, b, s, (m - 1) as nat);
        if reachable(adj, s, m - 1) {
            lemma_edge_shortens(adj, a, b, s, m - 1);
        }
    }
}

/// Every node in reach other than the source is at least one hop away.
proof fn lemma_distance_sum_bound(adj: Seq<Seq<usize>>, s: int, m: nat)
    requires
        0 <= s,
    ensures
        reach_count(adj, s, m) <= distance_sum(adj, s, m) + if s < m {
            1nat
        } else {
            0nat
        },
    decreases m,
{
    if m > 0 {
        lemma_distance_sum_bound(adj, s, (m - 1) as nat);
        if reachable(adj, s, m - 1) {
            lemma_distance_is_least(adj, s, m - 1);
            lemma_distance_zero(adj, s, m - 1);
        }
    }
}

/// A new edge that brings no new node into the reach of `v` can only shorten
/// the shortest paths from `v`, and so does not lower the closeness of `v`.
pub proof fn law_shorter_paths_keep_closeness(adj: Seq<Seq<usize>>, a: int, b: usize, v: int)
    requires
        0 <= a < adj.len(),
        b < adj.len(),
        0 <= v < adj.len(),
        forall|t: int|
            0 <= t < adj.len() && reachable(with_edge(adj, a, b), v, t) ==> reachable(adj, v, t),
    ensures
        at_most(closeness(adj, v), closeness(with_edge(adj, a, b), v)),
{
    let more = with_edge(adj, a, b);
    lemma_sums_after_edge(adj, a, b, v, adj.len());
    lemma_distance_sum_bound(more, v, adj.len());
    let reached = reach_count(adj, v, adj.len());
    let before = distance_sum(adj, v, adj.len());
    let after = distance_sum(more, v, adj.len());
    if reached > 1 {
        let gain = (reached - 1) as nat;
        assert(gain * after <= gain * before) by (nonlinear_arith)
            requires
                after <= before,
                gain >= 0,
        ;
    }
}

/// From a node without out-edges no walk of one edge or more starts.
proof fn lemma_no_way_out(adj: Seq<Seq<usize>>, s: int, v: int, k: nat)
    requires
        0 <= s < adj.len(),
        adj[s].len() == 0,
        k > 0,
    ensures
        !has_walk(adj, s, v, k),
    decreases k,
{
    if has_walk(adj, s, v, k) {
        let (u, j) = lemma_walk_last_edge(adj, s, v, k);
        if k > 1 {
            lemma_no_way_out(adj, s, u, (k - 1) as nat);
        }
    }
}

proof fn lemma_reaches_itself_only(adj: Seq<Seq<usize>>, s: int, m: nat)
    requires
        0 <= s < adj.len(),
        adj[s].len() == 0,
    ensures
        reach_count(adj, s, m) == if s < m {
            1nat
        } else {
            0nat
        },
    decreases m,
{
    if m > 0 {
        lemma_reaches_itself_only(adj, s, (m - 1) as nat);
        lemma_distance_zero(adj, s, m - 1);
        let t = m - 1;
        if reachable(adj, s, t) && t != s {
            let k = choose|k: nat| has_walk(adj, s, t, k);
            lemma_no_way_out(adj, s, t, k);
        }
    }
}

/// A node without out-edges, such as the node of a graph of one node or a
/// node that is cut off from all others, has closeness zero.
pub proof fn law_dead_end_scores_zero(adj: Seq<Seq<usize>>, s: int)
    requires
        0 <= s < adj.len(),
        adj[s].len() == 0,
    ensures
        closeness(adj, s) == (0nat, 1nat),
{
    lemma_reaches_itself_only(adj, s, adj.len());
}

/// The closeness scores of a graph are determined by the graph: two results
/// for the same graph are the same.
pub proof fn law_closeness_is_repeatable(adj: Seq<Seq<usize>>, first: Seq<Ratio>, second: Seq<Ratio>)
    requires
        closeness_scores(adj, first),
        closeness_scores(adj, second),
    ensures
        first == second,
{
    assert forall|s: int| 0 <= s < adj.len() implies first[s] == second[s] by {
        assert(first[s]@ == closeness(adj, s));
        assert(second[s]@ == closeness(adj, s));
    }
    assert(first =~= second);
}

/// Every closeness score is a fraction of natural numbers with a denominator
/// that is not zero, and the score of a node that reaches no other is zero.
pub proof fn law_closeness_is_a_fraction(adj: Seq<Seq<usize>>, s: int)
    ensures
        closeness(adj, s).1 > 0,
        reach_count(adj, s, adj.len()) <= 1 ==> closeness(adj, s).0 == 0,
{
}

} // verus!
