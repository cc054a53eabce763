//! The dependency of a source on a node: the part of the shortest paths from
//! the source, summed over their targets, that pass through the node.

use crate::paths::{
    distance, has_walk, lemma_distance_is_least, lemma_edge_bounds_distance,
    lemma_occurrences_positive, lemma_walk_bounds_distance, lemma_walk_extends,
    lemma_walk_last_edge, occurrences, precedes, reachable, shortest_count, walk_count, walks_via,
};
use crate::sums::{
    lemma_sum_added, lemma_sum_nothing, lemma_sum_scaled, lemma_sum_single, lemma_sum_swapped, sum,
};
use vstd::prelude::*;

verus! {

/// The part of the shortest paths from `s` to `w` that come through `v`
/// directly before `w`, for one edge from `v` to `w`.
pub open spec fn fraction(adj: Seq<Seq<usize>>, s: int, v: int, w: int) -> real {
    shortest_count(adj, s, v) as real / shortest_count(adj, s, w) as real
}

/// What `w` passes on to `v`: for every edge from `v` to `w` that lies on a
/// shortest path, that part of one plus the dependency of `w`.
pub open spec fn passed_on(adj: Seq<Seq<usize>>, s: int, delta: Seq<real>, v: int, w: int) -> real {
    if precedes(adj, s, v, w) {
        occurrences(adj[v], w) as real * (fraction(adj, s, v, w) * (1real + delta[w]))
    } else {
        0real
    }
}

/// What `v` receives from those of the nodes `0 .. m` that are in `from`.
pub open spec fn received(
    adj: Seq<Seq<usize>>,
    s: int,
    delta: Seq<real>,
    from: Set<int>,
    v: int,
    m: nat,
) -> real
    decreases m,
{
    if m == 0 {
        0real
    } else {
        received(adj, s, delta, from, v, (m - 1) as nat) + if from.contains(m - 1) {
            passed_on(adj, s, delta, v, m - 1)
        } else {
            0real
        }
    }
}

/// `delta` holds the dependency of the source `s` on every node: the
/// dependency of a node is what the nodes one hop farther pass on to it.
pub open spec fn is_dependency(adj: Seq<Seq<usize>>, s: int, delta: Seq<real>) -> bool {
    &&& delta.len() == adj.len()
    &&& forall|v: int|
        0 <= v < adj.len() ==> #[trigger] delta[v] == received(
            adj,
            s,
            delta,
            Set::full(),
            v,
            adj.len(),
        )
}

/// The number of shortest walks from `s` to `t` that pass through `v` on
/// their way: every shortest walk from `s` to `v`, followed by every walk from
/// `v` to `t` that makes up the distance. It is zero unless `t` is farther
/// from `s` than `v`.
pub open spec fn through(adj: Seq<Seq<usize>>, s: int, v: int, t: int) -> nat {
    if reachable(adj, s, v) && reachable(adj, s, t) && distance(adj, s, v) < distance(adj, s, t) {
        shortest_count(adj, s, v) * walk_count(
            adj,
            v,
            t,
            (distance(adj, s, t) - distance(adj, s, v)) as nat,
        )
    } else {
        0
    }
}

/// The part of the shortest walks from `s` to `t` that pass through `v`.
pub open spec fn pair_dependency(adj: Seq<Seq<usize>>, s: int, v: int, t: int) -> real {
    if through(adj, s, v, t) > 0 {
        through(adj, s, v, t) as real / shortest_count(adj, s, t) as real
    } else {
        0real
    }
}

/// The pair dependencies of `s` on `v`, by target.
pub open spec fn by_target(adj: Seq<Seq<usize>>, s: int, v: int) -> spec_fn(int) -> real {
    |t: int| pair_dependency(adj, s, v, t)
}

/// The dependency of `s` on `v`: the sum, over all targets, of the part of
/// the shortest walks from `s` to the target that pass through `v`.
pub open spec fn dependency(adj: Seq<Seq<usize>>, s: int, v: int) -> real {
    sum(by_target(adj, s, v), adj.len())
}

/// By node index: the dependency of `s` on the node.
pub open spec fn dependencies(adj: Seq<Seq<usize>>, s: int) -> Seq<real> {
    Seq::new(adj.len(), |v: int| dependency(adj, s, v))
}

/// The number of edges from `v` to `w`.
pub open spec fn edges(adj: Seq<Seq<usize>>, v: int, w: int) -> real {
    occurrences(adj[v], w) as real
}

/// The number of walks of `k` edges from `v` to `t`.
pub open spec fn walks(adj: Seq<Seq<usize>>, v: int, t: int, k: nat) -> real {
    walk_count(adj, v, t, k) as real
}

/// By their last edge: the walks of `k` edges from `v` to `u`, once for every
/// edge from `u` to `t`.
spec fn by_last_edge(adj: Seq<Seq<usize>>, v: int, t: int, k: nat) -> spec_fn(int) -> real {
    |u: int| walks(adj, v, u, k) * edges(adj, u, t)
}

/// By their first edge: the walks of `k` edges from `w` to `t`, once for every
/// edge from `v` to `w`.
spec fn by_first_edge(adj: Seq<Seq<usize>>, v: int, t: int, k: nat) -> spec_fn(int) -> real {
    |w: int| edges(adj, v, w) * walks(adj, w, t, k)
}

proof fn lemma_walks_end(adj: Seq<Seq<usize>>, v: int, t: int, k: nat, m: nat)
    ensures
        walks_via(adj, v, t, k + 1, m) as real == sum(by_last_edge(adj, v, t, k), m),
    decreases m,
{
    if m > 0 {
        lemma_walks_end(adj, v, t, k, (m - 1) as nat);
        let a = occurrences(adj[m - 1], t);
        let b = walk_count(adj, v, m - 1, k);
        assert((a * b) as real == (b as real) * (a as real)) by (nonlinear_arith);
    }
}

/// A walk of one edge or more ends with an edge.
proof fn lemma_walks_by_last_edge(adj: Seq<Seq<usize>>, v: int, t: int, k: nat)
    ensures
        walks(adj, v, t, k + 1) == sum(by_last_edge(adj, v, t, k), adj.len()),
{
    lemma_walks_end(adj, v, t, k, adj.len());
}

/// A walk of one edge or more starts with an edge.
proof fn lemma_walks_by_first_edge(adj: Seq<Seq<usize>>, v: int, t: int, k: nat)
    requires
        0 <= v < adj.len(),
        0 <= t < adj.len(),
    ensures
        walks(adj, v, t, k + 1) == sum(by_first_edge(adj, v, t, k), adj.len()),
    decreases k,
{
    let n = adj.len();
    if k == 0 {
        let ends = by_last_edge(adj, v, t, 0);
        let starts = by_first_edge(adj, v, t, 0);
        lemma_walks_by_last_edge(adj, v, t, 0);
        assert forall|u: int| 0 <= u < n && u != v implies #[trigger] ends(u) == 0real by {
            let e = edges(adj, u, t);
            assert(0real * e == 0real) by (nonlinear_arith);
        }
        lemma_sum_single(ends, v, n);
        assert forall|w: int| 0 <= w < n && w != t implies #[trigger] starts(w) == 0real by {
            let e = edges(adj, v, w);
            assert(e * 0real == 0real) by (nonlinear_arith);
        }
        lemma_sum_single(starts, t, n);
        let e = edges(adj, v, t);
        assert(1real * e == e * 1real) by (nonlinear_arith);
    } else {
        let j = (k - 1) as nat;
        let table = |u: int, w: int| edges(adj, v, w) * walks(adj, w, u, j) * edges(adj, u, t);
        let rows = by_last_edge(adj, v, t, k);
        let cols = by_first_edge(adj, v, t, k);
        assert forall|u: int| 0 <= u < n implies #[trigger] rows(u) == sum(
            |w: int| table(u, w),
            n,
        ) by {
            lemma_walks_by_first_edge(adj, v, u, j);
            let c = edges(adj, u, t);
            let part = by_first_edge(adj, v, u, j);
            let row = |w: int| table(u, w);
            assert forall|w: int| 0 <= w < n implies #[trigger] row(w) == c * part(w) by {
                let a = edges(adj, v, w);
                let b = walks(adj, w, u, j);
                assert(a * b * c == c * (a * b)) by (nonlinear_arith);
            }
            lemma_sum_scaled(c, part, row, n);
            let total = sum(part, n);
            assert(total * c == c * total) by (nonlinear_arith);
        }
        assert forall|w: int| 0 <= w < n implies #[trigger] cols(w) == sum(
            |u: int| table(u, w),
            n,
        ) by {
            lemma_walks_by_last_edge(adj, w, t, j);
            let c = edges(adj, v, w);
            let part = by_last_edge(adj, w, t, j);
            let col = |u: int| table(u, w);
            assert forall|u: int| 0 <= u < n implies #[trigger] col(u) == c * part(u) by {
                let b = walks(adj, w, u, j);
                let e = edges(adj, u, t);
                assert(c * b * e == c * (b * e)) by (nonlinear_arith);
            }
            lemma_sum_scaled(c, part, col, n);
        }
        lemma_sum_swapped(table, rows, cols, n, n);
        lemma_walks_by_last_edge(adj, v, t, k);
    }
}

/// A walk to `b` followed by a walk from `b` is a walk.
proof fn lemma_walks_join(adj: Seq<Seq<usize>>, a: int, b: int, c: int, i: nat, j: nat)
    requires
        has_walk(adj, a, b, i),
        has_walk(adj, b, c, j),
    ensures
        has_walk(adj, a, c, i + j),
    decreases j,
{
    if j > 0 {
        let (u, slot) = lemma_walk_last_edge(adj, b, c, j);
        lemma_walks_join(adj, a, b, u, i, (j - 1) as nat);
        lemma_walk_extends(adj, a, u, slot, (i + j - 1) as nat);
    }
}

/// What the nodes pass on to `v`, by node.
spec fn handed(adj: Seq<Seq<usize>>, s: int, delta: Seq<real>, v: int) -> spec_fn(int) -> real {
    |w: int| passed_on(adj, s, delta, v, w)
}

proof fn lemma_received_is_sum(adj: Seq<Seq<usize>>, s: int, delta: Seq<real>, v: int, m: nat)
    ensures
        received(adj, s, delta, Set::full(), v, m) == sum(handed(adj, s, delta, v), m),
    decreases m,
{
    if m > 0 {
        lemma_received_is_sum(adj, s, delta, v, (m - 1) as nat);
    }
}

/// What reaches `v` from the target `t` by way of `w`: the pair dependency of
/// `w` on `t`, or all of a path that ends in `w` itself, shared out among the
/// edges from `v` to `w`.
spec fn relayed(adj: Seq<Seq<usize>>, s: int, v: int) -> spec_fn(int, int) -> real {
    |t: int, w: int|
        if precedes(adj, s, v, w) {
            edges(adj, v, w) * (fraction(adj, s, v, w) * (pair_dependency(adj, s, w, t) + if t
                == w {
                1real
            } else {
                0real
            }))
        } else {
            0real
        }
}

proof fn lemma_ratio_chain(a: real, b: real, c: real, w: real)
    requires
        b >= 1real,
        c >= 1real,
    ensures
        (a / b) * ((b * w) / c) == (a / c) * w,
        (a * w) / c == (a / c) * w,
{
    let x = a / b;
    let y = (b * w) / c;
    let z = a / c;
    assert(x * b == a) by (nonlinear_arith)
        requires
            x == a / b,
            b >= 1real,
    ;
    assert(y * c == b * w) by (nonlinear_arith)
        requires
            y == (b * w) / c,
            c >= 1real,
    ;
    assert(z * c == a) by (nonlinear_arith)
        requires
            z == a / c,
            c >= 1real,
    ;
    assert(x * y == z * w) by (nonlinear_arith)
        requires
            x * b == a,
            y * c == b * w,
            z * c == a,
            b >= 1real,
            c >= 1real,
    ;
    let q = (a * w) / c;
    assert(q * c == a * w) by (nonlinear_arith)
        requires
            q == (a * w) / c,
            c >= 1real,
    ;
    assert(q == z * w) by (nonlinear_arith)
        requires
            q * c == a * w,
            z * c == a,
            c >= 1real,
    ;
}

/// An edge that lies on no shortest path starts no walk that makes up the
/// distance to a farther target.
proof fn lemma_no_detour(adj: Seq<Seq<usize>>, s: int, v: int, w: int, t: int)
    requires
        0 <= v < adj.len(),
        reachable(adj, s, v),
        reachable(adj, s, t),
        distance(adj, s, v) < distance(adj, s, t),
        !precedes(adj, s, v, w),
    ensures
        edges(adj, v, w) * walks(
            adj,
            w,
            t,
            (distance(adj, s, t) - distance(adj, s, v) - 1) as nat,
        ) == 0real,
{
    let gap = (distance(adj, s, t) - distance(adj, s, v) - 1) as nat;
    let e = occurrences(adj[v], w);
    let c = walk_count(adj, w, t, gap);
    if e > 0 && c > 0 {
        lemma_occurrences_positive(adj[v], w);
        let j = choose|j: int| 0 <= j < adj[v].len() && #[trigger] adj[v][j] == w;
        lemma_edge_bounds_distance(adj, s, v, j);
        lemma_distance_is_least(adj, s, w);
        lemma_walks_join(adj, s, w, t, distance(adj, s, w), gap);
        lemma_walk_bounds_distance(adj, s, t, distance(adj, s, w) + gap);
        assert(false);
    }
    assert((e as real) * (c as real) == 0real) by (nonlinear_arith)
        requires
            e == 0 || c == 0,
    ;
}

/// The pair dependency of `v` on `t` is what reaches `v` from `t` by way of
/// the nodes one hop farther.
proof fn lemma_pair_relayed(adj: Seq<Seq<usize>>, s: int, v: int, t: int)
    requires
        0 <= v < adj.len(),
        0 <= t < adj.len(),
    ensures
        pair_dependency(adj, s, v, t) == sum(|w: int| relayed(adj, s, v)(t, w), adj.len()),
{
    let n = adj.len();
    let row = |w: int| relayed(adj, s, v)(t, w);
    if reachable(adj, s, v) && reachable(adj, s, t) && distance(adj, s, v) < distance(adj, s, t) {
        lemma_distance_is_least(adj, s, v);
        lemma_distance_is_least(adj, s, t);
        let gap = (distance(adj, s, t) - distance(adj, s, v) - 1) as nat;
        let sv = shortest_count(adj, s, v) as real;
        let st = shortest_count(adj, s, t) as real;
        let c = sv / st;
        let starts = by_first_edge(adj, v, t, gap);
        lemma_walks_by_first_edge(adj, v, t, gap);
        assert forall|w: int| 0 <= w < n implies #[trigger] row(w) == c * starts(w) by {
            let e = edges(adj, v, w);
            let onward = walks(adj, w, t, gap);
            if precedes(adj, s, v, w) {
                lemma_distance_is_least(adj, s, w);
                let sw = shortest_count(adj, s, w) as real;
                let x = fraction(adj, s, v, w);
                if distance(adj, s, w) < distance(adj, s, t) {
                    let count = walk_count(adj, w, t, gap);
                    let near = shortest_count(adj, s, w);
                    assert((near * count) as real == sw * onward) by (nonlinear_arith)
                        requires
                            sw == near as real,
                            onward == count as real,
                    ;
                    if count > 0 {
                        assert(near * count > 0) by (nonlinear_arith)
                            requires
                                near >= 1,
                                count >= 1,
                        ;
                        lemma_ratio_chain(sv, sw, st, onward);
                        let y = (sw * onward) / st;
                        assert(e * (x * (y + 0real)) == c * (e * onward)) by (nonlinear_arith)
                            requires
                                x * y == c * onward,
                        ;
                    } else {
                        assert(near * count == 0) by (nonlinear_arith)
                            requires
                                count == 0,
                        ;
                        assert(e * (x * (0real + 0real)) == c * (e * 0real)) by (nonlinear_arith);
                    }
                } else {
                    if t == w {
                        assert(e * (x * (0real + 1real)) == x * (e * 1real)) by (nonlinear_arith);
                    } else {
                        assert(e * (x * (0real + 0real)) == c * (e * 0real)) by (nonlinear_arith);
                    }
                }
            } else {
                lemma_no_detour(adj, s, v, w, t);
                assert(c * 0real == 0real) by (nonlinear_arith);
            }
        }
        lemma_sum_scaled(c, starts, row, n);
        let near = shortest_count(adj, s, v);
        let count = walk_count(adj, v, t, gap + 1);
        let onward = walks(adj, v, t, gap + 1);
        assert((near * count) as real == sv * onward) by (nonlinear_arith)
            requires
                sv == near as real,
                onward == count as real,
        ;
        if count > 0 {
            assert(near * count > 0) by (nonlinear_arith)
                requires
                    near >= 1,
                    count >= 1,
            ;
            lemma_ratio_chain(sv, 1real, st, onward);
        } else {
            assert(near * count == 0) by (nonlinear_arith)
                requires
                    count == 0,
            ;
            assert(c * 0real == 0real) by (nonlinear_arith);
        }
    } else {
        assert forall|w: int| 0 <= w < n implies #[trigger] row(w) == 0real by {
            if precedes(adj, s, v, w) {
                let e = edges(adj, v, w);
                let x = fraction(adj, s, v, w);
                assert(e * (x * (0real + 0real)) == 0real) by (nonlinear_arith);
            }
        }
        lemma_sum_nothing(row, n);
    }
}

/// What `w` passes on to `v` is what reaches `v` by way of `w` from all
/// targets.
proof fn lemma_passed_on_relayed(adj: Seq<Seq<usize>>, s: int, v: int, w: int)
    requires
        0 <= w < adj.len(),
    ensures
        passed_on(adj, s, dependencies(adj, s), v, w) == sum(
            |t: int| relayed(adj, s, v)(t, w),
            adj.len(),
        ),
{
    let n = adj.len();
    let col = |t: int| relayed(adj, s, v)(t, w);
    if precedes(adj, s, v, w) {
        let c = edges(adj, v, w) * fraction(adj, s, v, w);
        let pairs = by_target(adj, s, w);
        let own = |t: int|
            if t == w {
                1real
            } else {
                0real
            };
        let both = |t: int| pairs(t) + own(t);
        lemma_sum_single(own, w, n);
        lemma_sum_added(pairs, own, both, n);
        assert forall|t: int| 0 <= t < n implies #[trigger] col(t) == c * both(t) by {
            let e = edges(adj, v, w);
            let x = fraction(adj, s, v, w);
            let h = both(t);
            assert(e * (x * h) == (e * x) * h) by (nonlinear_arith);
        }
        lemma_sum_scaled(c, both, col, n);
        let e = edges(adj, v, w);
        let x = fraction(adj, s, v, w);
        let d = dependency(adj, s, w);
        assert((e * x) * (d + 1real) == e * (x * (1real + d))) by (nonlinear_arith);
    } else {
        lemma_sum_nothing(col, n);
    }
}

/// The dependencies obey the recurrence: the dependency on a node is what
/// the nodes one hop farther pass on to it.
pub proof fn lemma_dependency_recurs(adj: Seq<Seq<usize>>, s: int)
    ensures
        is_dependency(adj, s, dependencies(adj, s)),
{
    let n = adj.len();
    let delta = dependencies(adj, s);
    assert forall|v: int| 0 <= v < n implies #[trigger] delta[v] == received(
        adj,
        s,
        delta,
        Set::full(),
        v,
        n,
    ) by {
        let rows = by_target(adj, s, v);
        let cols = handed(adj, s, delta, v);
        assert forall|t: int| 0 <= t < n implies #[trigger] rows(t) == sum(
            |w: int| relayed(adj, s, v)(t, w),
            n,
        ) by {
            lemma_pair_relayed(adj, s, v, t);
        }
        assert forall|w: int| 0 <= w < n implies #[trigger] cols(w) == sum(
            |t: int| relayed(adj, s, v)(t, w),
            n,
        ) by {
            lemma_passed_on_relayed(adj, s, v, w);
        }
        lemma_sum_swapped(relayed(adj, s, v), rows, cols, n, n);
        lemma_received_is_sum(adj, s, delta, v, n);
    }
}

/// The greatest distance from `s` to one of the nodes `0 .. m` in its reach.
spec fn farthest(adj: Seq<Seq<usize>>, s: int, m: nat) -> nat
    decreases m,
{
    if m == 0 {
        0
    } else {
        let rest = farthest(adj, s, (m - 1) as nat);
        if reachable(adj, s, m - 1) && distance(adj, s, m - 1) > rest {
            distance(adj, s, m - 1)
        } else {
            rest
        }
    }
}

proof fn lemma_farthest_bounds(adj: Seq<Seq<usize>>, s: int, v: int, m: nat)
    requires
        0 <= v < m,
        reachable(adj, s, v),
    ensures
        distance(adj, s, v) <= farthest(adj, s, m),
    decreases m,
{
    if v < m - 1 {
        lemma_farthest_bounds(adj, s, v, (m - 1) as nat);
    }
}

/// What a node receives depends only on the dependencies of the nodes one hop
/// farther.
proof fn lemma_received_same(
    adj: Seq<Seq<usize>>,
    s: int,
    one: Seq<real>,
    other: Seq<real>,
    v: int,
    m: nat,
)
    requires
        forall|w: int| 0 <= w < m && precedes(adj, s, v, w) ==> one[w] == other[w],
    ensures
        received(adj, s, one, Set::full(), v, m) == received(adj, s, other, Set::full(), v, m),
    decreases m,
{
    if m > 0 {
        lemma_received_same(adj, s, one, other, v, (m - 1) as nat);
    }
}

/// Two tables that obey the recurrence agree on every node in reach that is
/// at least `k` hops away.
proof fn lemma_agree_from(adj: Seq<Seq<usize>>, s: int, one: Seq<real>, other: Seq<real>, k: nat)
    requires
        is_dependency(adj, s, one),
        is_dependency(adj, s, other),
    ensures
        forall|v: int|
            0 <= v < adj.len() && reachable(adj, s, v) && distance(adj, s, v) >= k ==> one[v]
                == other[v],
    decreases farthest(adj, s, adj.len()) + 1 - k,
{
    let n = adj.len();
    if k > farthest(adj, s, n) {
        assert forall|v: int|
            0 <= v < n && reachable(adj, s, v) && distance(adj, s, v) >= k implies one[v]
            == other[v] by {
            lemma_farthest_bounds(adj, s, v, n);
        }
    } else {
        lemma_agree_from(adj, s, one, other, k + 1);
        assert forall|v: int|
            0 <= v < n && reachable(adj, s, v) && distance(adj, s, v) >= k implies one[v]
            == other[v] by {
            lemma_received_same(adj, s, one, other, v, n);
        }
    }
}

/// The recurrence has one solution: a table that obeys it holds the
/// dependencies.
pub proof fn lemma_dependency_unique(adj: Seq<Seq<usize>>, s: int, delta: Seq<real>)
    requires
        is_dependency(adj, s, delta),
    ensures
        delta == dependencies(adj, s),
{
    let n = adj.len();
    let exact = dependencies(adj, s);
    lemma_dependency_recurs(adj, s);
    lemma_agree_from(adj, s, delta, exact, 0);
    assert forall|v: int| 0 <= v < n implies delta[v] == exact[v] by {
        if !reachable(adj, s, v) {
            lemma_received_same(adj, s, delta, exact, v, n);
        }
    }
    assert(delta =~= exact);
}

/// The source depends on no node that it does not reach.
pub proof fn lemma_no_dependency(adj: Seq<Seq<usize>>, s: int, v: int)
    requires
        !reachable(adj, s, v),
    ensures
        dependency(adj, s, v) == 0real,
{
    lemma_sum_nothing(by_target(adj, s, v), adj.len());
}

} // verus!
