//! Building the plan of one source: the nodes are taken in the reverse of
//! the breadth-first order, and each passes its dependency on to its
//! predecessors before it is credited with it.

use crate::betweenness::{
    back_propagation, counts, credits_dependency, flow, node_steps, predecessor_lists, schedule,
    settled_before_read, well_defined, zeros, Step,
};
use crate::bfs::lists;
use crate::dependency::{fraction, is_dependency, passed_on, received};
use crate::paths::{
    lemma_distance_is_least, lemma_occurrences_positive, lemma_occurrences_prefix, occurrences,
    precedes, reachable,
};
use crate::shortest_paths::ShortestPaths;
use vstd::prelude::*;

verus! {

/// What a node receives depends only on the dependencies of the nodes it
/// receives from.
proof fn lemma_received_agrees(
    adj: Seq<Seq<usize>>,
    s: int,
    one: Seq<real>,
    other: Seq<real>,
    from: Set<int>,
    v: int,
    m: nat,
)
    requires
        forall|w: int| 0 <= w < m && from.contains(w) ==> one[w] == other[w],
    ensures
        received(adj, s, one, from, v, m) == received(adj, s, other, from, v, m),
    decreases m,
{
    if m > 0 {
        lemma_received_agrees(adj, s, one, other, from, v, (m - 1) as nat);
    }
}

/// One more node to receive from adds what that node passes on.
proof fn lemma_received_more(
    adj: Seq<Seq<usize>>,
    s: int,
    delta: Seq<real>,
    from: Set<int>,
    w: int,
    v: int,
    m: nat,
)
    requires
        !from.contains(w),
    ensures
        received(adj, s, delta, from.insert(w), v, m) == received(adj, s, delta, from, v, m) + if 0
            <= w < m {
            passed_on(adj, s, delta, v, w)
        } else {
            0real
        },
    decreases m,
{
    if m > 0 {
        lemma_received_more(adj, s, delta, from, w, v, (m - 1) as nat);
    }
}

/// Nodes out of reach pass nothing on.
proof fn lemma_received_in_reach(
    adj: Seq<Seq<usize>>,
    s: int,
    delta: Seq<real>,
    from: Set<int>,
    v: int,
    m: nat,
)
    requires
        forall|w: int| 0 <= w < m && reachable(adj, s, w) ==> from.contains(w),
    ensures
        received(adj, s, delta, from, v, m) == received(adj, s, delta, Set::full(), v, m),
    decreases m,
{
    if m > 0 {
        lemma_received_in_reach(adj, s, delta, from, v, (m - 1) as nat);
    }
}

/// The state of the back-propagation once the last `r` nodes of the order are
/// done.
spec fn propagating(
    adj: Seq<Seq<usize>>,
    s: usize,
    paths: ShortestPaths,
    steps: Seq<Step>,
    r: nat,
) -> bool {
    &&& paths.is_paths_of(adj, s)
    &&& r <= paths.order@.len()
    &&& settled_before_read(steps)
    &&& well_defined(steps, adj.len())
    &&& forall|a: int|
        0 <= a < steps.len() ==> exists|p: int|
            paths.order@.len() - r <= p < paths.order@.len() && #[trigger] paths.order@[p]
                == (#[trigger] steps[a]).reads()
}

/// The last `r` nodes of `order`.
spec fn finished(order: Seq<usize>, r: nat) -> Set<int> {
    Set::new(|x: int| exists|p: int| order.len() - r <= p < order.len() && #[trigger] order[p] == x)
}

/// The flow once the last `r` nodes of the order are done: every node has
/// received what those nodes pass on, and each of them but the source has been
/// credited with its dependency.
spec fn flowing(adj: Seq<Seq<usize>>, s: usize, order: Seq<usize>, steps: Seq<Step>, r: nat) -> bool {
    let (delta, credit) = flow(steps, adj.len());
    let done = finished(order, r);
    &&& delta.len() == adj.len()
    &&& credit.len() == adj.len()
    &&& forall|v: int|
        0 <= v < adj.len() ==> #[trigger] delta[v] == received(
            adj,
            s as int,
            delta,
            done,
            v,
            adj.len(),
        )
    &&& forall|w: int|
        0 <= w < adj.len() ==> #[trigger] credit[w] == if done.contains(w) && w != s {
            delta[w]
        } else {
            0real
        }
}

/// The flow while the node `w` passes its dependency on: the first `k` of its
/// predecessors have received their part, and nothing else has changed since
/// the steps `before`.
spec fn passing(
    adj: Seq<Seq<usize>>,
    s: usize,
    preds: Seq<usize>,
    before: Seq<Step>,
    steps: Seq<Step>,
    w: int,
    k: int,
) -> bool {
    let (delta0, credit0) = flow(before, adj.len());
    let (delta, credit) = flow(steps, adj.len());
    &&& delta0.len() == adj.len()
    &&& delta.len() == adj.len()
    &&& credit == credit0
    &&& forall|x: int|
        0 <= x < adj.len() ==> #[trigger] delta[x] == delta0[x] + occurrences(preds.take(k), x) as real
            * (fraction(adj, s as int, x, w) * (1real + delta0[w]))
}

/// One more predecessor of `w` receives its part.
proof fn lemma_passed(
    adj: Seq<Seq<usize>>,
    s: usize,
    paths: ShortestPaths,
    before: Seq<Step>,
    steps: Seq<Step>,
    w: usize,
    k: int,
    step: Step,
)
    requires
        paths.is_paths_of(adj, s),
        w < adj.len(),
        reachable(adj, s as int, w as int),
        0 <= k < paths.pred@[w as int]@.len(),
        passing(adj, s, paths.pred@[w as int]@, before, steps, w as int, k),
        step == (Step::Propagate {
            from: w,
            to: paths.pred@[w as int]@[k],
            paths_to: paths.sigma@[paths.pred@[w as int]@[k] as int],
            paths_from: paths.sigma@[w as int],
        }),
    ensures
        passing(adj, s, paths.pred@[w as int]@, before, steps.push(step), w as int, k + 1),
{
    let n = adj.len();
    let preds = paths.pred@[w as int]@;
    let v = preds[k];
    let (delta0, credit0) = flow(before, n);
    let (delta, credit) = flow(steps, n);
    assert(steps.push(step).drop_last() =~= steps);
    assert(preds.take(k + 1).drop_last() =~= preds.take(k));
    assert(v < n);
    // `w` is not among its own predecessors, so its dependency has not changed.
    assert(occurrences(preds, w as int) == 0);
    lemma_occurrences_prefix(preds, k, w as int);
    let rest = fraction(adj, s as int, w as int, w as int) * (1real + delta0[w as int]);
    assert(0 as real * rest == 0real) by (nonlinear_arith);
    assert(delta[w as int] == delta0[w as int]);
    let part = fraction(adj, s as int, v as int, w as int) * (1real + delta0[w as int]);
    let had = occurrences(preds.take(k), v as int) as real;
    assert((had + 1real) * part == had * part + part) by (nonlinear_arith);
    let (delta2, credit2) = flow(steps.push(step), n);
    assert(delta2 == delta.update(v as int, delta[v as int] + part));
    assert forall|x: int| 0 <= x < n implies #[trigger] delta2[x] == delta0[x] + occurrences(
        preds.take(k + 1),
        x,
    ) as real * (fraction(adj, s as int, x, w as int) * (1real + delta0[w as int])) by {
        assert(delta[x] == delta0[x] + occurrences(preds.take(k), x) as real * (fraction(
            adj,
            s as int,
            x,
            w as int,
        ) * (1real + delta0[w as int])));
    }
}

/// The node `order[len - 1 - r]` is done once all its predecessors have
/// received their part and it has been credited, unless it is the source.
proof fn lemma_node_done(
    adj: Seq<Seq<usize>>,
    s: usize,
    paths: ShortestPaths,
    before: Seq<Step>,
    steps: Seq<Step>,
    r: nat,
)
    requires
        paths.is_paths_of(adj, s),
        s < adj.len(),
        r < paths.order@.len(),
        flowing(adj, s, paths.order@, before, r),
        ({
            let w = paths.order@[paths.order@.len() - 1 - r];
            let preds = paths.pred@[w as int]@;
            passing(adj, s, preds, before, steps, w as int, preds.len() as int)
        }),
    ensures
        ({
            let w = paths.order@[paths.order@.len() - 1 - r];
            flowing(
                adj,
                s,
                paths.order@,
                if w != s {
                    steps.push(Step::Credit { node: w })
                } else {
                    steps
                },
                r + 1,
            )
        }),
{
    let n = adj.len();
    let order = paths.order@;
    let dist = paths.dist@;
    let w = order[order.len() - 1 - r];
    let preds = paths.pred@[w as int]@;
    let done = finished(order, r);
    let done2 = finished(order, r + 1);
    let (delta0, credit0) = flow(before, n);
    let (delta, credit) = flow(steps, n);
    let last = if w != s {
        steps.push(Step::Credit { node: w })
    } else {
        steps
    };
    let (delta2, credit2) = flow(last, n);
    assert(preds.take(preds.len() as int) =~= preds);
    assert(dist[w as int].is_some());
    assert(w < n);
    if w != s {
        assert(last.drop_last() =~= steps);
    }
    assert(delta2 == delta);
    assert(!done.contains(w as int)) by {
        if done.contains(w as int) {
            let p = choose|p: int| order.len() - r <= p < order.len() && #[trigger] order[p] == w;
            assert(order[order.len() - 1 - r] == order[p]);
        }
    }
    assert(done2 =~= done.insert(w as int)) by {
        assert forall|x: int| done2.contains(x) implies done.insert(w as int).contains(x) by {
            let p = choose|p: int|
                order.len() - (r + 1) <= p < order.len() && #[trigger] order[p] == x;
            if p != order.len() - 1 - r {
                assert(done.contains(order[p] as int));
            }
        }
        assert forall|x: int| done.insert(w as int).contains(x) implies done2.contains(x) by {
            if x == w {
                assert(order[order.len() - 1 - r] == w);
            } else {
                let p = choose|p: int|
                    order.len() - r <= p < order.len() && #[trigger] order[p] == x;
                assert(order[p] == x);
            }
        }
    }
    // A node that is done, or `w` itself, is no predecessor of `w`.
    assert forall|x: int| 0 <= x < n && (done.contains(x) || x == w) implies delta[x]
        == delta0[x] by {
        if done.contains(x) {
            let p = choose|p: int| order.len() - r <= p < order.len() && #[trigger] order[p] == x;
            assert(dist[order[order.len() - 1 - r] as int].unwrap() <= dist[order[p] as int].unwrap());
        }
        assert(!precedes(adj, s as int, x, w as int));
        assert(occurrences(preds, x) == 0);
        let rest = fraction(adj, s as int, x, w as int) * (1real + delta0[w as int]);
        assert(0 as real * rest == 0real) by (nonlinear_arith);
    }
    assert forall|v: int| 0 <= v < n implies #[trigger] delta[v] == received(
        adj,
        s as int,
        delta,
        done2,
        v,
        n,
    ) by {
        lemma_received_agrees(adj, s as int, delta, delta0, done, v, n);
        lemma_received_more(adj, s as int, delta, done, w as int, v, n);
        assert(delta0[v] == received(adj, s as int, delta0, done, v, n));
        let rest = fraction(adj, s as int, v, w as int) * (1real + delta0[w as int]);
        assert(occurrences(preds, v) == if precedes(adj, s as int, v, w as int) {
            occurrences(adj[v], w as int)
        } else {
            0
        });
        if !precedes(adj, s as int, v, w as int) {
            assert(0 as real * rest == 0real) by (nonlinear_arith);
        }
    }
    assert forall|x: int| 0 <= x < n implies #[trigger] credit2[x] == if done2.contains(x) && x
        != s {
        delta2[x]
    } else {
        0real
    } by {
        assert(credit0[x] == if done.contains(x) && x != s {
            delta0[x]
        } else {
            0real
        });
    }
}

/// Once every node of the order is done, the dependencies obey their
/// recurrence, and the credits are the dependencies of the nodes in reach.
proof fn lemma_all_done(adj: Seq<Seq<usize>>, s: usize, paths: ShortestPaths, steps: Seq<Step>)
    requires
        paths.is_paths_of(adj, s),
        s < adj.len(),
        flowing(adj, s, paths.order@, steps, paths.order@.len()),
    ensures
        is_dependency(adj, s as int, flow(steps, adj.len()).0),
        credits_dependency(adj, s as int, flow(steps, adj.len()).0, flow(steps, adj.len()).1),
{
    let n = adj.len();
    let order = paths.order@;
    let dist = paths.dist@;
    let done = finished(order, order.len());
    let (delta, credit) = flow(steps, n);
    assert forall|w: int| 0 <= w < n implies (reachable(adj, s as int, w) <==> done.contains(w)) by {
        assert(dist[w].is_some() <==> reachable(adj, s as int, w));
        if dist[w].is_some() {
            assert(lists(order, w));
            let p = choose|p: int| 0 <= p < order.len() && #[trigger] order[p] == w;
            assert(done.contains(w));
        }
        if done.contains(w) {
            let p = choose|p: int| 0 <= p < order.len() && #[trigger] order[p] == w;
            assert(dist[order[p] as int].is_some());
        }
    }
    assert forall|v: int| 0 <= v < n implies #[trigger] delta[v] == received(
        adj,
        s as int,
        delta,
        Set::full(),
        v,
        n,
    ) by {
        lemma_received_in_reach(adj, s as int, delta, done, v, n);
    }
    assert forall|w: int| 0 <= w < n implies #[trigger] credit[w] == if w != s && reachable(
        adj,
        s as int,
        w,
    ) {
        delta[w]
    } else {
        0real
    } by {
        assert(credit[w] == if done.contains(w) && w != s {
            delta[w]
        } else {
            0real
        });
    }
}

/// The steps that carry the dependencies of the source's shortest paths back
/// from the farthest nodes to the source, and credit each node other than the
/// source with its own.
pub(crate) fn steps_of(paths: &ShortestPaths, source: usize, Ghost(adj): Ghost<Seq<Seq<usize>>>) -> (steps:
    Vec<Step>)
    requires
        paths.is_paths_of(adj, source),
        source < adj.len(),
    ensures
        steps@ == schedule(adj, source),
        settled_before_read(steps@),
        well_defined(steps@, adj.len()),
        is_dependency(adj, source as int, flow(steps@, adj.len()).0),
        credits_dependency(
            adj,
            source as int,
            flow(steps@, adj.len()).0,
            flow(steps@, adj.len()).1,
        ),
{
    let ghost lists: Seq<Seq<usize>> = Seq::new(adj.len(), |w: int| paths.pred@[w]@);
    let ghost s = source as int;
    let total = paths.order.len();
    let mut steps: Vec<Step> = Vec::new();
    let mut r: usize = 0;
    proof {
        lemma_nothing_received(adj, source, paths.order@);
    }
    while r < total
        invariant
            total == paths.order@.len(),
            lists == Seq::new(adj.len(), |w: int| paths.pred@[w]@),
            source < adj.len(),
            s == source,
            propagating(adj, source, *paths, steps@, r as nat),
            flowing(adj, source, paths.order@, steps@, r as nat),
            steps@ == back_propagation(paths.order@, paths.sigma@, lists, source, r as nat),
        decreases total - r,
    {
        let w = paths.order[total - 1 - r];
        let preds = &paths.pred[w];
        let ghost before = steps@;
        let paths_from = paths.sigma[w];
        proof {
            assert(paths.dist@[w as int].is_some());
            lemma_distance_is_least(adj, s, w as int);
            assert(lists[w as int] == preds@);
            lemma_passing_starts(adj, source, preds@, before, w as int);
        }
        let mut k: usize = 0;
        while k < preds.len()
            invariant
                total == paths.order@.len(),
                r < total,
                w == paths.order@[total - 1 - r],
                w < adj.len(),
                preds@ == paths.pred@[w as int]@,
                paths_from == paths.sigma@[w as int],
                paths_from >= 1,
                reachable(adj, s, w as int),
                source < adj.len(),
                s == source,
                k <= preds.len(),
                propagating(adj, source, *paths, before, r as nat),
                propagating(adj, source, *paths, steps@, (r + 1) as nat),
                flowing(adj, source, paths.order@, before, r as nat),
                passing(adj, source, preds@, before, steps@, w as int, k as int),
                steps@ == before + Seq::new(
                    k as nat,
                    |x: int|
                        Step::Propagate {
                            from: w,
                            to: preds@[x],
                            paths_to: paths.sigma@[preds@[x] as int],
                            paths_from,
                        },
                ),
            decreases preds.len() - k,
        {
            let v = preds[k];
            let ghost old_steps = steps@;
            proof {
                assert(paths.pred@[w as int]@[k as int] < adj.len());
                lemma_occurrences_positive(preds@, v as int);
                assert(occurrences(paths.pred@[w as int]@, v as int) > 0);
                assert(precedes(adj, s, v as int, w as int));
                lemma_distance_is_least(adj, s, v as int);
            }
            let step = Step::Propagate { from: w, to: v, paths_to: paths.sigma[v], paths_from };
            steps.push(step);
            proof {
                lemma_step_added(adj, source, *paths, old_steps, r as nat, step);
                lemma_passed(adj, source, *paths, before, old_steps, w, k as int, step);
            }
            k += 1;
        }
        proof {
            lemma_node_done(adj, source, *paths, before, steps@, r as nat);
        }
        if w != source {
            let ghost old_steps = steps@;
            let step = Step::Credit { node: w };
            steps.push(step);
            proof {
                lemma_step_added(adj, source, *paths, old_steps, r as nat, step);
            }
        }
        proof {
            assert(steps@ =~= before + node_steps(paths.sigma@, lists[w as int], source, w));
        }
        r += 1;
    }
    proof {
        assert(paths.sigma@ =~= counts(adj, source));
        assert(lists =~= predecessor_lists(adj, source));
        lemma_all_done(adj, source, *paths, steps@);
    }
    steps
}

/// Before any step, nothing has been received and nothing credited.
proof fn lemma_nothing_received(adj: Seq<Seq<usize>>, s: usize, order: Seq<usize>)
    ensures
        flowing(adj, s, order, Seq::<Step>::empty(), 0),
{
    let delta = zeros(adj.len());
    assert forall|v: int| 0 <= v < adj.len() implies received(
        adj,
        s as int,
        delta,
        finished(order, 0),
        v,
        adj.len(),
    ) == 0real by {
        lemma_none_to_receive_from(adj, s as int, delta, finished(order, 0), v, adj.len());
    }
}

proof fn lemma_none_to_receive_from(
    adj: Seq<Seq<usize>>,
    s: int,
    delta: Seq<real>,
    from: Set<int>,
    v: int,
    m: nat,
)
    requires
        forall|w: int| !from.contains(w),
    ensures
        received(adj, s, delta, from, v, m) == 0real,
    decreases m,
{
    if m > 0 {
        lemma_none_to_receive_from(adj, s, delta, from, v, (m - 1) as nat);
    }
}

/// Before `w` has passed anything on, nothing has changed.
proof fn lemma_passing_starts(
    adj: Seq<Seq<usize>>,
    s: usize,
    preds: Seq<usize>,
    before: Seq<Step>,
    w: int,
)
    requires
        flow(before, adj.len()).0.len() == adj.len(),
    ensures
        passing(adj, s, preds, before, before, w, 0),
{
    let delta0 = flow(before, adj.len()).0;
    assert(preds.take(0) =~= Seq::<usize>::empty());
    assert forall|x: int| 0 <= x < adj.len() implies #[trigger] delta0[x] == delta0[x]
        + occurrences(preds.take(0), x) as real * (fraction(adj, s as int, x, w) * (1real
        + delta0[w])) by {
        let rest = fraction(adj, s as int, x, w) * (1real + delta0[w]);
        assert(0 as real * rest == 0real) by (nonlinear_arith);
    }
}

/// A step of the node `order[len - 1 - r]` may follow the steps of the nodes
/// after it: what it adds to lies one hop nearer than anything read so far.
proof fn lemma_step_added(
    adj: Seq<Seq<usize>>,
    s: usize,
    paths: ShortestPaths,
    steps: Seq<Step>,
    r: nat,
    step: Step,
)
    requires
        r < paths.order@.len(),
        propagating(adj, s, paths, steps, (r + 1) as nat),
        step.reads() == paths.order@[paths.order@.len() - 1 - r],
        match step {
            Step::Propagate { from, to, paths_to, paths_from } => to < adj.len() && paths_to >= 1
                && paths_from >= 1 && precedes(adj, s as int, to as int, from as int),
            Step::Credit { node } => true,
        },
    ensures
        propagating(adj, s, paths, steps.push(step), (r + 1) as nat),
{
    let order = paths.order@;
    let dist = paths.dist@;
    let w = order[order.len() - 1 - r];
    let steps2 = steps.push(step);
    assert(dist[w as int].is_some());
    assert forall|a: int, b: int| 0 <= a < b < steps2.len() implies (
    #[trigger] steps2[b] matches Step::Propagate { to, .. } ==> (#[trigger] steps2[a]).reads()
        != to) by {
        if b == steps.len() {
            if let Step::Propagate { from, to, paths_to, paths_from } = step {
                let x = steps[a].reads();
                let p = choose|p: int|
                    order.len() - (r + 1) <= p < order.len() && #[trigger] order[p] == (
                    #[trigger] steps[a]).reads();
                assert(dist[order[order.len() - 1 - r] as int].unwrap() <= dist[order[p] as int].unwrap());
                assert(dist[to as int].is_some());
            }
        } else {
            assert(steps2[a] == steps[a] && steps2[b] == steps[b]);
        }
    }
    assert forall|a: int| 0 <= a < steps2.len() implies exists|p: int|
        order.len() - (r + 1) <= p < order.len() && #[trigger] order[p] == (
        #[trigger] steps2[a]).reads() by {
        if a == steps.len() {
            assert(order[order.len() - 1 - r] == steps2[a].reads());
        } else {
            let p = choose|p: int|
                order.len() - (r + 1) <= p < order.len() && #[trigger] order[p] == (
                #[trigger] steps[a]).reads();
            assert(order[p] == steps2[a].reads());
        }
    }
}

} // verus!
