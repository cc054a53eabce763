//! Betweenness centrality: for every source, the plan by which the
//! dependencies of its shortest paths flow back from the farthest nodes, and
//! what the plan amounts to in exact arithmetic.

use crate::bfs::discovery_order;
use crate::dependency::{
    dependencies, dependency, lemma_dependency_unique, lemma_no_dependency,
};
use crate::graph::{node_count, successors, DiGraph};
use crate::paths::{reachable, shortest_count};
use crate::plan::steps_of;
use crate::shortest_paths::{counts_fit, predecessors, shortest_paths};
use crate::sums::sum;
use vstd::prelude::*;

verus! {

/// One step of the back-propagation of dependencies from one source. The
/// steps of a source are applied in order to a table `delta` of one number per
/// node, all zero at first, and to the running totals of the nodes.
#[derive(Clone, Copy, Debug, PartialEq, Eq, Structural)]
pub enum Step {
    /// `delta[to] += (paths_to / paths_from) * (1 + delta[from])`.
    Propagate { from: usize, to: usize, paths_to: u64, paths_from: u64 },
    /// `total[node] += delta[node]`.
    Credit { node: usize },
}

/// The totals of all sources are divided by this once every source is done.
pub const PAIR_DIVISOR: u64 = 2;

impl Step {
    /// The node whose dependency the step reads.
    pub open spec fn reads(self) -> usize {
        match self {
            Step::Propagate { from, .. } => from,
            Step::Credit { node } => node,
        }
    }
}

/// By node index: the number of shortest paths from `s`.
pub open spec fn counts(adj: Seq<Seq<usize>>, s: usize) -> Seq<u64> {
    Seq::new(adj.len(), |v: int| shortest_count(adj, s as int, v) as u64)
}

/// By node index: the predecessors on shortest paths from `s`.
pub open spec fn predecessor_lists(adj: Seq<Seq<usize>>, s: usize) -> Seq<Seq<usize>> {
    Seq::new(adj.len(), |w: int| predecessors(adj, s, w))
}

/// The steps for one node `w`: its dependency flows to each of its
/// predecessors in turn, and is then credited to `w` unless `w` is the source.
pub open spec fn node_steps(sigma: Seq<u64>, preds: Seq<usize>, s: usize, w: usize) -> Seq<Step> {
    Seq::new(
        preds.len(),
        |k: int|
            Step::Propagate {
                from: w,
                to: preds[k],
                paths_to: sigma[preds[k] as int],
                paths_from: sigma[w as int],
            },
    ) + if w != s {
        seq![Step::Credit { node: w }]
    } else {
        Seq::empty()
    }
}

/// The steps for the last `r` nodes of `order`, the last node first.
pub open spec fn back_propagation(
    order: Seq<usize>,
    sigma: Seq<u64>,
    pred: Seq<Seq<usize>>,
    s: usize,
    r: nat,
) -> Seq<Step>
    decreases r,
{
    if r == 0 || r > order.len() {
        Seq::empty()
    } else {
        let w = order[order.len() - r];
        back_propagation(order, sigma, pred, s, (r - 1) as nat) + node_steps(
            sigma,
            pred[w as int],
            s,
            w,
        )
    }
}

/// The back-propagation from `s`: the reachable nodes are taken farthest
/// first, in the reverse of the breadth-first order.
pub open spec fn schedule(adj: Seq<Seq<usize>>, s: usize) -> Seq<Step> {
    let order = discovery_order(adj, s);
    back_propagation(order, counts(adj, s), predecessor_lists(adj, s), s, order.len())
}

/// No step adds to the dependency of a node that an earlier step has read.
pub open spec fn settled_before_read(steps: Seq<Step>) -> bool {
    forall|a: int, b: int|
        0 <= a < b < steps.len() ==> (#[trigger] steps[b] matches Step::Propagate { to, .. } ==> (
        #[trigger] steps[a]).reads() != to)
}

/// Every step names nodes of a graph of `n` nodes, and no step divides by a
/// path count of zero.
pub open spec fn well_defined(steps: Seq<Step>, n: nat) -> bool {
    forall|k: int|
        0 <= k < steps.len() ==> match #[trigger] steps[k] {
            Step::Propagate { from, to, paths_to, paths_from } => from < n && to < n && paths_to
                >= 1 && paths_from >= 1,
            Step::Credit { node } => node < n,
        }
}

/// A table of `n` zeros.
pub open spec fn zeros(n: nat) -> Seq<real> {
    Seq::new(n, |i: int| 0real)
}

/// What a step does, in exact arithmetic, to the dependencies `delta` and to
/// the running totals `total`.
pub open spec fn apply(step: Step, delta: Seq<real>, total: Seq<real>) -> (Seq<real>, Seq<real>) {
    match step {
        Step::Propagate { from, to, paths_to, paths_from } => (
            delta.update(
                to as int,
                delta[to as int] + (paths_to as real / paths_from as real) * (1real
                    + delta[from as int]),
            ),
            total,
        ),
        Step::Credit { node } => (
            delta,
            total.update(node as int, total[node as int] + delta[node as int]),
        ),
    }
}

/// The dependencies and the totals once `steps` have been applied in order.
pub open spec fn run(steps: Seq<Step>, delta: Seq<real>, total: Seq<real>) -> (
    Seq<real>,
    Seq<real>,
)
    decreases steps.len(),
{
    if steps.len() == 0 {
        (delta, total)
    } else {
        let (d, t) = run(steps.drop_last(), delta, total);
        apply(steps.last(), d, t)
    }
}

/// The totals of `n` nodes once the plan of every source has been applied,
/// each to dependencies that start at zero.
pub open spec fn totals(plans: Seq<Vec<Step>>, n: nat) -> Seq<real>
    decreases plans.len(),
{
    if plans.len() == 0 {
        zeros(n)
    } else {
        run(plans.last()@, zeros(n), totals(plans.drop_last(), n)).1
    }
}

/// The betweenness of node `v` in exact arithmetic: its total over the plans
/// of all sources, divided by `PAIR_DIVISOR`.
pub open spec fn exact_betweenness(plans: Seq<Vec<Step>>, v: int) -> real {
    totals(plans, plans.len())[v] / (PAIR_DIVISOR as real)
}

/// The dependencies and the credits of one plan on its own: what its steps
/// make of tables of `n` zeros.
pub open spec fn flow(steps: Seq<Step>, n: nat) -> (Seq<real>, Seq<real>) {
    run(steps, zeros(n), zeros(n))
}

/// `credit` gives every node that `s` reaches, but for `s` itself, its
/// dependency, and nothing to any other node.
pub open spec fn credits_dependency(
    adj: Seq<Seq<usize>>,
    s: int,
    delta: Seq<real>,
    credit: Seq<real>,
) -> bool {
    &&& credit.len() == adj.len()
    &&& forall|w: int|
        0 <= w < adj.len() ==> #[trigger] credit[w] == if w != s && reachable(adj, s, w) {
            delta[w]
        } else {
            0real
        }
}

/// Every entry of `table` is zero or more.
pub open spec fn nonnegative(table: Seq<real>) -> bool {
    forall|i: int| 0 <= i < table.len() ==> #[trigger] table[i] >= 0real
}

/// Applied to tables without a negative entry, well-defined steps leave tables
/// without a negative entry.
pub proof fn lemma_run_keeps_sign(steps: Seq<Step>, n: nat, delta: Seq<real>, total: Seq<real>)
    requires
        well_defined(steps, n),
        delta.len() == n,
        total.len() == n,
        nonnegative(delta),
        nonnegative(total),
    ensures
        run(steps, delta, total).0.len() == n,
        run(steps, delta, total).1.len() == n,
        nonnegative(run(steps, delta, total).0),
        nonnegative(run(steps, delta, total).1),
    decreases steps.len(),
{
    if steps.len() > 0 {
        let front = steps.drop_last();
        assert forall|k: int| 0 <= k < front.len() implies match #[trigger] front[k] {
            Step::Propagate { from, to, paths_to, paths_from } => from < n && to < n && paths_to
                >= 1 && paths_from >= 1,
            Step::Credit { node } => node < n,
        } by {
            assert(front[k] == steps[k]);
        }
        lemma_run_keeps_sign(front, n, delta, total);
        let (d, t) = run(front, delta, total);
        assert(steps[steps.len() - 1] == steps.last());
        match steps.last() {
            Step::Propagate { from, to, paths_to, paths_from } => {
                let ratio = paths_to as real / paths_from as real;
                let carried = 1real + d[from as int];
                assert(d[from as int] >= 0real);
                assert(d[to as int] >= 0real);
                assert(ratio >= 0real) by (nonlinear_arith)
                    requires
                        ratio == paths_to as real / paths_from as real,
                        paths_to >= 1,
                        paths_from >= 1,
                ;
                assert(ratio * carried >= 0real) by (nonlinear_arith)
                    requires
                        ratio >= 0real,
                        carried >= 0real,
                ;
            },
            Step::Credit { node } => {
                assert(d[node as int] >= 0real);
                assert(t[node as int] >= 0real);
            },
        }
    }
}

/// In exact arithmetic no betweenness score is negative.
pub proof fn law_betweenness_is_nonnegative(adj: Seq<Seq<usize>>, plans: Seq<Vec<Step>>, v: int)
    requires
        all_schedules(adj, plans),
        0 <= v < adj.len(),
    ensures
        exact_betweenness(plans, v) >= 0real,
{
    lemma_totals_keep_sign(adj, plans, plans.len());
    assert(plans.take(plans.len() as int) =~= plans);
    let total = totals(plans, plans.len())[v];
    assert(total >= 0real);
    assert(total / (PAIR_DIVISOR as real) >= 0real) by (nonlinear_arith)
        requires
            total >= 0real,
            PAIR_DIVISOR == 2,
    ;
}

proof fn lemma_totals_keep_sign(adj: Seq<Seq<usize>>, plans: Seq<Vec<Step>>, upto: nat)
    requires
        all_schedules(adj, plans),
        upto <= plans.len(),
    ensures
        totals(plans.take(upto as int), adj.len()).len() == adj.len(),
        nonnegative(totals(plans.take(upto as int), adj.len())),
    decreases upto,
{
    let done = plans.take(upto as int);
    if upto > 0 {
        lemma_totals_keep_sign(adj, plans, (upto - 1) as nat);
        assert(done.drop_last() =~= plans.take(upto - 1));
        assert(done.last() == plans[upto - 1]);
        assert(is_plan_of(adj, (upto - 1) as usize, Some(plans[upto - 1])));
        lemma_run_keeps_sign(
            plans[upto - 1]@,
            adj.len(),
            zeros(adj.len()),
            totals(plans.take(upto - 1), adj.len()),
        );
    }
}

/// The totals that a plan is applied to do not change what it does: the
/// dependencies are the same, and every total grows by the credit of its node.
proof fn lemma_run_adds_credit(steps: Seq<Step>, n: nat, total: Seq<real>)
    requires
        well_defined(steps, n),
        total.len() == n,
    ensures
        run(steps, zeros(n), total).0 == flow(steps, n).0,
        run(steps, zeros(n), total).0.len() == n,
        run(steps, zeros(n), total).1.len() == n,
        flow(steps, n).1.len() == n,
        forall|w: int|
            0 <= w < n ==> #[trigger] run(steps, zeros(n), total).1[w] == total[w] + flow(
                steps,
                n,
            ).1[w],
    decreases steps.len(),
{
    if steps.len() > 0 {
        let front = steps.drop_last();
        assert forall|k: int| 0 <= k < front.len() implies match #[trigger] front[k] {
            Step::Propagate { from, to, paths_to, paths_from } => from < n && to < n && paths_to
                >= 1 && paths_from >= 1,
            Step::Credit { node } => node < n,
        } by {
            assert(front[k] == steps[k]);
        }
        lemma_run_adds_credit(front, n, total);
        assert(steps[steps.len() - 1] == steps.last());
        let (d, t) = run(front, zeros(n), total);
        let (d0, t0) = flow(front, n);
        match steps.last() {
            Step::Propagate { from, to, paths_to, paths_from } => {},
            Step::Credit { node } => {
                assert(t[node as int] == total[node as int] + t0[node as int]);
                assert(run(steps, zeros(n), total).1 == t.update(
                    node as int,
                    t[node as int] + d[node as int],
                ));
                assert(flow(steps, n).1 == t0.update(node as int, t0[node as int] + d0[node as int]));
            },
        }
    }
}

/// What the plans of the sources `0 .. m` credit to `v`.
pub open spec fn credited(plans: Seq<Vec<Step>>, v: int, m: nat) -> real
    decreases m,
{
    if m == 0 {
        0real
    } else {
        credited(plans, v, (m - 1) as nat) + flow(plans[m - 1]@, plans.len()).1[v]
    }
}

proof fn lemma_totals_are_credits(adj: Seq<Seq<usize>>, plans: Seq<Vec<Step>>, v: int, upto: nat)
    requires
        all_schedules(adj, plans),
        0 <= v < adj.len(),
        upto <= plans.len(),
    ensures
        totals(plans.take(upto as int), adj.len()).len() == adj.len(),
        totals(plans.take(upto as int), adj.len())[v] == credited(plans, v, upto),
    decreases upto,
{
    let done = plans.take(upto as int);
    if upto > 0 {
        lemma_totals_are_credits(adj, plans, v, (upto - 1) as nat);
        assert(done.drop_last() =~= plans.take(upto - 1));
        assert(done.last() == plans[upto - 1]);
        assert(is_plan_of(adj, (upto - 1) as usize, Some(plans[upto - 1])));
        lemma_run_adds_credit(
            plans[upto - 1]@,
            adj.len(),
            totals(plans.take(upto - 1), adj.len()),
        );
    }
}

/// In exact arithmetic the betweenness of a node is half of what the plans of
/// all sources credit to it: half the sum, over the sources that reach it, of
/// their dependency on it.
pub proof fn law_betweenness_sums_dependencies(
    adj: Seq<Seq<usize>>,
    plans: Seq<Vec<Step>>,
    v: int,
)
    requires
        all_schedules(adj, plans),
        0 <= v < adj.len(),
    ensures
        exact_betweenness(plans, v) == credited(plans, v, adj.len()) / 2real,
        forall|s: int|
            0 <= s < adj.len() ==> {
                let (delta, credit) = flow(#[trigger] plans[s]@, adj.len());
                &&& delta == dependencies(adj, s)
                &&& credit[v] == if v != s && reachable(adj, s, v) {
                    delta[v]
                } else {
                    0real
                }
            },
{
    lemma_totals_are_credits(adj, plans, v, plans.len());
    assert(plans.take(plans.len() as int) =~= plans);
    assert forall|s: int| 0 <= s < adj.len() implies {
        let (delta, credit) = flow(#[trigger] plans[s]@, adj.len());
        &&& delta == dependencies(adj, s)
        &&& credit[v] == if v != s && reachable(adj, s, v) {
            delta[v]
        } else {
            0real
        }
    } by {
        assert(is_plan_of(adj, s as usize, Some(plans[s])));
    }
}

/// The dependency of every source but `v` itself on `v`, by source.
pub open spec fn by_source(adj: Seq<Seq<usize>>, v: int) -> spec_fn(int) -> real {
    |s: int|
        if s != v {
            dependency(adj, s, v)
        } else {
            0real
        }
}

/// The betweenness of `v`: the part of the shortest paths between two other
/// nodes that pass through `v`, summed over all ordered pairs of a source and
/// a target, and divided by `PAIR_DIVISOR`.
pub open spec fn betweenness(adj: Seq<Seq<usize>>, v: int) -> real {
    sum(by_source(adj, v), adj.len()) / (PAIR_DIVISOR as real)
}

proof fn lemma_credited_is_sum(adj: Seq<Seq<usize>>, plans: Seq<Vec<Step>>, v: int, m: nat)
    requires
        all_schedules(adj, plans),
        0 <= v < adj.len(),
        m <= adj.len(),
    ensures
        credited(plans, v, m) == sum(by_source(adj, v), m),
    decreases m,
{
    if m > 0 {
        lemma_credited_is_sum(adj, plans, v, (m - 1) as nat);
        let s = m - 1;
        assert(is_plan_of(adj, s as usize, Some(plans[s])));
        if !reachable(adj, s, v) {
            lemma_no_dependency(adj, s, v);
        }
    }
}

/// Applied in exact arithmetic, the plans of all sources give every node its
/// betweenness.
pub proof fn law_plans_give_betweenness(adj: Seq<Seq<usize>>, plans: Seq<Vec<Step>>, v: int)
    requires
        all_schedules(adj, plans),
        0 <= v < adj.len(),
    ensures
        exact_betweenness(plans, v) == betweenness(adj, v),
{
    law_betweenness_sums_dependencies(adj, plans, v);
    lemma_credited_is_sum(adj, plans, v, adj.len());
}

/// `plan` is the outcome of planning the back-propagation from `s`: the
/// schedule, or nothing where a number of shortest paths does not fit.
pub open spec fn is_plan_of(adj: Seq<Seq<usize>>, s: usize, plan: Option<Vec<Step>>) -> bool {
    &&& plan.is_some() == counts_fit(adj, s as int)
    &&& plan matches Some(steps) ==> {
        &&& steps@ == schedule(adj, s)
        &&& settled_before_read(steps@)
        &&& well_defined(steps@, adj.len())
        &&& flow(steps@, adj.len()).0 == dependencies(adj, s as int)
        &&& credits_dependency(adj, s as int, flow(steps@, adj.len()).0, flow(steps@, adj.len()).1)
    }
}

/// The plan for a source is determined by the graph: two plans for the same
/// source of the same graph hold the same steps in the same order.
pub proof fn law_plan_is_repeatable(
    adj: Seq<Seq<usize>>,
    s: usize,
    first: Option<Vec<Step>>,
    second: Option<Vec<Step>>,
)
    requires
        is_plan_of(adj, s, first),
        is_plan_of(adj, s, second),
    ensures
        first.is_some() == second.is_some(),
        first.is_some() ==> first.unwrap()@ == second.unwrap()@,
{
}

/// Plans the back-propagation of dependencies from `source`: the steps that,
/// applied in order, add to the total of every node other than the source its
/// dependency on the shortest paths from the source. Returns `None` where the
/// number of shortest paths to some node does not fit in 64 bits.
pub fn dependency_steps(graph: &DiGraph, source: usize) -> (plan: Option<Vec<Step>>)
    requires
        source < successors(*graph).len(),
    ensures
        is_plan_of(successors(*graph), source, plan),
{
    match shortest_paths(graph, source) {
        Some(paths) => {
            let steps = steps_of(&paths, source, Ghost(successors(*graph)));
            proof {
                lemma_dependency_unique(
                    successors(*graph),
                    source as int,
                    flow(steps@, successors(*graph).len()).0,
                );
            }
            Some(steps)
        },
        None => None,
    }
}

/// `plans` holds, by source, the plan of every node of `adj`.
pub open spec fn all_schedules(adj: Seq<Seq<usize>>, plans: Seq<Vec<Step>>) -> bool {
    &&& plans.len() == adj.len()
    &&& adj.len() <= usize::MAX
    &&& forall|s: int| 0 <= s < adj.len() ==> is_plan_of(adj, s as usize, Some(#[trigger] plans[s]))
}

/// Plans the betweenness of every node: entry `s` of the result is the
/// back-propagation from the source `s`. The betweenness of a node is its
/// total once the steps of every source have been applied, divided by
/// `PAIR_DIVISOR`. All plans are held at once; `dependency_steps` gives them
/// one source at a time. Returns `None` where, from some source, the number of
/// shortest paths to some node does not fit in 64 bits.
pub fn compute_betweenness(graph: &DiGraph) -> (plans: Option<Vec<Vec<Step>>>)
    ensures
        plans.is_some() == forall|s: int|
            0 <= s < successors(*graph).len() ==> #[trigger] counts_fit(successors(*graph), s),
        plans matches Some(all) ==> all_schedules(successors(*graph), all@),
        plans matches Some(all) ==> forall|v: int|
            0 <= v < successors(*graph).len() ==> #[trigger] exact_betweenness(all@, v)
                == betweenness(successors(*graph), v),
{
    let n = node_count(graph);
    let mut plans: Vec<Vec<Step>> = Vec::new();
    let mut source: usize = 0;
    while source < n
        invariant
            n == successors(*graph).len(),
            source <= n,
            plans.len() == source,
            forall|s: int| 0 <= s < source ==> #[trigger] counts_fit(successors(*graph), s),
            forall|s: int|
                0 <= s < source ==> is_plan_of(
                    successors(*graph),
                    s as usize,
                    Some(#[trigger] plans@[s]),
                ),
        decreases n - source,
    {
        match dependency_steps(graph, source) {
            Some(steps) => {
                plans.push(steps);
            },
            None => {
                proof {
                    assert(!counts_fit(successors(*graph), source as int));
                }
                return None;
            },
        }
        source += 1;
    }
    proof {
        assert forall|v: int| 0 <= v < successors(*graph).len() implies #[trigger] exact_betweenness(
            plans@,
            v,
        ) == betweenness(successors(*graph), v) by {
            law_plans_give_betweenness(successors(*graph), plans@, v);
        }
    }
    Some(plans)
}

} // verus!
