//! Loading the graph from the lines of an edge list: every label becomes one
//! node, numbered in the order in which the labels first appear, and every
//! line that names an edge becomes one edge.

use crate::graph::{add_edge, add_node, edge_total, labels, new_graph, node_count, successors, DiGraph};
use crate::parse::{line_of, parse_line, Line};
use crate::paths::{well_formed, with_edge};
use std::collections::HashMap;
use vstd::prelude::*;

verus! {

broadcast use vstd::std_specs::hash::group_hash_axioms;

/// `seen`, with `id` at the end unless it is there already.
pub open spec fn add_new(seen: Seq<u32>, id: u32) -> Seq<u32> {
    if seen.contains(id) {
        seen
    } else {
        seen.push(id)
    }
}

/// The labels that occur in `pairs`, each once, in the order in which they
/// first appear; the source of a pair comes before its target.
pub open spec fn first_seen(pairs: Seq<(u32, u32)>) -> Seq<u32>
    decreases pairs.len(),
{
    if pairs.len() == 0 {
        Seq::empty()
    } else {
        add_new(add_new(first_seen(pairs.drop_last()), pairs.last().0), pairs.last().1)
    }
}

/// The index at which `id` stands in `labels`.
pub open spec fn position(labels: Seq<u32>, id: u32) -> int {
    choose|i: int| 0 <= i < labels.len() && labels[i] == id
}

/// The adjacency lists of the nodes `labels` once every pair has been added
/// as an edge, in turn, each in front of the earlier edges of its source.
pub open spec fn wired(labels: Seq<u32>, pairs: Seq<(u32, u32)>) -> Seq<Seq<usize>>
    decreases pairs.len(),
{
    if pairs.len() == 0 {
        Seq::new(labels.len(), |i: int| Seq::<usize>::empty())
    } else {
        with_edge(
            wired(labels, pairs.drop_last()),
            position(labels, pairs.last().0),
            position(labels, pairs.last().1) as usize,
        )
    }
}

/// `index` maps every label to the index of its node, and nothing else.
pub open spec fn indexes(index: Map<u32, usize>, labels: Seq<u32>) -> bool {
    &&& labels.no_duplicates()
    &&& forall|id: u32| index.contains_key(id) <==> labels.contains(id)
    &&& forall|i: int|
        0 <= i < labels.len() ==> index.contains_key(#[trigger] labels[i]) && index[labels[i]] == i
}

/// Both ends of the first `upto` pairs are among `labels`.
spec fn known(labels: Seq<u32>, pairs: Seq<(u32, u32)>, upto: int) -> bool {
    forall|k: int|
        0 <= k < upto ==> labels.contains((#[trigger] pairs[k]).0) && labels.contains(pairs[k].1)
}

proof fn lemma_position(labels: Seq<u32>, i: int)
    requires
        labels.no_duplicates(),
        0 <= i < labels.len(),
    ensures
        position(labels, labels[i]) == i,
{
}

proof fn lemma_wired_len(labels: Seq<u32>, pairs: Seq<(u32, u32)>)
    ensures
        wired(labels, pairs).len() == labels.len(),
    decreases pairs.len(),
{
    if pairs.len() > 0 {
        lemma_wired_len(labels, pairs.drop_last());
    }
}

/// A new label adds a node without edges and leaves the others as they are.
proof fn lemma_wired_grows(labels: Seq<u32>, id: u32, pairs: Seq<(u32, u32)>)
    requires
        labels.no_duplicates(),
        !labels.contains(id),
        known(labels, pairs, pairs.len() as int),
    ensures
        wired(labels.push(id), pairs) == wired(labels, pairs).push(Seq::<usize>::empty()),
    decreases pairs.len(),
{
    let more = labels.push(id);
    if pairs.len() == 0 {
        assert(wired(more, pairs) =~= wired(labels, pairs).push(Seq::<usize>::empty()));
    } else {
        let front = pairs.drop_last();
        assert forall|k: int| 0 <= k < front.len() implies labels.contains((#[trigger] front[k]).0)
            && labels.contains(front[k].1) by {
            assert(front[k] == pairs[k]);
        }
        lemma_wired_grows(labels, id, front);
        lemma_wired_len(labels, front);
        let (a, b) = pairs.last();
        assert(pairs[pairs.len() - 1] == pairs.last());
        lemma_position_kept(labels, id, a);
        lemma_position_kept(labels, id, b);
        let old = wired(labels, front);
        let p = position(labels, a);
        let q = position(labels, b) as usize;
        assert(with_edge(old.push(Seq::<usize>::empty()), p, q) =~= with_edge(old, p, q).push(
            Seq::<usize>::empty(),
        ));
    }
}

proof fn lemma_position_kept(labels: Seq<u32>, id: u32, x: u32)
    requires
        labels.no_duplicates(),
        !labels.contains(id),
        labels.contains(x),
    ensures
        position(labels.push(id), x) == position(labels, x),
        0 <= position(labels, x) < labels.len(),
{
    let more = labels.push(id);
    let i = choose|i: int| 0 <= i < labels.len() && labels[i] == x;
    assert(more[i] == x);
    let j = position(more, x);
    assert(0 <= j < more.len() && more[j] == x);
    if j == labels.len() {
        assert(more[j] == id);
        assert(labels.contains(id));
    }
    assert(labels[j] == x);
}

/// The labels of a longer list of pairs are no fewer.
proof fn lemma_first_seen_grows(pairs: Seq<(u32, u32)>, upto: int)
    requires
        0 <= upto <= pairs.len(),
    ensures
        first_seen(pairs.take(upto)).len() <= first_seen(pairs).len(),
    decreases pairs.len() - upto,
{
    if upto < pairs.len() {
        lemma_first_seen_grows(pairs, upto + 1);
        assert(pairs.take(upto + 1).drop_last() =~= pairs.take(upto));
    } else {
        assert(pairs.take(upto) =~= pairs);
    }
}

/// Looks up the node of the label `id`, and adds one where there is none yet.
/// Returns `None`, and changes nothing, where a node is needed and the graph
/// is full.
fn node_for(graph: &mut DiGraph, index: &mut HashMap<u32, usize>, id: u32) -> (found: Option<usize>)
    requires
        indexes(old(index)@, labels(*old(graph))),
    ensures
        edge_total(*final(graph)) == edge_total(*old(graph)),
        well_formed(successors(*old(graph))) ==> well_formed(successors(*final(graph))),
        match found {
            Some(i) => {
                &&& labels(*final(graph)) == add_new(labels(*old(graph)), id)
                &&& successors(*final(graph)) == if labels(*old(graph)).contains(id) {
                    successors(*old(graph))
                } else {
                    successors(*old(graph)).push(Seq::<usize>::empty())
                }
                &&& indexes(final(index)@, labels(*final(graph)))
                &&& i == position(labels(*final(graph)), id)
                &&& i < labels(*final(graph)).len()
                &&& labels(*final(graph)).len() == successors(*final(graph)).len()
                &&& labels(*final(graph)).len() <= u32::MAX
            },
            None => {
                &&& !labels(*old(graph)).contains(id)
                &&& labels(*old(graph)).len() >= u32::MAX
                &&& *final(graph) == *old(graph)
                &&& *final(index) == *old(index)
            },
        },
{
    let ghost before = labels(*graph);
    let count = node_count(graph);
    match index.get(&id) {
        Some(i) => {
            let i = *i;
            proof {
                assert(before.contains(id));
                let k = choose|k: int| 0 <= k < before.len() && before[k] == id;
                lemma_position(before, k);
            }
            Some(i)
        },
        None => {
            if count >= 0xFFFF_FFFF {
                return None;
            }
            let ghost lists = successors(*graph);
            let i = add_node(graph, id);
            index.insert(id, i);
            proof {
                if well_formed(lists) {
                    let more = lists.push(Seq::<usize>::empty());
                    assert forall|u: int, j: int|
                        0 <= u < more.len() && 0 <= j < more[u].len() implies (#[trigger] more[u][j])
                        < more.len() by {
                        assert(lists[u][j] < lists.len());
                    }
                }
                let after = before.push(id);
                assert(after[before.len() as int] == id);
                assert(after.no_duplicates());
                lemma_position(after, before.len() as int);
                assert forall|x: u32| index@.contains_key(x) <==> after.contains(x) by {
                    if before.contains(x) {
                        let k = choose|k: int| 0 <= k < before.len() && before[k] == x;
                        assert(after[k] == x);
                    }
                    if after.contains(x) && x != id {
                        let k = choose|k: int| 0 <= k < after.len() && after[k] == x;
                        assert(before[k] == x);
                    }
                }
            }
            Some(i)
        },
    }
}

/// Builds the graph of the edge list `pairs`. The nodes are the labels in the
/// order of their first appearance, the edges are the pairs, and the map gives
/// the node index of every label. Returns `None` where the list has more than
/// `u32::MAX` pairs or labels, which is more than the graph can hold.
pub fn build_graph(pairs: &Vec<(u32, u32)>) -> (built: Option<(DiGraph, HashMap<u32, usize>)>)
    ensures
        built.is_some() == fits(pairs@),
        built matches Some((graph, index)) ==> {
            &&& labels(graph) == first_seen(pairs@)
            &&& successors(graph) == wired(labels(graph), pairs@)
            &&& edge_total(graph) == pairs.len()
            &&& indexes(index@, labels(graph))
            &&& well_formed(successors(graph))
        },
{
    if pairs.len() > 0xFFFF_FFFF {
        return None;
    }
    let mut graph = new_graph();
    let mut index: HashMap<u32, usize> = HashMap::new();
    let mut i: usize = 0;
    proof {
        assert(pairs@.take(0) =~= Seq::<(u32, u32)>::empty());
        assert(wired(labels(graph), pairs@.take(0)) =~= successors(graph));
    }
    while i < pairs.len()
        invariant
            pairs.len() <= u32::MAX,
            i <= pairs.len(),
            labels(graph) == first_seen(pairs@.take(i as int)),
            successors(graph) == wired(labels(graph), pairs@.take(i as int)),
            edge_total(graph) == i,
            indexes(index@, labels(graph)),
            known(labels(graph), pairs@, i as int),
            labels(graph).len() <= u32::MAX,
            well_formed(successors(graph)),
        decreases pairs.len() - i,
    {
        let (a, b) = pairs[i];
        let ghost done = pairs@.take(i as int);
        let ghost next = pairs@.take(i + 1);
        let ghost seen = labels(graph);
        proof {
            assert(next.drop_last() =~= done);
            assert(next.last() == pairs@[i as int]);
            lemma_first_seen_grows(pairs@, i + 1);
            lemma_wired_len(seen, done);
            assert(known(seen, done, done.len() as int)) by {
                assert forall|k: int| 0 <= k < done.len() implies seen.contains(
                    (#[trigger] done[k]).0,
                ) && seen.contains(done[k].1) by {
                    assert(done[k] == pairs@[k]);
                }
            }
            if !seen.contains(a) {
                lemma_wired_grows(seen, a, done);
            }
        }
        let from = match node_for(&mut graph, &mut index, a) {
            Some(node) => node,
            None => {
                return None;
            },
        };
        let ghost midway = labels(graph);
        proof {
            assert(known(midway, done, done.len() as int)) by {
                assert forall|k: int| 0 <= k < done.len() implies midway.contains(
                    (#[trigger] done[k]).0,
                ) && midway.contains(done[k].1) by {
                    lemma_add_new_keeps(seen, a, done[k].0);
                    lemma_add_new_keeps(seen, a, done[k].1);
                }
            }
            lemma_add_new_keeps(seen, a, a);
            if !midway.contains(b) {
                lemma_wired_grows(midway, b, done);
            }
        }
        let to = match node_for(&mut graph, &mut index, b) {
            Some(node) => node,
            None => {
                return None;
            },
        };
        proof {
            let all = labels(graph);
            lemma_add_new_keeps(midway, b, a);
            lemma_add_new_keeps(midway, b, b);
            if !midway.contains(b) {
                lemma_position_kept(midway, b, a);
            }
            assert(from == position(all, a));
            assert forall|k: int| 0 <= k < i + 1 implies all.contains((#[trigger] pairs@[k]).0)
                && all.contains(pairs@[k].1) by {
                if k < i {
                    assert(done[k] == pairs@[k]);
                    lemma_add_new_keeps(midway, b, done[k].0);
                    lemma_add_new_keeps(midway, b, done[k].1);
                }
            }
        }
        let ghost lists = successors(graph);
        add_edge(&mut graph, from, to);
        proof {
            let more = successors(graph);
            assert forall|u: int, j: int|
                0 <= u < more.len() && 0 <= j < more[u].len() implies (#[trigger] more[u][j])
                < more.len() by {
                if u == from && j > 0 {
                    assert(lists[u][j - 1] < lists.len());
                } else if u != from {
                    assert(lists[u][j] < lists.len());
                }
            }
        }
        i += 1;
    }
    proof {
        assert(pairs@.take(i as int) =~= pairs@);
    }
    Some((graph, index))
}

/// Why an edge list could not be loaded.
#[derive(Clone, Copy, Debug, PartialEq, Eq, Structural)]
pub enum LoadError {
    /// The line at this index, counted from zero, holds two fields of which
    /// one is not a number that fits in 32 bits.
    Malformed { line: usize },
    /// The list names more than `u32::MAX` edges or labels.
    TooLarge,
}

/// The characters of every line.
pub open spec fn texts(lines: Seq<String>) -> Seq<Seq<char>> {
    Seq::new(lines.len(), |i: int| lines[i]@)
}

/// The edges that the lines name, in order.
pub open spec fn edges_of(lines: Seq<Seq<char>>) -> Seq<(u32, u32)>
    decreases lines.len(),
{
    if lines.len() == 0 {
        Seq::empty()
    } else {
        let before = edges_of(lines.drop_last());
        match line_of(lines.last()) {
            Line::Edge(from, to) => before.push((from, to)),
            _ => before,
        }
    }
}

/// None of the first `upto` lines is malformed.
pub open spec fn readable(lines: Seq<Seq<char>>, upto: int) -> bool {
    forall|k: int| 0 <= k < upto ==> line_of(#[trigger] lines[k]) != Line::Malformed
}

/// The edge list fits in a graph whose nodes and edges are numbered in 32 bits.
pub open spec fn fits(pairs: Seq<(u32, u32)>) -> bool {
    pairs.len() <= u32::MAX && first_seen(pairs).len() <= u32::MAX
}

/// Loads the graph that the lines of an edge list describe, together with the
/// map from every label to the index of its node. Lines that name no edge are
/// passed over. The first malformed line stops the loading, and so does a
/// list too large for the graph.
pub fn load_graph(lines: &Vec<String>) -> (loaded: Result<(DiGraph, HashMap<u32, usize>), LoadError>)
    ensures
        match loaded {
            Ok((graph, index)) => {
                &&& readable(texts(lines@), lines.len() as int)
                &&& fits(edges_of(texts(lines@)))
                &&& labels(graph) == first_seen(edges_of(texts(lines@)))
                &&& successors(graph) == wired(labels(graph), edges_of(texts(lines@)))
                &&& edge_total(graph) == edges_of(texts(lines@)).len()
                &&& indexes(index@, labels(graph))
                &&& well_formed(successors(graph))
            },
            Err(LoadError::Malformed { line }) => {
                &&& line < lines.len()
                &&& readable(texts(lines@), line as int)
                &&& line_of(lines[line as int]@) == Line::Malformed
            },
            Err(LoadError::TooLarge) => {
                &&& readable(texts(lines@), lines.len() as int)
                &&& !fits(edges_of(texts(lines@)))
            },
        },
{
    let ghost all = texts(lines@);
    let mut pairs: Vec<(u32, u32)> = Vec::new();
    let mut i: usize = 0;
    proof {
        assert(all.take(0) =~= Seq::<Seq<char>>::empty());
    }
    while i < lines.len()
        invariant
            all == texts(lines@),
            i <= lines.len(),
            pairs@ == edges_of(all.take(i as int)),
            readable(all, i as int),
        decreases lines.len() - i,
    {
        proof {
            assert(all.take(i + 1).drop_last() =~= all.take(i as int));
            assert(all[i as int] == lines[i as int]@);
        }
        match parse_line(lines[i].as_str()) {
            Line::Edge(from, to) => {
                pairs.push((from, to));
            },
            Line::Skipped => {},
            Line::Malformed => {
                return Err(LoadError::Malformed { line: i });
            },
        }
        i += 1;
    }
    proof {
        assert(all.take(i as int) =~= all);
    }
    match build_graph(&pairs) {
        Some(built) => Ok(built),
        None => Err(LoadError::TooLarge),
    }
}

/// What `seen` holds, it still holds once `id` has been added, and `id` too.
proof fn lemma_add_new_keeps(seen: Seq<u32>, id: u32, x: u32)
    ensures
        seen.contains(x) || x == id ==> add_new(seen, id).contains(x),
{
    let more = add_new(seen, id);
    if !seen.contains(id) {
        assert(more[seen.len() as int] == id);
        if seen.contains(x) {
            let k = choose|k: int| 0 <= k < seen.len() && seen[k] == x;
            assert(more[k] == x);
        }
    }
}

} // verus!
