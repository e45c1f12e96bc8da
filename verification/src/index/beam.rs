//! Traversal of the graph: greedy descent and beam search.
//!
//! The specifications speak of a graph `g` and of the distances `ds` of its
//! nodes from what is searched for.
use vstd::prelude::*;

use crate::distance::{less, less32, rank32};
use crate::index::graph::{Graph, NodeView};
use crate::index::kernel::{distance, is_kernel, measure};
use crate::index::ranking::{insert_ranked, is_ranked, place, place_bounds, ranked_insert,
    ranked_insert_keeps_order, Candidate};
use crate::index::visited::VisitedPool;
use crate::storage::vecstore::VectorStore;

verus! {

/// A node with its distance.
pub open spec fn candidate(ds: Seq<u32>, node: int) -> Candidate {
    Candidate { node_idx: node as usize, distance: ds[node] }
}

/// The neighbors of a node in a layer; none in a layer that it is not in.
pub open spec fn links_of(g: Seq<NodeView>, node: int, level: int) -> Seq<int> {
    if 0 <= level < g[node].layers.len() {
        g[node].layers[level]
    } else {
        Seq::empty()
    }
}

/// Whether every link leads to a node.
pub open spec fn links_in_range(g: Seq<NodeView>) -> bool {
    forall|i: int, l: int, j: int|
        0 <= i < g.len() && 0 <= l < g[i].layers.len() && 0 <= j < g[i].layers[l].len() ==> 0
            <= #[trigger] g[i].layers[l][j] < g.len()
}

/// The distances of all nodes from a query.
pub open spec fn distances<K: Fn(&[u32], &[u32]) -> u32>(
    kernel: K,
    query: Seq<u32>,
    g: Seq<NodeView>,
    vectors: Seq<Seq<u32>>,
) -> Seq<u32> {
    Seq::new(g.len(), |i: int| distance(kernel, query, vectors[g[i].slot]))
}

/// The closest of `current` and the nodes of a list, in whose order ties go to
/// the first. Nodes marked as deleted may be passed over.
pub open spec fn scan(
    g: Seq<NodeView>,
    ds: Seq<u32>,
    skip_deleted: bool,
    current: int,
    list: Seq<int>,
) -> int
    decreases list.len(),
{
    if list.len() == 0 {
        current
    } else {
        let best = scan(g, ds, skip_deleted, current, list.drop_last());
        let node = list.last();
        if !(skip_deleted && g[node].deleted) && less32(ds[node], ds[best]) {
            node
        } else {
            best
        }
    }
}

/// Where one gets from `current` in a layer by going to the closest neighbor as
/// long as it is closer.
pub open spec fn descend(
    g: Seq<NodeView>,
    ds: Seq<u32>,
    skip_deleted: bool,
    level: int,
    current: int,
) -> int
    decreases rank32(ds[current]) + 0x8000_0000,
{
    let next = scan(g, ds, skip_deleted, current, links_of(g, current, level));
    if less32(ds[next], ds[current]) {
        descend(g, ds, skip_deleted, level, next)
    } else {
        current
    }
}

/// Where one gets from `current` by descending through the layers from `high`
/// down to `low`.
pub open spec fn descend_layers(
    g: Seq<NodeView>,
    ds: Seq<u32>,
    skip_deleted: bool,
    high: int,
    low: int,
    current: int,
) -> int
    decreases high - low + 1,
{
    if high < low {
        current
    } else {
        descend_layers(
            g,
            ds,
            skip_deleted,
            high - 1,
            low,
            descend(g, ds, skip_deleted, high, current),
        )
    }
}

/// The state of a beam search.
pub struct Beam {
    /// The nodes to go on from, the closest first.
    pub frontier: Seq<Candidate>,
    /// The closest nodes found, the closest first.
    pub results: Seq<Candidate>,
    /// The nodes seen.
    pub visited: Set<int>,
}

/// The beam once it has come across a node. A node that was not seen before is
/// taken up if the results are fewer than `ef` or it is closer than the farthest
/// of them, which then goes.
pub open spec fn offer(b: Beam, ds: Seq<u32>, ef: nat, node: int) -> Beam {
    let c = candidate(ds, node);
    if b.visited.contains(node) {
        b
    } else if b.results.len() < ef || less32(c.distance, b.results.last().distance) {
        let taken = ranked_insert(b.results, c);
        Beam {
            frontier: ranked_insert(b.frontier, c),
            results: if taken.len() > ef { taken.drop_last() } else { taken },
            visited: b.visited.insert(node),
        }
    } else {
        Beam { visited: b.visited.insert(node), ..b }
    }
}

/// The beam once it has come across the nodes of a list.
pub open spec fn offer_all(b: Beam, ds: Seq<u32>, ef: nat, list: Seq<int>) -> Beam
    decreases list.len(),
{
    if list.len() == 0 {
        b
    } else {
        offer(offer_all(b, ds, ef, list.drop_last()), ds, ef, list.last())
    }
}

/// Whether a beam has seen nodes only, and everything it holds.
pub open spec fn beam_in_range(g: Seq<NodeView>, b: Beam) -> bool {
    &&& b.visited.finite()
    &&& forall|i: int| #[trigger] b.visited.contains(i) ==> 0 <= i < g.len()
    &&& forall|i: int|
        0 <= i < b.frontier.len() ==> b.visited.contains((#[trigger] b.frontier[i]).node_idx as int)
}

/// The beam without the closest node of its frontier.
pub open spec fn popped(b: Beam) -> Beam {
    Beam { frontier: b.frontier.drop_first(), ..b }
}

/// What a beam search finds from here on. It goes on from the closest node of
/// the frontier, until none is left or there are `ef` results and that node is
/// farther than all of them.
pub open spec fn run_beam(g: Seq<NodeView>, ds: Seq<u32>, ef: nat, level: int, b: Beam) -> Seq<
    Candidate,
>
    decreases g.len() - b.visited.len() + b.frontier.len(),
        when links_in_range(g) && g.len() <= usize::MAX && beam_in_range(g, b)
        via run_beam_ends
{
    if b.frontier.len() == 0 {
        b.results
    } else {
        let c = b.frontier[0];
        if less32(b.results.last().distance, c.distance) && b.results.len() >= ef {
            b.results
        } else {
            run_beam(
                g,
                ds,
                ef,
                level,
                offer_all(popped(b), ds, ef, links_of(g, c.node_idx as int, level)),
            )
        }
    }
}

#[via_fn]
proof fn run_beam_ends(g: Seq<NodeView>, ds: Seq<u32>, ef: nat, level: int, b: Beam) {
    if b.frontier.len() > 0 {
        let c = b.frontier[0];
        let list = links_of(g, c.node_idx as int, level);
        popped_in_range(g, b);
        assert(b.visited.contains(b.frontier[0].node_idx as int));
        links_of_range(g, c.node_idx as int, level);
        offered_in_range(g, popped(b), ds, ef, list);
        visited_bound(g, offer_all(popped(b), ds, ef, list));
    }
}

/// The neighbors of a node are nodes.
pub proof fn links_of_range(g: Seq<NodeView>, node: int, level: int)
    requires
        links_in_range(g),
        0 <= node < g.len(),
    ensures
        forall|i: int|
            0 <= i < links_of(g, node, level).len() ==> 0 <= #[trigger] links_of(g, node, level)[i]
                < g.len(),
{
    let list = links_of(g, node, level);
    assert forall|i: int| 0 <= i < list.len() implies 0 <= #[trigger] list[i] < g.len() by {
        assert(list[i] == g[node].layers[level][i]);
    }
}

proof fn popped_in_range(g: Seq<NodeView>, b: Beam)
    requires
        beam_in_range(g, b),
        b.frontier.len() > 0,
    ensures
        beam_in_range(g, popped(b)),
{
    let p = popped(b);
    assert forall|i: int| 0 <= i < p.frontier.len() implies p.visited.contains(
        (#[trigger] p.frontier[i]).node_idx as int,
    ) by {
        assert(p.frontier[i] == b.frontier[i + 1]);
    }
}

/// No more nodes are visited than there are.
pub proof fn visited_bound(g: Seq<NodeView>, b: Beam)
    requires
        beam_in_range(g, b),
    ensures
        b.visited.len() <= g.len(),
{
    let all = vstd::set_lib::set_int_range(0, g.len() as int);
    vstd::set_lib::lemma_int_range(0, g.len() as int);
    assert(b.visited.subset_of(all));
    vstd::set_lib::lemma_len_subset(b.visited, all);
}

proof fn offer_in_range(g: Seq<NodeView>, b: Beam, ds: Seq<u32>, ef: nat, node: int)
    requires
        beam_in_range(g, b),
        0 <= node < g.len() <= usize::MAX,
    ensures
        beam_in_range(g, offer(b, ds, ef, node)),
        offer(b, ds, ef, node).frontier.len() + b.visited.len() <= b.frontier.len() + offer(
            b,
            ds,
            ef,
            node,
        ).visited.len(),
{
    let c = candidate(ds, node);
    let t = offer(b, ds, ef, node);
    place_bounds(b.frontier, c.rank());
    assert forall|i: int| 0 <= i < t.frontier.len() implies t.visited.contains(
        (#[trigger] t.frontier[i]).node_idx as int,
    ) by {
        if t.frontier != b.frontier {
            let p = place(b.frontier, c.rank());
            if i < p {
                assert(t.frontier[i] == b.frontier[i]);
            } else if i > p {
                assert(t.frontier[i] == b.frontier[i - 1]);
            }
        }
    }
}

proof fn offered_in_range(g: Seq<NodeView>, b: Beam, ds: Seq<u32>, ef: nat, list: Seq<int>)
    requires
        beam_in_range(g, b),
        g.len() <= usize::MAX,
        forall|i: int| 0 <= i < list.len() ==> 0 <= #[trigger] list[i] < g.len(),
    ensures
        beam_in_range(g, offer_all(b, ds, ef, list)),
        offer_all(b, ds, ef, list).frontier.len() + b.visited.len() <= b.frontier.len()
            + offer_all(b, ds, ef, list).visited.len(),
    decreases list.len(),
{
    if list.len() > 0 {
        let fewer = list.drop_last();
        assert forall|i: int| 0 <= i < fewer.len() implies 0 <= #[trigger] fewer[i] < g.len() by {
            assert(fewer[i] == list[i]);
        }
        offered_in_range(g, b, ds, ef, fewer);
        assert(0 <= list[list.len() - 1] < g.len());
        offer_in_range(g, offer_all(b, ds, ef, fewer), ds, ef, list.last());
    }
}

/// A round of a beam search takes the search closer to its end.
pub proof fn round_shrinks(g: Seq<NodeView>, ds: Seq<u32>, ef: nat, level: int, b: Beam)
    requires
        links_in_range(g),
        g.len() <= usize::MAX,
        beam_in_range(g, b),
        b.frontier.len() > 0,
    ensures
        ({
            let t = offer_all(
                popped(b),
                ds,
                ef,
                links_of(g, b.frontier[0].node_idx as int, level),
            );
            &&& beam_in_range(g, t)
            &&& t.visited.len() <= g.len()
            &&& t.frontier.len() + b.visited.len() < b.frontier.len() + t.visited.len()
        }),
{
    let node = b.frontier[0].node_idx as int;
    let list = links_of(g, node, level);
    popped_in_range(g, b);
    assert(b.visited.contains(b.frontier[0].node_idx as int));
    links_of_range(g, node, level);
    offered_in_range(g, popped(b), ds, ef, list);
    visited_bound(g, offer_all(popped(b), ds, ef, list));
}

/// The beam at its entry point.
pub open spec fn beam_at(ds: Seq<u32>, entry: int) -> Beam {
    Beam {
        frontier: seq![candidate(ds, entry)],
        results: seq![candidate(ds, entry)],
        visited: Set::empty().insert(entry),
    }
}

/// What a beam search of width `ef` in a layer finds from an entry point, the
/// closest first.
pub open spec fn beam_search(
    g: Seq<NodeView>,
    ds: Seq<u32>,
    ef: nat,
    level: int,
    entry: int,
) -> Seq<Candidate> {
    run_beam(g, ds, ef, level, beam_at(ds, entry))
}

/// Whether every node's vector is in the store.
pub open spec fn slots_in_range(g: Seq<NodeView>, n: nat) -> bool {
    forall|i: int| 0 <= i < g.len() ==> 0 <= (#[trigger] g[i]).slot < n
}

/// Whether a graph over the vectors of a store can be searched for a query.
pub open spec fn searchable<K: Fn(&[u32], &[u32]) -> u32>(
    graph: &Graph,
    store: &VectorStore,
    kernel: K,
    query: Seq<u32>,
) -> bool {
    &&& graph.wf()
    &&& store.wf()
    &&& slots_in_range(graph@, store@.ids.len())
    &&& is_kernel(kernel, store@.header.dimension)
    &&& query.len() == store@.header.dimension
}

/// The distance of a node from the query.
pub fn node_distance<K: Fn(&[u32], &[u32]) -> u32>(
    graph: &Graph,
    store: &VectorStore,
    kernel: &K,
    query: &[u32],
    node: usize,
) -> (d: u32)
    requires
        searchable(graph, store, *kernel, query@),
        node < graph@.len(),
    ensures
        d == distances(*kernel, query@, graph@, store@.vectors)[node as int],
{
    assert(0 <= graph@[node as int].slot < store@.ids.len());
    measure(kernel, query, store.get_vector_unchecked(graph.slot(node)))
}

proof fn scan_bounds(
    g: Seq<NodeView>,
    ds: Seq<u32>,
    skip_deleted: bool,
    current: int,
    list: Seq<int>,
)
    requires
        0 <= current < g.len(),
        forall|i: int| 0 <= i < list.len() ==> 0 <= #[trigger] list[i] < g.len(),
    ensures
        0 <= scan(g, ds, skip_deleted, current, list) < g.len(),
        scan(g, ds, skip_deleted, current, list) == current || less32(
            ds[scan(g, ds, skip_deleted, current, list)],
            ds[current],
        ),
        forall|i: int|
            0 <= i < list.len() ==> !less32(
                ds[#[trigger] list[i]],
                ds[scan(g, ds, skip_deleted, current, list)],
            ) || (skip_deleted && g[list[i]].deleted),
    decreases list.len(),
{
    if list.len() > 0 {
        let fewer = list.drop_last();
        assert forall|i: int| 0 <= i < fewer.len() implies 0 <= #[trigger] fewer[i] < g.len() by {
            assert(fewer[i] == list[i]);
        }
        scan_bounds(g, ds, skip_deleted, current, fewer);
        assert(0 <= list[list.len() - 1] < g.len());
        assert forall|i: int| 0 <= i < list.len() implies !less32(
            ds[#[trigger] list[i]],
            ds[scan(g, ds, skip_deleted, current, list)],
        ) || (skip_deleted && g[list[i]].deleted) by {
            if i < fewer.len() {
                assert(fewer[i] == list[i]);
            }
        }
    }
}

/// Greedy descent ends where no neighbor is closer, and not farther off than it
/// began.
pub proof fn descent_ends_at_a_minimum(
    g: Seq<NodeView>,
    ds: Seq<u32>,
    skip_deleted: bool,
    level: int,
    current: int,
)
    requires
        links_in_range(g),
        0 <= current < g.len(),
    ensures
        ({
            let end = descend(g, ds, skip_deleted, level, current);
            &&& 0 <= end < g.len()
            &&& end == current || less32(ds[end], ds[current])
            &&& forall|i: int|
                0 <= i < links_of(g, end, level).len() ==> !less32(
                    ds[#[trigger] links_of(g, end, level)[i]],
                    ds[end],
                ) || (skip_deleted && g[links_of(g, end, level)[i]].deleted)
        }),
    decreases rank32(ds[current]) + 0x8000_0000,
{
    let list = links_of(g, current, level);
    links_of_range(g, current, level);
    scan_bounds(g, ds, skip_deleted, current, list);
    let next = scan(g, ds, skip_deleted, current, list);
    if less32(ds[next], ds[current]) {
        descent_ends_at_a_minimum(g, ds, skip_deleted, level, next);
    }
}

/// Descends greedily in one layer.
fn descend_layer<K: Fn(&[u32], &[u32]) -> u32>(
    graph: &Graph,
    store: &VectorStore,
    kernel: &K,
    query: &[u32],
    skip_deleted: bool,
    level: usize,
    start: usize,
) -> (end: usize)
    requires
        searchable(graph, store, *kernel, query@),
        start < graph@.len(),
    ensures
        end < graph@.len(),
        end == descend(
            graph@,
            distances(*kernel, query@, graph@, store@.vectors),
            skip_deleted,
            level as int,
            start as int,
        ),
{
    let ghost g = graph@;
    let ghost ds = distances(*kernel, query@, g, store@.vectors);
    let mut current: usize = start;
    let mut current_dist: u32 = node_distance(graph, store, kernel, query, start);
    proof {
        graph.wf_facts();
    }
    let mut changed: bool = true;
    while changed
        invariant
            searchable(graph, store, *kernel, query@),
            g == graph@,
            links_in_range(g),
            ds == distances(*kernel, query@, g, store@.vectors),
            current < g.len(),
            current_dist == ds[current as int],
            changed ==> descend(g, ds, skip_deleted, level as int, current as int) == descend(
                g,
                ds,
                skip_deleted,
                level as int,
                start as int,
            ),
            !changed ==> current == descend(g, ds, skip_deleted, level as int, start as int),
        decreases rank32(current_dist) + 0x8000_0000, (if changed { 1int } else { 0int }),
    {
        changed = false;
        if level >= graph.layer_count(current) {
            return current;
        }
        let from: usize = current;
        let neighbors = graph.neighbors(from, level);
        let ghost list = links_of(g, from as int, level as int);
        proof {
            links_of_range(g, from as int, level as int);
            assert(list.take(0) =~= Seq::empty());
        }
        for i in 0..neighbors.len()
            invariant
                searchable(graph, store, *kernel, query@),
                g == graph@,
                ds == distances(*kernel, query@, g, store@.vectors),
                neighbors@.len() == list.len(),
                forall|j: int| 0 <= j < list.len() ==> #[trigger] neighbors@[j] == list[j],
                forall|j: int| 0 <= j < neighbors@.len() ==> #[trigger] neighbors@[j] < g.len(),
                current < g.len(),
                from < g.len(),
                current_dist == ds[current as int],
                current == scan(g, ds, skip_deleted, from as int, list.take(i as int)),
                changed <==> less32(current_dist, ds[from as int]),
                !changed ==> current == from,
        {
            let node: usize = neighbors[i] as usize;
            proof {
                assert(list.take(i + 1).drop_last() =~= list.take(i as int));
                assert(list.take(i + 1).last() == node);
            }
            if !(skip_deleted && graph.deleted(node)) {
                let dist: u32 = node_distance(graph, store, kernel, query, node);
                if less(dist, current_dist) {
                    current = node;
                    current_dist = dist;
                    changed = true;
                }
            }
        }
        assert(list.take(list.len() as int) =~= list);
    }
    current
}

/// Descends greedily through the layers from `high` down to `low`.
pub fn greedy_descent<K: Fn(&[u32], &[u32]) -> u32>(
    graph: &Graph,
    store: &VectorStore,
    kernel: &K,
    query: &[u32],
    skip_deleted: bool,
    high: usize,
    low: usize,
    start: usize,
) -> (end: usize)
    requires
        searchable(graph, store, *kernel, query@),
        start < graph@.len(),
        low > 0,
    ensures
        end < graph@.len(),
        end == descend_layers(
            graph@,
            distances(*kernel, query@, graph@, store@.vectors),
            skip_deleted,
            high as int,
            low as int,
            start as int,
        ),
{
    let ghost g = graph@;
    let ghost ds = distances(*kernel, query@, g, store@.vectors);
    let mut current: usize = start;
    let mut level: usize = high;
    while level >= low
        invariant
            searchable(graph, store, *kernel, query@),
            g == graph@,
            ds == distances(*kernel, query@, g, store@.vectors),
            current < g.len(),
            low > 0,
            descend_layers(g, ds, skip_deleted, level as int, low as int, current as int)
                == descend_layers(g, ds, skip_deleted, high as int, low as int, start as int),
        decreases level,
    {
        current = descend_layer(graph, store, kernel, query, skip_deleted, level, current);
        level = level - 1;
    }
    current
}

/// Whether a list holds nodes with their distances.
pub open spec fn holds_nodes(s: Seq<Candidate>, ds: Seq<u32>) -> bool {
    forall|i: int|
        0 <= i < s.len() ==> (#[trigger] s[i]).node_idx < ds.len() && s[i].distance
            == ds[s[i].node_idx as int]
}

/// A list of nodes with their distances stays one when a node is added.
pub proof fn insert_holds_nodes(s: Seq<Candidate>, ds: Seq<u32>, node: int)
    requires
        holds_nodes(s, ds),
        0 <= node < ds.len() <= usize::MAX,
    ensures
        holds_nodes(ranked_insert(s, candidate(ds, node)), ds),
{
    let c = candidate(ds, node);
    let t = ranked_insert(s, c);
    let p = place(s, c.rank());
    place_bounds(s, c.rank());
    assert forall|i: int| 0 <= i < t.len() implies (#[trigger] t[i]).node_idx < ds.len()
        && t[i].distance == ds[t[i].node_idx as int] by {
        if i < p {
            assert(t[i] == s[i]);
        } else if i > p {
            assert(t[i] == s[i - 1]);
        }
    }
}

fn drop_farthest(list: &mut Vec<Candidate>, Ghost(ds): Ghost<Seq<u32>>)
    requires
        old(list)@.len() > 0,
        is_ranked(old(list)@),
        holds_nodes(old(list)@, ds),
    ensures
        final(list)@ == old(list)@.drop_last(),
        is_ranked(final(list)@),
        holds_nodes(final(list)@, ds),
{
    let ghost before = list@;
    list.pop();
    assert(list@ =~= before.drop_last());
    assert forall|i: int, j: int| 0 <= i < j < list@.len() implies (#[trigger] list@[i]).rank() <= (
    #[trigger] list@[j]).rank() by {
        assert(list@[i] == before[i] && list@[j] == before[j]);
    }
    assert forall|i: int| 0 <= i < list@.len() implies (#[trigger] list@[i]).node_idx < ds.len()
        && list@[i].distance == ds[list@[i].node_idx as int] by {
        assert(list@[i] == before[i]);
    }
}

/// Searches a layer with a beam of width `ef` from an entry point. The pool has
/// been readied for the search. The closest come first.
pub fn search_layer_inner<K: Fn(&[u32], &[u32]) -> u32>(
    graph: &Graph,
    store: &VectorStore,
    kernel: &K,
    query: &[u32],
    entry_point: usize,
    ef: usize,
    level: usize,
    pool: &mut VisitedPool,
) -> (found: Vec<Candidate>)
    requires
        searchable(graph, store, *kernel, query@),
        entry_point < graph@.len(),
        old(pool).wf(),
        old(pool).visited() == Set::<int>::empty(),
        old(pool).size() >= graph@.len(),
    ensures
        final(pool).wf(),
        final(pool).size() == old(pool).size(),
        found@ == beam_search(
            graph@,
            distances(*kernel, query@, graph@, store@.vectors),
            ef as nat,
            level as int,
            entry_point as int,
        ),
        is_ranked(found@),
        found@.len() >= 1,
        holds_nodes(found@, distances(*kernel, query@, graph@, store@.vectors)),
{
    let ghost g = graph@;
    let ghost ds = distances(*kernel, query@, g, store@.vectors);
    let ghost goal = beam_search(g, ds, ef as nat, level as int, entry_point as int);
    proof {
        graph.wf_facts();
    }
    let entry = Candidate {
        node_idx: entry_point,
        distance: node_distance(graph, store, kernel, query, entry_point),
    };
    pool.visit(entry_point);
    let mut frontier: Vec<Candidate> = Vec::new();
    frontier.push(entry);
    let mut results: Vec<Candidate> = Vec::new();
    results.push(entry);
    proof {
        assert(frontier@ =~= seq![candidate(ds, entry_point as int)]);
        assert(results@ =~= seq![candidate(ds, entry_point as int)]);
    }
    while frontier.len() > 0
        invariant
            searchable(graph, store, *kernel, query@),
            g == graph@,
            links_in_range(g),
            g.len() <= usize::MAX,
            ds == distances(*kernel, query@, g, store@.vectors),
            pool.wf(),
            pool.size() == old(pool).size(),
            pool.size() >= g.len(),
            is_ranked(frontier@),
            is_ranked(results@),
            results@.len() >= 1,
            holds_nodes(frontier@, ds),
            holds_nodes(results@, ds),
            beam_in_range(g, (Beam { frontier: frontier@, results: results@, visited: pool.visited() })),
            run_beam(
                g,
                ds,
                ef as nat,
                level as int,
                (Beam { frontier: frontier@, results: results@, visited: pool.visited() }),
            ) == goal,
            goal == beam_search(g, ds, ef as nat, level as int, entry_point as int),
        decreases g.len() - pool.visited().len() + frontier@.len(),
    {
        let ghost b = Beam { frontier: frontier@, results: results@, visited: pool.visited() };
        proof {
            visited_bound(g, b);
            popped_in_range(g, b);
        }
        let current = frontier.remove(0);
        proof {
            assert(current == b.frontier[0]);
            assert(frontier@ =~= b.frontier.drop_first());
            assert(is_ranked(frontier@)) by {
                assert forall|i: int, j: int| 0 <= i < j < frontier@.len() implies (
                #[trigger] frontier@[i]).rank() <= (#[trigger] frontier@[j]).rank() by {
                    assert(frontier@[i] == b.frontier[i + 1] && frontier@[j] == b.frontier[j + 1]);
                }
            }
            assert forall|i: int| 0 <= i < frontier@.len() implies (
            #[trigger] frontier@[i]).node_idx < ds.len() && frontier@[i].distance
                == ds[frontier@[i].node_idx as int] by {
                assert(frontier@[i] == b.frontier[i + 1]);
            }
        }
        if results.len() >= ef && less(results[results.len() - 1].distance, current.distance) {
            return results;
        }
        let node: usize = current.node_idx;
        let ghost list = links_of(g, node as int, level as int);
        let ghost start = popped(b);
        proof {
            links_of_range(g, node as int, level as int);
            offered_in_range(g, start, ds, ef as nat, list);
            visited_bound(g, offer_all(start, ds, ef as nat, list));
        }
        if level < graph.layer_count(node) {
            let neighbors = graph.neighbors(node, level);
            assert(list.take(0) =~= Seq::empty());
            for i in 0..neighbors.len()
                invariant
                    searchable(graph, store, *kernel, query@),
                    g == graph@,
                    g.len() <= usize::MAX,
                    ds == distances(*kernel, query@, g, store@.vectors),
                    pool.wf(),
                    pool.size() == old(pool).size(),
                    pool.size() >= g.len(),
                    is_ranked(frontier@),
                    is_ranked(results@),
                    results@.len() >= 1,
                    holds_nodes(frontier@, ds),
                    holds_nodes(results@, ds),
                    neighbors@.len() == list.len(),
                    forall|j: int| 0 <= j < list.len() ==> #[trigger] neighbors@[j] == list[j],
                    forall|j: int| 0 <= j < neighbors@.len() ==> #[trigger] neighbors@[j] < g.len(),
                    (Beam { frontier: frontier@, results: results@, visited: pool.visited() })
                        == offer_all(start, ds, ef as nat, list.take(i as int)),
            {
                let neighbor: usize = neighbors[i] as usize;
                let ghost now = Beam {
                    frontier: frontier@,
                    results: results@,
                    visited: pool.visited(),
                };
                proof {
                    assert(list.take(i + 1).drop_last() =~= list.take(i as int));
                    assert(list.take(i + 1).last() == neighbor);
                }
                if pool.visit(neighbor) {
                    let dist: u32 = node_distance(graph, store, kernel, query, neighbor);
                    let worst: u32 = results[results.len() - 1].distance;
                    if results.len() < ef || less(dist, worst) {
                        let c = Candidate { node_idx: neighbor, distance: dist };
                        proof {
                            assert(c == candidate(ds, neighbor as int));
                            insert_holds_nodes(frontier@, ds, neighbor as int);
                            insert_holds_nodes(results@, ds, neighbor as int);
                        }
                        insert_ranked(&mut frontier, c);
                        insert_ranked(&mut results, c);
                        if results.len() > ef {
                            drop_farthest(&mut results, Ghost(ds));
                        }
                    }
                } else {
                    assert(pool.visited() =~= now.visited);
                }
            }
            assert(list.take(list.len() as int) =~= list);
        }
    }
    results
}

/// Searches a layer with a beam of width `ef` from an entry point. The closest
/// come first.
pub fn search_layer<K: Fn(&[u32], &[u32]) -> u32>(
    graph: &Graph,
    store: &VectorStore,
    kernel: &K,
    query: &[u32],
    entry_point: usize,
    ef: usize,
    level: usize,
    pool: &mut VisitedPool,
) -> (found: Vec<Candidate>)
    requires
        searchable(graph, store, *kernel, query@),
        entry_point < graph@.len(),
        old(pool).wf(),
    ensures
        final(pool).wf(),
        found@ == beam_search(
            graph@,
            distances(*kernel, query@, graph@, store@.vectors),
            ef as nat,
            level as int,
            entry_point as int,
        ),
        is_ranked(found@),
        found@.len() >= 1,
        holds_nodes(found@, distances(*kernel, query@, graph@, store@.vectors)),
{
    pool.begin(graph.len());
    search_layer_inner(graph, store, kernel, query, entry_point, ef, level, pool)
}

/// Whether a candidate for this node is in a list.
pub open spec fn lists_node(s: Seq<Candidate>, node: int) -> bool {
    exists|i: int| 0 <= i < s.len() && (#[trigger] s[i]).node_idx == node
}

/// Whether no node is in a list twice.
pub open spec fn no_node_twice(s: Seq<Candidate>) -> bool {
    forall|i: int, j: int|
        0 <= i < j < s.len() ==> (#[trigger] s[i]).node_idx != (#[trigger] s[j]).node_idx
}

/// Whether a beam may do without a node: it has `ef` results, and the node is not
/// closer than the last of them.
pub open spec fn outranked(b: Beam, ds: Seq<u32>, ef: nat, node: int) -> bool {
    b.results.len() >= ef && b.results.len() > 0 && !less32(
        ds[node],
        b.results.last().distance,
    )
}

/// What holds of a beam throughout a search.
pub open spec fn beam_invariant(
    g: Seq<NodeView>,
    ds: Seq<u32>,
    ef: nat,
    level: int,
    b: Beam,
) -> bool {
    &&& beam_in_range(g, b)
    &&& is_ranked(b.frontier)
    &&& is_ranked(b.results)
    &&& holds_nodes(b.frontier, ds)
    &&& holds_nodes(b.results, ds)
    &&& no_node_twice(b.results)
    &&& b.results.len() >= 1
    &&& b.results.len() <= ef || b.results.len() == 1
    &&& forall|i: int|
        0 <= i < b.results.len() ==> b.visited.contains((#[trigger] b.results[i]).node_idx as int)
    &&& forall|v: int| #[trigger]
        b.visited.contains(v) ==> lists_node(b.results, v) || outranked(b, ds, ef, v)
}

/// Whether the neighbors of a node have all been seen.
pub open spec fn expanded(g: Seq<NodeView>, level: int, b: Beam, node: int) -> bool {
    forall|i: int|
        0 <= i < links_of(g, node, level).len() ==> b.visited.contains(
            #[trigger] links_of(g, node, level)[i],
        )
}

/// Whether every result still waits to be gone on from, or has been.
pub open spec fn results_followed(g: Seq<NodeView>, level: int, b: Beam) -> bool {
    forall|i: int|
        0 <= i < b.results.len() ==> lists_node(
            b.frontier,
            (#[trigger] b.results[i]).node_idx as int,
        ) || expanded(g, level, b, b.results[i].node_idx as int)
}

/// A list with a node added lists that node and those that it listed.
pub proof fn inserted_lists(s: Seq<Candidate>, c: Candidate)
    requires
        is_ranked(s),
    ensures
        is_ranked(ranked_insert(s, c)),
        lists_node(ranked_insert(s, c), c.node_idx as int),
        forall|n: int| #[trigger] lists_node(s, n) ==> lists_node(ranked_insert(s, c), n),
        forall|n: int| #[trigger]
            lists_node(ranked_insert(s, c), n) ==> n == c.node_idx || lists_node(s, n),
        no_node_twice(s) && !lists_node(s, c.node_idx as int) ==> no_node_twice(
            ranked_insert(s, c),
        ),
{
    let t = ranked_insert(s, c);
    let p = place(s, c.rank());
    place_bounds(s, c.rank());
    ranked_insert_keeps_order(s, c);
    assert(t[p] == c);
    assert forall|n: int| #[trigger] lists_node(s, n) implies lists_node(t, n) by {
        let i = choose|i: int| 0 <= i < s.len() && (#[trigger] s[i]).node_idx == n;
        let j = if i < p { i } else { i + 1 };
        assert(t[j] == s[i]);
    }
    assert forall|n: int| #[trigger] lists_node(t, n) implies n == c.node_idx || lists_node(s, n) by {
        let i = choose|i: int| 0 <= i < t.len() && (#[trigger] t[i]).node_idx == n;
        if i < p {
            assert(t[i] == s[i]);
        } else if i > p {
            assert(t[i] == s[i - 1]);
        }
    }
    if no_node_twice(s) && !lists_node(s, c.node_idx as int) {
        assert forall|i: int, j: int| 0 <= i < j < t.len() implies (#[trigger] t[i]).node_idx != (
        #[trigger] t[j]).node_idx by {
            let si = if i < p { i } else { i - 1 };
            let sj = if j < p { j } else { j - 1 };
            if i != p {
                assert(t[i] == s[si]);
            }
            if j != p {
                assert(t[j] == s[sj]);
            }
        }
    }
}

proof fn offer_taken_keeps_invariant(
    g: Seq<NodeView>,
    ds: Seq<u32>,
    ef: nat,
    level: int,
    b: Beam,
    node: int,
)
    requires
        beam_invariant(g, ds, ef, level, b),
        ds.len() == g.len(),
        0 <= node < g.len() <= usize::MAX,
        !b.visited.contains(node),
        b.results.len() < ef || less32(ds[node], b.results.last().distance),
    ensures
        beam_invariant(g, ds, ef, level, offer(b, ds, ef, node)),
        offer(b, ds, ef, node).visited == b.visited.insert(node),
        forall|n: int| #[trigger]
            lists_node(b.frontier, n) ==> lists_node(offer(b, ds, ef, node).frontier, n),
        forall|i: int|
            0 <= i < offer(b, ds, ef, node).results.len() ==> lists_node(
                b.results,
                (#[trigger] offer(b, ds, ef, node).results[i]).node_idx as int,
            ) || lists_node(
                offer(b, ds, ef, node).frontier,
                offer(b, ds, ef, node).results[i].node_idx as int,
            ),
{
    let t = offer(b, ds, ef, node);
    let c = candidate(ds, node);
    offer_in_range(g, b, ds, ef, node);
    let taken = ranked_insert(b.results, c);
    inserted_lists(b.results, c);
    inserted_lists(b.frontier, c);
    insert_holds_nodes(b.results, ds, node);
    insert_holds_nodes(b.frontier, ds, node);
    assert(!lists_node(b.results, node)) by {
        if lists_node(b.results, node) {
            let i = choose|i: int|
                0 <= i < b.results.len() && (#[trigger] b.results[i]).node_idx == node;
            assert(b.visited.contains(b.results[i].node_idx as int));
        }
    }
    assert(no_node_twice(taken));
    ranked_insert_keeps_order(b.results, c);
    assert(taken.len() == b.results.len() + 1);
    if taken.len() > ef {
        assert(t.results =~= taken.drop_last());
    }
    assert(holds_nodes(t.results, ds)) by {
        assert forall|i: int| 0 <= i < t.results.len() implies (
        #[trigger] t.results[i]).node_idx < ds.len() && t.results[i].distance
            == ds[t.results[i].node_idx as int] by {
            assert(t.results[i] == taken[i]);
        }
    }
    assert forall|i: int| 0 <= i < t.results.len() implies #[trigger] t.results[i] == taken[i] by {}
    assert(is_ranked(t.results)) by {
        assert forall|i: int, j: int| 0 <= i < j < t.results.len() implies (
        #[trigger] t.results[i]).rank() <= (#[trigger] t.results[j]).rank() by {
            assert(taken[i].rank() <= taken[j].rank());
        }
    }
    assert(no_node_twice(t.results)) by {
        assert forall|i: int, j: int| 0 <= i < j < t.results.len() implies (
        #[trigger] t.results[i]).node_idx != (#[trigger] t.results[j]).node_idx by {
            assert(taken[i].node_idx != taken[j].node_idx);
        }
    }
    assert forall|i: int| 0 <= i < t.results.len() implies {
        &&& t.visited.contains((#[trigger] t.results[i]).node_idx as int)
        &&& lists_node(b.results, t.results[i].node_idx as int) || lists_node(
            t.frontier,
            t.results[i].node_idx as int,
        )
    } by {
        let n = t.results[i].node_idx as int;
        assert(taken[i].node_idx == n);
        assert(lists_node(taken, n));
        if n != node {
            assert(lists_node(b.results, n));
            let j = choose|j: int|
                0 <= j < b.results.len() && (#[trigger] b.results[j]).node_idx == n;
            assert(b.visited.contains(b.results[j].node_idx as int));
        }
    }
    assert forall|v: int| #[trigger] t.visited.contains(v) implies lists_node(t.results, v)
        || outranked(t, ds, ef, v) by {
        if v == node || lists_node(b.results, v) {
            assert(lists_node(taken, v));
            let i = choose|i: int| 0 <= i < taken.len() && (#[trigger] taken[i]).node_idx == v;
            if i < t.results.len() {
                assert(t.results[i].node_idx == v);
            } else {
                assert(i == taken.len() - 1);
                assert(taken[taken.len() - 2].rank() <= taken[i].rank());
                assert(t.results.last() == taken[taken.len() - 2]);
                assert(taken[i].distance == ds[v]);
            }
        } else {
            assert(outranked(b, ds, ef, v));
            assert(taken.len() > ef);
            assert(t.results.last() == taken[taken.len() - 2]);
            place_bounds(b.results, c.rank());
            let p = place(b.results, c.rank());
            assert(p <= b.results.len() - 1) by {
                if p == b.results.len() {
                    assert(b.results[p - 1].rank() <= c.rank());
                }
            }
            assert(taken.last() == b.results.last());
            assert(taken[taken.len() - 2].rank() <= taken[taken.len() - 1].rank());
        }
    }
}

proof fn offer_keeps_invariant(
    g: Seq<NodeView>,
    ds: Seq<u32>,
    ef: nat,
    level: int,
    b: Beam,
    node: int,
)
    requires
        beam_invariant(g, ds, ef, level, b),
        ds.len() == g.len(),
        0 <= node < g.len() <= usize::MAX,
    ensures
        beam_invariant(g, ds, ef, level, offer(b, ds, ef, node)),
        offer(b, ds, ef, node).visited == b.visited.insert(node),
        forall|n: int| #[trigger]
            lists_node(b.frontier, n) ==> lists_node(offer(b, ds, ef, node).frontier, n),
        forall|i: int|
            0 <= i < offer(b, ds, ef, node).results.len() ==> lists_node(
                b.results,
                (#[trigger] offer(b, ds, ef, node).results[i]).node_idx as int,
            ) || lists_node(
                offer(b, ds, ef, node).frontier,
                offer(b, ds, ef, node).results[i].node_idx as int,
            ),
{
    let t = offer(b, ds, ef, node);
    let c = candidate(ds, node);
    offer_in_range(g, b, ds, ef, node);
    if b.visited.contains(node) {
        assert(t.visited =~= b.visited.insert(node));
        assert forall|i: int| 0 <= i < t.results.len() implies lists_node(
            b.results,
            (#[trigger] t.results[i]).node_idx as int,
        ) by {
            assert(b.results[i].node_idx == t.results[i].node_idx);
        }
    } else if b.results.len() < ef || less32(c.distance, b.results.last().distance) {
        offer_taken_keeps_invariant(g, ds, ef, level, b, node);
    } else {
        assert forall|v: int| #[trigger] t.visited.contains(v) implies lists_node(t.results, v)
            || outranked(t, ds, ef, v) by {
            if v != node {
                assert(b.visited.contains(v));
                assert(outranked(b, ds, ef, v) ==> outranked(t, ds, ef, v));
            }
        }
        assert forall|i: int| 0 <= i < t.results.len() implies lists_node(
            b.results,
            (#[trigger] t.results[i]).node_idx as int,
        ) by {
            assert(b.results[i].node_idx == t.results[i].node_idx);
        }
    }
}

/// A beam stays in order without the closest node of its frontier.
pub proof fn popped_keeps_invariant(
    g: Seq<NodeView>,
    ds: Seq<u32>,
    ef: nat,
    level: int,
    b: Beam,
)
    requires
        beam_invariant(g, ds, ef, level, b),
        b.frontier.len() > 0,
    ensures
        beam_invariant(g, ds, ef, level, popped(b)),
{
    let p = popped(b);
    popped_in_range(g, b);
    assert forall|i: int, j: int| 0 <= i < j < p.frontier.len() implies (
    #[trigger] p.frontier[i]).rank() <= (#[trigger] p.frontier[j]).rank() by {
        assert(p.frontier[i] == b.frontier[i + 1] && p.frontier[j] == b.frontier[j + 1]);
    }
    assert forall|i: int| 0 <= i < p.frontier.len() implies (#[trigger] p.frontier[i]).node_idx
        < ds.len() && p.frontier[i].distance == ds[p.frontier[i].node_idx as int] by {
        assert(p.frontier[i] == b.frontier[i + 1]);
    }
    assert forall|v: int| #[trigger] p.visited.contains(v) implies lists_node(p.results, v)
        || outranked(p, ds, ef, v) by {
        assert(b.visited.contains(v));
        assert(outranked(b, ds, ef, v) ==> outranked(p, ds, ef, v));
    }
}

/// A beam stays in order once it has come across the nodes of a list, which it
/// has then seen.
pub proof fn offered_keeps_invariant(
    g: Seq<NodeView>,
    ds: Seq<u32>,
    ef: nat,
    level: int,
    b: Beam,
    list: Seq<int>,
)
    requires
        beam_invariant(g, ds, ef, level, b),
        ds.len() == g.len(),
        g.len() <= usize::MAX,
        forall|i: int| 0 <= i < list.len() ==> 0 <= #[trigger] list[i] < g.len(),
    ensures
        beam_invariant(g, ds, ef, level, offer_all(b, ds, ef, list)),
        forall|v: int| #[trigger]
            b.visited.contains(v) ==> offer_all(b, ds, ef, list).visited.contains(v),
        forall|i: int|
            0 <= i < list.len() ==> offer_all(b, ds, ef, list).visited.contains(#[trigger] list[i]),
        forall|n: int| #[trigger]
            lists_node(b.frontier, n) ==> lists_node(offer_all(b, ds, ef, list).frontier, n),
        forall|i: int|
            0 <= i < offer_all(b, ds, ef, list).results.len() ==> lists_node(
                b.results,
                (#[trigger] offer_all(b, ds, ef, list).results[i]).node_idx as int,
            ) || lists_node(
                offer_all(b, ds, ef, list).frontier,
                offer_all(b, ds, ef, list).results[i].node_idx as int,
            ),
    decreases list.len(),
{
    if list.len() == 0 {
        assert forall|i: int| 0 <= i < b.results.len() implies lists_node(
            b.results,
            (#[trigger] b.results[i]).node_idx as int,
        ) by {}
    } else {
        let fewer = list.drop_last();
        let mid = offer_all(b, ds, ef, fewer);
        let end = offer_all(b, ds, ef, list);
        assert forall|i: int| 0 <= i < fewer.len() implies 0 <= #[trigger] fewer[i] < g.len() by {
            assert(fewer[i] == list[i]);
        }
        offered_keeps_invariant(g, ds, ef, level, b, fewer);
        assert(0 <= list[list.len() - 1] < g.len());
        offer_keeps_invariant(g, ds, ef, level, mid, list.last());
        assert forall|i: int| 0 <= i < list.len() implies end.visited.contains(
            #[trigger] list[i],
        ) by {
            if i < fewer.len() {
                assert(fewer[i] == list[i]);
            }
        }
        assert forall|i: int| 0 <= i < end.results.len() implies lists_node(
            b.results,
            (#[trigger] end.results[i]).node_idx as int,
        ) || lists_node(end.frontier, end.results[i].node_idx as int) by {
            let n = end.results[i].node_idx as int;
            if !lists_node(end.frontier, n) {
                assert(lists_node(mid.results, n));
                let j = choose|j: int|
                    0 <= j < mid.results.len() && (#[trigger] mid.results[j]).node_idx == n;
                assert(mid.results[j].node_idx == n);
                assert(!lists_node(mid.frontier, n));
            }
        }
    }
}

/// What the outcome of a beam search satisfies: the results are in order and
/// distinct, and they are a local optimum.
pub open spec fn is_local_optimum(
    g: Seq<NodeView>,
    ds: Seq<u32>,
    ef: nat,
    level: int,
    found: Seq<Candidate>,
) -> bool {
    &&& found.len() >= 1
    &&& found.len() <= ef || found.len() == 1
    &&& is_ranked(found)
    &&& holds_nodes(found, ds)
    &&& no_node_twice(found)
    &&& forall|i: int, j: int|
        0 <= i < found.len() && 0 <= j < links_of(g, found[i].node_idx as int, level).len() ==> {
            let n = #[trigger] links_of(g, found[i].node_idx as int, level)[j];
            lists_node(found, n) || (found.len() >= ef && !less32(ds[n], found.last().distance))
        }
}

proof fn run_beam_is_optimal(
    g: Seq<NodeView>,
    ds: Seq<u32>,
    ef: nat,
    level: int,
    b: Beam,
    entry: int,
)
    requires
        links_in_range(g),
        ds.len() == g.len(),
        g.len() <= usize::MAX,
        beam_invariant(g, ds, ef, level, b),
        results_followed(g, level, b),
        b.visited.contains(entry),
    ensures
        ({
            let found = run_beam(g, ds, ef, level, b);
            &&& is_local_optimum(g, ds, ef, level, found)
            &&& lists_node(found, entry) || (found.len() >= ef && !less32(
                ds[entry],
                found.last().distance,
            ))
        }),
    decreases g.len() - b.visited.len() + b.frontier.len(),
{
    if b.frontier.len() > 0 && !(less32(b.results.last().distance, b.frontier[0].distance)
        && b.results.len() >= ef) {
        let c = b.frontier[0];
        let node = c.node_idx as int;
        let p = popped(b);
        let list = links_of(g, node, level);
        let t = offer_all(p, ds, ef, list);
        assert(b.visited.contains(b.frontier[0].node_idx as int));
        links_of_range(g, node, level);
        popped_in_range(g, b);
        popped_keeps_invariant(g, ds, ef, level, b);
        offered_keeps_invariant(g, ds, ef, level, p, list);
        offered_in_range(g, p, ds, ef, list);
        visited_bound(g, t);
        assert(results_followed(g, level, t)) by {
            assert forall|i: int| 0 <= i < t.results.len() implies lists_node(
                t.frontier,
                (#[trigger] t.results[i]).node_idx as int,
            ) || expanded(g, level, t, t.results[i].node_idx as int) by {
                let n = t.results[i].node_idx as int;
                if !lists_node(t.frontier, n) {
                    assert(lists_node(p.results, n));
                    let j = choose|j: int|
                        0 <= j < b.results.len() && (#[trigger] b.results[j]).node_idx == n;
                    assert(b.results[j].node_idx == n);
                    if n == node {
                        assert(expanded(g, level, t, n));
                    } else if lists_node(b.frontier, n) {
                        let k = choose|k: int|
                            0 <= k < b.frontier.len() && (#[trigger] b.frontier[k]).node_idx == n;
                        assert(p.frontier[k - 1] == b.frontier[k]);
                        assert(lists_node(p.frontier, n));
                    } else {
                        assert(expanded(g, level, b, n));
                        assert forall|m: int|
                            0 <= m < links_of(g, n, level).len() implies t.visited.contains(
                            #[trigger] links_of(g, n, level)[m],
                        ) by {
                            assert(b.visited.contains(links_of(g, n, level)[m]));
                            assert(p.visited.contains(links_of(g, n, level)[m]));
                        }
                    }
                }
            }
        }
        assert(p.visited.contains(entry));
        run_beam_is_optimal(g, ds, ef, level, t, entry);
    } else {
        let found = b.results;
        assert(run_beam(g, ds, ef, level, b) == found);
        assert forall|i: int, j: int|
            0 <= i < found.len() && 0 <= j < links_of(g, found[i].node_idx as int, level).len() implies {
            let n = #[trigger] links_of(g, found[i].node_idx as int, level)[j];
            lists_node(found, n) || (found.len() >= ef && !less32(ds[n], found.last().distance))
        } by {
            let r = found[i].node_idx as int;
            let n = links_of(g, r, level)[j];
            assert(b.results[i].node_idx == r);
            if lists_node(b.frontier, r) {
                let k = choose|k: int|
                    0 <= k < b.frontier.len() && (#[trigger] b.frontier[k]).node_idx == r;
                assert(b.frontier[k].distance == ds[r]);
                assert(b.results[i].distance == ds[r]);
                assert(b.results[i].rank() <= b.results[b.results.len() - 1].rank());
                if k > 0 {
                    assert(b.frontier[0].rank() <= b.frontier[k].rank());
                }
                assert(false);
            }
            assert(expanded(g, level, b, r));
            assert(b.visited.contains(links_of(g, r, level)[j]));
            assert(lists_node(b.results, n) || outranked(b, ds, ef, n));
        }
        assert(lists_node(b.results, entry) || outranked(b, ds, ef, entry));
    }
}

/// Beam search finds a local optimum: at most `ef` distinct nodes (one at the
/// least), the closest first, such that the entry point and every neighbor of a
/// result is itself a result, or there are `ef` results and it is not closer than
/// the last of them.
pub proof fn beam_search_is_locally_optimal(
    g: Seq<NodeView>,
    ds: Seq<u32>,
    ef: nat,
    level: int,
    entry: int,
)
    requires
        links_in_range(g),
        ds.len() == g.len(),
        0 <= entry < g.len() <= usize::MAX,
    ensures
        is_local_optimum(g, ds, ef, level, beam_search(g, ds, ef, level, entry)),
        ({
            let found = beam_search(g, ds, ef, level, entry);
            lists_node(found, entry) || (found.len() >= ef && !less32(
                ds[entry],
                found.last().distance,
            ))
        }),
{
    let b = beam_at(ds, entry);
    assert(b.results[0].node_idx == entry);
    assert(b.frontier[0].node_idx == entry);
    assert(lists_node(b.results, entry));
    assert(lists_node(b.frontier, entry));
    run_beam_is_optimal(g, ds, ef, level, b, entry);
}

/// Whether a sequence of nodes leads along the links of a layer.
pub open spec fn is_path(g: Seq<NodeView>, level: int, path: Seq<int>) -> bool {
    &&& path.len() >= 1
    &&& 0 <= path[0] < g.len()
    &&& forall|i: int|
        0 < i < path.len() ==> links_of(g, path[i - 1], level).contains(#[trigger] path[i])
}

/// A beam search that finds fewer than `ef` nodes has missed none: it finds every
/// node that a path leads to from the entry point.
pub proof fn short_beam_search_is_complete(
    g: Seq<NodeView>,
    ds: Seq<u32>,
    ef: nat,
    level: int,
    entry: int,
    path: Seq<int>,
)
    requires
        links_in_range(g),
        ds.len() == g.len(),
        0 <= entry < g.len() <= usize::MAX,
        is_path(g, level, path),
        path[0] == entry,
        beam_search(g, ds, ef, level, entry).len() < ef,
    ensures
        lists_node(beam_search(g, ds, ef, level, entry), path.last()),
    decreases path.len(),
{
    let found = beam_search(g, ds, ef, level, entry);
    beam_search_is_locally_optimal(g, ds, ef, level, entry);
    if path.len() > 1 {
        let shorter = path.drop_last();
        assert forall|i: int|
            0 < i < shorter.len() implies links_of(g, shorter[i - 1], level).contains(
            #[trigger] shorter[i],
        ) by {
            assert(links_of(g, path[i - 1], level).contains(path[i]));
        }
        short_beam_search_is_complete(g, ds, ef, level, entry, shorter);
        let last = path.len() - 1;
        let list = links_of(g, path[last - 1], level);
        assert(list.contains(path[last]));
        let j = choose|j: int| 0 <= j < list.len() && list[j] == path[last];
        let i = choose|i: int|
            0 <= i < found.len() && (#[trigger] found[i]).node_idx == path[last - 1];
        assert(links_of(g, found[i].node_idx as int, level)[j] == path[last]);
    }
}

/// A beam search follows every path that stays close: a node that a path leads to
/// from the entry point is found if every node on the path is closer than the last
/// that is found.
pub proof fn close_path_is_followed(
    g: Seq<NodeView>,
    ds: Seq<u32>,
    ef: nat,
    level: int,
    entry: int,
    path: Seq<int>,
)
    requires
        links_in_range(g),
        ds.len() == g.len(),
        0 <= entry < g.len() <= usize::MAX,
        is_path(g, level, path),
        path[0] == entry,
        forall|i: int|
            0 <= i < path.len() ==> less32(
                ds[#[trigger] path[i]],
                beam_search(g, ds, ef, level, entry).last().distance,
            ),
    ensures
        lists_node(beam_search(g, ds, ef, level, entry), path.last()),
    decreases path.len(),
{
    let found = beam_search(g, ds, ef, level, entry);
    beam_search_is_locally_optimal(g, ds, ef, level, entry);
    let last = path.len() - 1;
    assert(less32(ds[path[last]], found.last().distance));
    if path.len() > 1 {
        let shorter = path.drop_last();
        assert forall|i: int|
            0 < i < shorter.len() implies links_of(g, shorter[i - 1], level).contains(
            #[trigger] shorter[i],
        ) by {
            assert(links_of(g, path[i - 1], level).contains(path[i]));
        }
        assert forall|i: int| 0 <= i < shorter.len() implies less32(
            ds[#[trigger] shorter[i]],
            found.last().distance,
        ) by {
            assert(less32(ds[path[i]], found.last().distance));
        }
        close_path_is_followed(g, ds, ef, level, entry, shorter);
        let list = links_of(g, path[last - 1], level);
        assert(list.contains(path[last]));
        let j = choose|j: int| 0 <= j < list.len() && list[j] == path[last];
        let i = choose|i: int|
            0 <= i < found.len() && (#[trigger] found[i]).node_idx == path[last - 1];
        assert(links_of(g, found[i].node_idx as int, level)[j] == path[last]);
    }
}

/// Greedy descent through the layers does not end farther off than it began, and
/// ends where no neighbor in the lowest of the layers is closer.
pub proof fn layered_descent_ends_at_a_minimum(
    g: Seq<NodeView>,
    ds: Seq<u32>,
    skip_deleted: bool,
    high: int,
    low: int,
    current: int,
)
    requires
        links_in_range(g),
        0 <= current < g.len(),
    ensures
        ({
            let end = descend_layers(g, ds, skip_deleted, high, low, current);
            &&& 0 <= end < g.len()
            &&& end == current || less32(ds[end], ds[current])
            &&& high >= low ==> forall|i: int|
                0 <= i < links_of(g, end, low).len() ==> !less32(
                    ds[#[trigger] links_of(g, end, low)[i]],
                    ds[end],
                ) || (skip_deleted && g[links_of(g, end, low)[i]].deleted)
        }),
    decreases high - low + 1,
{
    if high >= low {
        descent_ends_at_a_minimum(g, ds, skip_deleted, high, current);
        let next = descend(g, ds, skip_deleted, high, current);
        layered_descent_ends_at_a_minimum(g, ds, skip_deleted, high - 1, low, next);
        if high == low {
            assert(descend_layers(g, ds, skip_deleted, high - 1, low, next) == next);
        }
    }
}

} // verus!
