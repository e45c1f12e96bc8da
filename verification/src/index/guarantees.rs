//! What a caller may expect of search results.
use vstd::prelude::*;

use crate::distance::{less32, rank32};
use crate::index::beam::{beam_search, beam_search_is_locally_optimal, close_path_is_followed,
    descend, descend_layers, descent_ends_at_a_minimum, distances, holds_nodes, is_path,
    links_in_range, lists_node, no_node_twice, short_beam_search_is_complete};
use crate::index::exact::all_numbers;
use crate::index::graph::NodeView;
use crate::index::hnsw::{filtered_results, larger, nodes_mirror, result_of, results_of,
    search_results, IndexView};
use crate::index::kernel::distance;
use crate::index::link::{live_candidates, topology_wf, Topology};
use crate::index::ranking::{first, is_ranked, Candidate};
use crate::index::sieve::{filtered_search, filtered_search_is_locally_optimal, passing};
use crate::index::SearchResult;
use crate::metadata::{pairs_map, Filter};

verus! {

/// Whether node `i` stands for slot `i`, for every node.
pub open spec fn nodes_are_slots(g: Seq<NodeView>) -> bool {
    forall|i: int| 0 <= i < g.len() ==> (#[trigger] g[i]).slot == i
}

/// Whether a list of results is in order, distinct, and each result is a node
/// with its ID and its distance.
pub open spec fn results_sound(g: Seq<NodeView>, ds: Seq<u32>, r: Seq<SearchResult>) -> bool {
    &&& forall|i: int|
        0 <= i < r.len() ==> {
            &&& (#[trigger] r[i]).slot < g.len()
            &&& r[i].vector_id == g[r[i].slot as int].id
            &&& r[i].distance == ds[r[i].slot as int]
        }
    &&& forall|i: int, j: int|
        0 <= i < j < r.len() ==> rank32((#[trigger] r[i]).distance) <= rank32(
            (#[trigger] r[j]).distance,
        ) && r[i].slot != r[j].slot
}

proof fn candidates_become_results(g: Seq<NodeView>, ds: Seq<u32>, s: Seq<Candidate>)
    requires
        nodes_are_slots(g),
        ds.len() == g.len(),
        g.len() <= usize::MAX,
        is_ranked(s),
        holds_nodes(s, ds),
        no_node_twice(s),
    ensures
        results_sound(g, ds, results_of(g, s)),
        forall|i: int| 0 <= i < s.len() ==> (#[trigger] results_of(g, s)[i]).slot == s[i].node_idx,
{
    let r = results_of(g, s);
    assert forall|i: int| 0 <= i < s.len() implies {
        &&& (#[trigger] r[i]).slot == s[i].node_idx
        &&& r[i].slot < g.len()
        &&& r[i].vector_id == g[r[i].slot as int].id
        &&& r[i].distance == ds[r[i].slot as int]
    } by {
        assert(s[i].node_idx < ds.len());
        assert(g[s[i].node_idx as int].slot == s[i].node_idx);
        assert(r[i] == result_of(g, s[i]));
    }
    assert forall|i: int, j: int| 0 <= i < j < r.len() implies rank32((#[trigger] r[i]).distance)
        <= rank32((#[trigger] r[j]).distance) && r[i].slot != r[j].slot by {
        assert(s[i].rank() <= s[j].rank());
        assert(s[i].node_idx != s[j].node_idx);
    }
}

/// What is left of some candidates without those that are deleted.
proof fn live_candidates_kept(g: Seq<NodeView>, ds: Seq<u32>, found: Seq<Candidate>)
    requires
        is_ranked(found),
        holds_nodes(found, ds),
        no_node_twice(found),
    ensures
        ({
            let live = live_candidates(g, -1, found);
            &&& is_ranked(live)
            &&& holds_nodes(live, ds)
            &&& no_node_twice(live)
            &&& forall|i: int| 0 <= i < live.len() ==> !g[(#[trigger] live[i]).node_idx as int].deleted
                && lists_node(found, live[i].node_idx as int)
            &&& forall|n: int| #[trigger]
                lists_node(found, n) && !g[n].deleted ==> lists_node(live, n)
            &&& live.len() > 0 ==> found.len() > 0 && live.last().rank() <= found.last().rank()
        }),
    decreases found.len(),
{
    if found.len() > 0 {
        let fewer = found.drop_last();
        let c = found.last();
        let last = found.len() - 1;
        assert forall|i: int, j: int| 0 <= i < j < fewer.len() implies (#[trigger] fewer[i]).rank()
            <= (#[trigger] fewer[j]).rank() by {
            assert(found[i].rank() <= found[j].rank());
        }
        assert forall|i: int, j: int| 0 <= i < j < fewer.len() implies (#[trigger] fewer[i]).node_idx
            != (#[trigger] fewer[j]).node_idx by {
            assert(found[i].node_idx != found[j].node_idx);
        }
        assert forall|i: int| 0 <= i < fewer.len() implies (#[trigger] fewer[i]).node_idx < ds.len()
            && fewer[i].distance == ds[fewer[i].node_idx as int] by {
            assert(fewer[i] == found[i]);
        }
        live_candidates_kept(g, ds, fewer);
        let before = live_candidates(g, -1, fewer);
        let live = live_candidates(g, -1, found);
        assert(found[last].node_idx < ds.len());
        if fewer.len() > 0 {
            assert(found[last - 1].rank() <= found[last].rank());
        }
        assert forall|n: int| #[trigger] lists_node(fewer, n) implies lists_node(found, n)
            && n != c.node_idx by {
            let i = choose|i: int| 0 <= i < fewer.len() && (#[trigger] fewer[i]).node_idx == n;
            assert(found[i].node_idx == n);
            assert(found[i].node_idx != found[last].node_idx);
        }
        assert(lists_node(found, c.node_idx as int)) by {
            assert(found[last].node_idx == c.node_idx);
        }
        assert forall|i: int| 0 <= i < live.len() implies !g[(#[trigger] live[i]).node_idx as int].deleted
            && lists_node(found, live[i].node_idx as int) by {
            if i < before.len() {
                assert(live[i] == before[i]);
                assert(lists_node(fewer, before[i].node_idx as int));
            }
        }
        assert forall|i: int, j: int| 0 <= i < j < live.len() implies (#[trigger] live[i]).rank() <= (
        #[trigger] live[j]).rank() && live[i].node_idx != live[j].node_idx by {
            if j < before.len() {
                assert(before[i].rank() <= before[j].rank());
                assert(before[i].node_idx != before[j].node_idx);
            } else {
                assert(live[i] == before[i]);
                assert(lists_node(fewer, before[i].node_idx as int));
                assert(before[i].rank() <= before.last().rank()) by {
                    if i < before.len() - 1 {
                        assert(before[i].rank() <= before[before.len() - 1].rank());
                    }
                }
            }
        }
        assert forall|n: int| #[trigger] lists_node(found, n) && !g[n].deleted implies lists_node(
            live,
            n,
        ) by {
            let i = choose|i: int| 0 <= i < found.len() && (#[trigger] found[i]).node_idx == n;
            if i < last {
                assert(fewer[i].node_idx == n);
                assert(lists_node(fewer, n));
                let j = choose|j: int| 0 <= j < before.len() && (#[trigger] before[j]).node_idx == n;
                assert(live[j] == before[j]);
            } else {
                assert(live[before.len() as int].node_idx == n);
            }
        }
        assert forall|i: int| 0 <= i < live.len() implies (#[trigger] live[i]).node_idx < ds.len()
            && live[i].distance == ds[live[i].node_idx as int] by {
            if i < before.len() {
                assert(live[i] == before[i]);
            }
        }
    }
}

proof fn first_kept(s: Seq<Candidate>, ds: Seq<u32>, k: nat)
    requires
        is_ranked(s),
        holds_nodes(s, ds),
        no_node_twice(s),
    ensures
        is_ranked(first(s, k)),
        holds_nodes(first(s, k), ds),
        no_node_twice(first(s, k)),
        first(s, k).len() <= k,
        forall|i: int| 0 <= i < first(s, k).len() ==> #[trigger] first(s, k)[i] == s[i],
{
    let f = first(s, k);
    assert forall|i: int| 0 <= i < f.len() implies #[trigger] f[i] == s[i] by {}
    assert forall|i: int, j: int| 0 <= i < j < f.len() implies (#[trigger] f[i]).rank() <= (
    #[trigger] f[j]).rank() && f[i].node_idx != f[j].node_idx by {
        assert(s[i].rank() <= s[j].rank());
        assert(s[i].node_idx != s[j].node_idx);
    }
}

/// Greedy descent stays within the graph.
pub proof fn descent_in_range(
    g: Seq<NodeView>,
    ds: Seq<u32>,
    skip: bool,
    high: int,
    low: int,
    current: int,
)
    requires
        links_in_range(g),
        0 <= current < g.len(),
    ensures
        0 <= descend_layers(g, ds, skip, high, low, current) < g.len(),
    decreases high - low + 1,
{
    if high >= low {
        descent_ends_at_a_minimum(g, ds, skip, high, current);
        descent_in_range(g, ds, skip, high - 1, low, descend(g, ds, skip, high, current));
    }
}

/// A search returns at most `k` vectors, the nearest first, each once, with its
/// ID and its distance, and none that is deleted.
pub proof fn search_results_are_sound(t: Topology, ds: Seq<u32>, k: nat, ef_search: nat)
    requires
        topology_wf(t),
        t.entry is Some,
        links_in_range(t.g),
        nodes_are_slots(t.g),
        ds.len() == t.g.len(),
        t.g.len() <= usize::MAX,
    ensures
        search_results(t, ds, k, ef_search).len() <= k,
        results_sound(t.g, ds, search_results(t, ds, k, ef_search)),
        forall|i: int|
            0 <= i < search_results(t, ds, k, ef_search).len() ==> !t.g[(#[trigger] search_results(
                t,
                ds,
                k,
                ef_search,
            )[i]).slot as int].deleted,
{
    let start = descend_layers(t.g, ds, true, t.max_level, 1, t.entry->0);
    descent_in_range(t.g, ds, true, t.max_level, 1, t.entry->0);
    let ef = larger(ef_search, k);
    let found = beam_search(t.g, ds, ef, 0, start);
    beam_search_is_locally_optimal(t.g, ds, ef, 0, start);
    live_candidates_kept(t.g, ds, found);
    let live = live_candidates(t.g, -1, found);
    first_kept(live, ds, k);
    candidates_become_results(t.g, ds, first(live, k));
    let r = search_results(t, ds, k, ef_search);
    assert forall|i: int| 0 <= i < r.len() implies !t.g[(#[trigger] r[i]).slot as int].deleted by {
        assert(r[i].slot == first(live, k)[i].node_idx);
        assert(first(live, k)[i] == live[i]);
        assert(!t.g[live[i].node_idx as int].deleted);
    }
}

/// Whether a node is among some results.
pub open spec fn finds(r: Seq<SearchResult>, node: int) -> bool {
    exists|i: int| 0 <= i < r.len() && (#[trigger] r[i]).slot == node
}

/// A search whose beam was wider than what it found is exact: every vector that
/// is not deleted and that a path leads to in the lowest layer is returned, or
/// `k` vectors are and none of them is farther.
pub proof fn wide_search_is_exact(
    t: Topology,
    ds: Seq<u32>,
    k: nat,
    ef_search: nat,
    path: Seq<int>,
)
    requires
        topology_wf(t),
        t.entry is Some,
        links_in_range(t.g),
        nodes_are_slots(t.g),
        ds.len() == t.g.len(),
        t.g.len() <= usize::MAX,
        is_path(t.g, 0, path),
        path[0] == descend_layers(t.g, ds, true, t.max_level, 1, t.entry->0),
        0 <= path.last() < t.g.len(),
        !t.g[path.last()].deleted,
        beam_search(t.g, ds, larger(ef_search, k), 0, path[0]).len() < larger(ef_search, k),
    ensures
        ({
            let r = search_results(t, ds, k, ef_search);
            finds(r, path.last()) || (r.len() == k && forall|i: int|
                0 <= i < r.len() ==> rank32((#[trigger] r[i]).distance) <= rank32(ds[path.last()]))
        }),
{
    let start = path[0];
    let ef = larger(ef_search, k);
    let found = beam_search(t.g, ds, ef, 0, start);
    beam_search_is_locally_optimal(t.g, ds, ef, 0, start);
    short_beam_search_is_complete(t.g, ds, ef, 0, start, path);
    live_candidates_kept(t.g, ds, found);
    let live = live_candidates(t.g, -1, found);
    first_kept(live, ds, k);
    candidates_become_results(t.g, ds, first(live, k));
    let r = search_results(t, ds, k, ef_search);
    let n = path.last();
    assert(lists_node(live, n));
    let p = choose|p: int| 0 <= p < live.len() && (#[trigger] live[p]).node_idx == n;
    if p < r.len() {
        assert(first(live, k)[p] == live[p]);
        assert(r[p].slot == n);
    } else {
        assert(r.len() == k);
        assert forall|i: int| 0 <= i < r.len() implies rank32((#[trigger] r[i]).distance) <= rank32(
            ds[n],
        ) by {
            assert(first(live, k)[i] == live[i]);
            assert(live[i].rank() <= live[p].rank());
            assert(live[p].distance == ds[n]);
        }
    }
}

/// A filtered search returns at most `k` vectors, the nearest first, each once,
/// with its ID and its distance, and only vectors that pass the filter; where it
/// returns fewer than `k`, it returns every vector that passes and that a path
/// leads to in the lowest layer.
pub proof fn filtered_results_are_sound(
    t: Topology,
    ds: Seq<u32>,
    keep: Seq<bool>,
    k: nat,
    ef_search: nat,
    path: Seq<int>,
)
    requires
        topology_wf(t),
        t.entry is Some,
        links_in_range(t.g),
        nodes_are_slots(t.g),
        ds.len() == t.g.len(),
        keep.len() == t.g.len(),
        t.g.len() <= usize::MAX,
        is_path(t.g, 0, path),
        path[0] == descend_layers(t.g, ds, true, t.max_level, 1, t.entry->0),
    ensures
        ({
            let r = filtered_results(t, ds, keep, k, ef_search);
            &&& r.len() <= k
            &&& results_sound(t.g, ds, r)
            &&& forall|i: int| 0 <= i < r.len() ==> keep[(#[trigger] r[i]).slot as int]
            &&& r.len() < k && keep[path.last()] ==> finds(r, path.last())
        }),
{
    if k > 0 {
        let start = path[0];
        let ef = larger(ef_search, k);
        let found = filtered_search(t.g, ds, keep, k, ef, start);
        filtered_search_is_locally_optimal(t.g, ds, keep, k, ef, start, path);
        candidates_become_results(t.g, ds, found);
        let r = filtered_results(t, ds, keep, k, ef_search);
        assert forall|i: int| 0 <= i < r.len() implies keep[(#[trigger] r[i]).slot as int] by {
            assert(r[i].slot == found[i].node_idx);
            assert(keep[found[i].node_idx as int]);
        }
        if r.len() < k && keep[path.last()] {
            let i = choose|i: int|
                0 <= i < found.len() && (#[trigger] found[i]).node_idx == path.last();
            assert(r[i].slot == path.last());
        }
    }
}

/// How many of some nodes are not deleted is how many of them are kept.
proof fn live_candidates_counted(g: Seq<NodeView>, found: Seq<Candidate>)
    ensures
        live_candidates(g, -1, found).len() == found.filter(
            |c: Candidate| !g[c.node_idx as int].deleted,
        ).len(),
    decreases found.len(),
{
    reveal(Seq::filter);
    if found.len() > 0 {
        live_candidates_counted(g, found.drop_last());
    }
}

/// A search leaves out no live vector that its beam finds but for nearer ones: it
/// returns `k` of them, or all where they are fewer; and each of them is returned,
/// or `k` are and none of those is farther.
pub proof fn live_finds_are_returned(t: Topology, ds: Seq<u32>, k: nat, ef_search: nat)
    requires
        topology_wf(t),
        t.entry is Some,
        links_in_range(t.g),
        nodes_are_slots(t.g),
        ds.len() == t.g.len(),
        t.g.len() <= usize::MAX,
    ensures
        ({
            let start = descend_layers(t.g, ds, true, t.max_level, 1, t.entry->0);
            let width = larger(ef_search, k);
            let found = beam_search(t.g, ds, width, 0, start);
            let live = found.filter(|c: Candidate| !t.g[c.node_idx as int].deleted).len();
            let r = search_results(t, ds, k, ef_search);
            &&& width >= ef_search && width >= k && (width == ef_search || width == k)
            &&& r.len() == (if live <= k { live } else { k })
            &&& forall|v: int| #[trigger]
                lists_node(found, v) && !t.g[v].deleted ==> finds(r, v) || (r.len() == k
                    && forall|i: int|
                    0 <= i < r.len() ==> rank32((#[trigger] r[i]).distance) <= rank32(ds[v]))
            &&& forall|i: int|
                0 <= i < r.len() ==> lists_node(found, (#[trigger] r[i]).slot as int)
        }),
{
    let start = descend_layers(t.g, ds, true, t.max_level, 1, t.entry->0);
    descent_in_range(t.g, ds, true, t.max_level, 1, t.entry->0);
    let ef = larger(ef_search, k);
    let found = beam_search(t.g, ds, ef, 0, start);
    beam_search_is_locally_optimal(t.g, ds, ef, 0, start);
    live_candidates_kept(t.g, ds, found);
    live_candidates_counted(t.g, found);
    let live = live_candidates(t.g, -1, found);
    first_kept(live, ds, k);
    candidates_become_results(t.g, ds, first(live, k));
    let r = search_results(t, ds, k, ef_search);
    assert forall|v: int| #[trigger] lists_node(found, v) && !t.g[v].deleted implies finds(r, v) || (
    r.len() == k && forall|i: int|
        0 <= i < r.len() ==> rank32((#[trigger] r[i]).distance) <= rank32(ds[v])) by {
        assert(lists_node(live, v));
        let p = choose|p: int| 0 <= p < live.len() && (#[trigger] live[p]).node_idx == v;
        if p < r.len() {
            assert(first(live, k)[p] == live[p]);
            assert(r[p].slot == v);
        } else {
            assert forall|i: int| 0 <= i < r.len() implies rank32((#[trigger] r[i]).distance)
                <= rank32(ds[v]) by {
                assert(first(live, k)[i] == live[i]);
                assert(live[i].rank() <= live[p].rank());
                assert(live[p].distance == ds[v]);
            }
        }
    }
    assert forall|i: int| 0 <= i < r.len() implies lists_node(
        found,
        (#[trigger] r[i]).slot as int,
    ) by {
        assert(r[i].slot == first(live, k)[i].node_idx);
        assert(first(live, k)[i] == live[i]);
        assert(lists_node(found, live[i].node_idx as int));
    }
}

/// A search that returns `k` vectors misses none that a close path leads to: a live
/// vector is among them if a path leads to it, from where the descent ends, all of
/// whose vectors are nearer than the last of them, and every distance is a number.
pub proof fn close_vectors_are_found(
    t: Topology,
    ds: Seq<u32>,
    k: nat,
    ef_search: nat,
    path: Seq<int>,
)
    requires
        topology_wf(t),
        t.entry is Some,
        links_in_range(t.g),
        nodes_are_slots(t.g),
        ds.len() == t.g.len(),
        t.g.len() <= usize::MAX,
        is_path(t.g, 0, path),
        path[0] == descend_layers(t.g, ds, true, t.max_level, 1, t.entry->0),
        0 <= path.last() < t.g.len(),
        !t.g[path.last()].deleted,
        all_numbers(ds),
        search_results(t, ds, k, ef_search).len() > 0,
        forall|i: int|
            0 <= i < path.len() ==> less32(
                ds[#[trigger] path[i]],
                search_results(t, ds, k, ef_search).last().distance,
            ),
    ensures
        finds(search_results(t, ds, k, ef_search), path.last()),
{
    let start = path[0];
    let ef = larger(ef_search, k);
    let found = beam_search(t.g, ds, ef, 0, start);
    let r = search_results(t, ds, k, ef_search);
    descent_in_range(t.g, ds, true, t.max_level, 1, t.entry->0);
    beam_search_is_locally_optimal(t.g, ds, ef, 0, start);
    search_results_are_sound(t, ds, k, ef_search);
    live_finds_are_returned(t, ds, k, ef_search);
    let far = r[r.len() - 1];
    assert(lists_node(found, far.slot as int));
    let p = choose|p: int| 0 <= p < found.len() && (#[trigger] found[p]).node_idx == far.slot;
    assert(found[p].distance == far.distance);
    if p < found.len() - 1 {
        assert(found[p].rank() <= found[found.len() - 1].rank());
    }
    let last = path.len() - 1;
    if found.len() < ef {
        short_beam_search_is_complete(t.g, ds, ef, 0, start, path);
    } else {
        let worst = found[found.len() - 1];
        assert(worst.distance == ds[worst.node_idx as int]);
        assert forall|i: int| 0 <= i < path.len() implies less32(
            ds[#[trigger] path[i]],
            found.last().distance,
        ) by {
            assert(less32(ds[path[i]], far.distance));
        }
        close_path_is_followed(t.g, ds, ef, 0, start, path);
    }
    assert(less32(ds[path[last]], far.distance));
    assert(lists_node(found, path.last()));
    if !finds(r, path.last()) {
        assert(rank32(r[r.len() - 1].distance) <= rank32(ds[path.last()]));
        assert(false);
    }
}

/// Each result of a search, filtered or not, is a vector of the store that is not
/// deleted: it carries the ID that its own slot has, and the distance of its own
/// vector from the query. There are at most `k`, each once, the nearest first; and
/// under a filter the metadata of each passes.
pub proof fn results_name_their_vectors<K: Fn(&[u32], &[u32]) -> u32>(
    kernel: K,
    query: Seq<u32>,
    index: IndexView,
    filter: Filter,
    k: nat,
    ef_search: nat,
)
    requires
        topology_wf(index.topology),
        index.topology.entry is Some,
        links_in_range(index.topology.g),
        nodes_mirror(index.topology.g, index.store),
        index.topology.g.len() == index.store.ids.len(),
        index.topology.g.len() <= usize::MAX,
    ensures
        ({
            let g = index.topology.g;
            let ds = distances(kernel, query, g, index.store.vectors);
            let r = search_results(index.topology, ds, k, ef_search);
            &&& r.len() <= k
            &&& forall|i: int|
                0 <= i < r.len() ==> {
                    let slot = (#[trigger] r[i]).slot as int;
                    &&& slot < index.store.ids.len()
                    &&& r[i].vector_id == index.store.ids[slot]
                    &&& r[i].distance == distance(kernel, query, index.store.vectors[slot])
                    &&& !g[slot].deleted
                }
            &&& forall|i: int, j: int|
                0 <= i < j < r.len() ==> (#[trigger] r[i]).slot != (#[trigger] r[j]).slot && rank32(
                    r[i].distance,
                ) <= rank32(r[j].distance)
        }),
        ({
            let g = index.topology.g;
            let ds = distances(kernel, query, g, index.store.vectors);
            let keep = passing(g, index.store.metadata, filter);
            let r = filtered_results(index.topology, ds, keep, k, ef_search);
            &&& r.len() <= k
            &&& forall|i: int|
                0 <= i < r.len() ==> {
                    let slot = (#[trigger] r[i]).slot as int;
                    &&& slot < index.store.ids.len()
                    &&& r[i].vector_id == index.store.ids[slot]
                    &&& r[i].distance == distance(kernel, query, index.store.vectors[slot])
                    &&& !g[slot].deleted
                    &&& index.store.metadata[slot] is Some
                    &&& filter.holds(pairs_map(index.store.metadata[slot]->0))
                }
            &&& forall|i: int, j: int|
                0 <= i < j < r.len() ==> (#[trigger] r[i]).slot != (#[trigger] r[j]).slot && rank32(
                    r[i].distance,
                ) <= rank32(r[j].distance)
        }),
{
    let t = index.topology;
    let s = index.store;
    let ds = distances(kernel, query, t.g, s.vectors);
    search_results_are_sound(t, ds, k, ef_search);
    let r = search_results(t, ds, k, ef_search);
    assert forall|i: int| 0 <= i < r.len() implies {
        let slot = (#[trigger] r[i]).slot as int;
        &&& slot < s.ids.len()
        &&& r[i].vector_id == s.ids[slot]
        &&& r[i].distance == distance(kernel, query, s.vectors[slot])
        &&& !t.g[slot].deleted
    } by {
        assert(t.g[r[i].slot as int].slot == r[i].slot);
    }
    let keep = passing(t.g, s.metadata, filter);
    let start = descend_layers(t.g, ds, true, t.max_level, 1, t.entry->0);
    descent_in_range(t.g, ds, true, t.max_level, 1, t.entry->0);
    filtered_results_are_sound(t, ds, keep, k, ef_search, seq![start]);
    let f = filtered_results(t, ds, keep, k, ef_search);
    assert forall|i: int| 0 <= i < f.len() implies {
        let slot = (#[trigger] f[i]).slot as int;
        &&& slot < s.ids.len()
        &&& f[i].vector_id == s.ids[slot]
        &&& f[i].distance == distance(kernel, query, s.vectors[slot])
        &&& !t.g[slot].deleted
        &&& s.metadata[slot] is Some
        &&& filter.holds(pairs_map(s.metadata[slot]->0))
    } by {
        assert(t.g[f[i].slot as int].slot == f[i].slot);
        assert(keep[f[i].slot as int]);
    }
}

} // verus!
