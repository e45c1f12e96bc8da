//! How a new vector is linked into a graph in which vectors may be deleted, and
//! what a search finds of such a graph.
use vstd::prelude::*;

use crate::distance::{is_nan32, less32, rank32};
use crate::index::agreement::topology_sound;
use crate::index::beam::{beam_at, beam_invariant, beam_search, beam_search_is_locally_optimal,
    descend_layers, holds_nodes, is_path, links_of, links_of_range, lists_node, no_node_twice,
    short_beam_search_is_complete};
use crate::index::exact::all_numbers;
use crate::index::graph::{capacity, fresh_node, with_neighbors, NodeView};
use crate::index::guarantees::nodes_are_slots;
use crate::index::hnsw::grown;
use crate::index::kernel::distance;
use crate::index::link::{connected, connected_layers, layer_candidates, linked_back_all,
    live_candidates, matrix, next_entry, pruned, select_from, select_neighbors, smaller,
    with_distances, Limits, Topology};
use crate::index::ranking::{is_ranked, ranked, ranked_is_a_sort, Candidate};
use crate::index::small::{base_links, descent_avoids, full_list_has_all, has_older, list_is_short,
    run_avoids, selection_counts, symmetric, woven, woven_pair};
use crate::index::structure::{chosen_neighbors_are_distinct, connected_sound,
    descent_stays_in_layers, fresh_node_sound, graph_sound, in_layer, insertion_keeps_graph_sound,
    list_sound, ranked_keeps_nodes, sound_links_in_range, unlinked};

verus! {

/// Whether some node is not deleted.
pub open spec fn has_live(g: Seq<NodeView>) -> bool {
    exists|v: int| 0 <= v < g.len() && !(#[trigger] g[v]).deleted
}

/// What is left of some candidates: those that are not deleted and not the new
/// node, each once.
pub proof fn live_listed(g: Seq<NodeView>, new_node: int, found: Seq<Candidate>)
    requires
        no_node_twice(found),
    ensures
        ({
            let live = live_candidates(g, new_node, found);
            &&& no_node_twice(live)
            &&& forall|v: int| #[trigger]
                lists_node(live, v) <==> lists_node(found, v) && !g[v].deleted && v != new_node
        }),
    decreases found.len(),
{
    if found.len() > 0 {
        let fewer = found.drop_last();
        let c = found.last();
        let last = found.len() - 1;
        assert forall|i: int, j: int| 0 <= i < j < fewer.len() implies (#[trigger] fewer[i]).node_idx
            != (#[trigger] fewer[j]).node_idx by {
            assert(found[i].node_idx != found[j].node_idx);
        }
        live_listed(g, new_node, fewer);
        let before = live_candidates(g, new_node, fewer);
        let live = live_candidates(g, new_node, found);
        assert(!lists_node(fewer, c.node_idx as int)) by {
            if lists_node(fewer, c.node_idx as int) {
                let i = choose|i: int|
                    0 <= i < fewer.len() && (#[trigger] fewer[i]).node_idx == c.node_idx;
                assert(found[i].node_idx != found[last].node_idx);
            }
        }
        assert forall|v: int| #[trigger] lists_node(live, v) <==> lists_node(found, v)
            && !g[v].deleted && v != new_node by {
            if lists_node(live, v) {
                let i = choose|i: int| 0 <= i < live.len() && (#[trigger] live[i]).node_idx == v;
                if i < before.len() {
                    assert(before[i].node_idx == v);
                    assert(lists_node(before, v));
                    let j = choose|j: int|
                        0 <= j < fewer.len() && (#[trigger] fewer[j]).node_idx == v;
                    assert(found[j].node_idx == v);
                } else {
                    assert(found[last].node_idx == v);
                }
            }
            if lists_node(found, v) && !g[v].deleted && v != new_node {
                let j = choose|j: int| 0 <= j < found.len() && (#[trigger] found[j]).node_idx == v;
                if j < last {
                    assert(fewer[j].node_idx == v);
                    assert(lists_node(fewer, v));
                    assert(lists_node(before, v));
                    let i = choose|i: int|
                        0 <= i < before.len() && (#[trigger] before[i]).node_idx == v;
                    assert(live[i].node_idx == v);
                } else {
                    assert(live[before.len() as int].node_idx == v);
                }
            }
        }
        assert forall|i: int, j: int| 0 <= i < j < live.len() implies (#[trigger] live[i]).node_idx
            != (#[trigger] live[j]).node_idx by {
            if j < before.len() {
                assert(before[i].node_idx != before[j].node_idx);
            } else {
                assert(live[i] == before[i]);
                assert(lists_node(before, before[i].node_idx as int));
            }
        }
    }
}

/// The candidates of a new node in a layer are the older live nodes that a search
/// of the layer finds.
proof fn candidates_are_live(
    g: Seq<NodeView>,
    dm: Seq<Seq<u32>>,
    ef: nat,
    level: int,
    current: int,
)
    requires
        graph_sound(g),
        1 < g.len() < usize::MAX,
        level >= 0,
        dm[g.len() - 1].len() == g.len(),
        0 <= current < g.len() - 1,
        unlinked(g, level, g.len() - 1),
    ensures
        ({
            let new_node = g.len() - 1;
            let found = beam_search(g, dm[new_node], ef, level, current);
            let cs = layer_candidates(g, dm, ef, level, new_node, current);
            &&& no_node_twice(found)
            &&& forall|i: int| 0 <= i < found.len() ==> (#[trigger] found[i]).node_idx < new_node
            &&& no_node_twice(cs)
            &&& forall|v: int| #[trigger]
                lists_node(cs, v) <==> lists_node(found, v) && !g[v].deleted
            &&& forall|i: int|
                0 <= i < cs.len() ==> (#[trigger] cs[i]).node_idx < new_node
                    && !g[cs[i].node_idx as int].deleted
        }),
{
    let new_node = g.len() - 1;
    let ds = dm[new_node];
    let found = beam_search(g, ds, ef, level, current);
    let cs = layer_candidates(g, dm, ef, level, new_node, current);
    sound_links_in_range(g);
    beam_search_is_locally_optimal(g, ds, ef, level, current);
    let b = beam_at(ds, current);
    assert(b.results[0].node_idx == current && b.frontier[0].node_idx == current);
    assert(beam_invariant(g, ds, ef, level, b)) by {
        assert(lists_node(b.results, current));
    }
    run_avoids(g, ds, ef, level, b, new_node);
    assert forall|i: int| 0 <= i < found.len() implies (#[trigger] found[i]).node_idx < new_node by {
        assert(found[i].node_idx < ds.len());
        if found[i].node_idx == new_node {
            assert(lists_node(found, new_node));
        }
    }
    live_listed(g, new_node, found);
    assert forall|v: int| #[trigger] lists_node(cs, v) <==> lists_node(found, v) && !g[v].deleted by {
        if lists_node(found, v) {
            let i = choose|i: int| 0 <= i < found.len() && (#[trigger] found[i]).node_idx == v;
            assert(found[i].node_idx < new_node);
        }
    }
    assert forall|i: int| 0 <= i < cs.len() implies (#[trigger] cs[i]).node_idx < new_node
        && !g[cs[i].node_idx as int].deleted by {
        let v = cs[i].node_idx as int;
        assert(lists_node(cs, v));
        let j = choose|j: int| 0 <= j < found.len() && (#[trigger] found[j]).node_idx == v;
        assert(found[j].node_idx < new_node);
    }
}

/// Every candidate is among the nodes selected or put by.
proof fn selection_lists_all(dm: Seq<Seq<u32>>, max: nat, cs: Seq<Candidate>)
    ensures
        ({
            let s = select_from(dm, max, cs);
            forall|i: int|
                0 <= i < cs.len() ==> s.selected.contains((#[trigger] cs[i]).node_idx as int)
                    || s.discarded.contains(cs[i].node_idx as int)
        }),
        cs.len() > 0 && max > 0 ==> {
            let s = select_from(dm, max, cs);
            s.selected.len() > 0 && s.selected[0] == cs[0].node_idx
        },
    decreases cs.len(),
{
    if cs.len() > 0 {
        let fewer = cs.drop_last();
        selection_lists_all(dm, max, fewer);
        let before = select_from(dm, max, fewer);
        let s = select_from(dm, max, cs);
        assert forall|i: int| 0 <= i < cs.len() implies s.selected.contains(
            (#[trigger] cs[i]).node_idx as int,
        ) || s.discarded.contains(cs[i].node_idx as int) by {
            let v = cs[i].node_idx as int;
            if i < fewer.len() {
                assert(fewer[i] == cs[i]);
                if before.selected.contains(v) {
                    let j = choose|j: int| 0 <= j < before.selected.len() && before.selected[j] == v;
                    assert(s.selected[j] == v);
                } else {
                    let j = choose|j: int|
                        0 <= j < before.discarded.len() && before.discarded[j] == v;
                    assert(s.discarded[j] == v);
                }
            } else if s.selected.len() > before.selected.len() {
                assert(s.selected[s.selected.len() - 1] == v);
            } else {
                assert(s.discarded[s.discarded.len() - 1] == v);
            }
        }
        if max > 0 && fewer.len() > 0 {
            assert(fewer[0] == cs[0]);
        }
    }
}

/// The choice of neighbors leaves no room unused: it takes `max` of the candidates,
/// or all where they are fewer, each once, and the first of them always.
pub proof fn chosen_neighbors_fill_the_room(
    dm: Seq<Seq<u32>>,
    max: nat,
    candidates: Seq<Candidate>,
)
    requires
        no_node_twice(candidates),
    ensures
        ({
            let chosen = select_neighbors(dm, max, candidates);
            &&& chosen.len() == (if candidates.len() <= max { candidates.len() } else { max })
            &&& chosen.no_duplicates()
            &&& forall|i: int|
                0 <= i < chosen.len() ==> lists_node(candidates, #[trigger] chosen[i])
            &&& candidates.len() > 0 && max > 0 ==> chosen.contains(candidates[0].node_idx as int)
            &&& forall|i: int|
                0 <= i < candidates.len() ==> chosen.contains(
                    (#[trigger] candidates[i]).node_idx as int,
                ) || chosen.len() == max
        }),
{
    let chosen = select_neighbors(dm, max, candidates);
    let s = select_from(dm, max, candidates);
    selection_counts(dm, max, candidates);
    selection_lists_all(dm, max, candidates);
    chosen_neighbors_are_distinct(dm, max, candidates);
    if candidates.len() > 0 && max > 0 {
        assert(chosen[0] == candidates[0].node_idx);
    }
    assert forall|i: int| 0 <= i < candidates.len() implies chosen.contains(
        (#[trigger] candidates[i]).node_idx as int,
    ) || chosen.len() == max by {
        let v = candidates[i].node_idx as int;
        if chosen.len() < max {
            assert(chosen == s.selected + s.discarded);
            if s.selected.contains(v) {
                let j = choose|j: int| 0 <= j < s.selected.len() && s.selected[j] == v;
                assert(chosen[j] == v);
            } else {
                let j = choose|j: int| 0 <= j < s.discarded.len() && s.discarded[j] == v;
                assert(chosen[s.selected.len() + j] == v);
            }
        }
    }
}

/// The links of a layer once each of some nodes has the new node as a neighbor: a
/// list with room has it at its end, and one without is pruned.
proof fn links_added(
    g: Seq<NodeView>,
    dm: Seq<Seq<u32>>,
    level: int,
    max: nat,
    new_node: int,
    nodes: Seq<int>,
)
    requires
        level >= 0,
        nodes.no_duplicates(),
        forall|i: int| 0 <= i < nodes.len() ==> 0 <= #[trigger] nodes[i] < g.len(),
    ensures
        ({
            let h = linked_back_all(g, dm, level, max, new_node, nodes);
            &&& h.len() == g.len()
            &&& forall|i: int|
                0 <= i < g.len() ==> {
                    &&& (#[trigger] h[i]).layers.len() == g[i].layers.len()
                    &&& h[i].deleted == g[i].deleted
                    &&& forall|l: int|
                        0 <= l < g[i].layers.len() && l != level ==> #[trigger] h[i].layers[l]
                            == g[i].layers[l]
                    &&& level < g[i].layers.len() ==> h[i].layers[level] == (if !nodes.contains(i) {
                        g[i].layers[level]
                    } else if g[i].layers[level].len() < max {
                        g[i].layers[level].push(new_node)
                    } else {
                        pruned(dm, i, max, g[i].layers[level].push(new_node))
                    })
                }
        }),
    decreases nodes.len(),
{
    let h = linked_back_all(g, dm, level, max, new_node, nodes);
    if nodes.len() > 0 {
        let fewer = nodes.drop_last();
        let node = nodes.last();
        let last = nodes.len() - 1;
        assert forall|i: int| 0 <= i < fewer.len() implies 0 <= #[trigger] fewer[i] < g.len() by {
            assert(fewer[i] == nodes[i]);
        }
        links_added(g, dm, level, max, new_node, fewer);
        let mid = linked_back_all(g, dm, level, max, new_node, fewer);
        assert(0 <= nodes[last] < g.len());
        assert(!fewer.contains(node)) by {
            if fewer.contains(node) {
                let i = choose|i: int| 0 <= i < fewer.len() && fewer[i] == node;
                assert(nodes[i] == nodes[last]);
            }
        }
        assert(mid[node].layers.len() == g[node].layers.len());
        assert forall|i: int| 0 <= i < g.len() implies {
            &&& (#[trigger] h[i]).layers.len() == g[i].layers.len()
            &&& h[i].deleted == g[i].deleted
            &&& forall|l: int|
                0 <= l < g[i].layers.len() && l != level ==> #[trigger] h[i].layers[l]
                    == g[i].layers[l]
            &&& level < g[i].layers.len() ==> h[i].layers[level] == (if !nodes.contains(i) {
                g[i].layers[level]
            } else if g[i].layers[level].len() < max {
                g[i].layers[level].push(new_node)
            } else {
                pruned(dm, i, max, g[i].layers[level].push(new_node))
            })
        } by {
            assert(mid[i].layers.len() == g[i].layers.len());
            if i == node {
                assert(nodes[last] == i);
            } else {
                assert(h[i] == mid[i]);
                assert(nodes.contains(i) <==> fewer.contains(i)) by {
                    if nodes.contains(i) {
                        let j = choose|j: int| 0 <= j < nodes.len() && nodes[j] == i;
                        assert(fewer[j] == i);
                    }
                    if fewer.contains(i) {
                        let j = choose|j: int| 0 <= j < fewer.len() && fewer[j] == i;
                        assert(nodes[j] == i);
                    }
                }
            }
        }
    } else {
        assert forall|i: int| 0 <= i < g.len() implies !nodes.contains(i) by {}
    }
}

/// How a new node is linked into a layer. Its neighbors are older live nodes; each
/// of them that has room has the new node at the end of its list, each of the others
/// keeps as many as it may have of its neighbors and the new node, and the lists of
/// all other nodes are as they were.
pub open spec fn linked_in(
    g: Seq<NodeView>,
    h: Seq<NodeView>,
    level: int,
    max: nat,
    new_node: int,
) -> bool {
    let links = h[new_node].layers[level];
    &&& links.no_duplicates()
    &&& forall|i: int|
        0 <= i < links.len() ==> 0 <= #[trigger] links[i] < new_node && !g[links[i]].deleted
            && level < g[links[i]].layers.len()
    &&& forall|v: int|
        0 <= v < new_node && level < (#[trigger] g[v]).layers.len() ==> {
            &&& !links.contains(v) ==> h[v].layers[level] == g[v].layers[level]
            &&& links.contains(v) && g[v].layers[level].len() < max ==> h[v].layers[level]
                == g[v].layers[level].push(new_node)
            &&& links.contains(v) && g[v].layers[level].len() >= max ==> cut_down(
                g[v].layers[level],
                h[v].layers[level],
                max,
                new_node,
            )
        }
}

/// Whether a list keeps `max` of what another holds and of a new node, each once.
pub open spec fn cut_down(before: Seq<int>, after: Seq<int>, max: nat, new_node: int) -> bool {
    &&& after.len() == max
    &&& after.no_duplicates()
    &&& forall|i: int|
        0 <= i < after.len() ==> before.contains(#[trigger] after[i]) || after[i] == new_node
}

/// A list that is too long is cut down to as many nodes as it may hold.
proof fn pruned_is_cut_down(
    g: Seq<NodeView>,
    dm: Seq<Seq<u32>>,
    node: int,
    level: int,
    max: nat,
    new_node: int,
)
    requires
        graph_sound(g),
        g.len() <= usize::MAX,
        in_layer(g, node, level),
        0 <= new_node < g.len(),
        unlinked(g, level, new_node),
        g[node].layers[level].len() >= max,
    ensures
        cut_down(
            g[node].layers[level],
            pruned(dm, node, max, g[node].layers[level].push(new_node)),
            max,
            new_node,
        ),
{
    let before = g[node].layers[level];
    let list = before.push(new_node);
    assert(list_sound(g, node, level, before));
    assert(!before.contains(new_node));
    let cs = with_distances(dm[node], list);
    assert forall|i: int| 0 <= i < list.len() implies 0 <= #[trigger] list[i] < g.len() by {
        if i < before.len() {
            assert(in_layer(g, before[i], level));
        }
    }
    assert forall|i: int, j: int| 0 <= i < j < cs.len() implies (#[trigger] cs[i]).node_idx != (
    #[trigger] cs[j]).node_idx by {
        assert(0 <= list[i] < g.len() && 0 <= list[j] < g.len());
        if j < before.len() {
            assert(before[i] != before[j]);
        } else {
            assert(before[i] != new_node);
        }
    }
    ranked_keeps_nodes(cs);
    ranked_is_a_sort(cs);
    chosen_neighbors_fill_the_room(dm, max, ranked(cs));
    let after = pruned(dm, node, max, list);
    assert forall|i: int| 0 <= i < after.len() implies before.contains(#[trigger] after[i])
        || after[i] == new_node by {
        assert(lists_node(ranked(cs), after[i]));
        assert(lists_node(cs, after[i]));
        let j = choose|j: int| 0 <= j < cs.len() && (#[trigger] cs[j]).node_idx == after[i];
        assert(0 <= list[j] < g.len());
        assert(list[j] == after[i]);
        if j < before.len() {
            assert(before[j] == after[i]);
        }
    }
}

/// What linking a new node in one layer changes.
proof fn connected_links(
    g: Seq<NodeView>,
    dm: Seq<Seq<u32>>,
    ef: nat,
    level: int,
    max: nat,
    current: int,
)
    requires
        graph_sound(g),
        1 < g.len() < usize::MAX,
        dm[g.len() - 1].len() == g.len(),
        in_layer(g, g.len() - 1, level),
        in_layer(g, current, level),
        current != g.len() - 1,
        unlinked(g, level, g.len() - 1),
    ensures
        ({
            let new_node = g.len() - 1;
            let h = connected(g, dm, ef, level, max, new_node, current);
            let found = beam_search(g, dm[new_node], ef, level, current);
            &&& linked_in(g, h, level, max, new_node)
            &&& h.len() == g.len()
            &&& forall|i: int|
                0 <= i < g.len() ==> (#[trigger] h[i]).layers.len() == g[i].layers.len()
                    && h[i].deleted == g[i].deleted
            &&& forall|i: int, l: int|
                0 <= i < g.len() && 0 <= l < g[i].layers.len() && l != level
                    ==> #[trigger] h[i].layers[l] == g[i].layers[l]
            &&& forall|v: int| #[trigger]
                lists_node(found, v) && !g[v].deleted ==> h[new_node].layers[level].contains(v)
                    || h[new_node].layers[level].len() == max
        }),
{
    let new_node = g.len() - 1;
    let cs = layer_candidates(g, dm, ef, level, new_node, current);
    let found = beam_search(g, dm[new_node], ef, level, current);
    candidates_are_live(g, dm, ef, level, current);
    let chosen = select_neighbors(dm, max, cs);
    chosen_neighbors_fill_the_room(dm, max, cs);
    crate::index::structure::beam_search_stays_in_layer(g, dm[new_node], ef, level, current);
    assert forall|i: int| 0 <= i < chosen.len() implies 0 <= #[trigger] chosen[i] < new_node
        && !g[chosen[i]].deleted && level < g[chosen[i]].layers.len() by {
        assert(lists_node(cs, chosen[i]));
        let j = choose|j: int| 0 <= j < cs.len() && (#[trigger] cs[j]).node_idx == chosen[i];
        assert(cs[j].node_idx < new_node);
        assert(lists_node(found, chosen[i]));
        let p = choose|p: int| 0 <= p < found.len() && (#[trigger] found[p]).node_idx == chosen[i];
        assert(in_layer(g, found[p].node_idx as int, level));
    }
    let mid = with_neighbors(g, new_node, level, chosen);
    assert forall|i: int| 0 <= i < chosen.len() implies 0 <= #[trigger] chosen[i] < mid.len() by {
        assert(0 <= chosen[i] < new_node);
    }
    links_added(mid, dm, level, max, new_node, chosen);
    let h = connected(g, dm, ef, level, max, new_node, current);
    assert(h == linked_back_all(mid, dm, level, max, new_node, chosen));
    assert(!chosen.contains(new_node)) by {
        if chosen.contains(new_node) {
            let i = choose|i: int| 0 <= i < chosen.len() && chosen[i] == new_node;
            assert(chosen[i] < new_node);
        }
    }
    assert(h[new_node].layers.len() == mid[new_node].layers.len());
    assert(h[new_node].layers[level] == chosen);
    assert forall|v: int| 0 <= v < new_node && level < (#[trigger] g[v]).layers.len() implies {
        &&& !chosen.contains(v) ==> h[v].layers[level] == g[v].layers[level]
        &&& chosen.contains(v) && g[v].layers[level].len() < max ==> h[v].layers[level]
            == g[v].layers[level].push(new_node)
        &&& chosen.contains(v) && g[v].layers[level].len() >= max ==> cut_down(
            g[v].layers[level],
            h[v].layers[level],
            max,
            new_node,
        )
    } by {
        assert(mid[v] == g[v]);
        assert(h[v].layers.len() == mid[v].layers.len());
        if g[v].layers[level].len() >= max {
            pruned_is_cut_down(g, dm, v, level, max, new_node);
        }
    }
    assert forall|i: int| 0 <= i < g.len() implies (#[trigger] h[i]).layers.len()
        == g[i].layers.len() && h[i].deleted == g[i].deleted by {
        assert(h[i].layers.len() == mid[i].layers.len());
    }
    assert forall|i: int, l: int| 0 <= i < g.len() && 0 <= l < g[i].layers.len() && l
        != level implies #[trigger] h[i].layers[l] == g[i].layers[l] by {
        assert(h[i].layers.len() == mid[i].layers.len());
        assert(mid[i].layers[l] == g[i].layers[l]);
    }
    assert forall|v: int| #[trigger] lists_node(found, v) && !g[v].deleted implies chosen.contains(
        v,
    ) || chosen.len() == max by {
        assert(lists_node(cs, v));
        let j = choose|j: int| 0 <= j < cs.len() && (#[trigger] cs[j]).node_idx == v;
        assert(chosen.contains(cs[j].node_idx as int) || chosen.len() == max);
    }
}

/// Whether two graphs have the same links in the layers up to `high`, and the same
/// tombstones.
pub open spec fn same_below(g: Seq<NodeView>, h: Seq<NodeView>, high: int) -> bool {
    &&& g.len() == h.len()
    &&& forall|i: int|
        0 <= i < g.len() ==> (#[trigger] h[i]).layers.len() == g[i].layers.len() && h[i].deleted
            == g[i].deleted
    &&& forall|i: int, l: int|
        0 <= i < g.len() && 0 <= l < g[i].layers.len() && l <= high ==> #[trigger] h[i].layers[l]
            == g[i].layers[l]
}

/// What linking a new node in the layers from `high` down leaves above them.
proof fn upper_layers_stay(
    g: Seq<NodeView>,
    dm: Seq<Seq<u32>>,
    limits: Limits,
    high: int,
    current: int,
)
    requires
        graph_sound(g),
        1 < g.len() < usize::MAX,
        dm[g.len() - 1].len() == g.len(),
        high >= 0 ==> in_layer(g, g.len() - 1, high) && in_layer(g, current, high),
        current != g.len() - 1,
        forall|l: int| 0 <= l <= high ==> #[trigger] unlinked(g, l, g.len() - 1),
    ensures
        ({
            let h = connected_layers(g, dm, limits, high, g.len() - 1, current);
            &&& h.len() == g.len()
            &&& forall|i: int|
                0 <= i < g.len() ==> (#[trigger] h[i]).layers.len() == g[i].layers.len()
                    && h[i].deleted == g[i].deleted
            &&& forall|i: int, l: int|
                0 <= i < g.len() && 0 <= l < g[i].layers.len() && l > high
                    ==> #[trigger] h[i].layers[l] == g[i].layers[l]
        }),
    decreases high + 1,
{
    if high >= 0 {
        let new_node = g.len() - 1;
        let max = capacity(limits.m, limits.m_max0, high) as nat;
        let mid = connected(g, dm, limits.ef, high, max, new_node, current);
        let next = next_entry(g, dm, limits.ef, high, new_node, current);
        one_layer_down(g, dm, limits, high, current);
        upper_layers_stay(mid, dm, limits, high - 1, next);
        let h = connected_layers(g, dm, limits, high, new_node, current);
        assert forall|i: int, l: int| 0 <= i < g.len() && 0 <= l < g[i].layers.len() && l
            > high implies #[trigger] h[i].layers[l] == g[i].layers[l] by {
            assert(mid[i].layers.len() == g[i].layers.len());
            assert(mid[i].layers[l] == g[i].layers[l]);
        }
        assert forall|i: int| 0 <= i < g.len() implies (#[trigger] h[i]).layers.len()
            == g[i].layers.len() && h[i].deleted == g[i].deleted by {
            assert(mid[i].layers.len() == g[i].layers.len());
        }
    }
}

/// What holds again once a new node is linked in a layer, for the layer below.
proof fn one_layer_down(
    g: Seq<NodeView>,
    dm: Seq<Seq<u32>>,
    limits: Limits,
    high: int,
    current: int,
)
    requires
        graph_sound(g),
        1 < g.len() < usize::MAX,
        dm[g.len() - 1].len() == g.len(),
        high >= 0,
        in_layer(g, g.len() - 1, high),
        in_layer(g, current, high),
        current != g.len() - 1,
        forall|l: int| 0 <= l <= high ==> #[trigger] unlinked(g, l, g.len() - 1),
    ensures
        ({
            let new_node = g.len() - 1;
            let max = capacity(limits.m, limits.m_max0, high) as nat;
            let mid = connected(g, dm, limits.ef, high, max, new_node, current);
            let next = next_entry(g, dm, limits.ef, high, new_node, current);
            &&& graph_sound(mid)
            &&& mid.len() == g.len()
            &&& 0 <= next < new_node
            &&& in_layer(mid, next, high)
            &&& in_layer(mid, new_node, high)
            &&& same_below(g, mid, high - 1)
            &&& forall|l: int| 0 <= l <= high - 1 ==> #[trigger] unlinked(mid, l, new_node)
            &&& linked_in(g, mid, high, max, new_node)
            &&& forall|i: int, l: int|
                0 <= i < g.len() && 0 <= l < g[i].layers.len() && l != high
                    ==> #[trigger] mid[i].layers[l] == g[i].layers[l]
        }),
{
    let new_node = g.len() - 1;
    let max = capacity(limits.m, limits.m_max0, high) as nat;
    let mid = connected(g, dm, limits.ef, high, max, new_node, current);
    let next = next_entry(g, dm, limits.ef, high, new_node, current);
    assert(unlinked(g, high, new_node));
    connected_sound(g, dm, limits.ef, high, max, new_node, current);
    connected_links(g, dm, limits.ef, high, max, current);
    candidates_are_live(g, dm, limits.ef, high, current);
    let cs = layer_candidates(g, dm, limits.ef, high, new_node, current);
    if cs.len() > 0 {
        assert(cs[0].node_idx < new_node);
    }
    assert(mid[next].layers.len() == g[next].layers.len());
    assert(mid[new_node].layers.len() == g[new_node].layers.len());
    assert forall|l: int| 0 <= l <= high - 1 implies #[trigger] unlinked(mid, l, new_node) by {
        assert(unlinked(g, l, new_node));
    }
}

/// How a new node is linked, in every layer from `high` down.
proof fn linked_in_layers(
    g: Seq<NodeView>,
    dm: Seq<Seq<u32>>,
    limits: Limits,
    high: int,
    current: int,
)
    requires
        graph_sound(g),
        1 < g.len() < usize::MAX,
        dm[g.len() - 1].len() == g.len(),
        high >= 0 ==> in_layer(g, g.len() - 1, high) && in_layer(g, current, high),
        current != g.len() - 1,
        forall|l: int| 0 <= l <= high ==> #[trigger] unlinked(g, l, g.len() - 1),
    ensures
        ({
            let new_node = g.len() - 1;
            let h = connected_layers(g, dm, limits, high, new_node, current);
            forall|l: int|
                0 <= l <= high ==> #[trigger] linked_in(
                    g,
                    h,
                    l,
                    capacity(limits.m, limits.m_max0, l) as nat,
                    new_node,
                )
        }),
    decreases high + 1,
{
    if high >= 0 {
        let new_node = g.len() - 1;
        let max = capacity(limits.m, limits.m_max0, high) as nat;
        let mid = connected(g, dm, limits.ef, high, max, new_node, current);
        let next = next_entry(g, dm, limits.ef, high, new_node, current);
        let h = connected_layers(g, dm, limits, high, new_node, current);
        one_layer_down(g, dm, limits, high, current);
        linked_in_layers(mid, dm, limits, high - 1, next);
        upper_layers_stay(mid, dm, limits, high - 1, next);
        assert forall|l: int| 0 <= l <= high implies #[trigger] linked_in(
            g,
            h,
            l,
            capacity(limits.m, limits.m_max0, l) as nat,
            new_node,
        ) by {
            if l == high {
                linked_in_alike(g, g, mid, h, l, max, new_node);
            } else {
                let cap = capacity(limits.m, limits.m_max0, l) as nat;
                assert(linked_in(mid, h, l, cap, new_node));
                linked_in_alike(mid, g, h, h, l, cap, new_node);
            }
        }
    }
}

/// Being linked into a layer depends on the lists of that layer alone.
proof fn linked_in_alike(
    a: Seq<NodeView>,
    g: Seq<NodeView>,
    b: Seq<NodeView>,
    h: Seq<NodeView>,
    level: int,
    max: nat,
    new_node: int,
)
    requires
        linked_in(a, b, level, max, new_node),
        a.len() == g.len(),
        b.len() == h.len(),
        a.len() == b.len(),
        0 <= new_node < a.len(),
        0 <= level < b[new_node].layers.len(),
        forall|i: int|
            0 <= i < a.len() ==> (#[trigger] a[i]).layers.len() == g[i].layers.len() && a[i].deleted
                == g[i].deleted,
        forall|i: int|
            0 <= i < b.len() ==> (#[trigger] b[i]).layers.len() == h[i].layers.len()
                && b[i].layers.len() == a[i].layers.len(),
        forall|i: int|
            0 <= i < a.len() && level < (#[trigger] a[i]).layers.len() ==> a[i].layers[level]
                == g[i].layers[level],
        forall|i: int|
            0 <= i < b.len() && level < (#[trigger] b[i]).layers.len() ==> b[i].layers[level]
                == h[i].layers[level],
    ensures
        linked_in(g, h, level, max, new_node),
{
    let links = b[new_node].layers[level];
    assert(h[new_node].layers[level] == links);
    assert forall|i: int| 0 <= i < links.len() implies 0 <= #[trigger] links[i] < new_node
        && !g[links[i]].deleted && level < g[links[i]].layers.len() by {
        assert(a[links[i]].layers.len() == g[links[i]].layers.len());
    }
    assert forall|v: int| 0 <= v < new_node && level < (#[trigger] g[v]).layers.len() implies {
        &&& !links.contains(v) ==> h[v].layers[level] == g[v].layers[level]
        &&& links.contains(v) && g[v].layers[level].len() < max ==> h[v].layers[level]
            == g[v].layers[level].push(new_node)
        &&& links.contains(v) && g[v].layers[level].len() >= max ==> cut_down(
            g[v].layers[level],
            h[v].layers[level],
            max,
            new_node,
        )
    } by {
        assert(a[v].layers.len() == g[v].layers.len());
        assert(b[v].layers.len() == h[v].layers.len());
    }
}

/// A new node has a neighbor in every layer from `high` down, where no node is
/// deleted and lists have room for one.
proof fn some_link_in_layers(
    g: Seq<NodeView>,
    dm: Seq<Seq<u32>>,
    limits: Limits,
    high: int,
    current: int,
)
    requires
        graph_sound(g),
        1 < g.len() < usize::MAX,
        dm[g.len() - 1].len() == g.len(),
        high >= 0 ==> in_layer(g, g.len() - 1, high) && in_layer(g, current, high),
        current != g.len() - 1,
        forall|l: int| 0 <= l <= high ==> #[trigger] unlinked(g, l, g.len() - 1),
        forall|i: int| 0 <= i < g.len() ==> !(#[trigger] g[i]).deleted,
        limits.m >= 1,
        limits.m_max0 >= 1,
    ensures
        ({
            let h = connected_layers(g, dm, limits, high, g.len() - 1, current);
            forall|l: int| 0 <= l <= high ==> (#[trigger] h[g.len() - 1].layers[l]).len() >= 1
        }),
    decreases high + 1,
{
    if high >= 0 {
        let new_node = g.len() - 1;
        let max = capacity(limits.m, limits.m_max0, high) as nat;
        let mid = connected(g, dm, limits.ef, high, max, new_node, current);
        let next = next_entry(g, dm, limits.ef, high, new_node, current);
        let h = connected_layers(g, dm, limits, high, new_node, current);
        one_layer_down(g, dm, limits, high, current);
        assert forall|i: int| 0 <= i < mid.len() implies !(#[trigger] mid[i]).deleted by {
            assert(mid[i].deleted == g[i].deleted);
        }
        some_link_in_layers(mid, dm, limits, high - 1, next);
        upper_layers_stay(mid, dm, limits, high - 1, next);
        assert(unlinked(g, high, new_node));
        connected_links(g, dm, limits.ef, high, max, current);
        candidates_are_live(g, dm, limits.ef, high, current);
        let found = beam_search(g, dm[new_node], limits.ef, high, current);
        sound_links_in_range(g);
        beam_search_is_locally_optimal(g, dm[new_node], limits.ef, high, current);
        let v = found[0].node_idx as int;
        assert(lists_node(found, v));
        assert(found[0].node_idx < new_node);
        assert(!g[v].deleted);
        assert(mid[new_node].layers[high].len() >= 1);
        assert(mid[new_node].layers.len() == g[new_node].layers.len());
        assert forall|l: int| 0 <= l <= high implies (#[trigger] h[new_node].layers[l]).len()
            >= 1 by {
            if l == high {
                assert(h[new_node].layers[l] == mid[new_node].layers[l]);
            }
        }
    }
}

/// Whether a path of the lowest layer leads from one node to another.
pub open spec fn leads_to(g: Seq<NodeView>, from: int, to: int) -> bool {
    exists|path: Seq<int>| #[trigger] is_path(g, 0, path) && path[0] == from && path.last() == to
}

/// A new node has every live node as a neighbor in the lowest layer that paths lead
/// to from all older nodes, or has no room left, where the beam of the search can
/// hold all nodes.
proof fn reached_nodes_are_linked(
    g: Seq<NodeView>,
    dm: Seq<Seq<u32>>,
    limits: Limits,
    high: int,
    current: int,
    v: int,
)
    requires
        graph_sound(g),
        1 < g.len() < usize::MAX,
        dm[g.len() - 1].len() == g.len(),
        high >= 0,
        in_layer(g, g.len() - 1, high),
        in_layer(g, current, high),
        current != g.len() - 1,
        forall|l: int| 0 <= l <= high ==> #[trigger] unlinked(g, l, g.len() - 1),
        g.len() - 1 <= limits.ef,
        0 <= limits.m_max0,
        0 <= v < g.len() - 1,
        !g[v].deleted,
        forall|s: int| 0 <= s < g.len() - 1 ==> #[trigger] leads_to(g, s, v),
    ensures
        ({
            let h = connected_layers(g, dm, limits, high, g.len() - 1, current);
            let links = h[g.len() - 1].layers[0];
            links.contains(v) || links.len() == limits.m_max0
        }),
    decreases high,
{
    let new_node = g.len() - 1;
    let max = capacity(limits.m, limits.m_max0, high) as nat;
    let mid = connected(g, dm, limits.ef, high, max, new_node, current);
    let next = next_entry(g, dm, limits.ef, high, new_node, current);
    one_layer_down(g, dm, limits, high, current);
    if high > 0 {
        assert(mid[v].deleted == g[v].deleted);
        assert forall|s: int| 0 <= s < g.len() - 1 implies #[trigger] leads_to(mid, s, v) by {
            assert(leads_to(g, s, v));
            let path = choose|path: Seq<int>| #[trigger]
                is_path(g, 0, path) && path[0] == s && path.last() == v;
            assert forall|i: int| 0 <= i < path.len() implies 0 <= #[trigger] path[i] < g.len() by {
                path_in_range(g, path, i);
            }
            path_stays(g, mid, path);
        }
        reached_nodes_are_linked(mid, dm, limits, high - 1, next, v);
    } else {
        assert(unlinked(g, 0, new_node));
        connected_links(g, dm, limits.ef, 0, max, current);
        candidates_are_live(g, dm, limits.ef, 0, current);
        let found = beam_search(g, dm[new_node], limits.ef, 0, current);
        sound_links_in_range(g);
        if found.len() < limits.ef {
            assert(leads_to(g, current, v));
            let path = choose|path: Seq<int>| #[trigger]
                is_path(g, 0, path) && path[0] == current && path.last() == v;
            short_beam_search_is_complete(g, dm[new_node], limits.ef, 0, current, path);
        } else {
            full_list_has_all(found, new_node as nat);
        }
        assert(lists_node(found, v));
        assert(connected_layers(mid, dm, limits, -1, new_node, next) == mid);
    }
}

/// A path of the lowest layer is one in any graph with the same links there.
proof fn path_stays(g: Seq<NodeView>, h: Seq<NodeView>, path: Seq<int>)
    requires
        is_path(g, 0, path),
        sound_path(g, path),
        g.len() == h.len(),
        forall|i: int|
            0 <= i < g.len() ==> (#[trigger] h[i]).layers.len() == g[i].layers.len(),
        forall|i: int, l: int|
            0 <= i < g.len() && 0 <= l < g[i].layers.len() && l <= 0 ==> #[trigger] h[i].layers[l]
                == g[i].layers[l],
    ensures
        is_path(h, 0, path),
{
    assert forall|i: int| 0 < i < path.len() implies links_of(h, path[i - 1], 0).contains(
        #[trigger] path[i],
    ) by {
        let p = path[i - 1];
        assert(0 <= p < g.len());
        assert(links_of(g, p, 0).contains(path[i]));
        assert(h[p].layers.len() == g[p].layers.len());
        if g[p].layers.len() > 0 {
            assert(h[p].layers[0] == g[p].layers[0]);
        }
    }
}

/// Whether a sequence of nodes stays within a graph.
pub open spec fn sound_path(g: Seq<NodeView>, path: Seq<int>) -> bool {
    forall|i: int| 0 <= i < path.len() ==> 0 <= #[trigger] path[i] < g.len()
}

/// A path stays within a sound graph.
proof fn path_in_range(g: Seq<NodeView>, path: Seq<int>, i: int)
    requires
        graph_sound(g),
        is_path(g, 0, path),
        0 <= i < path.len(),
    ensures
        0 <= path[i] < g.len(),
    decreases i,
{
    if i > 0 {
        path_in_range(g, path, i - 1);
        sound_links_in_range(g);
        links_of_range(g, path[i - 1], 0);
        let list = links_of(g, path[i - 1], 0);
        assert(list.contains(path[i]));
        let j = choose|j: int| 0 <= j < list.len() && list[j] == path[i];
        assert(0 <= list[j] < g.len());
    }
}

/// The graph with a new node, before it is linked, and where its search begins.
proof fn before_linking(t: Topology, dm: Seq<Seq<u32>>, slot: int, id: u64, level: nat)
    requires
        topology_sound(t),
        t.g.len() + 1 < usize::MAX,
        t.g.len() >= 1,
        dm[t.g.len() as int].len() == t.g.len() + 1,
    ensures
        ({
            let g = t.g.push(fresh_node(slot, id, level));
            let n = t.g.len() as int;
            let high = smaller(level as int, t.max_level);
            let current = descend_layers(
                g,
                dm[n],
                false,
                t.max_level,
                level as int + 1,
                t.entry->0,
            );
            &&& graph_sound(g)
            &&& high >= 0
            &&& in_layer(g, n, high)
            &&& in_layer(g, current, high)
            &&& current != n
            &&& forall|l: int| #[trigger] unlinked(g, l, n)
        }),
{
    let g = t.g.push(fresh_node(slot, id, level));
    let n = t.g.len() as int;
    let entry = t.entry->0;
    fresh_node_sound(t.g, slot, id, level);
    assert(g[entry] == t.g[entry]);
    descent_stays_in_layers(g, dm[n], false, t.max_level, level as int + 1, entry);
    sound_links_in_range(g);
    descent_avoids(g, dm[n], t.max_level, level as int + 1, entry, n);
}

/// How a new vector is linked into an index, in which vectors may be deleted: in
/// each layer that it shares with the graph its neighbors are older live nodes of
/// that layer, each of them that has room has it at the end of its list, and no
/// other list changes. Where no node is deleted it has a neighbor in each of those
/// layers. In the lowest layer it has, where the beam of the search can hold all
/// nodes, every live node that paths lead to as a neighbor, or as many as it may
/// have: so it has one at least where there is such a node.
pub proof fn new_vector_is_linked_in<K: Fn(&[u32], &[u32]) -> u32>(
    kernel: K,
    limits: Limits,
    t: Topology,
    vectors: Seq<Seq<u32>>,
    id: u64,
    level: nat,
)
    requires
        topology_sound(t),
        1 <= t.g.len() < usize::MAX - 1,
        limits.m >= 1,
        limits.m_max0 >= 1,
    ensures
        ({
            let n = t.g.len() as int;
            let g = t.g.push(fresh_node(n, id, level));
            let after = grown(kernel, limits, t, vectors, n, id, level).g;
            &&& after.len() == n + 1
            &&& after[n].slot == n && after[n].id == id && !after[n].deleted
            &&& after[n].layers.len() == level + 1
            &&& forall|l: int|
                0 <= l <= smaller(level as int, t.max_level) ==> #[trigger] linked_in(
                    g,
                    after,
                    l,
                    capacity(limits.m, limits.m_max0, l) as nat,
                    n,
                )
            &&& (forall|i: int| 0 <= i < n ==> !(#[trigger] t.g[i]).deleted) ==> forall|l: int|
                0 <= l <= smaller(level as int, t.max_level) ==> (
                #[trigger] after[n].layers[l]).len() >= 1
            &&& n <= limits.ef ==> forall|v: int|
                0 <= v < n && !(#[trigger] t.g[v]).deleted && (forall|s: int|
                    0 <= s < n ==> #[trigger] leads_to(t.g, s, v)) ==> after[n].layers[0].len() >= 1
                    && (after[n].layers[0].contains(v) || after[n].layers[0].len()
                    == limits.m_max0)
        }),
{
    let n = t.g.len() as int;
    let g = t.g.push(fresh_node(n, id, level));
    let dm = matrix(kernel, g, vectors);
    let after = grown(kernel, limits, t, vectors, n, id, level);
    let high = smaller(level as int, t.max_level);
    let current = descend_layers(g, dm[n], false, t.max_level, level as int + 1, t.entry->0);
    before_linking(t, dm, n, id, level);
    insertion_keeps_graph_sound(t, dm, limits, n, id, level);
    assert(g[n].slot == after.g[n].slot);
    assert forall|l: int| 0 <= l <= high implies #[trigger] unlinked(g, l, n) by {}
    assert(after.g == connected_layers(g, dm, limits, high, n, current));
    linked_in_layers(g, dm, limits, high, current);
    if forall|i: int| 0 <= i < n ==> !(#[trigger] t.g[i]).deleted {
        assert forall|i: int| 0 <= i < g.len() implies !(#[trigger] g[i]).deleted by {
            if i < n {
                assert(g[i] == t.g[i]);
            }
        }
        some_link_in_layers(g, dm, limits, high, current);
    }
    if n <= limits.ef {
        assert forall|v: int|
            0 <= v < n && !(#[trigger] t.g[v]).deleted && (forall|s: int|
                0 <= s < n ==> #[trigger] leads_to(t.g, s, v)) implies after.g[n].layers[0].len()
            >= 1 && (after.g[n].layers[0].contains(v) || after.g[n].layers[0].len()
            == limits.m_max0) by {
            assert(g[v] == t.g[v]);
            assert forall|s: int| 0 <= s < g.len() - 1 implies #[trigger] leads_to(g, s, v) by {
                assert(leads_to(t.g, s, v));
                let path = choose|path: Seq<int>| #[trigger]
                    is_path(t.g, 0, path) && path[0] == s && path.last() == v;
                assert(is_path(g, 0, path)) by {
                    assert forall|i: int|
                        0 < i < path.len() implies links_of(g, path[i - 1], 0).contains(
                        #[trigger] path[i],
                    ) by {
                        path_in_range(t.g, path, i - 1);
                        assert(g[path[i - 1]] == t.g[path[i - 1]]);
                        assert(links_of(t.g, path[i - 1], 0).contains(path[i]));
                    }
                }
            }
            reached_nodes_are_linked(g, dm, limits, high, current, v);
            let links = after.g[n].layers[0];
            if links.contains(v) {
                let i = choose|i: int| 0 <= i < links.len() && links[i] == v;
                assert(links.len() >= 1);
            }
        }
    }
}

/// In a graph that hangs together a path leads from every node to every other.
proof fn path_down(g: Seq<NodeView>, n: int, node: int)
    requires
        woven(g, n),
        n <= g.len(),
        0 <= node < n,
        forall|i: int| 0 <= i < g.len() ==> (#[trigger] g[i]).layers.len() >= 1,
    ensures
        leads_to(g, node, 0),
    decreases node,
{
    if node == 0 {
        let path = seq![0int];
        assert(is_path(g, 0, path));
        assert(path[0] == 0 && path.last() == 0);
    } else {
        assert(has_older(g, node));
        let j = choose|j: int| 0 <= j < node && #[trigger] base_links(g, node).contains(j);
        path_down(g, n, j);
        let rest = choose|path: Seq<int>| #[trigger]
            is_path(g, 0, path) && path[0] == j && path.last() == 0;
        let path = seq![node] + rest;
        assert(g[node].layers.len() >= 1);
        assert forall|i: int| 0 < i < path.len() implies links_of(g, path[i - 1], 0).contains(
            #[trigger] path[i],
        ) by {
            if i == 1 {
                assert(path[i] == rest[0]);
            } else {
                assert(path[i] == rest[i - 1] && path[i - 1] == rest[i - 2]);
                assert(links_of(g, rest[i - 2], 0).contains(rest[i - 1]));
            }
        }
        assert(is_path(g, 0, path));
        assert(path[0] == node && path.last() == rest.last());
    }
}

proof fn path_up(g: Seq<NodeView>, n: int, from: int, node: int)
    requires
        woven(g, n),
        n <= g.len(),
        0 <= node < n,
        leads_to(g, from, 0),
        forall|i: int| 0 <= i < g.len() ==> (#[trigger] g[i]).layers.len() >= 1,
    ensures
        leads_to(g, from, node),
    decreases node,
{
    if node > 0 {
        assert(has_older(g, node));
        let j = choose|j: int| 0 <= j < node && #[trigger] base_links(g, node).contains(j);
        path_up(g, n, from, j);
        assert(base_links(g, j).contains(node));
        let rest = choose|path: Seq<int>| #[trigger]
            is_path(g, 0, path) && path[0] == from && path.last() == j;
        let path = rest.push(node);
        assert(g[j].layers.len() >= 1);
        assert forall|i: int| 0 < i < path.len() implies links_of(g, path[i - 1], 0).contains(
            #[trigger] path[i],
        ) by {
            if i == rest.len() {
                assert(path[i - 1] == rest.last());
            } else {
                assert(path[i] == rest[i] && path[i - 1] == rest[i - 1]);
                assert(links_of(g, rest[i - 1], 0).contains(rest[i]));
            }
        }
        assert(is_path(g, 0, path));
        assert(path[0] == from && path.last() == node);
    }
}

/// A list of `n` different nodes out of `n` holds each of them.
proof fn full_links_hold_all(links: Seq<int>, n: int)
    requires
        0 <= n,
        links.no_duplicates(),
        links.len() >= n,
        forall|i: int| 0 <= i < links.len() ==> 0 <= #[trigger] links[i] < n,
    ensures
        forall|v: int| 0 <= v < n ==> #[trigger] links.contains(v),
{
    let nodes = links.to_set();
    let all = vstd::set_lib::set_int_range(0, n);
    vstd::set_lib::lemma_int_range(0, n);
    links.unique_seq_to_set();
    vstd::seq_lib::seq_to_set_is_finite(links);
    assert(nodes.subset_of(all)) by {
        assert forall|v: int| nodes.contains(v) implies all.contains(v) by {
            let i = choose|i: int| 0 <= i < links.len() && links[i] == v;
            assert(0 <= links[i] < n);
        }
    }
    vstd::set_lib::lemma_len_subset(nodes, all);
    vstd::set_lib::lemma_subset_equality(nodes, all);
    assert forall|v: int| 0 <= v < n implies #[trigger] links.contains(v) by {
        assert(all.contains(v));
        assert(nodes.contains(v));
    }
}

/// A new vector is linked, both ways, to every live vector and to no other, where
/// the lowest layer hangs together and has room for every link, and the beam of the
/// search can hold all vectors; whatever vectors are deleted. The lowest layer then
/// hangs together with the new vector, as long as some vector is live.
pub proof fn new_vector_is_linked_to_all_live<K: Fn(&[u32], &[u32]) -> u32>(
    kernel: K,
    limits: Limits,
    t: Topology,
    vectors: Seq<Seq<u32>>,
    id: u64,
    level: nat,
)
    requires
        topology_sound(t),
        1 <= t.g.len() < usize::MAX - 1,
        limits.m >= 1,
        t.g.len() <= limits.m_max0,
        t.g.len() <= limits.ef,
        woven(t.g, t.g.len() as int),
        forall|i: int| 0 <= i < t.g.len() ==> (#[trigger] t.g[i]).layers.len() >= 1,
    ensures
        ({
            let n = t.g.len() as int;
            let after = grown(kernel, limits, t, vectors, n, id, level).g;
            &&& after.len() == n + 1
            &&& forall|v: int|
                0 <= v < n ==> (base_links(after, n).contains(v) <==> !(#[trigger] t.g[v]).deleted)
            &&& forall|v: int|
                0 <= v < n ==> base_links(after, v) == (if (#[trigger] t.g[v]).deleted {
                    base_links(t.g, v)
                } else {
                    base_links(t.g, v).push(n)
                })
            &&& has_live(t.g) ==> woven(after, n + 1)
        }),
{
    let n = t.g.len() as int;
    let g = t.g.push(fresh_node(n, id, level));
    let dm = matrix(kernel, g, vectors);
    let after = grown(kernel, limits, t, vectors, n, id, level).g;
    new_vector_is_linked_in(kernel, limits, t, vectors, id, level);
    before_linking(t, dm, n, id, level);
    let links = base_links(after, n);
    assert(smaller(level as int, t.max_level) >= 0);
    assert(linked_in(g, after, 0, capacity(limits.m, limits.m_max0, 0) as nat, n));
    assert forall|v: int| 0 <= v < n implies (links.contains(v) <==> !(
    #[trigger] t.g[v]).deleted) by {
        assert(g[v] == t.g[v]);
        if links.contains(v) {
            let i = choose|i: int| 0 <= i < links.len() && links[i] == v;
            assert(!g[links[i]].deleted);
        }
        if !t.g[v].deleted {
            assert forall|s: int| 0 <= s < n implies #[trigger] leads_to(t.g, s, v) by {
                path_down(t.g, n, s);
                path_up(t.g, n, s, v);
            }
            if !links.contains(v) {
                full_links_hold_all(links, n);
            }
        }
    }
    assert(unlinked(g, 0, n));
    assert forall|v: int| 0 <= v < n implies base_links(after, v) == (if (
    #[trigger] t.g[v]).deleted {
        base_links(t.g, v)
    } else {
        base_links(t.g, v).push(n)
    }) by {
        assert(g[v] == t.g[v]);
        list_is_short(g, v);
        assert(links.contains(v) <==> !t.g[v].deleted);
        assert(0 < g[v].layers.len());
    }
    if has_live(t.g) {
        assert(symmetric(g)) by {
            assert forall|a: int, b: int|
                0 <= a < g.len() && 0 <= b < g.len() && #[trigger] base_links(g, a).contains(
                    b,
                ) implies base_links(g, b).contains(a) by {
                if a < n {
                    assert(g[a] == t.g[a]);
                    assert(!g[a].layers[0].contains(n));
                    assert(g[b] == t.g[b]);
                    assert(base_links(t.g, a).contains(b));
                } else {
                    assert(base_links(g, a) =~= Seq::<int>::empty());
                }
            }
        }
        assert forall|i: int| 0 <= i < g.len() implies (#[trigger] g[i]).layers.len() >= 1 by {
            if i < n {
                assert(g[i] == t.g[i]);
            }
        }
        assert forall|i: int| 0 <= i < n implies base_links(after, i) == (if links.contains(i) {
            #[trigger] base_links(g, i).push(n)
        } else {
            base_links(g, i)
        }) by {
            assert(g[i] == t.g[i]);
            assert(links.contains(i) <==> !t.g[i].deleted);
        }
        assert forall|a: int, b: int|
            0 <= a < after.len() && 0 <= b < after.len() && #[trigger] base_links(
                after,
                a,
            ).contains(b) implies base_links(after, b).contains(a) by {
            woven_pair(g, after, links, n, a, b);
        }
        assert forall|i: int| 0 < i < n + 1 implies #[trigger] has_older(after, i) by {
            if i == n {
                let v = choose|v: int| 0 <= v < t.g.len() && !(#[trigger] t.g[v]).deleted;
                assert(base_links(after, n).contains(v));
            } else {
                assert(has_older(t.g, i));
                let j = choose|j: int| 0 <= j < i && #[trigger] base_links(t.g, i).contains(j);
                let p = choose|p: int|
                    0 <= p < base_links(t.g, i).len() && base_links(t.g, i)[p] == j;
                assert(base_links(t.g, i).push(n)[p] == j);
                assert(t.g[i].deleted || !t.g[i].deleted);
                assert(base_links(after, i)[p] == j);
                assert(base_links(after, i).contains(j));
            }
        }
    }
}

/// Whether, of the neighbors of a new node in a layer, one is as close as any other
/// and as any live neighbor of its own.
pub open spec fn linked_to_a_minimum(
    g: Seq<NodeView>,
    links: Seq<int>,
    ds: Seq<u32>,
    level: int,
) -> bool {
    exists|c: int| #[trigger]
        links.contains(c) && (forall|i: int|
            0 <= i < links.len() ==> !less32(ds[#[trigger] links[i]], ds[c])) && (forall|i: int|
            0 <= i < links_of(g, c, level).len() && !g[#[trigger] links_of(g, c, level)[i]].deleted
                ==> !less32(ds[links_of(g, c, level)[i]], ds[c]))
}

/// What is left of candidates in order is in order.
proof fn live_ranked(g: Seq<NodeView>, new_node: int, found: Seq<Candidate>)
    requires
        is_ranked(found),
    ensures
        is_ranked(live_candidates(g, new_node, found)),
        live_candidates(g, new_node, found).len() > 0 ==> found.len() > 0 && live_candidates(
            g,
            new_node,
            found,
        ).last().rank() <= found.last().rank(),
    decreases found.len(),
{
    if found.len() > 0 {
        let fewer = found.drop_last();
        let last = found.len() - 1;
        assert forall|i: int, j: int| 0 <= i < j < fewer.len() implies (#[trigger] fewer[i]).rank()
            <= (#[trigger] fewer[j]).rank() by {
            assert(found[i].rank() <= found[j].rank());
        }
        live_ranked(g, new_node, fewer);
        let before = live_candidates(g, new_node, fewer);
        let live = live_candidates(g, new_node, found);
        if fewer.len() > 0 {
            assert(found[last - 1].rank() <= found[last].rank());
        }
        assert forall|i: int, j: int| 0 <= i < j < live.len() implies (#[trigger] live[i]).rank() <= (
        #[trigger] live[j]).rank() by {
            if j < before.len() {
                assert(before[i].rank() <= before[j].rank());
            } else {
                assert(live[i] == before[i]);
                if i < before.len() - 1 {
                    assert(before[i].rank() <= before[before.len() - 1].rank());
                }
            }
        }
    }
}

/// The neighbors of a new node in one layer hold a minimum, if there are any.
proof fn layer_links_hold_a_minimum(
    g: Seq<NodeView>,
    dm: Seq<Seq<u32>>,
    ef: nat,
    level: int,
    max: nat,
    current: int,
)
    requires
        graph_sound(g),
        1 < g.len() < usize::MAX,
        dm[g.len() - 1].len() == g.len(),
        all_numbers(dm[g.len() - 1]),
        in_layer(g, g.len() - 1, level),
        in_layer(g, current, level),
        current != g.len() - 1,
        unlinked(g, level, g.len() - 1),
        max >= 1,
    ensures
        ({
            let h = connected(g, dm, ef, level, max, g.len() - 1, current);
            let links = h[g.len() - 1].layers[level];
            links.len() > 0 ==> linked_to_a_minimum(g, links, dm[g.len() - 1], level)
        }),
{
    let new_node = g.len() - 1;
    let ds = dm[new_node];
    let cs = layer_candidates(g, dm, ef, level, new_node, current);
    let found = beam_search(g, ds, ef, level, current);
    candidates_are_live(g, dm, ef, level, current);
    sound_links_in_range(g);
    beam_search_is_locally_optimal(g, ds, ef, level, current);
    live_ranked(g, new_node, found);
    chosen_neighbors_fill_the_room(dm, max, cs);
    let chosen = select_neighbors(dm, max, cs);
    connected_links(g, dm, ef, level, max, current);
    let h = connected(g, dm, ef, level, max, new_node, current);
    new_links_are_chosen(g, dm, ef, level, max, current);
    if chosen.len() > 0 {
        let c = cs[0].node_idx as int;
        assert(chosen.contains(c));
        assert forall|v: int| #[trigger] lists_node(cs, v) implies !less32(ds[v], ds[c]) by {
            let i = choose|i: int| 0 <= i < cs.len() && (#[trigger] cs[i]).node_idx == v;
            if i > 0 {
                assert(cs[0].rank() <= cs[i].rank());
            }
            live_distance(g, ds, found, new_node, 0);
            live_distance(g, ds, found, new_node, i);
        }
        assert forall|i: int| 0 <= i < chosen.len() implies !less32(
            ds[#[trigger] chosen[i]],
            ds[c],
        ) by {
            assert(lists_node(cs, chosen[i]));
        }
        let list = links_of(g, c, level);
        assert forall|i: int| 0 <= i < list.len() && !g[#[trigger] list[i]].deleted implies !less32(
            ds[list[i]],
            ds[c],
        ) by {
            assert(lists_node(cs, c));
            let p = choose|p: int| 0 <= p < found.len() && (#[trigger] found[p]).node_idx == c;
            let x = links_of(g, found[p].node_idx as int, level)[i];
            assert(x == list[i]);
            if lists_node(found, x) {
                assert(lists_node(cs, x));
            } else {
                let last = found.len() - 1;
                assert(found[last].distance == ds[found[last].node_idx as int]);
                assert(found[p].distance == ds[c]);
                if p < last {
                    assert(found[p].rank() <= found[last].rank());
                }
            }
        }
        assert(linked_to_a_minimum(g, chosen, ds, level));
    }
}

proof fn live_distance(
    g: Seq<NodeView>,
    ds: Seq<u32>,
    found: Seq<Candidate>,
    new_node: int,
    i: int,
)
    requires
        holds_nodes(found, ds),
        0 <= i < live_candidates(g, new_node, found).len(),
    ensures
        live_candidates(g, new_node, found)[i].distance == ds[live_candidates(
            g,
            new_node,
            found,
        )[i].node_idx as int],
    decreases found.len(),
{
    if found.len() > 0 {
        let fewer = found.drop_last();
        let last = found.len() - 1;
        assert(found[last].node_idx < ds.len() && found[last].distance
            == ds[found[last].node_idx as int]);
        if i < live_candidates(g, new_node, fewer).len() {
            assert forall|j: int| 0 <= j < fewer.len() implies (#[trigger] fewer[j]).node_idx
                < ds.len() && fewer[j].distance == ds[fewer[j].node_idx as int] by {
                assert(fewer[j] == found[j]);
            }
            live_distance(g, ds, fewer, new_node, i);
        }
    }
}

/// The neighbors of a new node in a layer are those that were chosen.
proof fn new_links_are_chosen(
    g: Seq<NodeView>,
    dm: Seq<Seq<u32>>,
    ef: nat,
    level: int,
    max: nat,
    current: int,
)
    requires
        graph_sound(g),
        1 < g.len() < usize::MAX,
        dm[g.len() - 1].len() == g.len(),
        in_layer(g, g.len() - 1, level),
        in_layer(g, current, level),
        current != g.len() - 1,
        unlinked(g, level, g.len() - 1),
    ensures
        connected(g, dm, ef, level, max, g.len() - 1, current)[g.len() - 1].layers[level]
            == select_neighbors(
            dm,
            max,
            layer_candidates(g, dm, ef, level, g.len() - 1, current),
        ),
{
    let new_node = g.len() - 1;
    let cs = layer_candidates(g, dm, ef, level, new_node, current);
    candidates_are_live(g, dm, ef, level, current);
    let chosen = select_neighbors(dm, max, cs);
    chosen_neighbors_fill_the_room(dm, max, cs);
    let mid = with_neighbors(g, new_node, level, chosen);
    assert forall|i: int| 0 <= i < chosen.len() implies 0 <= #[trigger] chosen[i] < new_node by {
        assert(lists_node(cs, chosen[i]));
        let j = choose|j: int| 0 <= j < cs.len() && (#[trigger] cs[j]).node_idx == chosen[i];
        assert(cs[j].node_idx < new_node);
    }
    assert forall|i: int| 0 <= i < chosen.len() implies 0 <= #[trigger] chosen[i] < mid.len() by {
        assert(0 <= chosen[i] < new_node);
    }
    links_added(mid, dm, level, max, new_node, chosen);
    assert(!chosen.contains(new_node)) by {
        if chosen.contains(new_node) {
            let i = choose|i: int| 0 <= i < chosen.len() && chosen[i] == new_node;
            assert(chosen[i] < new_node);
        }
    }
    let h = connected(g, dm, ef, level, max, new_node, current);
    assert(h[new_node].layers.len() == mid[new_node].layers.len());
}

proof fn minimum_in_layers(
    g: Seq<NodeView>,
    dm: Seq<Seq<u32>>,
    limits: Limits,
    high: int,
    current: int,
)
    requires
        graph_sound(g),
        1 < g.len() < usize::MAX,
        dm[g.len() - 1].len() == g.len(),
        all_numbers(dm[g.len() - 1]),
        high >= 0 ==> in_layer(g, g.len() - 1, high) && in_layer(g, current, high),
        current != g.len() - 1,
        forall|l: int| 0 <= l <= high ==> #[trigger] unlinked(g, l, g.len() - 1),
        limits.m >= 1,
        limits.m_max0 >= 1,
    ensures
        ({
            let h = connected_layers(g, dm, limits, high, g.len() - 1, current);
            forall|l: int|
                0 <= l <= high && (#[trigger] h[g.len() - 1].layers[l]).len() > 0
                    ==> linked_to_a_minimum(g, h[g.len() - 1].layers[l], dm[g.len() - 1], l)
        }),
    decreases high + 1,
{
    if high >= 0 {
        let new_node = g.len() - 1;
        let ds = dm[new_node];
        let max = capacity(limits.m, limits.m_max0, high) as nat;
        let mid = connected(g, dm, limits.ef, high, max, new_node, current);
        let next = next_entry(g, dm, limits.ef, high, new_node, current);
        let h = connected_layers(g, dm, limits, high, new_node, current);
        one_layer_down(g, dm, limits, high, current);
        minimum_in_layers(mid, dm, limits, high - 1, next);
        upper_layers_stay(mid, dm, limits, high - 1, next);
        assert(unlinked(g, high, new_node));
        layer_links_hold_a_minimum(g, dm, limits.ef, high, max, current);
        assert(mid[new_node].layers.len() == g[new_node].layers.len());
        linked_in_layers(g, dm, limits, high, current);
        assert forall|l: int|
            0 <= l <= high && (#[trigger] h[new_node].layers[l]).len() > 0 implies linked_to_a_minimum(
            g,
            h[new_node].layers[l],
            ds,
            l,
        ) by {
            let links = h[new_node].layers[l];
            if l == high {
                assert(links == mid[new_node].layers[l]);
            } else {
                assert(linked_to_a_minimum(mid, links, ds, l));
                let c = choose|c: int| #[trigger]
                    links.contains(c) && (forall|i: int|
                        0 <= i < links.len() ==> !less32(ds[#[trigger] links[i]], ds[c])) && (
                    forall|i: int|
                        0 <= i < links_of(mid, c, l).len() && !mid[#[trigger] links_of(
                            mid,
                            c,
                            l,
                        )[i]].deleted ==> !less32(ds[links_of(mid, c, l)[i]], ds[c]));
                assert(linked_in(
                    g,
                    h,
                    l,
                    capacity(limits.m, limits.m_max0, l) as nat,
                    new_node,
                ));
                let p = choose|p: int| 0 <= p < links.len() && links[p] == c;
                assert(0 <= links[p] < new_node);
                assert(mid[c].layers.len() == g[c].layers.len());
                assert(mid[c].layers[l] == g[c].layers[l]);
                assert(links_of(mid, c, l) == links_of(g, c, l));
                sound_links_in_range(g);
                links_of_range(g, c, l);
                assert forall|i: int|
                    0 <= i < links_of(g, c, l).len() && !g[#[trigger] links_of(
                        g,
                        c,
                        l,
                    )[i]].deleted implies !less32(ds[links_of(g, c, l)[i]], ds[c]) by {
                    let x = links_of(g, c, l)[i];
                    assert(mid[x].deleted == g[x].deleted);
                    assert(!mid[links_of(mid, c, l)[i]].deleted);
                }
            }
        }
    }
}

/// A new vector is linked where it belongs: in each layer in which it has neighbors
/// one of them is as near to it as any other, and as any live neighbor that this one
/// had, where every distance is a number.
pub proof fn new_vector_is_linked_to_a_minimum<K: Fn(&[u32], &[u32]) -> u32>(
    kernel: K,
    limits: Limits,
    t: Topology,
    vectors: Seq<Seq<u32>>,
    id: u64,
    level: nat,
)
    requires
        topology_sound(t),
        1 <= t.g.len() < usize::MAX - 1,
        nodes_are_slots(t.g),
        limits.m >= 1,
        limits.m_max0 >= 1,
        forall|v: int|
            0 <= v <= t.g.len() ==> !is_nan32(
                distance(kernel, vectors[t.g.len() as int], #[trigger] vectors[v]),
            ),
    ensures
        ({
            let n = t.g.len() as int;
            let after = grown(kernel, limits, t, vectors, n, id, level).g;
            forall|l: int|
                0 <= l <= smaller(level as int, t.max_level) && (
                #[trigger] after[n].layers[l]).len() > 0 ==> exists|c: int|
                    0 <= c < n && after[n].layers[l].contains(c) && (forall|x: int| #[trigger]
                        after[n].layers[l].contains(x) ==> !less32(
                            distance(kernel, vectors[n], vectors[x]),
                            distance(kernel, vectors[n], vectors[c]),
                        )) && (forall|x: int| #[trigger]
                        t.g[c].layers[l].contains(x) && !t.g[x].deleted ==> !less32(
                            distance(kernel, vectors[n], vectors[x]),
                            distance(kernel, vectors[n], vectors[c]),
                        ))
        }),
{
    let n = t.g.len() as int;
    let g = t.g.push(fresh_node(n, id, level));
    let dm = matrix(kernel, g, vectors);
    let after = grown(kernel, limits, t, vectors, n, id, level).g;
    let high = smaller(level as int, t.max_level);
    let current = descend_layers(g, dm[n], false, t.max_level, level as int + 1, t.entry->0);
    before_linking(t, dm, n, id, level);
    assert forall|l: int| 0 <= l <= high implies #[trigger] unlinked(g, l, n) by {}
    assert(after == connected_layers(g, dm, limits, high, n, current));
    let ds = dm[n];
    assert forall|v: int| 0 <= v <= n implies #[trigger] ds[v] == distance(
        kernel,
        vectors[n],
        vectors[v],
    ) by {
        if v < n {
            assert(g[v] == t.g[v]);
        }
        assert(g[v].slot == v);
    }
    assert forall|v: int| 0 <= v < ds.len() implies !is_nan32(#[trigger] ds[v]) by {
        assert(!is_nan32(distance(kernel, vectors[n], vectors[v])));
    }
    minimum_in_layers(g, dm, limits, high, current);
    linked_in_layers(g, dm, limits, high, current);
    assert forall|l: int|
        0 <= l <= high && (#[trigger] after[n].layers[l]).len() > 0 implies exists|c: int|
            0 <= c < n && after[n].layers[l].contains(c) && (forall|x: int| #[trigger]
                after[n].layers[l].contains(x) ==> !less32(
                    distance(kernel, vectors[n], vectors[x]),
                    distance(kernel, vectors[n], vectors[c]),
                )) && (forall|x: int| #[trigger]
                t.g[c].layers[l].contains(x) && !t.g[x].deleted ==> !less32(
                    distance(kernel, vectors[n], vectors[x]),
                    distance(kernel, vectors[n], vectors[c]),
                )) by {
        let links = after[n].layers[l];
        assert(linked_in(g, after, l, capacity(limits.m, limits.m_max0, l) as nat, n));
        let c = choose|c: int| #[trigger]
            links.contains(c) && (forall|i: int|
                0 <= i < links.len() ==> !less32(ds[#[trigger] links[i]], ds[c])) && (forall|
                i: int,
            |
                0 <= i < links_of(g, c, l).len() && !g[#[trigger] links_of(g, c, l)[i]].deleted
                    ==> !less32(ds[links_of(g, c, l)[i]], ds[c]));
        let p = choose|p: int| 0 <= p < links.len() && links[p] == c;
        assert(0 <= links[p] < n);
        assert(g[c] == t.g[c]);
        assert forall|x: int| #[trigger] links.contains(x) implies !less32(
            distance(kernel, vectors[n], vectors[x]),
            distance(kernel, vectors[n], vectors[c]),
        ) by {
            let i = choose|i: int| 0 <= i < links.len() && links[i] == x;
            assert(0 <= links[i] < n);
            assert(!less32(ds[links[i]], ds[c]));
        }
        sound_links_in_range(t.g);
        assert forall|x: int| #[trigger]
            t.g[c].layers[l].contains(x) && !t.g[x].deleted implies !less32(
            distance(kernel, vectors[n], vectors[x]),
            distance(kernel, vectors[n], vectors[c]),
        ) by {
            let i = choose|i: int| 0 <= i < t.g[c].layers[l].len() && t.g[c].layers[l][i] == x;
            assert(0 <= t.g[c].layers[l][i] < t.g.len());
            assert(links_of(g, c, l)[i] == x);
            assert(g[x] == t.g[x]);
            assert(!g[links_of(g, c, l)[i]].deleted);
        }
    }
}

/// Whether some node of a list has at most this rank.
pub open spec fn has_as_near(links: Seq<int>, ds: Seq<u32>, rank: int) -> bool {
    exists|c: int| #[trigger] links.contains(c) && rank32(ds[c]) <= rank
}

proof fn closer_in_layers(
    g: Seq<NodeView>,
    dm: Seq<Seq<u32>>,
    limits: Limits,
    high: int,
    current: int,
)
    requires
        graph_sound(g),
        1 < g.len() < usize::MAX,
        dm[g.len() - 1].len() == g.len(),
        all_numbers(dm[g.len() - 1]),
        high >= 0 ==> in_layer(g, g.len() - 1, high) && in_layer(g, current, high),
        current != g.len() - 1,
        forall|l: int| 0 <= l <= high ==> #[trigger] unlinked(g, l, g.len() - 1),
        limits.m >= 1,
        limits.m_max0 >= 1,
        forall|v: int| 0 <= v < g.len() ==> !(#[trigger] g[v]).deleted,
    ensures
        ({
            let ds = dm[g.len() - 1];
            let own = connected_layers(g, dm, limits, high, g.len() - 1, current)[g.len()
                - 1].layers;
            &&& high >= 0 ==> has_as_near(own[high], ds, rank32(ds[current]))
            &&& forall|l: int, x: int|
                0 <= l < high && #[trigger] own[l + 1].contains(x) ==> has_as_near(
                    own[l],
                    ds,
                    rank32(ds[x]),
                )
        }),
    decreases high + 1,
{
    if high >= 0 {
        let new_node = g.len() - 1;
        let ds = dm[new_node];
        let max = capacity(limits.m, limits.m_max0, high) as nat;
        let mid = connected(g, dm, limits.ef, high, max, new_node, current);
        let next = next_entry(g, dm, limits.ef, high, new_node, current);
        let h = connected_layers(g, dm, limits, high, new_node, current);
        let own = h[new_node].layers;
        let found = beam_search(g, ds, limits.ef, high, current);
        let cs = layer_candidates(g, dm, limits.ef, high, new_node, current);
        one_layer_down(g, dm, limits, high, current);
        assert(unlinked(g, high, new_node));
        assert forall|v: int| 0 <= v < mid.len() implies !(#[trigger] mid[v]).deleted by {
            assert(mid[v].deleted == g[v].deleted);
        }
        closer_in_layers(mid, dm, limits, high - 1, next);
        upper_layers_stay(mid, dm, limits, high - 1, next);
        candidates_are_live(g, dm, limits.ef, high, current);
        sound_links_in_range(g);
        beam_search_is_locally_optimal(g, ds, limits.ef, high, current);
        live_ranked(g, new_node, found);
        chosen_neighbors_fill_the_room(dm, max, cs);
        new_links_are_chosen(g, dm, limits.ef, high, max, current);
        assert(mid[new_node].layers.len() == g[new_node].layers.len());
        assert(own[high] == mid[new_node].layers[high]);
        let last = found.len() - 1;
        let near = if lists_node(found, current) {
            current
        } else {
            found[last].node_idx as int
        };
        assert(rank32(ds[near]) <= rank32(ds[current])) by {
            assert(found[last].distance == ds[found[last].node_idx as int]);
            assert(!is_nan32(ds[current]));
        }
        assert(found[last].node_idx < new_node);
        assert(lists_node(found, near));
        assert(!g[near].deleted);
        assert(lists_node(cs, near));
        let c = cs[0].node_idx as int;
        assert(next == c);
        assert forall|v: int| #[trigger] lists_node(cs, v) implies rank32(ds[c]) <= rank32(ds[v]) by {
            let i = choose|i: int| 0 <= i < cs.len() && (#[trigger] cs[i]).node_idx == v;
            if i > 0 {
                assert(cs[0].rank() <= cs[i].rank());
            }
            live_distance(g, ds, found, new_node, 0);
            live_distance(g, ds, found, new_node, i);
        }
        assert(own[high].contains(c));
        assert forall|l: int, x: int| 0 <= l < high && #[trigger] own[l + 1].contains(
            x,
        ) implies has_as_near(own[l], ds, rank32(ds[x])) by {
            if l == high - 1 {
                let i = choose|i: int| 0 <= i < own[high].len() && own[high][i] == x;
                assert(lists_node(cs, own[high][i]));
                assert(has_as_near(own[l], ds, rank32(ds[next])));
                let d = choose|d: int| #[trigger]
                    own[l].contains(d) && rank32(ds[d]) <= rank32(ds[next]);
                assert(rank32(ds[d]) <= rank32(ds[x]));
            }
        }
    }
}

/// A new vector gets closer to where it belongs from layer to layer: where none is
/// deleted and every distance is a number, one of its neighbors in each layer is as
/// near as every neighbor that it has in the layer above.
pub proof fn neighbors_get_closer_downwards<K: Fn(&[u32], &[u32]) -> u32>(
    kernel: K,
    limits: Limits,
    t: Topology,
    vectors: Seq<Seq<u32>>,
    id: u64,
    level: nat,
)
    requires
        topology_sound(t),
        1 <= t.g.len() < usize::MAX - 1,
        nodes_are_slots(t.g),
        limits.m >= 1,
        limits.m_max0 >= 1,
        forall|v: int| 0 <= v < t.g.len() ==> !(#[trigger] t.g[v]).deleted,
        forall|v: int|
            0 <= v <= t.g.len() ==> !is_nan32(
                distance(kernel, vectors[t.g.len() as int], #[trigger] vectors[v]),
            ),
    ensures
        ({
            let n = t.g.len() as int;
            let own = grown(kernel, limits, t, vectors, n, id, level).g[n].layers;
            forall|l: int, x: int|
                0 <= l < smaller(level as int, t.max_level) && #[trigger] own[l + 1].contains(x)
                    ==> exists|c: int| #[trigger]
                    own[l].contains(c) && !less32(
                        distance(kernel, vectors[n], vectors[x]),
                        distance(kernel, vectors[n], vectors[c]),
                    )
        }),
{
    let n = t.g.len() as int;
    let g = t.g.push(fresh_node(n, id, level));
    let dm = matrix(kernel, g, vectors);
    let after = grown(kernel, limits, t, vectors, n, id, level).g;
    let own = after[n].layers;
    let high = smaller(level as int, t.max_level);
    let current = descend_layers(g, dm[n], false, t.max_level, level as int + 1, t.entry->0);
    before_linking(t, dm, n, id, level);
    assert forall|l: int| 0 <= l <= high implies #[trigger] unlinked(g, l, n) by {}
    assert(after == connected_layers(g, dm, limits, high, n, current));
    let ds = dm[n];
    assert forall|v: int| 0 <= v <= n implies #[trigger] ds[v] == distance(
        kernel,
        vectors[n],
        vectors[v],
    ) by {
        if v < n {
            assert(g[v] == t.g[v]);
        }
        assert(g[v].slot == v);
    }
    assert forall|v: int| 0 <= v < ds.len() implies !is_nan32(#[trigger] ds[v]) by {
        assert(!is_nan32(distance(kernel, vectors[n], vectors[v])));
    }
    assert forall|v: int| 0 <= v < g.len() implies !(#[trigger] g[v]).deleted by {
        if v < n {
            assert(g[v] == t.g[v]);
        }
    }
    closer_in_layers(g, dm, limits, high, current);
    linked_in_layers(g, dm, limits, high, current);
    assert forall|l: int, x: int| 0 <= l < high && #[trigger] own[l + 1].contains(
        x,
    ) implies exists|c: int| #[trigger]
        own[l].contains(c) && !less32(
            distance(kernel, vectors[n], vectors[x]),
            distance(kernel, vectors[n], vectors[c]),
        ) by {
        let c = choose|c: int| #[trigger] own[l].contains(c) && rank32(ds[c]) <= rank32(ds[x]);
        assert(has_as_near(own[l], ds, rank32(ds[x])));
        assert(linked_in(g, after, l, capacity(limits.m, limits.m_max0, l) as nat, n));
        assert(linked_in(g, after, l + 1, capacity(limits.m, limits.m_max0, l + 1) as nat, n));
        let p = choose|p: int| 0 <= p < own[l].len() && own[l][p] == c;
        let above = own[l + 1];
        let q = choose|q: int| 0 <= q < above.len() && above[q] == x;
        assert(0 <= own[l][p] < n);
        assert(0 <= own[l + 1][q] < n);
        assert(own[l].contains(c));
    }
}

} // verus!
