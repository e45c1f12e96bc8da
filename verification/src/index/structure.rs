//! What the links of the graph keep to, however many nodes are inserted.
use vstd::prelude::*;

use crate::distance::{less32, rank32};
use crate::index::beam::{beam_at, beam_in_range, beam_search, beam_search_is_locally_optimal,
    candidate, descend, descend_layers, inserted_lists, links_in_range, links_of, lists_node,
    no_node_twice, offer, offer_all, popped, run_beam, scan, Beam};
use crate::index::graph::{capacity, fresh_node, with_neighbors, NodeView};
use crate::index::hnsw::built;
use crate::index::link::{connected, connected_layers, layer_candidates, linked_back,
    linked_back_all, live_candidates, matrix, next_entry, pruned, same_nodes, select_from,
    select_neighbors, smaller, topology_wf, with_distances, Limits, Topology};
use crate::index::ranking::{place, place_bounds, ranked, ranked_insert, ranked_is_a_sort,
    Candidate};

verus! {

/// Whether a node is in a layer.
pub open spec fn in_layer(g: Seq<NodeView>, node: int, level: int) -> bool {
    0 <= node < g.len() && 0 <= level < g[node].layers.len()
}

/// Whether a list of neighbors of a node in a layer holds other nodes of that
/// layer, each once.
pub open spec fn list_sound(g: Seq<NodeView>, node: int, level: int, list: Seq<int>) -> bool {
    &&& list.no_duplicates()
    &&& forall|j: int|
        0 <= j < list.len() ==> in_layer(g, #[trigger] list[j], level) && list[j] != node
}

/// Whether every node has, in each of its layers, only other nodes of that layer
/// as neighbors, each once.
pub open spec fn graph_sound(g: Seq<NodeView>) -> bool {
    forall|i: int, l: int|
        0 <= i < g.len() && 0 <= l < g[i].layers.len() ==> list_sound(
            g,
            i,
            l,
            #[trigger] g[i].layers[l],
        )
}

/// Whether no node has `new_node` as a neighbor in a layer.
pub open spec fn unlinked(g: Seq<NodeView>, level: int, new_node: int) -> bool {
    forall|i: int|
        0 <= i < g.len() && 0 <= level < g[i].layers.len() ==> !(
        #[trigger] g[i].layers[level]).contains(new_node)
}

/// The links of a sound graph lead to nodes of it.
pub proof fn sound_links_in_range(g: Seq<NodeView>)
    requires
        graph_sound(g),
    ensures
        links_in_range(g),
{
    assert forall|i: int, l: int, j: int|
        0 <= i < g.len() && 0 <= l < g[i].layers.len() && 0 <= j < g[i].layers[l].len() implies 0
        <= #[trigger] g[i].layers[l][j] < g.len() by {
        assert(list_sound(g, i, l, g[i].layers[l]));
        assert(in_layer(g, g[i].layers[l][j], l));
    }
}

proof fn links_stay_in_layer(g: Seq<NodeView>, node: int, level: int)
    requires
        graph_sound(g),
        0 <= node < g.len(),
    ensures
        forall|i: int|
            0 <= i < links_of(g, node, level).len() ==> in_layer(
                g,
                #[trigger] links_of(g, node, level)[i],
                level,
            ),
{
    if 0 <= level < g[node].layers.len() {
        assert(list_sound(g, node, level, g[node].layers[level]));
    }
}

proof fn with_neighbors_sound(g: Seq<NodeView>, node: int, level: int, list: Seq<int>)
    requires
        graph_sound(g),
        in_layer(g, node, level),
        list_sound(g, node, level, list),
    ensures
        graph_sound(with_neighbors(g, node, level, list)),
        same_nodes(g, with_neighbors(g, node, level, list)),
{
    let h = with_neighbors(g, node, level, list);
    assert forall|i: int, l: int| 0 <= i < h.len() && 0 <= l < h[i].layers.len() implies list_sound(
        h,
        i,
        l,
        #[trigger] h[i].layers[l],
    ) by {
        let s = if i == node && l == level { list } else { g[i].layers[l] };
        assert(h[i].layers[l] == s);
        assert(list_sound(g, i, l, s));
        assert forall|j: int| 0 <= j < s.len() implies in_layer(h, #[trigger] s[j], l) && s[j]
            != i by {
            assert(in_layer(g, s[j], l));
        }
    }
}

/// A graph stays sound with one more node, to which no link leads.
pub proof fn fresh_node_sound(g: Seq<NodeView>, slot: int, id: u64, level: nat)
    requires
        graph_sound(g),
    ensures
        graph_sound(g.push(fresh_node(slot, id, level))),
        forall|l: int| #[trigger]
            unlinked(g.push(fresh_node(slot, id, level)), l, g.len() as int),
{
    let h = g.push(fresh_node(slot, id, level));
    assert forall|i: int, l: int| 0 <= i < h.len() && 0 <= l < h[i].layers.len() implies list_sound(
        h,
        i,
        l,
        #[trigger] h[i].layers[l],
    ) by {
        if i < g.len() {
            let s = g[i].layers[l];
            assert(h[i].layers[l] == s);
            assert(list_sound(g, i, l, s));
            assert forall|j: int| 0 <= j < s.len() implies in_layer(h, #[trigger] s[j], l) && s[j]
                != i by {
                assert(in_layer(g, s[j], l));
            }
        }
    }
    assert forall|l: int| #[trigger] unlinked(h, l, g.len() as int) by {
        assert forall|i: int| 0 <= i < h.len() && 0 <= l < h[i].layers.len() implies !(
        #[trigger] h[i].layers[l]).contains(g.len() as int) by {
            if i < g.len() {
                let s = g[i].layers[l];
                assert(h[i].layers[l] == s);
                assert(list_sound(g, i, l, s));
                if s.contains(g.len() as int) {
                    let j = choose|j: int| 0 <= j < s.len() && s[j] == g.len();
                    assert(in_layer(g, s[j], l));
                }
            }
        }
    }
}

proof fn scan_in_layer(
    g: Seq<NodeView>,
    ds: Seq<u32>,
    skip: bool,
    current: int,
    list: Seq<int>,
    level: int,
)
    requires
        in_layer(g, current, level),
        forall|i: int| 0 <= i < list.len() ==> in_layer(g, #[trigger] list[i], level),
    ensures
        in_layer(g, scan(g, ds, skip, current, list), level),
    decreases list.len(),
{
    if list.len() > 0 {
        let fewer = list.drop_last();
        assert forall|i: int| 0 <= i < fewer.len() implies in_layer(g, #[trigger] fewer[i], level) by {
            assert(fewer[i] == list[i]);
        }
        scan_in_layer(g, ds, skip, current, fewer, level);
        assert(in_layer(g, list[list.len() - 1], level));
    }
}

proof fn descend_in_layer(g: Seq<NodeView>, ds: Seq<u32>, skip: bool, level: int, current: int)
    requires
        graph_sound(g),
        in_layer(g, current, level),
    ensures
        in_layer(g, descend(g, ds, skip, level, current), level),
    decreases rank32(ds[current]) + 0x8000_0000,
{
    let list = links_of(g, current, level);
    links_stay_in_layer(g, current, level);
    scan_in_layer(g, ds, skip, current, list, level);
    let next = scan(g, ds, skip, current, list);
    if less32(ds[next], ds[current]) {
        descend_in_layer(g, ds, skip, level, next);
    }
}

/// Greedy descent through the layers ends in the lowest of them.
pub proof fn descent_stays_in_layers(
    g: Seq<NodeView>,
    ds: Seq<u32>,
    skip: bool,
    high: int,
    low: int,
    current: int,
)
    requires
        graph_sound(g),
        in_layer(g, current, high),
        0 <= low,
    ensures
        in_layer(g, descend_layers(g, ds, skip, high, low, current), smaller(high, low)),
    decreases high - low + 1,
{
    if high >= low {
        descend_in_layer(g, ds, skip, high, current);
        let next = descend(g, ds, skip, high, current);
        if high > low {
            assert(in_layer(g, next, high - 1));
            descent_stays_in_layers(g, ds, skip, high - 1, low, next);
        } else {
            reveal_with_fuel(descend_layers, 2);
        }
    }
}

/// Whether all candidates are in a layer.
pub open spec fn all_in_layer(g: Seq<NodeView>, s: Seq<Candidate>, level: int) -> bool {
    forall|i: int| 0 <= i < s.len() ==> in_layer(g, (#[trigger] s[i]).node_idx as int, level)
}

proof fn insert_in_layer(g: Seq<NodeView>, s: Seq<Candidate>, c: Candidate, level: int)
    requires
        all_in_layer(g, s, level),
        in_layer(g, c.node_idx as int, level),
    ensures
        all_in_layer(g, ranked_insert(s, c), level),
{
    let t = ranked_insert(s, c);
    let p = place(s, c.rank());
    place_bounds(s, c.rank());
    assert forall|i: int| 0 <= i < t.len() implies in_layer(
        g,
        (#[trigger] t[i]).node_idx as int,
        level,
    ) by {
        if i < p {
            assert(t[i] == s[i]);
        } else if i > p {
            assert(t[i] == s[i - 1]);
        }
    }
}

proof fn offered_in_layer(
    g: Seq<NodeView>,
    ds: Seq<u32>,
    ef: nat,
    b: Beam,
    list: Seq<int>,
    level: int,
)
    requires
        g.len() <= usize::MAX,
        all_in_layer(g, b.frontier, level),
        all_in_layer(g, b.results, level),
        forall|i: int| 0 <= i < list.len() ==> in_layer(g, #[trigger] list[i], level),
    ensures
        all_in_layer(g, offer_all(b, ds, ef, list).frontier, level),
        all_in_layer(g, offer_all(b, ds, ef, list).results, level),
    decreases list.len(),
{
    if list.len() > 0 {
        let fewer = list.drop_last();
        assert forall|i: int| 0 <= i < fewer.len() implies in_layer(g, #[trigger] fewer[i], level) by {
            assert(fewer[i] == list[i]);
        }
        offered_in_layer(g, ds, ef, b, fewer, level);
        let mid = offer_all(b, ds, ef, fewer);
        let node = list.last();
        assert(in_layer(g, list[list.len() - 1], level));
        let c = candidate(ds, node);
        insert_in_layer(g, mid.frontier, c, level);
        insert_in_layer(g, mid.results, c, level);
        let taken = ranked_insert(mid.results, c);
        let end = offer(mid, ds, ef, node);
        assert forall|i: int| 0 <= i < end.results.len() implies in_layer(
            g,
            (#[trigger] end.results[i]).node_idx as int,
            level,
        ) by {
            assert(end.results[i] == taken[i] || end.results[i] == mid.results[i]);
        }
    }
}

proof fn run_in_layer(g: Seq<NodeView>, ds: Seq<u32>, ef: nat, level: int, b: Beam)
    requires
        graph_sound(g),
        g.len() <= usize::MAX,
        beam_in_range(g, b),
        all_in_layer(g, b.frontier, level),
        all_in_layer(g, b.results, level),
    ensures
        all_in_layer(g, run_beam(g, ds, ef, level, b), level),
    decreases g.len() - b.visited.len() + b.frontier.len(),
{
    sound_links_in_range(g);
    if b.frontier.len() > 0 && !(less32(b.results.last().distance, b.frontier[0].distance)
        && b.results.len() >= ef) {
        let node = b.frontier[0].node_idx as int;
        let list = links_of(g, node, level);
        let p = popped(b);
        assert(in_layer(g, b.frontier[0].node_idx as int, level));
        links_stay_in_layer(g, node, level);
        assert forall|i: int| 0 <= i < p.frontier.len() implies in_layer(
            g,
            (#[trigger] p.frontier[i]).node_idx as int,
            level,
        ) by {
            assert(p.frontier[i] == b.frontier[i + 1]);
        }
        offered_in_layer(g, ds, ef, p, list, level);
        crate::index::beam::round_shrinks(g, ds, ef, level, b);
        run_in_layer(g, ds, ef, level, offer_all(p, ds, ef, list));
    }
}

/// A beam search stays in its layer.
pub proof fn beam_search_stays_in_layer(
    g: Seq<NodeView>,
    ds: Seq<u32>,
    ef: nat,
    level: int,
    entry: int,
)
    requires
        graph_sound(g),
        g.len() <= usize::MAX,
        in_layer(g, entry, level),
    ensures
        all_in_layer(g, beam_search(g, ds, ef, level, entry), level),
{
    let b = beam_at(ds, entry);
    assert(b.frontier[0].node_idx == entry);
    run_in_layer(g, ds, ef, level, b);
}

/// What is left of some candidates: none twice, all in their layer, none of them
/// the new node.
proof fn live_candidates_sound(
    g: Seq<NodeView>,
    new_node: int,
    found: Seq<Candidate>,
    level: int,
)
    requires
        no_node_twice(found),
        all_in_layer(g, found, level),
    ensures
        no_node_twice(live_candidates(g, new_node, found)),
        all_in_layer(g, live_candidates(g, new_node, found), level),
        forall|i: int|
            0 <= i < live_candidates(g, new_node, found).len() ==> (#[trigger] live_candidates(
                g,
                new_node,
                found,
            )[i]).node_idx != new_node && lists_node(
                found,
                live_candidates(g, new_node, found)[i].node_idx as int,
            ),
    decreases found.len(),
{
    if found.len() > 0 {
        let fewer = found.drop_last();
        let last = found.len() - 1;
        assert forall|i: int, j: int| 0 <= i < j < fewer.len() implies (#[trigger] fewer[i]).node_idx
            != (#[trigger] fewer[j]).node_idx by {
            assert(found[i].node_idx != found[j].node_idx);
        }
        assert forall|i: int| 0 <= i < fewer.len() implies in_layer(
            g,
            (#[trigger] fewer[i]).node_idx as int,
            level,
        ) by {
            assert(fewer[i] == found[i]);
        }
        live_candidates_sound(g, new_node, fewer, level);
        let kept = live_candidates(g, new_node, fewer);
        let all = live_candidates(g, new_node, found);
        assert(in_layer(g, found[last].node_idx as int, level));
        assert forall|i: int| 0 <= i < all.len() implies (#[trigger] all[i]).node_idx != new_node
            && lists_node(found, all[i].node_idx as int) by {
            if i < kept.len() {
                assert(all[i] == kept[i]);
                let j = choose|j: int|
                    0 <= j < fewer.len() && (#[trigger] fewer[j]).node_idx == all[i].node_idx;
                assert(found[j].node_idx == all[i].node_idx);
            } else {
                assert(found[last].node_idx == all[i].node_idx);
            }
        }
        assert forall|i: int, j: int| 0 <= i < j < all.len() implies (#[trigger] all[i]).node_idx != (
        #[trigger] all[j]).node_idx by {
            if j < kept.len() {
                assert(kept[i].node_idx != kept[j].node_idx);
            } else {
                assert(all[i] == kept[i]);
                let x = choose|x: int|
                    0 <= x < fewer.len() && (#[trigger] fewer[x]).node_idx == kept[i].node_idx;
                assert(found[x].node_idx != found[last].node_idx);
            }
        }
    }
}

/// What a selection consists of: nodes of the candidates, each once.
proof fn selection_sound(dm: Seq<Seq<u32>>, max: nat, candidates: Seq<Candidate>)
    requires
        no_node_twice(candidates),
    ensures
        ({
            let s = select_from(dm, max, candidates);
            let all = s.selected + s.discarded;
            &&& all.no_duplicates()
            &&& forall|i: int|
                0 <= i < all.len() ==> lists_node(candidates, #[trigger] all[i])
        }),
    decreases candidates.len(),
{
    if candidates.len() > 0 {
        let fewer = candidates.drop_last();
        let last = candidates.len() - 1;
        assert forall|i: int, j: int| 0 <= i < j < fewer.len() implies (#[trigger] fewer[i]).node_idx
            != (#[trigger] fewer[j]).node_idx by {
            assert(candidates[i].node_idx != candidates[j].node_idx);
        }
        selection_sound(dm, max, fewer);
        let s = select_from(dm, max, fewer);
        let t = select_from(dm, max, candidates);
        let before = s.selected + s.discarded;
        let all = t.selected + t.discarded;
        let node = candidates.last().node_idx as int;
        let split = s.selected.len() as int;
        assert forall|i: int| 0 <= i < before.len() implies #[trigger] before[i] != node && lists_node(
            candidates,
            before[i],
        ) by {
            assert(lists_node(fewer, before[i]));
            let j = choose|j: int|
                0 <= j < fewer.len() && (#[trigger] fewer[j]).node_idx == before[i];
            assert(candidates[j].node_idx == before[i]);
            assert(candidates[j].node_idx != candidates[last].node_idx);
        }
        assert(candidates[last].node_idx == node);
        if t.selected == s.selected.push(node) && t.discarded == s.discarded {
            assert(all =~= before.insert(split, node));
            assert forall|i: int, j: int|
                0 <= i < all.len() && 0 <= j < all.len() && i != j implies all[i] != all[j] by {
                let bi = if i < split { i } else { i - 1 };
                let bj = if j < split { j } else { j - 1 };
                if i != split {
                    assert(all[i] == before[bi]);
                }
                if j != split {
                    assert(all[j] == before[bj]);
                }
            }
            assert forall|i: int| 0 <= i < all.len() implies lists_node(
                candidates,
                #[trigger] all[i],
            ) by {
                if i < split {
                    assert(all[i] == before[i]);
                } else if i > split {
                    assert(all[i] == before[i - 1]);
                }
            }
        } else {
            assert(all =~= before.push(node));
            assert forall|i: int| 0 <= i < all.len() implies lists_node(
                candidates,
                #[trigger] all[i],
            ) by {
                if i < before.len() {
                    assert(all[i] == before[i]);
                }
            }
        }
    }
}

proof fn selection_fits(dm: Seq<Seq<u32>>, max: nat, candidates: Seq<Candidate>)
    ensures
        select_from(dm, max, candidates).selected.len() <= max,
    decreases candidates.len(),
{
    if candidates.len() > 0 {
        selection_fits(dm, max, candidates.drop_last());
    }
}

/// The neighbors that are chosen are among the candidates, each once.
pub proof fn chosen_neighbors_are_distinct(dm: Seq<Seq<u32>>, max: nat, candidates: Seq<Candidate>)
    requires
        no_node_twice(candidates),
    ensures
        select_neighbors(dm, max, candidates).no_duplicates(),
        forall|i: int|
            0 <= i < select_neighbors(dm, max, candidates).len() ==> lists_node(
                candidates,
                #[trigger] select_neighbors(dm, max, candidates)[i],
            ),
{
    selection_sound(dm, max, candidates);
    selection_fits(dm, max, candidates);
    let s = select_from(dm, max, candidates);
    let all = s.selected + s.discarded;
    let chosen = select_neighbors(dm, max, candidates);
    assert forall|i: int| 0 <= i < chosen.len() implies #[trigger] chosen[i] == all[i] by {}
    assert forall|i: int| 0 <= i < chosen.len() implies lists_node(
        candidates,
        #[trigger] chosen[i],
    ) by {
        assert(chosen[i] == all[i]);
    }
}

/// Ranking adds no node, and has none twice.
pub proof fn ranked_keeps_nodes(s: Seq<Candidate>)
    requires
        no_node_twice(s),
    ensures
        no_node_twice(ranked(s)),
        forall|n: int| #[trigger] lists_node(ranked(s), n) ==> lists_node(s, n),
    decreases s.len(),
{
    ranked_is_a_sort(s);
    if s.len() > 0 {
        let t = s.drop_last();
        let c = s.last();
        let last = s.len() - 1;
        assert forall|i: int, j: int| 0 <= i < j < t.len() implies (#[trigger] t[i]).node_idx != (
        #[trigger] t[j]).node_idx by {
            assert(s[i].node_idx != s[j].node_idx);
        }
        ranked_keeps_nodes(t);
        ranked_is_a_sort(t);
        inserted_lists(ranked(t), c);
        assert(s[last].node_idx == c.node_idx);
        if lists_node(ranked(t), c.node_idx as int) {
            assert(lists_node(t, c.node_idx as int));
            let i = choose|i: int| 0 <= i < t.len() && (#[trigger] t[i]).node_idx == c.node_idx;
            assert(s[i].node_idx != s[last].node_idx);
        }
        assert forall|n: int| #[trigger] lists_node(ranked(s), n) implies lists_node(s, n) by {
            if n != c.node_idx {
                assert(lists_node(t, n));
                let i = choose|i: int| 0 <= i < t.len() && (#[trigger] t[i]).node_idx == n;
                assert(s[i].node_idx == n);
            }
        }
    }
}

proof fn pruned_sound(
    g: Seq<NodeView>,
    dm: Seq<Seq<u32>>,
    node: int,
    level: int,
    max: nat,
    list: Seq<int>,
)
    requires
        g.len() <= usize::MAX,
        list_sound(g, node, level, list),
    ensures
        list_sound(g, node, level, pruned(dm, node, max, list)),
{
    let cs = with_distances(dm[node], list);
    assert forall|i: int, j: int| 0 <= i < j < cs.len() implies (#[trigger] cs[i]).node_idx != (
    #[trigger] cs[j]).node_idx by {
        assert(in_layer(g, list[i], level) && in_layer(g, list[j], level));
        assert(list[i] != list[j]);
    }
    ranked_keeps_nodes(cs);
    chosen_neighbors_are_distinct(dm, max, ranked(cs));
    let kept = pruned(dm, node, max, list);
    assert forall|i: int| 0 <= i < kept.len() implies in_layer(g, #[trigger] kept[i], level)
        && kept[i] != node by {
        assert(lists_node(ranked(cs), kept[i]));
        assert(lists_node(cs, kept[i]));
        let j = choose|j: int| 0 <= j < cs.len() && (#[trigger] cs[j]).node_idx == kept[i];
        assert(in_layer(g, list[j], level));
        assert(cs[j].node_idx == list[j]);
    }
}

proof fn linked_back_sound(
    g: Seq<NodeView>,
    dm: Seq<Seq<u32>>,
    level: int,
    max: nat,
    new_node: int,
    node: int,
)
    requires
        graph_sound(g),
        g.len() <= usize::MAX,
        in_layer(g, new_node, level),
        in_layer(g, node, level),
        node != new_node,
        !g[node].layers[level].contains(new_node),
    ensures
        graph_sound(linked_back(g, dm, level, max, new_node, node)),
        same_nodes(g, linked_back(g, dm, level, max, new_node, node)),
        forall|i: int, l: int|
            0 <= i < g.len() && 0 <= l < g[i].layers.len() && (i != node || l != level) ==> (
            #[trigger] linked_back(g, dm, level, max, new_node, node)[i].layers[l])
                == g[i].layers[l],
{
    let old_list = g[node].layers[level];
    let list = old_list.push(new_node);
    assert(list_sound(g, node, level, old_list));
    assert(list_sound(g, node, level, list)) by {
        assert forall|i: int, j: int|
            0 <= i < list.len() && 0 <= j < list.len() && i != j implies list[i] != list[j] by {
            if i < old_list.len() && j < old_list.len() {
                assert(old_list[i] != old_list[j]);
            } else if i < old_list.len() {
                assert(old_list.contains(old_list[i]));
            } else {
                assert(old_list.contains(old_list[j]));
            }
        }
        assert forall|j: int| 0 <= j < list.len() implies in_layer(g, #[trigger] list[j], level)
            && list[j] != node by {
            if j < old_list.len() {
                assert(in_layer(g, old_list[j], level));
            }
        }
    }
    pruned_sound(g, dm, node, level, max, list);
    let kept = if list.len() > max { pruned(dm, node, max, list) } else { list };
    with_neighbors_sound(g, node, level, kept);
}

proof fn linked_back_all_sound(
    g: Seq<NodeView>,
    dm: Seq<Seq<u32>>,
    level: int,
    max: nat,
    new_node: int,
    nodes: Seq<int>,
)
    requires
        graph_sound(g),
        g.len() <= usize::MAX,
        in_layer(g, new_node, level),
        list_sound(g, new_node, level, nodes),
        unlinked(g, level, new_node),
    ensures
        graph_sound(linked_back_all(g, dm, level, max, new_node, nodes)),
        same_nodes(g, linked_back_all(g, dm, level, max, new_node, nodes)),
        forall|i: int, l: int|
            0 <= i < g.len() && 0 <= l < g[i].layers.len() && (!nodes.contains(i) || l != level)
                ==> (#[trigger] linked_back_all(g, dm, level, max, new_node, nodes)[i].layers[l])
                == g[i].layers[l],
    decreases nodes.len(),
{
    if nodes.len() > 0 {
        let fewer = nodes.drop_last();
        let node = nodes.last();
        let last = nodes.len() - 1;
        assert(list_sound(g, new_node, level, fewer)) by {
            assert forall|i: int, j: int|
                0 <= i < fewer.len() && 0 <= j < fewer.len() && i != j implies fewer[i]
                != fewer[j] by {
                assert(nodes[i] != nodes[j]);
            }
            assert forall|j: int| 0 <= j < fewer.len() implies in_layer(
                g,
                #[trigger] fewer[j],
                level,
            ) && fewer[j] != new_node by {
                assert(in_layer(g, nodes[j], level));
            }
        }
        linked_back_all_sound(g, dm, level, max, new_node, fewer);
        let mid = linked_back_all(g, dm, level, max, new_node, fewer);
        assert(in_layer(g, nodes[last], level));
        assert(!fewer.contains(node)) by {
            if fewer.contains(node) {
                let i = choose|i: int| 0 <= i < fewer.len() && fewer[i] == node;
                assert(nodes[i] != nodes[last]);
            }
        }
        assert(mid[node].layers[level] == g[node].layers[level]);
        assert(g[new_node].layers.len() == mid[new_node].layers.len());
        assert(g[node].layers.len() == mid[node].layers.len());
        linked_back_sound(mid, dm, level, max, new_node, node);
        let end = linked_back_all(g, dm, level, max, new_node, nodes);
        assert forall|i: int, l: int|
            0 <= i < g.len() && 0 <= l < g[i].layers.len() && (!nodes.contains(i) || l != level) implies (
        #[trigger] end[i].layers[l]) == g[i].layers[l] by {
            assert(g[i].layers.len() == mid[i].layers.len());
            assert(nodes.contains(node)) by {
                assert(nodes[last] == node);
            }
            assert(!fewer.contains(i) || l != level) by {
                if fewer.contains(i) {
                    let j = choose|j: int| 0 <= j < fewer.len() && fewer[j] == i;
                    assert(nodes[j] == i);
                }
            }
            assert(mid[i].layers[l] == g[i].layers[l]);
        }
        assert forall|i: int| 0 <= i < g.len() implies {
            &&& (#[trigger] g[i]).slot == end[i].slot
            &&& g[i].id == end[i].id
            &&& g[i].deleted == end[i].deleted
            &&& g[i].layers.len() == end[i].layers.len()
        } by {
            assert(mid[i].slot == end[i].slot);
        }
    }
}

/// A graph stays sound when a new node is given its neighbors in a layer.
pub proof fn connected_sound(
    g: Seq<NodeView>,
    dm: Seq<Seq<u32>>,
    ef: nat,
    level: int,
    max: nat,
    new_node: int,
    current: int,
)
    requires
        graph_sound(g),
        g.len() <= usize::MAX,
        dm[new_node].len() == g.len(),
        in_layer(g, new_node, level),
        in_layer(g, current, level),
        unlinked(g, level, new_node),
    ensures
        graph_sound(connected(g, dm, ef, level, max, new_node, current)),
        same_nodes(g, connected(g, dm, ef, level, max, new_node, current)),
        in_layer(g, next_entry(g, dm, ef, level, new_node, current), level),
        forall|l: int| #[trigger]
            unlinked(g, l, new_node) && l != level ==> unlinked(
                connected(g, dm, ef, level, max, new_node, current),
                l,
                new_node,
            ),
{
    let found = beam_search(g, dm[new_node], ef, level, current);
    sound_links_in_range(g);
    beam_search_is_locally_optimal(g, dm[new_node], ef, level, current);
    beam_search_stays_in_layer(g, dm[new_node], ef, level, current);
    live_candidates_sound(g, new_node, found, level);
    let live = layer_candidates(g, dm, ef, level, new_node, current);
    chosen_neighbors_are_distinct(dm, max, live);
    let chosen = select_neighbors(dm, max, live);
    assert(list_sound(g, new_node, level, chosen)) by {
        assert forall|j: int| 0 <= j < chosen.len() implies in_layer(g, #[trigger] chosen[j], level)
            && chosen[j] != new_node by {
            assert(lists_node(live, chosen[j]));
            let i = choose|i: int|
                0 <= i < live.len() && (#[trigger] live[i]).node_idx == chosen[j];
            assert(in_layer(g, live[i].node_idx as int, level));
        }
    }
    let linked = with_neighbors(g, new_node, level, chosen);
    with_neighbors_sound(g, new_node, level, chosen);
    assert(list_sound(linked, new_node, level, chosen)) by {
        assert forall|j: int| 0 <= j < chosen.len() implies in_layer(
            linked,
            #[trigger] chosen[j],
            level,
        ) && chosen[j] != new_node by {
            assert(in_layer(g, chosen[j], level));
        }
    }
    assert(unlinked(linked, level, new_node)) by {
        assert forall|i: int|
            0 <= i < linked.len() && 0 <= level < linked[i].layers.len() implies !(
        #[trigger] linked[i].layers[level]).contains(new_node) by {
            if i == new_node {
                if chosen.contains(new_node) {
                    let j = choose|j: int| 0 <= j < chosen.len() && chosen[j] == new_node;
                    assert(chosen[j] != new_node);
                }
            } else {
                assert(linked[i].layers[level] == g[i].layers[level]);
            }
        }
    }
    linked_back_all_sound(linked, dm, level, max, new_node, chosen);
    let end = connected(g, dm, ef, level, max, new_node, current);
    assert forall|l: int| #[trigger] unlinked(g, l, new_node) && l != level implies unlinked(
        end,
        l,
        new_node,
    ) by {
        assert forall|i: int| 0 <= i < end.len() && 0 <= l < end[i].layers.len() implies !(
        #[trigger] end[i].layers[l]).contains(new_node) by {
            assert(linked[i].layers.len() == end[i].layers.len());
            assert(end[i].layers[l] == linked[i].layers[l]);
            assert(linked[i].layers[l] == g[i].layers[l]);
        }
    }
    assert forall|i: int| 0 <= i < g.len() implies {
        &&& (#[trigger] g[i]).slot == end[i].slot
        &&& g[i].id == end[i].id
        &&& g[i].deleted == end[i].deleted
        &&& g[i].layers.len() == end[i].layers.len()
    } by {
        assert(linked[i].slot == end[i].slot);
        assert(g[i].slot == linked[i].slot);
    }
    if live.len() > 0 {
        assert(in_layer(g, live[0].node_idx as int, level));
    }
}

proof fn connected_layers_sound(
    g: Seq<NodeView>,
    dm: Seq<Seq<u32>>,
    limits: Limits,
    high: int,
    new_node: int,
    current: int,
)
    requires
        graph_sound(g),
        g.len() <= usize::MAX,
        dm[new_node].len() == g.len(),
        high >= 0 ==> in_layer(g, new_node, high) && in_layer(g, current, high),
        forall|l: int| 0 <= l <= high ==> #[trigger] unlinked(g, l, new_node),
    ensures
        graph_sound(connected_layers(g, dm, limits, high, new_node, current)),
        same_nodes(g, connected_layers(g, dm, limits, high, new_node, current)),
    decreases high + 1,
{
    if high >= 0 {
        let max = capacity(limits.m, limits.m_max0, high) as nat;
        assert(unlinked(g, high, new_node));
        connected_sound(g, dm, limits.ef, high, max, new_node, current);
        let mid = connected(g, dm, limits.ef, high, max, new_node, current);
        let next = next_entry(g, dm, limits.ef, high, new_node, current);
        if high > 0 {
            assert(g[new_node].layers.len() == mid[new_node].layers.len());
            assert(g[next].layers.len() == mid[next].layers.len());
            assert(in_layer(mid, new_node, high - 1));
            assert(in_layer(mid, next, high - 1));
        }
        assert forall|l: int| 0 <= l <= high - 1 implies #[trigger] unlinked(mid, l, new_node) by {
            assert(unlinked(g, l, new_node));
        }
        connected_layers_sound(mid, dm, limits, high - 1, new_node, next);
        let end = connected_layers(g, dm, limits, high, new_node, current);
        assert forall|i: int| 0 <= i < g.len() implies {
            &&& (#[trigger] g[i]).slot == end[i].slot
            &&& g[i].id == end[i].id
            &&& g[i].deleted == end[i].deleted
            &&& g[i].layers.len() == end[i].layers.len()
        } by {
            assert(mid[i].slot == end[i].slot);
        }
    }
}

/// Inserting a node keeps the graph sound and its entry point in the highest
/// layer, and changes nothing of the other nodes but their links.
pub proof fn insertion_keeps_graph_sound(
    t: Topology,
    dm: Seq<Seq<u32>>,
    limits: Limits,
    slot: int,
    id: u64,
    level: nat,
)
    requires
        topology_wf(t),
        graph_sound(t.g),
        t.max_level >= 0,
        t.g.len() < usize::MAX,
        dm.len() == t.g.len() + 1,
        dm[t.g.len() as int].len() == t.g.len() + 1,
    ensures
        graph_sound(t.inserted(dm, limits, slot, id, level).g),
        topology_wf(t.inserted(dm, limits, slot, id, level)),
        t.inserted(dm, limits, slot, id, level).max_level >= 0,
        same_nodes(
            t.g.push(fresh_node(slot, id, level)),
            t.inserted(dm, limits, slot, id, level).g,
        ),
{
    let g = t.g.push(fresh_node(slot, id, level));
    let new_node = t.g.len() as int;
    let after = t.inserted(dm, limits, slot, id, level);
    fresh_node_sound(t.g, slot, id, level);
    assert(same_nodes(g, g));
    match t.entry {
        None => {},
        Some(entry) => {
            let high = smaller(level as int, t.max_level);
            let current = descend_layers(
                g,
                dm[new_node],
                false,
                t.max_level,
                level as int + 1,
                entry,
            );
            assert(g[entry] == t.g[entry]);
            descent_stays_in_layers(
                g,
                dm[new_node],
                false,
                t.max_level,
                level as int + 1,
                entry,
            );
            assert(in_layer(g, current, high));
            assert(in_layer(g, new_node, high));
            assert forall|l: int| 0 <= l <= high implies #[trigger] unlinked(g, l, new_node) by {}
            connected_layers_sound(g, dm, limits, high, new_node, current);
            let h = after.g;
            assert forall|i: int| 0 <= i < h.len() implies (#[trigger] h[i]).layers.len()
                <= after.max_level + 1 by {
                assert(g[i].layers.len() == h[i].layers.len());
                if i < t.g.len() {
                    assert(t.g[i].layers.len() <= t.max_level + 1);
                    assert(g[i] == t.g[i]);
                }
            }
            assert(g[entry].layers.len() == h[entry].layers.len());
            assert(g[new_node].layers.len() == h[new_node].layers.len());
        },
    }
}

/// A graph that was built by inserting one node after the other is sound, has
/// one node for each vector, and its entry point is in the highest layer.
pub proof fn built_graph_is_sound<K: Fn(&[u32], &[u32]) -> u32>(
    kernel: K,
    limits: Limits,
    ids: Seq<u64>,
    vectors: Seq<Seq<u32>>,
    levels: Seq<usize>,
    n: nat,
)
    requires
        n <= usize::MAX,
    ensures
        ({
            let t = built(kernel, limits, ids, vectors, levels, n);
            &&& graph_sound(t.g)
            &&& topology_wf(t)
            &&& t.max_level >= 0
            &&& t.g.len() == n
            &&& forall|i: int|
                0 <= i < n ==> {
                    &&& (#[trigger] t.g[i]).slot == i
                    &&& t.g[i].id == ids[i]
                    &&& !t.g[i].deleted
                    &&& t.g[i].layers.len() == levels[i] + 1
                }
        }),
    decreases n,
{
    if n > 0 {
        let m = (n - 1) as nat;
        built_graph_is_sound(kernel, limits, ids, vectors, levels, m);
        let before = built(kernel, limits, ids, vectors, levels, m);
        let node = fresh_node(n - 1, ids[n - 1], levels[n - 1] as nat);
        let g = before.g.push(node);
        let dm = matrix(kernel, g, vectors);
        insertion_keeps_graph_sound(
            before,
            dm,
            limits,
            n - 1,
            ids[n - 1],
            levels[n - 1] as nat,
        );
        let t = built(kernel, limits, ids, vectors, levels, n);
        assert forall|i: int| 0 <= i < n implies {
            &&& (#[trigger] t.g[i]).slot == i
            &&& t.g[i].id == ids[i]
            &&& !t.g[i].deleted
            &&& t.g[i].layers.len() == levels[i] + 1
        } by {
            assert(g[i].slot == t.g[i].slot);
            if i < m {
                assert(g[i] == before.g[i]);
            }
        }
    }
}

} // verus!
