//! Small indexes: where the lowest layer has room for every link, the graph is
//! searched exactly.
use vstd::prelude::*;

use crate::distance::{is_nan32, less32, rank32};
use crate::index::agreement::marked_sound;
use crate::index::beam::{beam_at, beam_invariant, beam_search, beam_search_is_locally_optimal,
    beam_in_range, candidate, descend, descend_layers, descent_ends_at_a_minimum, distances,
    holds_nodes, insert_holds_nodes, inserted_lists, links_in_range, links_of, links_of_range,
    lists_node, no_node_twice, offer, offer_all, offered_keeps_invariant, popped,
    popped_keeps_invariant, round_shrinks, run_beam, scan, visited_bound, Beam};
use crate::index::brute_force::flat_distances;
use crate::index::exact::{all_candidates, all_numbers, nearest, nearest_is_exact};
use crate::index::graph::{capacity, fresh_node, with_neighbors, NodeView};
use crate::index::guarantees::{descent_in_range, filtered_results_are_sound, results_sound,
    search_results_are_sound};
use crate::index::hnsw::{built, filtered_results, larger, results_of, search_results};
use crate::index::link::{connected, connected_layers, layer_candidates, linked_back,
    linked_back_all, live_candidates, matrix, next_entry, select_from, select_neighbors, smaller,
    Limits, Topology};
use crate::index::ranking::{closest, closest_are_first, closest_in_order, first, is_ranked, ranked,
    ranked_insert, ranked_is_a_sort, Candidate};
use crate::index::sieve::{advanced, filtered_search, filtered_search_is_locally_optimal, followed,
    hopeless, next_round, passing, run_sieve, seen_by, sieve_at, sieve_invariant, sift_all,
    surpassed, Sieve};
use crate::index::structure::{built_graph_is_sound, chosen_neighbors_are_distinct, connected_sound,
    descent_stays_in_layers, fresh_node_sound, graph_sound, in_layer, list_sound,
    sound_links_in_range, unlinked};
use crate::metadata::{Filter, Pairs};

verus! {

/// The nodes of a list.
pub open spec fn node_list(s: Seq<Candidate>) -> Seq<int> {
    Seq::new(s.len(), |i: int| s[i].node_idx as int)
}

/// The nodes of a list in which none is twice.
pub proof fn node_list_distinct(s: Seq<Candidate>)
    requires
        no_node_twice(s),
    ensures
        node_list(s).no_duplicates(),
        node_list(s).to_set().len() == s.len(),
        node_list(s).to_set().finite(),
        forall|v: int| #[trigger] node_list(s).to_set().contains(v) <==> lists_node(s, v),
{
    let l = node_list(s);
    assert forall|i: int, j: int| 0 <= i < l.len() && 0 <= j < l.len() && i != j implies l[i]
        != l[j] by {
        if i < j {
            assert(s[i].node_idx != s[j].node_idx);
        } else {
            assert(s[j].node_idx != s[i].node_idx);
        }
    }
    l.unique_seq_to_set();
    vstd::seq_lib::seq_to_set_is_finite(l);
    assert forall|v: int| #[trigger] l.to_set().contains(v) <==> lists_node(s, v) by {
        if l.contains(v) {
            let i = choose|i: int| 0 <= i < l.len() && l[i] == v;
            assert(s[i].node_idx == v);
        }
        if lists_node(s, v) {
            let i = choose|i: int| 0 <= i < s.len() && (#[trigger] s[i]).node_idx == v;
            assert(l[i] == v);
        }
    }
}

/// A list of `n` different nodes out of `n` lists them all.
pub proof fn full_list_has_all(s: Seq<Candidate>, n: nat)
    requires
        no_node_twice(s),
        s.len() >= n,
        forall|i: int| 0 <= i < s.len() ==> (#[trigger] s[i]).node_idx < n,
    ensures
        s.len() == n,
        forall|v: int| 0 <= v < n ==> #[trigger] lists_node(s, v),
{
    node_list_distinct(s);
    let nodes = node_list(s).to_set();
    let all = vstd::set_lib::set_int_range(0, n as int);
    vstd::set_lib::lemma_int_range(0, n as int);
    assert(nodes.subset_of(all)) by {
        assert forall|v: int| nodes.contains(v) implies all.contains(v) by {
            assert(lists_node(s, v));
            let i = choose|i: int| 0 <= i < s.len() && (#[trigger] s[i]).node_idx == v;
            assert(s[i].node_idx < n);
        }
    }
    vstd::set_lib::lemma_len_subset(nodes, all);
    vstd::set_lib::lemma_subset_equality(nodes, all);
    assert forall|v: int| 0 <= v < n implies #[trigger] lists_node(s, v) by {
        assert(all.contains(v));
        assert(nodes.contains(v));
    }
}

/// Of two lists in order, the one that lists all that the other does, or all that
/// is closer than its own last, is at no place farther off.
pub proof fn not_farther(a: Seq<Candidate>, b: Seq<Candidate>, ds: Seq<u32>, i: int)
    requires
        is_ranked(a),
        is_ranked(b),
        holds_nodes(a, ds),
        holds_nodes(b, ds),
        no_node_twice(a),
        no_node_twice(b),
        forall|v: int| #[trigger]
            lists_node(a, v) ==> lists_node(b, v) || rank32(ds[v]) >= b.last().rank(),
        0 <= i < a.len(),
        i < b.len(),
    ensures
        b[i].rank() <= a[i].rank(),
{
    if a[i].rank() < b[i].rank() {
        let x = a.take(i + 1);
        let y = b.take(i);
        assert(no_node_twice(x)) by {
            assert forall|p: int, q: int| 0 <= p < q < x.len() implies (#[trigger] x[p]).node_idx
                != (#[trigger] x[q]).node_idx by {
                assert(a[p].node_idx != a[q].node_idx);
            }
        }
        assert(no_node_twice(y)) by {
            assert forall|p: int, q: int| 0 <= p < q < y.len() implies (#[trigger] y[p]).node_idx
                != (#[trigger] y[q]).node_idx by {
                assert(b[p].node_idx != b[q].node_idx);
            }
        }
        node_list_distinct(x);
        node_list_distinct(y);
        assert forall|v: int| #[trigger] node_list(x).to_set().contains(v) implies node_list(
            y,
        ).to_set().contains(v) by {
            assert(lists_node(x, v));
            let p = choose|p: int| 0 <= p < x.len() && (#[trigger] x[p]).node_idx == v;
            assert(a[p].node_idx == v);
            assert(lists_node(a, v));
            if p < i {
                assert(a[p].rank() <= a[i].rank());
            }
            if i < b.len() - 1 {
                assert(b[i].rank() <= b[b.len() - 1].rank());
            }
            assert(a[p].distance == ds[v]);
            let q = choose|q: int| 0 <= q < b.len() && (#[trigger] b[q]).node_idx == v;
            assert(a[p].distance == b[q].distance);
            if q > i {
                assert(b[i].rank() <= b[q].rank());
            }
            assert(y[q].node_idx == v);
            assert(lists_node(y, v));
        }
        vstd::set_lib::lemma_len_subset(node_list(x).to_set(), node_list(y).to_set());
    }
}

/// Whether a beam does not hold a node.
pub open spec fn avoids(b: Beam, node: int) -> bool {
    !lists_node(b.frontier, node) && !lists_node(b.results, node)
}

proof fn offer_avoids(b: Beam, ds: Seq<u32>, ef: nat, n: int, node: int)
    requires
        avoids(b, node),
        n != node,
        0 <= n < usize::MAX,
        is_ranked(b.frontier),
        is_ranked(b.results),
    ensures
        avoids(offer(b, ds, ef, n), node),
{
    let c = candidate(ds, n);
    let t = offer(b, ds, ef, n);
    inserted_lists(b.frontier, c);
    inserted_lists(b.results, c);
    if lists_node(t.results, node) && t.results != b.results {
        let i = choose|i: int| 0 <= i < t.results.len() && (#[trigger] t.results[i]).node_idx == node;
        let taken = ranked_insert(b.results, c);
        assert(taken[i].node_idx == node);
        assert(lists_node(taken, node));
    }
}

proof fn offered_avoids(
    g: Seq<NodeView>,
    ds: Seq<u32>,
    ef: nat,
    level: int,
    b: Beam,
    list: Seq<int>,
    node: int,
)
    requires
        beam_invariant(g, ds, ef, level, b),
        ds.len() == g.len(),
        g.len() < usize::MAX,
        avoids(b, node),
        forall|i: int| 0 <= i < list.len() ==> 0 <= #[trigger] list[i] < g.len(),
        !list.contains(node),
    ensures
        avoids(offer_all(b, ds, ef, list), node),
    decreases list.len(),
{
    if list.len() > 0 {
        let fewer = list.drop_last();
        assert forall|i: int| 0 <= i < fewer.len() implies 0 <= #[trigger] fewer[i] < g.len() by {
            assert(fewer[i] == list[i]);
        }
        assert(!fewer.contains(node)) by {
            if fewer.contains(node) {
                let i = choose|i: int| 0 <= i < fewer.len() && fewer[i] == node;
                assert(list[i] == node);
            }
        }
        offered_avoids(g, ds, ef, level, b, fewer, node);
        offered_keeps_invariant(g, ds, ef, level, b, fewer);
        assert(list[list.len() - 1] != node);
        assert(0 <= list[list.len() - 1] < g.len());
        offer_avoids(offer_all(b, ds, ef, fewer), ds, ef, list.last(), node);
    }
}

/// A beam search does not come to a node that no link leads to.
pub proof fn run_avoids(g: Seq<NodeView>, ds: Seq<u32>, ef: nat, level: int, b: Beam, node: int)
    requires
        links_in_range(g),
        ds.len() == g.len(),
        g.len() < usize::MAX,
        level >= 0,
        beam_invariant(g, ds, ef, level, b),
        unlinked(g, level, node),
        avoids(b, node),
    ensures
        !lists_node(run_beam(g, ds, ef, level, b), node),
    decreases g.len() - b.visited.len() + b.frontier.len(),
{
    if b.frontier.len() > 0 && !(less32(
        b.results.last().distance,
        b.frontier[0].distance,
    ) && b.results.len() >= ef) {
        let from = b.frontier[0].node_idx as int;
        let list = links_of(g, from, level);
        let p = popped(b);
        let t = offer_all(p, ds, ef, list);
        assert(b.visited.contains(b.frontier[0].node_idx as int));
        links_of_range(g, from, level);
        popped_keeps_invariant(g, ds, ef, level, b);
        assert(!lists_node(p.frontier, node)) by {
            if lists_node(p.frontier, node) {
                let i = choose|i: int|
                    0 <= i < p.frontier.len() && (#[trigger] p.frontier[i]).node_idx == node;
                assert(b.frontier[i + 1].node_idx == node);
            }
        }
        assert(!list.contains(node)) by {
            if level < g[from].layers.len() {
                assert(!g[from].layers[level].contains(node));
            }
        }
        offered_avoids(g, ds, ef, level, p, list, node);
        offered_keeps_invariant(g, ds, ef, level, p, list);
        round_shrinks(g, ds, ef, level, b);
        run_avoids(g, ds, ef, level, t, node);
    }
}

/// The neighbors of a node in the lowest layer.
pub open spec fn base_links(g: Seq<NodeView>, node: int) -> Seq<int> {
    g[node].layers[0]
}

/// Whether every link of the lowest layer has one that leads back.
pub open spec fn symmetric(g: Seq<NodeView>) -> bool {
    forall|a: int, b: int|
        0 <= a < g.len() && 0 <= b < g.len() && #[trigger] base_links(g, a).contains(b)
            ==> base_links(g, b).contains(a)
}

/// Whether a node has an older neighbor in the lowest layer.
pub open spec fn has_older(g: Seq<NodeView>, node: int) -> bool {
    exists|j: int| 0 <= j < node && #[trigger] base_links(g, node).contains(j)
}

/// Whether the lowest layer hangs together: each of the first `n` nodes but the
/// first has an older neighbor, and every link has one that leads back.
pub open spec fn woven(g: Seq<NodeView>, n: int) -> bool {
    &&& symmetric(g)
    &&& forall|i: int| 0 < i < n ==> #[trigger] has_older(g, i)
}

/// Whether two graphs have the same links in the lowest layer.
pub open spec fn same_base(g: Seq<NodeView>, h: Seq<NodeView>) -> bool {
    &&& g.len() == h.len()
    &&& forall|i: int|
        0 <= i < g.len() ==> (#[trigger] g[i]).layers.len() == h[i].layers.len() && base_links(g, i)
            == base_links(h, i) && g[i].deleted == h[i].deleted
}

/// Links above the lowest layer change nothing of the lowest.
pub proof fn upper_links_keep_base(
    g: Seq<NodeView>,
    dm: Seq<Seq<u32>>,
    level: int,
    max: nat,
    new_node: int,
    nodes: Seq<int>,
)
    requires
        level > 0,
        forall|i: int| 0 <= i < nodes.len() ==> 0 <= #[trigger] nodes[i] < g.len(),
    ensures
        same_base(g, linked_back_all(g, dm, level, max, new_node, nodes)),
    decreases nodes.len(),
{
    if nodes.len() > 0 {
        let fewer = nodes.drop_last();
        assert forall|i: int| 0 <= i < fewer.len() implies 0 <= #[trigger] fewer[i] < g.len() by {
            assert(fewer[i] == nodes[i]);
        }
        upper_links_keep_base(g, dm, level, max, new_node, fewer);
        let mid = linked_back_all(g, dm, level, max, new_node, fewer);
        let node = nodes.last();
        assert(0 <= nodes[nodes.len() - 1] < g.len());
        let end = linked_back(mid, dm, level, max, new_node, node);
        assert forall|i: int| 0 <= i < g.len() implies (#[trigger] g[i]).layers.len()
            == end[i].layers.len() && base_links(g, i) == base_links(end, i) && g[i].deleted
            == end[i].deleted by {
            assert(g[i].layers.len() == mid[i].layers.len());
        }
    }
}

/// The candidates of a new node are older nodes, and there is one at least.
proof fn candidates_are_older(
    g: Seq<NodeView>,
    dm: Seq<Seq<u32>>,
    ef: nat,
    level: int,
    current: int,
)
    requires
        graph_sound(g),
        g.len() < usize::MAX,
        g.len() > 0,
        level >= 0,
        dm[g.len() - 1].len() == g.len(),
        0 <= current < g.len() - 1,
        unlinked(g, level, g.len() - 1),
        forall|i: int| 0 <= i < g.len() ==> !(#[trigger] g[i]).deleted,
    ensures
        ({
            let new_node = g.len() - 1;
            let cs = layer_candidates(g, dm, ef, level, new_node, current);
            &&& cs.len() >= 1
            &&& no_node_twice(cs)
            &&& forall|i: int| 0 <= i < cs.len() ==> (#[trigger] cs[i]).node_idx < new_node
        }),
{
    let new_node = g.len() - 1;
    let ds = dm[new_node];
    let found = beam_search(g, ds, ef, level, current);
    sound_links_in_range(g);
    beam_search_is_locally_optimal(g, ds, ef, level, current);
    let b = beam_at(ds, current);
    assert(b.results[0].node_idx == current && b.frontier[0].node_idx == current);
    assert(beam_invariant(g, ds, ef, level, b)) by {
        assert(lists_node(b.results, current));
    }
    run_avoids(g, ds, ef, level, b, new_node);
    assert forall|i: int| 0 <= i < found.len() implies (#[trigger] found[i]).node_idx < new_node by {
        assert(found[i].node_idx < ds.len());
        if found[i].node_idx == new_node {
            assert(lists_node(found, new_node));
        }
    }
    all_stay(g, new_node, found);
}

/// Where no candidate is deleted or the new node, all are kept.
pub proof fn all_stay(g: Seq<NodeView>, new_node: int, found: Seq<Candidate>)
    requires
        forall|i: int|
            0 <= i < found.len() ==> !g[(#[trigger] found[i]).node_idx as int].deleted
                && found[i].node_idx != new_node,
    ensures
        live_candidates(g, new_node, found) == found,
    decreases found.len(),
{
    if found.len() > 0 {
        let fewer = found.drop_last();
        assert forall|i: int| 0 <= i < fewer.len() implies !g[(
        #[trigger] fewer[i]).node_idx as int].deleted && fewer[i].node_idx != new_node by {
            assert(fewer[i] == found[i]);
        }
        all_stay(g, new_node, fewer);
        let last = found.len() - 1;
        assert(!g[found[last].node_idx as int].deleted);
        assert(fewer.push(found.last()) =~= found);
    } else {
        assert(live_candidates(g, new_node, found) =~= found);
    }
}

/// Every candidate is selected or put by, and no more are selected than may be.
pub proof fn selection_counts(dm: Seq<Seq<u32>>, max: nat, cs: Seq<Candidate>)
    ensures
        select_from(dm, max, cs).selected.len() + select_from(dm, max, cs).discarded.len()
            == cs.len(),
        select_from(dm, max, cs).selected.len() <= max,
    decreases cs.len(),
{
    if cs.len() > 0 {
        selection_counts(dm, max, cs.drop_last());
    }
}

/// Links of the lowest layer where every list has room.
pub proof fn base_links_added(
    g: Seq<NodeView>,
    dm: Seq<Seq<u32>>,
    max: nat,
    new_node: int,
    nodes: Seq<int>,
)
    requires
        nodes.no_duplicates(),
        forall|i: int|
            0 <= i < nodes.len() ==> 0 <= #[trigger] nodes[i] < g.len() && g[nodes[i]].layers.len()
                >= 1 && base_links(g, nodes[i]).len() < max,
    ensures
        ({
            let h = linked_back_all(g, dm, 0, max, new_node, nodes);
            &&& h.len() == g.len()
            &&& forall|i: int|
                0 <= i < g.len() ==> (#[trigger] h[i]).layers.len() == g[i].layers.len()
                    && base_links(h, i) == (if nodes.contains(i) {
                    base_links(g, i).push(new_node)
                } else {
                    base_links(g, i)
                })
        }),
    decreases nodes.len(),
{
    if nodes.len() > 0 {
        let fewer = nodes.drop_last();
        let node = nodes.last();
        let last = nodes.len() - 1;
        assert forall|i: int| 0 <= i < fewer.len() implies 0 <= #[trigger] fewer[i] < g.len()
            && g[fewer[i]].layers.len() >= 1 && base_links(g, fewer[i]).len() < max by {
            assert(fewer[i] == nodes[i]);
        }
        base_links_added(g, dm, max, new_node, fewer);
        let mid = linked_back_all(g, dm, 0, max, new_node, fewer);
        let h = linked_back_all(g, dm, 0, max, new_node, nodes);
        assert(0 <= nodes[last] < g.len());
        assert(!fewer.contains(node)) by {
            if fewer.contains(node) {
                let i = choose|i: int| 0 <= i < fewer.len() && fewer[i] == node;
                assert(nodes[i] == nodes[last]);
            }
        }
        assert(mid[node].layers.len() >= 1);
        assert(base_links(mid, node) == base_links(g, node));
        assert forall|i: int| 0 <= i < g.len() implies (#[trigger] h[i]).layers.len()
            == g[i].layers.len() && base_links(h, i) == (if nodes.contains(i) {
            base_links(g, i).push(new_node)
        } else {
            base_links(g, i)
        }) by {
            assert(mid[i].layers.len() == g[i].layers.len());
            if i == node {
                assert(nodes[last] == i);
            } else {
                assert(h[i] == mid[i]);
                assert(nodes.contains(i) <==> fewer.contains(i)) by {
                    if nodes.contains(i) {
                        let j = choose|j: int| 0 <= j < nodes.len() && nodes[j] == i;
                        assert(fewer[j] == i);
                    }
                    if fewer.contains(i) {
                        let j = choose|j: int| 0 <= j < fewer.len() && fewer[j] == i;
                        assert(nodes[j] == i);
                    }
                }
            }
        }
    } else {
        assert forall|i: int| 0 <= i < g.len() implies !nodes.contains(i) by {}
    }
}

/// A node has fewer older neighbors than there are older nodes.
pub proof fn list_is_short(g: Seq<NodeView>, node: int)
    requires
        graph_sound(g),
        g.len() > 0,
        0 <= node < g.len() - 1,
        g[node].layers.len() >= 1,
        unlinked(g, 0, g.len() - 1),
    ensures
        base_links(g, node).len() < g.len() - 1,
{
    let new_node = g.len() - 1;
    let list = g[node].layers[0];
    assert(list_sound(g, node, 0, list));
    assert(!list.contains(new_node));
    let older = vstd::set_lib::set_int_range(0, new_node);
    vstd::set_lib::lemma_int_range(0, new_node);
    let others = older.remove(node);
    list.unique_seq_to_set();
    vstd::seq_lib::seq_to_set_is_finite(list);
    assert(list.to_set().subset_of(others)) by {
        assert forall|v: int| list.to_set().contains(v) implies others.contains(v) by {
            let j = choose|j: int| 0 <= j < list.len() && list[j] == v;
            assert(in_layer(g, list[j], 0) && list[j] != node);
        }
    }
    vstd::set_lib::lemma_len_subset(list.to_set(), others);
}

/// A new node is woven into the lowest layer.
proof fn base_is_woven(
    g: Seq<NodeView>,
    dm: Seq<Seq<u32>>,
    ef: nat,
    max: nat,
    current: int,
)
    requires
        graph_sound(g),
        1 < g.len() < usize::MAX,
        g.len() - 1 <= max,
        dm[g.len() - 1].len() == g.len(),
        0 <= current < g.len() - 1,
        unlinked(g, 0, g.len() - 1),
        base_links(g, g.len() - 1).len() == 0,
        forall|i: int|
            0 <= i < g.len() ==> !(#[trigger] g[i]).deleted && g[i].layers.len() >= 1,
        woven(g, g.len() - 1),
    ensures
        woven(connected(g, dm, ef, 0, max, g.len() - 1, current), g.len() as int),
{
    let new_node = g.len() - 1;
    let cs = layer_candidates(g, dm, ef, 0, new_node, current);
    candidates_are_older(g, dm, ef, 0, current);
    let chosen = select_neighbors(dm, max, cs);
    chosen_neighbors_are_distinct(dm, max, cs);
    selection_counts(dm, max, cs);
    assert(chosen.len() >= 1);
    assert forall|i: int| 0 <= i < chosen.len() implies 0 <= #[trigger] chosen[i] < new_node by {
        assert(lists_node(cs, chosen[i]));
        let j = choose|j: int| 0 <= j < cs.len() && (#[trigger] cs[j]).node_idx == chosen[i];
        assert(cs[j].node_idx < new_node);
    }
    let mid = with_neighbors(g, new_node, 0, chosen);
    assert forall|i: int| 0 <= i < chosen.len() implies 0 <= #[trigger] chosen[i] < mid.len()
        && mid[chosen[i]].layers.len() >= 1 && base_links(mid, chosen[i]).len() < max by {
        list_is_short(g, chosen[i]);
        assert(mid[chosen[i]] == g[chosen[i]]);
    }
    base_links_added(mid, dm, max, new_node, chosen);
    let h = connected(g, dm, ef, 0, max, new_node, current);
    assert(h == linked_back_all(mid, dm, 0, max, new_node, chosen));
    assert(!chosen.contains(new_node)) by {
        if chosen.contains(new_node) {
            let i = choose|i: int| 0 <= i < chosen.len() && chosen[i] == new_node;
            assert(chosen[i] < new_node);
        }
    }
    assert(h[new_node].layers.len() == mid[new_node].layers.len());
    assert(base_links(h, new_node) == chosen);
    assert forall|i: int| 0 <= i < new_node implies base_links(h, i) == (if chosen.contains(i) {
        #[trigger] base_links(g, i).push(new_node)
    } else {
        base_links(g, i)
    }) by {
        assert(mid[i] == g[i]);
        assert(h[i].layers.len() == mid[i].layers.len());
    }
    assert(symmetric(h)) by {
        assert forall|a: int, b: int|
            0 <= a < h.len() && 0 <= b < h.len() && #[trigger] base_links(h, a).contains(
                b,
            ) implies base_links(h, b).contains(a) by {
            woven_pair(g, h, chosen, new_node, a, b);
        }
    }
    assert forall|i: int| 0 < i < g.len() implies #[trigger] has_older(h, i) by {
        if i == new_node {
            assert(0 <= chosen[0] < new_node);
            assert(base_links(h, i).contains(chosen[0]));
        } else {
            assert(has_older(g, i));
            let j = choose|j: int| 0 <= j < i && #[trigger] base_links(g, i).contains(j);
            let p = choose|p: int| 0 <= p < base_links(g, i).len() && base_links(g, i)[p] == j;
            assert(base_links(h, i)[p] == j) by {
                assert(base_links(g, i).push(new_node)[p] == j);
            }
            assert(base_links(h, i).contains(j));
        }
    }
}

/// A link of a new node has one that leads back.
pub proof fn woven_pair(
    g: Seq<NodeView>,
    h: Seq<NodeView>,
    chosen: Seq<int>,
    new_node: int,
    a: int,
    b: int,
)
    requires
        symmetric(g),
        g.len() == h.len(),
        new_node == g.len() - 1,
        unlinked(g, 0, new_node),
        forall|i: int| 0 <= i < g.len() ==> (#[trigger] g[i]).layers.len() >= 1,
        forall|i: int| 0 <= i < chosen.len() ==> 0 <= #[trigger] chosen[i] < new_node,
        base_links(h, new_node) == chosen,
        forall|i: int|
            0 <= i < new_node ==> base_links(h, i) == (if chosen.contains(i) {
                #[trigger] base_links(g, i).push(new_node)
            } else {
                base_links(g, i)
            }),
        0 <= a < h.len(),
        0 <= b < h.len(),
        base_links(h, a).contains(b),
    ensures
        base_links(h, b).contains(a),
{
    let p = choose|p: int| 0 <= p < base_links(h, a).len() && base_links(h, a)[p] == b;
    if a == new_node {
        assert(chosen[p] == b);
        assert(chosen.contains(b));
        let list = base_links(g, b).push(new_node);
        assert(base_links(h, b) == list);
        assert(list[list.len() - 1] == new_node);
    } else {
        let longer = base_links(g, a).push(new_node);
        assert(base_links(h, a) == (if chosen.contains(a) { longer } else { base_links(g, a) }));
        assert(!g[a].layers[0].contains(new_node));
        if b == new_node {
            assert(chosen.contains(a)) by {
                if !chosen.contains(a) {
                    assert(base_links(g, a)[p] == new_node);
                }
            }
        } else {
            assert(p < base_links(g, a).len());
            assert(base_links(g, a)[p] == b);
            assert(base_links(g, a).contains(b));
            assert(base_links(g, b).contains(a));
            let q = choose|q: int| 0 <= q < base_links(g, b).len() && base_links(g, b)[q] == a;
            assert(base_links(g, b).push(new_node)[q] == a);
            assert(base_links(h, b)[q] == a);
        }
    }
}

/// A new node is woven in on its way down through the layers.
proof fn layers_are_woven(
    g: Seq<NodeView>,
    dm: Seq<Seq<u32>>,
    limits: Limits,
    high: int,
    current: int,
)
    requires
        graph_sound(g),
        1 < g.len() < usize::MAX,
        g.len() - 1 <= limits.m_max0,
        dm[g.len() - 1].len() == g.len(),
        high >= 0,
        in_layer(g, g.len() - 1, high),
        in_layer(g, current, high),
        current != g.len() - 1,
        forall|l: int| 0 <= l <= high ==> #[trigger] unlinked(g, l, g.len() - 1),
        base_links(g, g.len() - 1).len() == 0,
        forall|i: int|
            0 <= i < g.len() ==> !(#[trigger] g[i]).deleted && g[i].layers.len() >= 1,
        woven(g, g.len() - 1),
    ensures
        woven(
            connected_layers(g, dm, limits, high, g.len() - 1, current),
            g.len() as int,
        ),
    decreases high,
{
    let new_node = g.len() - 1;
    let max = capacity(limits.m, limits.m_max0, high) as nat;
    let mid = connected(g, dm, limits.ef, high, max, new_node, current);
    let next = next_entry(g, dm, limits.ef, high, new_node, current);
    assert(unlinked(g, high, new_node));
    connected_sound(g, dm, limits.ef, high, max, new_node, current);
    candidates_are_older(g, dm, limits.ef, high, current);
    if high == 0 {
        base_is_woven(g, dm, limits.ef, max, current);
        assert(connected_layers(mid, dm, limits, -1, new_node, next) == mid);
    } else {
        let cs = layer_candidates(g, dm, limits.ef, high, new_node, current);
        let chosen = select_neighbors(dm, max, cs);
        chosen_neighbors_are_distinct(dm, max, cs);
        let start = with_neighbors(g, new_node, high, chosen);
        assert forall|i: int| 0 <= i < chosen.len() implies 0 <= #[trigger] chosen[i]
            < start.len() by {
            assert(lists_node(cs, chosen[i]));
            let j = choose|j: int| 0 <= j < cs.len() && (#[trigger] cs[j]).node_idx == chosen[i];
            assert(cs[j].node_idx < new_node);
        }
        upper_links_keep_base(start, dm, high, max, new_node, chosen);
        assert forall|i: int| 0 <= i < g.len() implies (#[trigger] g[i]).layers.len()
            == mid[i].layers.len() && base_links(g, i) == base_links(mid, i) && g[i].deleted
            == mid[i].deleted by {
            assert(start[i].layers.len() == mid[i].layers.len());
            assert(base_links(g, i) == base_links(start, i));
        }
        assert forall|i: int| 0 <= i < g.len() implies #[trigger] base_links(g, i) == base_links(
            mid,
            i,
        ) by {
            assert(g[i].layers.len() == mid[i].layers.len());
        }
        woven_alike(g, mid, new_node);
        assert forall|l: int| 0 <= l <= high - 1 implies #[trigger] unlinked(mid, l, new_node) by {
            assert(unlinked(g, l, new_node));
        }
        assert(cs[0].node_idx < new_node);
        assert(g[next].layers.len() == mid[next].layers.len());
        assert(g[new_node].layers.len() == mid[new_node].layers.len());
        assert forall|i: int| 0 <= i < mid.len() implies !(#[trigger] mid[i]).deleted
            && mid[i].layers.len() >= 1 by {
            assert(g[i].layers.len() == mid[i].layers.len());
        }
        layers_are_woven(mid, dm, limits, high - 1, next);
    }
}

/// A graph with the same links in the lowest layer hangs together as well.
pub proof fn woven_alike(g: Seq<NodeView>, h: Seq<NodeView>, n: int)
    requires
        woven(g, n),
        g.len() == h.len(),
        forall|i: int| 0 <= i < g.len() ==> #[trigger] base_links(g, i) == base_links(h, i),
        n <= g.len(),
    ensures
        woven(h, n),
{
    assert forall|a: int, b: int|
        0 <= a < h.len() && 0 <= b < h.len() && #[trigger] base_links(h, a).contains(
            b,
        ) implies base_links(h, b).contains(a) by {
        assert(base_links(g, a).contains(b));
    }
    assert forall|i: int| 0 < i < n implies #[trigger] has_older(h, i) by {
        assert(has_older(g, i));
        let j = choose|j: int| 0 <= j < i && #[trigger] base_links(g, i).contains(j);
        assert(base_links(h, i).contains(j));
    }
}

proof fn scan_follows_links(
    g: Seq<NodeView>,
    ds: Seq<u32>,
    skip: bool,
    current: int,
    list: Seq<int>,
)
    ensures
        scan(g, ds, skip, current, list) == current || list.contains(
            scan(g, ds, skip, current, list),
        ),
    decreases list.len(),
{
    if list.len() > 0 {
        let fewer = list.drop_last();
        scan_follows_links(g, ds, skip, current, fewer);
        let best = scan(g, ds, skip, current, fewer);
        assert(list[list.len() - 1] == list.last());
        if fewer.contains(best) {
            let i = choose|i: int| 0 <= i < fewer.len() && fewer[i] == best;
            assert(list[i] == best);
        }
    }
}

proof fn descend_avoids(g: Seq<NodeView>, ds: Seq<u32>, level: int, current: int, node: int)
    requires
        links_in_range(g),
        unlinked(g, level, node),
        0 <= current < g.len(),
        current != node,
    ensures
        descend(g, ds, false, level, current) != node,
    decreases rank32(ds[current]) + 0x8000_0000,
{
    let list = links_of(g, current, level);
    links_of_range(g, current, level);
    scan_follows_links(g, ds, false, current, list);
    let next = scan(g, ds, false, current, list);
    if less32(ds[next], ds[current]) {
        let i = choose|i: int| 0 <= i < list.len() && list[i] == next;
        assert(0 <= list[i] < g.len());
        if next == node {
            assert(g[current].layers[level].contains(node));
        }
        descend_avoids(g, ds, level, next, node);
    }
}

/// Greedy descent does not come to a node that no link leads to.
pub proof fn descent_avoids(
    g: Seq<NodeView>,
    ds: Seq<u32>,
    high: int,
    low: int,
    current: int,
    node: int,
)
    requires
        links_in_range(g),
        forall|l: int| #[trigger] unlinked(g, l, node),
        0 <= current < g.len(),
        current != node,
    ensures
        descend_layers(g, ds, false, high, low, current) != node,
    decreases high - low + 1,
{
    if high >= low {
        assert(unlinked(g, high, node));
        descend_avoids(g, ds, high, current, node);
        descent_ends_at_a_minimum(g, ds, false, high, current);
        descent_avoids(
            g,
            ds,
            high - 1,
            low,
            descend(g, ds, false, high, current),
            node,
        );
    }
}

/// A graph with room for every link of the lowest layer (up to `m_max0 + 1`
/// vectors) hangs together there.
pub proof fn small_graph_is_woven<K: Fn(&[u32], &[u32]) -> u32>(
    kernel: K,
    limits: Limits,
    ids: Seq<u64>,
    vectors: Seq<Seq<u32>>,
    levels: Seq<usize>,
    n: nat,
)
    requires
        n < usize::MAX,
        n <= limits.m_max0 + 1,
    ensures
        woven(built(kernel, limits, ids, vectors, levels, n).g, n as int),
    decreases n,
{
    built_graph_is_sound(kernel, limits, ids, vectors, levels, n);
    let t = built(kernel, limits, ids, vectors, levels, n);
    if n > 0 {
        let m = (n - 1) as nat;
        small_graph_is_woven(kernel, limits, ids, vectors, levels, m);
        built_graph_is_sound(kernel, limits, ids, vectors, levels, m);
        let before = built(kernel, limits, ids, vectors, levels, m);
        let level = levels[n - 1] as nat;
        let node = fresh_node(n - 1, ids[n - 1], level);
        let g = before.g.push(node);
        let dm = matrix(kernel, g, vectors);
        fresh_node_sound(before.g, n - 1, ids[n - 1], level);
        assert forall|i: int| 0 <= i < m implies base_links(g, i) == base_links(before.g, i) by {
            assert(g[i] == before.g[i]);
        }
        assert(base_links(g, m as int) =~= Seq::<int>::empty());
        assert(woven(g, m as int)) by {
            assert forall|a: int, b: int|
                0 <= a < g.len() && 0 <= b < g.len() && #[trigger] base_links(g, a).contains(
                    b,
                ) implies base_links(g, b).contains(a) by {
                if a < m {
                    assert(before.g[a].layers.len() >= 1);
                    assert(unlinked(g, 0, m as int));
                    assert(g[a].layers.len() >= 1);
                    assert(!g[a].layers[0].contains(m as int));
                    assert(base_links(before.g, a).contains(b));
                }
            }
            assert forall|i: int| 0 < i < m implies #[trigger] has_older(g, i) by {
                assert(has_older(before.g, i));
                let j = choose|j: int| 0 <= j < i && #[trigger] base_links(before.g, i).contains(j);
                assert(base_links(g, i).contains(j));
            }
        }
        match before.entry {
            None => {
                assert(t.g == g);
            },
            Some(entry) => {
                let high = smaller(level as int, before.max_level);
                let current = descend_layers(
                    g,
                    dm[m as int],
                    false,
                    before.max_level,
                    level as int + 1,
                    entry,
                );
                assert(g[entry] == before.g[entry]);
                descent_stays_in_layers(
                    g,
                    dm[m as int],
                    false,
                    before.max_level,
                    level as int + 1,
                    entry,
                );
                sound_links_in_range(g);
                descent_avoids(
                    g,
                    dm[m as int],
                    before.max_level,
                    level as int + 1,
                    entry,
                    m as int,
                );
                assert forall|i: int| 0 <= i < g.len() implies !(#[trigger] g[i]).deleted
                    && g[i].layers.len() >= 1 by {
                    if i < m {
                        assert(g[i] == before.g[i]);
                    }
                }
                assert forall|l: int| 0 <= l <= high implies #[trigger] unlinked(
                    g,
                    l,
                    m as int,
                ) by {}
                layers_are_woven(g, dm, limits, high, current);
                assert(t.g == connected_layers(g, dm, limits, high, m as int, current));
            },
        }
    }
}

/// Whether a list is closed under the links of the lowest layer.
spec fn closed(g: Seq<NodeView>, found: Seq<Candidate>) -> bool {
    forall|a: int, b: int|
        0 <= a < g.len() && lists_node(found, a) && #[trigger] base_links(g, a).contains(b)
            ==> lists_node(found, b)
}

proof fn first_node_listed(g: Seq<NodeView>, found: Seq<Candidate>, node: int)
    requires
        woven(g, g.len() as int),
        closed(g, found),
        0 <= node < g.len(),
        lists_node(found, node),
    ensures
        lists_node(found, 0),
    decreases node,
{
    if node > 0 {
        assert(has_older(g, node));
        let j = choose|j: int| 0 <= j < node && #[trigger] base_links(g, node).contains(j);
        first_node_listed(g, found, j);
    }
}

proof fn every_node_listed(g: Seq<NodeView>, found: Seq<Candidate>, node: int)
    requires
        woven(g, g.len() as int),
        closed(g, found),
        lists_node(found, 0),
        0 <= node < g.len(),
    ensures
        lists_node(found, node),
    decreases node,
{
    if node > 0 {
        assert(has_older(g, node));
        let j = choose|j: int| 0 <= j < node && #[trigger] base_links(g, node).contains(j);
        every_node_listed(g, found, j);
        assert(base_links(g, j).contains(node));
    }
}

/// A beam that can hold all nodes of a graph that hangs together finds them all.
pub proof fn wide_beam_finds_all(g: Seq<NodeView>, ds: Seq<u32>, ef: nat, start: int)
    requires
        graph_sound(g),
        woven(g, g.len() as int),
        g.len() <= usize::MAX,
        ds.len() == g.len(),
        0 <= start < g.len(),
        g.len() <= ef,
        forall|i: int| 0 <= i < g.len() ==> (#[trigger] g[i]).layers.len() >= 1,
    ensures
        ({
            let found = beam_search(g, ds, ef, 0, start);
            &&& is_ranked(found)
            &&& holds_nodes(found, ds)
            &&& no_node_twice(found)
            &&& found.len() == g.len()
            &&& forall|v: int| 0 <= v < g.len() ==> #[trigger] lists_node(found, v)
        }),
{
    let found = beam_search(g, ds, ef, 0, start);
    sound_links_in_range(g);
    beam_search_is_locally_optimal(g, ds, ef, 0, start);
    let n = g.len();
    if found.len() < ef {
        assert(closed(g, found)) by {
            assert forall|a: int, b: int|
                0 <= a < g.len() && lists_node(found, a) && #[trigger] base_links(g, a).contains(
                    b,
                ) implies lists_node(found, b) by {
                let i = choose|i: int| 0 <= i < found.len() && (#[trigger] found[i]).node_idx == a;
                let list = links_of(g, a, 0);
                assert(g[a].layers.len() >= 1);
                let j = choose|j: int| 0 <= j < list.len() && list[j] == b;
                assert(links_of(g, found[i].node_idx as int, 0)[j] == b);
            }
        }
        first_node_listed(g, found, start);
        assert forall|v: int| 0 <= v < n implies #[trigger] lists_node(found, v) by {
            every_node_listed(g, found, v);
        }
        all_listed_is_full(found, n);
    } else {
        full_list_has_all(found, n);
    }
}

/// A list of different nodes that lists all of them is as long as they are many.
pub proof fn all_listed_is_full(s: Seq<Candidate>, n: nat)
    requires
        no_node_twice(s),
        forall|i: int| 0 <= i < s.len() ==> (#[trigger] s[i]).node_idx < n,
        forall|v: int| 0 <= v < n ==> #[trigger] lists_node(s, v),
    ensures
        s.len() == n,
{
    node_list_distinct(s);
    let nodes = node_list(s).to_set();
    let all = vstd::set_lib::set_int_range(0, n as int);
    vstd::set_lib::lemma_int_range(0, n as int);
    assert(nodes =~= all) by {
        assert forall|v: int| nodes.contains(v) <==> all.contains(v) by {
            if nodes.contains(v) {
                assert(lists_node(s, v));
                let i = choose|i: int| 0 <= i < s.len() && (#[trigger] s[i]).node_idx == v;
                assert(s[i].node_idx < n);
            }
            if all.contains(v) {
                assert(lists_node(s, v));
            }
        }
    }
}

/// Two lists in order of the same nodes have the same distances, place by place.
proof fn same_ranks(a: Seq<Candidate>, ds: Seq<u32>, k: nat, i: int)
    requires
        ds.len() <= usize::MAX,
        all_numbers(ds),
        is_ranked(a),
        holds_nodes(a, ds),
        no_node_twice(a),
        a.len() == ds.len(),
        forall|v: int| 0 <= v < ds.len() ==> #[trigger] lists_node(a, v),
        0 <= i < nearest(ds, k).len(),
    ensures
        i < a.len(),
        a[i].rank() == nearest(ds, k)[i].rank(),
{
    let n = ds.len();
    nearest_is_exact(ds, k);
    nearest_is_exact(ds, n);
    let b = nearest(ds, n);
    let all = all_candidates(ds);
    ranked_is_a_sort(all);
    assert(b == ranked(all));
    assert(nearest(ds, k)[i] == b[i]);
    assert(no_node_twice(b));
    full_list_has_all(b, n);
    assert forall|v: int| #[trigger] lists_node(a, v) implies lists_node(b, v) by {
        let p = choose|p: int| 0 <= p < a.len() && (#[trigger] a[p]).node_idx == v;
        assert(a[p].node_idx < n);
    }
    assert forall|v: int| #[trigger] lists_node(b, v) implies lists_node(a, v) by {
        let p = choose|p: int| 0 <= p < b.len() && (#[trigger] b[p]).node_idx == v;
        assert(b[p].node_idx < n);
    }
    not_farther(a, b, ds, i);
    not_farther(b, a, ds, i);
}

/// A small index is searched exactly: where the lowest layer has room for every
/// link (up to `m_max0 + 1` vectors), no vector is deleted, and the beam can hold
/// all of them, a search returns as many vectors as there can be, and at each
/// place the distance is that of an exact search.
pub proof fn small_index_is_exact<K: Fn(&[u32], &[u32]) -> u32>(
    kernel: K,
    limits: Limits,
    ids: Seq<u64>,
    vectors: Seq<Seq<u32>>,
    levels: Seq<usize>,
    query: Seq<u32>,
    k: nat,
    ef_search: nat,
)
    requires
        1 <= vectors.len() < usize::MAX,
        vectors.len() <= limits.m_max0 + 1,
        vectors.len() <= ef_search,
        all_numbers(flat_distances(kernel, query, vectors)),
    ensures
        ({
            let t = built(kernel, limits, ids, vectors, levels, vectors.len());
            let ds = distances(kernel, query, t.g, vectors);
            let r = search_results(t, ds, k, ef_search);
            let exact = nearest(flat_distances(kernel, query, vectors), k);
            &&& t.entry is Some
            &&& r.len() == exact.len()
            &&& r.len() == (if vectors.len() <= k { vectors.len() } else { k })
            &&& results_sound(t.g, ds, r)
            &&& forall|i: int|
                0 <= i < r.len() ==> rank32((#[trigger] r[i]).distance) == rank32(
                    exact[i].distance,
                )
        }),
{
    let n = vectors.len();
    let t = built(kernel, limits, ids, vectors, levels, n);
    let ds = distances(kernel, query, t.g, vectors);
    built_graph_is_sound(kernel, limits, ids, vectors, levels, n);
    small_graph_is_woven(kernel, limits, ids, vectors, levels, n);
    assert(ds =~= flat_distances(kernel, query, vectors)) by {
        assert forall|i: int| 0 <= i < n implies #[trigger] ds[i] == flat_distances(
            kernel,
            query,
            vectors,
        )[i] by {
            assert(t.g[i].slot == i);
        }
    }
    let ef = larger(ef_search, k);
    let start = descend_layers(t.g, ds, true, t.max_level, 1, t.entry->0);
    sound_links_in_range(t.g);
    descent_in_range(t.g, ds, true, t.max_level, 1, t.entry->0);
    wide_beam_finds_all(t.g, ds, ef, start);
    let found = beam_search(t.g, ds, ef, 0, start);
    assert forall|i: int| 0 <= i < found.len() implies !t.g[(
    #[trigger] found[i]).node_idx as int].deleted && found[i].node_idx != -1 by {
        assert(found[i].node_idx < n);
        assert(t.g[found[i].node_idx as int].slot == found[i].node_idx);
    }
    all_stay(t.g, -1, found);
    search_results_are_sound(t, ds, k, ef_search);
    nearest_is_exact(ds, k);
    let r = search_results(t, ds, k, ef_search);
    assert(r == results_of(t.g, first(found, k)));
    assert forall|i: int| 0 <= i < r.len() implies rank32((#[trigger] r[i]).distance) == rank32(
        nearest(ds, k)[i].distance,
    ) by {
        same_ranks(found, ds, k, i);
        assert(first(found, k)[i] == found[i]);
    }
}

/// Whether two graphs differ in their tombstones alone.
pub open spec fn marked_alike(g: Seq<NodeView>, h: Seq<NodeView>) -> bool {
    &&& g.len() == h.len()
    &&& forall|i: int|
        0 <= i < g.len() ==> #[trigger] h[i] == (NodeView { deleted: h[i].deleted, ..g[i] })
}

/// The first `n` nodes that pass, with their distances.
pub open spec fn passing_candidates(ds: Seq<u32>, keep: Seq<bool>, n: nat) -> Seq<Candidate>
    decreases n,
{
    if n == 0 {
        Seq::empty()
    } else if keep[n - 1] {
        passing_candidates(ds, keep, (n - 1) as nat).push(candidate(ds, n - 1))
    } else {
        passing_candidates(ds, keep, (n - 1) as nat)
    }
}

/// The `k` nearest of the nodes that pass, by comparing all of them.
pub open spec fn nearest_passing(ds: Seq<u32>, keep: Seq<bool>, k: nat) -> Seq<Candidate> {
    closest(passing_candidates(ds, keep, ds.len()), k)
}

/// The nodes that pass, each once with its distance.
pub proof fn passing_listed(ds: Seq<u32>, keep: Seq<bool>, n: nat)
    requires
        n <= ds.len() <= usize::MAX,
        ds.len() == keep.len(),
    ensures
        ({
            let cs = passing_candidates(ds, keep, n);
            &&& holds_nodes(cs, ds)
            &&& no_node_twice(cs)
            &&& forall|i: int| 0 <= i < cs.len() ==> (#[trigger] cs[i]).node_idx < n
            &&& forall|v: int| #[trigger] lists_node(cs, v) <==> 0 <= v < n && keep[v]
        }),
    decreases n,
{
    let cs = passing_candidates(ds, keep, n);
    if n > 0 {
        let m = (n - 1) as nat;
        passing_listed(ds, keep, m);
        let fewer = passing_candidates(ds, keep, m);
        assert forall|v: int| #[trigger] lists_node(cs, v) <==> 0 <= v < n && keep[v] by {
            if lists_node(cs, v) {
                let i = choose|i: int| 0 <= i < cs.len() && (#[trigger] cs[i]).node_idx == v;
                if i < fewer.len() {
                    assert(fewer[i].node_idx == v);
                    assert(lists_node(fewer, v));
                }
            }
            if 0 <= v < n && keep[v] {
                if v == m {
                    assert(cs[fewer.len() as int].node_idx == v);
                } else {
                    assert(lists_node(fewer, v));
                    let i = choose|i: int|
                        0 <= i < fewer.len() && (#[trigger] fewer[i]).node_idx == v;
                    assert(cs[i].node_idx == v);
                }
            }
        }
        assert forall|i: int, j: int| 0 <= i < j < cs.len() implies (#[trigger] cs[i]).node_idx != (
        #[trigger] cs[j]).node_idx by {
            assert(cs[i] == fewer[i]);
            assert(fewer[i].node_idx < m);
            if j < fewer.len() {
                assert(fewer[i].node_idx != fewer[j].node_idx);
            }
        }
    }
}

/// Ranking keeps every node of a list, each with its distance.
proof fn ranked_lists_alike(s: Seq<Candidate>, ds: Seq<u32>)
    requires
        holds_nodes(s, ds),
        no_node_twice(s),
        ds.len() <= usize::MAX,
    ensures
        is_ranked(ranked(s)),
        ranked(s).len() == s.len(),
        holds_nodes(ranked(s), ds),
        no_node_twice(ranked(s)),
        forall|v: int| #[trigger] lists_node(ranked(s), v) <==> lists_node(s, v),
    decreases s.len(),
{
    ranked_is_a_sort(s);
    if s.len() > 0 {
        let t = s.drop_last();
        let last = s.len() - 1;
        let c = s.last();
        assert forall|i: int| 0 <= i < t.len() implies (#[trigger] t[i]).node_idx < ds.len()
            && t[i].distance == ds[t[i].node_idx as int] by {
            assert(t[i] == s[i]);
        }
        assert forall|i: int, j: int| 0 <= i < j < t.len() implies (#[trigger] t[i]).node_idx != (
        #[trigger] t[j]).node_idx by {
            assert(s[i].node_idx != s[j].node_idx);
        }
        ranked_lists_alike(t, ds);
        assert(s[last].node_idx < ds.len() && s[last].distance == ds[s[last].node_idx as int]);
        assert(c == candidate(ds, c.node_idx as int));
        assert(!lists_node(t, c.node_idx as int)) by {
            if lists_node(t, c.node_idx as int) {
                let i = choose|i: int| 0 <= i < t.len() && (#[trigger] t[i]).node_idx == c.node_idx;
                assert(s[i].node_idx != s[last].node_idx);
            }
        }
        inserted_lists(ranked(t), c);
        insert_holds_nodes(ranked(t), ds, c.node_idx as int);
        assert forall|v: int| #[trigger] lists_node(ranked(s), v) <==> lists_node(s, v) by {
            assert(lists_node(ranked(t), v) <==> lists_node(t, v));
            if lists_node(s, v) {
                let i = choose|i: int| 0 <= i < s.len() && (#[trigger] s[i]).node_idx == v;
                if i < last {
                    assert(t[i].node_idx == v);
                    assert(lists_node(t, v));
                }
            }
            if lists_node(t, v) {
                let i = choose|i: int| 0 <= i < t.len() && (#[trigger] t[i]).node_idx == v;
                assert(s[i].node_idx == v);
            }
            if lists_node(ranked(s), v) && v == c.node_idx {
                assert(s[last].node_idx == v);
            }
        }
    }
}

/// Whether every node that was seen waits to be gone on from, or has been.
pub open spec fn none_passed_over(g: Seq<NodeView>, s: Sieve) -> bool {
    forall|v: int| #[trigger]
        s.visited.contains(v) ==> lists_node(s.frontier, v) || followed(g, s, v)
}

proof fn first_node_seen(g: Seq<NodeView>, s: Sieve, node: int)
    requires
        woven(g, g.len() as int),
        forall|v: int| #[trigger] s.visited.contains(v) ==> followed(g, s, v),
        forall|i: int| 0 <= i < g.len() ==> (#[trigger] g[i]).layers.len() >= 1,
        0 <= node < g.len(),
        s.visited.contains(node),
    ensures
        s.visited.contains(0),
    decreases node,
{
    if node > 0 {
        assert(has_older(g, node));
        let j = choose|j: int| 0 <= j < node && #[trigger] base_links(g, node).contains(j);
        linked_node_seen(g, s, node, j);
        first_node_seen(g, s, j);
    }
}

proof fn linked_node_seen(g: Seq<NodeView>, s: Sieve, a: int, b: int)
    requires
        followed(g, s, a),
        0 <= a < g.len(),
        g[a].layers.len() >= 1,
        base_links(g, a).contains(b),
    ensures
        s.visited.contains(b),
{
    let list = links_of(g, a, 0);
    let i = choose|i: int| 0 <= i < list.len() && list[i] == b;
    assert(s.visited.contains(links_of(g, a, 0)[i]));
}

proof fn every_node_seen(g: Seq<NodeView>, s: Sieve, node: int)
    requires
        woven(g, g.len() as int),
        forall|v: int| #[trigger] s.visited.contains(v) ==> followed(g, s, v),
        forall|i: int| 0 <= i < g.len() ==> (#[trigger] g[i]).layers.len() >= 1,
        s.visited.contains(0),
        0 <= node < g.len(),
    ensures
        s.visited.contains(node),
    decreases node,
{
    if node > 0 {
        assert(has_older(g, node));
        let j = choose|j: int| 0 <= j < node && #[trigger] base_links(g, node).contains(j);
        every_node_seen(g, s, j);
        assert(base_links(g, j).contains(node));
        assert(g[j].layers.len() >= 1);
        linked_node_seen(g, s, j, node);
    }
}

/// A search that has seen as many nodes as there are has seen each.
proof fn all_are_seen(g: Seq<NodeView>, s: Sieve)
    requires
        beam_in_range(g, seen_by(s)),
        s.visited.len() >= g.len(),
    ensures
        s.visited.len() == g.len(),
        forall|v: int| 0 <= v < g.len() ==> #[trigger] s.visited.contains(v),
{
    let all = vstd::set_lib::set_int_range(0, g.len() as int);
    vstd::set_lib::lemma_int_range(0, g.len() as int);
    assert(seen_by(s).visited == s.visited);
    assert(s.visited.subset_of(all)) by {
        assert forall|v: int| s.visited.contains(v) implies all.contains(v) by {
            assert(seen_by(s).visited.contains(v));
        }
    }
    vstd::set_lib::lemma_len_subset(s.visited, all);
    vstd::set_lib::lemma_subset_equality(s.visited, all);
    assert forall|v: int| 0 <= v < g.len() implies #[trigger] s.visited.contains(v) by {
        assert(all.contains(v));
    }
}

/// Whether a node is listed, or `k` nodes are of which none is farther.
pub open spec fn listed_or_surpassed(ds: Seq<u32>, found: Seq<Candidate>, k: nat, node: int) -> bool {
    lists_node(found, node) || (found.len() >= k && found.len() > 0 && rank32(ds[node])
        >= found.last().rank())
}

/// A filtered search that may go on from every node of a graph that hangs
/// together leaves out no node that passes and is closer than those it finds.
pub proof fn wide_sieve_sees_all(
    g: Seq<NodeView>,
    ds: Seq<u32>,
    keep: Seq<bool>,
    k: nat,
    ef: nat,
    s: Sieve,
    start: int,
)
    requires
        links_in_range(g),
        woven(g, g.len() as int),
        forall|i: int| 0 <= i < g.len() ==> (#[trigger] g[i]).layers.len() >= 1,
        ds.len() == g.len(),
        keep.len() == g.len(),
        g.len() <= usize::MAX,
        g.len() <= ef,
        k > 0,
        sieve_invariant(g, ds, keep, k, s),
        s.expanded + s.frontier.len() <= s.visited.len(),
        none_passed_over(g, s),
        0 <= start < g.len(),
        s.visited.contains(start),
    ensures
        forall|v: int|
            0 <= v < g.len() && keep[v] ==> #[trigger] listed_or_surpassed(
                ds,
                run_sieve(g, ds, keep, k, ef, s),
                k,
                v,
            ),
    decreases g.len() - s.visited.len() + s.frontier.len(),
{
    visited_bound(g, seen_by(s));
    if s.frontier.len() == 0 {
        let found = s.kept;
        assert(run_sieve(g, ds, keep, k, ef, s) == found);
        assert forall|v: int| #[trigger] s.visited.contains(v) implies followed(g, s, v) by {
            assert(!lists_node(s.frontier, v));
        }
        first_node_seen(g, s, start);
        assert forall|v: int| 0 <= v < g.len() && keep[v] implies #[trigger] listed_or_surpassed(
            ds,
            found,
            k,
            v,
        ) by {
            every_node_seen(g, s, v);
            assert(lists_node(s.kept, v) || surpassed(s, ds, k, v));
        }
    } else {
        let node = s.frontier[0].node_idx as int;
        let t = sift_all(advanced(s), ds, keep, k, ef, links_of(g, node, 0));
        assert(!hopeless(s, k, ef, s.frontier[0].rank()));
        next_round(g, ds, keep, k, ef, s);
        assert(none_passed_over(g, t)) by {
            assert forall|v: int| #[trigger] t.visited.contains(v) implies lists_node(t.frontier, v)
                || followed(g, t, v) by {
                if s.visited.contains(v) {
                    if v != node && !lists_node(s.frontier, v) {
                        assert(followed(g, s, v));
                        assert forall|i: int|
                            0 <= i < links_of(g, v, 0).len() implies t.visited.contains(
                            #[trigger] links_of(g, v, 0)[i],
                        ) by {
                            assert(s.visited.contains(links_of(g, v, 0)[i]));
                        }
                    }
                } else if !lists_node(t.frontier, v) {
                    assert(t.expanded >= ef);
                    assert(s.visited.len() >= g.len());
                    all_are_seen(g, s);
                    assert(seen_by(t).visited.contains(v));
                    assert(s.visited.contains(v));
                }
            }
        }
        wide_sieve_sees_all(g, ds, keep, k, ef, t, start);
    }
}

/// A list of nodes that pass, in order, that leaves out none that is closer, has
/// the distances of the nearest that pass.
pub proof fn found_are_nearest(ds: Seq<u32>, keep: Seq<bool>, k: nat, found: Seq<Candidate>)
    requires
        ds.len() <= usize::MAX,
        ds.len() == keep.len(),
        all_numbers(ds),
        k > 0,
        found.len() <= k,
        is_ranked(found),
        holds_nodes(found, ds),
        no_node_twice(found),
        forall|i: int| 0 <= i < found.len() ==> keep[(#[trigger] found[i]).node_idx as int],
        forall|v: int|
            0 <= v < ds.len() && keep[v] ==> #[trigger] listed_or_surpassed(ds, found, k, v),
    ensures
        ({
            let exact = nearest_passing(ds, keep, k);
            let n = passing_candidates(ds, keep, ds.len()).len();
            &&& found.len() == exact.len()
            &&& found.len() == (if n <= k { n } else { k })
            &&& forall|i: int|
                0 <= i < found.len() ==> (#[trigger] found[i]).rank() == exact[i].rank()
        }),
{
    let cs = passing_candidates(ds, keep, ds.len());
    let exact = nearest_passing(ds, keep, k);
    passing_listed(ds, keep, ds.len());
    assert forall|i: int| 0 <= i < cs.len() implies !is_nan32((#[trigger] cs[i]).distance) by {
        assert(cs[i].distance == ds[cs[i].node_idx as int]);
    }
    closest_are_first(cs, k);
    ranked_lists_alike(cs, ds);
    let b = ranked(cs);
    assert forall|v: int| #[trigger] lists_node(found, v) implies lists_node(b, v) by {
        let i = choose|i: int| 0 <= i < found.len() && (#[trigger] found[i]).node_idx == v;
        assert(found[i].node_idx < ds.len() && keep[found[i].node_idx as int]);
        assert(lists_node(cs, v));
    }
    assert forall|v: int| #[trigger] lists_node(b, v) implies lists_node(found, v) || (
    found.len() >= k && rank32(ds[v]) >= found.last().rank()) by {
        assert(lists_node(cs, v));
        assert(listed_or_surpassed(ds, found, k, v));
    }
    node_list_distinct(found);
    node_list_distinct(b);
    let x = node_list(found).to_set();
    let y = node_list(b).to_set();
    assert(x.subset_of(y)) by {
        assert forall|v: int| x.contains(v) implies y.contains(v) by {
            assert(lists_node(found, v));
        }
    }
    vstd::set_lib::lemma_len_subset(x, y);
    if found.len() < k {
        assert(y.subset_of(x)) by {
            assert forall|v: int| y.contains(v) implies x.contains(v) by {
                assert(lists_node(b, v));
            }
        }
        vstd::set_lib::lemma_len_subset(y, x);
    }
    assert forall|i: int| 0 <= i < found.len() implies (#[trigger] found[i]).rank()
        == exact[i].rank() by {
        assert(exact[i] == b[i]);
        not_farther(found, b, ds, i);
        not_farther(b, found, ds, i);
    }
}

/// A small index is searched exactly under a filter too, also where vectors are
/// deleted: where the lowest layer has room for every link (up to `m_max0 + 1`
/// vectors) and the beam can hold all vectors, a filtered search returns `k` of
/// the live vectors that pass, or all of them where they are fewer, and at each
/// place the distance is that of an exact search over them.
pub proof fn small_index_is_filtered_exactly<K: Fn(&[u32], &[u32]) -> u32>(
    kernel: K,
    limits: Limits,
    ids: Seq<u64>,
    vectors: Seq<Seq<u32>>,
    levels: Seq<usize>,
    t: Topology,
    metadata: Seq<Option<Pairs>>,
    filter: Filter,
    query: Seq<u32>,
    k: nat,
    ef_search: nat,
)
    requires
        1 <= vectors.len() < usize::MAX,
        vectors.len() <= limits.m_max0 + 1,
        vectors.len() <= ef_search,
        all_numbers(flat_distances(kernel, query, vectors)),
        ({
            let b = built(kernel, limits, ids, vectors, levels, vectors.len());
            &&& marked_alike(b.g, t.g)
            &&& t == (Topology { g: t.g, ..b })
        }),
    ensures
        ({
            let ds = distances(kernel, query, t.g, vectors);
            let keep = passing(t.g, metadata, filter);
            let r = filtered_results(t, ds, keep, k, ef_search);
            let exact = nearest_passing(flat_distances(kernel, query, vectors), keep, k);
            let n = passing_candidates(ds, keep, vectors.len()).len();
            &&& t.entry is Some
            &&& r.len() == exact.len()
            &&& r.len() == (if n <= k { n } else { k })
            &&& results_sound(t.g, ds, r)
            &&& forall|i: int| 0 <= i < r.len() ==> keep[(#[trigger] r[i]).slot as int]
            &&& forall|i: int|
                0 <= i < r.len() ==> rank32((#[trigger] r[i]).distance) == rank32(
                    exact[i].distance,
                )
        }),
{
    let n = vectors.len();
    let b = built(kernel, limits, ids, vectors, levels, n);
    let g = t.g;
    let ds = distances(kernel, query, g, vectors);
    let keep = passing(g, metadata, filter);
    built_graph_is_sound(kernel, limits, ids, vectors, levels, n);
    small_graph_is_woven(kernel, limits, ids, vectors, levels, n);
    assert forall|i: int| 0 <= i < n implies (#[trigger] g[i]).layers == b.g[i].layers && g[i].slot
        == i by {
        assert(b.g[i].slot == i);
    }
    marked_sound(b, g);
    assert forall|i: int| 0 <= i < n implies #[trigger] base_links(b.g, i) == base_links(g, i) by {
        assert(g[i].layers == b.g[i].layers);
    }
    woven_alike(b.g, g, n as int);
    assert(ds =~= flat_distances(kernel, query, vectors)) by {
        assert forall|i: int| 0 <= i < n implies #[trigger] ds[i] == flat_distances(
            kernel,
            query,
            vectors,
        )[i] by {
            assert(g[i].slot == i);
        }
    }
    let ef = larger(ef_search, k);
    let start = descend_layers(g, ds, true, t.max_level, 1, t.entry->0);
    sound_links_in_range(g);
    descent_in_range(g, ds, true, t.max_level, 1, t.entry->0);
    filtered_results_are_sound(t, ds, keep, k, ef_search, seq![start]);
    let r = filtered_results(t, ds, keep, k, ef_search);
    if k == 0 {
        closest_in_order(passing_candidates(ds, keep, n), 0);
    } else {
        let found = filtered_search(g, ds, keep, k, ef, start);
        filtered_search_is_locally_optimal(g, ds, keep, k, ef, start, seq![start]);
        assert forall|i: int| 0 <= i < n implies (#[trigger] g[i]).layers.len() >= 1 by {
            assert(b.g[i].layers.len() == levels[i] + 1);
        }
        let s = sieve_at(ds, keep, start);
        assert(s.frontier[0].node_idx == start);
        assert(lists_node(s.frontier, start));
        if keep[start] {
            assert(s.kept[0].node_idx == start);
            assert(lists_node(s.kept, start));
        }
        wide_sieve_sees_all(g, ds, keep, k, ef, s, start);
        found_are_nearest(ds, keep, k, found);
        assert(r == results_of(g, found));
    }
}

} // verus!
