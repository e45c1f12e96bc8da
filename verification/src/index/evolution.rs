//! What an index goes through from its creation on, and what a search finds of it
//! at any time.
use vstd::prelude::*;

use crate::distance::{rank32, Metric};
use crate::index::agreement::{agrees, compaction_stays_in_step, created_index_is_in_step,
    deletion_stays_in_step, in_step, insertion_stays_in_step, live_count};
use crate::index::beam::{beam_search, descend_layers, distances, holds_nodes, lists_node,
    no_node_twice};
use crate::index::brute_force::flat_distances;
use crate::index::connectivity::{has_live, live_listed, new_vector_is_linked_to_all_live};
use crate::index::exact::all_numbers;
use crate::index::graph::{with_tombstone, NodeView};
use crate::index::guarantees::{descent_in_range, filtered_results_are_sound, results_sound,
    search_results_are_sound};
use crate::index::hnsw::{filtered_results, index_compacted, index_erased, index_grown, larger,
    results_of, search_results, tombstones, IndexView};
use crate::index::link::{live_candidates, Limits, Topology};
use crate::index::ranking::{first, is_ranked, Candidate};
use crate::index::sieve::{filtered_search, filtered_search_is_locally_optimal, passing, sieve_at};
use crate::index::small::{base_links, found_are_nearest, listed_or_surpassed, nearest_passing,
    node_list, node_list_distinct, passing_candidates, passing_listed, small_graph_is_woven,
    wide_beam_finds_all, wide_sieve_sees_all, woven, woven_alike};
use crate::index::structure::{built_graph_is_sound, insertion_keeps_graph_sound,
    sound_links_in_range};
use crate::metadata::{ascending, pairs_map, Filter, Pairs};
use crate::storage::durability::compaction_keeps_the_live;
use crate::storage::vecstore::StoreView;

verus! {

/// Something that is done to an index.
pub enum IndexChange {
    /// A vector is inserted.
    Insert { vector: Seq<u32>, metadata: Option<Pairs>, level: usize },
    /// A vector is deleted.
    Delete { id: u64 },
    /// The index is compacted, with nodes of these layers.
    Compact { levels: Seq<usize> },
}

/// A new, empty index.
pub open spec fn new_index(dimension: u32, metric: Metric) -> IndexView {
    IndexView { store: StoreView::empty(dimension, metric), topology: Topology::empty() }
}

/// An index after a change.
pub open spec fn changed<K: Fn(&[u32], &[u32]) -> u32>(
    kernel: K,
    limits: Limits,
    index: IndexView,
    change: IndexChange,
) -> IndexView {
    match change {
        IndexChange::Insert { vector, metadata, level } => index_grown(
            kernel,
            limits,
            index,
            (index.store.header.max_vector_id + 1) as u64,
            vector,
            metadata,
            level,
        ),
        IndexChange::Delete { id } => index_erased(index, id),
        IndexChange::Compact { levels } => index_compacted(kernel, limits, index, levels),
    }
}

/// Whether a change is accepted, and keeps the index small: the lowest layer has
/// room for every link, and the beam of an insertion can hold all vectors. A vector
/// is inserted into an empty index, or where some vector is live.
pub open spec fn accepted(limits: Limits, index: IndexView, change: IndexChange) -> bool {
    let n = index.topology.g.len();
    match change {
        IndexChange::Insert { vector, metadata, level } => {
            &&& index.store.header.max_vector_id < u64::MAX
            &&& vector.len() == index.store.header.dimension
            &&& metadata matches Some(pairs) ==> ascending(pairs)
            &&& n <= limits.m_max0
            &&& n <= limits.ef
            &&& n < usize::MAX - 1
            &&& n < u64::MAX
            &&& n > 0 ==> has_live(index.topology.g)
        },
        IndexChange::Delete { id } => index.store.is_live(id),
        IndexChange::Compact { levels } => {
            &&& levels.len() == index.store.compacted().ids.len()
            &&& levels.len() <= limits.m_max0 + 1
            &&& levels.len() < usize::MAX
        },
    }
}

/// An index after some changes.
pub open spec fn after_changes<K: Fn(&[u32], &[u32]) -> u32>(
    kernel: K,
    limits: Limits,
    index: IndexView,
    changes: Seq<IndexChange>,
) -> IndexView
    decreases changes.len(),
{
    if changes.len() == 0 {
        index
    } else {
        changed(
            kernel,
            limits,
            after_changes(kernel, limits, index, changes.drop_last()),
            changes.last(),
        )
    }
}

/// Whether each of some changes is accepted in its turn.
pub open spec fn all_accepted<K: Fn(&[u32], &[u32]) -> u32>(
    kernel: K,
    limits: Limits,
    index: IndexView,
    changes: Seq<IndexChange>,
) -> bool
    decreases changes.len(),
{
    changes.len() == 0 || (all_accepted(kernel, limits, index, changes.drop_last()) && accepted(
        limits,
        after_changes(kernel, limits, index, changes.drop_last()),
        changes.last(),
    ))
}

/// What holds of a small index at any time: the graph agrees with the store, and
/// its lowest layer hangs together.
pub open spec fn hangs_together(index: IndexView) -> bool {
    &&& in_step(index)
    &&& index.store.wf()
    &&& woven(index.topology.g, index.topology.g.len() as int)
    &&& forall|i: int|
        0 <= i < index.topology.g.len() ==> (#[trigger] index.topology.g[i]).layers.len() >= 1
}

proof fn inserted_store_wf(s: StoreView, id: u64, vector: Seq<u32>, metadata: Option<Pairs>)
    requires
        s.wf(),
        id > s.header.max_vector_id,
        vector.len() == s.header.dimension,
        metadata matches Some(pairs) ==> ascending(pairs),
        s.ids.len() < u64::MAX,
    ensures
        s.inserted(id, vector, metadata).wf(),
{
    let t = s.inserted(id, vector, metadata);
    assert forall|i: int| 0 <= i < t.metadata.len() implies (#[trigger] t.metadata[i] matches Some(
        pairs,
    ) ==> ascending(pairs)) by {
        if i < s.metadata.len() {
            assert(t.metadata[i] == s.metadata[i]);
        }
    }
    assert forall|i: int| 0 <= i < t.vectors.len() implies (#[trigger] t.vectors[i]).len()
        == t.header.dimension by {
        if i < s.vectors.len() {
            assert(t.vectors[i] == s.vectors[i]);
        }
    }
    assert forall|i: int| 0 <= i < t.ids.len() implies 1 <= #[trigger] t.ids[i]
        <= t.header.max_vector_id by {
        if i < s.ids.len() {
            assert(t.ids[i] == s.ids[i]);
            assert(1 <= s.ids[i] <= s.header.max_vector_id);
        }
    }
    assert forall|i: int, j: int| 0 <= i < j < t.ids.len() implies t.ids[i] < t.ids[j] by {
        assert(t.ids[i] == s.ids[i]);
        assert(s.ids[i] <= s.header.max_vector_id);
        if j < s.ids.len() {
            assert(t.ids[j] == s.ids[j]);
        }
    }
}

proof fn insertion_hangs_together<K: Fn(&[u32], &[u32]) -> u32>(
    kernel: K,
    limits: Limits,
    index: IndexView,
    vector: Seq<u32>,
    metadata: Option<Pairs>,
    level: usize,
)
    requires
        hangs_together(index),
        limits.m >= 1,
        accepted(limits, index, IndexChange::Insert { vector, metadata, level }),
    ensures
        hangs_together(
            changed(kernel, limits, index, IndexChange::Insert { vector, metadata, level }),
        ),
{
    let id = (index.store.header.max_vector_id + 1) as u64;
    let after = index_grown(kernel, limits, index, id, vector, metadata, level);
    let t = index.topology;
    let n = t.g.len() as int;
    insertion_stays_in_step(kernel, limits, index, vector, metadata, level);
    inserted_store_wf(index.store, id, vector, metadata);
    let g = t.g.push(crate::index::graph::fresh_node(n, id, level as nat));
    let dm = crate::index::link::matrix(kernel, g, after.store.vectors);
    insertion_keeps_graph_sound(t, dm, limits, n, id, level as nat);
    assert forall|i: int| 0 <= i < after.topology.g.len() implies (
    #[trigger] after.topology.g[i]).layers.len() >= 1 by {
        assert(g[i].layers.len() == after.topology.g[i].layers.len());
        if i < n {
            assert(g[i] == t.g[i]);
        }
    }
    if n > 0 {
        new_vector_is_linked_to_all_live(
            kernel,
            limits,
            t,
            after.store.vectors,
            id,
            level as nat,
        );
    } else {
        assert(after.topology.g == g);
        assert(base_links(g, 0) =~= Seq::<int>::empty());
    }
}

proof fn deletion_hangs_together(index: IndexView, id: u64)
    requires
        hangs_together(index),
        index.store.is_live(id),
    ensures
        hangs_together(index_erased(index, id)),
{
    let after = index_erased(index, id);
    let g = index.topology.g;
    let slot = index.store.ids.index_of(id);
    let h = after.topology.g;
    assert(0 <= slot < index.store.ids.len());
    assert(h == with_tombstone(g, slot));
    deletion_stays_in_step(index, id);
    assert forall|i: int| 0 <= i < g.len() implies #[trigger] base_links(g, i) == base_links(h, i) by {
        assert(h[i].layers == g[i].layers);
    }
    woven_alike(g, h, g.len() as int);
    assert forall|i: int| 0 <= i < h.len() implies (#[trigger] h[i]).layers.len() >= 1 by {
        assert(h[i].layers == g[i].layers);
    }
}

proof fn compaction_hangs_together<K: Fn(&[u32], &[u32]) -> u32>(
    kernel: K,
    limits: Limits,
    index: IndexView,
    levels: Seq<usize>,
)
    requires
        hangs_together(index),
        accepted(limits, index, IndexChange::Compact { levels }),
    ensures
        hangs_together(index_compacted(kernel, limits, index, levels)),
{
    let s = index.store.compacted();
    compaction_stays_in_step(kernel, limits, index, levels);
    compaction_keeps_the_live(index.store);
    built_graph_is_sound(kernel, limits, s.ids, s.vectors, levels, levels.len());
    small_graph_is_woven(kernel, limits, s.ids, s.vectors, levels, levels.len());
}

proof fn changes_hang_together<K: Fn(&[u32], &[u32]) -> u32>(
    kernel: K,
    limits: Limits,
    index: IndexView,
    changes: Seq<IndexChange>,
)
    requires
        hangs_together(index),
        limits.m >= 1,
        all_accepted(kernel, limits, index, changes),
    ensures
        hangs_together(after_changes(kernel, limits, index, changes)),
    decreases changes.len(),
{
    if changes.len() > 0 {
        let fewer = changes.drop_last();
        changes_hang_together(kernel, limits, index, fewer);
        let before = after_changes(kernel, limits, index, fewer);
        match changes.last() {
            IndexChange::Insert { vector, metadata, level } => {
                insertion_hangs_together(kernel, limits, before, vector, metadata, level);
            },
            IndexChange::Delete { id } => {
                deletion_hangs_together(before, id);
            },
            IndexChange::Compact { levels } => {
                compaction_hangs_together(kernel, limits, before, levels);
            },
        }
    }
}

/// Which nodes are not deleted.
pub open spec fn live_nodes(g: Seq<NodeView>) -> Seq<bool> {
    Seq::new(g.len(), |i: int| !g[i].deleted)
}

proof fn live_nodes_counted(g: Seq<NodeView>, ds: Seq<u32>, n: nat)
    requires
        n <= g.len(),
    ensures
        passing_candidates(ds, live_nodes(g), n).len() == n - tombstones(g, n),
    decreases n,
{
    if n > 0 {
        live_nodes_counted(g, ds, (n - 1) as nat);
    }
}

proof fn same_nodes_listed(s: Seq<Candidate>, all: Seq<Candidate>)
    requires
        no_node_twice(s),
        no_node_twice(all),
        s.len() == all.len(),
        forall|v: int| #[trigger] lists_node(s, v) ==> lists_node(all, v),
    ensures
        forall|v: int| #[trigger] lists_node(all, v) ==> lists_node(s, v),
{
    node_list_distinct(s);
    node_list_distinct(all);
    let x = node_list(s).to_set();
    let y = node_list(all).to_set();
    assert forall|v: int| x.contains(v) implies y.contains(v) by {
        assert(lists_node(s, v));
    }
    vstd::set_lib::lemma_subset_equality(x, y);
    assert forall|v: int| #[trigger] lists_node(all, v) implies lists_node(s, v) by {
        assert(y.contains(v));
        assert(x.contains(v));
    }
}

proof fn as_many_as_there_are(
    ds: Seq<u32>,
    found: Seq<Candidate>,
    all: Seq<Candidate>,
    k: nat,
)
    requires
        no_node_twice(found),
        no_node_twice(all),
        found.len() <= k,
        forall|v: int| #[trigger] lists_node(found, v) ==> lists_node(all, v),
        forall|v: int| #[trigger] lists_node(all, v) ==> listed_or_surpassed(ds, found, k, v),
    ensures
        found.len() == (if all.len() <= k { all.len() } else { k }),
{
    node_list_distinct(found);
    node_list_distinct(all);
    let x = node_list(found).to_set();
    let y = node_list(all).to_set();
    assert(x.subset_of(y)) by {
        assert forall|v: int| x.contains(v) implies y.contains(v) by {
            assert(lists_node(found, v));
        }
    }
    vstd::set_lib::lemma_len_subset(x, y);
    if found.len() < k {
        assert(y.subset_of(x)) by {
            assert forall|v: int| y.contains(v) implies x.contains(v) by {
                assert(lists_node(all, v));
            }
        }
        vstd::set_lib::lemma_len_subset(y, x);
    }
}

/// An index whose lowest layer hangs together is searched exactly, also where
/// vectors are deleted: with a beam that can hold all vectors a search returns `k`
/// of the live vectors, or all of them where they are fewer, and leaves out none that
/// is nearer than the last of them. Where every distance is a number, the distance at
/// each place is that of an exact search over them.
pub proof fn index_is_searched_exactly<K: Fn(&[u32], &[u32]) -> u32>(
    kernel: K,
    index: IndexView,
    query: Seq<u32>,
    k: nat,
    ef_search: nat,
)
    requires
        hangs_together(index),
        1 <= index.topology.g.len() <= ef_search,
        index.topology.g.len() < usize::MAX,
    ensures
        ({
            let g = index.topology.g;
            let ds = distances(kernel, query, g, index.store.vectors);
            let r = search_results(index.topology, ds, k, ef_search);
            let exact = nearest_passing(
                flat_distances(kernel, query, index.store.vectors),
                live_nodes(g),
                k,
            );
            &&& index.topology.entry is Some
            &&& r.len() == (if live_count(g) <= k { live_count(g) } else { k as int })
            &&& results_sound(g, ds, r)
            &&& all_numbers(ds) ==> r.len() == exact.len() && forall|i: int|
                0 <= i < r.len() ==> rank32((#[trigger] r[i]).distance) == rank32(
                    exact[i].distance,
                )
            &&& forall|v: int|
                0 <= v < g.len() && !(#[trigger] g[v]).deleted ==> (exists|i: int|
                    0 <= i < r.len() && (#[trigger] r[i]).slot == v) || (r.len() == k && (k > 0
                    ==> rank32(r.last().distance) <= rank32(ds[v])))
            &&& live_count(g) <= k ==> forall|id: u64| #[trigger]
                index.store.is_live(id) ==> exists|i: int|
                    0 <= i < r.len() && (#[trigger] r[i]).vector_id == id
        }),
{
    let t = index.topology;
    let g = t.g;
    let n = g.len();
    let ds = distances(kernel, query, g, index.store.vectors);
    let keep = live_nodes(g);
    assert(ds =~= flat_distances(kernel, query, index.store.vectors)) by {
        assert forall|i: int| 0 <= i < n implies #[trigger] ds[i] == flat_distances(
            kernel,
            query,
            index.store.vectors,
        )[i] by {
            assert(g[i].slot == i);
        }
    }
    let ef = larger(ef_search, k);
    let start = descend_layers(g, ds, true, t.max_level, 1, t.entry->0);
    sound_links_in_range(g);
    descent_in_range(g, ds, true, t.max_level, 1, t.entry->0);
    wide_beam_finds_all(g, ds, ef, start);
    search_results_are_sound(t, ds, k, ef_search);
    let found = beam_search(g, ds, ef, 0, start);
    let live = live_candidates(g, -1, found);
    live_listed(g, -1, found);
    live_in_order(g, ds, found);
    live_nodes_counted(g, ds, n);
    let f = first(live, k);
    let r = search_results(t, ds, k, ef_search);
    assert(r == results_of(g, f));
    assert forall|i: int| 0 <= i < f.len() implies #[trigger] f[i] == live[i] by {}
    if k > 0 {
        first_in_order(live, ds, k);
        assert forall|i: int| 0 <= i < f.len() implies keep[(#[trigger] f[i]).node_idx as int] by {
            assert(live[i].node_idx == f[i].node_idx);
            assert(lists_node(live, f[i].node_idx as int));
            assert(f[i].node_idx < ds.len());
        }
        assert forall|v: int| 0 <= v < ds.len() && keep[v] implies #[trigger] listed_or_surpassed(
            ds,
            f,
            k,
            v,
        ) by {
            assert(lists_node(found, v));
            assert(lists_node(live, v));
            let p = choose|p: int| 0 <= p < live.len() && (#[trigger] live[p]).node_idx == v;
            if p < f.len() {
                assert(f[p].node_idx == v);
            } else {
                assert(live[k - 1].rank() <= live[p].rank());
                assert(f.last() == live[k - 1]);
                assert(live[p].distance == ds[v]);
            }
        }
        assert forall|v: int| 0 <= v < n && !(#[trigger] g[v]).deleted implies (exists|i: int|
            0 <= i < r.len() && (#[trigger] r[i]).slot == v) || (r.len() == k && rank32(
            r.last().distance,
        ) <= rank32(ds[v])) by {
            assert(listed_or_surpassed(ds, f, k, v));
            if lists_node(f, v) {
                let i = choose|i: int| 0 <= i < f.len() && (#[trigger] f[i]).node_idx == v;
                assert(r[i].slot == v);
            } else {
                assert(r.last().distance == f.last().distance);
            }
        }
        let cs = passing_candidates(ds, keep, n);
        passing_listed(ds, keep, n);
        assert forall|v: int| #[trigger] lists_node(f, v) implies lists_node(cs, v) by {
            let i = choose|i: int| 0 <= i < f.len() && (#[trigger] f[i]).node_idx == v;
            assert(keep[f[i].node_idx as int]);
            assert(f[i].node_idx < ds.len());
        }
        as_many_as_there_are(ds, f, cs, k);
        if all_numbers(ds) {
            found_are_nearest(ds, keep, k, f);
            assert forall|i: int| 0 <= i < r.len() implies rank32((#[trigger] r[i]).distance)
                == rank32(nearest_passing(ds, keep, k)[i].distance) by {
                assert(r[i].distance == f[i].distance);
                assert(f[i].rank() == nearest_passing(ds, keep, k)[i].rank());
            }
        }
    } else {
        crate::index::ranking::closest_in_order(passing_candidates(ds, keep, n), 0);
        tombstones_fit(g, n);
    }
    if live_count(g) <= k {
        assert forall|id: u64| #[trigger] index.store.is_live(id) implies exists|i: int|
            0 <= i < r.len() && (#[trigger] r[i]).vector_id == id by {
            let slot = choose|slot: int|
                0 <= slot < index.store.ids.len() && index.store.ids[slot] == id;
            assert(g[slot].id == id && !g[slot].deleted);
            assert(lists_node(found, slot));
            assert(lists_node(live, slot));
            let p = choose|p: int| 0 <= p < live.len() && (#[trigger] live[p]).node_idx == slot;
            if k > 0 {
                if p >= f.len() {
                    assert(f.len() == k);
                    all_live_are_few(g, ds, live, k);
                }
                assert(f[p] == live[p]);
                assert(r[p].vector_id == id);
            } else {
                all_live_are_few(g, ds, live, k);
            }
        }
    }
}

proof fn tombstones_fit(g: Seq<NodeView>, n: nat)
    requires
        n <= g.len(),
    ensures
        tombstones(g, n) <= n,
    decreases n,
{
    if n > 0 {
        tombstones_fit(g, (n - 1) as nat);
    }
}

/// There are no more live candidates than live nodes.
proof fn all_live_are_few(g: Seq<NodeView>, ds: Seq<u32>, live: Seq<Candidate>, k: nat)
    requires
        ds.len() == g.len(),
        g.len() <= usize::MAX,
        no_node_twice(live),
        holds_nodes(live, ds),
        forall|v: int| #[trigger] lists_node(live, v) ==> !g[v].deleted,
        live_count(g) <= k,
    ensures
        live.len() <= k,
{
    let cs = passing_candidates(ds, live_nodes(g), g.len());
    crate::index::small::passing_listed(ds, live_nodes(g), g.len());
    live_nodes_counted(g, ds, g.len());
    crate::index::small::node_list_distinct(live);
    crate::index::small::node_list_distinct(cs);
    let x = crate::index::small::node_list(live).to_set();
    let y = crate::index::small::node_list(cs).to_set();
    assert(x.subset_of(y)) by {
        assert forall|v: int| x.contains(v) implies y.contains(v) by {
            assert(lists_node(live, v));
            let i = choose|i: int| 0 <= i < live.len() && (#[trigger] live[i]).node_idx == v;
            assert(live[i].node_idx < ds.len());
            assert(live_nodes(g)[v]);
            assert(lists_node(cs, v));
        }
    }
    vstd::set_lib::lemma_len_subset(x, y);
}

proof fn live_in_order(g: Seq<NodeView>, ds: Seq<u32>, found: Seq<Candidate>)
    requires
        is_ranked(found),
        holds_nodes(found, ds),
    ensures
        is_ranked(live_candidates(g, -1, found)),
        holds_nodes(live_candidates(g, -1, found), ds),
        live_candidates(g, -1, found).len() > 0 ==> found.len() > 0 && live_candidates(
            g,
            -1,
            found,
        ).last().rank() <= found.last().rank(),
    decreases found.len(),
{
    if found.len() > 0 {
        let fewer = found.drop_last();
        let last = found.len() - 1;
        assert forall|i: int, j: int| 0 <= i < j < fewer.len() implies (#[trigger] fewer[i]).rank()
            <= (#[trigger] fewer[j]).rank() by {
            assert(found[i].rank() <= found[j].rank());
        }
        assert forall|i: int| 0 <= i < fewer.len() implies (#[trigger] fewer[i]).node_idx < ds.len()
            && fewer[i].distance == ds[fewer[i].node_idx as int] by {
            assert(fewer[i] == found[i]);
        }
        live_in_order(g, ds, fewer);
        let before = live_candidates(g, -1, fewer);
        let live = live_candidates(g, -1, found);
        assert(found[last].node_idx < ds.len() && found[last].distance
            == ds[found[last].node_idx as int]);
        if fewer.len() > 0 {
            assert(found[last - 1].rank() <= found[last].rank());
        }
        assert forall|i: int, j: int| 0 <= i < j < live.len() implies (#[trigger] live[i]).rank() <= (
        #[trigger] live[j]).rank() by {
            if j < before.len() {
                assert(before[i].rank() <= before[j].rank());
            } else {
                assert(live[i] == before[i]);
                if i < before.len() - 1 {
                    assert(before[i].rank() <= before[before.len() - 1].rank());
                }
            }
        }
    }
}

proof fn first_in_order(s: Seq<Candidate>, ds: Seq<u32>, k: nat)
    requires
        is_ranked(s),
        holds_nodes(s, ds),
        no_node_twice(s),
    ensures
        is_ranked(first(s, k)),
        holds_nodes(first(s, k), ds),
        no_node_twice(first(s, k)),
{
    let f = first(s, k);
    assert forall|i: int| 0 <= i < f.len() implies #[trigger] f[i] == s[i] by {}
    assert forall|i: int, j: int| 0 <= i < j < f.len() implies (#[trigger] f[i]).rank() <= (
    #[trigger] f[j]).rank() && f[i].node_idx != f[j].node_idx by {
        assert(s[i].rank() <= s[j].rank());
        assert(s[i].node_idx != s[j].node_idx);
    }
}

/// Every live vector is found, whatever was inserted, deleted and compacted before:
/// of a small index, from its creation on, a search with a beam that can hold all
/// vectors returns `k` of the live vectors, or each of them where they are fewer; where
/// every distance is a number, that at each place is the one of an exact search over
/// them.
pub proof fn live_vectors_are_always_found<K: Fn(&[u32], &[u32]) -> u32>(
    kernel: K,
    limits: Limits,
    dimension: u32,
    metric: Metric,
    changes: Seq<IndexChange>,
    query: Seq<u32>,
    k: nat,
    ef_search: nat,
)
    requires
        limits.m >= 1,
        all_accepted(kernel, limits, new_index(dimension, metric), changes),
        ({
            let index = after_changes(kernel, limits, new_index(dimension, metric), changes);
            &&& 1 <= index.topology.g.len() <= ef_search
            &&& index.topology.g.len() < usize::MAX
        }),
    ensures
        ({
            let index = after_changes(kernel, limits, new_index(dimension, metric), changes);
            let g = index.topology.g;
            let ds = distances(kernel, query, g, index.store.vectors);
            let r = search_results(index.topology, ds, k, ef_search);
            let exact = nearest_passing(
                flat_distances(kernel, query, index.store.vectors),
                live_nodes(g),
                k,
            );
            &&& agrees(index)
            &&& r.len() == (if live_count(g) <= k { live_count(g) } else { k as int })
            &&& forall|i: int|
                0 <= i < r.len() ==> index.store.is_live((#[trigger] r[i]).vector_id)
            &&& all_numbers(ds) ==> r.len() == exact.len() && forall|i: int|
                0 <= i < r.len() ==> rank32((#[trigger] r[i]).distance) == rank32(
                    exact[i].distance,
                )
            &&& live_count(g) <= k ==> forall|id: u64| #[trigger]
                index.store.is_live(id) ==> exists|i: int|
                    0 <= i < r.len() && (#[trigger] r[i]).vector_id == id
        }),
{
    let new = new_index(dimension, metric);
    created_index_is_in_step(dimension, metric);
    changes_hang_together(kernel, limits, new, changes);
    let index = after_changes(kernel, limits, new, changes);
    let g = index.topology.g;
    let ds = distances(kernel, query, g, index.store.vectors);
    let r = search_results(index.topology, ds, k, ef_search);
    index_is_searched_exactly(kernel, index, query, k, ef_search);
    sound_links_in_range(g);
    search_results_are_sound(index.topology, ds, k, ef_search);
    assert forall|i: int| 0 <= i < r.len() implies index.store.is_live(
        (#[trigger] r[i]).vector_id,
    ) by {
        let slot = r[i].slot as int;
        assert(g[slot].id == index.store.ids[slot]);
        assert(index.store.ids.contains(index.store.ids[slot]));
    }
}

/// An index whose lowest layer hangs together is searched exactly under a filter too:
/// with a beam that can hold all vectors a filtered search returns `k` of the live
/// vectors that pass, or all of them where they are fewer, and leaves out none that is
/// nearer than the last of them. Where every distance is a number, the distance at
/// each place is that of an exact search over them.
pub proof fn index_is_filtered_exactly<K: Fn(&[u32], &[u32]) -> u32>(
    kernel: K,
    index: IndexView,
    filter: Filter,
    query: Seq<u32>,
    k: nat,
    ef_search: nat,
)
    requires
        hangs_together(index),
        1 <= index.topology.g.len() <= ef_search,
        index.topology.g.len() < usize::MAX,
    ensures
        ({
            let g = index.topology.g;
            let ds = distances(kernel, query, g, index.store.vectors);
            let keep = passing(g, index.store.metadata, filter);
            let r = filtered_results(index.topology, ds, keep, k, ef_search);
            let exact = nearest_passing(
                flat_distances(kernel, query, index.store.vectors),
                keep,
                k,
            );
            let n = passing_candidates(ds, keep, g.len()).len();
            &&& index.topology.entry is Some
            &&& r.len() == (if n <= k { n } else { k })
            &&& results_sound(g, ds, r)
            &&& forall|i: int| 0 <= i < r.len() ==> keep[(#[trigger] r[i]).slot as int]
            &&& all_numbers(ds) ==> r.len() == exact.len() && forall|i: int|
                0 <= i < r.len() ==> rank32((#[trigger] r[i]).distance) == rank32(
                    exact[i].distance,
                )
            &&& n <= k ==> forall|v: int|
                0 <= v < g.len() && #[trigger] keep[v] ==> exists|i: int|
                    0 <= i < r.len() && (#[trigger] r[i]).slot == v
            &&& forall|v: int|
                0 <= v < g.len() && #[trigger] keep[v] ==> (exists|i: int|
                    0 <= i < r.len() && (#[trigger] r[i]).slot == v) || (r.len() == k && (k > 0
                    ==> rank32(r.last().distance) <= rank32(ds[v])))
        }),
{
    let t = index.topology;
    let g = t.g;
    let n = g.len();
    let ds = distances(kernel, query, g, index.store.vectors);
    let keep = passing(g, index.store.metadata, filter);
    assert(ds =~= flat_distances(kernel, query, index.store.vectors)) by {
        assert forall|i: int| 0 <= i < n implies #[trigger] ds[i] == flat_distances(
            kernel,
            query,
            index.store.vectors,
        )[i] by {
            assert(g[i].slot == i);
        }
    }
    let ef = larger(ef_search, k);
    let start = descend_layers(g, ds, true, t.max_level, 1, t.entry->0);
    sound_links_in_range(g);
    descent_in_range(g, ds, true, t.max_level, 1, t.entry->0);
    filtered_results_are_sound(t, ds, keep, k, ef_search, seq![start]);
    let r = filtered_results(t, ds, keep, k, ef_search);
    let cs = passing_candidates(ds, keep, n);
    passing_listed(ds, keep, n);
    if k == 0 {
        crate::index::ranking::closest_in_order(cs, 0);
        assert forall|v: int| 0 <= v < n && #[trigger] keep[v] implies cs.len() > 0 by {
            assert(lists_node(cs, v));
        }
    } else {
        let found = filtered_search(g, ds, keep, k, ef, start);
        filtered_search_is_locally_optimal(g, ds, keep, k, ef, start, seq![start]);
        let s = sieve_at(ds, keep, start);
        assert(s.frontier[0].node_idx == start);
        assert(lists_node(s.frontier, start));
        if keep[start] {
            assert(s.kept[0].node_idx == start);
            assert(lists_node(s.kept, start));
        }
        wide_sieve_sees_all(g, ds, keep, k, ef, s, start);
        assert(r == results_of(g, found));
        assert forall|v: int| #[trigger] lists_node(found, v) implies lists_node(cs, v) by {
            let i = choose|i: int| 0 <= i < found.len() && (#[trigger] found[i]).node_idx == v;
            assert(found[i].node_idx < ds.len() && keep[found[i].node_idx as int]);
        }
        assert forall|v: int| 0 <= v < n && #[trigger] keep[v] implies listed_or_surpassed(
            ds,
            found,
            k,
            v,
        ) by {}
        as_many_as_there_are(ds, found, cs, k);
        if all_numbers(ds) {
            found_are_nearest(ds, keep, k, found);
        }
        assert forall|v: int| 0 <= v < n && #[trigger] keep[v] implies (exists|i: int|
            0 <= i < r.len() && (#[trigger] r[i]).slot == v) || (r.len() == k && rank32(
            r.last().distance,
        ) <= rank32(ds[v])) by {
            assert(listed_or_surpassed(ds, found, k, v));
            if lists_node(found, v) {
                let i = choose|i: int| 0 <= i < found.len() && (#[trigger] found[i]).node_idx == v;
                assert(g[v].slot == v);
                assert(r[i].slot == v);
            } else {
                assert(r.last().distance == found.last().distance);
            }
        }
        if cs.len() <= k {
            same_nodes_listed(found, cs);
            assert forall|v: int| 0 <= v < n && #[trigger] keep[v] implies exists|i: int|
                0 <= i < r.len() && (#[trigger] r[i]).slot == v by {
                assert(lists_node(cs, v));
                let i = choose|i: int| 0 <= i < found.len() && (#[trigger] found[i]).node_idx == v;
                assert(g[v].slot == v);
                assert(r[i].slot == v);
            }
        }
    }
}

/// In every index that a history of accepted insertions, deletions and compactions
/// leaves, a filtered search that asks for as many as there are vectors finds exactly
/// the live vectors whose metadata passes the filter.
pub proof fn passing_vectors_are_always_found<K: Fn(&[u32], &[u32]) -> u32>(
    kernel: K,
    limits: Limits,
    dimension: u32,
    metric: Metric,
    changes: Seq<IndexChange>,
    filter: Filter,
    query: Seq<u32>,
    k: nat,
    ef_search: nat,
)
    requires
        limits.m >= 1,
        all_accepted(kernel, limits, new_index(dimension, metric), changes),
        ({
            let index = after_changes(kernel, limits, new_index(dimension, metric), changes);
            &&& 1 <= index.topology.g.len() <= ef_search
            &&& index.topology.g.len() < usize::MAX
            &&& index.topology.g.len() <= k
        }),
    ensures
        ({
            let index = after_changes(kernel, limits, new_index(dimension, metric), changes);
            let g = index.topology.g;
            let ds = distances(kernel, query, g, index.store.vectors);
            let keep = passing(g, index.store.metadata, filter);
            let r = filtered_results(index.topology, ds, keep, k, ef_search);
            forall|slot: int|
                0 <= slot < index.store.ids.len() ==> {
                    let id = #[trigger] index.store.ids[slot];
                    let kept = index.store.metadata[slot];
                    (exists|i: int| 0 <= i < r.len() && (#[trigger] r[i]).vector_id == id) <==> {
                        &&& !index.store.deleted.contains(id)
                        &&& kept is Some
                        &&& filter.holds(pairs_map(kept->0))
                    }
                }
        }),
{
    let new = new_index(dimension, metric);
    created_index_is_in_step(dimension, metric);
    changes_hang_together(kernel, limits, new, changes);
    let index = after_changes(kernel, limits, new, changes);
    let g = index.topology.g;
    let ds = distances(kernel, query, g, index.store.vectors);
    let keep = passing(g, index.store.metadata, filter);
    let r = filtered_results(index.topology, ds, keep, k, ef_search);
    index_is_filtered_exactly(kernel, index, filter, query, k, ef_search);
    passing_fit(ds, keep, g.len());
    assert forall|slot: int| 0 <= slot < index.store.ids.len() implies {
        let id = #[trigger] index.store.ids[slot];
        let kept = index.store.metadata[slot];
        (exists|i: int| 0 <= i < r.len() && (#[trigger] r[i]).vector_id == id) <==> {
            &&& !index.store.deleted.contains(id)
            &&& kept is Some
            &&& filter.holds(pairs_map(kept->0))
        }
    } by {
        let id = index.store.ids[slot];
        assert(g[slot].id == id && g[slot].slot == slot);
        if keep[slot] {
            let i = choose|i: int| 0 <= i < r.len() && (#[trigger] r[i]).slot == slot;
            assert(r[i].vector_id == id);
        }
        if exists|i: int| 0 <= i < r.len() && (#[trigger] r[i]).vector_id == id {
            let i = choose|i: int| 0 <= i < r.len() && (#[trigger] r[i]).vector_id == id;
            let other = r[i].slot as int;
            assert(g[other].id == index.store.ids[other]);
            assert(other == slot);
        }
    }
}

proof fn passing_fit(ds: Seq<u32>, keep: Seq<bool>, n: nat)
    ensures
        passing_candidates(ds, keep, n).len() <= n,
    decreases n,
{
    if n > 0 {
        passing_fit(ds, keep, (n - 1) as nat);
    }
}

} // verus!
