//! How the graph of an index and its store agree.
use vstd::prelude::*;

use crate::distance::Metric;
use crate::index::beam::descend_layers;
use crate::index::graph::{fresh_node, with_tombstone, NodeView};
use crate::index::graph_snapshot::bare;
use crate::index::guarantees::{descent_in_range, filtered_results_are_sound, nodes_are_slots,
    search_results_are_sound};
use crate::index::hnsw::{built, filtered_results, grown, grown_by, grown_from_nothing,
    index_compacted, index_erased, index_grown, index_grown_by, no_tombstones, search_results,
    tombstones, tombstones_marked, with_tombstones, IndexView};
use crate::index::link::{matrix, topology_wf, Limits, Topology};
use crate::index::sieve::passing;
use crate::index::structure::{built_graph_is_sound, graph_sound, insertion_keeps_graph_sound,
    list_sound, sound_links_in_range};
use crate::metadata::{pairs_map, Filter, Pairs};
use crate::storage::vecstore::{live_slots_in_range, StoreView};

verus! {

/// Whether the nodes of a graph stand for the first vectors of a store, marked as
/// deleted where the store has a tombstone.
pub open spec fn nodes_agree(g: Seq<NodeView>, s: StoreView) -> bool {
    forall|i: int|
        0 <= i < g.len() ==> {
            &&& (#[trigger] g[i]).slot == i
            &&& g[i].id == s.ids[i]
            &&& g[i].deleted == s.deleted.contains(s.ids[i])
        }
}

/// Whether every tombstone is that of an ID that was assigned.
pub open spec fn tombstones_known(s: StoreView) -> bool {
    forall|id: u64| #[trigger] s.deleted.contains(id) ==> id <= s.header.max_vector_id
}

/// Whether a graph is sound and can be searched.
pub open spec fn topology_sound(t: Topology) -> bool {
    &&& graph_sound(t.g)
    &&& topology_wf(t)
    &&& t.max_level >= 0
}

/// Whether the graph of an index is sound and agrees with the store.
pub open spec fn agrees(index: IndexView) -> bool {
    &&& index.topology.g.len() == index.store.ids.len()
    &&& nodes_agree(index.topology.g, index.store)
    &&& topology_sound(index.topology)
}

/// Whether the graph of an index agrees with the store, and will go on to as
/// vectors are added.
pub open spec fn in_step(index: IndexView) -> bool {
    agrees(index) && tombstones_known(index.store)
}

/// A new index is in step.
pub proof fn created_index_is_in_step(dimension: u32, metric: Metric)
    ensures
        in_step(
            (IndexView { store: StoreView::empty(dimension, metric), topology: Topology::empty() }),
        ),
{
}

/// What a node for one more vector changes.
proof fn grown_agrees<K: Fn(&[u32], &[u32]) -> u32>(
    kernel: K,
    limits: Limits,
    t: Topology,
    vectors: Seq<Seq<u32>>,
    s: StoreView,
    level: nat,
)
    requires
        topology_sound(t),
        t.g.len() < usize::MAX,
        t.g.len() < s.ids.len(),
        nodes_agree(t.g, s),
        !s.deleted.contains(s.ids[t.g.len() as int]),
    ensures
        ({
            let n = t.g.len() as int;
            let after = grown(kernel, limits, t, vectors, n, s.ids[n], level);
            &&& topology_sound(after)
            &&& after.g.len() == n + 1
            &&& nodes_agree(after.g, s)
        }),
{
    let n = t.g.len() as int;
    let id = s.ids[n];
    let g = t.g.push(fresh_node(n, id, level));
    let dm = matrix(kernel, g, vectors);
    insertion_keeps_graph_sound(t, dm, limits, n, id, level);
    let h = grown(kernel, limits, t, vectors, n, id, level).g;
    assert forall|i: int| 0 <= i < h.len() implies {
        &&& (#[trigger] h[i]).slot == i
        &&& h[i].id == s.ids[i]
        &&& h[i].deleted == s.deleted.contains(s.ids[i])
    } by {
        assert(g[i].slot == h[i].slot);
        if i < n {
            assert(g[i] == t.g[i]);
        }
    }
}

/// An index that is in step stays so when a vector is added under the next ID.
pub proof fn insertion_stays_in_step<K: Fn(&[u32], &[u32]) -> u32>(
    kernel: K,
    limits: Limits,
    index: IndexView,
    vector: Seq<u32>,
    metadata: Option<Pairs>,
    level: usize,
)
    requires
        in_step(index),
        index.store.header.max_vector_id < u64::MAX,
        index.topology.g.len() < usize::MAX,
    ensures
        ({
            let id = (index.store.header.max_vector_id + 1) as u64;
            in_step(index_grown(kernel, limits, index, id, vector, metadata, level))
        }),
{
    let id = (index.store.header.max_vector_id + 1) as u64;
    let s = index.store.inserted(id, vector, metadata);
    let g = index.topology.g;
    assert(s.ids[g.len() as int] == id);
    assert(!index.store.deleted.contains(id));
    assert(nodes_agree(g, s)) by {
        assert forall|i: int| 0 <= i < g.len() implies {
            &&& (#[trigger] g[i]).slot == i
            &&& g[i].id == s.ids[i]
            &&& g[i].deleted == s.deleted.contains(s.ids[i])
        } by {
            assert(s.ids[i] == index.store.ids[i]);
        }
    }
    grown_agrees(kernel, limits, index.topology, s.vectors, s, level as nat);
}

/// What nodes for some more vectors change.
proof fn grown_by_agrees<K: Fn(&[u32], &[u32]) -> u32>(
    kernel: K,
    limits: Limits,
    t: Topology,
    vectors: Seq<Seq<u32>>,
    s: StoreView,
    levels: Seq<usize>,
    n: nat,
)
    requires
        topology_sound(t),
        t.g.len() + n <= usize::MAX,
        t.g.len() + n <= s.ids.len(),
        nodes_agree(t.g, s),
        forall|i: int|
            t.g.len() <= i < t.g.len() + n ==> !s.deleted.contains(#[trigger] s.ids[i]),
    ensures
        ({
            let after = grown_by(
                kernel,
                limits,
                t,
                s.ids,
                vectors,
                t.g.len() as int,
                levels,
                n,
            );
            &&& topology_sound(after)
            &&& after.g.len() == t.g.len() + n
            &&& nodes_agree(after.g, s)
        }),
    decreases n,
{
    if n > 0 {
        let m = (n - 1) as nat;
        grown_by_agrees(kernel, limits, t, vectors, s, levels, m);
        let before = grown_by(kernel, limits, t, s.ids, vectors, t.g.len() as int, levels, m);
        assert(!s.deleted.contains(s.ids[(t.g.len() + m) as int]));
        grown_agrees(kernel, limits, before, vectors, s, levels[n - 1] as nat);
    }
}

/// What a batch adds to a store.
proof fn batch_inserted_adds(
    s: StoreView,
    batch: Seq<Seq<u32>>,
    metadata: Seq<Option<Pairs>>,
    n: nat,
)
    requires
        s.header.max_vector_id + n <= u64::MAX,
    ensures
        ({
            let t = s.batch_inserted(batch, metadata, n);
            &&& t.ids.len() == s.ids.len() + n
            &&& t.deleted == s.deleted
            &&& t.header.max_vector_id == s.header.max_vector_id + n
            &&& forall|i: int| 0 <= i < s.ids.len() ==> #[trigger] t.ids[i] == s.ids[i]
            &&& forall|i: int|
                s.ids.len() <= i < t.ids.len() ==> #[trigger] t.ids[i] > s.header.max_vector_id
        }),
    decreases n,
{
    if n > 0 {
        batch_inserted_adds(s, batch, metadata, (n - 1) as nat);
    }
}

/// An index that is in step stays so when a batch is added.
pub proof fn batch_stays_in_step<K: Fn(&[u32], &[u32]) -> u32>(
    kernel: K,
    limits: Limits,
    index: IndexView,
    batch: Seq<Seq<u32>>,
    metadata: Seq<Option<Pairs>>,
    levels: Seq<usize>,
)
    requires
        in_step(index),
        levels.len() == batch.len(),
        index.store.header.max_vector_id + batch.len() <= u64::MAX,
        index.topology.g.len() + batch.len() <= usize::MAX,
    ensures
        in_step(index_grown_by(kernel, limits, index, batch, metadata, levels)),
{
    let n = batch.len();
    let s = index.store.batch_inserted(batch, metadata, n);
    let g = index.topology.g;
    batch_inserted_adds(index.store, batch, metadata, n);
    assert forall|i: int| 0 <= i < g.len() implies {
        &&& (#[trigger] g[i]).slot == i
        &&& g[i].id == s.ids[i]
        &&& g[i].deleted == s.deleted.contains(s.ids[i])
    } by {
        assert(s.ids[i] == index.store.ids[i]);
    }
    assert forall|i: int| g.len() <= i < g.len() + n implies !s.deleted.contains(
        #[trigger] s.ids[i],
    ) by {
        assert(s.ids[i] > index.store.header.max_vector_id);
    }
    grown_by_agrees(kernel, limits, index.topology, s.vectors, s, levels, n);
}

/// Tombstones change nothing of the links.
pub proof fn marked_sound(t: Topology, g: Seq<NodeView>)
    requires
        topology_sound(t),
        g.len() == t.g.len(),
        forall|i: int| 0 <= i < g.len() ==> (#[trigger] g[i]).layers == t.g[i].layers,
    ensures
        topology_sound((Topology { g, ..t })),
{
    assert forall|i: int, l: int| 0 <= i < g.len() && 0 <= l < g[i].layers.len() implies list_sound(
        g,
        i,
        l,
        #[trigger] g[i].layers[l],
    ) by {
        let list = t.g[i].layers[l];
        assert(list_sound(t.g, i, l, list));
        assert forall|j: int| 0 <= j < list.len() implies g[#[trigger] list[j]].layers
            == t.g[list[j]].layers by {}
    }
    if let Some(e) = t.entry {
        assert(g[e].layers == t.g[e].layers);
        assert forall|i: int| 0 <= i < g.len() implies (#[trigger] g[i]).layers.len()
            <= t.max_level + 1 by {
            assert(t.g[i].layers.len() <= t.max_level + 1);
        }
    }
}

proof fn deletion_agrees(index: IndexView, id: u64)
    requires
        agrees(index),
        index.store.wf(),
        index.store.is_live(id),
    ensures
        agrees(index_erased(index, id)),
{
    let s = index.store;
    let g = index.topology.g;
    let slot = s.ids.index_of(id);
    assert(0 <= slot < s.ids.len() && s.ids[slot] == id);
    let after = index_erased(index, id);
    let h = after.topology.g;
    assert forall|i: int| 0 <= i < h.len() implies {
        &&& (#[trigger] h[i]).slot == i
        &&& h[i].id == after.store.ids[i]
        &&& h[i].deleted == after.store.deleted.contains(after.store.ids[i])
    } by {
        assert(g[i].slot == i);
        if i != slot {
            assert(s.ids[i] != s.ids[slot]);
        }
    }
    marked_sound(index.topology, with_tombstone(g, slot));
}

/// An index that is in step stays so when a vector is deleted.
pub proof fn deletion_stays_in_step(index: IndexView, id: u64)
    requires
        in_step(index),
        index.store.wf(),
        index.store.is_live(id),
    ensures
        in_step(index_erased(index, id)),
{
    let slot = index.store.ids.index_of(id);
    assert(index.store.ids[slot] == id && id <= index.store.header.max_vector_id);
    deletion_agrees(index, id);
}

/// How many vectors of a graph are not deleted: what the length of an index is.
pub open spec fn live_count(g: Seq<NodeView>) -> int {
    g.len() - tombstones(g, g.len())
}

/// There are as many live slots as nodes that are not marked as deleted.
proof fn live_slots_counted(g: Seq<NodeView>, s: StoreView, n: nat)
    requires
        nodes_agree(g, s),
        n <= g.len(),
    ensures
        s.live_slots(n).len() == n - tombstones(g, n),
    decreases n,
{
    if n > 0 {
        live_slots_counted(g, s, (n - 1) as nat);
        assert(g[n - 1].slot == n - 1);
    }
}

/// A deletion takes exactly one vector, which is then no longer there to be
/// deleted or found: the length drops by one while the number of nodes stays;
/// where the index is compacted, its nodes are the vectors that are left.
pub proof fn deletion_takes_one_vector<K: Fn(&[u32], &[u32]) -> u32>(
    kernel: K,
    limits: Limits,
    index: IndexView,
    id: u64,
    levels: Seq<usize>,
)
    requires
        agrees(index),
        index.store.wf(),
        index.store.is_live(id),
        levels.len() == index.store.erased(id).compacted().ids.len(),
        levels.len() <= usize::MAX,
    ensures
        ({
            let g = index.topology.g;
            let erased = index_erased(index, id);
            let compacted = index_compacted(kernel, limits, erased, levels);
            &&& agrees(erased)
            &&& !erased.store.is_live(id)
            &&& erased.topology.g.len() == g.len()
            &&& live_count(erased.topology.g) == live_count(g) - 1
            &&& agrees(compacted)
            &&& !compacted.store.is_live(id)
            &&& compacted.topology.g.len() == live_count(g) - 1
            &&& live_count(compacted.topology.g) == compacted.topology.g.len()
        }),
{
    let g = index.topology.g;
    let s = index.store;
    let erased = index_erased(index, id);
    let compacted = index_compacted(kernel, limits, erased, levels);
    let slot = s.ids.index_of(id);
    assert(0 <= slot < s.ids.len() && s.ids[slot] == id);
    assert(g[slot].slot == slot);
    deletion_agrees(index, id);
    tombstones_marked(g, slot, g.len());
    live_slots_counted(erased.topology.g, erased.store, g.len());
    compaction_stays_in_step(kernel, limits, erased, levels);
    built_graph_is_sound(
        kernel,
        limits,
        compacted.store.ids,
        compacted.store.vectors,
        levels,
        levels.len(),
    );
    no_tombstones(compacted.topology.g, compacted.topology.g.len());
    if compacted.store.ids.contains(id) {
        let live = erased.store.live_slots(s.ids.len());
        live_slots_in_range(erased.store, s.ids.len());
        let i = choose|i: int| 0 <= i < compacted.store.ids.len() && compacted.store.ids[i] == id;
        assert(erased.store.ids[live[i]] == id);
    }
}

/// An index is in step once its vectors are compacted.
pub proof fn compaction_stays_in_step<K: Fn(&[u32], &[u32]) -> u32>(
    kernel: K,
    limits: Limits,
    index: IndexView,
    levels: Seq<usize>,
)
    requires
        levels.len() == index.store.compacted().ids.len(),
        levels.len() <= usize::MAX,
    ensures
        in_step(index_compacted(kernel, limits, index, levels)),
{
    let s = index.store.compacted();
    built_graph_is_sound(kernel, limits, s.ids, s.vectors, levels, levels.len());
}

/// An index whose graph is built from a store that was opened agrees with it,
/// whatever the store; where every tombstone is that of an ID that was assigned,
/// it is in step.
pub proof fn opened_index_is_in_step<K: Fn(&[u32], &[u32]) -> u32>(
    kernel: K,
    limits: Limits,
    s: StoreView,
    levels: Seq<usize>,
)
    requires
        levels.len() == s.ids.len(),
        levels.len() <= usize::MAX,
    ensures
        ({
            let t = built(kernel, limits, s.ids, s.vectors, levels, s.ids.len());
            let index = IndexView {
                store: s,
                topology: Topology { g: with_tombstones(t.g, s.deleted), ..t },
            };
            &&& agrees(index)
            &&& tombstones_known(s) ==> in_step(index)
        }),
{
    let t = built(kernel, limits, s.ids, s.vectors, levels, s.ids.len());
    built_graph_is_sound(kernel, limits, s.ids, s.vectors, levels, s.ids.len());
    let g = with_tombstones(t.g, s.deleted);
    assert forall|i: int| 0 <= i < g.len() implies {
        &&& (#[trigger] g[i]).slot == i
        &&& g[i].id == s.ids[i]
        &&& g[i].deleted == s.deleted.contains(s.ids[i])
        &&& g[i].layers == t.g[i].layers
    } by {
        assert(t.g[i].slot == i);
    }
    marked_sound(t, g);
}

/// The graph of an index that agrees with its store is that of its snapshot with
/// the tombstones of the store.
pub proof fn tombstones_are_restored(index: IndexView)
    requires
        agrees(index),
    ensures
        with_tombstones(bare(index.topology.g), index.store.deleted) == index.topology.g,
{
    let g = index.topology.g;
    let h = with_tombstones(bare(g), index.store.deleted);
    assert forall|i: int| 0 <= i < g.len() implies #[trigger] h[i] == g[i] by {
        assert(g[i].slot == i);
    }
    assert(h =~= g);
}

/// No search finds a deleted vector: each result is a vector of the store that is
/// not deleted, and where there is a filter, one whose metadata it holds of.
pub proof fn only_live_vectors_are_found(
    index: IndexView,
    ds: Seq<u32>,
    filter: Filter,
    k: nat,
    ef_search: nat,
)
    requires
        agrees(index),
        index.topology.entry is Some,
        ds.len() == index.topology.g.len(),
        index.topology.g.len() <= usize::MAX,
    ensures
        ({
            let r = search_results(index.topology, ds, k, ef_search);
            forall|i: int|
                0 <= i < r.len() ==> {
                    &&& index.store.is_live((#[trigger] r[i]).vector_id)
                    &&& index.store.ids[r[i].slot as int] == r[i].vector_id
                }
        }),
        ({
            let keep = passing(index.topology.g, index.store.metadata, filter);
            let r = filtered_results(index.topology, ds, keep, k, ef_search);
            forall|i: int|
                0 <= i < r.len() ==> {
                    &&& index.store.is_live((#[trigger] r[i]).vector_id)
                    &&& index.store.ids[r[i].slot as int] == r[i].vector_id
                    &&& index.store.metadata[r[i].slot as int] matches Some(pairs)
                    &&& filter.holds(pairs_map(pairs))
                }
        }),
{
    let t = index.topology;
    let s = index.store;
    sound_links_in_range(t.g);
    search_results_are_sound(t, ds, k, ef_search);
    let r = search_results(t, ds, k, ef_search);
    assert forall|i: int| 0 <= i < r.len() implies {
        &&& s.is_live((#[trigger] r[i]).vector_id)
        &&& s.ids[r[i].slot as int] == r[i].vector_id
    } by {
        let slot = r[i].slot as int;
        assert(t.g[slot].id == s.ids[slot]);
    }
    let keep = passing(t.g, s.metadata, filter);
    let start = descend_layers(t.g, ds, true, t.max_level, 1, t.entry->0);
    descent_in_range(t.g, ds, true, t.max_level, 1, t.entry->0);
    filtered_results_are_sound(t, ds, keep, k, ef_search, seq![start]);
    let r = filtered_results(t, ds, keep, k, ef_search);
    assert forall|i: int| 0 <= i < r.len() implies {
        &&& s.is_live((#[trigger] r[i]).vector_id)
        &&& s.ids[r[i].slot as int] == r[i].vector_id
        &&& s.metadata[r[i].slot as int] matches Some(pairs)
        &&& filter.holds(pairs_map(pairs))
    } by {
        let slot = r[i].slot as int;
        assert(keep[slot]);
        assert(t.g[slot].id == s.ids[slot]);
    }
}

/// What a node for one more vector changes, whether or not it is deleted.
proof fn grown_keeps_slots<K: Fn(&[u32], &[u32]) -> u32>(
    kernel: K,
    limits: Limits,
    t: Topology,
    vectors: Seq<Seq<u32>>,
    id: u64,
    level: nat,
)
    requires
        topology_sound(t),
        t.g.len() < usize::MAX,
        nodes_are_slots(t.g),
    ensures
        ({
            let after = grown(kernel, limits, t, vectors, t.g.len() as int, id, level);
            &&& topology_sound(after)
            &&& after.g.len() == t.g.len() + 1
            &&& nodes_are_slots(after.g)
        }),
{
    let n = t.g.len() as int;
    let g = t.g.push(fresh_node(n, id, level));
    let dm = matrix(kernel, g, vectors);
    insertion_keeps_graph_sound(t, dm, limits, n, id, level);
    let h = grown(kernel, limits, t, vectors, n, id, level).g;
    assert forall|i: int| 0 <= i < h.len() implies (#[trigger] h[i]).slot == i by {
        assert(g[i].slot == h[i].slot);
        if i < n {
            assert(g[i] == t.g[i]);
        }
    }
}

/// The distances between nodes depend on the vectors in their slots alone.
proof fn matrix_alike<K: Fn(&[u32], &[u32]) -> u32>(
    kernel: K,
    g: Seq<NodeView>,
    a: Seq<Seq<u32>>,
    b: Seq<Seq<u32>>,
)
    requires
        nodes_are_slots(g),
        forall|i: int| 0 <= i < g.len() ==> #[trigger] a[i] == b[i],
    ensures
        matrix(kernel, g, a) == matrix(kernel, g, b),
{
    let x = matrix(kernel, g, a);
    let y = matrix(kernel, g, b);
    assert forall|i: int| 0 <= i < g.len() implies #[trigger] x[i] == y[i] by {
        assert(g[i].slot == i && a[i] == b[i]);
        assert forall|j: int| 0 <= j < g.len() implies #[trigger] x[i][j] == y[i][j] by {
            assert(g[j].slot == j && a[j] == b[j]);
        }
        assert(x[i] =~= y[i]);
    }
    assert(x =~= y);
}

/// An index with the first `n` vectors of a batch, added one after the other
/// under the next IDs.
pub open spec fn grown_one_by_one<K: Fn(&[u32], &[u32]) -> u32>(
    kernel: K,
    limits: Limits,
    index: IndexView,
    batch: Seq<Seq<u32>>,
    metadata: Seq<Option<Pairs>>,
    levels: Seq<usize>,
    n: nat,
) -> IndexView
    decreases n,
{
    if n == 0 {
        index
    } else {
        let before = grown_one_by_one(
            kernel,
            limits,
            index,
            batch,
            metadata,
            levels,
            (n - 1) as nat,
        );
        index_grown(
            kernel,
            limits,
            before,
            (before.store.header.max_vector_id + 1) as u64,
            batch[n - 1],
            metadata[n - 1],
            levels[n - 1],
        )
    }
}

/// What a longer batch leaves of a shorter one.
proof fn batch_prefix(
    s: StoreView,
    batch: Seq<Seq<u32>>,
    metadata: Seq<Option<Pairs>>,
    m: nat,
    n: nat,
)
    requires
        m <= n,
        s.ids.len() == s.vectors.len(),
    ensures
        ({
            let a = s.batch_inserted(batch, metadata, m);
            let b = s.batch_inserted(batch, metadata, n);
            &&& a.ids.len() == s.ids.len() + m
            &&& a.vectors.len() == s.ids.len() + m
            &&& b.ids.len() == s.ids.len() + n
            &&& b.vectors.len() == s.ids.len() + n
            &&& forall|i: int| 0 <= i < s.ids.len() + m ==> #[trigger] a.ids[i] == b.ids[i]
            &&& forall|i: int|
                0 <= i < s.ids.len() + m ==> #[trigger] a.vectors[i] == b.vectors[i]
        }),
    decreases n,
{
    if m < n {
        batch_prefix(s, batch, metadata, m, (n - 1) as nat);
    } else if n > 0 {
        batch_prefix(s, batch, metadata, (m - 1) as nat, (n - 1) as nat);
    }
}

proof fn one_by_one_so_far<K: Fn(&[u32], &[u32]) -> u32>(
    kernel: K,
    limits: Limits,
    index: IndexView,
    batch: Seq<Seq<u32>>,
    metadata: Seq<Option<Pairs>>,
    levels: Seq<usize>,
    m: nat,
    n: nat,
)
    requires
        topology_sound(index.topology),
        nodes_are_slots(index.topology.g),
        index.topology.g.len() == index.store.ids.len(),
        index.store.vectors.len() == index.store.ids.len(),
        index.store.header.max_vector_id + n <= u64::MAX,
        index.topology.g.len() + n <= usize::MAX,
        m <= n,
    ensures
        ({
            let s = index.store.batch_inserted(batch, metadata, n);
            let one = grown_one_by_one(kernel, limits, index, batch, metadata, levels, m);
            &&& one.store == index.store.batch_inserted(batch, metadata, m)
            &&& one.store.header.max_vector_id == index.store.header.max_vector_id + m
            &&& one.topology == grown_by(
                kernel,
                limits,
                index.topology,
                s.ids,
                s.vectors,
                index.topology.g.len() as int,
                levels,
                m,
            )
            &&& topology_sound(one.topology)
            &&& nodes_are_slots(one.topology.g)
            &&& one.topology.g.len() == index.topology.g.len() + m
        }),
    decreases m,
{
    if m > 0 {
        let p = (m - 1) as nat;
        one_by_one_so_far(kernel, limits, index, batch, metadata, levels, p, n);
        let before = grown_one_by_one(kernel, limits, index, batch, metadata, levels, p);
        let s = index.store.batch_inserted(batch, metadata, n);
        let now = index.store.batch_inserted(batch, metadata, m);
        let base = index.topology.g.len() as int;
        let id = (index.store.header.max_vector_id + m) as u64;
        batch_prefix(index.store, batch, metadata, m, n);
        batch_prefix(index.store, batch, metadata, p, m);
        assert(now.ids[base + p] == id);
        assert(s.ids[base + p] == id);
        let t = before.topology;
        let g = t.g.push(fresh_node(base + p, id, levels[m - 1] as nat));
        assert forall|i: int| 0 <= i < g.len() implies (#[trigger] g[i]).slot == i by {
            if i < t.g.len() {
                assert(g[i] == t.g[i]);
            }
        }
        matrix_alike(kernel, g, now.vectors, s.vectors);
        grown_keeps_slots(kernel, limits, t, now.vectors, id, levels[m - 1] as nat);
    }
}

/// A batch does what the same insertions do one by one.
pub proof fn batch_is_one_by_one<K: Fn(&[u32], &[u32]) -> u32>(
    kernel: K,
    limits: Limits,
    index: IndexView,
    batch: Seq<Seq<u32>>,
    metadata: Seq<Option<Pairs>>,
    levels: Seq<usize>,
)
    requires
        topology_sound(index.topology),
        nodes_are_slots(index.topology.g),
        index.topology.g.len() == index.store.ids.len(),
        index.store.vectors.len() == index.store.ids.len(),
        levels.len() == batch.len(),
        index.store.header.max_vector_id + batch.len() <= u64::MAX,
        index.topology.g.len() + batch.len() <= usize::MAX,
    ensures
        index_grown_by(kernel, limits, index, batch, metadata, levels) == grown_one_by_one(
            kernel,
            limits,
            index,
            batch,
            metadata,
            levels,
            batch.len(),
        ),
{
    let n = batch.len();
    one_by_one_so_far(kernel, limits, index, batch, metadata, levels, n, n);
    batch_prefix(index.store, batch, metadata, n, n);
}

/// An index to which vectors were added one by one since its creation has the
/// graph that is built over them.
pub proof fn inserted_index_is_built<K: Fn(&[u32], &[u32]) -> u32>(
    kernel: K,
    limits: Limits,
    dimension: u32,
    metric: Metric,
    batch: Seq<Seq<u32>>,
    metadata: Seq<Option<Pairs>>,
    levels: Seq<usize>,
)
    requires
        levels.len() == batch.len(),
        batch.len() <= u64::MAX,
        batch.len() <= usize::MAX,
    ensures
        ({
            let new = IndexView {
                store: StoreView::empty(dimension, metric),
                topology: Topology::empty(),
            };
            let index = grown_one_by_one(
                kernel,
                limits,
                new,
                batch,
                metadata,
                levels,
                batch.len(),
            );
            &&& index.store.ids.len() == batch.len()
            &&& index.store.vectors.len() == batch.len()
            &&& index.topology == built(
                kernel,
                limits,
                index.store.ids,
                index.store.vectors,
                levels,
                batch.len(),
            )
        }),
{
    let new = IndexView {
        store: StoreView::empty(dimension, metric),
        topology: Topology::empty(),
    };
    let s = new.store.batch_inserted(batch, metadata, batch.len());
    batch_is_one_by_one(kernel, limits, new, batch, metadata, levels);
    batch_prefix(new.store, batch, metadata, batch.len(), batch.len());
    grown_from_nothing(kernel, limits, s.ids, s.vectors, levels, batch.len());
}

} // verus!
