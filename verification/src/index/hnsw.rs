//! The approximate index: a layered graph over the vectors of a store.
//!
//! How many layers a new node has is decided by the caller, at random. The
//! public functions that change the graph take that number, or for a rebuild one
//! for each vector.
use vstd::prelude::*;
use vstd::string::*;

use crate::distance::Metric;
use crate::error::{ErrorView, QuiverError};
use crate::index::beam::{beam_search, descend_layers, distances, greedy_descent, holds_nodes,
    search_layer, slots_in_range};
use crate::index::graph::{fresh_node, with_tombstone, Graph, NodeView};
use crate::index::graph_snapshot::{bare, graph_bytes, graph_matches, graph_round_trip, levels_of,
    restore, restore_graph, restored_nodes, serialize_graph};
use crate::index::guarantees::results_name_their_vectors;
use crate::index::kernel::{distance, is_kernel};
use crate::index::link::{entry_view, insert_into_graph, live_candidates, matrix, same_nodes,
    topology_wf, Limits, Topology};
use crate::index::ranking::{first, Candidate};
use crate::index::sieve::{filtered_search, passing, search_layer_filtered};
use crate::index::visited::VisitedPool;
use crate::index::SearchResult;
use crate::metadata::{pairs_map, Filter, Metadata, Pairs};
use crate::metadata_encoding::len_field;
use crate::storage::snapshot::{slot_view, slot_views};
use crate::storage::vecstore::{batch_log, batch_views, dimensions_match, is_first_mismatch,
    next_ids, no_metadata, without_metadata, StoreView, VectorStore};
use crate::storage::wal::{delete_entry, entry_bytes, insert_entry};
use crate::text::{decimal, phrase2};

verus! {

/// Tuning parameters of the graph.
#[derive(Debug, Clone, Copy, PartialEq, Eq, Structural)]
pub struct HnswConfig {
    /// How many neighbors a node may have in each layer above the lowest.
    pub m: usize,
    /// How many neighbors a node may have in the lowest layer.
    pub m_max0: usize,
    /// Width of the beam with which a new node's neighbors are searched for.
    pub ef_construction: usize,
    /// The factor of the logarithm by which layers are drawn, as the bit pattern
    /// of a 64-bit float; where there is none, it is that of `m`, `1 / ln(m)`.
    pub ml: Option<u64>,
    /// The share of deleted nodes above which the index is compacted, as the bit
    /// pattern of a 64-bit float.
    pub max_tombstone_ratio: u64,
    /// Seed of the generator that decides on layers.
    pub random_seed: u64,
}

impl HnswConfig {
    /// The parameters that follow from `m`.
    pub open spec fn from_m(m: usize) -> HnswConfig {
        HnswConfig {
            m,
            m_max0: (2 * m) as usize,
            ef_construction: 200,
            ml: None,
            max_tombstone_ratio: 0x3fc9_9999_9999_999a,
            random_seed: 42,
        }
    }

    /// The parameters that follow from `m`; a fifth of the nodes may be deleted.
    pub fn new(m: usize) -> (config: Self)
        requires
            2 * m <= usize::MAX,
        ensures
            config == HnswConfig::from_m(m),
            config.m == m,
            config.m_max0 == 2 * m,
            config.ef_construction == 200,
            config.ml is None,
            config.max_tombstone_ratio == 0x3fc9_9999_9999_999a,
            config.random_seed == 42,
    {
        Self {
            m,
            m_max0: m * 2,
            ef_construction: 200,
            ml: None,
            max_tombstone_ratio: 0x3fc9_9999_9999_999a,
            random_seed: 42,
        }
    }

    /// The same parameters with another width of the construction beam.
    pub fn with_ef_construction(self, ef: usize) -> (config: Self)
        ensures
            config == (HnswConfig { ef_construction: ef, ..self }),
    {
        let mut config = self;
        config.ef_construction = ef;
        config
    }

    /// The same parameters with another seed.
    pub fn with_random_seed(self, seed: u64) -> (config: Self)
        ensures
            config == (HnswConfig { random_seed: seed, ..self }),
    {
        let mut config = self;
        config.random_seed = seed;
        config
    }

    /// What the graph works with.
    pub open spec fn limits(self) -> Limits {
        Limits { m: self.m as int, m_max0: self.m_max0 as int, ef: self.ef_construction as nat }
    }

    /// Whether neighbor lists of this size fit the arenas.
    pub open spec fn fits(self) -> bool {
        self.m <= u32::MAX && self.m_max0 <= u32::MAX
    }
}

impl Default for HnswConfig {
    fn default() -> (config: Self)
        ensures
            config == HnswConfig::from_m(16),
    {
        Self::new(16)
    }
}

/// What an index holds.
pub struct IndexView {
    pub store: StoreView,
    pub topology: Topology,
}

/// The graph over the first `n` vectors of a store, built by inserting one after
/// the other; the node of slot `i` has `levels[i]` layers above the lowest.
pub open spec fn built<K: Fn(&[u32], &[u32]) -> u32>(
    kernel: K,
    limits: Limits,
    ids: Seq<u64>,
    vectors: Seq<Seq<u32>>,
    levels: Seq<usize>,
    n: nat,
) -> Topology
    decreases n,
{
    if n == 0 {
        Topology::empty()
    } else {
        grown(
            kernel,
            limits,
            built(kernel, limits, ids, vectors, levels, (n - 1) as nat),
            vectors,
            n - 1,
            ids[n - 1],
            levels[n - 1] as nat,
        )
    }
}

/// A graph with a node for one more vector.
pub open spec fn grown<K: Fn(&[u32], &[u32]) -> u32>(
    kernel: K,
    limits: Limits,
    t: Topology,
    vectors: Seq<Seq<u32>>,
    slot: int,
    id: u64,
    level: nat,
) -> Topology {
    t.inserted(
        matrix(kernel, t.g.push(fresh_node(slot, id, level)), vectors),
        limits,
        slot,
        id,
        level,
    )
}

/// A graph with nodes for `n` more vectors, the first of them in slot `base`.
pub open spec fn grown_by<K: Fn(&[u32], &[u32]) -> u32>(
    kernel: K,
    limits: Limits,
    t: Topology,
    ids: Seq<u64>,
    vectors: Seq<Seq<u32>>,
    base: int,
    levels: Seq<usize>,
    n: nat,
) -> Topology
    decreases n,
{
    if n == 0 {
        t
    } else {
        grown(
            kernel,
            limits,
            grown_by(kernel, limits, t, ids, vectors, base, levels, (n - 1) as nat),
            vectors,
            base + n - 1,
            ids[base + n - 1],
            levels[n - 1] as nat,
        )
    }
}

/// The graph with the nodes of deleted vectors marked.
pub open spec fn with_tombstones(g: Seq<NodeView>, deleted: Set<u64>) -> Seq<NodeView> {
    Seq::new(
        g.len(),
        |i: int| NodeView { deleted: g[i].deleted || deleted.contains(g[i].id), ..g[i] },
    )
}

/// How many of the first `n` nodes are marked as deleted.
pub open spec fn tombstones(g: Seq<NodeView>, n: nat) -> nat
    decreases n,
{
    if n == 0 {
        0
    } else {
        tombstones(g, (n - 1) as nat) + (if g[n - 1].deleted { 1nat } else { 0nat })
    }
}

/// How many neighbor lists the first `n` nodes of these layers need.
pub open spec fn lists_needed(levels: Seq<usize>, n: nat) -> int
    decreases n,
{
    if n == 0 {
        0
    } else {
        lists_needed(levels, (n - 1) as nat) + levels[n - 1] + 1
    }
}

/// How many links the first `n` nodes of these layers have room for.
pub open spec fn links_needed(levels: Seq<usize>, m: int, m_max0: int, n: nat) -> int
    decreases n,
{
    if n == 0 {
        0
    } else {
        links_needed(levels, m, m_max0, (n - 1) as nat) + m_max0 + levels[n - 1] * m
    }
}

/// A candidate as a search result.
pub open spec fn result_of(g: Seq<NodeView>, c: Candidate) -> SearchResult {
    SearchResult {
        slot: g[c.node_idx as int].slot as usize,
        vector_id: g[c.node_idx as int].id,
        distance: c.distance,
    }
}

/// Candidates as search results.
pub open spec fn results_of(g: Seq<NodeView>, found: Seq<Candidate>) -> Seq<SearchResult> {
    Seq::new(found.len(), |i: int| result_of(g, found[i]))
}

/// The larger of two numbers.
pub open spec fn larger(a: nat, b: nat) -> nat {
    if a >= b { a } else { b }
}

/// What a search for the `k` nearest neighbors finds: greedy descent to the
/// lowest layer, then a beam search there, of whose results the `k` closest that
/// are not deleted count.
pub open spec fn search_results(t: Topology, ds: Seq<u32>, k: nat, ef_search: nat) -> Seq<
    SearchResult,
> {
    let start = descend_layers(t.g, ds, true, t.max_level, 1, t.entry->0);
    let found = beam_search(t.g, ds, larger(ef_search, k), 0, start);
    results_of(t.g, first(live_candidates(t.g, -1, found), k))
}

/// What a search for the `k` nearest neighbors that pass a filter finds.
pub open spec fn filtered_results(
    t: Topology,
    ds: Seq<u32>,
    keep: Seq<bool>,
    k: nat,
    ef_search: nat,
) -> Seq<SearchResult> {
    let start = descend_layers(t.g, ds, true, t.max_level, 1, t.entry->0);
    if k == 0 {
        Seq::empty()
    } else {
        results_of(t.g, filtered_search(t.g, ds, keep, k, larger(ef_search, k), start))
    }
}

/// A search result is what a search finds, or says why there is none.
pub open spec fn search_outcome(
    index: IndexView,
    query: Seq<u32>,
    found: Seq<SearchResult>,
    result: Result<Vec<SearchResult>, QuiverError>,
) -> bool {
    match result {
        Ok(list) => {
            &&& query.len() == index.store.header.dimension
            &&& index.topology.entry is Some
            &&& list@ == found
        },
        Err(e) => if query.len() != index.store.header.dimension {
            e@ == (ErrorView::DimensionMismatch {
                expected: index.store.header.dimension,
                actual: len_field(query.len()),
            })
        } else {
            index.topology.entry is None && e@ == ErrorView::EmptyIndex
        },
    }
}

/// The index.
#[derive(Debug)]
pub struct HnswIndex {
    store: VectorStore,
    graph: Graph,
    entry_point: Option<usize>,
    max_level: usize,
    config: HnswConfig,
    tombstone_count: usize,
    pool: VisitedPool,
}

impl View for HnswIndex {
    type V = IndexView;

    closed spec fn view(&self) -> IndexView {
        IndexView {
            store: self.store@,
            topology: Topology {
                g: self.graph@,
                entry: entry_view(self.entry_point),
                max_level: self.max_level as int,
            },
        }
    }
}

/// Whether each slot has its node, and the nodes marked as deleted have their
/// tombstones.
pub open spec fn nodes_mirror(g: Seq<NodeView>, s: StoreView) -> bool {
    forall|i: int|
        0 <= i < g.len() ==> {
            &&& (#[trigger] g[i]).slot == i
            &&& g[i].id == s.ids[i]
            &&& g[i].deleted ==> s.deleted.contains(s.ids[i])
        }
}

/// More nodes need at least as much of the arenas.
pub proof fn needed_grows(levels: Seq<usize>, m: int, m_max0: int, i: nat, n: nat)
    requires
        i <= n,
        0 <= m,
        0 <= m_max0,
    ensures
        0 <= lists_needed(levels, i) <= lists_needed(levels, n),
        0 <= links_needed(levels, m, m_max0, i) <= links_needed(levels, m, m_max0, n),
    decreases n,
{
    if n > 0 {
        assert(levels[n - 1] * m >= 0) by (nonlinear_arith)
            requires
                m >= 0,
        ;
        if i < n {
            needed_grows(levels, m, m_max0, i, (n - 1) as nat);
        } else {
            needed_grows(levels, m, m_max0, (n - 1) as nat, (n - 1) as nat);
        }
    }
}

/// A graph in which no node is marked as deleted has no tombstones.
pub proof fn no_tombstones(g: Seq<NodeView>, n: nat)
    requires
        n <= g.len(),
        forall|i: int| 0 <= i < g.len() ==> !(#[trigger] g[i]).deleted,
    ensures
        tombstones(g, n) == 0,
    decreases n,
{
    if n > 0 {
        no_tombstones(g, (n - 1) as nat);
        assert(!g[n - 1].deleted);
    }
}

proof fn tombstones_bound(g: Seq<NodeView>, n: nat)
    ensures
        tombstones(g, n) <= n,
    decreases n,
{
    if n > 0 {
        tombstones_bound(g, (n - 1) as nat);
    }
}

proof fn tombstones_same(g: Seq<NodeView>, h: Seq<NodeView>, n: nat)
    requires
        n <= g.len(),
        n <= h.len(),
        forall|i: int| 0 <= i < n ==> (#[trigger] g[i]).deleted == h[i].deleted,
    ensures
        tombstones(g, n) == tombstones(h, n),
    decreases n,
{
    if n > 0 {
        tombstones_same(g, h, (n - 1) as nat);
        assert(g[n - 1].deleted == h[n - 1].deleted);
    }
}

/// What the arenas hold depends on the number of layers of each node alone.
proof fn needed_alike(g: Seq<NodeView>, h: Seq<NodeView>, m: int, m_max0: int, n: nat)
    requires
        n <= g.len(),
        n <= h.len(),
        forall|i: int| 0 <= i < n ==> (#[trigger] g[i]).layers.len() == h[i].layers.len(),
    ensures
        lists_needed(levels_of(g), n) == lists_needed(levels_of(h), n),
        links_needed(levels_of(g), m, m_max0, n) == links_needed(levels_of(h), m, m_max0, n),
    decreases n,
{
    if n > 0 {
        needed_alike(g, h, m, m_max0, (n - 1) as nat);
        assert(g[n - 1].layers.len() == h[n - 1].layers.len());
    }
}

/// Marking a node adds one tombstone.
pub proof fn tombstones_marked(g: Seq<NodeView>, node: int, n: nat)
    requires
        n <= g.len(),
        0 <= node < g.len(),
        !g[node].deleted,
    ensures
        tombstones(with_tombstone(g, node), n) == tombstones(g, n) + (if node < n {
            1nat
        } else {
            0nat
        }),
    decreases n,
{
    if n > 0 {
        tombstones_marked(g, node, (n - 1) as nat);
    }
}

impl HnswIndex {
    /// Everything that holds while vectors at the end of the store still wait for
    /// their nodes.
    closed spec fn partly_wf(&self) -> bool {
        &&& self.store.wf()
        &&& self.graph.wf()
        &&& self.pool.wf()
        &&& self.config.fits()
        &&& self.graph.spec_m() == self.config.m
        &&& self.graph.spec_m_max0() == self.config.m_max0
        &&& self.graph@.len() <= self.store@.ids.len()
        &&& nodes_mirror(self.graph@, self.store@)
        &&& topology_wf(self@.topology)
        &&& self.entry_point is None ==> self.max_level == 0
        &&& self.tombstone_count == tombstones(self.graph@, self.graph@.len())
        &&& self.list_count() == lists_needed(levels_of(self.graph@), self.graph@.len())
        &&& self.link_count() == links_needed(
            levels_of(self.graph@),
            self.config.m as int,
            self.config.m_max0 as int,
            self.graph@.len(),
        )
    }

    /// Every vector of the store has its node, a node marked as deleted has its
    /// tombstone in the store, the entry point is in the highest layer, and the
    /// arenas hold the lists of the nodes and nothing else.
    pub closed spec fn wf(&self) -> bool {
        self.partly_wf() && self.graph@.len() == self.store@.ids.len()
    }

    /// What holds of every index.
    pub proof fn wf_facts(&self)
        requires
            self.wf(),
        ensures
            self@.store.wf(),
            self@.topology.g.len() == self@.store.ids.len(),
            nodes_mirror(self@.topology.g, self@.store),
            topology_wf(self@.topology),
            self.spec_config().fits(),
            graph_matches(self@.topology, self.spec_config(), self@.store.ids),
            forall|i: int|
                0 <= i < self@.topology.g.len() ==> (#[trigger] self@.topology.g[i]).layers.len()
                    <= u32::MAX,
            self.list_count() == lists_needed(levels_of(self@.topology.g), self@.topology.g.len()),
            self.link_count() == links_needed(
                levels_of(self@.topology.g),
                self.spec_config().m as int,
                self.spec_config().m_max0 as int,
                self@.topology.g.len(),
            ),
    {
        self.graph.wf_facts();
        self.graph.counts_bounded();
    }

    /// The tuning parameters.
    pub closed spec fn spec_config(&self) -> HnswConfig {
        self.config
    }

    /// The log entries that wait to be written.
    pub closed spec fn pending(&self) -> Seq<u8> {
        self.store.pending()
    }

    /// How many neighbor lists there are.
    pub closed spec fn list_count(&self) -> nat {
        self.graph.list_count()
    }

    /// How many links there is room for in them.
    pub closed spec fn link_count(&self) -> nat {
        self.graph.link_count()
    }

    /// Whether the arenas have room for the nodes of some more vectors; each has
    /// its number of layers above the lowest in `levels`.
    pub open spec fn has_room(&self, levels: Seq<usize>) -> bool {
        &&& self@.topology.g.len() + levels.len() <= u32::MAX
        &&& self.list_count() + lists_needed(levels, levels.len()) <= u32::MAX
        &&& self.link_count() + links_needed(
            levels,
            self.spec_config().m as int,
            self.spec_config().m_max0 as int,
            levels.len(),
        ) <= u32::MAX
    }

    /// Whether the arenas of an empty index have room for the nodes of some
    /// vectors.
    pub open spec fn has_room_for_all(&self, levels: Seq<usize>) -> bool {
        &&& levels.len() <= u32::MAX
        &&& lists_needed(levels, levels.len()) <= u32::MAX
        &&& links_needed(
            levels,
            self.spec_config().m as int,
            self.spec_config().m_max0 as int,
            levels.len(),
        ) <= u32::MAX
    }

    /// A new, empty index.
    pub fn create(dimension: u32, metric: Metric, config: HnswConfig) -> (index: Self)
        requires
            config.fits(),
        ensures
            index.wf(),
            index@.store == StoreView::empty(dimension, metric),
            index@.topology == Topology::empty(),
            index.spec_config() == config,
            index.pending() == Seq::<u8>::empty(),
            index.list_count() == 0,
            index.link_count() == 0,
    {
        Self::over(VectorStore::create(dimension, metric), config)
    }

    /// An index whose vectors have no nodes yet.
    fn over(store: VectorStore, config: HnswConfig) -> (index: Self)
        requires
            config.fits(),
            store.wf(),
        ensures
            index.partly_wf(),
            index@.store == store@,
            index@.topology == Topology::empty(),
            index.spec_config() == config,
            index.pending() == store.pending(),
            index.list_count() == 0,
            index.link_count() == 0,
    {
        Self {
            store,
            graph: Graph::new(config.m, config.m_max0),
            entry_point: None,
            max_level: 0,
            config,
            tombstone_count: 0,
            pool: VisitedPool::new(),
        }
    }

    /// Gives the vectors at the end of the store that have no nodes yet their
    /// nodes.
    fn link_slots<K: Fn(&[u32], &[u32]) -> u32>(&mut self, kernel: &K, levels: &[usize])
        requires
            old(self).partly_wf(),
            is_kernel(*kernel, old(self)@.store.header.dimension),
            old(self)@.topology.g.len() + levels@.len() == old(self)@.store.ids.len(),
            old(self).has_room(levels@),
        ensures
            final(self).wf(),
            final(self)@.store == old(self)@.store,
            final(self).pending() == old(self).pending(),
            final(self).spec_config() == old(self).spec_config(),
            final(self)@.topology == grown_by(
                *kernel,
                old(self).spec_config().limits(),
                old(self)@.topology,
                old(self)@.store.ids,
                old(self)@.store.vectors,
                old(self)@.topology.g.len() as int,
                levels@,
                levels@.len(),
            ),
            tombstones(final(self)@.topology.g, final(self)@.topology.g.len()) == tombstones(
                old(self)@.topology.g,
                old(self)@.topology.g.len(),
            ),
            final(self).list_count() == old(self).list_count() + lists_needed(
                levels@,
                levels@.len(),
            ),
            final(self).link_count() == old(self).link_count() + links_needed(
                levels@,
                old(self).spec_config().m as int,
                old(self).spec_config().m_max0 as int,
                levels@.len(),
            ),
    {
        let ghost limits = self.config.limits();
        let ghost t = self@.topology;
        let ghost s = self@.store;
        let ghost base = t.g.len() as int;
        let ghost m = self.config.m as int;
        let ghost m0 = self.config.m_max0 as int;
        let first_slot: usize = self.graph.len();
        for i in 0..levels.len()
            invariant
                self.partly_wf(),
                is_kernel(*kernel, s.header.dimension),
                self.store@ == s,
                self.pending() == old(self).pending(),
                self.config == old(self).config,
                limits == self.config.limits(),
                m == self.config.m,
                m0 == self.config.m_max0,
                old(self).has_room(levels@),
                t == old(self)@.topology,
                s == old(self)@.store,
                base == t.g.len(),
                first_slot == base,
                base + levels@.len() == s.ids.len(),
                self.graph@.len() == base + i,
                tombstones(self.graph@, self.graph@.len()) == tombstones(t.g, t.g.len()),
                self@.topology == grown_by(
                    *kernel,
                    limits,
                    t,
                    s.ids,
                    s.vectors,
                    base,
                    levels@,
                    i as nat,
                ),
                self.list_count() == old(self).list_count() + lists_needed(levels@, i as nat),
                self.link_count() == old(self).link_count() + links_needed(
                    levels@,
                    m,
                    m0,
                    i as nat,
                ),
        {
            let slot: usize = first_slot + i;
            let level: usize = levels[i];
            let ghost before = *self;
            proof {
                needed_grows(levels@, m, m0, (i + 1) as nat, levels@.len());
                assert forall|j: int| 0 <= j < self.graph@.len() implies 0 <= (
                #[trigger] self.graph@[j]).slot < self.store@.ids.len() by {}
            }
            let vector_id: u64 = match self.store.vector_id(slot) {
                Ok(id) => id,
                Err(_) => 0,
            };
            let top = insert_into_graph(
                &mut self.graph,
                &self.store,
                kernel,
                self.config.ef_construction,
                self.entry_point,
                self.max_level,
                slot,
                vector_id,
                level,
                &mut self.pool,
            );
            self.entry_point = top.0;
            self.max_level = top.1;
            proof {
                let g = before.graph@;
                let h = self.graph@;
                let node = fresh_node(slot as int, vector_id, level as nat);
                assert(same_nodes(g.push(node), h));
                assert forall|j: int| 0 <= j < h.len() implies {
                    &&& (#[trigger] h[j]).slot == j
                    &&& h[j].id == s.ids[j]
                    &&& h[j].deleted ==> s.deleted.contains(s.ids[j])
                } by {
                    assert(g.push(node)[j].slot == h[j].slot);
                    if j < g.len() {
                        assert(g.push(node)[j] == g[j]);
                    }
                }
                assert forall|j: int| 0 <= j < g.len() implies (#[trigger] g[j]).deleted
                    == h[j].deleted by {
                    assert(g.push(node)[j].deleted == h[j].deleted);
                }
                tombstones_same(g, h, g.len());
                assert(g.push(node)[g.len() as int].deleted == h[g.len() as int].deleted);
                assert forall|j: int| 0 <= j < g.len() implies (#[trigger] g[j]).layers.len()
                    == h[j].layers.len() by {
                    assert(g.push(node)[j].layers.len() == h[j].layers.len());
                }
                needed_alike(g, h, m, m0, g.len());
                assert(g.push(node)[g.len() as int].layers.len() == h[g.len() as int].layers.len());
                assert(levels_of(h)[g.len() as int] == level);
                assert(tombstones(h, h.len()) == tombstones(g, g.len()));
            }
        }
    }

    /// Opens an index over a store that was opened: builds the graph anew and
    /// marks the nodes of deleted vectors.
    pub fn open<K: Fn(&[u32], &[u32]) -> u32>(
        store: VectorStore,
        config: HnswConfig,
        kernel: &K,
        levels: &[usize],
    ) -> (index: Self)
        requires
            store.wf(),
            config.fits(),
            is_kernel(*kernel, store@.header.dimension),
            levels@.len() == store@.ids.len(),
            levels@.len() <= u32::MAX,
            lists_needed(levels@, levels@.len()) <= u32::MAX,
            links_needed(levels@, config.m as int, config.m_max0 as int, levels@.len()) <= u32::MAX,
        ensures
            index.wf(),
            index@.store == store@,
            index.pending() == store.pending(),
            index.spec_config() == config,
            index.list_count() == lists_needed(levels@, levels@.len()),
            index.link_count() == links_needed(
                levels@,
                config.m as int,
                config.m_max0 as int,
                levels@.len(),
            ),
            ({
                let t = built(
                    *kernel,
                    config.limits(),
                    store@.ids,
                    store@.vectors,
                    levels@,
                    store@.ids.len(),
                );
                index@.topology == (Topology { g: with_tombstones(t.g, store@.deleted), ..t })
            }),
    {
        let ghost s = store@;
        let mut index = Self::over(store, config);
        index.link_slots(kernel, levels);
        proof {
            grown_from_nothing(
                *kernel,
                config.limits(),
                s.ids,
                s.vectors,
                levels@,
                s.ids.len(),
            );
        }
        index.mark_tombstones();
        index
    }

    /// Opens an index over a store that was opened, with the graph that a snapshot
    /// holds. Where the snapshot does not check out the store is handed back, and
    /// the graph is to be built anew.
    pub fn open_with_snapshot(store: VectorStore, config: HnswConfig, snapshot: &[u8]) -> (result:
        Result<Self, VectorStore>)
        requires
            store.wf(),
            config.fits(),
        ensures
            match result {
                Ok(index) => {
                    &&& index.wf()
                    &&& index@.store == store@
                    &&& index.pending() == store.pending()
                    &&& index.spec_config() == config
                    &&& restore_graph(
                        snapshot@,
                        config,
                        store@.ids,
                        store@.header.max_vector_id,
                    ) matches Some(t) && index@.topology == (Topology {
                        g: with_tombstones(t.g, store@.deleted),
                        ..t
                    })
                },
                Err(back) => {
                    &&& back == store
                    &&& restore_graph(
                        snapshot@,
                        config,
                        store@.ids,
                        store@.header.max_vector_id,
                    ) is None
                },
            },
    {
        let ids = store.vector_ids();
        let max_vector_id: u64 = store.header().max_vector_id;
        match restore(snapshot, config, ids, max_vector_id) {
            None => Err(store),
            Some((graph, entry_point, max_level)) => {
                proof {
                    restored_nodes(snapshot@, config, store@.ids, max_vector_id);
                    no_tombstones(graph@, graph@.len());
                }
                let mut index = Self {
                    store,
                    graph,
                    entry_point,
                    max_level,
                    config,
                    tombstone_count: 0,
                    pool: VisitedPool::new(),
                };
                index.mark_tombstones();
                Ok(index)
            },
        }
    }

    /// A snapshot of the graph.
    pub fn graph_snapshot(&self) -> (out: Vec<u8>)
        requires
            self.wf(),
        ensures
            out@ == graph_bytes(
                self@.topology,
                self.spec_config(),
                self@.store.header.max_vector_id,
            ),
    {
        serialize_graph(
            &self.graph,
            self.entry_point,
            self.max_level,
            self.config,
            self.store.header().max_vector_id,
        )
    }

    /// Marks the nodes of deleted vectors.
    fn mark_tombstones(&mut self)
        requires
            old(self).wf(),
        ensures
            final(self).wf(),
            final(self)@.store == old(self)@.store,
            final(self).pending() == old(self).pending(),
            final(self).spec_config() == old(self).spec_config(),
            final(self).list_count() == old(self).list_count(),
            final(self).link_count() == old(self).link_count(),
            final(self)@.topology == (Topology {
                g: with_tombstones(old(self)@.topology.g, old(self)@.store.deleted),
                ..old(self)@.topology
            }),
    {
        let ghost g = self@.topology.g;
        let ghost deleted = self@.store.deleted;
        let n: usize = self.graph.len();
        for i in 0..n
            invariant
                self.wf(),
                self@.store == old(self)@.store,
                self.pending() == old(self).pending(),
                self.config == old(self).config,
                self.list_count() == old(self).list_count(),
                self.link_count() == old(self).link_count(),
                g == old(self)@.topology.g,
                deleted == self@.store.deleted,
                n == g.len(),
                self.graph@.len() == n,
                self@.topology.entry == old(self)@.topology.entry,
                self@.topology.max_level == old(self)@.topology.max_level,
                forall|j: int|
                    0 <= j < i ==> #[trigger] self.graph@[j] == with_tombstones(g, deleted)[j],
                forall|j: int| i <= j < n ==> #[trigger] self.graph@[j] == g[j],
        {
            let ghost before = self.graph@;
            assert(self.graph@[i as int].id == self.store@.ids[i as int]);
            if self.store.is_deleted(self.graph.vector_id(i)) && !self.graph.deleted(i) {
                proof {
                    tombstones_marked(before, i as int, before.len());
                    tombstones_bound(with_tombstone(before, i as int), before.len());
                }
                self.graph.mark_deleted(i);
                self.tombstone_count = self.tombstone_count + 1;
                proof {
                    let t = self@.topology;
                    assert forall|j: int| 0 <= j < t.g.len() implies (#[trigger] t.g[j]).layers.len()
                        <= t.max_level + 1 by {
                        assert(before[j].layers.len() <= t.max_level + 1);
                    }
                    needed_alike(
                        before,
                        self.graph@,
                        self.config.m as int,
                        self.config.m_max0 as int,
                        before.len(),
                    );
                }
            }
        }
        assert(self@.topology.g =~= with_tombstones(g, deleted));
    }

    /// Checks a vector and appends its insertion to the log. Returns the ID it
    /// will have.
    pub fn stage_insert(&mut self, vector: &[u32], metadata: &Option<Metadata>) -> (result: Result<
        u64,
        QuiverError,
    >)
        requires
            old(self).wf(),
            old(self)@.store.header.max_vector_id < u64::MAX,
        ensures
            final(self).wf(),
            final(self)@ == old(self)@,
            final(self).spec_config() == old(self).spec_config(),
            final(self).list_count() == old(self).list_count(),
            final(self).link_count() == old(self).link_count(),
            match result {
                Ok(id) => {
                    &&& vector@.len() == old(self)@.store.header.dimension
                    &&& id == old(self)@.store.header.max_vector_id + 1
                    &&& final(self).pending() == old(self).pending() + entry_bytes(
                        insert_entry(id, vector@, slot_view(*metadata)),
                    )
                },
                Err(e) => {
                    &&& vector@.len() != old(self)@.store.header.dimension
                    &&& e@ == (ErrorView::DimensionMismatch {
                        expected: old(self)@.store.header.dimension,
                        actual: len_field(vector@.len()),
                    })
                    &&& final(self).pending() == old(self).pending()
                },
            },
    {
        self.store.stage_insert(vector, metadata)
    }

    /// Adds a vector whose insertion is in the log, and its node with `level`
    /// layers above the lowest.
    pub fn commit_insert<K: Fn(&[u32], &[u32]) -> u32>(
        &mut self,
        kernel: &K,
        vector_id: u64,
        vector: &[u32],
        metadata: Option<Metadata>,
        level: usize,
    )
        requires
            old(self).wf(),
            is_kernel(*kernel, old(self)@.store.header.dimension),
            vector_id > old(self)@.store.header.max_vector_id,
            vector@.len() == old(self)@.store.header.dimension,
            old(self).has_room(seq![level]),
        ensures
            final(self).wf(),
            final(self).pending() == old(self).pending(),
            final(self).spec_config() == old(self).spec_config(),
            final(self)@ == index_grown(
                *kernel,
                old(self).spec_config().limits(),
                old(self)@,
                vector_id,
                vector@,
                slot_view(metadata),
                level,
            ),
            final(self).list_count() == old(self).list_count() + level + 1,
            final(self).link_count() == old(self).link_count() + old(self).spec_config().m_max0
                + level * old(self).spec_config().m,
    {
        let ghost before = *self;
        self.store.insert_raw(vector_id, vector, metadata);
        let levels: [usize; 1] = [level];
        proof {
            assert(levels@ =~= seq![level]);
            assert(nodes_mirror(self.graph@, self.store@)) by {
                assert forall|i: int| 0 <= i < self.graph@.len() implies {
                    &&& (#[trigger] self.graph@[i]).slot == i
                    &&& self.graph@[i].id == self.store@.ids[i]
                    &&& self.graph@[i].deleted ==> self.store@.deleted.contains(self.store@.ids[i])
                } by {
                    assert(before.graph@[i].id == before.store@.ids[i]);
                }
            }
            reveal_with_fuel(lists_needed, 2);
            reveal_with_fuel(links_needed, 2);
            reveal_with_fuel(grown_by, 2);
        }
        self.link_slots(kernel, &levels);
    }

    /// Adds a vector, and its node with `level` layers above the lowest. Returns
    /// the ID that the vector was given.
    pub fn insert<K: Fn(&[u32], &[u32]) -> u32>(
        &mut self,
        kernel: &K,
        vector: &[u32],
        level: usize,
    ) -> (result: Result<u64, QuiverError>)
        requires
            old(self).wf(),
            is_kernel(*kernel, old(self)@.store.header.dimension),
            old(self)@.store.header.max_vector_id < u64::MAX,
            old(self).has_room(seq![level]),
        ensures
            final(self).wf(),
            final(self).spec_config() == old(self).spec_config(),
            index_inserts(*kernel, old(self), final(self), vector@, None, level, result),
    {
        self.insert_inner(kernel, vector, None, level)
    }

    /// Adds a vector with metadata, and its node with `level` layers above the
    /// lowest. Returns the ID that the vector was given.
    pub fn insert_with_metadata<K: Fn(&[u32], &[u32]) -> u32>(
        &mut self,
        kernel: &K,
        vector: &[u32],
        metadata: Metadata,
        level: usize,
    ) -> (result: Result<u64, QuiverError>)
        requires
            old(self).wf(),
            is_kernel(*kernel, old(self)@.store.header.dimension),
            old(self)@.store.header.max_vector_id < u64::MAX,
            old(self).has_room(seq![level]),
        ensures
            final(self).wf(),
            final(self).spec_config() == old(self).spec_config(),
            index_inserts(*kernel, old(self), final(self), vector@, Some(metadata@), level, result),
    {
        self.insert_inner(kernel, vector, Some(metadata), level)
    }

    fn insert_inner<K: Fn(&[u32], &[u32]) -> u32>(
        &mut self,
        kernel: &K,
        vector: &[u32],
        metadata: Option<Metadata>,
        level: usize,
    ) -> (result: Result<u64, QuiverError>)
        requires
            old(self).wf(),
            is_kernel(*kernel, old(self)@.store.header.dimension),
            old(self)@.store.header.max_vector_id < u64::MAX,
            old(self).has_room(seq![level]),
        ensures
            final(self).wf(),
            final(self).spec_config() == old(self).spec_config(),
            index_inserts(
                *kernel,
                old(self),
                final(self),
                vector@,
                slot_view(metadata),
                level,
                result,
            ),
    {
        match self.stage_insert(vector, &metadata) {
            Err(e) => Err(e),
            Ok(id) => {
                self.commit_insert(kernel, id, vector, metadata, level);
                Ok(id)
            },
        }
    }

    /// Checks a batch and appends its insertions to the log. Returns the IDs
    /// that its vectors will have.
    pub fn stage_batch(&mut self, batch: &[&[u32]], metadata: &[Option<Metadata>]) -> (result:
        Result<Vec<u64>, QuiverError>)
        requires
            old(self).wf(),
            batch@.len() == metadata@.len(),
            old(self)@.store.header.max_vector_id + batch@.len() <= u64::MAX,
        ensures
            final(self).wf(),
            final(self)@ == old(self)@,
            final(self).spec_config() == old(self).spec_config(),
            final(self).list_count() == old(self).list_count(),
            final(self).link_count() == old(self).link_count(),
            match result {
                Ok(ids) => {
                    &&& dimensions_match(
                        batch_views(batch@),
                        old(self)@.store.header.dimension,
                        batch@.len() as int,
                    )
                    &&& ids@ == next_ids(old(self)@.store.header.max_vector_id, batch@.len())
                    &&& final(self).pending() == old(self).pending() + batch_log(
                        old(self)@.store.header.max_vector_id,
                        batch_views(batch@),
                        slot_views(metadata@),
                        batch@.len(),
                    )
                },
                Err(e) => {
                    &&& is_first_mismatch(
                        batch_views(batch@),
                        old(self)@.store.header.dimension,
                        e@,
                    )
                    &&& final(self).pending() == old(self).pending()
                },
            },
    {
        self.store.stage_batch(batch, metadata)
    }

    /// Adds the vectors of a batch whose insertions are in the log, and their
    /// nodes.
    pub fn commit_batch<K: Fn(&[u32], &[u32]) -> u32>(
        &mut self,
        kernel: &K,
        batch: &[&[u32]],
        metadata: &[Option<Metadata>],
        ids: &Vec<u64>,
        levels: &[usize],
    )
        requires
            old(self).wf(),
            is_kernel(*kernel, old(self)@.store.header.dimension),
            batch@.len() == metadata@.len(),
            batch@.len() == levels@.len(),
            old(self)@.store.header.max_vector_id + batch@.len() <= u64::MAX,
            ids@ == next_ids(old(self)@.store.header.max_vector_id, batch@.len()),
            dimensions_match(
                batch_views(batch@),
                old(self)@.store.header.dimension,
                batch@.len() as int,
            ),
            old(self).has_room(levels@),
        ensures
            final(self).wf(),
            final(self).spec_config() == old(self).spec_config(),
            final(self).pending() == old(self).pending(),
            final(self)@ == index_grown_by(
                *kernel,
                old(self).spec_config().limits(),
                old(self)@,
                batch_views(batch@),
                slot_views(metadata@),
                levels@,
            ),
            final(self).list_count() == old(self).list_count() + lists_needed(
                levels@,
                levels@.len(),
            ),
            final(self).link_count() == old(self).link_count() + links_needed(
                levels@,
                old(self).spec_config().m as int,
                old(self).spec_config().m_max0 as int,
                levels@.len(),
            ),
    {
        let ghost before = *self;
        self.store.insert_staged(batch, metadata, ids);
        proof {
            let s = before.store@;
            let t = self.store@;
            batch_inserted_prefix(s, batch_views(batch@), slot_views(metadata@), batch@.len());
            assert(nodes_mirror(self.graph@, t)) by {
                assert forall|i: int| 0 <= i < self.graph@.len() implies {
                    &&& (#[trigger] self.graph@[i]).slot == i
                    &&& self.graph@[i].id == t.ids[i]
                    &&& self.graph@[i].deleted ==> t.deleted.contains(t.ids[i])
                } by {
                    assert(before.graph@[i].id == s.ids[i]);
                    assert(t.ids[i] == s.ids[i]);
                }
            }
        }
        self.link_slots(kernel, levels);
    }

    fn insert_batch_inner<K: Fn(&[u32], &[u32]) -> u32>(
        &mut self,
        kernel: &K,
        batch: &[&[u32]],
        metadata: &[Option<Metadata>],
        levels: &[usize],
    ) -> (result: Result<Vec<u64>, QuiverError>)
        requires
            old(self).wf(),
            is_kernel(*kernel, old(self)@.store.header.dimension),
            batch@.len() == metadata@.len(),
            batch@.len() == levels@.len(),
            old(self)@.store.header.max_vector_id + batch@.len() <= u64::MAX,
            old(self).has_room(levels@),
        ensures
            final(self).wf(),
            final(self).spec_config() == old(self).spec_config(),
            index_inserts_batch(
                *kernel,
                old(self),
                final(self),
                batch_views(batch@),
                slot_views(metadata@),
                levels@,
                result,
            ),
    {
        match self.stage_batch(batch, metadata) {
            Err(e) => Err(e),
            Ok(ids) => {
                self.commit_batch(kernel, batch, metadata, &ids, levels);
                Ok(ids)
            },
        }
    }

    /// Adds a batch of vectors, all or none, and their nodes. Returns the IDs
    /// that the vectors were given.
    pub fn insert_batch<K: Fn(&[u32], &[u32]) -> u32>(
        &mut self,
        kernel: &K,
        batch: &[&[u32]],
        levels: &[usize],
    ) -> (result: Result<Vec<u64>, QuiverError>)
        requires
            old(self).wf(),
            is_kernel(*kernel, old(self)@.store.header.dimension),
            batch@.len() == levels@.len(),
            old(self)@.store.header.max_vector_id + batch@.len() <= u64::MAX,
            old(self).has_room(levels@),
        ensures
            final(self).wf(),
            final(self).spec_config() == old(self).spec_config(),
            index_inserts_batch(
                *kernel,
                old(self),
                final(self),
                batch_views(batch@),
                no_metadata(batch@.len()),
                levels@,
                result,
            ),
    {
        let none = without_metadata(batch.len());
        self.insert_batch_inner(kernel, batch, none.as_slice(), levels)
    }

    /// Adds a batch of vectors, all or none, each with its entry of `metadata`,
    /// and their nodes. Returns the IDs that the vectors were given.
    pub fn insert_batch_with_metadata<K: Fn(&[u32], &[u32]) -> u32>(
        &mut self,
        kernel: &K,
        batch: &[&[u32]],
        metadata: &[Option<Metadata>],
        levels: &[usize],
    ) -> (result: Result<Vec<u64>, QuiverError>)
        requires
            old(self).wf(),
            is_kernel(*kernel, old(self)@.store.header.dimension),
            batch@.len() == levels@.len(),
            old(self)@.store.header.max_vector_id + batch@.len() <= u64::MAX,
            old(self).has_room(levels@),
        ensures
            final(self).wf(),
            final(self).spec_config() == old(self).spec_config(),
            if batch@.len() == metadata@.len() {
                index_inserts_batch(
                    *kernel,
                    old(self),
                    final(self),
                    batch_views(batch@),
                    slot_views(metadata@),
                    levels@,
                    result,
                )
            } else {
                &&& result matches Err(e) && e@ == ErrorView::InvalidFormat(
                    "Batch has "@ + decimal(batch@.len()) + " vectors but "@ + decimal(
                        metadata@.len(),
                    ) + " metadata entries"@,
                )
                &&& final(self)@ == old(self)@
                &&& final(self).pending() == old(self).pending()
                &&& final(self).list_count() == old(self).list_count()
                &&& final(self).link_count() == old(self).link_count()
            },
    {
        if batch.len() != metadata.len() {
            return Err(QuiverError::InvalidFormat(phrase2(
                "Batch has ", batch.len() as u64, " vectors but ", metadata.len() as u64,
                " metadata entries")));
        }
        self.insert_batch_inner(kernel, batch, metadata, levels)
    }

    /// Whether a query can be answered, and from which entry point.
    fn check_query(&self, query: &[u32]) -> (result: Result<usize, QuiverError>)
        requires
            self.wf(),
        ensures
            match result {
                Ok(entry) => {
                    &&& query@.len() == self@.store.header.dimension
                    &&& self@.topology.entry == Some(entry as int)
                },
                Err(e) => search_outcome(self@, query@, Seq::empty(), Err(e)),
            },
    {
        if query.len() != self.store.dimension() as usize {
            return Err(QuiverError::DimensionMismatch {
                expected: self.store.dimension(),
                actual: (query.len() as u64 % 0x1_0000_0000) as u32,
            });
        }
        match self.entry_point {
            Some(entry) => Ok(entry),
            None => Err(QuiverError::EmptyIndex),
        }
    }

    /// Searches for the `k` nearest neighbors of a query, with a beam of width
    /// `ef_search` or `k`, whichever is larger. The nearest come first.
    pub fn search<K: Fn(&[u32], &[u32]) -> u32>(
        &self,
        kernel: &K,
        query: &[u32],
        k: usize,
        ef_search: usize,
    ) -> (result: Result<Vec<SearchResult>, QuiverError>)
        requires
            self.wf(),
            is_kernel(*kernel, self@.store.header.dimension),
        ensures
            search_outcome(
                self@,
                query@,
                search_results(
                    self@.topology,
                    distances(*kernel, query@, self@.topology.g, self@.store.vectors),
                    k as nat,
                    ef_search as nat,
                ),
                result,
            ),
            result is Ok <==> query@.len() == self@.store.header.dimension && self@.store.ids.len() > 0,
            result matches Ok(list) ==> list@.len() <= k && forall|i: int|
                0 <= i < list@.len() ==> {
                    let slot = (#[trigger] list@[i]).slot as int;
                    &&& slot < self@.store.ids.len()
                    &&& list@[i].vector_id == self@.store.ids[slot]
                    &&& list@[i].distance == distance(*kernel, query@, self@.store.vectors[slot])
                    &&& !self@.topology.g[slot].deleted
                },
    {
        let mut pool = VisitedPool::new();
        self.search_with(kernel, query, k, ef_search, &mut pool)
    }

    /// Like [`HnswIndex::search`], with a pool that is reused between searches.
    pub fn search_with<K: Fn(&[u32], &[u32]) -> u32>(
        &self,
        kernel: &K,
        query: &[u32],
        k: usize,
        ef_search: usize,
        pool: &mut VisitedPool,
    ) -> (result: Result<Vec<SearchResult>, QuiverError>)
        requires
            self.wf(),
            is_kernel(*kernel, self@.store.header.dimension),
            old(pool).wf(),
        ensures
            final(pool).wf(),
            search_outcome(
                self@,
                query@,
                search_results(
                    self@.topology,
                    distances(*kernel, query@, self@.topology.g, self@.store.vectors),
                    k as nat,
                    ef_search as nat,
                ),
                result,
            ),
            result is Ok <==> query@.len() == self@.store.header.dimension && self@.store.ids.len() > 0,
            result matches Ok(list) ==> list@.len() <= k && forall|i: int|
                0 <= i < list@.len() ==> {
                    let slot = (#[trigger] list@[i]).slot as int;
                    &&& slot < self@.store.ids.len()
                    &&& list@[i].vector_id == self@.store.ids[slot]
                    &&& list@[i].distance == distance(*kernel, query@, self@.store.vectors[slot])
                    &&& !self@.topology.g[slot].deleted
                },
    {
        proof {
            self.wf_facts();
            if self@.topology.entry is Some {
                results_name_their_vectors(
                    *kernel,
                    query@,
                    self@,
                    Filter::And(arbitrary()),
                    k as nat,
                    ef_search as nat,
                );
            }
        }
        let entry: usize = match self.check_query(query) {
            Ok(entry) => entry,
            Err(e) => return Err(e),
        };
        let ghost g = self.graph@;
        let ghost ds = distances(*kernel, query@, g, self.store@.vectors);
        let ef: usize = if ef_search >= k {
            ef_search
        } else {
            k
        };
        assert(slots_in_range(g, self.store@.ids.len()));
        let start: usize = greedy_descent(
            &self.graph,
            &self.store,
            kernel,
            query,
            true,
            self.max_level,
            1,
            entry,
        );
        let found = search_layer(&self.graph, &self.store, kernel, query, start, ef, 0, pool);
        let ghost live = live_candidates(g, -1, found@);
        let mut results: Vec<SearchResult> = Vec::new();
        let ghost mut picked = Seq::<Candidate>::empty();
        assert(found@.take(0) =~= Seq::empty());
        assert(results@ =~= results_of(g, first(Seq::empty(), k as nat)));
        for i in 0..found.len()
            invariant
                self.wf(),
                g == self.graph@,
                ds.len() == g.len(),
                holds_nodes(found@, ds),
                picked == live_candidates(g, -1, found@.take(i as int)),
                results@ == results_of(g, first(picked, k as nat)),
        {
            let c = found[i];
            let ghost before = picked;
            proof {
                assert(found@.take(i + 1).drop_last() =~= found@.take(i as int));
                assert(found@.take(i + 1).last() == c);
                assert(c.node_idx < ds.len());
            }
            if !self.graph.deleted(c.node_idx) {
                proof {
                    picked = before.push(c);
                }
                if results.len() < k {
                    let ghost so_far = results@;
                    let r = SearchResult {
                        slot: self.graph.slot(c.node_idx),
                        vector_id: self.graph.vector_id(c.node_idx),
                        distance: c.distance,
                    };
                    assert(r == result_of(g, c));
                    results.push(r);
                    assert(first(before, k as nat) == before);
                    assert(first(picked, k as nat) =~= before.push(c));
                    assert(results@ =~= results_of(g, first(picked, k as nat)));
                } else {
                    assert(first(before, k as nat).len() == k);
                    assert(first(picked, k as nat) =~= first(before, k as nat));
                }
            }
        }
        assert(found@.take(found@.len() as int) =~= found@);
        Ok(results)
    }

    /// Searches for the `k` nearest neighbors of a query among the vectors whose
    /// metadata passes a filter. At least `ef_search` or `k` nodes, whichever is
    /// larger, are gone on from, as long as there are any. The nearest come
    /// first; where nothing passes there are none.
    pub fn search_filtered<K: Fn(&[u32], &[u32]) -> u32>(
        &self,
        kernel: &K,
        query: &[u32],
        k: usize,
        ef_search: usize,
        filter: &Filter,
    ) -> (result: Result<Vec<SearchResult>, QuiverError>)
        requires
            self.wf(),
            is_kernel(*kernel, self@.store.header.dimension),
        ensures
            search_outcome(
                self@,
                query@,
                filtered_results(
                    self@.topology,
                    distances(*kernel, query@, self@.topology.g, self@.store.vectors),
                    passing(self@.topology.g, self@.store.metadata, *filter),
                    k as nat,
                    ef_search as nat,
                ),
                result,
            ),
            result is Ok <==> query@.len() == self@.store.header.dimension && self@.store.ids.len() > 0,
            result matches Ok(list) ==> list@.len() <= k && forall|i: int|
                0 <= i < list@.len() ==> {
                    let slot = (#[trigger] list@[i]).slot as int;
                    &&& slot < self@.store.ids.len()
                    &&& list@[i].vector_id == self@.store.ids[slot]
                    &&& list@[i].distance == distance(*kernel, query@, self@.store.vectors[slot])
                    &&& !self@.topology.g[slot].deleted
                    &&& self@.store.metadata[slot] is Some
                    &&& filter.holds(pairs_map(self@.store.metadata[slot]->0))
                },
    {
        let mut pool = VisitedPool::new();
        self.search_filtered_with(kernel, query, k, ef_search, filter, &mut pool)
    }

    /// Like [`HnswIndex::search_filtered`], with a pool that is reused between
    /// searches.
    pub fn search_filtered_with<K: Fn(&[u32], &[u32]) -> u32>(
        &self,
        kernel: &K,
        query: &[u32],
        k: usize,
        ef_search: usize,
        filter: &Filter,
        pool: &mut VisitedPool,
    ) -> (result: Result<Vec<SearchResult>, QuiverError>)
        requires
            self.wf(),
            is_kernel(*kernel, self@.store.header.dimension),
            old(pool).wf(),
        ensures
            final(pool).wf(),
            search_outcome(
                self@,
                query@,
                filtered_results(
                    self@.topology,
                    distances(*kernel, query@, self@.topology.g, self@.store.vectors),
                    passing(self@.topology.g, self@.store.metadata, *filter),
                    k as nat,
                    ef_search as nat,
                ),
                result,
            ),
            result is Ok <==> query@.len() == self@.store.header.dimension && self@.store.ids.len() > 0,
            result matches Ok(list) ==> list@.len() <= k && forall|i: int|
                0 <= i < list@.len() ==> {
                    let slot = (#[trigger] list@[i]).slot as int;
                    &&& slot < self@.store.ids.len()
                    &&& list@[i].vector_id == self@.store.ids[slot]
                    &&& list@[i].distance == distance(*kernel, query@, self@.store.vectors[slot])
                    &&& !self@.topology.g[slot].deleted
                    &&& self@.store.metadata[slot] is Some
                    &&& filter.holds(pairs_map(self@.store.metadata[slot]->0))
                },
    {
        proof {
            self.wf_facts();
            if self@.topology.entry is Some {
                results_name_their_vectors(
                    *kernel,
                    query@,
                    self@,
                    *filter,
                    k as nat,
                    ef_search as nat,
                );
            }
        }
        let entry: usize = match self.check_query(query) {
            Ok(entry) => entry,
            Err(e) => return Err(e),
        };
        let ghost g = self.graph@;
        let ghost ds = distances(*kernel, query@, g, self.store@.vectors);
        let mut results: Vec<SearchResult> = Vec::new();
        if k == 0 {
            assert(results@ =~= Seq::empty());
            return Ok(results);
        }
        let ef: usize = if ef_search >= k {
            ef_search
        } else {
            k
        };
        assert(slots_in_range(g, self.store@.ids.len()));
        let start: usize = greedy_descent(
            &self.graph,
            &self.store,
            kernel,
            query,
            true,
            self.max_level,
            1,
            entry,
        );
        let found = search_layer_filtered(
            &self.graph,
            &self.store,
            kernel,
            query,
            start,
            k,
            ef,
            filter,
            pool,
        );
        for i in 0..found.len()
            invariant
                self.wf(),
                g == self.graph@,
                ds.len() == g.len(),
                holds_nodes(found@, ds),
                results@ == results_of(g, found@).take(i as int),
        {
            let c = found[i];
            assert(c.node_idx < ds.len());
            let ghost so_far = results@;
            let r = SearchResult {
                slot: self.graph.slot(c.node_idx),
                vector_id: self.graph.vector_id(c.node_idx),
                distance: c.distance,
            };
            assert(r == result_of(g, c));
            results.push(r);
            assert(results@ =~= results_of(g, found@).take(i + 1));
        }
        assert(results@ =~= results_of(g, found@));
        Ok(results)
    }

    /// Checks a deletion and appends it to the log.
    pub fn stage_delete(&mut self, vector_id: u64) -> (result: Result<(), QuiverError>)
        requires
            old(self).wf(),
        ensures
            final(self).wf(),
            final(self)@ == old(self)@,
            final(self).spec_config() == old(self).spec_config(),
            final(self).list_count() == old(self).list_count(),
            final(self).link_count() == old(self).link_count(),
            match result {
                Ok(_) => {
                    &&& old(self)@.store.is_live(vector_id)
                    &&& final(self).pending() == old(self).pending() + entry_bytes(
                        delete_entry(vector_id),
                    )
                },
                Err(e) => {
                    &&& !old(self)@.store.is_live(vector_id)
                    &&& e@ == ErrorView::NotFound(vector_id)
                    &&& final(self).pending() == old(self).pending()
                },
            },
    {
        self.store.stage_delete(vector_id)
    }

    /// Marks a vector whose deletion is in the log as deleted, in the store and
    /// in the graph. Returns whether a compaction is now due, as `exceeds` says of
    /// the number of deleted nodes, the number of all nodes and the largest ratio
    /// between them that the parameters allow.
    pub fn commit_delete<T: Fn(usize, usize, u64) -> bool>(
        &mut self,
        vector_id: u64,
        exceeds: &T,
    ) -> (due: bool)
        requires
            old(self).wf(),
            old(self)@.store.is_live(vector_id),
            forall|a: usize, b: usize, r: u64| #[trigger] exceeds.requires((a, b, r)),
        ensures
            final(self).wf(),
            final(self).spec_config() == old(self).spec_config(),
            final(self).pending() == old(self).pending(),
            final(self)@ == index_erased(old(self)@, vector_id),
            tombstones(final(self)@.topology.g, final(self)@.topology.g.len()) == tombstones(
                old(self)@.topology.g,
                old(self)@.topology.g.len(),
            ) + 1,
            final(self).list_count() == old(self).list_count(),
            final(self).link_count() == old(self).link_count(),
            compaction_due(*exceeds, final(self)@, old(self).spec_config(), due),
    {
        let ghost before = *self;
        let ghost g = self.graph@;
        proof {
            self.graph.wf_facts();
        }
        if let Some(slot) = self.store.slot_for_id(vector_id) {
            self.store.apply_delete(vector_id);
            proof {
                assert(g[slot as int].id == vector_id);
                tombstones_marked(g, slot as int, g.len());
                tombstones_bound(with_tombstone(g, slot as int), g.len());
            }
            self.graph.mark_deleted(slot);
            self.tombstone_count = self.tombstone_count + 1;
            proof {
                let h = self.graph@;
                let t = self@.topology;
                assert forall|j: int| 0 <= j < h.len() implies (#[trigger] h[j]).layers.len()
                    <= t.max_level + 1 by {
                    assert(g[j].layers.len() <= t.max_level + 1);
                }
                needed_alike(g, h, self.config.m as int, self.config.m_max0 as int, g.len());
                assert forall|j: int| 0 <= j < h.len() implies {
                    &&& (#[trigger] h[j]).slot == j
                    &&& h[j].id == self.store@.ids[j]
                    &&& h[j].deleted ==> self.store@.deleted.contains(self.store@.ids[j])
                } by {
                    assert(g[j].slot == j);
                }
            }
        }
        let due: bool = exceeds(
            self.tombstone_count,
            self.graph.len(),
            self.config.max_tombstone_ratio,
        );
        due
    }

    /// Deletes a vector: it gets a tombstone, which is in the log too, and is no
    /// longer found. Where `exceeds` then says that too many nodes are deleted, the
    /// index is compacted, with nodes of `levels`. Returns whether it was.
    pub fn delete<K: Fn(&[u32], &[u32]) -> u32, T: Fn(usize, usize, u64) -> bool>(
        &mut self,
        kernel: &K,
        vector_id: u64,
        exceeds: &T,
        levels: &[usize],
    ) -> (result: Result<bool, QuiverError>)
        requires
            old(self).wf(),
            is_kernel(*kernel, old(self)@.store.header.dimension),
            forall|a: usize, b: usize, r: u64| #[trigger] exceeds.requires((a, b, r)),
            old(self).has_room_for_all(levels@),
            old(self)@.store.is_live(vector_id) ==> levels@.len() == old(self)@.store.erased(
                vector_id,
            ).compacted().ids.len(),
        ensures
            final(self).wf(),
            final(self).spec_config() == old(self).spec_config(),
            match result {
                Ok(due) => {
                    let erased = index_erased(old(self)@, vector_id);
                    &&& old(self)@.store.is_live(vector_id)
                    &&& compaction_due(*exceeds, erased, old(self).spec_config(), due)
                    &&& final(self)@ == (if due {
                        index_compacted(
                            *kernel,
                            old(self).spec_config().limits(),
                            erased,
                            levels@,
                        )
                    } else {
                        erased
                    })
                    &&& tombstones(final(self)@.topology.g, final(self)@.topology.g.len()) == (
                    if due {
                        0
                    } else {
                        tombstones(old(self)@.topology.g, old(self)@.topology.g.len()) + 1
                    })
                    &&& final(self).pending() == (if due {
                        Seq::<u8>::empty()
                    } else {
                        old(self).pending() + entry_bytes(delete_entry(vector_id))
                    })
                },
                Err(e) => {
                    &&& !old(self)@.store.is_live(vector_id)
                    &&& e@ == ErrorView::NotFound(vector_id)
                    &&& final(self)@ == old(self)@
                    &&& final(self).pending() == old(self).pending()
                },
            },
    {
        match self.stage_delete(vector_id) {
            Err(e) => Err(e),
            Ok(_) => {
                let due: bool = self.commit_delete(vector_id, exceeds);
                if due {
                    self.compact(kernel, levels);
                }
                Ok(due)
            },
        }
    }

    /// Rewrites the store with its live vectors alone and builds the graph anew.
    pub fn compact<K: Fn(&[u32], &[u32]) -> u32>(&mut self, kernel: &K, levels: &[usize])
        requires
            old(self).wf(),
            is_kernel(*kernel, old(self)@.store.header.dimension),
            levels@.len() == old(self)@.store.compacted().ids.len(),
            old(self).has_room_for_all(levels@),
        ensures
            final(self).wf(),
            final(self).spec_config() == old(self).spec_config(),
            final(self).pending() == Seq::<u8>::empty(),
            tombstones(final(self)@.topology.g, final(self)@.topology.g.len()) == 0,
            final(self).list_count() == lists_needed(levels@, levels@.len()),
            final(self).link_count() == links_needed(
                levels@,
                old(self).spec_config().m as int,
                old(self).spec_config().m_max0 as int,
                levels@.len(),
            ),
            final(self)@ == index_compacted(
                *kernel,
                old(self).spec_config().limits(),
                old(self)@,
                levels@,
            ),
    {
        let store = self.store.compacted();
        let ghost s = store@;
        let mut index = Self::over(store, self.config);
        index.link_slots(kernel, levels);
        proof {
            grown_from_nothing(
                *kernel,
                self.config.limits(),
                s.ids,
                s.vectors,
                levels@,
                levels@.len(),
            );
        }
        *self = index;
    }

    /// Number of vectors that are not deleted.
    pub fn len(&self) -> (n: usize)
        requires
            self.wf(),
        ensures
            n == self@.topology.g.len() - tombstones(self@.topology.g, self@.topology.g.len()),
    {
        proof {
            tombstones_bound(self.graph@, self.graph@.len());
        }
        self.graph.len() - self.tombstone_count
    }

    /// Whether every vector is deleted, or there is none.
    pub fn is_empty(&self) -> (r: bool)
        requires
            self.wf(),
        ensures
            r == (self@.topology.g.len() == tombstones(
                self@.topology.g,
                self@.topology.g.len(),
            )),
    {
        self.len() == 0
    }

    /// Number of nodes, those of deleted vectors included.
    pub fn total_nodes(&self) -> (n: usize)
        ensures
            n == self@.topology.g.len(),
    {
        self.graph.len()
    }

    /// Number of nodes of deleted vectors.
    pub fn tombstone_count(&self) -> (n: usize)
        requires
            self.wf(),
        ensures
            n == tombstones(self@.topology.g, self@.topology.g.len()),
    {
        self.tombstone_count
    }

    /// The highest layer of the graph.
    pub fn max_level(&self) -> (level: usize)
        ensures
            level == self@.topology.max_level,
    {
        self.max_level
    }

    /// The node from which every search starts.
    pub fn entry_point(&self) -> (entry: Option<usize>)
        ensures
            entry_view(entry) == self@.topology.entry,
    {
        self.entry_point
    }

    /// Number of layers of a node.
    pub fn layer_count(&self, node: usize) -> (n: usize)
        requires
            self.wf(),
            node < self@.topology.g.len(),
        ensures
            n == self@.topology.g[node as int].layers.len(),
    {
        self.graph.layer_count(node)
    }

    /// The neighbors of a node in a layer.
    pub fn neighbors(&self, node: usize, level: usize) -> (links: &[u32])
        requires
            self.wf(),
            node < self@.topology.g.len(),
            level < self@.topology.g[node as int].layers.len(),
        ensures
            links@.len() == self@.topology.g[node as int].layers[level as int].len(),
            forall|i: int|
                0 <= i < links@.len() ==> #[trigger] links@[i]
                    == self@.topology.g[node as int].layers[level as int][i],
    {
        self.graph.neighbors(node, level)
    }

    /// Number of components of each vector.
    pub fn dimension(&self) -> (d: u32)
        ensures
            d == self@.store.header.dimension,
    {
        self.store.dimension()
    }

    /// The distance metric.
    pub fn metric(&self) -> (m: Metric)
        ensures
            m == self@.store.header.metric,
    {
        self.store.metric()
    }

    /// The tuning parameters.
    pub fn config(&self) -> (config: HnswConfig)
        ensures
            config == self.spec_config(),
    {
        self.config
    }

    /// The vectors.
    pub fn store(&self) -> (store: &VectorStore)
        requires
            self.wf(),
        ensures
            store@ == self@.store,
            store.wf(),
            store.pending() == self.pending(),
    {
        &self.store
    }

    /// Hands out the log entries that wait, to be written behind the log and
    /// synced.
    pub fn flush_wal(&mut self) -> (bytes: Vec<u8>)
        requires
            old(self).wf(),
        ensures
            bytes@ == old(self).pending(),
            final(self).pending() == Seq::<u8>::empty(),
            final(self).wf(),
            final(self)@ == old(self)@,
            final(self).spec_config() == old(self).spec_config(),
            final(self).list_count() == old(self).list_count(),
            final(self).link_count() == old(self).link_count(),
    {
        self.store.flush_wal()
    }

    /// Whether there is room for the nodes of some more vectors.
    pub fn can_insert(&self, levels: &[usize]) -> (r: bool)
        requires
            self.wf(),
        ensures
            r == self.has_room(levels@),
    {
        proof {
            self.graph.wf_facts();
        }
        let lists: usize = self.graph.lists();
        let links: usize = self.graph.links();
        fits_arenas(self.graph.len(), lists, links, self.config, levels)
    }
}

/// Whether arenas that hold this much have room for the nodes of some vectors.
pub fn fits_arenas(
    nodes: usize,
    lists: usize,
    links: usize,
    config: HnswConfig,
    levels: &[usize],
) -> (r: bool)
    requires
        nodes <= u32::MAX,
        lists <= u32::MAX,
        links <= u32::MAX,
        config.fits(),
    ensures
        r == (nodes + levels@.len() <= u32::MAX && lists + lists_needed(levels@, levels@.len())
            <= u32::MAX && links + links_needed(
            levels@,
            config.m as int,
            config.m_max0 as int,
            levels@.len(),
        ) <= u32::MAX),
{
    let ghost m = config.m as int;
    let ghost m0 = config.m_max0 as int;
    if levels.len() > u32::MAX as usize - nodes {
        return false;
    }
    let mut lists_total: u128 = lists as u128;
    let mut links_total: u128 = links as u128;
    for i in 0..levels.len()
        invariant
            m == config.m,
            m0 == config.m_max0,
            config.fits(),
            lists_total == lists + lists_needed(levels@, i as nat),
            links_total == links + links_needed(levels@, m, m0, i as nat),
            lists_total <= u32::MAX,
            links_total <= u32::MAX,
    {
        let level: usize = levels[i];
        proof {
            needed_grows(levels@, m, m0, (i + 1) as nat, levels@.len());
            needed_grows(levels@, m, m0, i as nat, i as nat);
            assert(level * m <= 0xffff_ffff_ffff_ffff * 0xffff_ffff) by (nonlinear_arith)
                requires
                    0 <= level <= 0xffff_ffff_ffff_ffff,
                    0 <= m <= 0xffff_ffff,
            ;
            assert(0 <= level * m) by (nonlinear_arith)
                requires
                    0 <= level,
                    0 <= m,
            ;
        }
        lists_total = lists_total + level as u128 + 1;
        links_total = links_total + config.m_max0 as u128 + level as u128 * config.m as u128;
        if lists_total > u32::MAX as u128 || links_total > u32::MAX as u128 {
            return false;
        }
    }
    true
}

/// An index rewritten with its live vectors alone.
pub open spec fn index_compacted<K: Fn(&[u32], &[u32]) -> u32>(
    kernel: K,
    limits: Limits,
    index: IndexView,
    levels: Seq<usize>,
) -> IndexView {
    IndexView {
        store: index.store.compacted(),
        topology: built(
            kernel,
            limits,
            index.store.compacted().ids,
            index.store.compacted().vectors,
            levels,
            levels.len(),
        ),
    }
}

/// Whether `due` is what a threshold says of an index: of the number of its
/// deleted nodes, the number of all its nodes and the largest ratio that its
/// parameters allow.
pub open spec fn compaction_due<T: Fn(usize, usize, u64) -> bool>(
    exceeds: T,
    index: IndexView,
    config: HnswConfig,
    due: bool,
) -> bool {
    exceeds.ensures(
        (
            tombstones(index.topology.g, index.topology.g.len()) as usize,
            index.topology.g.len() as usize,
            config.max_tombstone_ratio,
        ),
        due,
    )
}

/// The index with a vector marked as deleted.
pub open spec fn index_erased(index: IndexView, id: u64) -> IndexView {
    IndexView {
        store: index.store.erased(id),
        topology: Topology {
            g: with_tombstone(index.topology.g, index.store.ids.index_of(id)),
            ..index.topology
        },
    }
}

/// The index with the vectors of a batch.
pub open spec fn index_grown_by<K: Fn(&[u32], &[u32]) -> u32>(
    kernel: K,
    limits: Limits,
    index: IndexView,
    batch: Seq<Seq<u32>>,
    metadata: Seq<Option<Pairs>>,
    levels: Seq<usize>,
) -> IndexView {
    let store = index.store.batch_inserted(batch, metadata, batch.len());
    IndexView {
        store,
        topology: grown_by(
            kernel,
            limits,
            index.topology,
            store.ids,
            store.vectors,
            index.store.ids.len() as int,
            levels,
            levels.len(),
        ),
    }
}

/// What it means to add a batch to an index: its vectors have the next IDs,
/// their insertions are in the log and their nodes in the graph; or one is of
/// the wrong length, and nothing changes.
pub open spec fn index_inserts_batch<K: Fn(&[u32], &[u32]) -> u32>(
    kernel: K,
    before: &HnswIndex,
    after: &HnswIndex,
    batch: Seq<Seq<u32>>,
    metadata: Seq<Option<Pairs>>,
    levels: Seq<usize>,
    result: Result<Vec<u64>, QuiverError>,
) -> bool {
    match result {
        Ok(ids) => {
            &&& dimensions_match(batch, before@.store.header.dimension, batch.len() as int)
            &&& ids@ == next_ids(before@.store.header.max_vector_id, batch.len())
            &&& after@ == index_grown_by(
                kernel,
                before.spec_config().limits(),
                before@,
                batch,
                metadata,
                levels,
            )
            &&& after.pending() == before.pending() + batch_log(
                before@.store.header.max_vector_id,
                batch,
                metadata,
                batch.len(),
            )
            &&& after.list_count() == before.list_count() + lists_needed(levels, levels.len())
            &&& after.link_count() == before.link_count() + links_needed(
                levels,
                before.spec_config().m as int,
                before.spec_config().m_max0 as int,
                levels.len(),
            )
        },
        Err(e) => {
            &&& is_first_mismatch(batch, before@.store.header.dimension, e@)
            &&& after@ == before@
            &&& after.pending() == before.pending()
            &&& after.list_count() == before.list_count()
            &&& after.link_count() == before.link_count()
        },
    }
}

/// What a batch leaves as it was.
pub proof fn batch_inserted_prefix(
    s: StoreView,
    batch: Seq<Seq<u32>>,
    metadata: Seq<Option<Pairs>>,
    n: nat,
)
    ensures
        ({
            let t = s.batch_inserted(batch, metadata, n);
            &&& t.ids.len() == s.ids.len() + n
            &&& t.deleted == s.deleted
            &&& t.header.dimension == s.header.dimension
            &&& forall|i: int| 0 <= i < s.ids.len() ==> #[trigger] t.ids[i] == s.ids[i]
        }),
    decreases n,
{
    if n > 0 {
        batch_inserted_prefix(s, batch, metadata, (n - 1) as nat);
    }
}

/// The index with one more vector.
pub open spec fn index_grown<K: Fn(&[u32], &[u32]) -> u32>(
    kernel: K,
    limits: Limits,
    index: IndexView,
    id: u64,
    vector: Seq<u32>,
    metadata: Option<Pairs>,
    level: usize,
) -> IndexView {
    let store = index.store.inserted(id, vector, metadata);
    IndexView {
        store,
        topology: grown(
            kernel,
            limits,
            index.topology,
            store.vectors,
            index.store.ids.len() as int,
            id,
            level as nat,
        ),
    }
}

/// What it means to add a vector to an index: it has the next ID, its insertion
/// is in the log and its node in the graph; or it is of the wrong length, and
/// nothing changes.
pub open spec fn index_inserts<K: Fn(&[u32], &[u32]) -> u32>(
    kernel: K,
    before: &HnswIndex,
    after: &HnswIndex,
    vector: Seq<u32>,
    metadata: Option<Pairs>,
    level: usize,
    result: Result<u64, QuiverError>,
) -> bool {
    match result {
        Ok(id) => {
            &&& vector.len() == before@.store.header.dimension
            &&& id == before@.store.header.max_vector_id + 1
            &&& after@ == index_grown(
                kernel,
                before.spec_config().limits(),
                before@,
                id,
                vector,
                metadata,
                level,
            )
            &&& after.pending() == before.pending() + entry_bytes(
                insert_entry(id, vector, metadata),
            )
            &&& after.list_count() == before.list_count() + level + 1
            &&& after.link_count() == before.link_count() + before.spec_config().m_max0 + level
                * before.spec_config().m
        },
        Err(e) => {
            &&& vector.len() != before@.store.header.dimension
            &&& e@ == (ErrorView::DimensionMismatch {
                expected: before@.store.header.dimension,
                actual: len_field(vector.len()),
            })
            &&& after@ == before@
            &&& after.pending() == before.pending()
            &&& after.list_count() == before.list_count()
            &&& after.link_count() == before.link_count()
        },
    }
}

/// An index that is opened with its own snapshot has the graph that it had; the
/// tombstones are those of the store.
pub proof fn snapshot_reopens_alike(index: &HnswIndex)
    requires
        index.wf(),
    ensures
        ({
            let max_id = index@.store.header.max_vector_id;
            let d = graph_bytes(index@.topology, index.spec_config(), max_id);
            restore_graph(d, index.spec_config(), index@.store.ids, max_id) == Some(
                (Topology { g: bare(index@.topology.g), ..index@.topology }),
            )
        }),
{
    index.wf_facts();
    let t = index@.topology;
    graph_round_trip(t, index.spec_config(), index@.store.ids, index@.store.header.max_vector_id);
}

/// A graph to which nodes were added from nothing on is one that was built.
pub proof fn grown_from_nothing<K: Fn(&[u32], &[u32]) -> u32>(
    kernel: K,
    limits: Limits,
    ids: Seq<u64>,
    vectors: Seq<Seq<u32>>,
    levels: Seq<usize>,
    n: nat,
)
    ensures
        grown_by(kernel, limits, Topology::empty(), ids, vectors, 0, levels, n) == built(
            kernel,
            limits,
            ids,
            vectors,
            levels,
            n,
        ),
    decreases n,
{
    if n > 0 {
        grown_from_nothing(kernel, limits, ids, vectors, levels, (n - 1) as nat);
    }
}

/// The tombstones are counted one by one: there are as many as nodes marked as
/// deleted.
pub proof fn tombstones_are_counted(g: Seq<NodeView>)
    ensures
        tombstones(g, g.len()) == g.filter(|node: NodeView| node.deleted).len(),
{
    counted_so_far(g, g.len());
    assert(g.take(g.len() as int) =~= g);
}

proof fn counted_so_far(g: Seq<NodeView>, n: nat)
    requires
        n <= g.len(),
    ensures
        tombstones(g, n) == g.take(n as int).filter(|node: NodeView| node.deleted).len(),
    decreases n,
{
    reveal(Seq::filter);
    if n > 0 {
        counted_so_far(g, (n - 1) as nat);
        assert(g.take(n as int).drop_last() =~= g.take(n - 1));
    }
}

} // verus!
