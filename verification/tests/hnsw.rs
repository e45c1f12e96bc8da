use quiver_core::distance::Metric;
use quiver_core::error::QuiverError;
use quiver_core::index::brute_force::BruteForceIndex;
use quiver_core::index::graph::Graph;
use quiver_core::index::hnsw::{HnswConfig, HnswIndex};
use quiver_core::index::link::select_neighbors_heuristic;
use quiver_core::index::ranking::Candidate;
use quiver_core::index::visited::VisitedPool;
use quiver_core::index::SearchResult;
use quiver_core::metadata::{Filter, MetaValue, Metadata};
use quiver_core::storage::vecstore::VectorStore;
use rand::rngs::StdRng;
use rand::{Rng, SeedableRng};
use std::collections::HashSet;

fn bits(values: &[f32]) -> Vec<u32> {
    values.iter().map(|v| v.to_bits()).collect()
}

fn compute_distance(a: &[u32], b: &[u32], metric: Metric) -> f32 {
    let mut l2 = 0.0f32;
    let mut dot = 0.0f32;
    let mut norm_a = 0.0f32;
    let mut norm_b = 0.0f32;
    for (x, y) in a.iter().zip(b) {
        let (x, y) = (f32::from_bits(*x), f32::from_bits(*y));
        l2 += (x - y) * (x - y);
        dot += x * y;
        norm_a += x * x;
        norm_b += y * y;
    }
    match metric {
        Metric::L2 => l2,
        Metric::DotProduct => -dot,
        Metric::Cosine => {
            let magnitude = (norm_a * norm_b).sqrt();
            if magnitude == 0.0 {
                0.0
            } else {
                -(dot / magnitude)
            }
        }
    }
}

/// Whether the share of deleted nodes is above a ratio.
fn exceeds(dead: usize, all: usize, max_ratio: u64) -> bool {
    dead as f64 / all as f64 > f64::from_bits(max_ratio)
}

fn config(m: usize) -> HnswConfig {
    HnswConfig::new(m).with_ef_construction(100)
}

fn with_ratio(config: HnswConfig, ratio: f64) -> HnswConfig {
    HnswConfig {
        max_tombstone_ratio: ratio.to_bits(),
        ..config
    }
}

fn kernel(metric: Metric) -> impl Fn(&[u32], &[u32]) -> u32 {
    move |a: &[u32], b: &[u32]| compute_distance(a, b, metric).to_bits()
}

/// An index with a generator of layers.
struct Setup {
    index: HnswIndex,
    rng: StdRng,
    ml: f64,
}

impl Setup {
    fn new(dimension: u32, metric: Metric, m: usize) -> Setup {
        let config = HnswConfig::new(m).with_ef_construction(100);
        Setup::with(dimension, metric, config)
    }

    fn with(dimension: u32, metric: Metric, config: HnswConfig) -> Setup {
        Setup {
            index: HnswIndex::create(dimension, metric, config),
            rng: StdRng::seed_from_u64(config.random_seed),
            ml: 1.0 / (config.m as f64).ln(),
        }
    }

    fn level(&mut self) -> usize {
        let r: f64 = self.rng.random();
        (-r.ln() * self.ml).floor() as usize
    }

    fn levels(&mut self, n: usize) -> Vec<usize> {
        (0..n).map(|_| self.level()).collect()
    }

    fn insert(&mut self, vector: &[f32]) -> Result<u64, QuiverError> {
        let level = self.level();
        let k = kernel(self.index.metric());
        self.index.insert(&k, &bits(vector), level)
    }

    fn search(&self, query: &[f32], k: usize, ef: usize) -> Result<Vec<SearchResult>, QuiverError> {
        self.index
            .search(&kernel(self.index.metric()), &bits(query), k, ef)
    }

    fn compact(&mut self) {
        let n = self.index.store().live_ids().len();
        let levels = self.levels(n);
        let k = kernel(self.index.metric());
        self.index.compact(&k, &levels);
    }

    fn delete(&mut self, id: u64) -> Result<(), QuiverError> {
        // The levels for a compaction count as drawn only where there is one.
        let rng = self.rng.clone();
        let levels = self.levels(self.index.len().saturating_sub(1));
        let compacted =
            self.index
                .delete(&kernel(self.index.metric()), id, &exceeds, &levels)?;
        if !compacted {
            self.rng = rng;
        }
        Ok(())
    }

    fn reopen(mut self, data: &[u8], wal: &[u8]) -> Setup {
        let config = self.index.config();
        let store = VectorStore::open(data, wal, None).unwrap().store;
        self.rng = StdRng::seed_from_u64(config.random_seed);
        let levels = self.levels(store.len());
        let k = kernel(store.metric());
        self.index = HnswIndex::open(store, config, &k, &levels);
        self
    }
}

#[test]
fn hnsw_test_create_empty() {
    let s = Setup::new(3, Metric::L2, 16);
    assert!(s.index.is_empty());
    assert_eq!(s.index.len(), 0);
    assert_eq!(s.index.dimension(), 3);
}

#[test]
fn test_insert_single() {
    let mut s = Setup::new(3, Metric::L2, 16);
    let id = s.insert(&[1.0, 0.0, 0.0]).unwrap();
    assert_eq!(id, 1);
    assert_eq!(s.index.len(), 1);
    assert!(s.index.entry_point().is_some());
}

#[test]
fn hnsw_test_insert_multiple() {
    let mut s = Setup::new(3, Metric::L2, 4);
    for i in 0..20 {
        s.insert(&[i as f32, 0.0, 0.0]).unwrap();
    }
    assert_eq!(s.index.len(), 20);
}

#[test]
fn test_insert_batch_matches_single_insert() {
    let mut s = Setup::new(3, Metric::L2, 8);
    let vectors: Vec<Vec<u32>> = (0..50)
        .map(|i| bits(&[i as f32, (i % 7) as f32, 0.0]))
        .collect();
    let refs: Vec<&[u32]> = vectors.iter().map(|v| v.as_slice()).collect();
    let levels = s.levels(50);
    let ids = s
        .index
        .insert_batch(&kernel(Metric::L2), &refs, &levels)
        .unwrap();
    assert_eq!(ids.len(), 50);
    assert_eq!(s.index.len(), 50);
    assert_eq!(ids.first().copied(), Some(1));
    assert_eq!(ids.last().copied(), Some(50));
    let results = s.search(&[25.0, 4.0, 0.0], 5, 50).unwrap();
    assert_eq!(results.len(), 5);
    assert_eq!(results[0].vector_id, 26);

    // One by one, the same layers give the same graph.
    let mut one = Setup::new(3, Metric::L2, 8);
    for v in &vectors {
        let level = one.level();
        one.index.insert(&kernel(Metric::L2), v, level).unwrap();
    }
    for node in 0..50 {
        assert_eq!(one.index.layer_count(node), s.index.layer_count(node));
        for level in 0..one.index.layer_count(node) {
            assert_eq!(one.index.neighbors(node, level), s.index.neighbors(node, level));
        }
    }
    assert_eq!(one.index.entry_point(), s.index.entry_point());
}

#[test]
fn test_insert_batch_empty() {
    let mut s = Setup::new(3, Metric::L2, 4);
    let ids = s.index.insert_batch(&kernel(Metric::L2), &[], &[]).unwrap();
    assert!(ids.is_empty());
    assert!(s.index.is_empty());
}

#[test]
fn diversified_selection_keeps_a_farther_bridge_candidate() {
    let mut store = VectorStore::create(1, Metric::L2);
    let mut graph = Graph::new(4, 8);
    for (slot, value) in [1.0f32, 1.1, -2.0].into_iter().enumerate() {
        let id = store.insert(&bits(&[value])).unwrap();
        graph.add_node(slot, id, 0);
    }
    let candidates = vec![
        Candidate {
            node_idx: 0,
            distance: 1.0f32.to_bits(),
        },
        Candidate {
            node_idx: 1,
            distance: 1.21f32.to_bits(),
        },
        Candidate {
            node_idx: 2,
            distance: 4.0f32.to_bits(),
        },
    ];
    let selected =
        select_neighbors_heuristic(&graph, &store, &kernel(Metric::L2), &candidates, 2);
    assert_eq!(selected, vec![0, 2]);
}

#[test]
fn packed_adjacency_uses_fixed_u32_blocks() {
    let mut s = Setup::new(2, Metric::L2, 4);
    s.insert(&[0.0, 0.0]).unwrap();
    assert_eq!(s.index.layer_count(0), 1);
    let m_max0 = s.index.config().m_max0;

    let mut graph = Graph::new(4, m_max0);
    graph.add_node(0, 1, 0);
    assert_eq!(graph.lists(), 1);
    assert_eq!(graph.max_links(0), m_max0);
    assert_eq!(graph.links(), m_max0);
    let links: &[u32] = graph.neighbors(0, 0);
    assert!(links.is_empty());
    assert_eq!(std::mem::size_of::<u32>(), 4);
}

#[test]
fn test_search_empty() {
    let s = Setup::new(3, Metric::L2, 16);
    assert!(s.search(&[1.0, 0.0, 0.0], 5, 50).is_err());
    assert!(matches!(
        s.search(&[1.0, 0.0, 0.0], 5, 50),
        Err(QuiverError::EmptyIndex)
    ));
}

#[test]
fn test_search_basic_l2() {
    let mut s = Setup::new(3, Metric::L2, 16);
    s.insert(&[1.0, 0.0, 0.0]).unwrap();
    s.insert(&[0.0, 1.0, 0.0]).unwrap();
    s.insert(&[0.0, 0.0, 1.0]).unwrap();
    s.insert(&[0.5, 0.5, 0.0]).unwrap();

    let results = s.search(&[0.9, 0.1, 0.0], 2, 50).unwrap();
    assert_eq!(results.len(), 2);
    assert_eq!(results[0].slot, 0);
    assert_eq!(results[1].slot, 3);
}

#[test]
fn test_search_cosine() {
    let mut s = Setup::new(2, Metric::Cosine, 16);
    s.insert(&[1.0, 0.0]).unwrap();
    s.insert(&[0.0, 1.0]).unwrap();
    s.insert(&[-1.0, 0.0]).unwrap();

    let results = s.search(&[1.0, 0.1], 1, 50).unwrap();
    assert_eq!(results[0].slot, 0);
}

#[test]
fn test_delete_tombstone() {
    let mut s = Setup::with(3, Metric::L2, with_ratio(config(16), 1.0));

    let id1 = s.insert(&[1.0, 0.0, 0.0]).unwrap();
    s.insert(&[0.0, 1.0, 0.0]).unwrap();
    s.insert(&[0.0, 0.0, 1.0]).unwrap();

    assert_eq!(s.index.len(), 3);
    s.delete(id1).unwrap();
    assert_eq!(s.index.len(), 2);
    assert_eq!(s.index.total_nodes(), 3);

    let results = s.search(&[1.0, 0.0, 0.0], 3, 50).unwrap();
    assert!(results.iter().all(|r| r.vector_id != id1));
    assert_eq!(results.len(), 2);
}

#[test]
fn test_delete_nonexistent() {
    let mut s = Setup::new(3, Metric::L2, 16);
    s.insert(&[1.0, 0.0, 0.0]).unwrap();
    assert!(s.delete(999).is_err());
    assert!(matches!(s.delete(999), Err(QuiverError::NotFound(999))));
}

#[test]
fn test_compaction_triggers_only_above_threshold() {
    let mut s = Setup::with(3, Metric::L2, with_ratio(config(8), 0.25));
    let mut wal: Vec<u8> = Vec::new();

    let id1 = s.insert(&[1.0, 0.0, 0.0]).unwrap();
    let id2 = s.insert(&[0.0, 1.0, 0.0]).unwrap();
    let id3 = s.insert(&[0.0, 0.0, 1.0]).unwrap();
    let id4 = s.insert(&[-1.0, 0.0, 0.0]).unwrap();

    s.delete(id1).unwrap();
    assert_eq!(s.index.total_nodes(), 4);
    assert_eq!(s.index.tombstone_count(), 1);
    wal.extend(s.index.flush_wal());
    assert!(!wal.is_empty());

    s.delete(id2).unwrap();
    assert_eq!(s.index.len(), 2);
    assert_eq!(s.index.total_nodes(), 2);
    assert_eq!(s.index.tombstone_count(), 0);
    // The compacted store starts with an empty log.
    let wal = s.index.flush_wal();
    assert_eq!(wal.len(), 0);

    let results = s.search(&[1.0, 0.0, 0.0], 4, 50).unwrap();
    assert!(results.iter().all(|result| result.vector_id != id1));
    assert!(results.iter().all(|result| result.vector_id != id2));
    assert!(results.iter().any(|result| result.vector_id == id3));
    assert!(results.iter().any(|result| result.vector_id == id4));

    let data = s.index.store().data_bytes();
    let reopened = s.reopen(&data, &wal);
    let results = reopened.search(&[1.0, 0.0, 0.0], 4, 50).unwrap();
    assert_eq!(reopened.index.len(), 2);
    assert!(results.iter().all(|result| result.vector_id != id1));
    assert!(results.iter().all(|result| result.vector_id != id2));
}

#[test]
fn test_recall_against_brute_force() {
    let mut rng = rand::rng();
    let dim = 32;
    let n = 1000;
    let k = 10;
    let ef_search = 100;
    let num_queries = 50;

    let mut s = Setup::new(dim as u32, Metric::L2, 16);
    let mut vectors: Vec<Vec<f32>> = Vec::with_capacity(n);
    for _ in 0..n {
        let v: Vec<f32> = (0..dim).map(|_| rng.random_range(-1.0..1.0)).collect();
        s.insert(&v).unwrap();
        vectors.push(v);
    }

    let mut total_recall = 0.0;
    for _ in 0..num_queries {
        let query: Vec<f32> = (0..dim).map(|_| rng.random_range(-1.0..1.0)).collect();
        let mut ground_truth: Vec<(usize, f32)> = vectors
            .iter()
            .enumerate()
            .map(|(i, v)| {
                let dist: f32 = query.iter().zip(v).map(|(x, y)| (x - y) * (x - y)).sum();
                (i, dist)
            })
            .collect();
        ground_truth.sort_by(|a, b| a.1.partial_cmp(&b.1).unwrap());
        let gt_slots: HashSet<usize> = ground_truth.iter().take(k).map(|(i, _)| *i).collect();

        let results = s.search(&query, k, ef_search).unwrap();
        let result_slots: HashSet<usize> = results.iter().map(|r| r.slot).collect();
        let hits = gt_slots.intersection(&result_slots).count();
        total_recall += hits as f64 / k as f64;
    }
    let avg_recall = total_recall / num_queries as f64;
    assert!(
        avg_recall > 0.95,
        "HNSW recall@{k} must exceed 95%, got {:.1}% (ef_search={ef_search}, n={n})",
        avg_recall * 100.0
    );
}

#[test]
fn test_graph_structure() {
    let mut s = Setup::new(4, Metric::L2, 4);
    for i in 0..100 {
        s.insert(&[i as f32, 0.0, 0.0, 0.0]).unwrap();
    }

    assert_eq!(s.index.total_nodes(), 100);
    assert!(
        s.index.max_level() >= 1,
        "With 100 nodes, expect at least 2 layers"
    );
    assert!(s.index.entry_point().is_some());

    for idx in 0..s.index.total_nodes() {
        for level in 0..s.index.layer_count(idx) {
            let mut seen = HashSet::new();
            for &neighbor in s.index.neighbors(idx, level) {
                let neighbor_idx = neighbor as usize;
                assert!(
                    neighbor_idx < s.index.total_nodes(),
                    "Node {idx} at level {level} has invalid neighbor {neighbor_idx}"
                );
                assert!(neighbor_idx != idx);
                assert!(level < s.index.layer_count(neighbor_idx));
                assert!(seen.insert(neighbor_idx));
            }
        }
    }
    let entry = s.index.entry_point().unwrap();
    assert_eq!(s.index.layer_count(entry), s.index.max_level() + 1);
}

#[test]
fn test_dimension_mismatch_search() {
    let mut s = Setup::new(3, Metric::L2, 16);
    s.insert(&[1.0, 0.0, 0.0]).unwrap();
    assert!(s.search(&[1.0, 0.0], 1, 50).is_err());
    assert!(matches!(
        s.search(&[1.0, 0.0], 1, 50),
        Err(QuiverError::DimensionMismatch { expected: 3, actual: 2 })
    ));
    assert!(s.insert(&[1.0]).is_err());
}

#[test]
fn test_persistence_reopen() {
    let config = HnswConfig::new(8).with_ef_construction(50);
    let mut s = Setup::with(3, Metric::L2, config);
    s.insert(&[1.0, 0.0, 0.0]).unwrap();
    s.insert(&[0.0, 1.0, 0.0]).unwrap();
    s.insert(&[0.0, 0.0, 1.0]).unwrap();
    let wal = s.index.flush_wal();
    let data = s.index.store().data_bytes();

    let s = s.reopen(&data, &wal);
    assert_eq!(s.index.len(), 3);
    let results = s.search(&[1.0, 0.0, 0.0], 1, 50).unwrap();
    assert_eq!(results[0].slot, 0);
}

#[test]
fn test_delete_persists_after_reopen() {
    let config = HnswConfig::new(8).with_ef_construction(50);
    let config = with_ratio(config, 1.0);
    let mut s = Setup::with(3, Metric::L2, config);
    let deleted_id = s.insert(&[1.0, 0.0, 0.0]).unwrap();
    s.insert(&[0.0, 1.0, 0.0]).unwrap();
    s.insert(&[0.0, 0.0, 1.0]).unwrap();
    s.delete(deleted_id).unwrap();
    let wal = s.index.flush_wal();
    let data = s.index.store().data_bytes();

    let s = s.reopen(&data, &wal);
    assert_eq!(s.index.len(), 2);
    assert_eq!(s.index.tombstone_count(), 1);
    let results = s.search(&[1.0, 0.0, 0.0], 3, 50).unwrap();
    assert!(results.iter().all(|result| result.vector_id != deleted_id));
}

#[test]
fn test_delete_recovers_after_unflushed_drop() {
    let config = HnswConfig::new(8).with_ef_construction(50);
    let config = with_ratio(config, 1.0);
    let mut s = Setup::with(3, Metric::L2, config);
    // Only the log reaches the disk after this.
    let data = s.index.store().data_bytes();
    let deleted_id = s.insert(&[1.0, 0.0, 0.0]).unwrap();
    s.insert(&[0.0, 1.0, 0.0]).unwrap();
    s.delete(deleted_id).unwrap();
    let wal = s.index.flush_wal();

    let s = s.reopen(&data, &wal);
    assert_eq!(s.index.len(), 1);
    assert_eq!(s.index.tombstone_count(), 1);
    let results = s.search(&[1.0, 0.0, 0.0], 2, 50).unwrap();
    assert!(results.iter().all(|result| result.vector_id != deleted_id));
}

fn tagged(parity: i64) -> Metadata {
    let mut md = Metadata::new();
    md.insert("parity".to_owned(), MetaValue::from(parity));
    md
}

fn parity_filter(parity: i64) -> Filter {
    Filter::Eq {
        key: "parity".to_owned(),
        value: MetaValue::from(parity),
    }
}

#[test]
fn filtered_search_finds_the_nearest_that_pass() {
    let mut s = Setup::new(1, Metric::L2, 8);
    let kernel = kernel(Metric::L2);
    for i in 0..60i64 {
        let level = s.level();
        let v = bits(&[i as f32]);
        if i % 3 == 0 {
            s.index.insert(&kernel, &v, level).unwrap();
        } else {
            s.index
                .insert_with_metadata(&kernel, &v, tagged(i % 2), level)
                .unwrap();
        }
    }
    let query = bits(&[30.0]);
    let found = s
        .index
        .search_filtered(&kernel, &query, 4, 50, &parity_filter(0))
        .unwrap();
    let values: Vec<usize> = found.iter().map(|r| r.slot).collect();
    let mut sorted = values.clone();
    sorted.sort();
    assert_eq!(sorted, vec![26, 28, 32, 34]);
    assert_eq!(values[0] + values[1], 60);
    assert_eq!(f32::from_bits(found[0].distance), 4.0);
    assert!(s
        .index
        .search_filtered(&kernel, &query, 4, 50, &parity_filter(7))
        .unwrap()
        .is_empty());
    assert!(s
        .index
        .search_filtered(&kernel, &query, 0, 50, &parity_filter(0))
        .unwrap()
        .is_empty());
    let all = s
        .index
        .search_filtered(&kernel, &query, 60, 50, &Filter::And(Vec::new()))
        .unwrap();
    // Vectors without metadata pass no filter, not even the empty one.
    assert_eq!(all.len(), 40);
}

#[test]
fn batches_with_metadata_are_linked_and_filtered() {
    let mut s = Setup::new(1, Metric::L2, 8);
    let kernel = kernel(Metric::L2);
    let vectors: Vec<Vec<u32>> = (0..10).map(|i| bits(&[i as f32])).collect();
    let refs: Vec<&[u32]> = vectors.iter().map(|v| v.as_slice()).collect();
    let metadata: Vec<Option<Metadata>> = (0..10).map(|i| Some(tagged(i % 2))).collect();
    let levels = s.levels(10);
    assert!(s.index.can_insert(&levels));
    let ids = s
        .index
        .insert_batch_with_metadata(&kernel, &refs, &metadata, &levels)
        .unwrap();
    assert_eq!(ids, (1..=10).collect::<Vec<u64>>());
    let mut pool = VisitedPool::new();
    for _ in 0..3 {
        let found = s
            .index
            .search_filtered_with(&kernel, &bits(&[4.2]), 1, 10, &parity_filter(1), &mut pool)
            .unwrap();
        assert_eq!(found[0].slot, 5);
        let found = s
            .index
            .search_with(&kernel, &bits(&[4.2]), 1, 10, &mut pool)
            .unwrap();
        assert_eq!(found[0].slot, 4);
    }
    let short = s
        .index
        .insert_batch_with_metadata(&kernel, &refs, &metadata[..1], &levels);
    assert!(matches!(short, Err(QuiverError::InvalidFormat(_))));
    assert_eq!(s.index.len(), 10);
}

#[test]
fn staged_changes_show_only_once_committed() {
    let mut s = Setup::new(1, Metric::L2, 8);
    let kernel = kernel(Metric::L2);
    let v = bits(&[1.0]);
    let id = s.index.stage_insert(&v, &None).unwrap();
    assert_eq!(s.index.len(), 0);
    assert!(!s.index.flush_wal().is_empty());
    s.index.commit_insert(&kernel, id, &v, None, 0);
    assert_eq!(s.index.len(), 1);
    s.index.stage_delete(id).unwrap();
    assert_eq!(s.index.len(), 1);
    assert!(s.index.commit_delete(id, &exceeds));
    assert_eq!(s.index.len(), 0);
    assert!(s.index.stage_delete(id).is_err());
}

#[test]
fn a_search_with_a_wide_beam_is_exact() {
    let mut s = Setup::new(2, Metric::L2, 4);
    for i in 0..80 {
        s.insert(&[(i * 37 % 80) as f32, (i * 11 % 17) as f32]).unwrap();
    }
    for q in 0..20 {
        let query = [q as f32 * 4.0, 3.0];
        let found = s.search(&query, 5, 200).unwrap();
        let mut all: Vec<u32> = (0..80)
            .map(|i| {
                compute_distance(
                    &bits(&query),
                    s.index.store().get_vector(i).unwrap(),
                    Metric::L2,
                ) as u32
            })
            .collect();
        all.sort();
        let near: Vec<u32> = found
            .iter()
            .map(|r| f32::from_bits(r.distance) as u32)
            .collect();
        assert_eq!(near, all[..5].to_vec());
    }
}

#[test]
fn a_visited_pool_is_emptied_by_each_search() {
    let mut pool = VisitedPool::new();
    for _ in 0..3 {
        pool.begin(4);
        assert!(pool.visit(2));
        assert!(!pool.visit(2));
        assert!(pool.visit(0));
    }
    pool.begin(6);
    assert!(pool.visit(5) && pool.visit(2));
}

#[test]
fn configurations_follow_from_m() {
    let config = HnswConfig::new(16);
    assert_eq!((config.m, config.m_max0), (16, 32));
    assert_eq!(config.ef_construction, 200);
    assert_eq!(f64::from_bits(config.max_tombstone_ratio), 0.2);
    assert_eq!(config.random_seed, 42);
    assert_eq!(HnswConfig::default(), config);
    assert_eq!(config.with_random_seed(7).random_seed, 7);
}

#[test]
fn a_graph_snapshot_spares_the_rebuild() {
    let mut s = Setup::with(2, Metric::L2, with_ratio(HnswConfig::new(4), 1.0));
    for i in 0..60 {
        s.insert(&[(i * 37 % 60) as f32, (i % 7) as f32]).unwrap();
    }
    s.delete(5).unwrap();
    let wal = s.index.flush_wal();
    let data = s.index.store().data_bytes();
    let graph = s.index.graph_snapshot();
    assert_eq!(&graph[..4], b"QVGR");
    let store = || VectorStore::open(&data, &wal, None).unwrap().store;

    let config = s.index.config();
    let index = HnswIndex::open_with_snapshot(store(), config, &graph).unwrap();
    assert_eq!(index.len(), 59);
    assert_eq!(index.tombstone_count(), 1);
    assert_eq!(index.entry_point(), s.index.entry_point());
    assert_eq!(index.max_level(), s.index.max_level());
    for node in 0..60 {
        assert_eq!(index.layer_count(node), s.index.layer_count(node));
        for level in 0..index.layer_count(node) {
            assert_eq!(index.neighbors(node, level), s.index.neighbors(node, level));
        }
    }
    assert_eq!(index.graph_snapshot(), graph);

    // Anything that does not check out hands the store back.
    for at in [0, 4, 20, 73, 90, graph.len() - 1] {
        let mut broken = graph.clone();
        broken[at] ^= 1;
        assert!(HnswIndex::open_with_snapshot(store(), config, &broken).is_err());
    }
    assert!(HnswIndex::open_with_snapshot(store(), config, &graph[..graph.len() - 1]).is_err());
    assert!(HnswIndex::open_with_snapshot(store(), HnswConfig::new(8), &graph).is_err());
    let mut grown = store();
    grown.insert(&bits(&[0.0, 0.0])).unwrap();
    let back = HnswIndex::open_with_snapshot(grown, config, &graph).unwrap_err();
    assert_eq!(back.len(), 61);
}

#[test]
fn an_empty_graph_is_read_back_from_its_snapshot() {
    let s = Setup::new(2, Metric::L2, 4);
    let graph = s.index.graph_snapshot();
    let store = VectorStore::create(2, Metric::L2);
    let index = HnswIndex::open_with_snapshot(store, s.index.config(), &graph).unwrap();
    assert!(index.is_empty() && index.entry_point().is_none());
}

#[test]
fn a_deletion_beyond_the_ratio_compacts() {
    let config = with_ratio(HnswConfig::new(4), 0.5);
    let mut s = Setup::with(1, Metric::L2, config);
    for i in 0..4 {
        s.insert(&[i as f32]).unwrap();
    }
    let kernel = kernel(Metric::L2);
    let levels = [0; 3];
    assert!(!s.index.delete(&kernel, 1, &exceeds, &levels).unwrap());
    assert!(!s.index.delete(&kernel, 2, &exceeds, &levels[..2]).unwrap());
    assert_eq!((s.index.total_nodes(), s.index.tombstone_count()), (4, 2));
    // Three of four nodes deleted are more than half.
    assert!(s.index.delete(&kernel, 3, &exceeds, &levels[..1]).unwrap());
    assert_eq!((s.index.total_nodes(), s.index.tombstone_count()), (1, 0));
    assert_eq!(s.search(&[0.0], 4, 10).unwrap()[0].vector_id, 4);
    assert!(matches!(
        s.index.delete(&kernel, 3, &exceeds, &levels),
        Err(QuiverError::NotFound(3))
    ));
    assert_eq!(s.insert(&[9.0]).unwrap(), 5);
}

#[test]
fn only_live_vectors_are_found_after_a_reopening() {
    let config = with_ratio(HnswConfig::new(4), 1.0);
    let mut s = Setup::with(1, Metric::L2, config);
    let data = s.index.store().data_bytes();
    for i in 0..30 {
        s.insert(&[i as f32]).unwrap();
    }
    for id in [3, 11, 12, 30] {
        s.delete(id).unwrap();
    }
    let graph = s.index.graph_snapshot();
    let wal = s.index.flush_wal();
    let store = VectorStore::open(&data, &wal, None).unwrap().store;
    let index = HnswIndex::open_with_snapshot(store, config, &graph).unwrap();
    let found = index
        .search(&kernel(Metric::L2), &bits(&[11.0]), 30, 100)
        .unwrap();
    assert_eq!(found.len(), 26);
    assert!(found.iter().all(|hit| ![3, 11, 12, 30].contains(&hit.vector_id)));
}

#[test]
fn a_small_index_is_searched_exactly() {
    for m in [2usize, 3, 5] {
        let n = 2 * m + 1;
        let mut s = Setup::new(2, Metric::L2, m);
        let mut exact = BruteForceIndex::create(2, Metric::L2);
        for i in 0..n {
            let v = [(i * 37 % 11) as f32, (i * i % 7) as f32];
            s.insert(&v).unwrap();
            exact.insert(&bits(&v)).unwrap();
        }
        for q in 0..12 {
            let query = [q as f32, (q % 5) as f32];
            for k in 1..=n + 1 {
                let found = s.search(&query, k, n).unwrap();
                let want = exact.search(&kernel(Metric::L2), &bits(&query), k).unwrap();
                assert_eq!(found.len(), k.min(n));
                for (a, b) in found.iter().zip(&want) {
                    assert_eq!(a.distance, b.distance);
                }
            }
        }
    }
}

#[test]
fn a_batch_does_what_single_insertions_do() {
    let vectors: Vec<Vec<u32>> = (0..40)
        .map(|i| bits(&[(i * 29 % 40) as f32, (i % 9) as f32]))
        .collect();
    let refs: Vec<&[u32]> = vectors.iter().map(|v| v.as_slice()).collect();
    let levels: Vec<usize> = (0..40).map(|i| if i % 11 == 3 { 2 } else { i % 2 }).collect();
    let kernel = kernel(Metric::L2);
    let mut one_by_one = HnswIndex::create(2, Metric::L2, HnswConfig::new(3));
    let mut batched = HnswIndex::create(2, Metric::L2, HnswConfig::new(3));
    for (v, level) in refs.iter().zip(&levels) {
        one_by_one.insert(&kernel, v, *level).unwrap();
    }
    batched.insert_batch(&kernel, &refs, &levels).unwrap();
    assert_eq!(batched.graph_snapshot(), one_by_one.graph_snapshot());
    assert_eq!(batched.flush_wal(), one_by_one.flush_wal());
}

#[test]
fn a_distance_that_is_not_a_number_is_not_diverse() {
    let mut store = VectorStore::create(1, Metric::L2);
    let mut graph = Graph::new(4, 8);
    for (slot, value) in [1.0f32, 2.0, 3.0].into_iter().enumerate() {
        let id = store.insert(&bits(&[value])).unwrap();
        graph.add_node(slot, id, 0);
    }
    let candidates: Vec<Candidate> = (0..3)
        .map(|node_idx| Candidate {
            node_idx,
            distance: (node_idx as f32).to_bits(),
        })
        .collect();
    // The second is at no known distance from the first, so the third goes first.
    let kernel = |a: &[u32], b: &[u32]| {
        let pair = (f32::from_bits(a[0]), f32::from_bits(b[0]));
        let distance = if pair == (2.0, 1.0) { f32::NAN } else { 9.0 };
        distance.to_bits()
    };
    let chosen = select_neighbors_heuristic(&graph, &store, &kernel, &candidates, 2);
    assert_eq!(chosen, vec![0, 2]);
}

#[test]
fn a_small_index_is_filtered_exactly() {
    let m = 4;
    let n = 2 * m + 1;
    let mut s = Setup::with(1, Metric::L2, with_ratio(HnswConfig::new(m), 1.0));
    let position = |i: usize| (i * 7 % 13) as f32;
    for i in 0..n {
        let mut md = Metadata::new();
        md.insert("third".to_owned(), MetaValue::from((i % 3) as i64));
        let level = s.level();
        s.index
            .insert_with_metadata(&kernel(Metric::L2), &bits(&[position(i)]), md, level)
            .unwrap();
    }
    s.delete(4).unwrap();
    for third in 0..4 {
        let filter = Filter::Eq {
            key: "third".to_owned(),
            value: MetaValue::from(third as i64),
        };
        for q in 0..14 {
            let mut want: Vec<f32> = (0..n)
                .filter(|i| i % 3 == third && *i != 3)
                .map(|i| (position(i) - q as f32) * (position(i) - q as f32))
                .collect();
            want.sort_by(f32::total_cmp);
            for k in 0..=4 {
                let found = s
                    .index
                    .search_filtered(&kernel(Metric::L2), &bits(&[q as f32]), k, n, &filter)
                    .unwrap();
                let distances: Vec<f32> =
                    found.iter().map(|r| f32::from_bits(r.distance)).collect();
                assert_eq!(distances, want[..k.min(want.len())]);
            }
        }
    }
}
