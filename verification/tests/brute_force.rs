use quiver_core::distance::Metric;
use quiver_core::error::QuiverError;
use quiver_core::index::brute_force::BruteForceIndex;
use quiver_core::index::SearchResult;
use quiver_core::storage::vecstore::VectorStore;
use rand::Rng;

fn bits(values: &[f32]) -> Vec<u32> {
    values.iter().map(|v| v.to_bits()).collect()
}

fn floats(bits: &[u32]) -> Vec<f32> {
    bits.iter().map(|b| f32::from_bits(*b)).collect()
}

fn l2_squared(a: &[f32], b: &[f32]) -> f32 {
    a.iter().zip(b).map(|(x, y)| (x - y) * (x - y)).sum()
}

fn compute_distance(a: &[f32], b: &[f32], metric: Metric) -> f32 {
    let dot: f32 = a.iter().zip(b).map(|(x, y)| x * y).sum();
    match metric {
        Metric::L2 => l2_squared(a, b),
        Metric::DotProduct => -dot,
        Metric::Cosine => {
            let norm_a: f32 = a.iter().map(|x| x * x).sum();
            let norm_b: f32 = b.iter().map(|x| x * x).sum();
            let magnitude = (norm_a * norm_b).sqrt();
            if magnitude == 0.0 {
                0.0
            } else {
                -(dot / magnitude)
            }
        }
    }
}

fn kernel(metric: Metric) -> impl Fn(&[u32], &[u32]) -> u32 {
    move |a: &[u32], b: &[u32]| compute_distance(&floats(a), &floats(b), metric).to_bits()
}

fn search(
    index: &BruteForceIndex,
    query: &[f32],
    k: usize,
) -> Result<Vec<SearchResult>, QuiverError> {
    index.search(&kernel(index.metric()), &bits(query), k)
}

fn setup(dimension: u32, metric: Metric) -> BruteForceIndex {
    BruteForceIndex::create(dimension, metric)
}

#[test]
fn brute_force_test_create_empty() {
    let index = setup(3, Metric::L2);
    assert!(index.is_empty());
    assert_eq!(index.len(), 0);
    assert_eq!(index.dimension(), 3);
}

#[test]
fn test_insert_and_len() {
    let mut index = setup(3, Metric::L2);
    let id1 = index.insert(&bits(&[1.0, 0.0, 0.0])).unwrap();
    let id2 = index.insert(&bits(&[0.0, 1.0, 0.0])).unwrap();
    assert_eq!(id1, 1);
    assert_eq!(id2, 2);
    assert_eq!(index.len(), 2);
}

#[test]
fn test_search_empty_returns_error() {
    let index = setup(3, Metric::L2);
    let result = search(&index, &[1.0, 0.0, 0.0], 5);
    assert!(result.is_err());
    assert!(matches!(result, Err(QuiverError::EmptyIndex)));
}

#[test]
fn test_search_dimension_mismatch() {
    let mut index = setup(3, Metric::L2);
    index.insert(&bits(&[1.0, 0.0, 0.0])).unwrap();
    let result = search(&index, &[1.0, 0.0], 5);
    assert!(result.is_err());
    assert!(matches!(
        result,
        Err(QuiverError::DimensionMismatch { expected: 3, actual: 2 })
    ));
}

#[test]
fn test_search_l2_returns_closest() {
    let mut index = setup(3, Metric::L2);
    index.insert(&bits(&[1.0, 0.0, 0.0])).unwrap();
    index.insert(&bits(&[0.0, 1.0, 0.0])).unwrap();
    index.insert(&bits(&[0.0, 0.0, 1.0])).unwrap();
    index.insert(&bits(&[0.5, 0.5, 0.0])).unwrap();

    let results = search(&index, &[0.9, 0.1, 0.0], 2).unwrap();
    assert_eq!(results.len(), 2);
    assert_eq!(results[0].slot, 0);
    assert_eq!(results[1].slot, 3);
}

#[test]
fn test_search_cosine_returns_most_similar() {
    let mut index = setup(2, Metric::Cosine);
    index.insert(&bits(&[1.0, 0.0])).unwrap();
    index.insert(&bits(&[0.0, 1.0])).unwrap();
    index.insert(&bits(&[-1.0, 0.0])).unwrap();

    let results = search(&index, &[1.0, 0.1], 1).unwrap();
    assert_eq!(results.len(), 1);
    assert_eq!(results[0].slot, 0);
}

#[test]
fn test_search_k_larger_than_n() {
    let mut index = setup(2, Metric::L2);
    index.insert(&bits(&[1.0, 0.0])).unwrap();
    index.insert(&bits(&[0.0, 1.0])).unwrap();

    let results = search(&index, &[0.5, 0.5], 10).unwrap();
    assert_eq!(results.len(), 2);
}

#[test]
fn test_search_results_sorted_by_distance() {
    let mut index = setup(2, Metric::L2);
    for i in 0..20 {
        index.insert(&bits(&[i as f32, 0.0])).unwrap();
    }

    let results = search(&index, &[10.0, 0.0], 5).unwrap();
    assert_eq!(results.len(), 5);
    for window in results.windows(2) {
        let (a, b) = (
            f32::from_bits(window[0].distance),
            f32::from_bits(window[1].distance),
        );
        assert!(a <= b, "Results not sorted: {a} > {b}");
    }
}

#[test]
fn test_exact_recall_at_10() {
    let mut rng = rand::rng();
    let dim = 32;
    let n = 500;
    let k = 10;
    let mut index = setup(dim, Metric::L2);

    let mut vectors: Vec<Vec<f32>> = Vec::with_capacity(n);
    for _ in 0..n {
        let v: Vec<f32> = (0..dim).map(|_| rng.random_range(-1.0..1.0)).collect();
        index.insert(&bits(&v)).unwrap();
        vectors.push(v);
    }
    let query: Vec<f32> = (0..dim).map(|_| rng.random_range(-1.0..1.0)).collect();

    let mut ground_truth: Vec<(usize, f32)> = vectors
        .iter()
        .enumerate()
        .map(|(i, v)| (i, l2_squared(&query, v)))
        .collect();
    ground_truth.sort_by(|a, b| a.1.partial_cmp(&b.1).unwrap());
    let expected_slots: Vec<usize> = ground_truth.iter().take(k).map(|(i, _)| *i).collect();

    let results = search(&index, &query, k).unwrap();
    let result_slots: Vec<usize> = results.iter().map(|r| r.slot).collect();
    assert_eq!(
        result_slots, expected_slots,
        "Brute-force recall must be 100% — it's exact search"
    );
}

#[test]
fn test_dot_product_search() {
    let mut index = setup(3, Metric::DotProduct);
    index.insert(&bits(&[1.0, 0.0, 0.0])).unwrap();
    index.insert(&bits(&[0.0, 1.0, 0.0])).unwrap();
    index.insert(&bits(&[1.0, 1.0, 0.0])).unwrap();

    let results = search(&index, &[1.0, 1.0, 0.0], 1).unwrap();
    assert_eq!(results[0].slot, 2);
    assert_eq!(f32::from_bits(results[0].distance), -2.0);
}

#[test]
fn test_persistence_and_reopen() {
    let mut index = setup(3, Metric::L2);
    index.insert(&bits(&[1.0, 0.0, 0.0])).unwrap();
    index.insert(&bits(&[0.0, 1.0, 0.0])).unwrap();
    let wal = index.flush_wal();
    let data = index.store().data_bytes();
    drop(index);

    let opened = VectorStore::open(&data, &wal, None).unwrap();
    let index = BruteForceIndex::open(opened.store);
    assert_eq!(index.len(), 2);
    let results = search(&index, &[1.0, 0.0, 0.0], 1).unwrap();
    assert_eq!(results[0].slot, 0);
    assert_eq!(index.get_vector(1).unwrap(), &bits(&[0.0, 1.0, 0.0])[..]);
}

#[test]
fn equally_near_vectors_come_in_order_of_their_slots() {
    let mut index = setup(1, Metric::L2);
    for value in [2.0, 1.0, -1.0, 1.0, 3.0] {
        index.insert(&bits(&[value])).unwrap();
    }
    let slots: Vec<usize> = search(&index, &[0.0], 3).unwrap().iter().map(|r| r.slot).collect();
    assert_eq!(slots, vec![1, 2, 3]);
    assert!(search(&index, &[0.0], 0).unwrap().is_empty());
}

#[test]
fn results_carry_the_ids_of_a_compacted_store() {
    let mut store = VectorStore::create(1, Metric::L2);
    for value in [1.0, 2.0, 3.0] {
        store.insert(&bits(&[value])).unwrap();
    }
    store.delete(1).unwrap();
    store.compact();
    let index = BruteForceIndex::open(store);
    let results = search(&index, &[3.0], 2).unwrap();
    assert_eq!((results[0].slot, results[0].vector_id), (1, 3));
    assert_eq!((results[1].slot, results[1].vector_id), (0, 2));
}

#[test]
fn no_number_is_less_than_not_a_number() {
    let mut index = setup(1, Metric::L2);
    for value in [f32::NAN, 5.0, 4.0] {
        index.insert(&bits(&[value])).unwrap();
    }
    // The first vector is kept, and no distance is less than its own.
    let results = search(&index, &[4.0], 1).unwrap();
    assert_eq!(results.len(), 1);
    assert_eq!(results[0].slot, 0);
    assert!(f32::from_bits(results[0].distance).is_nan());

    let mut index = setup(1, Metric::L2);
    for value in [5.0, f32::NAN, 4.0] {
        index.insert(&bits(&[value])).unwrap();
    }
    assert_eq!(search(&index, &[4.0], 1).unwrap()[0].slot, 2);
    assert_eq!(search(&index, &[4.0], 3).unwrap().len(), 3);
}
