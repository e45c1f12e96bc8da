use quiver_core::distance::Metric;
use quiver_core::index::hnsw::{HnswConfig, HnswIndex};
use quiver_core::index::visited::VisitedPool;
use quiver_core::index::SearchResult;
use quiver_core::metadata::{Filter, MetaValue, Metadata};
use quiver_core::service::{search_batch, search_one, SearchRequest};
use quiver_core::storage::vecstore::VectorStore;

fn bits(values: &[f32]) -> Vec<u32> {
    values.iter().map(|v| v.to_bits()).collect()
}

fn cosine(a: &[u32], b: &[u32]) -> u32 {
    let mut dot = 0.0f32;
    let mut norm_a = 0.0f32;
    let mut norm_b = 0.0f32;
    for (x, y) in a.iter().zip(b) {
        let (x, y) = (f32::from_bits(*x), f32::from_bits(*y));
        dot += x * y;
        norm_a += x * x;
        norm_b += y * y;
    }
    let magnitude = (norm_a * norm_b).sqrt();
    if magnitude == 0.0 {
        0.0f32.to_bits()
    } else {
        (-(dot / magnitude)).to_bits()
    }
}

fn new_index() -> HnswIndex {
    HnswIndex::create(3, Metric::Cosine, HnswConfig::new(16))
}

fn insert(index: &mut HnswIndex, vector: &[f32], metadata: Option<Metadata>) -> u64 {
    match metadata {
        Some(md) => index.insert_with_metadata(&cosine, &bits(vector), md, 0),
        None => index.insert(&cosine, &bits(vector), 0),
    }
    .unwrap()
}

fn request(vector: &[f32], k: usize, ef_search: Option<usize>) -> SearchRequest {
    SearchRequest {
        vector: bits(vector),
        k,
        ef_search,
        filter: None,
    }
}

fn eq(key: &str, value: MetaValue) -> Filter {
    Filter::Eq {
        key: key.to_owned(),
        value,
    }
}

fn science() -> Filter {
    eq("category", MetaValue::from("science".to_owned()))
}

fn tags(category: &str, year: i64) -> Option<Metadata> {
    let mut md = Metadata::new();
    md.insert("category".to_owned(), MetaValue::from(category.to_owned()));
    md.insert("year".to_owned(), MetaValue::from(year));
    Some(md)
}

fn insert_fixture(index: &mut HnswIndex) -> (u64, u64, u64, u64) {
    (
        insert(index, &[1.0, 0.0, 0.0], tags("science", 2024)),
        insert(index, &[0.0, 1.0, 0.0], tags("sports", 2024)),
        insert(index, &[0.0, 0.0, 1.0], tags("science", 1999)),
        insert(index, &[0.9, 0.1, 0.0], None),
    )
}

fn ids(hits: &[SearchResult]) -> Vec<u64> {
    hits.iter().map(|hit| hit.vector_id).collect()
}

fn answer(index: &HnswIndex, request: &SearchRequest) -> Vec<u64> {
    ids(&search_one(index, &cosine, request, &mut VisitedPool::new()).unwrap())
}

#[test]
fn batch_search_returns_results_in_input_order() {
    let mut index = new_index();
    let id_x = insert(&mut index, &[1.0, 0.0, 0.0], None);
    let id_y = insert(&mut index, &[0.0, 1.0, 0.0], None);
    let id_z = insert(&mut index, &[0.0, 0.0, 1.0], None);

    let requests = [
        request(&[1.0, 0.0, 0.0], 1, None),
        request(&[0.0, 1.0, 0.0], 2, Some(10)),
        request(&[0.0, 0.0, 1.0], 1, None),
    ];
    let results = search_batch(&index, &cosine, &requests, &mut VisitedPool::new()).unwrap();
    assert_eq!(results.len(), 3);
    assert_eq!(results[0][0].vector_id, id_x);
    assert_eq!(results[1][0].vector_id, id_y);
    assert_eq!(results[1].len(), 2);
    assert_eq!(results[2][0].vector_id, id_z);
}

#[test]
fn batch_search_rejects_empty_queries() {
    let index = new_index();
    let result = search_batch(&index, &cosine, &[], &mut VisitedPool::new());
    assert_eq!(result.unwrap_err(), "queries must not be empty");
}

#[test]
fn batch_search_rejects_zero_k() {
    let mut index = new_index();
    insert(&mut index, &[1.0, 0.0, 0.0], None);
    let requests = [
        request(&[1.0, 0.0, 0.0], 1, None),
        request(&[1.0, 0.0, 0.0], 0, None),
    ];
    let result = search_batch(&index, &cosine, &requests, &mut VisitedPool::new());
    assert_eq!(result.unwrap_err(), "k must be at least 1 for every query");
}

#[test]
fn filtered_search_returns_only_matching_vectors() {
    let mut index = new_index();
    let (id_science_2024, id_sports_2024, id_science_1999, id_bare) = insert_fixture(&mut index);

    let mut by_category = request(&[1.0, 0.0, 0.0], 10, Some(50));
    by_category.filter = Some(science());
    let found = answer(&index, &by_category);
    assert_eq!(found.len(), 2);
    assert!(found.contains(&id_science_2024));
    assert!(found.contains(&id_science_1999));
    assert!(!found.contains(&id_sports_2024));
    assert!(!found.contains(&id_bare));

    let mut both = request(&[1.0, 0.0, 0.0], 10, Some(50));
    both.filter = Some(Filter::And(vec![science(), eq("year", MetaValue::from(2024i64))]));
    assert_eq!(answer(&index, &both), vec![id_science_2024]);

    assert_eq!(answer(&index, &request(&[1.0, 0.0, 0.0], 10, Some(50))).len(), 4);

    let mut none = request(&[1.0, 0.0, 0.0], 10, None);
    none.filter = Some(eq("category", MetaValue::from("cooking".to_owned())));
    assert!(answer(&index, &none).is_empty());
}

#[test]
fn batch_search_applies_per_query_filters() {
    let mut index = new_index();
    let (id_science_2024, _, id_science_1999, _) = insert_fixture(&mut index);
    let mut filtered = request(&[1.0, 0.0, 0.0], 10, None);
    filtered.filter = Some(science());
    let requests = [filtered, request(&[1.0, 0.0, 0.0], 10, None)];
    let results = search_batch(&index, &cosine, &requests, &mut VisitedPool::new()).unwrap();
    assert_eq!(results.len(), 2);
    let found = ids(&results[0]);
    assert_eq!(found.len(), 2);
    assert!(found.contains(&id_science_2024));
    assert!(found.contains(&id_science_1999));
    assert_eq!(results[1].len(), 4);
}

fn restart(mut index: HnswIndex) -> HnswIndex {
    let wal = index.flush_wal();
    let data = index.store().data_bytes();
    let meta = index.store().meta_snapshot();
    let config = index.config();
    drop(index);
    let store = VectorStore::open(&data, &wal, meta.as_deref()).unwrap().store;
    let levels = vec![0; store.len()];
    HnswIndex::open(store, config, &cosine, &levels)
}

#[test]
fn metadata_and_filter_survive_graceful_restart() {
    let mut index = new_index();
    let (id_science_2024, _, id_science_1999, _) = insert_fixture(&mut index);
    let index = restart(index);
    let mut by_category = request(&[1.0, 0.0, 0.0], 10, Some(50));
    by_category.filter = Some(science());
    let found = answer(&index, &by_category);
    assert_eq!(found.len(), 2);
    assert!(found.contains(&id_science_2024));
    assert!(found.contains(&id_science_1999));
}

#[test]
fn restart_reopens_existing_index_and_preserves_searchable_vectors() {
    let mut index = new_index();
    let inserted_id = insert(&mut index, &[1.0, 0.0, 0.0], None);
    let index = restart(index);
    assert_eq!(
        answer(&index, &request(&[1.0, 0.0, 0.0], 1, Some(10)))[0],
        inserted_id
    );
}

#[test]
fn a_batch_fails_with_the_first_fault() {
    let mut index = new_index();
    let requests = [request(&[1.0, 0.0, 0.0], 1, None), request(&[1.0], 1, None)];
    let result = search_batch(&index, &cosine, &requests, &mut VisitedPool::new());
    assert_eq!(result.unwrap_err(), "Index is empty");
    insert(&mut index, &[1.0, 0.0, 0.0], None);
    let result = search_batch(&index, &cosine, &requests, &mut VisitedPool::new());
    assert_eq!(result.unwrap_err(), "Dimension mismatch: expected 3, got 1");
}
