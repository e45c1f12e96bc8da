use quiver_core::distance::Metric;
use quiver_core::error::QuiverError;
use quiver_core::metadata::{MetaValue, Metadata};
use quiver_core::storage::header::{FileHeader, FORMAT_VERSION, LEGACY_FORMAT_VERSION};
use quiver_core::storage::vecstore::{Opened, VectorStore};
use quiver_core::storage::wal::Wal;

fn bits(values: &[f32]) -> Vec<u32> {
    values.iter().map(|v| v.to_bits()).collect()
}

/// The files of a store, in memory.
struct Disk {
    data: Vec<u8>,
    wal: Vec<u8>,
    meta: Option<Vec<u8>>,
}

impl Disk {
    fn create(dimension: u32, metric: Metric) -> (Disk, VectorStore) {
        let store = VectorStore::create(dimension, metric);
        let disk = Disk {
            data: store.data_bytes(),
            wal: Vec::new(),
            meta: None,
        };
        (disk, store)
    }

    fn log(&mut self, store: &mut VectorStore) {
        self.wal.extend(store.flush_wal());
    }

    fn flush(&mut self, store: &VectorStore) {
        self.data = store.data_bytes();
        if let Some(meta) = store.meta_snapshot() {
            self.meta = Some(meta);
        }
    }

    fn open(&mut self) -> VectorStore {
        let Opened {
            store,
            valid_up_to,
            recovered,
        } = VectorStore::open(&self.data, &self.wal, self.meta.as_deref()).unwrap();
        self.wal.truncate(valid_up_to);
        if recovered {
            self.flush(&store);
        }
        store
    }

    fn compact(&mut self, store: &mut VectorStore) {
        let replacement = store.compacted();
        self.data = replacement.data_bytes();
        self.wal = Vec::new();
        self.meta = replacement.meta_snapshot();
        store.compact();
    }
}

fn assert_invalid_open(data: &[u8]) {
    match VectorStore::open(data, &[], None) {
        Err(QuiverError::InvalidFormat(_)) => {}
        Err(error) => panic!("expected InvalidFormat, got {error:?}"),
        Ok(_) => panic!("corrupted file unexpectedly opened"),
    }
}

fn setup(dimension: u32) -> VectorStore {
    VectorStore::create(dimension, Metric::L2)
}

fn sample_metadata() -> Metadata {
    let mut metadata = Metadata::new();
    metadata.insert("category".to_owned(), MetaValue::from("science".to_owned()));
    metadata.insert("year".to_owned(), MetaValue::from(2024i64));
    metadata
}

fn other_metadata() -> Metadata {
    let mut metadata = Metadata::new();
    metadata.insert("category".to_owned(), MetaValue::from("sports".to_owned()));
    metadata
}

#[test]
fn test_create_empty_store() {
    let store = setup(128);
    assert_eq!(store.len(), 0);
    assert!(store.is_empty());
    assert_eq!(store.dimension(), 128);
    assert_eq!(store.metric(), Metric::L2);
}

#[test]
fn test_insert_and_read() {
    let mut store = setup(3);
    let data = bits(&[1.0, 2.0, 3.0]);
    let id = store.insert(&data).unwrap();
    assert_eq!(id, 1);
    assert_eq!(store.len(), 1);

    let read_back = store.get_vector(0).unwrap();
    assert_eq!(read_back, &bits(&[1.0, 2.0, 3.0])[..]);
}

#[test]
fn vecstore_test_insert_multiple() {
    let mut store = setup(2);
    store.insert(&bits(&[1.0, 2.0])).unwrap();
    store.insert(&bits(&[3.0, 4.0])).unwrap();
    store.insert(&bits(&[5.0, 6.0])).unwrap();

    assert_eq!(store.len(), 3);
    assert_eq!(store.get_vector(0).unwrap(), &bits(&[1.0, 2.0])[..]);
    assert_eq!(store.get_vector(1).unwrap(), &bits(&[3.0, 4.0])[..]);
    assert_eq!(store.get_vector(2).unwrap(), &bits(&[5.0, 6.0])[..]);
}

#[test]
fn test_insert_batch_assigns_sequential_ids_and_reads_back() {
    let mut store = setup(3);
    let a = bits(&[1.0, 2.0, 3.0]);
    let b = bits(&[4.0, 5.0, 6.0]);
    let c = bits(&[7.0, 8.0, 9.0]);
    let ids = store.insert_batch(&[&a, &b, &c]).unwrap();
    assert_eq!(ids, vec![1, 2, 3]);
    assert_eq!(store.len(), 3);
    assert_eq!(store.get_vector(0).unwrap(), &a[..]);
    assert_eq!(store.get_vector(1).unwrap(), &b[..]);
    assert_eq!(store.get_vector(2).unwrap(), &c[..]);
}

#[test]
fn test_insert_batch_empty_is_noop() {
    let mut store = setup(3);
    let ids = store.insert_batch(&[]).unwrap();
    assert!(ids.is_empty());
    assert_eq!(store.len(), 0);
}

#[test]
fn test_insert_batch_rejects_bad_dimension_without_partial_commit() {
    let mut store = setup(3);
    let good = bits(&[1.0, 2.0, 3.0]);
    let bad = bits(&[1.0, 2.0]);
    let result = store.insert_batch(&[&good, &bad]);
    assert!(result.is_err());
    assert!(matches!(
        result,
        Err(QuiverError::DimensionMismatch { expected: 3, actual: 2 })
    ));
    assert_eq!(store.len(), 0);
    assert!(store.flush_wal().is_empty());
}

#[test]
fn test_insert_batch_then_single_insert_continues_ids() {
    let mut store = setup(2);
    let ids = store
        .insert_batch(&[&bits(&[1.0, 1.0]), &bits(&[2.0, 2.0])])
        .unwrap();
    assert_eq!(ids, vec![1, 2]);
    let next = store.insert(&bits(&[3.0, 3.0])).unwrap();
    assert_eq!(next, 3);
    assert_eq!(store.len(), 3);
}

#[test]
fn test_dimension_mismatch() {
    let mut store = setup(3);
    let result = store.insert(&bits(&[1.0, 2.0]));
    assert!(result.is_err());
    assert!(matches!(
        result,
        Err(QuiverError::DimensionMismatch { expected: 3, actual: 2 })
    ));
}

#[test]
fn test_get_out_of_bounds() {
    let store = setup(3);
    let result = store.get_vector(0);
    assert!(result.is_err());
    assert!(matches!(store.vector_id(4), Err(QuiverError::NotFound(4))));
}

#[test]
fn test_open_zero_byte_file_returns_invalid_format() {
    assert_invalid_open(&[]);
}

#[test]
fn test_open_short_header_returns_invalid_format() {
    assert_invalid_open(b"QVDB\x02");
}

#[test]
fn test_open_corrupted_header_field_returns_invalid_format() {
    let header = FileHeader::new(0, Metric::L2);
    assert_invalid_open(&header.to_bytes());
}

#[test]
fn test_open_truncated_final_record_returns_invalid_format_for_v1_and_v2() {
    for version in [LEGACY_FORMAT_VERSION, FORMAT_VERSION] {
        let mut header = FileHeader::new(2, Metric::L2);
        header.version = version;
        header.vector_count = 1;
        header.max_vector_id = 1;

        let mut bytes = header.to_bytes();
        if version != LEGACY_FORMAT_VERSION {
            bytes.extend_from_slice(&1_u64.to_le_bytes());
        }
        bytes.extend_from_slice(&1.0_f32.to_le_bytes());
        assert_invalid_open(&bytes);
    }
}

#[test]
fn test_flush_and_reopen() {
    let (mut disk, mut store) = Disk::create(3, Metric::Cosine);
    store.insert(&bits(&[1.0, 2.0, 3.0])).unwrap();
    store.insert(&bits(&[4.0, 5.0, 6.0])).unwrap();
    disk.log(&mut store);
    disk.flush(&store);
    drop(store);

    let store = disk.open();
    assert_eq!(store.len(), 2);
    assert_eq!(store.metric(), Metric::Cosine);
    assert_eq!(store.get_vector(0).unwrap(), &bits(&[1.0, 2.0, 3.0])[..]);
    assert_eq!(store.get_vector(1).unwrap(), &bits(&[4.0, 5.0, 6.0])[..]);
}

#[test]
fn test_wal_recovery() {
    let (mut disk, mut store) = Disk::create(2, Metric::L2);
    store.insert(&bits(&[1.0, 2.0])).unwrap();
    store.insert(&bits(&[3.0, 4.0])).unwrap();
    disk.log(&mut store);
    // The records may have reached the file, the header has not.
    disk.data = store.data_bytes();
    let header = FileHeader::new(2, Metric::L2);
    disk.data[..64].copy_from_slice(&header.to_bytes());
    drop(store);

    let store = disk.open();
    assert_eq!(store.len(), 2);
    assert_eq!(store.get_vector(0).unwrap(), &bits(&[1.0, 2.0])[..]);
    assert_eq!(store.get_vector(1).unwrap(), &bits(&[3.0, 4.0])[..]);
}

#[test]
fn test_delete_persists_after_flush_and_reopen() {
    let (mut disk, mut store) = Disk::create(2, Metric::L2);
    let deleted_id = store.insert(&bits(&[1.0, 2.0])).unwrap();
    let live_id = store.insert(&bits(&[3.0, 4.0])).unwrap();
    store.delete(deleted_id).unwrap();
    disk.log(&mut store);
    disk.flush(&store);
    drop(store);

    let store = disk.open();
    assert_eq!(store.len(), 2);
    assert!(store.is_deleted(deleted_id));
    assert!(!store.is_deleted(live_id));
}

#[test]
fn test_delete_recovers_without_store_flush() {
    let (mut disk, mut store) = Disk::create(2, Metric::L2);
    let deleted_id = store.insert(&bits(&[1.0, 2.0])).unwrap();
    store.insert(&bits(&[3.0, 4.0])).unwrap();
    store.delete(deleted_id).unwrap();
    disk.log(&mut store);
    drop(store);

    let store = disk.open();
    assert_eq!(store.len(), 2);
    assert!(store.is_deleted(deleted_id));
    assert_eq!(store.get_vector(1).unwrap(), &bits(&[3.0, 4.0])[..]);
}

#[test]
fn test_create_resets_previous_wal_history() {
    {
        let (mut disk, mut store) = Disk::create(2, Metric::L2);
        let id = store.insert(&bits(&[1.0, 2.0])).unwrap();
        store.delete(id).unwrap();
        disk.log(&mut store);
    }

    let (mut disk, mut store) = Disk::create(2, Metric::L2);
    let id = store.insert(&bits(&[3.0, 4.0])).unwrap();
    disk.log(&mut store);
    disk.flush(&store);
    assert_eq!(id, 1);
    assert!(!store.is_deleted(id));
    drop(store);

    let store = disk.open();
    assert_eq!(store.len(), 1);
    assert!(!store.is_deleted(1));
    assert_eq!(store.get_vector(0).unwrap(), &bits(&[3.0, 4.0])[..]);
}

#[test]
fn test_compaction_keeps_only_live_vectors_and_resets_wal() {
    let (mut disk, mut store) = Disk::create(2, Metric::L2);
    let id1 = store.insert(&bits(&[1.0, 1.0])).unwrap();
    let id2 = store.insert(&bits(&[2.0, 2.0])).unwrap();
    let deleted_id = store.insert(&bits(&[3.0, 3.0])).unwrap();
    store.delete(deleted_id).unwrap();
    disk.log(&mut store);
    assert!(!disk.wal.is_empty());

    let live = store.live_ids();
    assert!(!store.holds_exactly(&live));
    disk.compact(&mut store);
    assert!(store.holds_exactly(&live));

    assert_eq!(store.len(), 2);
    assert_eq!(store.vector_id(0).unwrap(), id1);
    assert_eq!(store.vector_id(1).unwrap(), id2);
    assert_eq!(store.get_vector(0).unwrap(), &bits(&[1.0, 1.0])[..]);
    assert_eq!(store.get_vector(1).unwrap(), &bits(&[2.0, 2.0])[..]);
    assert!(!store.is_deleted(deleted_id));
    assert!(store.delete(deleted_id).is_err());
    assert_eq!(disk.wal.len(), 0);

    let next_id = store.insert(&bits(&[4.0, 4.0])).unwrap();
    assert_eq!(next_id, 4);
}

fn legacy_file() -> Vec<u8> {
    let mut header = FileHeader::new(2, Metric::L2);
    header.version = LEGACY_FORMAT_VERSION;
    header.vector_count = 2;
    header.max_vector_id = 2;
    let mut bytes = header.to_bytes();
    for value in [1.0_f32, 2.0, 3.0, 4.0] {
        bytes.extend_from_slice(&value.to_le_bytes());
    }
    bytes
}

#[test]
fn test_compaction_migrates_legacy_records_and_preserves_ids() {
    let mut disk = Disk {
        data: legacy_file(),
        wal: Vec::new(),
        meta: None,
    };
    let mut store = disk.open();
    assert_eq!(store.vector_id(0).unwrap(), 1);
    assert_eq!(store.vector_id(1).unwrap(), 2);
    assert_eq!(store.get_vector(1).unwrap(), &bits(&[3.0, 4.0])[..]);
    store.delete(1).unwrap();
    disk.log(&mut store);
    disk.compact(&mut store);

    assert_ne!(store.header().version, LEGACY_FORMAT_VERSION);
    assert_eq!(store.len(), 1);
    assert_eq!(store.vector_id(0).unwrap(), 2);
    assert_eq!(store.get_vector(0).unwrap(), &bits(&[3.0, 4.0])[..]);

    let reopened = disk.open();
    assert_eq!(reopened.vector_id(0).unwrap(), 2);
    assert_eq!(reopened.get_vector(0).unwrap(), &bits(&[3.0, 4.0])[..]);
}

#[test]
fn test_process_kill_after_wal_fsync_recovers_complete_insert() {
    let (mut disk, mut store) = Disk::create(2, Metric::L2);
    store.insert(&bits(&[1.0, 2.0])).unwrap();
    disk.log(&mut store);
    disk.flush(&store);

    // The entry is in the log; the vector was not added yet.
    let id = store.stage_insert(&bits(&[9.0, 10.0]), &None).unwrap();
    assert_eq!(id, 2);
    assert_eq!(store.len(), 1);
    disk.log(&mut store);
    drop(store);

    let store = disk.open();
    assert_eq!(store.len(), 2);
    assert_eq!(store.get_vector(0).unwrap(), &bits(&[1.0, 2.0])[..]);
    assert_eq!(store.get_vector(1).unwrap(), &bits(&[9.0, 10.0])[..]);
    assert_eq!(store.vector_id(1).unwrap(), 2);

    let (entries, valid_up_to) = Wal::read_entries(&disk.wal);
    assert_eq!(entries.last().unwrap().vector_id, 2);
    assert_eq!(valid_up_to, disk.wal.len());
}

#[test]
fn test_iterate_vectors() {
    let mut store = setup(2);
    store.insert(&bits(&[1.0, 2.0])).unwrap();
    store.insert(&bits(&[3.0, 4.0])).unwrap();

    let collected: Vec<(usize, Vec<u32>)> = store
        .iter()
        .into_iter()
        .map(|(i, v)| (i, v.to_vec()))
        .collect();
    assert_eq!(collected.len(), 2);
    assert_eq!(collected[0], (0, bits(&[1.0, 2.0])));
    assert_eq!(collected[1], (1, bits(&[3.0, 4.0])));
}

#[test]
fn test_insert_with_metadata_and_read_back() {
    let mut store = setup(2);
    let with_meta = store
        .insert_with_metadata(&bits(&[1.0, 2.0]), sample_metadata())
        .unwrap();
    let without_meta = store.insert(&bits(&[3.0, 4.0])).unwrap();

    assert_eq!(with_meta, 1);
    assert_eq!(without_meta, 2);
    assert_eq!(store.metadata(0), Some(&sample_metadata()));
    assert_eq!(store.metadata(1), None);
}

#[test]
fn test_insert_batch_with_metadata() {
    let mut store = setup(2);
    let a = bits(&[1.0, 1.0]);
    let b = bits(&[2.0, 2.0]);
    let metadata = [Some(sample_metadata()), None];
    let ids = store
        .insert_batch_with_metadata(&[&a, &b], &metadata)
        .unwrap();

    assert_eq!(ids, vec![1, 2]);
    assert_eq!(store.metadata(0), Some(&sample_metadata()));
    assert_eq!(store.metadata(1), None);
}

#[test]
fn test_insert_batch_with_metadata_rejects_length_mismatch() {
    let mut store = setup(2);
    let a = bits(&[1.0, 1.0]);
    let result = store.insert_batch_with_metadata(&[&a], &[Some(sample_metadata()), None]);
    match result {
        Err(QuiverError::InvalidFormat(text)) => {
            assert_eq!(text, "Batch has 1 vectors but 2 metadata entries")
        }
        other => panic!("unexpected {other:?}"),
    }
    assert_eq!(store.len(), 0);
}

#[test]
fn test_metadata_persists_across_flush_and_reopen() {
    let (mut disk, mut store) = Disk::create(2, Metric::L2);
    store
        .insert_with_metadata(&bits(&[1.0, 2.0]), sample_metadata())
        .unwrap();
    store.insert(&bits(&[3.0, 4.0])).unwrap();
    disk.log(&mut store);
    disk.flush(&store);
    drop(store);
    assert!(disk.meta.is_some());

    // The snapshot alone carries the metadata.
    disk.wal.clear();
    let store = disk.open();
    assert_eq!(store.len(), 2);
    assert_eq!(store.metadata(0), Some(&sample_metadata()));
    assert_eq!(store.metadata(1), None);
}

#[test]
fn test_metadata_recovers_from_wal_without_flush() {
    let (mut disk, mut store) = Disk::create(2, Metric::L2);
    store
        .insert_with_metadata(&bits(&[1.0, 2.0]), sample_metadata())
        .unwrap();
    disk.log(&mut store);
    drop(store);

    let store = disk.open();
    assert_eq!(store.len(), 1);
    assert_eq!(store.get_vector(0).unwrap(), &bits(&[1.0, 2.0])[..]);
    assert_eq!(store.metadata(0), Some(&sample_metadata()));
}

#[test]
fn test_missing_meta_sidecar_falls_back_to_wal() {
    let (mut disk, mut store) = Disk::create(2, Metric::L2);
    store
        .insert_with_metadata(&bits(&[1.0, 2.0]), sample_metadata())
        .unwrap();
    disk.log(&mut store);
    disk.flush(&store);
    drop(store);
    assert!(disk.meta.is_some());
    disk.meta = None;

    let store = disk.open();
    assert_eq!(store.metadata(0), Some(&sample_metadata()));
}

#[test]
fn test_corrupt_meta_sidecar_falls_back_to_wal() {
    let (mut disk, mut store) = Disk::create(2, Metric::L2);
    store
        .insert_with_metadata(&bits(&[1.0, 2.0]), sample_metadata())
        .unwrap();
    disk.log(&mut store);
    disk.flush(&store);
    drop(store);

    let meta = disk.meta.as_mut().unwrap();
    let mid = meta.len() / 2;
    meta[mid] ^= 0xFF;

    let store = disk.open();
    assert_eq!(store.len(), 1);
    assert_eq!(store.metadata(0), Some(&sample_metadata()));
}

#[test]
fn test_compaction_preserves_metadata_and_drops_deleted() {
    let (mut disk, mut store) = Disk::create(2, Metric::L2);
    store
        .insert_with_metadata(&bits(&[1.0, 1.0]), sample_metadata())
        .unwrap();
    let deleted_id = store
        .insert_with_metadata(&bits(&[2.0, 2.0]), other_metadata())
        .unwrap();
    store.insert(&bits(&[3.0, 3.0])).unwrap();
    store.delete(deleted_id).unwrap();
    disk.log(&mut store);

    disk.compact(&mut store);

    assert_eq!(store.len(), 2);
    assert_eq!(store.vector_id(0).unwrap(), 1);
    assert_eq!(store.vector_id(1).unwrap(), 3);
    assert_eq!(store.metadata(0), Some(&sample_metadata()));
    assert_eq!(store.metadata(1), None);
    assert_eq!(disk.wal.len(), 0);
    assert!(disk.meta.is_some());
    drop(store);

    let store = disk.open();
    assert_eq!(store.len(), 2);
    assert_eq!(store.metadata(0), Some(&sample_metadata()));
    assert_eq!(store.metadata(1), None);
}

#[test]
fn test_create_removes_stale_meta_sidecar() {
    let (mut disk, mut store) = Disk::create(2, Metric::L2);
    store
        .insert_with_metadata(&bits(&[1.0, 2.0]), sample_metadata())
        .unwrap();
    disk.log(&mut store);
    disk.flush(&store);
    assert!(disk.meta.is_some());

    let (mut disk, mut store) = Disk::create(2, Metric::L2);
    assert!(disk.meta.is_none());
    store.insert(&bits(&[9.0, 9.0])).unwrap();
    disk.log(&mut store);
    disk.flush(&store);
    assert!(disk.meta.is_none());
    drop(store);

    let store = disk.open();
    assert_eq!(store.len(), 1);
    assert_eq!(store.metadata(0), None);
}

#[test]
fn test_metadata_insert_into_v2_store_bumps_version_to_3() {
    let mut header = FileHeader::new(2, Metric::L2);
    header.version = 2;
    header.vector_count = 1;
    header.max_vector_id = 1;
    let mut bytes = header.to_bytes();
    bytes.extend_from_slice(&1_u64.to_le_bytes());
    bytes.extend_from_slice(&1.0_f32.to_le_bytes());
    bytes.extend_from_slice(&2.0_f32.to_le_bytes());
    let mut disk = Disk {
        data: bytes,
        wal: Vec::new(),
        meta: None,
    };

    let mut store = disk.open();
    assert_eq!(disk.data[4], 2);
    store
        .insert_with_metadata(&bits(&[3.0, 4.0]), sample_metadata())
        .unwrap();
    disk.log(&mut store);
    disk.flush(&store);
    drop(store);

    let store = disk.open();
    assert_eq!(disk.data[4], 3);
    assert_eq!(store.len(), 2);
    assert_eq!(store.metadata(0), None);
    assert_eq!(store.metadata(1), Some(&sample_metadata()));
}

#[test]
fn metadata_turns_a_legacy_store_into_one_of_the_current_format() {
    let mut disk = Disk {
        data: legacy_file(),
        wal: Vec::new(),
        meta: None,
    };
    let mut store = disk.open();
    store
        .insert_with_metadata(&bits(&[5.0, 6.0]), sample_metadata())
        .unwrap();
    disk.log(&mut store);
    assert_eq!(store.header().version, FORMAT_VERSION);
    disk.flush(&store);
    let store = disk.open();
    assert_eq!(store.vector_id(2).unwrap(), 3);
    assert_eq!(store.get_vector(0).unwrap(), &bits(&[1.0, 2.0])[..]);
    assert_eq!(store.get_vector(2).unwrap(), &bits(&[5.0, 6.0])[..]);
    assert_eq!(store.metadata(2), Some(&sample_metadata()));
}

#[test]
fn a_batch_that_was_logged_in_part_is_recovered_in_part() {
    let (mut disk, mut store) = Disk::create(1, Metric::L2);
    let (a, b, c) = (bits(&[1.0]), bits(&[2.0]), bits(&[3.0]));
    store.insert_batch(&[&a, &b, &c]).unwrap();
    let log = store.flush_wal();
    let entry = log.len() / 3;
    for n in 0..log.len() {
        disk.wal = log[..n].to_vec();
        let opened = VectorStore::open(&disk.data, &disk.wal, None).unwrap();
        assert_eq!(opened.store.len(), n / entry);
        assert_eq!(opened.valid_up_to, n / entry * entry);
        assert_eq!(opened.recovered, n >= entry);
    }
}

#[test]
fn replay_of_a_checkpointed_log_changes_nothing() {
    let (mut disk, mut store) = Disk::create(1, Metric::L2);
    store.insert(&bits(&[1.0])).unwrap();
    store
        .insert_with_metadata(&bits(&[2.0]), sample_metadata())
        .unwrap();
    store.delete(1).unwrap();
    disk.log(&mut store);
    disk.flush(&store);
    let opened = VectorStore::open(&disk.data, &disk.wal, disk.meta.as_deref()).unwrap();
    assert!(!opened.recovered);
    assert_eq!(opened.store.len(), 2);
    assert!(opened.store.is_deleted(1));
    assert_eq!(opened.store.data_bytes(), disk.data);
}

#[test]
fn a_log_with_vectors_of_another_dimension_is_refused() {
    let (disk, _) = Disk::create(2, Metric::L2);
    let mut wal = Wal::new();
    wal.log_insert(1, &bits(&[1.0]));
    let log = wal.flush();
    assert!(matches!(
        VectorStore::open(&disk.data, &log, None),
        Err(QuiverError::DimensionMismatch { expected: 2, actual: 1 })
    ));
}

#[test]
fn deleting_twice_or_an_unknown_id_is_refused() {
    let mut store = setup(1);
    let id = store.insert(&bits(&[1.0])).unwrap();
    store.delete(id).unwrap();
    assert!(matches!(store.delete(id), Err(QuiverError::NotFound(1))));
    assert!(matches!(store.delete(0), Err(QuiverError::NotFound(0))));
    assert!(matches!(store.delete(9), Err(QuiverError::NotFound(9))));
}

#[test]
fn the_file_grows_by_doubling_with_room_for_sixty_four() {
    let (_, mut store) = Disk::create(2, Metric::L2);
    assert_eq!(store.record_size(), Some(16));
    assert_eq!(store.record_offset(3), Some(64 + 48));
    assert_eq!(store.file_len(64), Some(64));
    store.insert(&bits(&[1.0, 2.0])).unwrap();
    assert_eq!(store.file_len(64), Some(64 + 64 * 16));
    assert_eq!(store.file_len(80), Some(80));
    for _ in 0..99 {
        store.insert(&bits(&[1.0, 2.0])).unwrap();
    }
    assert_eq!(store.file_len(64 + 64 * 16), Some(2 * (64 + 64 * 16)));
    assert_eq!(store.file_len(700), Some(64 + 100 * 16));
    let whole = store.data_bytes();
    assert_eq!(&whole[64 + 16 * 16..64 + 17 * 16], &store.record_bytes(16)[..]);
    assert_eq!(&store.record_bytes(0)[..8], &1_u64.to_le_bytes());
}

#[test]
fn a_compacted_store_holds_exactly_the_live() {
    let (_, mut store) = Disk::create(1, Metric::L2);
    for i in 0..4 {
        store.insert(&bits(&[i as f32])).unwrap();
    }
    store.delete(2).unwrap();
    let live = store.live_ids();
    assert_eq!(live, vec![1, 3, 4]);
    assert!(!store.holds_exactly(&live));
    let compacted = store.compacted();
    assert!(compacted.holds_exactly(&live));
    assert!(!compacted.holds_exactly(&[1, 3]));
    assert_eq!(compacted.header().max_vector_id, 4);
}

#[test]
fn a_whole_history_is_recovered_at_every_step() {
    let (mut disk, mut store) = Disk::create(2, Metric::Cosine);
    for step in 0..40u64 {
        let value = step as f32;
        match step % 8 {
            0 | 3 => {
                store.insert(&bits(&[value, 1.0])).unwrap();
            }
            1 => {
                let mut md = Metadata::new();
                md.insert("step".to_owned(), MetaValue::from(step as i64));
                store.insert_with_metadata(&bits(&[value, 2.0]), md).unwrap();
            }
            2 => {
                let a = bits(&[value, 3.0]);
                let b = bits(&[value, 4.0]);
                store.insert_batch(&[&a, &b]).unwrap();
            }
            4 => {
                let live = store.live_ids();
                store.delete(live[live.len() / 2]).unwrap();
            }
            5 => disk.flush(&store),
            6 if step % 16 == 6 => disk.compact(&mut store),
            _ => store = disk.open(),
        }
        disk.log(&mut store);
        // Bytes behind the last record do not matter.
        for padding in [0, 13] {
            let mut data = disk.data.clone();
            data.extend(vec![0xab; padding]);
            let again = VectorStore::open(&data, &disk.wal, disk.meta.as_deref()).unwrap();
            assert_eq!(again.valid_up_to, disk.wal.len());
            let again = again.store;
            assert_eq!(again.len(), store.len());
            assert_eq!(again.header(), store.header());
            for slot in 0..store.len() {
                let id = store.vector_id(slot).unwrap();
                assert_eq!(again.vector_id(slot).unwrap(), id);
                assert_eq!(again.get_vector(slot).unwrap(), store.get_vector(slot).unwrap());
                assert_eq!(again.metadata(slot), store.metadata(slot));
                assert_eq!(again.is_deleted(id), store.is_deleted(id));
            }
        }
    }
    assert!(store.len() > 15);
}
