use quiver_core::metadata::{MetaValue, Metadata};
use quiver_core::storage::wal::{
    accept_entry, entry_body_end, parse_entry_body, Wal, WalOp,
};

fn bits(values: &[f32]) -> Vec<u32> {
    values.iter().map(|v| v.to_bits()).collect()
}

#[test]
fn test_wal_insert_and_read() {
    let mut wal = Wal::new();
    wal.log_insert(1, &bits(&[1.0, 2.0, 3.0]));
    wal.log_insert(2, &bits(&[4.0, 5.0, 6.0]));
    let log = wal.flush();

    let (entries, _) = Wal::read_entries(&log);
    assert_eq!(entries.len(), 2);
    assert_eq!(entries[0].op, WalOp::Insert);
    assert_eq!(entries[0].vector_id, 1);
    assert_eq!(entries[0].vector_data.as_ref().unwrap(), &bits(&[1.0, 2.0, 3.0]));
    assert_eq!(entries[1].vector_id, 2);
}

#[test]
fn test_wal_delete_and_read() {
    let mut wal = Wal::new();
    wal.log_insert(1, &bits(&[1.0, 2.0]));
    wal.log_delete(1);
    let log = wal.flush();

    let (entries, _) = Wal::read_entries(&log);
    assert_eq!(entries.len(), 2);
    assert_eq!(entries[0].op, WalOp::Insert);
    assert_eq!(entries[1].op, WalOp::Delete);
    assert_eq!(entries[1].vector_id, 1);
    assert!(entries[1].vector_data.is_none());
}

#[test]
fn test_wal_checksum_corruption_truncates() {
    let mut wal = Wal::new();
    wal.log_insert(1, &bits(&[1.0, 2.0]));
    wal.log_insert(2, &bits(&[3.0, 4.0]));
    let mut log = wal.flush();

    let last = log.len() - 1;
    log[last] = if log[last] == 0xFF { 0 } else { 0xFF };

    let (entries, valid_up_to) = Wal::read_entries(&log);
    assert_eq!(entries.len(), 1);
    assert_eq!(entries[0].vector_id, 1);

    log.truncate(valid_up_to);

    let (entries2, _) = Wal::read_entries(&log);
    assert_eq!(entries2.len(), 1);
}

#[test]
fn test_wal_empty_file() {
    let (entries, valid_up_to) = Wal::read_entries(&[]);
    assert!(entries.is_empty());
    assert_eq!(valid_up_to, 0);
}

#[test]
fn test_wal_nonexistent_file() {
    // A log that does not exist holds no bytes.
    let (entries, valid_up_to) = Wal::read_entries(&Vec::new());
    assert!(entries.is_empty());
    assert_eq!(valid_up_to, 0);
}

#[test]
fn test_wal_clear() {
    let mut wal = Wal::new();
    wal.log_insert(1, &bits(&[1.0]));
    wal.clear();
    let log = wal.flush();

    let (entries, _) = Wal::read_entries(&log);
    assert!(entries.is_empty());
}

#[test]
fn test_wal_partial_write_truncation() {
    let mut wal = Wal::new();
    wal.log_insert(1, &bits(&[1.0, 2.0, 3.0]));
    let mut log = wal.flush();
    log.extend_from_slice(&[100, 0, 0, 0]);

    let (entries, _) = Wal::read_entries(&log);
    assert_eq!(entries.len(), 1);
    assert_eq!(entries[0].vector_id, 1);
}

#[test]
fn test_wal_absurd_length_prefix_does_not_allocate_or_panic() {
    let (entries, valid_up_to) = Wal::read_entries(&u32::MAX.to_le_bytes());
    assert!(entries.is_empty());
    assert_eq!(valid_up_to, 0);
}

#[test]
fn entries_are_framed_with_length_and_checksum() {
    let mut wal = Wal::new();
    wal.log_delete(0x0102_0304_0506_0708);
    let log = wal.flush();
    let mut expected = vec![9, 0, 0, 0, 1];
    expected.extend_from_slice(&0x0102_0304_0506_0708_u64.to_le_bytes());
    let sum = crc32fast::hash(&expected);
    expected.extend_from_slice(&sum.to_le_bytes());
    assert_eq!(log, expected);
}

#[test]
fn inserts_with_metadata_are_read_back() {
    let mut md = Metadata::new();
    md.insert("year".to_owned(), MetaValue::Int(2024));
    let mut wal = Wal::new();
    wal.log_insert_meta(7, &md, &bits(&[1.5, -2.5]));
    let log = wal.flush();
    assert_eq!(log[4], 2);
    let (entries, valid_up_to) = Wal::read_entries(&log);
    assert_eq!(valid_up_to, log.len());
    assert_eq!(entries[0].op, WalOp::InsertMeta);
    assert_eq!(entries[0].vector_id, 7);
    assert_eq!(entries[0].metadata, Some(md));
    assert_eq!(entries[0].vector_data, Some(bits(&[1.5, -2.5])));
}

#[test]
fn every_torn_tail_leaves_the_entries_before_it() {
    let mut wal = Wal::new();
    wal.log_insert(1, &bits(&[1.0]));
    let first = wal.flush();
    wal.log_insert(2, &bits(&[2.0]));
    let second = wal.flush();
    for n in 0..second.len() {
        let mut log = first.clone();
        log.extend_from_slice(&second[..n]);
        let (entries, valid_up_to) = Wal::read_entries(&log);
        assert_eq!(entries.len(), 1);
        assert_eq!(valid_up_to, first.len());
    }
}

#[test]
fn bodies_that_spell_no_entry_are_refused() {
    assert!(parse_entry_body(&[]).is_none());
    assert!(parse_entry_body(&[3, 1, 0, 0, 0, 0, 0, 0, 0]).is_none());
    assert!(parse_entry_body(&[1, 1, 0, 0, 0, 0, 0, 0]).is_none());
    assert!(parse_entry_body(&[0, 1, 0, 0, 0, 0, 0, 0, 0, 9]).is_none());
    assert!(parse_entry_body(&[2, 1, 0, 0, 0, 0, 0, 0, 0, 9, 0, 0, 0]).is_none());
    // What follows the ID of a deletion is passed over.
    let entry = parse_entry_body(&[1, 5, 0, 0, 0, 0, 0, 0, 0, 9]).unwrap();
    assert_eq!((entry.op, entry.vector_id), (WalOp::Delete, 5));
}

#[test]
fn an_entry_is_taken_only_with_its_checksum() {
    let mut wal = Wal::new();
    wal.log_delete(5);
    let log = wal.flush();
    let end = entry_body_end(&log, 0).unwrap();
    assert_eq!(end, 13);
    let sum = crc32fast::hash(&log[..end]);
    assert_eq!(accept_entry(&log, 0, sum).unwrap().1, log.len());
    assert!(accept_entry(&log, 0, sum ^ 1).is_none());
    assert!(entry_body_end(&log[..log.len() - 1], 0).is_none());
}

#[test]
fn operation_bytes_name_their_operations() {
    assert_eq!(WalOp::from_u8(0), Some(WalOp::Insert));
    assert_eq!(WalOp::from_u8(1), Some(WalOp::Delete));
    assert_eq!(WalOp::from_u8(2), Some(WalOp::InsertMeta));
    assert_eq!(WalOp::from_u8(3), None);
}
