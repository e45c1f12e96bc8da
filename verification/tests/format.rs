use quiver_core::distance::Metric;
use quiver_core::error::QuiverError;
use quiver_core::fuzz_inputs::{mutated_valid_file, synthesized_file};
use quiver_core::storage::format::{parse_file_bytes, validate_file_bytes};
use quiver_core::storage::header::FileHeader;

fn file(version: u8, dimension: u32, ids: &[u64], max: u64) -> Vec<u8> {
    let mut header = FileHeader::new(dimension, Metric::L2);
    header.version = version;
    header.vector_count = ids.len() as u64;
    header.max_vector_id = max;
    let mut bytes = header.to_bytes();
    for id in ids {
        if version != 1 {
            bytes.extend_from_slice(&id.to_le_bytes());
        }
        for i in 0..dimension {
            bytes.extend_from_slice(&(i as f32).to_le_bytes());
        }
    }
    bytes
}

fn fault(bytes: &[u8]) -> String {
    match validate_file_bytes(bytes) {
        Err(QuiverError::InvalidFormat(text)) => text,
        other => panic!("unexpected {other:?}"),
    }
}

#[test]
fn valid_files_of_every_version_are_parsed() {
    let parsed = parse_file_bytes(&file(1, 2, &[1, 2], 5)).unwrap();
    assert_eq!(parsed.vector_ids, vec![1, 2]);
    assert_eq!(parsed.record_size, 8);
    for version in [2, 3] {
        let parsed = parse_file_bytes(&file(version, 2, &[3, 7, 8], 9)).unwrap();
        assert_eq!(parsed.vector_ids, vec![3, 7, 8]);
        assert_eq!(parsed.record_size, 16);
    }
}

#[test]
fn bytes_behind_the_last_record_do_not_matter() {
    let mut bytes = file(3, 2, &[3, 7], 9);
    bytes.extend_from_slice(&[1, 2, 3]);
    assert_eq!(parse_file_bytes(&bytes).unwrap().vector_ids, vec![3, 7]);
}

#[test]
fn every_fault_of_a_file_is_worded() {
    assert_eq!(fault(b"QVDB\x02"), "File too short: 5 bytes, expected at least 64");
    assert_eq!(
        fault(&FileHeader::new(0, Metric::L2).to_bytes()),
        "Vector dimension must be greater than zero"
    );
    let short = file(3, 2, &[1], 1);
    assert_eq!(
        fault(&short[..short.len() - 1]),
        "Truncated vector data: 79 bytes, expected at least 80"
    );
    assert_eq!(fault(&file(3, 2, &[1], 0)), "Non-empty store has max_vector_id 0");
    assert_eq!(
        fault(&file(1, 2, &[1, 2], 1)),
        "Legacy max_vector_id 1 is smaller than vector_count 2"
    );
    assert_eq!(fault(&file(3, 2, &[1, 5, 5], 9)), "Invalid vector ID 5 at slot 2");
    assert_eq!(fault(&file(3, 2, &[0], 9)), "Invalid vector ID 0 at slot 0");
    assert_eq!(fault(&file(3, 2, &[10], 9)), "Invalid vector ID 10 at slot 0");
    let mut huge = FileHeader::new(2, Metric::L2);
    huge.vector_count = u64::MAX;
    huge.max_vector_id = u64::MAX;
    assert_eq!(fault(&huge.to_bytes()), "Vector data size overflow");
}

#[test]
fn synthesized_files_carry_the_input() {
    let input: Vec<u8> = (0..40).collect();
    let bytes = synthesized_file(&input, 2);
    assert_eq!(&bytes[0..4], b"QVDB");
    assert_eq!(bytes[4], 2);
    assert_eq!(&bytes[5..28], &input[0..23]);
    assert!(bytes[28..64].iter().all(|b| *b == 0));
    assert_eq!(&bytes[64..], &input[23..]);
    assert_eq!(synthesized_file(&[], 1).len(), 64);
}

#[test]
fn mutated_files_start_out_valid() {
    for version in [1, 2, 3] {
        assert!(validate_file_bytes(&mutated_valid_file(&[], version)).is_ok());
    }
    let bytes = mutated_valid_file(&[0, 0xff], 3);
    assert_eq!(bytes[0], b'Q' ^ 0xff);
    assert!(validate_file_bytes(&bytes).is_err());
    // An odd byte at the end names no change.
    assert_eq!(mutated_valid_file(&[7], 3), mutated_valid_file(&[], 3));
    let wrapped = mutated_valid_file(&[85, 1], 3);
    assert_eq!(wrapped[85 % wrapped.len()], mutated_valid_file(&[], 3)[85 % wrapped.len()] ^ 1);
}
