use quiver_core::distance::Metric;
use quiver_core::error::QuiverError;
use quiver_core::storage::header::{
    FileHeader, FORMAT_VERSION, HEADER_SIZE, LEGACY_FORMAT_VERSION, MAGIC,
};

#[test]
fn test_header_roundtrip() {
    let header = FileHeader::new(128, Metric::L2);
    let bytes = header.to_bytes();
    assert_eq!(bytes.len(), HEADER_SIZE);

    let parsed = FileHeader::from_bytes(&bytes).unwrap();
    assert_eq!(header, parsed);
}

#[test]
fn test_header_roundtrip_all_metrics() {
    for metric in [Metric::L2, Metric::DotProduct, Metric::Cosine] {
        let header = FileHeader::new(256, metric);
        let bytes = header.to_bytes();
        let parsed = FileHeader::from_bytes(&bytes).unwrap();
        assert_eq!(header, parsed);
    }
}

#[test]
fn test_header_with_counts() {
    let mut header = FileHeader::new(64, Metric::Cosine);
    header.vector_count = 1000;
    header.max_vector_id = 1500;

    let bytes = header.to_bytes();
    let parsed = FileHeader::from_bytes(&bytes).unwrap();
    assert_eq!(parsed.vector_count, 1000);
    assert_eq!(parsed.max_vector_id, 1500);
}

#[test]
fn test_header_invalid_magic() {
    let mut bytes = FileHeader::new(128, Metric::L2).to_bytes();
    bytes[0] = b'X';
    assert!(FileHeader::from_bytes(&bytes).is_err());
    match FileHeader::from_bytes(&bytes) {
        Err(QuiverError::InvalidFormat(text)) => assert_eq!(
            text,
            "Invalid magic bytes: expected [81, 86, 68, 66], got [88, 86, 68, 66]"
        ),
        other => panic!("unexpected {other:?}"),
    }
}

#[test]
fn test_header_invalid_version() {
    let mut bytes = FileHeader::new(128, Metric::L2).to_bytes();
    bytes[4] = 255;
    assert!(FileHeader::from_bytes(&bytes).is_err());
    match FileHeader::from_bytes(&bytes) {
        Err(QuiverError::InvalidFormat(text)) => {
            assert_eq!(text, "Unsupported format version: 255 (max supported: 3)")
        }
        other => panic!("unexpected {other:?}"),
    }
}

#[test]
fn test_legacy_version_is_still_accepted() {
    let mut bytes = FileHeader::new(128, Metric::L2).to_bytes();
    bytes[4] = LEGACY_FORMAT_VERSION;
    let header = FileHeader::from_bytes(&bytes).unwrap();
    assert_eq!(header.version, LEGACY_FORMAT_VERSION);
}

#[test]
fn test_version_2_is_still_accepted() {
    let mut bytes = FileHeader::new(128, Metric::L2).to_bytes();
    bytes[4] = 2;
    let header = FileHeader::from_bytes(&bytes).unwrap();
    assert_eq!(header.version, 2);
}

#[test]
fn test_new_headers_are_version_3() {
    assert_eq!(FORMAT_VERSION, 3);
    assert_eq!(FileHeader::new(128, Metric::L2).version, 3);
}

#[test]
fn test_header_invalid_metric() {
    let mut bytes = FileHeader::new(128, Metric::L2).to_bytes();
    bytes[5] = 99;
    assert!(FileHeader::from_bytes(&bytes).is_err());
    assert!(matches!(
        FileHeader::from_bytes(&bytes),
        Err(QuiverError::UnsupportedMetric(99))
    ));
}

#[test]
fn test_header_too_short() {
    let bytes = vec![0u8; 10];
    assert!(FileHeader::from_bytes(&bytes).is_err());
    match FileHeader::from_bytes(&bytes) {
        Err(QuiverError::InvalidFormat(text)) => {
            assert_eq!(text, "Header too short: 10 bytes, expected at least 64")
        }
        other => panic!("unexpected {other:?}"),
    }
}

#[test]
fn test_header_size_is_64() {
    assert_eq!(HEADER_SIZE, 64);
    let bytes = FileHeader::new(128, Metric::L2).to_bytes();
    assert_eq!(bytes.len(), 64);
}

#[test]
fn header_fields_stand_where_the_layout_says() {
    let mut header = FileHeader::new(0x0102_0304, Metric::Cosine);
    header.vector_count = 0x1112_1314_1516_1718;
    header.max_vector_id = 0x2122_2324_2526_2728;
    let bytes = header.to_bytes();
    assert_eq!(&bytes[0..4], b"QVDB");
    assert_eq!(&bytes[0..4], &MAGIC);
    assert_eq!(bytes[4], 3);
    assert_eq!(bytes[5], 2);
    assert_eq!(&bytes[8..12], &0x0102_0304_u32.to_le_bytes());
    assert_eq!(&bytes[12..20], &0x1112_1314_1516_1718_u64.to_le_bytes());
    assert_eq!(&bytes[20..28], &0x2122_2324_2526_2728_u64.to_le_bytes());
    assert!(bytes[28..].iter().all(|b| *b == 0));
}

#[test]
fn metric_bytes_name_their_metrics() {
    for metric in [Metric::L2, Metric::DotProduct, Metric::Cosine] {
        assert_eq!(Metric::from_u8(metric.to_u8()), Some(metric));
    }
    assert_eq!(Metric::from_u8(3), None);
}
