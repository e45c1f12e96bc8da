use quiver_core::error::QuiverError;
use quiver_core::metadata::{Filter, MetaValue, Metadata};
use quiver_core::metadata_encoding::{METADATA_ENCODING_VERSION, TAG_INT};

fn text(value: &str) -> MetaValue {
    MetaValue::from(value.to_owned())
}

fn whole(value: i64) -> MetaValue {
    MetaValue::from(value)
}

fn float(value: f64) -> MetaValue {
    MetaValue::Float(value.to_bits())
}

fn put(md: &mut Metadata, key: &str, value: MetaValue) -> Option<MetaValue> {
    md.insert(key.to_owned(), value)
}

fn sample_metadata() -> Metadata {
    let mut md = Metadata::new();
    put(&mut md, "category", text("science"));
    put(&mut md, "year", whole(2024));
    put(&mut md, "score", float(0.5));
    put(&mut md, "published", MetaValue::from(true));
    md
}

fn eq(key: &str, value: MetaValue) -> Filter {
    Filter::Eq {
        key: key.to_owned(),
        value,
    }
}

#[test]
fn test_eq_matches_on_equal_value() {
    let md = sample_metadata();
    assert!(eq("category", text("science")).matches(&md));
    assert!(eq("year", whole(2024)).matches(&md));
    assert!(eq("score", float(0.5)).matches(&md));
    assert!(eq("published", MetaValue::from(true)).matches(&md));
}

#[test]
fn test_eq_rejects_different_value() {
    let md = sample_metadata();
    assert!(!eq("category", text("sports")).matches(&md));
    assert!(!eq("year", whole(1999)).matches(&md));
    assert!(!eq("published", MetaValue::from(false)).matches(&md));
}

#[test]
fn test_eq_rejects_missing_key() {
    let md = sample_metadata();
    assert!(!eq("nonexistent", text("science")).matches(&md));
    assert!(!eq("nonexistent", whole(0)).matches(&Metadata::new()));
}

#[test]
fn test_eq_rejects_different_type() {
    let md = sample_metadata();
    assert!(!eq("year", float(2024.0)).matches(&md));
    assert!(!eq("score", whole(1)).matches(&md));
}

#[test]
fn test_and_requires_all_conjuncts() {
    let md = sample_metadata();
    let filter = Filter::And(vec![
        eq("category", text("science")),
        eq("year", whole(2024)),
        eq("published", MetaValue::from(true)),
    ]);
    assert!(filter.matches(&md));

    let filter = Filter::And(vec![eq("category", text("science")), eq("year", whole(1999))]);
    assert!(!filter.matches(&md));
}

#[test]
fn test_and_empty_matches_everything() {
    assert!(Filter::And(Vec::new()).matches(&Metadata::new()));
    assert!(Filter::And(Vec::new()).matches(&sample_metadata()));
}

#[test]
fn test_nested_and() {
    let md = sample_metadata();
    let filter = Filter::And(vec![
        Filter::And(vec![eq("category", text("science")), eq("year", whole(2024))]),
        Filter::And(vec![eq("published", MetaValue::from(true))]),
    ]);
    assert!(filter.matches(&md));

    let filter = Filter::And(vec![
        Filter::And(vec![eq("category", text("science"))]),
        Filter::And(vec![eq("year", whole(1999))]),
    ]);
    assert!(!filter.matches(&md));
}

#[test]
fn test_matches_against_empty_metadata() {
    let md = Metadata::new();
    assert!(!eq("category", text("science")).matches(&md));
    assert!(Filter::And(vec![]).matches(&md));
}

#[test]
fn test_metadata_insert_overwrites() {
    let mut md = Metadata::new();
    assert_eq!(put(&mut md, "k", text("v1")), None);
    assert_eq!(put(&mut md, "k", text("v2")), Some(MetaValue::Str("v1".into())));
    assert_eq!(md.get("k"), Some(&MetaValue::Str("v2".into())));
    assert_eq!(md.len(), 1);
}

#[test]
fn test_metadata_deterministic_iteration_order() {
    let mut md = Metadata::new();
    put(&mut md, "zebra", whole(1));
    put(&mut md, "apple", whole(2));
    put(&mut md, "mango", whole(3));
    let keys: Vec<&str> = md.iter().into_iter().map(|(k, _)| k.as_str()).collect();
    assert_eq!(keys, vec!["apple", "mango", "zebra"]);
}

#[test]
fn test_binary_roundtrip_all_value_types() {
    let mut md = Metadata::new();
    put(&mut md, "bool", MetaValue::from(true));
    put(&mut md, "int", whole(-42));
    put(&mut md, "float", float(2.5));
    put(&mut md, "str", text("hello wörld"));
    put(&mut md, "empty_str", text(""));

    let bytes = md.to_bytes();
    let parsed = Metadata::from_bytes(&bytes).unwrap();
    assert_eq!(md, parsed);
}

#[test]
fn test_binary_roundtrip_empty_metadata() {
    let md = Metadata::new();
    let bytes = md.to_bytes();
    assert_eq!(bytes, vec![METADATA_ENCODING_VERSION, 0, 0, 0, 0]);
    assert_eq!(Metadata::from_bytes(&bytes).unwrap(), md);
}

#[test]
fn test_binary_from_bytes_rejects_malformed_input() {
    let valid = sample_metadata().to_bytes();

    for len in 0..valid.len() {
        assert!(
            Metadata::from_bytes(&valid[..len]).is_err(),
            "prefix of length {len} unexpectedly parsed"
        );
    }

    assert!(Metadata::from_bytes(&[]).is_err());
    let mut bad_version = valid.clone();
    bad_version[0] = 99;
    assert!(Metadata::from_bytes(&bad_version).is_err());
    let mut bad_tag = valid.clone();
    let tag_pos = bad_tag.len() - 9;
    bad_tag[tag_pos] = 77;
    assert!(Metadata::from_bytes(&bad_tag).is_err());
    let mut trailing = valid.clone();
    trailing.push(0);
    assert!(Metadata::from_bytes(&trailing).is_err());
}

#[test]
fn test_binary_from_bytes_rejects_invalid_bool_byte() {
    let md = {
        let mut md = Metadata::new();
        put(&mut md, "b", MetaValue::from(true));
        md
    };
    let mut bytes = md.to_bytes();
    *bytes.last_mut().unwrap() = 2;
    assert!(Metadata::from_bytes(&bytes).is_err());
}

#[test]
fn test_binary_from_bytes_rejects_non_utf8_key() {
    let mut bytes = vec![METADATA_ENCODING_VERSION];
    bytes.extend_from_slice(&1_u32.to_le_bytes());
    bytes.extend_from_slice(&1_u32.to_le_bytes());
    bytes.push(0xFF);
    bytes.push(TAG_INT);
    bytes.extend_from_slice(&0_i64.to_le_bytes());
    assert!(Metadata::from_bytes(&bytes).is_err());
}

#[test]
fn test_binary_from_bytes_rejects_duplicate_keys() {
    let mut bytes = vec![METADATA_ENCODING_VERSION];
    bytes.extend_from_slice(&2_u32.to_le_bytes());
    for _ in 0..2 {
        bytes.extend_from_slice(&1_u32.to_le_bytes());
        bytes.extend_from_slice(b"k");
        bytes.push(TAG_INT);
        bytes.extend_from_slice(&0_i64.to_le_bytes());
    }
    assert!(Metadata::from_bytes(&bytes).is_err());
}

#[test]
fn test_binary_from_bytes_absurd_length_does_not_allocate() {
    let mut bytes = vec![METADATA_ENCODING_VERSION];
    bytes.extend_from_slice(&1_u32.to_le_bytes());
    bytes.extend_from_slice(&u32::MAX.to_le_bytes());
    assert!(Metadata::from_bytes(&bytes).is_err());
}

#[test]
fn encoding_is_laid_out_byte_for_byte() {
    let mut md = Metadata::new();
    put(&mut md, "b", whole(-2));
    put(&mut md, "a", text("é"));
    let mut expected = vec![1, 2, 0, 0, 0];
    expected.extend_from_slice(&[1, 0, 0, 0, b'a', 3, 2, 0, 0, 0, 0xc3, 0xa9]);
    expected.extend_from_slice(&[1, 0, 0, 0, b'b', 1]);
    expected.extend_from_slice(&(-2_i64).to_le_bytes());
    assert_eq!(md.to_bytes(), expected);
}

#[test]
fn unsorted_entries_are_read_into_sorted_metadata() {
    let mut bytes = vec![1, 2, 0, 0, 0];
    bytes.extend_from_slice(&[1, 0, 0, 0, b'z', 0, 1]);
    bytes.extend_from_slice(&[1, 0, 0, 0, b'a', 0, 0]);
    let md = Metadata::from_bytes(&bytes).unwrap();
    let keys: Vec<&str> = md.iter().into_iter().map(|(k, _)| k.as_str()).collect();
    assert_eq!(keys, vec!["a", "z"]);
    assert!(md.contains_key("z") && !md.contains_key("b"));
}

#[test]
fn every_fault_of_an_encoding_is_worded() {
    let word = |bytes: &[u8]| match Metadata::from_bytes(bytes) {
        Err(QuiverError::InvalidFormat(text)) => text,
        other => panic!("unexpected {other:?}"),
    };
    assert_eq!(word(&[]), "metadata blob too short");
    assert_eq!(word(&[9]), "unsupported metadata encoding version: 9");
    assert_eq!(word(&[1, 0]), "metadata blob missing entry count");
    assert_eq!(word(&[1, 1, 0, 0, 0]), "metadata key length invalid");
    assert_eq!(word(&[1, 1, 0, 0, 0, 1, 0, 0, 0]), "metadata key truncated");
    assert_eq!(
        word(&[1, 1, 0, 0, 0, 1, 0, 0, 0, 255]),
        "metadata key is not valid UTF-8"
    );
    assert_eq!(
        word(&[1, 1, 0, 0, 0, 1, 0, 0, 0, b'k']),
        "metadata value tag truncated"
    );
    let value = |tail: &[u8]| {
        let mut bytes = vec![1, 1, 0, 0, 0, 1, 0, 0, 0, b'k'];
        bytes.extend_from_slice(tail);
        bytes
    };
    assert_eq!(word(&value(&[0])), "metadata bool value truncated");
    assert_eq!(word(&value(&[0, 7])), "invalid metadata bool byte: 7");
    assert_eq!(word(&value(&[1, 0])), "metadata int value truncated");
    assert_eq!(word(&value(&[2, 0])), "metadata float value truncated");
    assert_eq!(word(&value(&[3, 0])), "metadata string length invalid");
    assert_eq!(word(&value(&[3, 1, 0, 0, 0])), "metadata string value truncated");
    assert_eq!(
        word(&value(&[3, 1, 0, 0, 0, 255])),
        "metadata string is not valid UTF-8"
    );
    assert_eq!(word(&value(&[4])), "unknown metadata value tag: 4");
    assert_eq!(word(&value(&[0, 1, 9])), "trailing bytes after metadata blob");
    let mut twice = vec![1, 2, 0, 0, 0];
    for _ in 0..2 {
        twice.extend_from_slice(&[1, 0, 0, 0, b'k', 0, 1]);
    }
    assert_eq!(word(&twice), "duplicate metadata key");
}

#[test]
fn floats_compare_as_numbers() {
    let mut md = Metadata::new();
    put(&mut md, "zero", float(0.0));
    put(&mut md, "nan", float(f64::NAN));
    assert!(eq("zero", float(-0.0)).matches(&md));
    assert!(!eq("nan", float(f64::NAN)).matches(&md));
    assert!(!eq("zero", float(f64::MIN_POSITIVE)).matches(&md));
}

#[test]
fn a_clone_is_equal_and_separate() {
    let md = sample_metadata();
    let mut copy = md.clone();
    assert_eq!(md, copy);
    put(&mut copy, "year", whole(1));
    assert!(md != copy);
    assert_eq!(md.get("year"), Some(&whole(2024)));
    assert!(Metadata::default().is_empty());
}

#[test]
fn what_was_read_is_written_in_as_many_bytes() {
    let entry = |key: &str, value: i64| -> Vec<u8> {
        let mut bytes = (key.len() as u32).to_le_bytes().to_vec();
        bytes.extend_from_slice(key.as_bytes());
        bytes.push(TAG_INT);
        bytes.extend_from_slice(&value.to_le_bytes());
        bytes
    };
    let blob = |entries: &[Vec<u8>]| -> Vec<u8> {
        let mut bytes = vec![METADATA_ENCODING_VERSION];
        bytes.extend_from_slice(&(entries.len() as u32).to_le_bytes());
        bytes.extend(entries.concat());
        bytes
    };
    let sorted = blob(&[entry("a", 1), entry("b", -2), entry("ba", 3)]);
    let md = Metadata::from_bytes(&sorted).unwrap();
    assert_eq!(md.len(), 3);
    assert_eq!(md.to_bytes(), sorted);

    let shuffled = blob(&[entry("ba", 3), entry("a", 1), entry("b", -2)]);
    let md = Metadata::from_bytes(&shuffled).unwrap();
    assert_eq!(md.len(), 3);
    assert_eq!(md.to_bytes().len(), shuffled.len());
    assert_eq!(md.to_bytes(), sorted);
    assert_eq!(Metadata::from_bytes(&md.to_bytes()).unwrap(), md);
}

#[test]
fn filters_are_copied_and_compared() {
    let filter = Filter::And(vec![
        eq("category", MetaValue::from("science")),
        Filter::And(vec![eq("score", float(0.0))]),
    ]);
    assert_eq!(MetaValue::from("science"), text("science"));
    let copy = filter.clone();
    assert_eq!(copy, filter);
    let other = Filter::And(vec![
        eq("category", text("science")),
        Filter::And(vec![eq("score", float(-0.0))]),
    ]);
    // The two zeros are equal, as they are in a test of a value.
    assert_eq!(other, filter);
    assert_ne!(eq("a", whole(1)), eq("a", float(1.0)));
    assert_ne!(eq("a", whole(1)), eq("b", whole(1)));
    assert_ne!(Filter::And(vec![]), filter);
    assert_ne!(eq("nan", float(f64::NAN)), eq("nan", float(f64::NAN)));
    let mut md = Metadata::new();
    put(&mut md, "category", text("science"));
    put(&mut md, "score", float(0.0));
    assert!(filter.matches(&md) && copy.matches(&md));
}
