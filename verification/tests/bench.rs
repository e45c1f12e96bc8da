use quiver_core::bench::{
    count_matches, filtered_ground_truth, flag_values, matching_positions, parse_engine,
    position_metadata, read_dimension, read_vecs, Engine,
};
use quiver_core::error::QuiverError;
use quiver_core::index::SearchResult;
use quiver_core::metadata::MetaValue;
use quiver_core::status::{current_rss_bytes, memory_counters, peak_rss_bytes};

fn vecs(rows: &[&[f32]]) -> Vec<u8> {
    let mut bytes = Vec::new();
    for row in rows {
        bytes.extend_from_slice(&(row.len() as i32).to_le_bytes());
        for value in *row {
            bytes.extend_from_slice(&value.to_le_bytes());
        }
    }
    bytes
}

fn l2(a: &[u32], b: &[u32]) -> u32 {
    let d: f32 = a
        .iter()
        .zip(b)
        .map(|(x, y)| f32::from_bits(*x) - f32::from_bits(*y))
        .map(|d| d * d)
        .sum();
    d.to_bits()
}

fn fault(result: Result<Vec<Vec<u32>>, QuiverError>) -> String {
    match result {
        Err(QuiverError::InvalidFormat(text)) => text,
        other => panic!("unexpected {other:?}"),
    }
}

#[test]
fn rows_of_a_data_set_are_read_up_to_the_limit() {
    let bytes = vecs(&[&[1.0, 2.0], &[3.0], &[4.0, 5.0]]);
    let rows = read_vecs(&bytes, 10).unwrap();
    assert_eq!(rows.len(), 3);
    assert_eq!(rows[1], vec![3.0f32.to_bits()]);
    assert_eq!(read_vecs(&bytes, 2).unwrap().len(), 2);
    // A few bytes at the end are no row.
    let mut trailing = bytes.clone();
    trailing.extend_from_slice(&[1, 0]);
    assert_eq!(read_vecs(&trailing, 10).unwrap().len(), 3);
    assert_eq!(read_dimension(&bytes, 0).unwrap(), Some(2));
    assert_eq!(read_dimension(&bytes, bytes.len()).unwrap(), None);
}

#[test]
fn bad_dimensions_and_short_rows_are_refused() {
    assert_eq!(fault(read_vecs(&0i32.to_le_bytes(), 1)), "invalid vector dimension 0");
    assert_eq!(fault(read_vecs(&(-7i32).to_le_bytes(), 1)), "invalid vector dimension -7");
    assert_eq!(
        fault(read_vecs(&65_537i32.to_le_bytes(), 1)),
        "invalid vector dimension 65537"
    );
    let bytes = vecs(&[&[1.0, 2.0]]);
    assert_eq!(
        fault(read_vecs(&bytes[..bytes.len() - 1], 1)),
        "failed to fill whole buffer"
    );
}

#[test]
fn positions_are_tagged_by_their_remainders() {
    let md = position_metadata(1234);
    assert_eq!(md.len(), 3);
    assert_eq!(md.get("cat100"), Some(&MetaValue::Int(34)));
    assert_eq!(md.get("cat10"), Some(&MetaValue::Int(4)));
    assert_eq!(md.get("parity"), Some(&MetaValue::Int(0)));
}

#[test]
fn matches_are_counted_among_the_first_k_expected() {
    let hit = |vector_id: u64| SearchResult {
        slot: 0,
        vector_id,
        distance: 0,
    };
    let found = [hit(1), hit(3), hit(9)];
    assert_eq!(count_matches(&found, &[0, 2, 8], 3), 3);
    assert_eq!(count_matches(&found, &[0, 2, 8], 2), 2);
    assert_eq!(count_matches(&found, &[5], 10), 0);
}

#[test]
fn ground_truth_is_exact_within_each_list() {
    let base: Vec<u32> = [0.0f32, 10.0, 20.0, 30.0].iter().map(|v| v.to_bits()).collect();
    let queries = vec![vec![19.0f32.to_bits()], vec![0.0f32.to_bits()]];
    let lists = vec![vec![0u32, 1, 2, 3], vec![3, 1]];
    let truth = filtered_ground_truth(&l2, &base, 1, &queries, &lists, 2);
    assert_eq!(truth[0], vec![vec![2, 1], vec![0, 1]]);
    assert_eq!(truth[1], vec![vec![1, 3], vec![1, 3]]);
}

#[test]
fn memory_counters_are_read_from_the_status_text() {
    let status = b"Name:\tquiver\nVmHWM:\t  2048 kB\nVmRSS:\t    1024 kB\nThreads:\t1\n";
    assert_eq!(memory_counters(status), (1024 * 1024, 2048 * 1024));
    assert_eq!(current_rss_bytes(status), 1024 * 1024);
    assert_eq!(peak_rss_bytes(status), 2048 * 1024);
    assert_eq!(memory_counters(b""), (0, 0));
    assert_eq!(memory_counters(b"VmRSS:\nVmHWM: x kB"), (0, 0));
    assert_eq!(memory_counters(b" VmRSS: 5 kB\nVmHWM: +7"), (0, 7 * 1024));
    assert_eq!(
        memory_counters(b"VmRSS: 99999999999999999999 kB\nVmHWM: 18446744073709551615"),
        (0, u64::MAX - 1023)
    );
}

#[test]
fn the_status_file_is_read_as_unicode_text() {
    // Bytes that are no UTF-8 spoil the whole file.
    assert_eq!(memory_counters(b"Name:\t\xff\nVmRSS: 5 kB\nVmHWM: 7 kB"), (0, 0));
    assert_eq!(
        memory_counters("Name:\tk\u{f6}nig\nVmRSS:\u{3000}5\u{a0}kB\nVmHWM:\u{2003}7\r\n".as_bytes()),
        (5 * 1024, 7 * 1024)
    );
}

#[test]
fn flags_come_in_their_order_with_their_values() {
    let strings = |list: &[&str]| -> Vec<String> { list.iter().map(|s| s.to_string()).collect() };
    let flags = strings(&["--base", "--m"]);
    assert_eq!(
        flag_values(&strings(&["--base", "x", "--m", "16"]), &flags).unwrap(),
        strings(&["x", "16"])
    );
    assert_eq!(flag_values(&strings(&[]), &flags).unwrap_err(), "missing --base");
    assert_eq!(
        flag_values(&strings(&["--m", "16"]), &flags).unwrap_err(),
        "expected --base, got --m"
    );
    assert_eq!(
        flag_values(&strings(&["--base", "x", "--m"]), &flags).unwrap_err(),
        "missing value for --m"
    );
}

#[test]
fn positions_and_engines_are_picked() {
    assert_eq!(matching_positions(25, 10, 3), vec![3, 13, 23]);
    assert_eq!(parse_engine(&"sq8".to_owned()), Ok(Engine::Sq8));
    assert_eq!(parse_engine(&"brute-force".to_owned()), Ok(Engine::BruteForce));
    assert_eq!(
        parse_engine(&"x".to_owned()),
        Err("unsupported engine x".to_owned())
    );
}
