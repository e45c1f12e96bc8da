use quiver_core::bytes::{get_i64, get_u32, get_u64};
use quiver_core::distance::{at_most, double_equal, float_is_finite, float_is_nan, less, rank};
use quiver_core::error::QuiverError;

#[test]
fn errors_are_worded() {
    assert_eq!(
        QuiverError::Io("disk full".to_owned()).message(),
        "I/O error: disk full"
    );
    assert_eq!(
        QuiverError::InvalidFormat("bad".to_owned()).message(),
        "Invalid file format: bad"
    );
    assert_eq!(
        QuiverError::WalChecksumMismatch {
            offset: 12,
            expected: 0x1a,
            actual: 0xdead_beef
        }
        .message(),
        format!(
            "WAL checksum mismatch at offset {}: expected {:#010x}, got {:#010x}",
            12, 0x1a, 0xdead_beef_u32
        )
    );
    assert_eq!(
        QuiverError::DimensionMismatch {
            expected: 3,
            actual: 20
        }
        .message(),
        "Dimension mismatch: expected 3, got 20"
    );
    assert_eq!(
        QuiverError::NotFound(u64::MAX).message(),
        format!("Vector ID {} not found", u64::MAX)
    );
    assert_eq!(QuiverError::EmptyIndex.message(), "Index is empty");
    assert_eq!(
        QuiverError::UnsupportedMetric(9).message(),
        "Unsupported metric type: 9"
    );
}

#[test]
fn ranks_follow_the_order_of_the_numbers() {
    let ascending = [
        f32::NEG_INFINITY,
        f32::MIN,
        -1.0,
        -f32::MIN_POSITIVE,
        0.0,
        f32::MIN_POSITIVE,
        1.0,
        f32::MAX,
        f32::INFINITY,
        f32::NAN,
    ];
    for pair in ascending.windows(2) {
        assert!(rank(pair[0].to_bits()) < rank(pair[1].to_bits()));
    }
    assert_eq!(rank((-0.0f32).to_bits()), rank(0.0f32.to_bits()));
    assert!(float_is_nan(f32::NAN.to_bits()) && !float_is_nan(f32::INFINITY.to_bits()));
    assert!(float_is_finite(f32::MIN.to_bits()) && !float_is_finite(f32::INFINITY.to_bits()));
}

#[test]
fn doubles_compare_as_numbers() {
    let values = [0.0, -0.0, 1.0, -1.0, f64::NAN, f64::INFINITY, f64::MIN_POSITIVE];
    for a in values {
        for b in values {
            assert_eq!(double_equal(a.to_bits(), b.to_bits()), a == b);
        }
    }
}

#[test]
fn integers_are_read_least_significant_byte_first() {
    let bytes = [0xff, 1, 2, 3, 4, 5, 6, 7, 0x80];
    assert_eq!(get_u32(&bytes, 1), 0x0403_0201);
    assert_eq!(get_u64(&bytes, 1), 0x8007_0605_0403_0201);
    assert_eq!(get_i64(&bytes, 1), 0x8007_0605_0403_0201_u64 as i64);
}

#[test]
fn floats_compare_as_their_operators_do() {
    let values = [
        0.0,
        -0.0,
        1.5,
        -1.5,
        f32::MIN,
        f32::MAX,
        f32::INFINITY,
        f32::NEG_INFINITY,
        f32::NAN,
        -f32::NAN,
        f32::MIN_POSITIVE,
    ];
    for a in values {
        for b in values {
            assert_eq!(less(a.to_bits(), b.to_bits()), a < b);
            assert_eq!(at_most(a.to_bits(), b.to_bits()), a <= b);
        }
    }
}
