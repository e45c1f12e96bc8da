use quiver_core::distance::Metric;
use quiver_core::error::QuiverError;
use quiver_core::index::sq8::Sq8Index;
use quiver_core::index::SearchResult;
use quiver_core::quantization::ScalarQuantizer;
use rand::{Rng, SeedableRng};
use std::collections::HashSet;

fn bits(values: &[f32]) -> Vec<u32> {
    values.iter().map(|v| v.to_bits()).collect()
}

fn rows(vectors: &[Vec<f32>]) -> Vec<Vec<u32>> {
    vectors.iter().map(|v| bits(v)).collect()
}

fn scale(low: u32, high: u32) -> f64 {
    (f32::from_bits(high) as f64 - f32::from_bits(low) as f64) / u8::MAX as f64
}

fn encode(low: u32, high: u32, value: u32) -> u8 {
    ((f32::from_bits(value) as f64 - f32::from_bits(low) as f64) / scale(low, high))
        .round()
        .clamp(0.0, u8::MAX as f64) as u8
}

fn decode(low: u32, high: u32, code: u8) -> u32 {
    ((f32::from_bits(low) as f64 + code as f64 * scale(low, high))
        .clamp(f32::MIN as f64, f32::MAX as f64) as f32)
        .to_bits()
}

fn quantize(quantizer: &ScalarQuantizer, values: &[f32]) -> Result<Vec<u8>, QuiverError> {
    quantizer.quantize(&encode, &bits(values))
}

fn dequantize(quantizer: &ScalarQuantizer, codes: &[u8]) -> Vec<f32> {
    quantizer
        .dequantize(&decode, codes)
        .unwrap()
        .into_iter()
        .map(f32::from_bits)
        .collect()
}

fn train(vectors: &[Vec<f32>]) -> Result<ScalarQuantizer, QuiverError> {
    ScalarQuantizer::train(&rows(vectors))
}

fn build(vectors: &[Vec<f32>], metric: Metric) -> Result<Sq8Index, QuiverError> {
    Sq8Index::build(&rows(vectors), metric, &encode)
}

fn search(index: &Sq8Index, query: &[f32], k: usize) -> Result<Vec<SearchResult>, QuiverError> {
    let measure = |query: &[u32], codes: &[u8]| -> u32 {
        let mut l2 = 0.0f32;
        let mut dot = 0.0f32;
        let mut query_norm = 0.0f32;
        let mut vector_norm = 0.0f32;
        for (dim, q) in query.iter().enumerate() {
            let (low, high) = index.quantizer().range(dim);
            let q = f32::from_bits(*q);
            let value = f32::from_bits(decode(low, high, codes[dim]));
            l2 += (q - value) * (q - value);
            dot += q * value;
            query_norm += q * q;
            vector_norm += value * value;
        }
        let distance = match index.metric() {
            Metric::L2 => l2,
            Metric::DotProduct => -dot,
            Metric::Cosine => {
                let magnitude = (query_norm * vector_norm).sqrt();
                if magnitude == 0.0 {
                    0.0
                } else {
                    -(dot / magnitude)
                }
            }
        };
        distance.to_bits()
    };
    index.search(&measure, &bits(query), k)
}

#[test]
fn endpoints_map_to_full_byte_range() {
    let quantizer = train(&[vec![-2.0, 10.0], vec![3.0, 20.0]]).unwrap();
    assert_eq!(quantize(&quantizer, &[-2.0, 10.0]).unwrap(), vec![0, 0]);
    assert_eq!(quantize(&quantizer, &[3.0, 20.0]).unwrap(), vec![255, 255]);
}

#[test]
fn round_trip_error_is_bounded_by_half_a_bin() {
    let quantizer = train(&[vec![-10.0], vec![10.0]]).unwrap();
    let reconstructed = dequantize(&quantizer, &quantize(&quantizer, &[1.234]).unwrap());
    let half_bin = 20.0 / 255.0 / 2.0;
    assert!((reconstructed[0] - 1.234).abs() <= half_bin + f32::EPSILON);
}

#[test]
fn constant_dimensions_round_trip_exactly() {
    let quantizer = train(&[vec![4.5, 1.0], vec![4.5, 8.0]]).unwrap();
    let codes = quantize(&quantizer, &[4.5, 5.0]).unwrap();
    assert_eq!(codes[0], 0);
    assert_eq!(dequantize(&quantizer, &codes)[0], 4.5);
}

#[test]
fn extreme_finite_range_does_not_overflow_calibration() {
    let quantizer = train(&[vec![f32::MIN], vec![f32::MAX]]).unwrap();
    assert_eq!(quantize(&quantizer, &[f32::MIN]).unwrap(), vec![0]);
    assert_eq!(quantize(&quantizer, &[f32::MAX]).unwrap(), vec![255]);

    let minimum = dequantize(&quantizer, &[0])[0];
    let maximum = dequantize(&quantizer, &[255])[0];
    assert_eq!(minimum, f32::MIN);
    assert_eq!(maximum, f32::MAX);
}

#[test]
fn subnormal_range_preserves_distinct_endpoints() {
    let quantizer = train(&[vec![0.0], vec![f32::MIN_POSITIVE]]).unwrap();
    assert_eq!(quantize(&quantizer, &[0.0]).unwrap(), vec![0]);
    assert_eq!(quantize(&quantizer, &[f32::MIN_POSITIVE]).unwrap(), vec![255]);
}

#[test]
fn rejects_bad_inputs() {
    let quantizer = train(&[vec![0.0, 1.0]]).unwrap();
    assert!(quantize(&quantizer, &[0.0]).is_err());
    assert!(quantize(&quantizer, &[0.0, f32::NAN]).is_err());
    assert!(quantizer.dequantize(&decode, &[1]).is_err());
}

#[test]
fn l2_search_returns_nearest_vector() {
    let vectors = vec![vec![0.0, 0.0], vec![5.0, 5.0], vec![10.0, 10.0]];
    let index = build(&vectors, Metric::L2).unwrap();
    let results = search(&index, &[4.9, 5.1], 2).unwrap();
    assert_eq!(results[0].slot, 1);
    assert!(f32::from_bits(results[0].distance) <= f32::from_bits(results[1].distance));
    assert_eq!(results[0].vector_id, 2);
}

#[test]
fn supports_dot_product_and_cosine() {
    let vectors = vec![vec![1.0, 0.0], vec![0.0, 1.0], vec![-1.0, 0.0]];
    for metric in [Metric::DotProduct, Metric::Cosine] {
        let index = build(&vectors, metric).unwrap();
        assert_eq!(search(&index, &[1.0, 0.05], 1).unwrap()[0].slot, 0);
    }
}

#[test]
fn payload_uses_one_byte_per_dimension() {
    let vectors = vec![vec![0.0; 128]; 100];
    let index = build(&vectors, Metric::L2).unwrap();
    assert_eq!(index.vector_bytes(), 100 * 128);
    assert_eq!(index.vector_bytes() * 4, 100 * 128 * std::mem::size_of::<f32>());
    assert_eq!((index.len(), index.dimension()), (100, 128));
    assert!(!index.is_empty());
}

#[test]
fn zero_k_returns_no_results() {
    let index = build(&[vec![1.0, 2.0]], Metric::L2).unwrap();
    assert!(search(&index, &[1.0, 2.0], 0).unwrap().is_empty());
}

#[test]
fn rejects_empty_and_non_finite_inputs() {
    assert!(build(&[], Metric::L2).is_err());
    assert!(build(&[vec![f32::INFINITY]], Metric::L2).is_err());

    let index = build(&[vec![1.0]], Metric::L2).unwrap();
    assert!(search(&index, &[f32::NAN], 1).is_err());
}

#[test]
fn recall_at_10_stays_high_on_random_data() {
    let mut rng = rand::rngs::StdRng::seed_from_u64(42);
    let vectors: Vec<Vec<f32>> = (0..1000)
        .map(|_| (0..32).map(|_| rng.random_range(-1.0..1.0)).collect())
        .collect();
    let index = build(&vectors, Metric::L2).unwrap();
    let mut recall = 0.0;
    for _ in 0..25 {
        let query: Vec<f32> = (0..32).map(|_| rng.random_range(-1.0..1.0)).collect();
        let mut exact: Vec<(usize, f32)> = vectors
            .iter()
            .enumerate()
            .map(|(slot, vector)| {
                let d: f32 = query.iter().zip(vector).map(|(x, y)| (x - y) * (x - y)).sum();
                (slot, d)
            })
            .collect();
        exact.sort_by(|a, b| a.1.total_cmp(&b.1));
        let expected: HashSet<usize> = exact.iter().take(10).map(|item| item.0).collect();
        let actual: HashSet<usize> = search(&index, &query, 10)
            .unwrap()
            .into_iter()
            .map(|result| result.slot)
            .collect();
        recall += expected.intersection(&actual).count() as f32 / 10.0;
    }
    assert!(recall / 25.0 >= 0.95, "SQ8 recall was {}", recall / 25.0);
}

#[test]
fn every_fault_of_training_is_told_apart() {
    assert!(matches!(train(&[]), Err(QuiverError::EmptyIndex)));
    assert!(matches!(
        train(&[vec![]]),
        Err(QuiverError::DimensionMismatch { expected: 1, actual: 0 })
    ));
    assert!(matches!(
        train(&[vec![1.0, 2.0], vec![1.0], vec![f32::NAN, 1.0]]),
        Err(QuiverError::DimensionMismatch { expected: 2, actual: 1 })
    ));
    match train(&[vec![1.0, f32::NAN], vec![1.0]]) {
        Err(QuiverError::InvalidFormat(text)) => {
            assert_eq!(text, "SQ8 training vectors must contain only finite values")
        }
        other => panic!("unexpected {other:?}"),
    }
}

#[test]
fn ranges_are_the_extreme_values() {
    let q = train(&[vec![3.0, -1.0], vec![-4.5, -1.0], vec![2.0, -7.0]]).unwrap();
    assert_eq!(q.range(0), ((-4.5f32).to_bits(), 3.0f32.to_bits()));
    assert_eq!(q.range(1), ((-7.0f32).to_bits(), (-1.0f32).to_bits()));
    assert_eq!(q.dimension(), 2);
}

#[test]
fn values_outside_the_range_have_the_codes_of_its_ends() {
    let q = train(&[vec![-2.0, 7.0], vec![3.0, 7.0]]).unwrap();
    assert_eq!(quantize(&q, &[-1e30, 1e30]).unwrap(), vec![0, 0]);
    assert_eq!(quantize(&q, &[1e30, -1e30]).unwrap(), vec![255, 0]);
    let mut last = 0;
    for step in 0..=100 {
        let code = quantize(&q, &[-3.0 + step as f32 * 0.07, 0.0]).unwrap()[0];
        assert!(last <= code);
        last = code;
    }
    assert_eq!(last, 255);
}

#[test]
fn the_least_value_comes_back_as_it_was() {
    let q = train(&[vec![-2.5, 7.25, -0.0], vec![3.0, 7.25, -0.0]]).unwrap();
    let codes = quantize(&q, &[-2.5, 7.25, -0.0]).unwrap();
    assert_eq!(codes, vec![0, 0, 0]);
    let values = q.dequantize(&decode, &codes).unwrap();
    assert_eq!(values, bits(&[-2.5, 7.25, 0.0]));
    // In a dimension that had but one value every code stands for it.
    assert_eq!(q.dequantize(&decode, &[0, 200, 9]).unwrap()[1..], bits(&[7.25, 0.0]));
    // Without the short cut, the arithmetic gives the same.
    let (low, high) = q.range(0);
    assert_eq!(decode(low, high, 0), values[0]);
    let (low, high) = q.range(2);
    assert_eq!(decode(low, high, 9), values[2]);
}

#[test]
fn a_copied_quantizer_has_the_same_ranges() {
    let q = train(&[vec![-2.0, 7.0], vec![3.0, 9.0]]).unwrap();
    let copy = q.clone();
    assert_eq!(copy.dimension(), 2);
    assert_eq!((copy.range(0), copy.range(1)), (q.range(0), q.range(1)));
}
