use lau_observation_control::computability::{
    decode_code, decode_object, encode_code, encode_object, max_code, quantisation_levels, FinSet,
};
use lau_observation_control::plato::PlatoConfig;

#[test]
fn test_finset_cardinality() {
    let fs = FinSet::new(vec![false; 8], 1);
    assert_eq!(fs.cardinality(), 256);
}

#[test]
fn test_finset_to_int() {
    let fs = FinSet::new(vec![true, false, true], 1);
    assert_eq!(fs.to_int(), 5); // bit 0 = 1, bit 2 = 4
}

#[test]
fn test_finset_len_bits_and_empty() {
    let fs = FinSet::new(vec![], 0);
    assert_eq!(fs.len_bits(), 0);
    assert_eq!(fs.to_int(), 0);
    assert_eq!(fs.cardinality(), 1);
}

#[test]
fn test_finset_to_int_below_cardinality() {
    let fs = FinSet::new(vec![true; 10], 2);
    assert_eq!(fs.len_bits(), 10);
    assert_eq!(fs.to_int(), 1023);
    assert!(fs.to_int() < fs.cardinality());
}

#[test]
fn test_to_int_high_false_bits_allowed() {
    let mut bits = vec![false; 70];
    bits[63] = true;
    let fs = FinSet::new(bits, 1);
    assert_eq!(fs.to_int(), 1u64 << 63);
}

#[test]
fn test_encode_exact_bits() {
    assert_eq!(encode_code(5, 8), vec![true, false, true, false, false, false, false, false]);
}

#[test]
fn test_encode_clamps_negative_to_zero() {
    assert_eq!(encode_code(-100, 8), vec![false; 8]);
    assert_eq!(decode_code(&encode_code(-100, 8)), 0);
}

#[test]
fn test_encode_clamps_above_range() {
    assert_eq!(encode_code(300, 8), vec![true; 8]);
    assert_eq!(decode_code(&encode_code(300, 8)), 255);
}

#[test]
fn test_encode_decode_roundtrip_codes() {
    for x in [0i64, 1, 150, 254, 255] {
        assert_eq!(decode_code(&encode_code(x, 8)), x as u64);
    }
    assert_eq!(decode_code(&encode_code(15000, 16)), 15000);
}

#[test]
fn test_encode_zero_width() {
    assert!(encode_code(42, 0).is_empty());
}

#[test]
fn test_max_code() {
    assert_eq!(max_code(8), 255);
    assert_eq!(max_code(0), 0);
    assert_eq!(max_code(63), (1u64 << 63) - 1);
}

#[test]
fn test_quantisation_levels() {
    assert_eq!(quantisation_levels(8), 256);
    assert_eq!(quantisation_levels(0), 1);
}

#[test]
fn test_encode_object_layout_and_roundtrip() {
    let f = encode_object(&[10, 20, 30], 8);
    assert_eq!(f.source_dim, 3);
    assert_eq!(f.len_bits(), 24);
    assert_eq!(decode_object(&f, 8), vec![Some(10), Some(20), Some(30)]);
}

#[test]
fn test_decode_object_short_bits() {
    let f = FinSet::new(vec![true, true, false, true], 3);
    assert_eq!(decode_object(&f, 2), vec![Some(3), Some(2), None]);
}

#[test]
fn test_plato_config_square() {
    let c = PlatoConfig::square(2, 1);
    assert_eq!(c.state_dim, 2);
    assert_eq!(c.control_dim, 1);
    assert_eq!(c.observation_dim, 2);
    assert_eq!(c.bits_per_dim, 8);
}
