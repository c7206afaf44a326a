use gadget_tfhe::encoding::{ArithmeticEncoding, BooleanEncoding, Encoding};
use gadget_tfhe::error::GadgetError;

#[test]
fn test_boolean_encoding() {
    let e = BooleanEncoding::new_canonical(2, 7).unwrap();
    assert!(e.is_valid());
    let e = BooleanEncoding::new_canonical(1, 2).unwrap();
    assert!(e.is_valid());
}

#[test]
fn bad_boolean_encoding_even_p() {
    let e = BooleanEncoding::new([0, 2].into(), [1].into(), 4);
    assert_eq!(e.unwrap_err(), GadgetError::EncodingInvalid);
}

#[test]
fn bad_boolean_encoding_duplicate_i() {
    let e = BooleanEncoding::new([0, 2].into(), [0].into(), 5);
    assert_eq!(e.unwrap_err(), GadgetError::EncodingInvalid);
}

#[test]
fn bad_arithmetic_encoding_duplicate_i() {
    let e = ArithmeticEncoding::new(3, [[0, 2].into(), [0].into(), [1].into()].into(), 5);
    assert_eq!(e.unwrap_err(), GadgetError::EncodingInvalid);
}

#[test]
fn bad_arithmetic_encoding_negacyclicity() {
    let e = ArithmeticEncoding::new_canonical(3, vec![1, 5, 2], 8);
    assert_eq!(e.unwrap_err(), GadgetError::EncodingInvalid);
}

#[test]
fn good_arithmetic_encoding_negacyclicity() {
    let e = ArithmeticEncoding::new_canonical(3, vec![2, 1, 5], 8);
    assert!(e.is_ok());
}

#[test]
fn even_modulus_rejection() {
    assert!(BooleanEncoding::new(vec![0, 2], vec![1], 4).is_err());
    assert!(BooleanEncoding::new(vec![0, 2], vec![1], 5).is_ok());
}

#[test]
fn parity_encoding_is_canonical_and_valid() {
    let e = BooleanEncoding::parity_encoding();
    assert!(e.is_canonical());
    assert!(e.is_valid());
    assert_eq!(e.get_modulus(), 2);
    assert_eq!(e.get_values_if_canonical(), Ok((0, 1)));
    assert_eq!(e.get_mono_encoding(true), Ok(1));
}

#[test]
fn non_canonical_values_are_refused() {
    let e = BooleanEncoding::new(vec![0, 1], vec![3], 7).unwrap();
    assert!(!e.is_canonical());
    assert_eq!(e.get_values_if_canonical(), Err(GadgetError::EncodingNotCanonical));
    assert_eq!(e.get_mono_encoding(false), Err(GadgetError::EncodingNotCanonical));
}

#[test]
fn duplicated_residues_count_once() {
    let e = BooleanEncoding::new(vec![0, 0], vec![3, 3], 7).unwrap();
    assert!(e.is_canonical());
    assert_eq!(e.get_values_if_canonical(), Ok((0, 3)));
}

#[test]
fn residue_outside_ring_is_refused() {
    assert_eq!(BooleanEncoding::new(vec![0], vec![7], 7).unwrap_err(), GadgetError::EncodingInvalid);
    assert_eq!(BooleanEncoding::new(vec![0], vec![1], 0).unwrap_err(), GadgetError::EncodingInvalid);
}

#[test]
fn negacyclic_complementary_partition_is_allowed() {
    // 1 + 3 = 4 lies in the other partition: accepted for a Boolean encoding over Z/6.
    assert!(BooleanEncoding::new(vec![1], vec![4], 6).is_ok());
    // 1 + 3 = 4 in the same partition: refused.
    assert!(BooleanEncoding::new(vec![1, 4], vec![2], 6).is_err());
}

#[test]
fn add_constant_shifts_every_partition() {
    let e = BooleanEncoding::new(vec![0, 5], vec![3], 7).unwrap();
    let s = e.add_constant(4);
    assert_eq!(s.get_modulus(), 7);
    assert!(s.is_partition_containing(false, 4));
    assert!(s.is_partition_containing(false, 2));
    assert!(s.is_partition_containing(true, 0));
    assert!(!s.is_partition_containing(true, 3));
    assert!(s.is_valid());
}

#[test]
fn multiply_constant_scales_every_partition() {
    let e = BooleanEncoding::new_canonical(1, 2).unwrap();
    let m = e.multiply_constant(3).unwrap();
    assert_eq!(m.get_values_if_canonical(), Ok((0, 1)));
    let e = BooleanEncoding::new_canonical(1, 7).unwrap();
    let m = e.multiply_constant(3).unwrap();
    assert_eq!(m.get_values_if_canonical(), Ok((0, 3)));
    assert_eq!(e.multiply_constant(7).unwrap_err(), GadgetError::EncodingInvalid);
}

#[test]
fn negative_on_rings() {
    let e = BooleanEncoding::new_canonical(1, 7).unwrap();
    assert_eq!(e.negative_on_p_ring(2), 5);
    assert_eq!(e.negative_on_p_ring(0), 0);
    assert_eq!(e.negative_on_p_ring(9), 5);
    let a = ArithmeticEncoding::new_canonical(3, vec![2, 1, 5], 8).unwrap();
    assert_eq!(a.negative_on_o_ring(1), 2);
    assert_eq!(a.negative_on_o_ring(0), 0);
    assert_eq!(a.negative_on_p_ring(3), 5);
}

#[test]
fn arithmetic_encoding_accessors() {
    let a = ArithmeticEncoding::new_canonical(3, vec![2, 1, 5], 8).unwrap();
    assert_eq!(a.get_origin_modulus(), 3);
    assert_eq!(a.get_modulus(), 8);
    assert!(a.is_canonical());
    assert_eq!(a.get_part(2), &vec![5]);
    assert_eq!(a.get_part_single_value_if_canonical(1), Ok(1));
    assert!(a.is_partition_containing(0, 2));
    assert!(!a.is_partition_containing(3, 2));
    let shifted = a.add_constant(1);
    assert_eq!(shifted.get_part_single_value_if_canonical(2), Ok(6));
    assert!(shifted.is_valid());
}

#[test]
fn arithmetic_parts_must_match_origin() {
    assert!(ArithmeticEncoding::new(2, vec![vec![0], vec![1], vec![2]], 5).is_err());
    let a = ArithmeticEncoding::new(3, vec![vec![0, 3], vec![1], vec![2]], 5).unwrap();
    assert!(!a.is_canonical());
    assert_eq!(a.get_part_single_value_if_canonical(0), Err(GadgetError::EncodingNotCanonical));
}
