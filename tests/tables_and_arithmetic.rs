use gadget_tfhe::accumulator::Memory;
use gadget_tfhe::ciphertext::Ciphertext;
use gadget_tfhe::encoding::{ArithmeticEncoding, BooleanEncoding};
use gadget_tfhe::engine::BooleanEngine;
use gadget_tfhe::error::GadgetError;
use gadget_tfhe::keys::{BooleanParameters, EncryptionKeyChoice, PbsOrder};
use gadget_tfhe::clear_kernel::ClearKernel;
use gadget_tfhe::lwe::LweSecretKey;
use gadget_tfhe::server_key::ServerKey;
use gadget_tfhe::torus::{decode_plaintext, encode_plaintext};


#[test]
fn torus_encoding_values() {
    assert_eq!(encode_plaintext(1, 3), 1431655765);
    assert_eq!(encode_plaintext(2, 3), 2863311530);
    assert_eq!(encode_plaintext(1, 2), 1 << 31);
    assert_eq!(encode_plaintext(0, 17), 0);
    assert_eq!(decode_plaintext(1431655765, 3), 1);
    assert_eq!(decode_plaintext(u32::MAX, 3), 0);
    assert_eq!(decode_plaintext((1 << 31) + 1000, 2), 1);
    assert_eq!(decode_plaintext(1000, 2), 0);
}

#[test]
fn accumulator_entries_for_odd_modulus() {
    let inter = BooleanEncoding::new(vec![0], vec![1], 3).unwrap();
    let out = BooleanEncoding::new_canonical(1, 2).unwrap();
    assert_eq!(Memory::create_accumulator(&inter, &out), Ok(vec![0, 0, 1]));
    let inter = BooleanEncoding::new(vec![0, 3], vec![1, 4], 5).unwrap();
    let out = BooleanEncoding::new_canonical(3, 7).unwrap();
    // positions 0..5 carry residues 0, 3 (negated), 1, 4 (negated), 2
    assert_eq!(Memory::create_accumulator(&inter, &out), Ok(vec![0, 7 - 0, 3, 4, 0].iter().map(|v| v % 7).collect::<Vec<u32>>()));
}

#[test]
fn accumulator_errors() {
    let even = BooleanEncoding::new(vec![0], vec![1], 4).unwrap();
    let out = BooleanEncoding::new_canonical(1, 2).unwrap();
    assert_eq!(Memory::create_accumulator(&even, &out), Err(GadgetError::EncodingDomainMismatch));
    let inter = BooleanEncoding::new(vec![0], vec![1], 3).unwrap();
    let not_canonical = BooleanEncoding::new(vec![0, 2], vec![1], 5).unwrap();
    assert_eq!(Memory::create_accumulator(&inter, &not_canonical), Err(GadgetError::EncodingNotCanonical));
}

#[test]
fn lookup_table_windows_for_odd_modulus() {
    let inter = BooleanEncoding::new(vec![0], vec![1], 3).unwrap();
    let out = BooleanEncoding::new_canonical(1, 2).unwrap();
    let mut memory = Memory::new();
    memory.fill_lookup_table(&inter, &out, 12).unwrap();
    let h = 1u32 << 31;
    assert_eq!(memory.buffer, vec![0, 0, 0, 0, 0, 0, h, h, h, h, 0, 0]);
}

#[test]
fn lookup_table_halves_for_modulus_two() {
    let inter = BooleanEncoding::new(vec![1], vec![0], 2).unwrap();
    // residue 0 is labelled true, so the first half carries d_true = 1 and the second d_false = 3
    let out = BooleanEncoding::new(vec![3], vec![1], 4).unwrap();
    let mut memory = Memory::new();
    memory.fill_lookup_table(&inter, &out, 8).unwrap();
    let one = 1u32 << 30;
    let three = 3u32 << 30;
    assert_eq!(memory.buffer, vec![one, one, one, one, three, three, three, three]);
    let unbalanced = BooleanEncoding::new_canonical(1, 4).unwrap();
    assert_eq!(memory.fill_lookup_table(&inter, &unbalanced, 8), Err(GadgetError::EncodingInvalid));
    let even = BooleanEncoding::new(vec![0], vec![1], 6).unwrap();
    assert_eq!(memory.fill_lookup_table(&even, &out, 8), Err(GadgetError::EncodingDomainMismatch));
}

#[test]
fn arithmetic_encrypt_then_decrypt() {
    let params = BooleanParameters::new(32, 1, 256, 1 << 12, 1 << 12, 7, 3, 2, 5, EncryptionKeyChoice::Small);
    let mut engine = BooleanEngine::new().unwrap();
    let cks = engine.create_client_key(params);
    let e = ArithmeticEncoding::new_canonical(3, vec![2, 1, 5], 8).unwrap();
    for v in 0..3 {
        let c = cks.encrypt_arithmetic(v, &e).unwrap();
        assert_eq!(cks.decrypt(&c), Ok(v));
    }
    let not_canonical = ArithmeticEncoding::new(2, vec![vec![0, 2], vec![1]], 5).unwrap();
    assert_eq!(cks.encrypt_arithmetic(0, &not_canonical).unwrap_err(), GadgetError::EncodingNotCanonical);
}

#[test]
fn arithmetic_inputs_are_refused_by_boolean_operations() {
    let params = BooleanParameters::new(32, 1, 256, 1 << 12, 1 << 12, 7, 3, 2, 5, EncryptionKeyChoice::Small);
    let mut engine = BooleanEngine::new().unwrap();
    let cks = engine.create_client_key(params);
    let sks = ServerKey::new(ClearKernel { key: LweSecretKey { bits: cks.lwe_secret_key.bits.clone() } }, PbsOrder::BootstrapKeyswitch, 256, 32);
    let e = ArithmeticEncoding::new_canonical(3, vec![2, 1, 5], 8).unwrap();
    let c = cks.encrypt_arithmetic(1, &e).unwrap();
    assert_eq!(sks.simple_sum(&vec![c.clone()]).unwrap_err(), GadgetError::EncodingDomainMismatch);
    assert_eq!(sks.cast_encoding(&c, 2).unwrap_err(), GadgetError::EncodingDomainMismatch);
    assert_eq!(sks.simple_plaintext_sum(&c, 1, 2).unwrap_err(), GadgetError::EncodingDomainMismatch);
    let parity = BooleanEncoding::parity_encoding();
    let inputs = vec![c, Ciphertext::Trivial(true)];
    let out = sks.exec_gadget_with_extraction(&vec![parity.clone(), parity.clone()], &BooleanEncoding::new_canonical(1, 3).unwrap(), &parity, &inputs);
    assert_eq!(out.unwrap_err(), GadgetError::EncodingDomainMismatch);
    let non_canonical = BooleanEncoding::new(vec![0, 2], vec![1], 5).unwrap();
    assert_eq!(cks.encrypt_boolean(true, &non_canonical).unwrap_err(), GadgetError::EncodingNotCanonical);
}
