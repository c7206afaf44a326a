use gadget_tfhe::ciphertext::Ciphertext;
use gadget_tfhe::encoding::{BooleanEncoding, Encoding};
use gadget_tfhe::engine::BooleanEngine;
use gadget_tfhe::error::GadgetError;
use gadget_tfhe::gadget::Gadget;
use gadget_tfhe::keys::{BooleanParameters, ClientKey, EncryptionKeyChoice, PbsOrder};
use gadget_tfhe::clear_kernel::ClearKernel;
use gadget_tfhe::lwe::LweSecretKey;
use gadget_tfhe::server_key::ServerKey;

const POLY: usize = 1024;


fn parameters() -> BooleanParameters {
    BooleanParameters {
        lwe_dimension: 32,
        glwe_dimension: 1,
        polynomial_size: POLY,
        lwe_noise_bound: 1 << 12,
        glwe_noise_bound: 1 << 12,
        pbs_base_log: 7,
        pbs_level: 3,
        ks_base_log: 2,
        ks_level: 5,
        encryption_key_choice: EncryptionKeyChoice::Small,
    }
}

fn keys() -> (ClientKey, ServerKey<ClearKernel>) {
    let mut engine = BooleanEngine::new().unwrap();
    let cks = engine.create_client_key(parameters());
    let kernel = ClearKernel { key: LweSecretKey { bits: cks.lwe_secret_key.bits.clone() } };
    let sks = ServerKey::new(kernel, PbsOrder::BootstrapKeyswitch, POLY, 32);
    (cks, sks)
}

fn bits_of(x: u32, k: usize) -> Vec<bool> {
    (0..k).map(|i| (x >> i) & 1 == 1).collect()
}

fn check_gadget(g: &Gadget, k: usize, cks: &ClientKey, sks: &ServerKey<ClearKernel>) {
    for x in 0..(1u32 << k) {
        let clear = bits_of(x, k);
        let inputs: Vec<Ciphertext> = clear
            .iter()
            .enumerate()
            .map(|(i, b)| cks.encrypt_boolean(*b, g.get_encoding_in(i)).unwrap())
            .collect();
        let out = g.exec(&inputs, sks).unwrap();
        let expected = g.exec_clear(clear.clone());
        assert_eq!(cks.decrypt(&out), Ok(expected as u32), "assignment {}", x);
    }
}

#[test]
fn gadget_and_xor_p9_all_assignments() {
    let (cks, sks) = keys();
    let f = |x: Vec<bool>| (x[0] & x[1]) ^ x[2] ^ x[3] ^ x[4];
    let g = Gadget::new_canonical(vec![1, 1, 2, 2, 2], 1, 9, 9, 5, &f).unwrap();
    for x in 0..32u32 {
        let v = bits_of(x, 5);
        assert_eq!(g.exec_clear(v.clone()), f(v));
    }
    check_gadget(&g, 5, &cks, &sks);
}

const ASCON_ROW: [u8; 32] = [0, 0, 1, 1, 1, 1, 0, 0, 1, 0, 0, 1, 1, 0, 0, 1, 1, 1, 0, 0, 0, 0, 1, 1, 1, 0, 0, 1, 1, 0, 0, 1];

fn ascon_gadget() -> Gadget {
    let table: Vec<bool> = ASCON_ROW.iter().map(|t| *t == 1).collect();
    Gadget::from_truth_table(vec![1, 2, 3, 7, 14], 1, 17, 17, 5, table).unwrap()
}

#[test]
fn ascon_sbox_row_all_assignments() {
    let (cks, sks) = keys();
    let g = ascon_gadget();
    for x in 0..32u32 {
        assert_eq!(g.exec_clear(bits_of(x, 5)), ASCON_ROW[x as usize] == 1);
    }
    check_gadget(&g, 5, &cks, &sks);
}

#[test]
fn ascon_row_then_modulus_switch() {
    let (cks, sks) = keys();
    let g = ascon_gadget();
    let target = BooleanEncoding::new_canonical(1, 11).unwrap();
    for x in [0u32, 3, 9, 22, 31] {
        let clear = bits_of(x, 5);
        let inputs: Vec<Ciphertext> = clear
            .iter()
            .enumerate()
            .map(|(i, b)| cks.encrypt_boolean(*b, g.get_encoding_in(i)).unwrap())
            .collect();
        let c = g.exec(&inputs, &sks).unwrap();
        let switched = g.modulus_switching(vec![c], vec![17], 11, &sks).unwrap();
        match &switched[0] {
            Ciphertext::BooleanEncrypted(_, e) => {
                assert_eq!(e.get_modulus(), 11);
                assert_eq!(e.get_values_if_canonical(), target.get_values_if_canonical());
            }
            _ => panic!("expected an encrypted result"),
        }
        assert_eq!(cks.decrypt(&switched[0]), Ok(g.exec_clear(clear) as u32));
    }
}

#[test]
fn modulus_switch_with_equal_moduli_is_identity() {
    let (cks, sks) = keys();
    let g = ascon_gadget();
    let e = BooleanEncoding::new_canonical(1, 17).unwrap();
    for b in [false, true] {
        let c = cks.encrypt_boolean(b, &e).unwrap();
        let out = g.modulus_switching(vec![c.clone()], vec![17], 17, &sks).unwrap();
        match (&out[0], &c) {
            (Ciphertext::BooleanEncrypted(o, _), Ciphertext::BooleanEncrypted(i, _)) => {
                assert_eq!(o.mask, i.mask);
                assert_eq!(o.body, i.body);
            }
            _ => panic!("expected encrypted ciphertexts"),
        }
        assert_eq!(cks.decrypt(&out[0]), Ok(b as u32));
    }
}

#[test]
fn identity_gadget_moves_between_moduli() {
    let (cks, sks) = keys();
    let id = |x: Vec<bool>| x[0];
    let g = Gadget::new_canonical(vec![1], 1, 5, 7, 1, &id).unwrap();
    assert!(!g.exec_clear(vec![false]));
    assert!(g.exec_clear(vec![true]));
    for b in [false, true] {
        let c = cks.encrypt_boolean(b, g.get_encoding_in(0)).unwrap();
        let out = g.exec(&vec![c], &sks).unwrap();
        assert_eq!(cks.decrypt(&out), Ok(b as u32));
    }
}

#[test]
fn parity_xor_chain_all_assignments() {
    let (cks, sks) = keys();
    let parity = BooleanEncoding::parity_encoding();
    for x in 0..32u32 {
        let clear = bits_of(x, 5);
        let inputs: Vec<Ciphertext> = clear.iter().map(|b| cks.encrypt_boolean(*b, &parity).unwrap()).collect();
        let sum = sks.simple_sum(&inputs).unwrap();
        let expected = clear.iter().fold(false, |a, b| a ^ b);
        assert_eq!(cks.decrypt(&sum), Ok(expected as u32));
    }
}

#[test]
fn trivial_and_encrypted_conjunction() {
    let (cks, sks) = keys();
    let and = |x: Vec<bool>| x[0] & x[1];
    let g = Gadget::new_canonical(vec![1, 1], 1, 5, 5, 2, &and).unwrap();
    for a in [false, true] {
        for b in [false, true] {
            let inputs = vec![sks.trivial_encrypt(a), cks.encrypt_boolean(b, g.get_encoding_in(1)).unwrap()];
            let out = g.exec(&inputs, &sks).unwrap();
            assert_eq!(cks.decrypt(&out), Ok((a & b) as u32));
        }
    }
}

#[test]
fn encrypt_then_decrypt_round_trip() {
    let (cks, _) = keys();
    for (q, p) in [(1u32, 2u32), (2, 7), (3, 9), (7, 17), (1, 11)] {
        let e = BooleanEncoding::new_canonical(q, p).unwrap();
        for b in [false, true] {
            let c = cks.encrypt_boolean(b, &e).unwrap();
            assert_eq!(cks.decrypt(&c), Ok(b as u32));
        }
    }
}

#[test]
fn trivial_decrypts_to_its_bit() {
    let (cks, sks) = keys();
    assert_eq!(cks.decrypt(&sks.trivial_encrypt(true)), Ok(1));
    assert_eq!(cks.decrypt(&sks.trivial_encrypt(false)), Ok(0));
    let mut engine = BooleanEngine::new().unwrap();
    assert!(matches!(engine.trivial_encrypt(true), Ciphertext::Trivial(true)));
}

#[test]
fn cast_encoding_keeps_the_plaintext() {
    let (cks, sks) = keys();
    let parity = BooleanEncoding::parity_encoding();
    let target = BooleanEncoding::new_canonical(3, 7).unwrap();
    for b in [false, true] {
        let c = cks.encrypt_boolean(b, &BooleanEncoding::new_canonical(1, 7).unwrap()).unwrap();
        let cast = sks.cast_encoding(&c, 3).unwrap();
        match &cast {
            Ciphertext::BooleanEncrypted(_, e) => assert_eq!(e.get_values_if_canonical(), target.get_values_if_canonical()),
            _ => panic!("expected an encrypted result"),
        }
        assert_eq!(cks.decrypt(&cast), Ok(b as u32));
        let c2 = cks.encrypt_boolean(b, &parity).unwrap();
        assert_eq!(cks.decrypt(&sks.cast_encoding(&c2, 1).unwrap()), Ok(b as u32));
    }
    assert_eq!(sks.cast_encoding(&Ciphertext::Trivial(true), 3).unwrap_err(), GadgetError::TrivialCastForbidden);
}

#[test]
fn simple_sum_refuses_trivial_inputs() {
    let (cks, sks) = keys();
    let parity = BooleanEncoding::parity_encoding();
    let inputs = vec![cks.encrypt_boolean(true, &parity).unwrap(), Ciphertext::Trivial(true)];
    assert_eq!(sks.simple_sum(&inputs).unwrap_err(), GadgetError::TrivialCastForbidden);
}

#[test]
fn xnor_through_plaintext_sum() {
    let (cks, sks) = keys();
    let parity = BooleanEncoding::parity_encoding();
    for (a, b) in [(false, false), (false, true), (true, false), (true, true)] {
        let inputs = vec![cks.encrypt_boolean(a, &parity).unwrap(), cks.encrypt_boolean(b, &parity).unwrap()];
        let xor = sks.simple_sum(&inputs).unwrap();
        let xnor = sks.simple_plaintext_sum(&xor, 1, 2).unwrap();
        assert_eq!(cks.decrypt(&xnor), Ok((!(a ^ b)) as u32));
    }
}

#[test]
fn plaintext_sum_with_encoding_shift() {
    let (cks, sks) = keys();
    let e = BooleanEncoding::new_canonical(2, 7).unwrap();
    for b in [false, true] {
        let c = cks.encrypt_boolean(b, &e).unwrap();
        let shifted = sks.simple_plaintext_sum_encoding(&c, 3, 7).unwrap();
        match &shifted {
            Ciphertext::BooleanEncrypted(_, e2) => assert_eq!(e2.get_values_if_canonical(), Ok((3, 5))),
            _ => panic!("expected an encrypted result"),
        }
        assert_eq!(cks.decrypt(&shifted), Ok(b as u32));
    }
}

#[test]
fn cast_before_gadget_drops_zero_coefficients() {
    let (cks, sks) = keys();
    let g = ascon_gadget();
    let parity = BooleanEncoding::parity_encoding();
    let inputs: Vec<Ciphertext> = [true, false, true].iter().map(|b| cks.encrypt_boolean(*b, &parity).unwrap()).collect();
    let cast = g.cast_before_gadget(vec![3, 0, 1], &inputs, &sks).unwrap();
    assert_eq!(cast.len(), 2);
    let base = BooleanEncoding::new_canonical(1, 17).unwrap();
    let clear = [true, false, true, true, false];
    let lifted: Vec<Ciphertext> = clear.iter().map(|b| cks.encrypt_boolean(*b, &base).unwrap()).collect();
    let from_one = g.cast_before_gadget_from_1(lifted, &sks).unwrap();
    assert_eq!(from_one.len(), 5);
    let out = g.exec(&from_one, &sks).unwrap();
    assert_eq!(cks.decrypt(&out), Ok(g.exec_clear(clear.to_vec()) as u32));
}

#[test]
fn inconsistent_truth_table_is_refused() {
    // q = [1, 1]: assignments 01 and 10 reach the same residue; XOR of the first input alone
    // labels them differently.
    let first = |x: Vec<bool>| x[0];
    let r = Gadget::new_canonical(vec![1, 1], 1, 5, 5, 2, &first);
    assert_eq!(r.err(), Some(GadgetError::GadgetIntermediateInconsistent));
}

#[test]
fn gadget_getters() {
    let g = ascon_gadget();
    assert_eq!(g.get_modulus_in(), 17);
    assert_eq!(g.get_modulus_out(), 17);
    assert_eq!(g.get_encoding_in(4).get_values_if_canonical(), Ok((0, 14)));
    assert_eq!(g.get_encoding_out().get_values_if_canonical(), Ok((0, 1)));
    assert_eq!(Gadget::split_int_in_booleans(6, 4, false), vec![false, true, true, false]);
    assert_eq!(Gadget::split_int_in_booleans(6, 4, true), vec![false, true, true, false].into_iter().rev().collect::<Vec<bool>>());
}

#[test]
fn decryption_outside_every_partition_fails() {
    let (cks, _) = keys();
    let e = BooleanEncoding::new_canonical(2, 7).unwrap();
    let c = cks.encrypt_boolean(true, &e).unwrap();
    // The sample carries residue 2; read it under an encoding without residue 2.
    let other = BooleanEncoding::new_canonical(3, 7).unwrap();
    let relabelled = match c {
        Ciphertext::BooleanEncrypted(l, _) => Ciphertext::BooleanEncrypted(l, other),
        _ => panic!("expected an encrypted result"),
    };
    assert_eq!(cks.decrypt(&relabelled), Err(GadgetError::DecryptionMismatch));
}

#[test]
fn modulus_switching_needs_an_odd_source_modulus() {
    let (cks, sks) = keys();
    let g = ascon_gadget();
    let e = BooleanEncoding::new_canonical(1, 4).unwrap();
    let c = cks.encrypt_boolean(true, &e).unwrap();
    assert!(g.modulus_switching(vec![c.clone()], vec![4], 5, &sks).is_err());
    // Equal moduli never fail.
    assert!(g.modulus_switching(vec![c], vec![4], 4, &sks).is_ok());
    // A trivial bit is moved through the identity gadget.
    let out = g.modulus_switching(vec![Ciphertext::Trivial(true)], vec![7], 5, &sks).unwrap();
    assert_eq!(cks.decrypt(&out[0]), Ok(1));
}

#[test]
fn gadget_with_arithmetic_input_is_refused() {
    let (cks, sks) = keys();
    let g = ascon_gadget();
    let a = gadget_tfhe::encoding::ArithmeticEncoding::new_canonical(3, vec![2, 1, 5], 8).unwrap();
    let c = cks.encrypt_arithmetic(1, &a).unwrap();
    assert_eq!(g.exec(&vec![c], &sks).unwrap_err(), GadgetError::EncodingDomainMismatch);
}
