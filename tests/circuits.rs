use rand::SeedableRng;
use gadget_tfhe::bits::{int_to_vec_bool, u32_to_vec_bool, u8_to_vec_bool, vec_bool_to_int, vec_bool_to_u32, vec_bool_to_u8};
use gadget_tfhe::ciphertext::Ciphertext;
use gadget_tfhe::circuit_text::parse_circuit;
use gadget_tfhe::encoding::BooleanEncoding;
use gadget_tfhe::engine::BooleanEngine;
use gadget_tfhe::error::GadgetError;
use gadget_tfhe::keys::{BooleanParameters, ClientKey, EncryptionKeyChoice, PbsOrder};
use gadget_tfhe::linear_circuit::{Bank, LinearCircuit, LinearGate, Wire};
use gadget_tfhe::clear_kernel::ClearKernel;
use gadget_tfhe::lwe::LweSecretKey;
use gadget_tfhe::server_key::ServerKey;
use gadget_tfhe::symmetric::State;


fn keys() -> (ClientKey, ServerKey<ClearKernel>) {
    let params = BooleanParameters::new(24, 1, 256, 1 << 12, 1 << 12, 7, 3, 2, 5, EncryptionKeyChoice::Small);
    let mut engine = BooleanEngine::new().unwrap();
    let cks = engine.create_client_key(params);
    let kernel = ClearKernel { key: LweSecretKey { bits: cks.lwe_secret_key.bits.clone() } };
    (cks, ServerKey::new(kernel, PbsOrder::BootstrapKeyswitch, 256, 24))
}

const CIRCUIT: &str = "2 0 1 0 2 0\nt0 = x0 XOR x1\n\ny0 = t0 XNOR x1\ny1 = x0 XOR t0\n";

#[test]
fn parse_circuit_reads_header_and_gates() {
    let c = parse_circuit(CIRCUIT.as_bytes()).unwrap();
    assert_eq!((c.n_in, c.n_int, c.n_out), (2, 1, 2));
    assert_eq!(c.gates.len(), 3);
    assert_eq!(
        c.gates[1],
        LinearGate {
            dst: Wire { bank: Bank::Y, index: 0 },
            src1: Wire { bank: Bank::T, index: 0 },
            src2: Wire { bank: Bank::X, index: 1 },
            xnor: true,
        }
    );
}

#[test]
fn parse_circuit_removes_offsets() {
    let c = parse_circuit(b"1 7 0 0 1 3\ny3 = x7 XOR x7").unwrap();
    assert_eq!(c.gates[0].dst, Wire { bank: Bank::Y, index: 0 });
    assert_eq!(c.gates[0].src1, Wire { bank: Bank::X, index: 0 });
}

#[test]
fn parse_circuit_rejects_malformed_text() {
    assert_eq!(parse_circuit(b"").unwrap_err(), GadgetError::MalformedDescription);
    assert_eq!(parse_circuit(b"1 0 1 0 1").unwrap_err(), GadgetError::MalformedDescription);
    assert_eq!(parse_circuit(b"1 0 1 0 1 0\nt0 = x0 AND x0").unwrap_err(), GadgetError::MalformedDescription);
    assert_eq!(parse_circuit(b"1 0 1 0 1 0\nt0 = z0 XOR x0").unwrap_err(), GadgetError::MalformedDescription);
    assert_eq!(parse_circuit(b"1 5 1 0 1 0\nt0 = x4 XOR x5").unwrap_err(), GadgetError::MalformedDescription);
}

#[test]
fn linear_circuit_computes_xor_and_xnor() {
    let (cks, sks) = keys();
    let parity = BooleanEncoding::parity_encoding();
    let circuit = parse_circuit(CIRCUIT.as_bytes()).unwrap();
    for (a, b) in [(false, false), (false, true), (true, false), (true, true)] {
        let inputs = vec![cks.encrypt_boolean(a, &parity).unwrap(), cks.encrypt_boolean(b, &parity).unwrap()];
        let mut lc = LinearCircuit::new(&inputs);
        lc.execute_circuit(&sks, &circuit).unwrap();
        let t0 = a ^ b;
        assert_eq!(cks.decrypt(&lc.t[0]), Ok(t0 as u32));
        assert_eq!(cks.decrypt(&lc.y[0]), Ok((!(t0 ^ b)) as u32));
        assert_eq!(cks.decrypt(&lc.y[1]), Ok((a ^ t0) as u32));
    }
}

#[test]
fn linear_circuit_checks_its_inputs() {
    let (cks, sks) = keys();
    let parity = BooleanEncoding::parity_encoding();
    let circuit = parse_circuit(CIRCUIT.as_bytes()).unwrap();
    let mut lc = LinearCircuit::new(&vec![cks.encrypt_boolean(true, &parity).unwrap()]);
    assert_eq!(lc.execute_circuit(&sks, &circuit).unwrap_err(), GadgetError::MalformedDescription);
    let reads_unset = parse_circuit(b"1 0 1 0 1 0\ny0 = x0 XOR t0").unwrap();
    let mut lc = LinearCircuit::new(&vec![cks.encrypt_boolean(true, &parity).unwrap()]);
    assert_eq!(lc.execute_circuit(&sks, &reads_unset).unwrap_err(), GadgetError::TrivialCastForbidden);
}

#[test]
fn state_round_trips_bits_and_strings() {
    let (cks, _) = keys();
    let parity = BooleanEncoding::parity_encoding();
    let bits = vec![true, false, false, true, true, false];
    let st = State::tfhe_encryption_bits(&bits, &cks, &parity, 6).unwrap();
    assert_eq!(st.size_state(), 6);
    assert_eq!(st.tfhe_decryption_bits(&cks, &parity), Ok(bits.clone()));
    let (l, r) = st.split_half();
    assert_eq!(l.len(), 3);
    assert_eq!(cks.decrypt(&r[0]), Ok(1));
    let text = String::from("Hi!");
    let st = State::tfhe_encryption_from_string(&text, &cks, &parity, 24).unwrap();
    assert_eq!(st.tfhe_decryption_to_string(&cks, &parity), Ok(text));
    assert_eq!(cks.decrypt(st.get(1)), Ok(1));
}

#[test]
fn state_set_replaces_one_bit() {
    let (cks, _) = keys();
    let parity = BooleanEncoding::parity_encoding();
    let mut st = State::tfhe_encryption_bits(&vec![false, false], &cks, &parity, 2).unwrap();
    st.set(1, &Ciphertext::Trivial(true));
    assert_eq!(st.tfhe_decryption_bits(&cks, &parity), Ok(vec![false, true]));
}

#[test]
fn not_inverts_trivial_and_encrypted_bits() {
    let (cks, sks) = keys();
    let mut engine = BooleanEngine::new().unwrap();
    assert!(matches!(engine.not(&Ciphertext::Trivial(true), &sks), Ok(Ciphertext::Trivial(false))));
    for (q, p) in [(1u32, 2u32), (2, 7), (3, 11)] {
        let e = BooleanEncoding::new_canonical(q, p).unwrap();
        for b in [false, true] {
            let mut c = cks.encrypt_boolean(b, &e).unwrap();
            let n = engine.not(&c, &sks).unwrap();
            assert_eq!(cks.decrypt(&n), Ok((!b) as u32));
            engine.not_assign(&mut c, &sks).unwrap();
            assert_eq!(cks.decrypt(&c), Ok((!b) as u32));
        }
    }
}

#[test]
fn bit_conversions() {
    assert_eq!(vec_bool_to_int(vec![true, false, true], false), 5);
    assert_eq!(vec_bool_to_int(vec![true, false, false], true), 4);
    assert_eq!(int_to_vec_bool(6, 4, false), vec![false, true, true, false]);
    assert_eq!(int_to_vec_bool(1, 3, true), vec![false, false, true]);
    assert_eq!(u8_to_vec_bool(0xa5), vec![true, false, true, false, false, true, false, true]);
    assert_eq!(vec_bool_to_u8(&u8_to_vec_bool(0x3c)), 0x3c);
    assert_eq!(vec_bool_to_u32(&u32_to_vec_bool(0xdead_beef)), 0xdead_beef);
    assert_eq!(u32_to_vec_bool(1)[31], true);
}

#[test]
fn server_key_sizes() {
    let (_, sks) = keys();
    assert_eq!(sks.bootstrapping_key_size_elements(), 0);
    assert_eq!(sks.key_switching_key_size_elements(), 0);
    assert_eq!(sks.key_switching_key_size_bytes(), 0);
}

#[test]
fn engines_from_the_same_root_seed_agree() {
    let params = BooleanParameters::new(24, 1, 256, 1 << 12, 1 << 12, 7, 3, 2, 5, EncryptionKeyChoice::Small);
    let mut root1 = rand::rngs::StdRng::seed_from_u64(2024);
    let mut root2 = rand::rngs::StdRng::seed_from_u64(2024);
    let mut e1 = BooleanEngine::new_from_seeder(&mut root1);
    let mut e2 = BooleanEngine::new_from_seeder(&mut root2);
    let k1 = e1.create_client_key(params);
    let k2 = e2.create_client_key(params);
    assert_eq!(k1.lwe_secret_key.bits, k2.lwe_secret_key.bits);
    assert_eq!(k1.glwe_secret_key.bits, k2.glwe_secret_key.bits);
    let parity = BooleanEncoding::parity_encoding();
    let c1 = e1.encrypt_boolean(true, &parity, &k1).unwrap();
    let c2 = e2.encrypt_boolean(true, &parity, &k2).unwrap();
    match (c1, c2) {
        (Ciphertext::BooleanEncrypted(a, _), Ciphertext::BooleanEncrypted(b, _)) => {
            assert_eq!(a.mask, b.mask);
            assert_eq!(a.body, b.body);
        }
        _ => panic!("expected encrypted ciphertexts"),
    }
    let mut other = BooleanEngine::new_from_seeder(&mut rand::rngs::StdRng::seed_from_u64(1));
    assert_ne!(other.create_client_key(params).lwe_secret_key.bits, k1.lwe_secret_key.bits);
}
