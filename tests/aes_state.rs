use gadget_tfhe::aes::{add_round_key, mix_columns, shift_rows, AESState};
use gadget_tfhe::circuit_text::parse_circuit;
use gadget_tfhe::ciphertext::Ciphertext;
use gadget_tfhe::engine::BooleanEngine;
use gadget_tfhe::keys::{BooleanParameters, ClientKey, EncryptionKeyChoice, PbsOrder};
use gadget_tfhe::clear_kernel::ClearKernel;
use gadget_tfhe::lwe::LweSecretKey;
use gadget_tfhe::server_key::ServerKey;


fn keys() -> (ClientKey, ServerKey<ClearKernel>) {
    let params = BooleanParameters::new(16, 1, 256, 1 << 12, 1 << 12, 7, 3, 2, 5, EncryptionKeyChoice::Small);
    let mut engine = BooleanEngine::new().unwrap();
    let cks = engine.create_client_key(params);
    let kernel = ClearKernel { key: LweSecretKey { bits: cks.lwe_secret_key.bits.clone() } };
    (cks, ServerKey::new(kernel, PbsOrder::BootstrapKeyswitch, 256, 16))
}

fn bytes_to_bits(bytes: &[u8]) -> Vec<bool> {
    bytes.iter().flat_map(|b| (0..8).map(move |i| (b >> (7 - i)) & 1 == 1)).collect()
}

#[test]
fn aes_state_round_trip_and_round_key() {
    let (cks, sks) = keys();
    let plain: Vec<u8> = (0..16).map(|i| (i * 17) as u8).collect();
    let key: Vec<u8> = (0..16).map(|i| (i * 29 + 3) as u8).collect();
    let state = AESState::tfhe_encryption_bits(&bytes_to_bits(&plain), &cks).unwrap();
    assert_eq!(state.tfhe_decryption_bits(&cks), Ok(bytes_to_bits(&plain)));
    let keyed = add_round_key(&state, &bytes_to_bits(&key), &sks).unwrap();
    let expected: Vec<u8> = plain.iter().zip(key.iter()).map(|(p, k)| p ^ k).collect();
    assert_eq!(keyed.tfhe_decryption_bits(&cks), Ok(bytes_to_bits(&expected)));
}

#[test]
fn shift_rows_moves_bytes() {
    let (cks, _) = keys();
    let plain: Vec<u8> = (0..16).collect();
    let state = AESState::tfhe_encryption_bits(&bytes_to_bits(&plain), &cks).unwrap();
    let shifted = shift_rows(&state);
    // byte at (row, col) is plain[4 * col + row]; after the shift it comes from column col + row.
    let mut expected = vec![0u8; 16];
    for col in 0..4 {
        for row in 0..4 {
            expected[4 * col + row] = plain[4 * ((col + row) % 4) + row];
        }
    }
    assert_eq!(shifted.tfhe_decryption_bits(&cks), Ok(bytes_to_bits(&expected)));
    assert!(matches!(shifted.square_getter(1, 0, 7), Ciphertext::BooleanEncrypted(_, _)));
}

/// The MixColumns circuit of one column: 32 input bits (four bytes, least significant bit
/// first), 60 intermediate values, 32 output bits.
const MIX_COLUMNS: &str = "32 0 60 0 32 0\nt0 = x0 XOR x8\nt1 = x16 XOR x24\nt2 = x1 XOR x9\nt3 = x17 XOR x25\nt4 = x2 XOR x10\nt5 = x18 XOR x26\nt6 = x3 XOR x11\nt7 = x19 XOR x27\nt8 = x4 XOR x12\nt9 = x20 XOR x28\nt10 = x5 XOR x13\nt11 = x21 XOR x29\nt12 = x6 XOR x14\nt13 = x22 XOR x30\nt14 = x23 XOR x31\nt15 = x7 XOR x15\nt16 = x8 XOR t1\ny0 = t15 XOR t16\nt17 = x7 XOR x23\nt18 = x24 XOR t0\ny16 = t14 XOR t18\nt19 = t1 XOR y16\ny24 = t17 XOR t19\nt20 = x27 XOR t14\nt21 = t0 XOR y0\ny8 = t17 XOR t21\nt22 = t5 XOR t20\ny19 = t6 XOR t22\nt23 = x11 XOR t15\nt24 = t7 XOR t23\ny3 = t4 XOR t24\nt25 = x2 XOR x18\nt26 = t17 XOR t25\nt27 = t9 XOR t23\nt28 = t8 XOR t20\nt29 = x10 XOR t2\ny2 = t5 XOR t29\nt30 = x26 XOR t3\ny18 = t4 XOR t30\nt31 = x9 XOR x25\nt32 = t25 XOR t31\ny10 = t30 XOR t32\ny26 = t29 XOR t32\nt33 = x1 XOR t18\nt34 = x30 XOR t11\ny22 = t12 XOR t34\nt35 = x14 XOR t13\ny6 = t10 XOR t35\nt36 = x5 XOR x21\nt37 = x30 XOR t17\nt38 = x17 XOR t16\nt39 = x13 XOR t8\ny5 = t11 XOR t39\nt40 = x12 XOR t36\nt41 = x29 XOR t9\ny21 = t10 XOR t41\nt42 = x28 XOR t40\ny13 = t41 XOR t42\ny29 = t39 XOR t42\nt43 = x15 XOR t12\ny7 = t14 XOR t43\nt44 = x14 XOR t37\ny31 = t43 XOR t44\nt45 = x31 XOR t13\ny15 = t44 XOR t45\ny23 = t15 XOR t45\nt46 = t12 XOR t36\ny14 = y6 XOR t46\nt47 = t31 XOR t33\ny17 = t19 XOR t47\nt48 = t6 XOR y3\ny11 = t26 XOR t48\nt49 = t2 XOR t38\ny25 = y24 XOR t49\nt50 = t7 XOR y19\ny27 = t26 XOR t50\nt51 = x22 XOR t46\ny30 = t11 XOR t51\nt52 = x19 XOR t28\ny20 = x28 XOR t52\nt53 = x3 XOR t27\ny4 = x12 XOR t53\nt54 = t3 XOR t33\ny9 = y8 XOR t54\nt55 = t21 XOR t31\ny1 = t38 XOR t55\nt56 = x4 XOR t17\nt57 = x19 XOR t56\ny12 = t27 XOR t57\nt58 = x3 XOR t28\nt59 = t17 XOR t58\ny28 = x20 XOR t59\n";

fn xtime(b: u8) -> u8 {
    (b << 1) ^ if b & 0x80 != 0 { 0x1b } else { 0 }
}

fn lsb_bits(bytes: &[u8]) -> Vec<bool> {
    bytes.iter().flat_map(|b| (0..8).map(move |i| (b >> i) & 1 == 1)).collect()
}

#[test]
fn mix_columns_matches_the_field_arithmetic() {
    let (cks, sks) = keys();
    let circuit = parse_circuit(MIX_COLUMNS.as_bytes()).unwrap();
    assert_eq!(circuit.gates.len(), 92);
    let columns: Vec<[u8; 4]> = vec![[0xdb, 0x13, 0x53, 0x45], [0xf2, 0x0a, 0x22, 0x5c], [0x01, 0x01, 0x01, 0x01], [0xc6, 0xc6, 0xc6, 0xc6]];
    let plain: Vec<u8> = columns.iter().flat_map(|c| c.iter().copied()).collect();
    let state = AESState::tfhe_encryption_bits(&lsb_bits(&plain), &cks).unwrap();
    let mixed = mix_columns(&state, &sks, &circuit).unwrap();
    let mut expected: Vec<u8> = Vec::new();
    for c in &columns {
        for r in 0..4 {
            let a0 = c[r];
            let a1 = c[(r + 1) % 4];
            let a2 = c[(r + 2) % 4];
            let a3 = c[(r + 3) % 4];
            expected.push(xtime(a0) ^ xtime(a1) ^ a1 ^ a2 ^ a3);
        }
    }
    assert_eq!(mixed.tfhe_decryption_bits(&cks), Ok(lsb_bits(&expected)));
}
