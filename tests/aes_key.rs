use gadget_tfhe::aes_key::key_expansion;
use gadget_tfhe::bits::vec_bool_to_u8;

fn hex_of(bits: &[bool]) -> String {
    bits.chunks(8).map(|c| format!("{:02x}", vec_bool_to_u8(&c.to_vec()))).collect::<Vec<String>>().join(" ")
}

#[test]
fn test_key_expansion() {
    let key = vec![true; 128];
    let round_keys = key_expansion(key);
    assert_eq!(round_keys.len(), 11);
    for round_key in &round_keys {
        assert_eq!(round_key.len(), 128);
    }
    assert_eq!(hex_of(&round_keys[0]), "ff ff ff ff ff ff ff ff ff ff ff ff ff ff ff ff");
    assert_eq!(hex_of(&round_keys[1]), "e8 e9 e9 e9 17 16 16 16 e8 e9 e9 e9 17 16 16 16");
    assert_eq!(hex_of(&round_keys[2]), "ad ae ae 19 ba b8 b8 0f 52 51 51 e6 45 47 47 f0");
    assert_eq!(hex_of(&round_keys[10]), "d6 0a 35 88 e4 72 f0 7b 82 d2 d7 85 8c d7 c3 26");
}

#[test]
fn key_expansion_of_the_standard_example() {
    // FIPS-197, appendix A.1: key 2b7e1516 28aed2a6 abf71588 09cf4f3c.
    let key_bytes = [0x2bu8, 0x7e, 0x15, 0x16, 0x28, 0xae, 0xd2, 0xa6, 0xab, 0xf7, 0x15, 0x88, 0x09, 0xcf, 0x4f, 0x3c];
    let key: Vec<bool> = key_bytes.iter().flat_map(|b| (0..8).map(move |i| (b >> (7 - i)) & 1 == 1)).collect();
    let round_keys = key_expansion(key);
    assert_eq!(hex_of(&round_keys[1]), "a0 fa fe 17 88 54 2c b1 23 a3 39 39 2a 6c 76 05");
    assert_eq!(hex_of(&round_keys[10]), "d0 14 f9 a8 c9 ee 25 89 e1 3f 0c c8 b6 63 0c a6");
}
