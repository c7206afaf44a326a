//! The AES-128 key schedule on vectors of bits.
use vstd::prelude::*;
use crate::bits::{bit_of, bits_of, bits_value, u32_to_vec_bool, vec_bool_to_u32};

verus! {

/// The AES S-box, indexed by the input byte.
pub open spec fn sbox_table() -> Seq<u8> {
    seq![
        0x63u8, 0x7c, 0x77, 0x7b, 0xf2, 0x6b, 0x6f, 0xc5, 0x30, 0x01, 0x67, 0x2b, 0xfe, 0xd7, 0xab, 0x76,
        0xca, 0x82, 0xc9, 0x7d, 0xfa, 0x59, 0x47, 0xf0, 0xad, 0xd4, 0xa2, 0xaf, 0x9c, 0xa4, 0x72, 0xc0,
        0xb7, 0xfd, 0x93, 0x26, 0x36, 0x3f, 0xf7, 0xcc, 0x34, 0xa5, 0xe5, 0xf1, 0x71, 0xd8, 0x31, 0x15,
        0x04, 0xc7, 0x23, 0xc3, 0x18, 0x96, 0x05, 0x9a, 0x07, 0x12, 0x80, 0xe2, 0xeb, 0x27, 0xb2, 0x75,
        0x09, 0x83, 0x2c, 0x1a, 0x1b, 0x6e, 0x5a, 0xa0, 0x52, 0x3b, 0xd6, 0xb3, 0x29, 0xe3, 0x2f, 0x84,
        0x53, 0xd1, 0x00, 0xed, 0x20, 0xfc, 0xb1, 0x5b, 0x6a, 0xcb, 0xbe, 0x39, 0x4a, 0x4c, 0x58, 0xcf,
        0xd0, 0xef, 0xaa, 0xfb, 0x43, 0x4d, 0x33, 0x85, 0x45, 0xf9, 0x02, 0x7f, 0x50, 0x3c, 0x9f, 0xa8,
        0x51, 0xa3, 0x40, 0x8f, 0x92, 0x9d, 0x38, 0xf5, 0xbc, 0xb6, 0xda, 0x21, 0x10, 0xff, 0xf3, 0xd2,
        0xcd, 0x0c, 0x13, 0xec, 0x5f, 0x97, 0x44, 0x17, 0xc4, 0xa7, 0x7e, 0x3d, 0x64, 0x5d, 0x19, 0x73,
        0x60, 0x81, 0x4f, 0xdc, 0x22, 0x2a, 0x90, 0x88, 0x46, 0xee, 0xb8, 0x14, 0xde, 0x5e, 0x0b, 0xdb,
        0xe0, 0x32, 0x3a, 0x0a, 0x49, 0x06, 0x24, 0x5c, 0xc2, 0xd3, 0xac, 0x62, 0x91, 0x95, 0xe4, 0x79,
        0xe7, 0xc8, 0x37, 0x6d, 0x8d, 0xd5, 0x4e, 0xa9, 0x6c, 0x56, 0xf4, 0xea, 0x65, 0x7a, 0xae, 0x08,
        0xba, 0x78, 0x25, 0x2e, 0x1c, 0xa6, 0xb4, 0xc6, 0xe8, 0xdd, 0x74, 0x1f, 0x4b, 0xbd, 0x8b, 0x8a,
        0x70, 0x3e, 0xb5, 0x66, 0x48, 0x03, 0xf6, 0x0e, 0x61, 0x35, 0x57, 0xb9, 0x86, 0xc1, 0x1d, 0x9e,
        0xe1, 0xf8, 0x98, 0x11, 0x69, 0xd9, 0x8e, 0x94, 0x9b, 0x1e, 0x87, 0xe9, 0xce, 0x55, 0x28, 0xdf,
        0x8c, 0xa1, 0x89, 0x0d, 0xbf, 0xe6, 0x42, 0x68, 0x41, 0x99, 0x2d, 0x0f, 0xb0, 0x54, 0xbb, 0x16,
    ]
}

/// The round constants of the AES key schedule (the first is unused).
pub open spec fn round_constants() -> Seq<u32> {
    seq![0x00u32, 0x01, 0x02, 0x04, 0x08, 0x10, 0x20, 0x40, 0x80, 0x1B, 0x36]
}

/// Each byte of `w` replaced through the S-box.
pub open spec fn sub_word_spec(w: u32) -> u32 {
    (sbox_table()[((w >> 24u32) & 0xffu32) as int] as u32) << 24u32
        | (sbox_table()[((w >> 16u32) & 0xffu32) as int] as u32) << 16u32
        | (sbox_table()[((w >> 8u32) & 0xffu32) as int] as u32) << 8u32
        | (sbox_table()[(w & 0xffu32) as int] as u32)
}

/// `w` rotated left by one byte.
pub open spec fn rot_word_spec(w: u32) -> u32 {
    w << 8u32 | w >> 24u32
}

/// Word `i` of the expanded AES-128 key whose first four words are `key`.
pub open spec fn schedule_word(key: Seq<u32>, i: int) -> u32
    decreases i,
{
    if i < 4 {
        key[i]
    } else if i % 4 == 0 {
        schedule_word(key, i - 4) ^ sub_word_spec(rot_word_spec(schedule_word(key, i - 1))) ^ (round_constants()[i / 4] << 24u32)
    } else {
        schedule_word(key, i - 4) ^ schedule_word(key, i - 1)
    }
}

} // verus!

verus! {

/// The S-box image of `o`.
fn substitute(o: u8) -> (r: u8)
    ensures
        r == sbox_table()[o as int],
{
    let table: Vec<u8> = vec![
        0x63u8, 0x7c, 0x77, 0x7b, 0xf2, 0x6b, 0x6f, 0xc5, 0x30, 0x01, 0x67, 0x2b, 0xfe, 0xd7, 0xab, 0x76,
        0xca, 0x82, 0xc9, 0x7d, 0xfa, 0x59, 0x47, 0xf0, 0xad, 0xd4, 0xa2, 0xaf, 0x9c, 0xa4, 0x72, 0xc0,
        0xb7, 0xfd, 0x93, 0x26, 0x36, 0x3f, 0xf7, 0xcc, 0x34, 0xa5, 0xe5, 0xf1, 0x71, 0xd8, 0x31, 0x15,
        0x04, 0xc7, 0x23, 0xc3, 0x18, 0x96, 0x05, 0x9a, 0x07, 0x12, 0x80, 0xe2, 0xeb, 0x27, 0xb2, 0x75,
        0x09, 0x83, 0x2c, 0x1a, 0x1b, 0x6e, 0x5a, 0xa0, 0x52, 0x3b, 0xd6, 0xb3, 0x29, 0xe3, 0x2f, 0x84,
        0x53, 0xd1, 0x00, 0xed, 0x20, 0xfc, 0xb1, 0x5b, 0x6a, 0xcb, 0xbe, 0x39, 0x4a, 0x4c, 0x58, 0xcf,
        0xd0, 0xef, 0xaa, 0xfb, 0x43, 0x4d, 0x33, 0x85, 0x45, 0xf9, 0x02, 0x7f, 0x50, 0x3c, 0x9f, 0xa8,
        0x51, 0xa3, 0x40, 0x8f, 0x92, 0x9d, 0x38, 0xf5, 0xbc, 0xb6, 0xda, 0x21, 0x10, 0xff, 0xf3, 0xd2,
        0xcd, 0x0c, 0x13, 0xec, 0x5f, 0x97, 0x44, 0x17, 0xc4, 0xa7, 0x7e, 0x3d, 0x64, 0x5d, 0x19, 0x73,
        0x60, 0x81, 0x4f, 0xdc, 0x22, 0x2a, 0x90, 0x88, 0x46, 0xee, 0xb8, 0x14, 0xde, 0x5e, 0x0b, 0xdb,
        0xe0, 0x32, 0x3a, 0x0a, 0x49, 0x06, 0x24, 0x5c, 0xc2, 0xd3, 0xac, 0x62, 0x91, 0x95, 0xe4, 0x79,
        0xe7, 0xc8, 0x37, 0x6d, 0x8d, 0xd5, 0x4e, 0xa9, 0x6c, 0x56, 0xf4, 0xea, 0x65, 0x7a, 0xae, 0x08,
        0xba, 0x78, 0x25, 0x2e, 0x1c, 0xa6, 0xb4, 0xc6, 0xe8, 0xdd, 0x74, 0x1f, 0x4b, 0xbd, 0x8b, 0x8a,
        0x70, 0x3e, 0xb5, 0x66, 0x48, 0x03, 0xf6, 0x0e, 0x61, 0x35, 0x57, 0xb9, 0x86, 0xc1, 0x1d, 0x9e,
        0xe1, 0xf8, 0x98, 0x11, 0x69, 0xd9, 0x8e, 0x94, 0x9b, 0x1e, 0x87, 0xe9, 0xce, 0x55, 0x28, 0xdf,
        0x8c, 0xa1, 0x89, 0x0d, 0xbf, 0xe6, 0x42, 0x68, 0x41, 0x99, 0x2d, 0x0f, 0xb0, 0x54, 0xbb, 0x16,
    ];
    assert(table@ =~= sbox_table());
    table[o as usize]
}

/// `x` rotated left by one byte.
fn rot_word(x: u32) -> (r: u32)
    ensures
        r == rot_word_spec(x),
{
    x << 8u32 | x >> 24u32
}

/// Each byte of `x` replaced through the S-box.
fn sub_word(x: u32) -> (r: u32)
    ensures
        r == sub_word_spec(x),
{
    assert((x >> 24u32) & 0xffu32 < 256u32 && (x >> 16u32) & 0xffu32 < 256u32 && (x >> 8u32) & 0xffu32 < 256u32
        && x & 0xffu32 < 256u32) by (bit_vector);
    let b3 = substitute(((x >> 24u32) & 0xffu32) as u8);
    let b2 = substitute(((x >> 16u32) & 0xffu32) as u8);
    let b1 = substitute(((x >> 8u32) & 0xffu32) as u8);
    let b0 = substitute((x & 0xffu32) as u8);
    (b3 as u32) << 24u32 | (b2 as u32) << 16u32 | (b1 as u32) << 8u32 | (b0 as u32)
}

/// The round constant of round `i`, in the most significant byte.
fn rcon(i: usize) -> (r: u32)
    requires
        i < 11,
    ensures
        r == round_constants()[i as int] << 24u32,
{
    let rc: Vec<u32> = vec![0x00u32, 0x01, 0x02, 0x04, 0x08, 0x10, 0x20, 0x40, 0x80, 0x1B, 0x36];
    assert(rc@ =~= round_constants());
    rc[i] << 24u32
}

/// The four words of a 128-bit key, each read from 32 bits, most significant first.
pub open spec fn key_words(key: Seq<bool>) -> Seq<u32> {
    Seq::new(4, |i: int| bits_value(key.subrange(32 * i, 32 * i + 32), true) as u32)
}

/// The eleven round keys of AES-128 for the 128-bit `aes_key`: round key `k` is words `4k` to
/// `4k + 3` of the key schedule, each as 32 bits, most significant first.
pub fn key_expansion(aes_key: Vec<bool>) -> (r: Vec<Vec<bool>>)
    requires
        aes_key@.len() == 128,
    ensures
        r@.len() == 11,
        forall|k: int| 0 <= k < 11 ==> (#[trigger] r@[k])@.len() == 128,
        forall|k: int, j: int, b: int| 0 <= k < 11 && 0 <= j < 4 && 0 <= b < 32 ==> #[trigger] r@[k]@[32 * j + b]
            == bit_of(schedule_word(key_words(aes_key@), 4 * k + j) as nat, (31 - b) as nat),
{
    let ghost kw = key_words(aes_key@);
    let mut words: Vec<u32> = Vec::new();
    let mut i: usize = 0;
    while i < 4
        invariant
            aes_key@.len() == 128,
            kw == key_words(aes_key@),
            i <= 4,
            words@.len() == i,
            forall|m: int| 0 <= m < i ==> #[trigger] words@[m] == kw[m],
        decreases 4 - i,
    {
        let mut part: Vec<bool> = Vec::new();
        let mut b: usize = 0;
        while b < 32
            invariant
                aes_key@.len() == 128,
                i < 4,
                b <= 32,
                part@ == aes_key@.subrange(32 * i as int, 32 * i + b),
            decreases 32 - b,
        {
            part.push(aes_key[32 * i + b]);
            proof {
                assert(part@ =~= aes_key@.subrange(32 * i as int, 32 * i + b + 1));
            }
            b = b + 1;
        }
        let w = vec_bool_to_u32(&part);
        words.push(w);
        i = i + 1;
    }
    let mut i: usize = 4;
    while i < 44
        invariant
            kw == key_words(aes_key@),
            4 <= i <= 44,
            words@.len() == i,
            forall|m: int| 0 <= m < i ==> #[trigger] words@[m] == schedule_word(kw, m),
        decreases 44 - i,
    {
        let w = if i % 4 == 0 {
            words[i - 4] ^ sub_word(rot_word(words[i - 1])) ^ rcon(i / 4)
        } else {
            words[i - 4] ^ words[i - 1]
        };
        words.push(w);
        i = i + 1;
    }
    let mut round_keys: Vec<Vec<bool>> = Vec::new();
    let mut k: usize = 0;
    while k < 11
        invariant
            kw == key_words(aes_key@),
            words@.len() == 44,
            forall|m: int| 0 <= m < 44 ==> #[trigger] words@[m] == schedule_word(kw, m),
            k <= 11,
            round_keys@.len() == k,
            forall|q: int| 0 <= q < k ==> (#[trigger] round_keys@[q])@.len() == 128,
            forall|q: int, j: int, b: int| 0 <= q < k && 0 <= j < 4 && 0 <= b < 32 ==> #[trigger] round_keys@[q]@[32 * j + b]
                == bit_of(schedule_word(kw, 4 * q + j) as nat, (31 - b) as nat),
        decreases 11 - k,
    {
        let mut key_k: Vec<bool> = Vec::new();
        let mut j: usize = 0;
        while j < 4
            invariant
                kw == key_words(aes_key@),
                words@.len() == 44,
                forall|m: int| 0 <= m < 44 ==> #[trigger] words@[m] == schedule_word(kw, m),
                k < 11,
                j <= 4,
                key_k@.len() == 32 * j,
                forall|jj: int, b: int| 0 <= jj < j && 0 <= b < 32 ==> #[trigger] key_k@[32 * jj + b]
                    == bit_of(schedule_word(kw, 4 * k + jj) as nat, (31 - b) as nat),
            decreases 4 - j,
        {
            let bits = u32_to_vec_bool(words[4 * k + j]);
            let mut b: usize = 0;
            while b < 32
                invariant
                    j < 4,
                    k < 11,
                    bits@ == bits_of(words@[4 * k + j] as nat, 32, true),
                    words@[4 * k + j] == schedule_word(kw, 4 * k + j),
                    b <= 32,
                    key_k@.len() == 32 * j + b,
                    forall|jj: int, bb: int| 0 <= jj < j && 0 <= bb < 32 ==> #[trigger] key_k@[32 * jj + bb]
                        == bit_of(schedule_word(kw, 4 * k + jj) as nat, (31 - bb) as nat),
                    forall|bb: int| 0 <= bb < b ==> #[trigger] key_k@[32 * j + bb]
                        == bit_of(schedule_word(kw, 4 * k + j) as nat, (31 - bb) as nat),
                decreases 32 - b,
            {
                key_k.push(bits[b]);
                b = b + 1;
            }
            proof {
                assert forall|jj: int, bb: int| 0 <= jj < j + 1 && 0 <= bb < 32 implies #[trigger] key_k@[32 * jj + bb]
                    == bit_of(schedule_word(kw, 4 * k + jj) as nat, (31 - bb) as nat) by {
                    if jj == j {
                        assert(key_k@[32 * j + bb] == bit_of(schedule_word(kw, 4 * k + j) as nat, (31 - bb) as nat));
                    }
                }
            }
            j = j + 1;
        }
        round_keys.push(key_k);
        k = k + 1;
    }
    round_keys
}

} // verus!
