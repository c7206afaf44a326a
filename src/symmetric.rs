//! A state of encrypted bits, as used by the symmetric primitives evaluated on ciphertexts.
use vstd::prelude::*;
use crate::ciphertext::Ciphertext;
use crate::encoding::{BooleanEncoding, Encoding};
use vstd::string::StringSliceAdditionalSpecFns;
use crate::engine::{ciphertexts_wf, carries, decrypt_value, sample_of};
use crate::error::GadgetError;
use crate::keys::ClientKey;
use crate::lwe::noisy_encryption_of;
use crate::torus::encode_torus;
use crate::accumulator::single;
use crate::bits::{bit_of, two_pow};

verus! {

/// Relies on `String::push`: appends the character at the end of the string.
pub assume_specification[ String::push ](s: &mut String, ch: char)
    ensures
        final(s)@ == old(s)@.push(ch),
;

/// The bits of `bytes`, eight per byte, most significant first.
pub open spec fn bits_of_bytes(bytes: Seq<u8>) -> Seq<bool> {
    Seq::new(bytes.len() * 8, |i: int| bit_of(bytes[i / 8] as nat, (7 - i % 8) as nat))
}

/// `c` decrypts to `1` under key `s`.
pub open spec fn decrypts_to_one(c: Ciphertext, s: Seq<u32>) -> bool {
    decrypt_value(c, s) == Ok::<u32, GadgetError>(1)
}

/// A vector of encrypted bits of a declared size.
pub struct State {
    pub bits: Vec<Ciphertext>,
    pub size_state: usize,
}

impl State {
    /// The declared size matches and every bit carries a well-formed encoding.
    pub open spec fn wf(&self) -> bool {
        self.bits@.len() == self.size_state && ciphertexts_wf(self.bits@)
    }

    /// Bit `i`.
    pub fn get(&self, i: usize) -> (r: &Ciphertext)
        requires
            i < self.bits@.len(),
        ensures
            *r == self.bits@[i as int],
    {
        &self.bits[i]
    }

    /// Replaces bit `i` by a copy of `bit`.
    pub fn set(&mut self, i: usize, bit: &Ciphertext)
        requires
            i < old(self).bits@.len(),
            bit.well_formed(),
            old(self).wf(),
        ensures
            final(self).wf(),
            final(self).size_state == old(self).size_state,
            final(self).bits@.len() == old(self).bits@.len(),
            final(self).bits@[i as int].same_as(*bit),
            forall|j: int| 0 <= j < old(self).bits@.len() && j != i ==> #[trigger] final(self).bits@[j] == old(self).bits@[j],
    {
        self.bits.set(i, bit.duplicate());
    }

    /// The declared number of bits.
    pub fn size_state(&self) -> (r: usize)
        ensures
            r == self.size_state,
    {
        self.size_state
    }

    /// Copies of the first and of the second half of the bits.
    pub fn split_half(&self) -> (r: (Vec<Ciphertext>, Vec<Ciphertext>))
        requires
            self.wf(),
            self.size_state % 2 == 0,
        ensures
            r.0@.len() == self.size_state / 2,
            r.1@.len() == self.size_state / 2,
            forall|i: int| 0 <= i < self.size_state / 2 ==> (#[trigger] r.0@[i]).same_as(self.bits@[i]),
            forall|i: int| 0 <= i < self.size_state / 2 ==> (#[trigger] r.1@[i]).same_as(self.bits@[i + self.size_state / 2]),
    {
        let half = self.size_state / 2;
        let mut first: Vec<Ciphertext> = Vec::new();
        let mut second: Vec<Ciphertext> = Vec::new();
        let mut i: usize = 0;
        while i < half
            invariant
                self.wf(),
                half == self.size_state / 2,
                i <= half,
                first@.len() == i,
                second@.len() == i,
                forall|j: int| 0 <= j < i ==> (#[trigger] first@[j]).same_as(self.bits@[j]),
                forall|j: int| 0 <= j < i ==> (#[trigger] second@[j]).same_as(self.bits@[j + half]),
            decreases half - i,
        {
            first.push(self.bits[i].duplicate());
            second.push(self.bits[i + half].duplicate());
            i = i + 1;
        }
        (first, second)
    }

    /// Encrypts each bit of `m` under `encoding_in`.
    pub fn tfhe_encryption_bits(m: &Vec<bool>, client_key: &ClientKey, encoding_in: &BooleanEncoding, size_state: usize) -> (r: Result<Self, GadgetError>)
        requires
            m@.len() == size_state,
            encoding_in.inv(),
        ensures
            (r matches Err(GadgetError::EncodingNotCanonical)) <==> !encoding_in.canonical(),
            r is Ok ==> encoding_in.canonical(),
            r is Err ==> r->Err_0 == GadgetError::EncodingNotCanonical || r->Err_0 == GadgetError::EntropyUnavailable,
            r is Ok ==> r->Ok_0.wf() && r->Ok_0.size_state == size_state && forall|i: int| 0 <= i < size_state ==> encrypts_bit(
                #[trigger] r->Ok_0.bits@[i],
                m@[i],
                *encoding_in,
                *client_key,
            ),
    {
        if !encoding_in.is_canonical() {
            return Err(GadgetError::EncodingNotCanonical);
        }
        let mut bits: Vec<Ciphertext> = Vec::new();
        let mut i: usize = 0;
        while i < m.len()
            invariant
                encoding_in.inv(),
                encoding_in.canonical(),
                i <= m@.len(),
                bits@.len() == i,
                ciphertexts_wf(bits@),
                forall|j: int| 0 <= j < i ==> encrypts_bit(#[trigger] bits@[j], m@[j], *encoding_in, *client_key),
            decreases m.len() - i,
        {
            let c = client_key.encrypt_boolean(m[i], encoding_in)?;
            bits.push(c);
            i = i + 1;
        }
        Ok(State { bits, size_state })
    }

    /// Decrypts each bit (`true` when it decrypts to 1).
    pub fn tfhe_decryption_bits(&self, client_key: &ClientKey, encoding_out: &BooleanEncoding) -> (r: Result<Vec<bool>, GadgetError>)
        requires
            self.wf(),
        ensures
            r is Ok <==> forall|i: int| 0 <= i < self.bits@.len() ==> (#[trigger] decrypt_value(self.bits@[i], client_key.encryption_key())) is Ok,
            r is Ok ==> r->Ok_0@.len() == self.bits@.len() && forall|i: int| 0 <= i < self.bits@.len() ==> #[trigger] r->Ok_0@[i]
                == decrypts_to_one(self.bits@[i], client_key.encryption_key()),
    {
        let mut out: Vec<bool> = Vec::new();
        let mut i: usize = 0;
        while i < self.bits.len()
            invariant
                self.wf(),
                i <= self.bits@.len(),
                out@.len() == i,
                forall|j: int| 0 <= j < i ==> (#[trigger] decrypt_value(self.bits@[j], client_key.encryption_key())) is Ok,
                forall|j: int| 0 <= j < i ==> #[trigger] out@[j] == decrypts_to_one(self.bits@[j], client_key.encryption_key()),
            decreases self.bits.len() - i,
        {
            let v = client_key.decrypt(&self.bits[i])?;
            out.push(v == 1);
            i = i + 1;
        }
        Ok(out)
    }

    /// Encrypts the bytes of `s`, eight bits each, most significant first.
    pub fn tfhe_encryption_from_string(s: &str, client_key: &ClientKey, encoding_in: &BooleanEncoding, size_state: usize) -> (r: Result<Self, GadgetError>)
        requires
            s.spec_bytes().len() * 8 == size_state,
            encoding_in.inv(),
        ensures
            (r matches Err(GadgetError::EncodingNotCanonical)) <==> !encoding_in.canonical(),
            r is Ok ==> encoding_in.canonical(),
            r is Err ==> r->Err_0 == GadgetError::EncodingNotCanonical || r->Err_0 == GadgetError::EntropyUnavailable,
            r is Ok ==> r->Ok_0.wf() && r->Ok_0.size_state == size_state && forall|i: int| 0 <= i < size_state ==> encrypts_bit(
                #[trigger] r->Ok_0.bits@[i],
                bits_of_bytes(s.spec_bytes())[i],
                *encoding_in,
                *client_key,
            ),
    {
        let bytes = s.as_bytes();
        let mut m: Vec<bool> = Vec::new();
        let mut i: usize = 0;
        while i < bytes.len()
            invariant
                bytes@ == s.spec_bytes(),
                i <= bytes@.len(),
                m@.len() == i * 8,
                forall|j: int| 0 <= j < i * 8 ==> #[trigger] m@[j] == bits_of_bytes(bytes@)[j],
            decreases bytes.len() - i,
        {
            let byte = bytes[i];
            let mut k: usize = 0;
            while k < 8
                invariant
                    bytes@ == s.spec_bytes(),
                    i < bytes@.len(),
                    byte == bytes@[i as int],
                    k <= 8,
                    m@.len() == i * 8 + k,
                    forall|j: int| 0 <= j < i * 8 + k ==> #[trigger] m@[j] == bits_of_bytes(bytes@)[j],
                decreases 8 - k,
            {
                let bit = (byte >> ((7 - k) as u8)) % 2 == 1;
                proof {
                    lemma_byte_bit(byte, (7 - k) as u8);
                    let j = i * 8 + k;
                    assert(j / 8 == i && j % 8 == k) by (nonlinear_arith)
                        requires
                            j == i * 8 + k,
                            k < 8,
                    ;
                }
                m.push(bit);
                k = k + 1;
            }
            i = i + 1;
        }
        Self::tfhe_encryption_bits(&m, client_key, encoding_in, size_state)
    }

    /// Decrypts the bits eight at a time, most significant first, into one character per byte.
    pub fn tfhe_decryption_to_string(&self, client_key: &ClientKey, encoding_out: &BooleanEncoding) -> (r: Result<String, GadgetError>)
        requires
            self.wf(),
        ensures
            r is Ok <==> forall|i: int| 0 <= i < 8 * (self.size_state / 8) ==> (#[trigger] decrypt_value(self.bits@[i], client_key.encryption_key())) is Ok,
            r is Err ==> exists|i: int| 0 <= i < 8 * (self.size_state / 8) && #[trigger] decrypt_value(self.bits@[i], client_key.encryption_key()) == Err::<u32, GadgetError>(r->Err_0),
            r is Ok ==> r->Ok_0@.len() == self.size_state / 8,
            r is Ok ==> forall|i: int| 0 <= i < self.size_state / 8 ==> (#[trigger] r->Ok_0@[i]) as u32 == byte_value(
                self.bits@, client_key.encryption_key(), i * 8, 8) as u32,
    {
        let mut result = String::new();
        let n = self.size_state / 8;
        let mut idx: usize = 0;
        while idx < n
            invariant
                self.wf(),
                n == self.size_state / 8,
                idx <= n,
                result@.len() == idx,
                forall|i: int| 0 <= i < 8 * idx ==> (#[trigger] decrypt_value(self.bits@[i], client_key.encryption_key())) is Ok,
                forall|i: int| 0 <= i < idx ==> (#[trigger] result@[i]) as u32 == byte_value(self.bits@, client_key.encryption_key(), i * 8, 8) as u32,
            decreases n - idx,
        {
            let mut value: u32 = 0;
            let mut k: usize = 0;
            while k < 8
                invariant
                    self.wf(),
                    idx < n,
                    n == self.size_state / 8,
                    k <= 8,
                    value as int == byte_value(self.bits@, client_key.encryption_key(), idx * 8, k as int),
                    forall|i: int| 0 <= i < 8 * idx + k ==> (#[trigger] decrypt_value(self.bits@[i], client_key.encryption_key())) is Ok,
                    value < two_pow(k as nat),
                decreases 8 - k,
            {
                proof {
                    assert(idx * 8 + k < self.bits@.len()) by (nonlinear_arith)
                        requires
                            idx < n,
                            n == self.size_state / 8,
                            k < 8,
                            self.bits@.len() == self.size_state,
                    ;
                }
                let one = match client_key.decrypt(&self.bits[idx * 8 + k]) {
                    Ok(v) => v == 1,
                    Err(e) => {
                        proof {
                            assert(idx * 8 + k < 8 * (self.size_state / 8)) by (nonlinear_arith)
                                requires
                                    idx < n,
                                    n == self.size_state / 8,
                                    k < 8,
                            ;
                        }
                        return Err(e);
                    },
                };
                proof {
                    assert(two_pow((k + 1) as nat) == 2 * two_pow(k as nat));
                    crate::bits::lemma_two_pow_mono(k as nat, 8);
                    reveal_with_fuel(two_pow, 9);
                }
                value = value * 2 + if one { 1 } else { 0 };
                k = k + 1;
            }
            proof {
                crate::bits::lemma_two_pow_pos(8);
                reveal_with_fuel(two_pow, 9);
            }
            result.push(char_of_byte(value as u8));
            idx = idx + 1;
        }
        Ok(result)
    }
}

/// The value of the `k` decrypted bits from position `start`, most significant first
/// (a bit counts as 1 when it decrypts to 1).
pub open spec fn byte_value(bits: Seq<Ciphertext>, s: Seq<u32>, start: int, k: int) -> int
    decreases k,
{
    if k <= 0 {
        0
    } else {
        2 * byte_value(bits, s, start, k - 1) + if decrypts_to_one(bits[start + k - 1], s) { 1int } else { 0 }
    }
}

/// `c` is a Boolean encryption of `b` under `e` by client key `cks`.
pub open spec fn encrypts_bit(c: Ciphertext, b: bool, e: BooleanEncoding, cks: ClientKey) -> bool {
    &&& c.well_formed()
    &&& carries(c, e)
    &&& sample_of(c).mask@.len() == cks.encryption_key().len()
    &&& noisy_encryption_of(
        sample_of(c),
        cks.encryption_key(),
        encode_torus(single(e.part(b)) as int, e.modulus() as int),
        cks.noise_bound(),
    )
}

/// The character whose code point is `b`.
fn char_of_byte(b: u8) -> (r: char)
    ensures
        r as u32 == b as u32,
{
    b as char
}

/// `(byte >> j) % 2 == 1` is bit `j` of `byte`.
proof fn lemma_byte_bit(byte: u8, j: u8)
    requires
        j < 8,
    ensures
        ((byte >> j) % 2 == 1) == bit_of(byte as nat, j as nat),
{
    crate::bits::lemma_two_pow_pos(j as nat);
    lemma_shr_is_div(byte, j);
}

/// `x >> j == x / 2^j`.
proof fn lemma_shr_is_div(x: u8, j: u8)
    requires
        j < 8,
    ensures
        (x >> j) as nat == (x as nat) / two_pow(j as nat),
    decreases j,
{
    if j == 0 {
        assert(x >> 0u8 == x) by (bit_vector);
        assert(two_pow(0) == 1);
        assert((x as nat) / 1 == x as nat);
    } else {
        assert(two_pow(j as nat) == two_pow((j - 1) as nat) * 2);
        lemma_shr_is_div(x, (j - 1) as u8);
        assert(x >> j == (x >> ((j - 1) as u8)) / 2) by (bit_vector)
            requires
                0 < j < 8,
        ;
        crate::bits::lemma_two_pow_pos((j - 1) as nat);
        vstd::arithmetic::div_mod::lemma_div_denominator(x as int, two_pow((j - 1) as nat) as int, 2);
    }
}

} // verus!
