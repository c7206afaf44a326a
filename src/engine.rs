//! The evaluation engine: encryption, decryption, linear operations and gadget bootstraps.
use vstd::prelude::*;
use vstd::arithmetic::div_mod::*;
use crate::accumulator::{Memory, odd_lookup_table, binary_lookup_table, single, lemma_single};
use crate::ciphertext::Ciphertext;
use crate::encoding::{ArithmeticEncoding, BooleanEncoding, Encoding, scaled, shifted};
use crate::error::GadgetError;
use crate::keys::{BooleanParameters, ClientKey, PbsOrder, encrypt_lwe, random_bits, entropy_generator, seeded_generator, next_u64};
use rand::rngs::StdRng;
use crate::lwe::{LweCiphertext, LweSecretKey, phase, phase_of, congruent, lemma_phase_linear, lemma_congruent_mod, noisy_encryption_of};
use crate::server_key::{BootstrapKernel, ServerKey, sample_view, bootstrap_pattern};
use crate::torus::{torus_size, encode_torus, decode_torus, encode_plaintext, decode_plaintext};

verus! {

/// The decryption of a Boolean-encrypted sample under key `s`.
pub open spec fn decrypt_boolean_value(c: LweCiphertext, e: BooleanEncoding, s: Seq<u32>) -> Result<u32, GadgetError> {
    let z = decode_torus(phase(c, s), e.modulus() as int) as u32;
    if e.true_part().contains(z) {
        Ok(1)
    } else if e.false_part().contains(z) {
        Ok(0)
    } else {
        Err(GadgetError::DecryptionMismatch)
    }
}

/// The origin element whose part holds `z`.
pub open spec fn part_index(e: ArithmeticEncoding, z: u32) -> int {
    choose|i: int| 0 <= i < e.origin() && e.parts_view()[i].contains(z)
}

/// The decryption of an arithmetic-encrypted sample under key `s`.
pub open spec fn decrypt_arithmetic_value(c: LweCiphertext, e: ArithmeticEncoding, s: Seq<u32>) -> Result<u32, GadgetError> {
    let z = decode_torus(phase(c, s), e.modulus() as int) as u32;
    if exists|i: int| 0 <= i < e.origin() && e.parts_view()[i].contains(z) {
        Ok(part_index(e, z) as u32)
    } else {
        Err(GadgetError::DecryptionMismatch)
    }
}

/// The decryption of `ct` under key `s`: a trivial bit as itself, a sample by rounding its
/// phase to `Z/p` and looking up the partition that holds the residue.
pub open spec fn decrypt_value(ct: Ciphertext, s: Seq<u32>) -> Result<u32, GadgetError> {
    match ct {
        Ciphertext::Trivial(b) => Ok(if b { 1 } else { 0 }),
        Ciphertext::BooleanEncrypted(c, e) => if c.mask@.len() != s.len() {
            Err(GadgetError::EncodingDomainMismatch)
        } else {
            decrypt_boolean_value(c, e, s)
        },
        Ciphertext::ArithmeticEncrypted(c, e) => if c.mask@.len() != s.len() {
            Err(GadgetError::EncodingDomainMismatch)
        } else {
            decrypt_arithmetic_value(c, e, s)
        },
    }
}

/// What input `i` adds to the phase of a gadget's linear combination: the phase of an encrypted
/// input, or the encoded residue of a trivial bit under encoding `enc[i]`.
pub open spec fn contribution(c: Ciphertext, enc: Seq<BooleanEncoding>, i: int, s: Seq<u32>) -> int {
    match c {
        Ciphertext::BooleanEncrypted(ct, _) => phase(ct, s),
        Ciphertext::Trivial(b) => encode_torus(single(enc[i].part(b)) as int, enc[i].modulus() as int),
        Ciphertext::ArithmeticEncrypted(_, _) => 0,
    }
}

/// The sum of the contributions of the first `n` inputs.
pub open spec fn phase_total(inputs: Seq<Ciphertext>, enc: Seq<BooleanEncoding>, s: Seq<u32>, n: int) -> int
    decreases n,
{
    if n <= 0 {
        0
    } else {
        phase_total(inputs, enc, s, n - 1) + contribution(inputs[n - 1], enc, n - 1, s)
    }
}

/// Input `i` can enter a linear combination of dimension `size`: a Boolean-encrypted sample of
/// that dimension, or a trivial bit with a canonical encoding `enc[i]`.
pub open spec fn input_ready(c: Ciphertext, enc: Seq<BooleanEncoding>, i: int, size: int) -> bool {
    match c {
        Ciphertext::BooleanEncrypted(ct, _) => ct.mask@.len() == size,
        Ciphertext::Trivial(_) => i < enc.len() && enc[i].canonical(),
        Ciphertext::ArithmeticEncrypted(_, _) => false,
    }
}

/// The library's encodings in `enc` are well formed.
pub open spec fn encodings_wf(enc: Seq<BooleanEncoding>) -> bool {
    forall|i: int| 0 <= i < enc.len() ==> (#[trigger] enc[i]).inv()
}

/// The ciphertexts in `cs` carry well-formed encodings.
pub open spec fn ciphertexts_wf(cs: Seq<Ciphertext>) -> bool {
    forall|i: int| 0 <= i < cs.len() ==> (#[trigger] cs[i]).well_formed()
}

/// The encoding carried by `c` is `e`.
pub open spec fn carries(c: Ciphertext, e: BooleanEncoding) -> bool {
    match c {
        Ciphertext::BooleanEncrypted(_, e2) => e2.inv() && e2.false_part() == e.false_part()
            && e2.true_part() == e.true_part() && e2.modulus() == e.modulus(),
        _ => false,
    }
}

/// The LWE sample of a Boolean-encrypted ciphertext.
pub open spec fn sample_of(c: Ciphertext) -> LweCiphertext {
    match c {
        Ciphertext::BooleanEncrypted(ct, _) => ct,
        Ciphertext::ArithmeticEncrypted(ct, _) => ct,
        Ciphertext::Trivial(_) => arbitrary(),
    }
}

/// `x` can be inverted: a trivial bit, or a Boolean-encrypted sample whose negated encoding is
/// valid.
pub open spec fn not_ok(x: Ciphertext) -> bool {
    match x {
        Ciphertext::Trivial(_) => true,
        Ciphertext::BooleanEncrypted(_, e) => crate::encoding::boolean_valid(
            scaled(e.false_part(), e.modulus() - 1, e.modulus() as int),
            scaled(e.true_part(), e.modulus() - 1, e.modulus() as int),
            e.modulus(),
        ),
        Ciphertext::ArithmeticEncrypted(_, _) => false,
    }
}

/// `y` is the Boolean inversion of `x`: the flipped bit, or the negated sample with the negated
/// residues and the labels exchanged.
pub open spec fn is_not_of(y: Ciphertext, x: Ciphertext) -> bool {
    match (y, x) {
        (Ciphertext::Trivial(b2), Ciphertext::Trivial(b)) => b2 == !b,
        (Ciphertext::BooleanEncrypted(c2, e2), Ciphertext::BooleanEncrypted(c, e)) => {
            let p = e.modulus() as int;
            &&& e2.inv()
            &&& e2.false_part() == scaled(e.true_part(), p - 1, p)
            &&& e2.true_part() == scaled(e.false_part(), p - 1, p)
            &&& e2.modulus() == e.modulus()
            &&& c2.mask@.len() == c.mask@.len()
            &&& forall|s: Seq<u32>| s.len() == c.mask@.len() ==> #[trigger] phase(c2, s) == (-phase(c, s)) % torus_size()
        },
        _ => false,
    }
}

/// `(m, b)` is the linear combination of `input` (see `linear_combination`): of dimension
/// `dim`, with the sum of the contributions as phase under every key.
pub open spec fn is_combination(m: Seq<u32>, b: u32, enc_in: Seq<BooleanEncoding>, input: Seq<Ciphertext>, dim: int) -> bool {
    &&& m.len() == dim
    &&& forall|s: Seq<u32>| s.len() == dim ==> #[trigger] phase_of((m, b), s) == phase_total(input, enc_in, s, input.len() as int) % torus_size()
}

/// `lut` is the lookup table from `enc_inter` to `enc_out` of size `n`.
pub open spec fn lookup_table_of(lut: Seq<u32>, enc_inter: BooleanEncoding, enc_out: BooleanEncoding, n: int) -> bool {
    &&& enc_inter.modulus() % 2 == 1 ==> odd_lookup_table(lut, enc_inter, enc_out, n)
    &&& enc_inter.modulus() == 2 ==> binary_lookup_table(lut, enc_inter, enc_out, n)
}

/// `r` is what a gadget gives: the bootstrap, in `order` and with the lookup table from
/// `enc_inter` to `enc_out`, of the linear combination of `input`.
pub open spec fn gadget_result<K: BootstrapKernel>(
    r: LweCiphertext,
    kernel: K,
    order: PbsOrder,
    enc_in: Seq<BooleanEncoding>,
    enc_inter: BooleanEncoding,
    enc_out: BooleanEncoding,
    input: Seq<Ciphertext>,
    dim: int,
    n: int,
) -> bool {
    exists|m: Seq<u32>, b: u32, lut: Seq<u32>|
        #![trigger is_combination(m, b, enc_in, input, dim), lookup_table_of(lut, enc_inter, enc_out, n)]
        is_combination(m, b, enc_in, input, dim) && lookup_table_of(lut, enc_inter, enc_out, n)
            && sample_view(r) == bootstrap_pattern(kernel, order, (m, b), lut)
}

/// The per-thread evaluation engine; it owns the scratch memory of the bootstrap driver.
pub struct BooleanEngine {
    /// Draws the secret keys.
    pub secret_generator: StdRng,
    /// Draws the masks and errors of encryptions.
    pub encryption_generator: StdRng,
    pub memory: Memory,
}

/// Adds `c` to `acc` and tracks the phase of the sum under every key of the right dimension.
proof fn lemma_add_phase(acc: LweCiphertext, c: LweCiphertext, r: LweCiphertext, s: Seq<u32>)
    requires
        acc.mask@.len() == s.len(),
        c.mask@.len() == s.len(),
        r.mask@.len() == s.len(),
        forall|i: int| 0 <= i < s.len() ==> #[trigger] r.mask@[i] as int == (acc.mask@[i] + c.mask@[i]) % torus_size(),
        r.body as int == (acc.body + c.body) % torus_size(),
    ensures
        phase(r, s) == (phase(acc, s) + phase(c, s)) % torus_size(),
{
    let t = torus_size();
    assert forall|i: int| 0 <= i < s.len() implies congruent(#[trigger] r.mask@[i] as int, 1 * acc.mask@[i] + 1 * c.mask@[i]) by {
        lemma_congruent_mod(acc.mask@[i] + c.mask@[i]);
    }
    lemma_congruent_mod(acc.body + c.body);
    lemma_phase_linear(acc, c, r, s, 1, 1, 0);
}

/// The dot product with an all-zero vector is 0.
proof fn lemma_dot_zero(a: Seq<u32>, s: Seq<u32>, n: int)
    requires
        0 <= n <= a.len(),
        forall|i: int| 0 <= i < a.len() ==> #[trigger] a[i] == 0,
    ensures
        crate::lwe::dot(a, s, n) == 0,
    decreases n,
{
    if n > 0 {
        lemma_dot_zero(a, s, n - 1);
    }
}

/// Adding a plaintext to the body adds it to the phase.
proof fn lemma_plaintext_phase(acc: LweCiphertext, r: LweCiphertext, pt: int, s: Seq<u32>)
    requires
        acc.mask@.len() == s.len(),
        r.mask@ == acc.mask@,
        r.body as int == (acc.body + pt) % torus_size(),
    ensures
        phase(r, s) == (phase(acc, s) + pt) % torus_size(),
{
    assert forall|i: int| 0 <= i < s.len() implies congruent(#[trigger] r.mask@[i] as int, 1 * acc.mask@[i] + 0 * acc.mask@[i]) by {
        lemma_congruent_mod(acc.mask@[i] as int);
        lemma_small_mod(acc.mask@[i] as nat, torus_size() as nat);
    }
    lemma_congruent_mod(acc.body + pt);
    lemma_phase_linear(acc, acc, r, s, 1, 0, pt);
}

impl BooleanEngine {
    /// A fresh engine whose generators are seeded by the operating system; fails with
    /// `EntropyUnavailable` when the operating system gives no randomness.
    pub fn new() -> (r: Result<Self, GadgetError>)
        ensures
            r is Err ==> r->Err_0 == GadgetError::EntropyUnavailable,
            r is Ok ==> r->Ok_0.memory.buffer@.len() == 0,
    {
        match entropy_generator() {
            Some(mut root) => Ok(Self::new_from_seeder(&mut root)),
            None => Err(GadgetError::EntropyUnavailable),
        }
    }

    /// An engine seeded from one value drawn from `root_seeder`: a deterministic generator
    /// seeded with it gives, in turn, the seeds of the secret and of the encryption generators.
    /// The same root and the same calls give the same keys and encryptions.
    pub fn new_from_seeder(root_seeder: &mut StdRng) -> (r: Self)
        ensures
            r.memory.buffer@.len() == 0,
    {
        let mut deterministic = seeded_generator(next_u64(root_seeder));
        let secret_seed = next_u64(&mut deterministic);
        let encryption_seed = next_u64(&mut deterministic);
        BooleanEngine {
            secret_generator: seeded_generator(secret_seed),
            encryption_generator: seeded_generator(encryption_seed),
            memory: Memory::new(),
        }
    }

    /// An engine for evaluation only (linear operations, gadgets, decryption), which draw no
    /// randomness: its generators are fixed.
    fn evaluator() -> (r: Self)
        ensures
            r.memory.buffer@.len() == 0,
    {
        BooleanEngine {
            secret_generator: seeded_generator(0),
            encryption_generator: seeded_generator(0),
            memory: Memory::new(),
        }
    }

    /// Draws the secret keys for `parameters`.
    pub fn create_client_key(&mut self, parameters: BooleanParameters) -> (r: ClientKey)
        requires
            parameters.big_dimension() <= usize::MAX,
        ensures
            r.wf(),
            r.parameters == parameters,
            forall|i: int| 0 <= i < r.lwe_secret_key.bits@.len() ==> #[trigger] r.lwe_secret_key.bits@[i] < 2,
            forall|i: int| 0 <= i < r.glwe_secret_key.bits@.len() ==> #[trigger] r.glwe_secret_key.bits@[i] < 2,
    {
        let lwe = random_bits(parameters.lwe_dimension, &mut self.secret_generator);
        let big = random_bits(parameters.glwe_dimension * parameters.polynomial_size, &mut self.secret_generator);
        ClientKey {
            lwe_secret_key: LweSecretKey { bits: lwe },
            glwe_secret_key: LweSecretKey { bits: big },
            parameters,
        }
    }

    /// The trivial ciphertext of `message`.
    pub fn trivial_encrypt(&mut self, message: bool) -> (r: Ciphertext)
        ensures
            r == Ciphertext::Trivial(message),
            *final(self) == *old(self),
    {
        Ciphertext::Trivial(message)
    }

    fn encryption_from_plaintext(&mut self, cks: &ClientKey, plaintext: u32) -> (r: LweCiphertext)
        ensures
            r.mask@.len() == cks.encryption_key().len(),
            noisy_encryption_of(r, cks.encryption_key(), plaintext as int, cks.noise_bound()),
    {
        let key = cks.key();
        let bound = cks.noise();
        encrypt_lwe(key, plaintext, bound, &mut self.encryption_generator)
    }

    /// Encrypts `message` under the canonical `encoding`: the phase is `floor(2^32 d / p)` plus a
    /// fresh error, `d` being the residue that encodes `message`.
    pub fn encrypt_boolean(&mut self, message: bool, encoding: &BooleanEncoding, cks: &ClientKey) -> (r: Result<Ciphertext, GadgetError>)
        requires
            encoding.inv(),
        ensures
            r is Ok <==> encoding.canonical(),
            r is Err ==> r->Err_0 == GadgetError::EncodingNotCanonical,
            r is Ok ==> carries(r->Ok_0, *encoding) && r->Ok_0.well_formed()
                && sample_of(r->Ok_0).mask@.len() == cks.encryption_key().len()
                && noisy_encryption_of(
                    sample_of(r->Ok_0),
                    cks.encryption_key(),
                    encode_torus(single(encoding.part(message)) as int, encoding.modulus() as int),
                    cks.noise_bound(),
                ),
    {
        let d = match encoding.get_mono_encoding(message) {
            Ok(d) => d,
            Err(e) => {
                return Err(e);
            },
        };
        proof {
            encoding.lemma_inv();
            lemma_single(encoding.part(message), d);
            assert(encoding.part(message).contains(d));
        }
        let p = encoding.get_modulus();
        let pt = encode_plaintext(d, p);
        let ct = self.encryption_from_plaintext(cks, pt);
        Ok(Ciphertext::BooleanEncrypted(ct, encoding.duplicate()))
    }

    /// Encrypts `message < o` under the canonical arithmetic `encoding`.
    pub fn encrypt_arithmetic(&mut self, message: u32, encoding: &ArithmeticEncoding, cks: &ClientKey) -> (r: Result<Ciphertext, GadgetError>)
        requires
            encoding.inv(),
            (message as nat) < encoding.origin(),
        ensures
            r is Ok <==> encoding.canonical(),
            r is Err ==> r->Err_0 == GadgetError::EncodingNotCanonical,
            r is Ok ==> r->Ok_0.well_formed() && (r->Ok_0 matches Ciphertext::ArithmeticEncrypted(ct, e)
                && e.parts_view() == encoding.parts_view() && e.origin() == encoding.origin() && e.modulus()
                == encoding.modulus() && ct.mask@.len() == cks.encryption_key().len() && noisy_encryption_of(
                ct,
                cks.encryption_key(),
                encode_torus(single(encoding.parts_view()[message as int]) as int, encoding.modulus() as int),
                cks.noise_bound(),
            )),
    {
        let d = match encoding.get_part_single_value_if_canonical(message) {
            Ok(d) => d,
            Err(e) => {
                return Err(e);
            },
        };
        proof {
            encoding.lemma_inv();
            lemma_single(encoding.parts_view()[message as int], d);
            assert(encoding.parts_view()[message as int].contains(d));
        }
        let p = encoding.get_modulus();
        let pt = encode_plaintext(d, p);
        let ct = self.encryption_from_plaintext(cks, pt);
        Ok(Ciphertext::ArithmeticEncrypted(ct, encoding.duplicate()))
    }

    fn decrypt_boolean(key: &LweSecretKey, c: &LweCiphertext, e: &BooleanEncoding) -> (r: Result<u32, GadgetError>)
        requires
            e.inv(),
            c.mask@.len() == key.bits@.len(),
        ensures
            r == decrypt_boolean_value(*c, *e, key.bits@),
    {
        proof {
            e.lemma_inv();
        }
        let ph = c.decrypt_phase(key);
        let z = decode_plaintext(ph, e.get_modulus());
        if e.is_partition_containing(true, z) {
            Ok(1)
        } else if e.is_partition_containing(false, z) {
            Ok(0)
        } else {
            Err(GadgetError::DecryptionMismatch)
        }
    }

    fn decrypt_arithmetic(key: &LweSecretKey, c: &LweCiphertext, e: &ArithmeticEncoding) -> (r: Result<u32, GadgetError>)
        requires
            e.inv(),
            c.mask@.len() == key.bits@.len(),
        ensures
            r == decrypt_arithmetic_value(*c, *e, key.bits@),
    {
        proof {
            e.lemma_inv();
        }
        let ph = c.decrypt_phase(key);
        let z = decode_plaintext(ph, e.get_modulus());
        let o = e.get_origin_modulus();
        let mut i: u32 = 0;
        while i < o
            invariant
                e.inv(),
                o as nat == e.origin(),
                i <= o,
                z as int == decode_torus(phase(*c, key.bits@), e.modulus() as int),
                forall|j: int| 0 <= j < i ==> !(#[trigger] e.parts_view()[j]).contains(z),
            decreases o - i,
        {
            if e.is_partition_containing(i, z) {
                proof {
                    let k = part_index(*e, z);
                    if k != i as int {
                        e.lemma_inv();
                        if k < i {
                            assert(e.parts_view()[k].disjoint(e.parts_view()[i as int]));
                        } else {
                            assert(e.parts_view()[i as int].disjoint(e.parts_view()[k]));
                        }
                    }
                }
                return Ok(i);
            }
            i = i + 1;
        }
        Err(GadgetError::DecryptionMismatch)
    }


    /// The sum of `inputs` as one LWE sample of dimension `size`: encrypted inputs are added,
    /// a trivial input `i` adds the torus value of its bit under `enc_in[i]`.
    pub fn linear_combination(enc_in: &Vec<BooleanEncoding>, inputs: &Vec<Ciphertext>, size: usize) -> (r: Result<LweCiphertext, GadgetError>)
        requires
            encodings_wf(enc_in@),
            ciphertexts_wf(inputs@),
        ensures
            r is Ok <==> forall|i: int| 0 <= i < inputs@.len() ==> input_ready(#[trigger] inputs@[i], enc_in@, i, size as int),
            r matches Err(e) ==> e == GadgetError::EncodingDomainMismatch || e == GadgetError::EncodingNotCanonical,
            (r matches Err(GadgetError::EncodingNotCanonical)) ==> exists|i: int| 0 <= i < inputs@.len() && #[trigger] inputs@[i] is Trivial,
            r is Ok ==> r->Ok_0.mask@.len() == size && forall|s: Seq<u32>| s.len() == size ==> #[trigger] phase(r->Ok_0, s)
                == phase_total(inputs@, enc_in@, s, inputs@.len() as int) % torus_size(),
    {
        let mut acc = LweCiphertext::new(size);
        proof {
            assert forall|s: Seq<u32>| s.len() == size implies #[trigger] phase(acc, s) == phase_total(inputs@, enc_in@, s, 0) % torus_size() by {
                assert(acc.mask@ =~= Seq::new(size as nat, |i: int| 0u32));
                lemma_dot_zero(acc.mask@, s, size as int);
                lemma_small_mod(0, torus_size() as nat);
            }
        }
        let mut i: usize = 0;
        while i < inputs.len()
            invariant
                encodings_wf(enc_in@),
                ciphertexts_wf(inputs@),
                i <= inputs.len(),
                acc.mask@.len() == size,
                forall|j: int| 0 <= j < i ==> input_ready(#[trigger] inputs@[j], enc_in@, j, size as int),
                forall|s: Seq<u32>| s.len() == size ==> #[trigger] phase(acc, s) == phase_total(inputs@, enc_in@, s, i as int) % torus_size(),
            decreases inputs.len() - i,
        {
            let ghost before = acc;
            match &inputs[i] {
                Ciphertext::BooleanEncrypted(c, _) => {
                    if c.mask.len() != size {
                        return Err(GadgetError::EncodingDomainMismatch);
                    }
                    acc.add_assign(c);
                    proof {
                        assert forall|s: Seq<u32>| s.len() == size implies #[trigger] phase(acc, s) == phase_total(inputs@, enc_in@, s, i + 1) % torus_size() by {
                            lemma_add_phase(before, *c, acc, s);
                            let prev = phase_total(inputs@, enc_in@, s, i as int);
                            assert(phase(before, s) == prev % torus_size());
                            lemma_add_mod_noop(prev, phase(*c, s), torus_size());
                            lemma_mod_twice(prev, torus_size());
                            lemma_mod_twice(phase(*c, s) + 0, torus_size());
                            assert(phase(*c, s) % torus_size() == phase(*c, s)) by {
                                lemma_mod_twice(c.body - crate::lwe::dot(c.mask@, s, c.mask@.len() as int), torus_size());
                            }
                        }
                    }
                },
                Ciphertext::Trivial(b) => {
                    if i >= enc_in.len() {
                        return Err(GadgetError::EncodingDomainMismatch);
                    }
                    let e = &enc_in[i];
                    let d = match e.get_mono_encoding(*b) {
                        Ok(d) => d,
                        Err(err) => {
                            assert(inputs@[i as int] is Trivial);
                            return Err(err);
                        },
                    };
                    proof {
                        e.lemma_inv();
                        lemma_single(e.part(*b), d);
                        assert(e.part(*b).contains(d));
                    }
                    let pt = encode_plaintext(d, e.get_modulus());
                    acc.plaintext_add_assign(pt);
                    proof {
                        assert forall|s: Seq<u32>| s.len() == size implies #[trigger] phase(acc, s) == phase_total(inputs@, enc_in@, s, i + 1) % torus_size() by {
                            lemma_plaintext_phase(before, acc, pt as int, s);
                            let prev = phase_total(inputs@, enc_in@, s, i as int);
                            lemma_add_mod_noop(prev, pt as int, torus_size());
                            lemma_mod_twice(prev, torus_size());
                            lemma_small_mod(pt as nat, torus_size() as nat);
                        }
                    }
                },
                Ciphertext::ArithmeticEncrypted(_, _) => {
                    return Err(GadgetError::EncodingDomainMismatch);
                },
            }
            i = i + 1;
        }
        Ok(acc)
    }

    /// Evaluates one gadget: sums `input` (see `linear_combination`), then bootstraps the sum
    /// with the lookup table from `enc_inter` to `enc_out`, in the server key's order of steps.
    /// The result carries `enc_out`.
    pub fn exec_gadget_with_extraction<K: BootstrapKernel>(
        &mut self,
        enc_in: &Vec<BooleanEncoding>,
        enc_inter: &BooleanEncoding,
        enc_out: &BooleanEncoding,
        input: &Vec<Ciphertext>,
        server_key: &ServerKey<K>,
    ) -> (r: Result<Ciphertext, GadgetError>)
        requires
            encodings_wf(enc_in@),
            ciphertexts_wf(input@),
            enc_inter.inv(),
            enc_out.inv(),
            server_key.polynomial_size <= u32::MAX,
        ensures
            ({
                let ready = forall|i: int| 0 <= i < input@.len() ==> input_ready(#[trigger] input@[i], enc_in@, i, server_key.lwe_dimension as int);
                let p = enc_inter.modulus();
                let p_out = enc_out.modulus() as int;
                let table_ok = enc_out.canonical() && (p % 2 == 1 || (p == 2 && single(enc_out.false_part()) as int
                    == (p_out - single(enc_out.true_part()) as int) % p_out));
                let n = server_key.polynomial_size as int;
                &&& r is Ok <==> ready && table_ok
                &&& r is Ok ==> carries(r->Ok_0, *enc_out) && r->Ok_0.well_formed()
                &&& r is Ok && p % 2 == 1 ==> odd_lookup_table(final(self).memory.buffer@, *enc_inter, *enc_out, n)
                &&& r is Ok && p == 2 ==> binary_lookup_table(final(self).memory.buffer@, *enc_inter, *enc_out, n)
                &&& (forall|i: int| 0 <= i < input@.len() ==> !(#[trigger] input@[i] is Trivial)) && (exists|i: int| 0 <= i < input@.len() && #[trigger] input@[i] is ArithmeticEncrypted)
                    ==> r == Err::<Ciphertext, GadgetError>(GadgetError::EncodingDomainMismatch)
                &&& r is Ok ==> gadget_result(sample_of(r->Ok_0), server_key.kernel, server_key.pbs_order, enc_in@, *enc_inter, *enc_out, input@, server_key.lwe_dimension as int, n)
            }),
    {
        let sum = match Self::linear_combination(enc_in, input, server_key.lwe_dimension) {
            Ok(c) => c,
            Err(e) => {
                return Err(e);
            },
        };
        match self.memory.fill_lookup_table(enc_inter, enc_out, server_key.polynomial_size) {
            Ok(()) => {},
            Err(e) => {
                return Err(e);
            },
        }
        let out = match server_key.pbs_order {
            PbsOrder::KeyswitchBootstrap => {
                let small = server_key.kernel.keyswitch(&sum);
                server_key.kernel.programmable_bootstrap(&small, &self.memory.buffer)
            },
            PbsOrder::BootstrapKeyswitch => {
                let big = server_key.kernel.programmable_bootstrap(&sum, &self.memory.buffer);
                server_key.kernel.keyswitch(&big)
            },
        };
        proof {
            let dim = server_key.lwe_dimension as int;
            assert forall|s: Seq<u32>| s.len() == dim implies #[trigger] phase_of((sum.mask@, sum.body), s) == phase_total(input@, enc_in@, s, input@.len() as int) % torus_size() by {
                assert(phase(sum, s) == phase_total(input@, enc_in@, s, input@.len() as int) % torus_size());
            }
            assert(is_combination(sum.mask@, sum.body, enc_in@, input@, dim));
            assert(lookup_table_of(self.memory.buffer@, *enc_inter, *enc_out, server_key.polynomial_size as int));
            assert(sample_view(out) == bootstrap_pattern(server_key.kernel, server_key.pbs_order, (sum.mask@, sum.body), self.memory.buffer@));
        }
        Ok(Ciphertext::BooleanEncrypted(out, enc_out.duplicate()))
    }

    /// Multiplies the sample of `input` by `coefficient`; the encoding becomes
    /// `multiply_constant(coefficient)`. A trivial input is refused.
    pub fn cast_encoding<K>(&mut self, input: &Ciphertext, coefficient: u32, server_key: &ServerKey<K>) -> (r: Result<Ciphertext, GadgetError>)
        requires
            input.well_formed(),
        ensures
            input is Trivial ==> r == Err::<Ciphertext, GadgetError>(GadgetError::TrivialCastForbidden),
            input is ArithmeticEncrypted ==> r == Err::<Ciphertext, GadgetError>(GadgetError::EncodingDomainMismatch),
            *input matches Ciphertext::BooleanEncrypted(c, e) ==> {
                let p = e.modulus() as int;
                let f = scaled(e.false_part(), coefficient as int, p);
                let t = scaled(e.true_part(), coefficient as int, p);
                &&& (r is Ok <==> crate::encoding::boolean_valid(f, t, e.modulus()))
                &&& (r is Err ==> r->Err_0 == GadgetError::EncodingInvalid)
                &&& (r matches Ok(Ciphertext::BooleanEncrypted(c2, e2)) && e2.inv() && e2.false_part() == f
                    && e2.true_part() == t && e2.modulus() == e.modulus() && c2.mask@.len() == c.mask@.len()
                    && forall|s: Seq<u32>| s.len() == c.mask@.len() ==> #[trigger] phase(c2, s) == (coefficient * phase(c, s)) % torus_size())
                    || r is Err
            },
    {
        match input {
            Ciphertext::BooleanEncrypted(c, e) => {
                let e2 = match e.multiply_constant(coefficient) {
                    Ok(e2) => e2,
                    Err(err) => {
                        return Err(err);
                    },
                };
                let c2 = c.cleartext_mul(coefficient);
                proof {
                    assert forall|s: Seq<u32>| s.len() == c.mask@.len() implies #[trigger] phase(c2, s) == (coefficient * phase(*c, s)) % torus_size() by {
                        assert forall|i: int| 0 <= i < s.len() implies congruent(#[trigger] c2.mask@[i] as int, coefficient * c.mask@[i] + 0 * c.mask@[i]) by {
                            lemma_congruent_mod(c.mask@[i] * coefficient);
                            assert(c.mask@[i] * coefficient == coefficient * c.mask@[i] + 0 * c.mask@[i]) by (nonlinear_arith);
                        }
                        lemma_congruent_mod(c.body * coefficient);
                        assert(c.body * coefficient == coefficient * c.body + 0 * c.body + 0) by (nonlinear_arith);
                        lemma_phase_linear(*c, *c, c2, s, coefficient as int, 0, 0);
                    }
                }
                Ok(Ciphertext::BooleanEncrypted(c2, e2))
            },
            Ciphertext::Trivial(_) => Err(GadgetError::TrivialCastForbidden),
            Ciphertext::ArithmeticEncrypted(_, _) => Err(GadgetError::EncodingDomainMismatch),
        }
    }


    /// Adds the samples of `input`, all Boolean-encrypted of the server key's dimension; the
    /// result carries the parity encoding.
    pub fn simple_sum<K>(&mut self, input: &Vec<Ciphertext>, server_key: &ServerKey<K>) -> (r: Result<Ciphertext, GadgetError>)
        requires
            ciphertexts_wf(input@),
        ensures
            r is Ok <==> forall|i: int| 0 <= i < input@.len() ==> (#[trigger] input@[i] matches Ciphertext::BooleanEncrypted(c, _)
                && c.mask@.len() == server_key.lwe_dimension),
            r matches Err(e) ==> e == GadgetError::EncodingDomainMismatch || e == GadgetError::TrivialCastForbidden,
            r is Ok ==> r->Ok_0.well_formed() && (r->Ok_0 matches Ciphertext::BooleanEncrypted(c, e) && e.false_part() == set![0u32]
                && e.true_part() == set![1u32] && e.modulus() == 2 && c.mask@.len() == server_key.lwe_dimension
                && forall|s: Seq<u32>| s.len() == server_key.lwe_dimension ==> #[trigger] phase(c, s) == phase_total(input@, Seq::empty(), s, input@.len() as int) % torus_size()),
    {
        let size = server_key.lwe_dimension;
        let ghost none: Seq<BooleanEncoding> = Seq::empty();
        let mut acc = LweCiphertext::new(size);
        proof {
            assert forall|s: Seq<u32>| s.len() == size implies #[trigger] phase(acc, s) == phase_total(input@, none, s, 0) % torus_size() by {
                lemma_dot_zero(acc.mask@, s, size as int);
                lemma_small_mod(0, torus_size() as nat);
            }
        }
        let mut i: usize = 0;
        while i < input.len()
            invariant
                i <= input.len(),
                acc.mask@.len() == size,
                size == server_key.lwe_dimension,
                none == Seq::<BooleanEncoding>::empty(),
                forall|j: int| 0 <= j < i ==> (#[trigger] input@[j] matches Ciphertext::BooleanEncrypted(c, _) && c.mask@.len() == size),
                forall|s: Seq<u32>| s.len() == size ==> #[trigger] phase(acc, s) == phase_total(input@, none, s, i as int) % torus_size(),
            decreases input.len() - i,
        {
            let ghost before = acc;
            match &input[i] {
                Ciphertext::BooleanEncrypted(c, _) => {
                    if c.mask.len() != size {
                        return Err(GadgetError::EncodingDomainMismatch);
                    }
                    acc.add_assign(c);
                    proof {
                        assert forall|s: Seq<u32>| s.len() == size implies #[trigger] phase(acc, s) == phase_total(input@, none, s, i + 1) % torus_size() by {
                            lemma_add_phase(before, *c, acc, s);
                            let prev = phase_total(input@, none, s, i as int);
                            lemma_add_mod_noop(prev, phase(*c, s), torus_size());
                            lemma_mod_twice(prev, torus_size());
                            lemma_mod_twice(c.body - crate::lwe::dot(c.mask@, s, c.mask@.len() as int), torus_size());
                        }
                    }
                },
                Ciphertext::Trivial(_) => {
                    return Err(GadgetError::TrivialCastForbidden);
                },
                Ciphertext::ArithmeticEncrypted(_, _) => {
                    return Err(GadgetError::EncodingDomainMismatch);
                },
            }
            i = i + 1;
        }
        Ok(Ciphertext::BooleanEncrypted(acc, BooleanEncoding::parity_encoding()))
    }

    fn add_plaintext(c: &LweCiphertext, constant: u32, modulus: u32) -> (r: LweCiphertext)
        requires
            modulus > 0,
        ensures
            r.mask@.len() == c.mask@.len(),
            forall|s: Seq<u32>| s.len() == c.mask@.len() ==> #[trigger] phase(r, s) == (phase(*c, s) + encode_torus(
                (constant % modulus) as int,
                modulus as int,
            )) % torus_size(),
    {
        let pt = encode_plaintext(constant % modulus, modulus);
        let mut r = c.duplicate();
        r.plaintext_add_assign(pt);
        proof {
            assert forall|s: Seq<u32>| s.len() == c.mask@.len() implies #[trigger] phase(r, s) == (phase(*c, s) + encode_torus(
                (constant % modulus) as int,
                modulus as int,
            )) % torus_size() by {
                lemma_plaintext_phase(*c, r, pt as int, s);
            }
        }
        r
    }

    /// Adds `floor(2^32 * constant / modulus)` (with `constant` reduced modulo `modulus`) to a
    /// Boolean-encrypted input; the encoding is kept.
    pub fn simple_plaintext_sum<K>(&mut self, input: &Ciphertext, constant: u32, modulus: u32, server_key: &ServerKey<K>) -> (r: Result<Ciphertext, GadgetError>)
        requires
            input.well_formed(),
            modulus > 0,
        ensures
            input is Trivial ==> r == Err::<Ciphertext, GadgetError>(GadgetError::TrivialCastForbidden),
            input is ArithmeticEncrypted ==> r == Err::<Ciphertext, GadgetError>(GadgetError::EncodingDomainMismatch),
            *input matches Ciphertext::BooleanEncrypted(c, e) ==> r matches Ok(Ciphertext::BooleanEncrypted(c2, e2))
                && e2.inv() && e2.false_part() == e.false_part() && e2.true_part() == e.true_part() && e2.modulus() == e.modulus()
                && c2.mask@.len() == c.mask@.len() && forall|s: Seq<u32>| s.len() == c.mask@.len() ==> #[trigger] phase(c2, s)
                == (phase(c, s) + encode_torus((constant % modulus) as int, modulus as int)) % torus_size(),
    {
        match input {
            Ciphertext::BooleanEncrypted(c, e) => Ok(Ciphertext::BooleanEncrypted(Self::add_plaintext(c, constant, modulus), e.duplicate())),
            Ciphertext::Trivial(_) => Err(GadgetError::TrivialCastForbidden),
            Ciphertext::ArithmeticEncrypted(_, _) => Err(GadgetError::EncodingDomainMismatch),
        }
    }

    /// As `simple_plaintext_sum`, but the encoding is shifted by `constant` (`add_constant`).
    pub fn simple_plaintext_sum_encoding<K>(&mut self, input: &Ciphertext, constant: u32, modulus: u32, server_key: &ServerKey<K>) -> (r: Result<Ciphertext, GadgetError>)
        requires
            input.well_formed(),
            modulus > 0,
        ensures
            input is Trivial ==> r == Err::<Ciphertext, GadgetError>(GadgetError::TrivialCastForbidden),
            input is ArithmeticEncrypted ==> r == Err::<Ciphertext, GadgetError>(GadgetError::EncodingDomainMismatch),
            *input matches Ciphertext::BooleanEncrypted(c, e) ==> r matches Ok(Ciphertext::BooleanEncrypted(c2, e2))
                && e2.inv() && e2.false_part() == shifted(e.false_part(), constant as int, e.modulus() as int)
                && e2.true_part() == shifted(e.true_part(), constant as int, e.modulus() as int) && e2.modulus() == e.modulus()
                && c2.mask@.len() == c.mask@.len() && forall|s: Seq<u32>| s.len() == c.mask@.len() ==> #[trigger] phase(c2, s)
                == (phase(c, s) + encode_torus((constant % modulus) as int, modulus as int)) % torus_size(),
    {
        match input {
            Ciphertext::BooleanEncrypted(c, e) => Ok(Ciphertext::BooleanEncrypted(Self::add_plaintext(c, constant, modulus), e.add_constant(constant))),
            Ciphertext::Trivial(_) => Err(GadgetError::TrivialCastForbidden),
            Ciphertext::ArithmeticEncrypted(_, _) => Err(GadgetError::EncodingDomainMismatch),
        }
    }


    /// Boolean inversion: a trivial bit is flipped; an encrypted sample is negated and its
    /// encoding becomes the negated residues with the labels exchanged (so it decrypts to the
    /// opposite bit). Fails with `EncodingInvalid` when the negated encoding is not valid.
    pub fn not<K>(&mut self, ct: &Ciphertext, server_key: &ServerKey<K>) -> (r: Result<Ciphertext, GadgetError>)
        requires
            ct.well_formed(),
        ensures
            r is Ok <==> not_ok(*ct),
            r is Ok ==> is_not_of(r->Ok_0, *ct) && r->Ok_0.well_formed(),
            ct is ArithmeticEncrypted ==> r == Err::<Ciphertext, GadgetError>(GadgetError::EncodingDomainMismatch),
            ct is BooleanEncrypted && r is Err ==> r->Err_0 == GadgetError::EncodingInvalid,
    {
        match ct {
            Ciphertext::Trivial(b) => Ok(Ciphertext::Trivial(!*b)),
            Ciphertext::ArithmeticEncrypted(_, _) => Err(GadgetError::EncodingDomainMismatch),
            Ciphertext::BooleanEncrypted(c, e) => {
                proof {
                    e.lemma_inv();
                }
                let p = e.get_modulus();
                let negated = match e.multiply_constant(p - 1) {
                    Ok(n) => n,
                    Err(err) => {
                        return Err(err);
                    },
                };
                let c2 = c.negate();
                proof {
                    assert forall|s: Seq<u32>| s.len() == c.mask@.len() implies #[trigger] phase(c2, s) == (-phase(*c, s)) % torus_size() by {
                        assert forall|i: int| 0 <= i < s.len() implies congruent(#[trigger] c2.mask@[i] as int, -1 * c.mask@[i] + 0 * c.mask@[i]) by {
                            lemma_congruent_mod(-c.mask@[i]);
                        }
                        lemma_congruent_mod(-c.body);
                        lemma_phase_linear(*c, *c, c2, s, -1, 0, 0);
                        assert(-1 * phase(*c, s) + 0 * phase(*c, s) + 0 == -phase(*c, s));
                    }
                }
                Ok(Ciphertext::BooleanEncrypted(c2, negated.swapped()))
            },
        }
    }

    /// Replaces `ct` by its Boolean inversion (see `not`); on failure `ct` is left unchanged.
    pub fn not_assign<K>(&mut self, ct: &mut Ciphertext, server_key: &ServerKey<K>) -> (r: Result<(), GadgetError>)
        requires
            old(ct).well_formed(),
        ensures
            final(ct).well_formed(),
            r is Ok <==> not_ok(*old(ct)),
            r is Ok ==> is_not_of(*final(ct), *old(ct)),
            r is Err ==> *final(ct) == *old(ct),
    {
        match self.not(ct, server_key) {
            Ok(n) => {
                *ct = n;
                Ok(())
            },
            Err(e) => Err(e),
        }
    }

    /// Decrypts `ct` with the client key.
    pub fn decrypt(&mut self, ct: &Ciphertext, cks: &ClientKey) -> (r: Result<u32, GadgetError>)
        requires
            ct.well_formed(),
        ensures
            r == decrypt_value(*ct, cks.encryption_key()),
    {
        let key = cks.key();
        match ct {
            Ciphertext::Trivial(b) => Ok(if *b { 1 } else { 0 }),
            Ciphertext::BooleanEncrypted(c, e) => {
                if c.mask.len() != key.bits.len() {
                    Err(GadgetError::EncodingDomainMismatch)
                } else {
                    Self::decrypt_boolean(key, c, e)
                }
            },
            Ciphertext::ArithmeticEncrypted(c, e) => {
                if c.mask.len() != key.bits.len() {
                    Err(GadgetError::EncodingDomainMismatch)
                } else {
                    Self::decrypt_arithmetic(key, c, e)
                }
            },
        }
    }
}

} // verus!

verus! {

/// The inputs of a gadget can be summed at dimension `size`.
pub open spec fn inputs_ready(enc_in: Seq<BooleanEncoding>, input: Seq<Ciphertext>, size: int) -> bool {
    forall|i: int| 0 <= i < input.len() ==> input_ready(#[trigger] input[i], enc_in, i, size)
}

/// A lookup table from `enc_inter` to `enc_out` can be built.
pub open spec fn table_ok(enc_inter: BooleanEncoding, enc_out: BooleanEncoding) -> bool {
    let p = enc_inter.modulus();
    let p_out = enc_out.modulus() as int;
    enc_out.canonical() && (p % 2 == 1 || (p == 2 && single(enc_out.false_part()) as int == (p_out - single(
        enc_out.true_part(),
    ) as int) % p_out))
}

impl<K: BootstrapKernel> ServerKey<K> {
    /// Evaluates one gadget with a fresh engine (see `BooleanEngine::exec_gadget_with_extraction`).
    pub fn exec_gadget_with_extraction(&self, enc_in: &Vec<BooleanEncoding>, enc_inter: &BooleanEncoding, enc_out: &BooleanEncoding, input: &Vec<Ciphertext>) -> (r: Result<Ciphertext, GadgetError>)
        requires
            encodings_wf(enc_in@),
            ciphertexts_wf(input@),
            enc_inter.inv(),
            enc_out.inv(),
            self.polynomial_size <= u32::MAX,
        ensures
            r is Ok <==> inputs_ready(enc_in@, input@, self.lwe_dimension as int) && table_ok(*enc_inter, *enc_out),
            r is Ok ==> carries(r->Ok_0, *enc_out) && r->Ok_0.well_formed(),
            r is Ok ==> gadget_result(sample_of(r->Ok_0), self.kernel, self.pbs_order, enc_in@, *enc_inter, *enc_out, input@, self.lwe_dimension as int, self.polynomial_size as int),
            (forall|i: int| 0 <= i < input@.len() ==> !(#[trigger] input@[i] is Trivial)) && (exists|i: int| 0 <= i < input@.len() && #[trigger] input@[i] is ArithmeticEncrypted)
                ==> r == Err::<Ciphertext, GadgetError>(GadgetError::EncodingDomainMismatch),
    {
        let mut engine = BooleanEngine::evaluator();
        engine.exec_gadget_with_extraction(enc_in, enc_inter, enc_out, input, self)
    }

    /// See `BooleanEngine::cast_encoding`.
    pub fn cast_encoding(&self, input: &Ciphertext, coefficient: u32) -> (r: Result<Ciphertext, GadgetError>)
        requires
            input.well_formed(),
        ensures
            input is Trivial ==> r == Err::<Ciphertext, GadgetError>(GadgetError::TrivialCastForbidden),
            input is ArithmeticEncrypted ==> r == Err::<Ciphertext, GadgetError>(GadgetError::EncodingDomainMismatch),
            *input matches Ciphertext::BooleanEncrypted(c, e) ==> {
                let p = e.modulus() as int;
                let f = scaled(e.false_part(), coefficient as int, p);
                let t = scaled(e.true_part(), coefficient as int, p);
                &&& (r is Ok <==> crate::encoding::boolean_valid(f, t, e.modulus()))
                &&& (r is Err ==> r->Err_0 == GadgetError::EncodingInvalid)
                &&& (r matches Ok(Ciphertext::BooleanEncrypted(c2, e2)) && e2.inv() && e2.false_part() == f
                    && e2.true_part() == t && e2.modulus() == e.modulus() && c2.mask@.len() == c.mask@.len()
                    && forall|s: Seq<u32>| s.len() == c.mask@.len() ==> #[trigger] phase(c2, s) == (coefficient * phase(c, s)) % torus_size())
                    || r is Err
            },
    {
        let mut engine = BooleanEngine::evaluator();
        engine.cast_encoding(input, coefficient, self)
    }

    /// See `BooleanEngine::simple_plaintext_sum_encoding`.
    pub fn simple_plaintext_sum_encoding(&self, input: &Ciphertext, constant: u32, modulus: u32) -> (r: Result<Ciphertext, GadgetError>)
        requires
            input.well_formed(),
            modulus > 0,
        ensures
            input is Trivial ==> r == Err::<Ciphertext, GadgetError>(GadgetError::TrivialCastForbidden),
            input is ArithmeticEncrypted ==> r == Err::<Ciphertext, GadgetError>(GadgetError::EncodingDomainMismatch),
            *input matches Ciphertext::BooleanEncrypted(c, e) ==> r matches Ok(Ciphertext::BooleanEncrypted(c2, e2))
                && e2.inv() && e2.false_part() == shifted(e.false_part(), constant as int, e.modulus() as int)
                && e2.true_part() == shifted(e.true_part(), constant as int, e.modulus() as int) && e2.modulus() == e.modulus()
                && c2.mask@.len() == c.mask@.len() && forall|s: Seq<u32>| s.len() == c.mask@.len() ==> #[trigger] phase(c2, s)
                == (phase(c, s) + encode_torus((constant % modulus) as int, modulus as int)) % torus_size(),
    {
        let mut engine = BooleanEngine::evaluator();
        engine.simple_plaintext_sum_encoding(input, constant, modulus, self)
    }

    /// See `BooleanEngine::simple_sum`.
    pub fn simple_sum(&self, input: &Vec<Ciphertext>) -> (r: Result<Ciphertext, GadgetError>)
        requires
            ciphertexts_wf(input@),
        ensures
            r is Ok <==> forall|i: int| 0 <= i < input@.len() ==> (#[trigger] input@[i] matches Ciphertext::BooleanEncrypted(c, _)
                && c.mask@.len() == self.lwe_dimension),
            r matches Err(e) ==> e == GadgetError::EncodingDomainMismatch || e == GadgetError::TrivialCastForbidden,
            r is Ok ==> r->Ok_0.well_formed() && (r->Ok_0 matches Ciphertext::BooleanEncrypted(c, e) && e.false_part() == set![0u32]
                && e.true_part() == set![1u32] && e.modulus() == 2 && c.mask@.len() == self.lwe_dimension
                && forall|s: Seq<u32>| s.len() == self.lwe_dimension ==> #[trigger] phase(c, s) == phase_total(input@, Seq::empty(), s, input@.len() as int) % torus_size()),
    {
        let mut engine = BooleanEngine::evaluator();
        engine.simple_sum(input, self)
    }

    /// See `BooleanEngine::simple_plaintext_sum`.
    pub fn simple_plaintext_sum(&self, input: &Ciphertext, constant: u32, modulus: u32) -> (r: Result<Ciphertext, GadgetError>)
        requires
            input.well_formed(),
            modulus > 0,
        ensures
            input is Trivial ==> r == Err::<Ciphertext, GadgetError>(GadgetError::TrivialCastForbidden),
            input is ArithmeticEncrypted ==> r == Err::<Ciphertext, GadgetError>(GadgetError::EncodingDomainMismatch),
            *input matches Ciphertext::BooleanEncrypted(c, e) ==> r matches Ok(Ciphertext::BooleanEncrypted(c2, e2))
                && e2.inv() && e2.false_part() == e.false_part() && e2.true_part() == e.true_part() && e2.modulus() == e.modulus()
                && c2.mask@.len() == c.mask@.len() && forall|s: Seq<u32>| s.len() == c.mask@.len() ==> #[trigger] phase(c2, s)
                == (phase(c, s) + encode_torus((constant % modulus) as int, modulus as int)) % torus_size(),
    {
        let mut engine = BooleanEngine::evaluator();
        engine.simple_plaintext_sum(input, constant, modulus, self)
    }

    /// The trivial ciphertext of `message`.
    pub fn trivial_encrypt(&self, message: bool) -> (r: Ciphertext)
        ensures
            r == Ciphertext::Trivial(message),
    {
        Ciphertext::Trivial(message)
    }
}

impl ClientKey {
    /// See `BooleanEngine::encrypt_boolean`.
    pub fn encrypt_boolean(&self, message: bool, encoding: &BooleanEncoding) -> (r: Result<Ciphertext, GadgetError>)
        requires
            encoding.inv(),
        ensures
            (r matches Err(GadgetError::EncodingNotCanonical)) <==> !encoding.canonical(),
            r is Ok ==> encoding.canonical(),
            r is Err ==> r->Err_0 == GadgetError::EncodingNotCanonical || r->Err_0 == GadgetError::EntropyUnavailable,
            r is Ok ==> carries(r->Ok_0, *encoding) && r->Ok_0.well_formed()
                && sample_of(r->Ok_0).mask@.len() == self.encryption_key().len()
                && noisy_encryption_of(
                    sample_of(r->Ok_0),
                    self.encryption_key(),
                    encode_torus(single(encoding.part(message)) as int, encoding.modulus() as int),
                    self.noise_bound(),
                ),
    {
        if !encoding.is_canonical() {
            return Err(GadgetError::EncodingNotCanonical);
        }
        let mut engine = BooleanEngine::new()?;
        engine.encrypt_boolean(message, encoding, self)
    }

    /// See `BooleanEngine::encrypt_arithmetic`.
    pub fn encrypt_arithmetic(&self, message: u32, encoding: &ArithmeticEncoding) -> (r: Result<Ciphertext, GadgetError>)
        requires
            encoding.inv(),
            (message as nat) < encoding.origin(),
        ensures
            (r matches Err(GadgetError::EncodingNotCanonical)) <==> !encoding.canonical(),
            r is Ok ==> encoding.canonical(),
            r is Err ==> r->Err_0 == GadgetError::EncodingNotCanonical || r->Err_0 == GadgetError::EntropyUnavailable,
            r is Ok ==> r->Ok_0.well_formed() && (r->Ok_0 matches Ciphertext::ArithmeticEncrypted(ct, e)
                && e.parts_view() == encoding.parts_view() && e.origin() == encoding.origin() && e.modulus()
                == encoding.modulus() && ct.mask@.len() == self.encryption_key().len() && noisy_encryption_of(
                ct,
                self.encryption_key(),
                encode_torus(single(encoding.parts_view()[message as int]) as int, encoding.modulus() as int),
                self.noise_bound(),
            )),
    {
        if !encoding.is_canonical() {
            return Err(GadgetError::EncodingNotCanonical);
        }
        let mut engine = BooleanEngine::new()?;
        engine.encrypt_arithmetic(message, encoding, self)
    }

    /// See `BooleanEngine::decrypt`.
    pub fn decrypt(&self, ct: &Ciphertext) -> (r: Result<u32, GadgetError>)
        requires
            ct.well_formed(),
        ensures
            r == decrypt_value(*ct, self.encryption_key()),
    {
        let mut engine = BooleanEngine::evaluator();
        engine.decrypt(ct, self)
    }
}

} // verus!
