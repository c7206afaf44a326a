//! Parameters, client keys and the randomness that encryption draws.
use vstd::prelude::*;
use crate::lwe::{LweCiphertext, LweSecretKey, phase, congruent, lemma_phase_linear, noisy_encryption_of, within};
use crate::torus::torus_size;
use vstd::arithmetic::div_mod::*;
use rand::rngs::StdRng;

verus! {

#[verifier::external_type_specification]
#[verifier::external_body]
pub struct ExStdRng(rand::rngs::StdRng);

/// Relies on rand's `SeedableRng::seed_from_u64` for `StdRng`: a generator seeded from `seed`.
#[verifier::external_body]
pub(crate) fn seeded_generator(seed: u64) -> StdRng {
    <StdRng as rand::SeedableRng>::seed_from_u64(seed)
}

/// Relies on rand's `SeedableRng::from_rng` for `StdRng` with `OsRng`: a generator seeded by the
/// operating system, or `None` when the operating system gives no randomness.
#[verifier::external_body]
pub(crate) fn entropy_generator() -> Option<StdRng> {
    <StdRng as rand::SeedableRng>::from_rng(rand::rngs::OsRng).ok()
}

/// Relies on rand's `RngCore::next_u32` for `StdRng`: the next value of the generator. Nothing
/// is promised of it.
#[verifier::external_body]
fn next_u32(rng: &mut StdRng) -> u32 {
    rand::RngCore::next_u32(rng)
}

/// Relies on rand's `RngCore::next_u64` for `StdRng`: the next value of the generator. Nothing
/// is promised of it.
#[verifier::external_body]
pub(crate) fn next_u64(rng: &mut StdRng) -> u64 {
    rand::RngCore::next_u64(rng)
}

/// Which LWE key encrypts: the large one (the GLWE key read as an LWE key), or the small one.
#[derive(Clone, Copy, Debug, PartialEq, Eq, Structural)]
pub enum EncryptionKeyChoice {
    Big,
    Small,
}

/// The order of the two steps of a bootstrap.
#[derive(Clone, Copy, Debug, PartialEq, Eq, Structural)]
pub enum PbsOrder {
    /// Keyswitch to the small key first, then bootstrap (ciphertexts live under the big key).
    KeyswitchBootstrap,
    /// Bootstrap first, then keyswitch back (ciphertexts live under the small key).
    BootstrapKeyswitch,
}

/// The cryptographic parameters. Noise is given as a bound on the absolute error, in torus
/// units (`1 / 2^32`).
#[derive(Clone, Copy, Debug, PartialEq, Eq, Structural)]
pub struct BooleanParameters {
    pub lwe_dimension: usize,
    pub glwe_dimension: usize,
    pub polynomial_size: usize,
    pub lwe_noise_bound: u32,
    pub glwe_noise_bound: u32,
    pub pbs_base_log: usize,
    pub pbs_level: usize,
    pub ks_base_log: usize,
    pub ks_level: usize,
    pub encryption_key_choice: EncryptionKeyChoice,
}

impl BooleanParameters {
    /// Gathers a parameter set.
    pub fn new(
        lwe_dimension: usize,
        glwe_dimension: usize,
        polynomial_size: usize,
        lwe_noise_bound: u32,
        glwe_noise_bound: u32,
        pbs_base_log: usize,
        pbs_level: usize,
        ks_base_log: usize,
        ks_level: usize,
        encryption_key_choice: EncryptionKeyChoice,
    ) -> (r: Self)
        ensures
            r == (BooleanParameters {
                lwe_dimension,
                glwe_dimension,
                polynomial_size,
                lwe_noise_bound,
                glwe_noise_bound,
                pbs_base_log,
                pbs_level,
                ks_base_log,
                ks_level,
                encryption_key_choice,
            }),
    {
        BooleanParameters {
            lwe_dimension,
            glwe_dimension,
            polynomial_size,
            lwe_noise_bound,
            glwe_noise_bound,
            pbs_base_log,
            pbs_level,
            ks_base_log,
            ks_level,
            encryption_key_choice,
        }
    }

    /// The order of bootstrap steps that the key choice induces.
    pub open spec fn pbs_order_of(self) -> PbsOrder {
        match self.encryption_key_choice {
            EncryptionKeyChoice::Big => PbsOrder::KeyswitchBootstrap,
            EncryptionKeyChoice::Small => PbsOrder::BootstrapKeyswitch,
        }
    }

    /// The dimension of the large LWE key, `glwe_dimension * polynomial_size`.
    pub open spec fn big_dimension(self) -> int {
        self.glwe_dimension * self.polynomial_size
    }

    /// The order of bootstrap steps that the key choice induces.
    pub fn pbs_order(&self) -> (r: PbsOrder)
        ensures
            r == self.pbs_order_of(),
    {
        match self.encryption_key_choice {
            EncryptionKeyChoice::Big => PbsOrder::KeyswitchBootstrap,
            EncryptionKeyChoice::Small => PbsOrder::BootstrapKeyswitch,
        }
    }
}

/// The secret keys and the parameters they were made with.
pub struct ClientKey {
    pub lwe_secret_key: LweSecretKey,
    pub glwe_secret_key: LweSecretKey,
    pub parameters: BooleanParameters,
}

impl ClientKey {
    /// The key that encrypts and decrypts, by the parameters' key choice.
    pub open spec fn encryption_key(&self) -> Seq<u32> {
        match self.parameters.encryption_key_choice {
            EncryptionKeyChoice::Big => self.glwe_secret_key.bits@,
            EncryptionKeyChoice::Small => self.lwe_secret_key.bits@,
        }
    }

    /// The noise bound of fresh encryptions, by the parameters' key choice.
    pub open spec fn noise_bound(&self) -> int {
        match self.parameters.encryption_key_choice {
            EncryptionKeyChoice::Big => self.parameters.glwe_noise_bound as int,
            EncryptionKeyChoice::Small => self.parameters.lwe_noise_bound as int,
        }
    }

    /// The keys have the dimensions of the parameters.
    pub open spec fn wf(&self) -> bool {
        &&& self.lwe_secret_key.bits@.len() == self.parameters.lwe_dimension
        &&& self.glwe_secret_key.bits@.len() == self.parameters.big_dimension()
    }

    /// The key that encrypts and decrypts.
    pub fn key(&self) -> (r: &LweSecretKey)
        ensures
            r.bits@ == self.encryption_key(),
    {
        match self.parameters.encryption_key_choice {
            EncryptionKeyChoice::Big => &self.glwe_secret_key,
            EncryptionKeyChoice::Small => &self.lwe_secret_key,
        }
    }

    /// The noise bound of fresh encryptions.
    pub fn noise(&self) -> (r: u32)
        ensures
            r as int == self.noise_bound(),
    {
        match self.parameters.encryption_key_choice {
            EncryptionKeyChoice::Big => self.parameters.glwe_noise_bound,
            EncryptionKeyChoice::Small => self.parameters.lwe_noise_bound,
        }
    }
}

/// `n` random bits.
pub fn random_bits(n: usize, rng: &mut StdRng) -> (r: Vec<u32>)
    ensures
        r@.len() == n,
        forall|i: int| 0 <= i < n ==> #[trigger] r@[i] < 2,
{
    let mut v: Vec<u32> = Vec::new();
    let mut i: usize = 0;
    while i < n
        invariant
            i <= n,
            v@.len() == i,
            forall|j: int| 0 <= j < i ==> #[trigger] v@[j] < 2,
        decreases n - i,
    {
        let x: u32 = next_u32(rng);
        v.push(x % 2);
        i = i + 1;
    }
    v
}

/// `n` random torus values.
fn random_mask(n: usize, rng: &mut StdRng) -> (r: Vec<u32>)
    ensures
        r@.len() == n,
{
    let mut v: Vec<u32> = Vec::new();
    let mut i: usize = 0;
    while i < n
        invariant
            i <= n,
            v@.len() == i,
        decreases n - i,
    {
        v.push(next_u32(rng));
        i = i + 1;
    }
    v
}

/// A random error in `[-bound, bound]`, as a torus value, with the error itself.
fn random_error(bound: u32, rng: &mut StdRng) -> (r: (u32, Ghost<int>))
    ensures
        -bound <= r.1@ <= bound,
        r.0 as int == r.1@ % torus_size(),
{
    let width: u64 = 2 * (bound as u64) + 1;
    let x: u32 = next_u32(rng);
    let k: u64 = (x as u64) % width;
    let e = Ghost(k as int - bound as int);
    // (k - bound) mod 2^32
    let v: u64 = (k + 0x1_0000_0000u64 - bound as u64) % 0x1_0000_0000u64;
    proof {
        lemma_mod_multiples_vanish(1, k as int - bound as int, torus_size());
    }
    (v as u32, e)
}

/// Encrypts the torus value `plaintext` under `key` with an error of magnitude at most `bound`.
pub fn encrypt_lwe(key: &LweSecretKey, plaintext: u32, bound: u32, rng: &mut StdRng) -> (r: LweCiphertext)
    ensures
        r.mask@.len() == key.bits@.len(),
        noisy_encryption_of(r, key.bits@, plaintext as int, bound as int),
{
    let mask = random_mask(key.bits.len(), rng);
    let zero = LweCiphertext { mask, body: 0 };
    let ph = zero.decrypt_phase(key);
    let (err, e) = random_error(bound, rng);
    // body = plaintext + e - phase(zero)
    let body: u32 = ((plaintext as u64 + err as u64 + (0x1_0000_0000u64 - ph as u64)) % 0x1_0000_0000u64) as u32;
    let r = LweCiphertext { mask: zero.mask, body };
    proof {
        let t = torus_size();
        let s = key.bits@;
        assert forall|i: int| 0 <= i < s.len() implies congruent(#[trigger] r.mask@[i] as int, 1 * zero.mask@[i] + 0 * zero.mask@[i]) by {
            lemma_mod_multiples_vanish(0, 0, t);
        }
        lemma_mod_multiples_vanish(0, 0, t);
        assert(congruent(r.body as int, 1 * zero.body + 0 * zero.body + body)) by {
            lemma_mod_multiples_vanish(0, 0, t);
        }
        lemma_phase_linear(zero, zero, r, s, 1, 0, body as int);
        assert(phase(r, s) == (ph + body) % t);
        // body == (plaintext + err + t - ph) % t, and err == e % t
        lemma_add_mod_noop(ph as int, plaintext + err + t - ph, t);
        lemma_mod_twice(ph as int, t);
        lemma_mod_multiples_vanish(1, plaintext + err, t);
        assert(ph + (plaintext + err + t - ph) == t * 1 + (plaintext + err));
        lemma_add_mod_noop(plaintext as int, e@, t);
        lemma_mod_twice(plaintext as int, t);
        lemma_small_mod(plaintext as nat, t as nat);
        lemma_add_mod_noop(plaintext as int, err as int, t);
        lemma_small_mod(err as nat, t as nat);
        lemma_mod_twice(e@, t);
        assert(within(e@, bound as int));
    }
    r
}

} // verus!
