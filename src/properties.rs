//! Properties that hold of every encoding, encryption and linear operation.
use vstd::prelude::*;
use vstd::arithmetic::div_mod::*;
use crate::accumulator::{single, accumulator_value};
use crate::ciphertext::Ciphertext;
use crate::encoding::{ArithmeticEncoding, BooleanEncoding, boolean_valid, arithmetic_valid, opposite, scaled};
use crate::engine::{decrypt_value, phase_total, contribution};
use crate::error::GadgetError;
use crate::lwe::{LweCiphertext, phase, congruent, within, noisy_encryption_of};
use crate::torus::{torus_size, encode_torus, decode_torus, lemma_decode};

verus! {

/// Every Boolean encoding has disjoint partitions inside `Z/p`; when `p` is even no residue
/// shares its partition with its opposite `x + p/2`.
pub proof fn lemma_boolean_encoding_valid(e: BooleanEncoding)
    requires
        e.inv(),
    ensures
        e.false_part().disjoint(e.true_part()),
        forall|x: u32| e.false_part().contains(x) || e.true_part().contains(x) ==> (x as nat) < e.modulus(),
        e.modulus() % 2 == 0 ==> forall|x: u32, b: bool| #[trigger] e.part(b).contains(x) ==> !e.part(b).contains(
            opposite(x as int, e.modulus() as int) as u32,
        ),
{
    e.lemma_inv();
}

/// Every arithmetic encoding has pairwise disjoint parts; when `p` is even the opposite of a
/// residue of part `i` lies in no part but part `(o - i) mod o`.
pub proof fn lemma_arithmetic_encoding_valid(e: ArithmeticEncoding)
    requires
        e.inv(),
    ensures
        arithmetic_valid(e.parts_view(), e.origin(), e.modulus()),
{
    e.lemma_inv();
}

/// The partitions of a canonical Boolean encoding are singletons.
pub proof fn lemma_canonical_singletons(e: BooleanEncoding)
    requires
        e.inv(),
        e.canonical(),
    ensures
        e.false_part() == set![single(e.false_part())],
        e.true_part() == set![single(e.true_part())],
{
    e.lemma_inv();
    lemma_singleton(e.false_part());
    lemma_singleton(e.true_part());
}

proof fn lemma_singleton(s: Set<u32>)
    requires
        s.finite(),
        s.len() == 1,
    ensures
        s == set![single(s)],
{
    let a = s.choose();
    assert(s.contains(a));
    assert(s.remove(a).len() == 0);
    assert(s.remove(a) =~= Set::empty());
    assert(s =~= set![a]);
    crate::accumulator::lemma_single(s, a);
}

/// The accumulator realises the change of encoding: for an odd intermediate modulus `p`, a
/// residue `x` labelled `b` finds at position `2x` (when `x < (p + 1) / 2`) the output residue of
/// `b`, and otherwise at position `2x - p` its negation, which the negacyclic wrap of the
/// bootstrap turns back into the output residue of `b`.
pub proof fn lemma_accumulator_realises_encoding(enc_in: BooleanEncoding, enc_out: BooleanEncoding, x: u32, b: bool)
    requires
        enc_in.inv(),
        enc_out.inv(),
        enc_out.canonical(),
        enc_in.modulus() % 2 == 1,
        enc_in.part(b).contains(x),
    ensures
        ({
            let p = enc_in.modulus() as int;
            let p_out = enc_out.modulus() as int;
            let d = single(enc_out.part(b)) as int;
            &&& (x as int) < (p + 1) / 2 ==> accumulator_value(enc_in, enc_out, 2 * x) == d
            &&& (x as int) >= (p + 1) / 2 ==> accumulator_value(enc_in, enc_out, 2 * x - p) == (p_out - d) % p_out
        }),
{
    enc_in.lemma_inv();
    let p = enc_in.modulus() as int;
    assert(!enc_in.part(!b).contains(x));
    if (x as int) < (p + 1) / 2 {
        assert((2 * x) / 2 == x as int && (2 * x) % 2 == 0);
    } else {
        let idx = 2 * x - p;
        assert(idx % 2 == 1 && idx / 2 == x - (p + 1) / 2);
        assert((p + 1) / 2 + idx / 2 == x as int);
    }
}

/// A trivial ciphertext decrypts to its bit, under every key.
pub proof fn lemma_trivial_decrypt(b: bool, s: Seq<u32>)
    ensures
        decrypt_value(Ciphertext::Trivial(b), s) == Ok::<u32, GadgetError>(if b { 1 } else { 0 }),
{
}

/// A sample whose phase is the encoding of the residue of `b` plus an error of magnitude at
/// most `bound` decrypts to `b`, as long as `bound * p + p <= 2^31`. This is what
/// `encrypt_boolean` produces with the client key's noise bound.
pub proof fn lemma_decrypt_encrypted_boolean(c: LweCiphertext, e: BooleanEncoding, s: Seq<u32>, b: bool, bound: int)
    requires
        e.inv(),
        e.canonical(),
        c.mask@.len() == s.len(),
        bound >= 0,
        noisy_encryption_of(c, s, encode_torus(single(e.part(b)) as int, e.modulus() as int), bound),
        bound * e.modulus() + e.modulus() <= torus_size() / 2,
    ensures
        decrypt_value(Ciphertext::BooleanEncrypted(c, e), s) == Ok::<u32, GadgetError>(if b { 1 } else { 0 }),
{
    let p = e.modulus() as int;
    e.lemma_inv();
    lemma_canonical_singletons(e);
    let d = single(e.part(b));
    assert(e.part(b).contains(d));
    let err = choose|err: int| #[trigger] within(err, bound) && phase(c, s) == (encode_torus(d as int, p) + err) % torus_size();
    let aerr = if err >= 0 { err } else { -err };
    assert(aerr * p <= bound * p) by (nonlinear_arith)
        requires
            0 <= aerr <= bound,
            p > 0,
    ;
    crate::torus::lemma_decode_encode(d as int, err, p);
    assert(decode_torus(phase(c, s), p) == d);
    assert(!e.part(!b).contains(d));
}

/// Multiplying a sample that carries the residue of `b` by `k` (and its encoding by `k`)
/// keeps the decryption `b`, as long as `k * (bound * p + p) <= 2^31` and the multiplied
/// encoding is valid.
pub proof fn lemma_cast_preserves_decryption(
    c: LweCiphertext,
    e: BooleanEncoding,
    c2: LweCiphertext,
    e2: BooleanEncoding,
    k: u32,
    s: Seq<u32>,
    b: bool,
    bound: int,
)
    requires
        e.inv(),
        e.canonical(),
        e2.inv(),
        e2.modulus() == e.modulus(),
        e2.false_part() == scaled(e.false_part(), k as int, e.modulus() as int),
        e2.true_part() == scaled(e.true_part(), k as int, e.modulus() as int),
        c.mask@.len() == s.len(),
        c2.mask@.len() == s.len(),
        phase(c2, s) == (k * phase(c, s)) % torus_size(),
        bound >= 0,
        noisy_encryption_of(c, s, encode_torus(single(e.part(b)) as int, e.modulus() as int), bound),
        k * (bound * e.modulus() + e.modulus()) <= torus_size() / 2,
    ensures
        decrypt_value(Ciphertext::BooleanEncrypted(c2, e2), s) == Ok::<u32, GadgetError>(if b { 1 } else { 0 }),
{
    let t = torus_size();
    let p = e.modulus() as int;
    e.lemma_inv();
    e2.lemma_inv();
    lemma_canonical_singletons(e);
    let d = single(e.part(b));
    assert(e.part(b).contains(d));
    let err = choose|err: int| #[trigger] within(err, bound) && phase(c, s) == (encode_torus(d as int, p) + err) % t;
    let enc = encode_torus(d as int, p);
    let x = enc + err;
    // phase(c2) == (k * x) mod 2^32
    lemma_mul_mod_noop_right(k as int, x, t);
    assert(phase(c2, s) == (k * x) % t);
    // distance of k * x from 2^32 * k * d / p
    lemma_fundamental_div_mod(t * d, p);
    lemma_mod_pos_bound(t * d, p);
    let rho = (t * d) % p;
    assert(enc * p == t * d - rho) by (nonlinear_arith)
        requires
            t * d == p * enc + rho,
            enc == (t * d) / p,
    ;
    let aerr = if err >= 0 { err } else { -err };
    assert(aerr * p <= bound * p) by (nonlinear_arith)
        requires
            0 <= aerr <= bound,
            p > 0,
    ;
    let dev = err * p - rho;
    assert(-(bound * p + p) < dev < bound * p + p) by (nonlinear_arith)
        requires
            dev == err * p - rho,
            0 <= rho < p,
            aerr * p <= bound * p,
            aerr == if err >= 0 { err } else { -err },
            p > 0,
    ;
    assert((k * x) * p - t * (k * d) == k * dev) by (nonlinear_arith)
        requires
            x == enc + err,
            enc * p == t * d - rho,
            dev == err * p - rho,
    ;
    let big = bound * p + p;
    if k > 0 {
        assert(k * dev < k * big) by (nonlinear_arith)
            requires
                dev < big,
                k > 0,
        ;
        assert(k * (-big) < k * dev) by (nonlinear_arith)
            requires
                -big < dev,
                k > 0,
        ;
        assert(k * (-big) == -(k * big)) by (nonlinear_arith);
    } else {
        assert(k * dev == 0) by (nonlinear_arith)
            requires
                k == 0,
        ;
    }
    assert(k * big <= t / 2);
    assert(-(t / 2) < k * dev < t / 2);
    assert((k * x) * p - t * (k * d) == k * dev);
    lemma_decode(k * x, k * d, p);
    let z = (k * d) % p;
    assert(decode_torus(phase(c2, s), p) == z);
    lemma_mod_pos_bound(k * d, p);
    assert(e2.part(b).contains(z as u32)) by {
        assert((d * k) % p == z) by {
            assert(d * k == k * d) by (nonlinear_arith);
        }
    }
    assert(!e2.part(!b).contains(z as u32));
}

/// The number of `true` among the first `n` bits.
pub open spec fn count_true(bits: Seq<bool>, n: int) -> int
    decreases n,
{
    if n <= 0 {
        0
    } else {
        count_true(bits, n - 1) + if bits[n - 1] { 1int } else { 0 }
    }
}

/// The sum of the first `n` errors.
pub open spec fn error_sum(errors: Seq<int>, n: int) -> int
    decreases n,
{
    if n <= 0 {
        0
    } else {
        error_sum(errors, n - 1) + errors[n - 1]
    }
}

/// The sum of the magnitudes of the first `n` errors.
pub open spec fn error_magnitude(errors: Seq<int>, n: int) -> int
    decreases n,
{
    if n <= 0 {
        0
    } else {
        error_magnitude(errors, n - 1) + if errors[n - 1] >= 0 { errors[n - 1] } else { -errors[n - 1] }
    }
}

/// Input `i` is a sample under the parity encoding carrying `bits[i]` with error `errors[i]`.
pub open spec fn parity_input(c: Ciphertext, s: Seq<u32>, bit: bool, error: int) -> bool {
    match c {
        Ciphertext::BooleanEncrypted(ct, _) => ct.mask@.len() == s.len() && phase(ct, s) == (encode_torus(
            if bit { 1int } else { 0 },
            2,
        ) + error) % torus_size(),
        _ => false,
    }
}

proof fn lemma_parity_total(inputs: Seq<Ciphertext>, s: Seq<u32>, bits: Seq<bool>, errors: Seq<int>, n: int)
    requires
        0 <= n <= inputs.len(),
        inputs.len() == bits.len(),
        inputs.len() == errors.len(),
        forall|i: int| 0 <= i < inputs.len() ==> parity_input(#[trigger] inputs[i], s, bits[i], errors[i]),
    ensures
        congruent(phase_total(inputs, Seq::empty(), s, n), 0x8000_0000 * count_true(bits, n) + error_sum(errors, n)),
        -error_magnitude(errors, n) <= error_sum(errors, n) <= error_magnitude(errors, n),
    decreases n,
{
    let t = torus_size();
    if n == 0 {
        lemma_small_mod(0, t as nat);
    } else {
        lemma_parity_total(inputs, s, bits, errors, n - 1);
        let i = n - 1;
        assert(parity_input(inputs[i], s, bits[i], errors[i]));
        let m: int = if bits[i] { 1 } else { 0 };
        assert(encode_torus(m, 2) == 0x8000_0000 * m);
        let c = contribution(inputs[i], Seq::empty(), i, s);
        // c == (2^31 m + e) mod 2^32, congruent to 2^31 m + e
        lemma_fundamental_div_mod(0x8000_0000 * m + errors[i], t);
        let q = (0x8000_0000 * m + errors[i]) / t;
        lemma_mod_multiples_vanish(-q, 0, t);
        assert(c - (0x8000_0000 * m + errors[i]) == t * (-q) + 0) by (nonlinear_arith)
            requires
                0x8000_0000 * m + errors[i] == t * q + c,
        ;
        crate::lwe::lemma_congruent_combine_public(
            phase_total(inputs, Seq::empty(), s, n - 1),
            0x8000_0000 * count_true(bits, n - 1) + error_sum(errors, n - 1),
            c,
            0x8000_0000 * m + errors[i],
        );
    }
}

/// `simple_sum` computes XOR: a sample whose phase is the sum of the phases of parity-encoded
/// inputs decrypts, under the parity encoding, to the parity of their bits, as long as the
/// errors add up to less than `2^30` in magnitude.
pub proof fn lemma_parity_sum(inputs: Seq<Ciphertext>, s: Seq<u32>, bits: Seq<bool>, errors: Seq<int>, r: LweCiphertext, e: BooleanEncoding)
    requires
        inputs.len() == bits.len(),
        inputs.len() == errors.len(),
        forall|i: int| 0 <= i < inputs.len() ==> parity_input(#[trigger] inputs[i], s, bits[i], errors[i]),
        2 * error_magnitude(errors, inputs.len() as int) < torus_size() / 2,
        r.mask@.len() == s.len(),
        phase(r, s) == phase_total(inputs, Seq::empty(), s, inputs.len() as int) % torus_size(),
        e.false_part() == set![0u32],
        e.true_part() == set![1u32],
        e.modulus() == 2,
    ensures
        decrypt_value(Ciphertext::BooleanEncrypted(r, e), s) == Ok::<u32, GadgetError>(
            (count_true(bits, inputs.len() as int) % 2) as u32,
        ),
{
    let t = torus_size();
    let n = inputs.len() as int;
    lemma_parity_total(inputs, s, bits, errors, n);
    let total = phase_total(inputs, Seq::empty(), s, n);
    let x = 0x8000_0000 * count_true(bits, n) + error_sum(errors, n);
    // total mod 2^32 == x mod 2^32
    lemma_mod_equivalence(total, x, t);
    assert(x * 2 - t * count_true(bits, n) == 2 * error_sum(errors, n));
    lemma_decode(x, count_true(bits, n), 2);
    let z = count_true(bits, n) % 2;
    assert(decode_torus(phase(r, s), 2) == z);
    lemma_mod_bound(count_true(bits, n), 2);
    if z == 1 {
        assert(e.true_part().contains(1u32));
    } else {
        assert(e.false_part().contains(0u32));
        assert(!e.true_part().contains(0u32));
    }
}

} // verus!
