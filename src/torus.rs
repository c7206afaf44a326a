//! Plaintexts of `Z/p` on the torus `Z/2^32`.
use vstd::prelude::*;
use vstd::arithmetic::div_mod::*;

verus! {

/// The size of the torus, `2^32`.
pub open spec fn torus_size() -> int {
    0x1_0000_0000
}

/// `floor(2^32 * v / p)`: the torus value that carries residue `v` of `Z/p`.
pub open spec fn encode_torus(v: int, p: int) -> int {
    (torus_size() * v) / p
}

/// `round(t * p / 2^32) mod p`: the residue of `Z/p` nearest to torus value `t`.
pub open spec fn decode_torus(t: int, p: int) -> int {
    ((t * p + torus_size() / 2) / torus_size()) % p
}

/// The torus value that carries residue `v` of `Z/p`.
pub fn encode_plaintext(v: u32, p: u32) -> (r: u32)
    requires
        p > 0,
        v < p,
    ensures
        r as int == encode_torus(v as int, p as int),
        (r as int) * p <= torus_size() * v,
        torus_size() * v - (r as int) * p < p,
{
    let num: u64 = (v as u64) * 0x1_0000_0000u64;
    proof {
        assert(num < torus_size() * p) by (nonlinear_arith)
            requires
                num == v * torus_size(),
                v < p,
        ;
        lemma_fundamental_div_mod(num as int, p as int);
        lemma_mod_pos_bound(num as int, p as int);
        lemma_div_is_ordered(num as int, torus_size() * p, p as int);
        lemma_div_multiples_vanish(torus_size(), p as int);
        assert(torus_size() * p == p * torus_size()) by (nonlinear_arith);
        let ni = num as int;
        let pi = p as int;
        assert(ni / pi < torus_size()) by (nonlinear_arith)
            requires
                ni == pi * (ni / pi) + ni % pi,
                ni % pi >= 0,
                ni < torus_size() * pi,
                pi > 0,
        ;
        assert((ni / pi) * pi <= ni && ni - (ni / pi) * pi < pi) by (nonlinear_arith)
            requires
                ni == pi * (ni / pi) + ni % pi,
                0 <= ni % pi < pi,
        ;
        assert(ni == torus_size() * v) by (nonlinear_arith)
            requires
                ni == v * torus_size(),
        ;
    }
    (num / (p as u64)) as u32
}

/// The residue of `Z/p` nearest to torus value `t`.
pub fn decode_plaintext(t: u32, p: u32) -> (r: u32)
    requires
        p > 0,
    ensures
        r as int == decode_torus(t as int, p as int),
        (r as int) < p,
{
    proof {
        assert((t as u64) * (p as u64) <= 0xffff_ffffu64 * 0xffff_ffffu64) by (nonlinear_arith)
            requires
                t <= 0xffff_ffffu64,
                p <= 0xffff_ffffu64,
        ;
    }
    let tp: u64 = (t as u64) * (p as u64);
    let rounded: u64 = (tp + 0x8000_0000u64) / 0x1_0000_0000u64;
    ((rounded % (p as u64)) as u32)
}

/// Rounding recovers `m mod p` from any torus value whose representative `x` lies within
/// `2^31 / p` of `2^32 * m / p`, that is, `|x * p - 2^32 * m| < 2^31`.
pub proof fn lemma_decode(x: int, m: int, p: int)
    requires
        p > 0,
        -(torus_size() / 2) < x * p - torus_size() * m < torus_size() / 2,
    ensures
        decode_torus(x % torus_size(), p) == m % p,
{
    let t = torus_size();
    let v = x % t;
    let j = x / t;
    lemma_fundamental_div_mod(x, t);
    let q = m - j * p;
    let r = x * p - t * m + t / 2;
    assert(v * p + t / 2 == q * t + r) by (nonlinear_arith)
        requires
            x == t * j + v,
            q == m - j * p,
            r == x * p - t * m + t / 2,
    ;
    lemma_fundamental_div_mod_converse(v * p + t / 2, t, q, r);
    lemma_mod_multiples_vanish(-j, m, p);
    assert(p * (-j) + m == q) by (nonlinear_arith)
        requires
            q == m - j * p,
    ;
}

/// An encoded residue `v < p` shifted by an error `e` decodes to `v` as long as
/// `|e| * p + p <= 2^31`.
pub proof fn lemma_decode_encode(v: int, e: int, p: int)
    requires
        p > 0,
        0 <= v < p,
        (if e >= 0 { e } else { -e }) * p + p <= torus_size() / 2,
    ensures
        decode_torus((encode_torus(v, p) + e) % torus_size(), p) == v,
{
    let t = torus_size();
    let enc = encode_torus(v, p);
    lemma_fundamental_div_mod(t * v, p);
    lemma_mod_pos_bound(t * v, p);
    let rho = (t * v) % p;
    assert(enc * p == t * v - rho) by (nonlinear_arith)
        requires
            t * v == p * enc + rho,
    ;
    assert((enc + e) * p == enc * p + e * p) by (nonlinear_arith);
    if e >= 0 {
        assert(e * p >= 0) by (nonlinear_arith)
            requires
                e >= 0,
                p > 0,
        ;
    } else {
        assert(e * p == -((-e) * p)) by (nonlinear_arith);
        assert((-e) * p >= 0) by (nonlinear_arith)
            requires
                e < 0,
                p > 0,
        ;
    }
    lemma_decode(enc + e, v, p);
    lemma_small_mod(v as nat, p as nat);
}

} // verus!
