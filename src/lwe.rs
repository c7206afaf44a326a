//! LWE samples over the torus `Z/2^32` and their linear operations.
use vstd::prelude::*;
use vstd::arithmetic::div_mod::*;
use crate::torus::torus_size;

verus! {

/// `sum_{i < n} a[i] * s[i]` over the integers.
pub open spec fn dot(a: Seq<u32>, s: Seq<u32>, n: int) -> int
    decreases n,
{
    if n <= 0 {
        0
    } else {
        dot(a, s, n - 1) + a[n - 1] * s[n - 1]
    }
}

/// `x` and `y` agree modulo `2^32`.
pub open spec fn congruent(x: int, y: int) -> bool {
    (x - y) % torus_size() == 0
}

/// An LWE secret key: a vector of bits.
pub struct LweSecretKey {
    pub bits: Vec<u32>,
}

/// An LWE sample `(mask, body)`; its phase under key `s` is `body - <mask, s> mod 2^32`.
#[derive(Clone, Debug)]
pub struct LweCiphertext {
    pub mask: Vec<u32>,
    pub body: u32,
}

/// The phase of `c` under key `s`: `body - <mask, s> mod 2^32`.
pub open spec fn phase(c: LweCiphertext, s: Seq<u32>) -> int {
    (c.body - dot(c.mask@, s, c.mask@.len() as int)) % torus_size()
}

/// `|e| <= bound`.
pub open spec fn within(e: int, bound: int) -> bool {
    -bound <= e <= bound
}

/// The phase of `c` under `s` is the torus value `plaintext` shifted by an error of magnitude at
/// most `bound`.
pub open spec fn noisy_encryption_of(c: LweCiphertext, s: Seq<u32>, plaintext: int, bound: int) -> bool {
    exists|e: int| #[trigger] within(e, bound) && phase(c, s) == (plaintext + e) % torus_size()
}

/// The phase of the sample `(mask, body)` under key `s`.
pub open spec fn phase_of(input: (Seq<u32>, u32), s: Seq<u32>) -> int {
    (input.1 - dot(input.0, s, input.0.len() as int)) % torus_size()
}

/// `c` and its key agree in dimension and the key is binary.
pub open spec fn fits(c: LweCiphertext, s: Seq<u32>) -> bool {
    c.mask@.len() == s.len()
}

/// Congruence is preserved by integer linear combinations.
proof fn lemma_congruent_combine(u1: int, v1: int, u2: int, v2: int, m: int)
    requires
        congruent(u1, v1),
        congruent(u2, v2),
    ensures
        congruent(u1 + m * u2, v1 + m * v2),
{
    let t = torus_size();
    lemma_fundamental_div_mod(u1 - v1, t);
    lemma_fundamental_div_mod(u2 - v2, t);
    let q1 = (u1 - v1) / t;
    let q2 = (u2 - v2) / t;
    assert((u1 + m * u2) - (v1 + m * v2) == t * (q1 + m * q2) + 0) by (nonlinear_arith)
        requires
            u1 - v1 == t * q1,
            u2 - v2 == t * q2,
    ;
    lemma_mod_multiples_vanish(q1 + m * q2, 0, t);
}

/// Sums of congruent values are congruent.
pub proof fn lemma_congruent_combine_public(u1: int, v1: int, u2: int, v2: int)
    requires
        congruent(u1, v1),
        congruent(u2, v2),
    ensures
        congruent(u1 + u2, v1 + v2),
{
    lemma_congruent_combine(u1, v1, u2, v2, 1);
}

/// The dot product is linear modulo `2^32`: if every `c[i]` agrees with `x * a[i] + y * b[i]`
/// then `<c, s>` agrees with `x * <a, s> + y * <b, s>`.
pub proof fn lemma_dot_linear(a: Seq<u32>, b: Seq<u32>, c: Seq<u32>, s: Seq<u32>, x: int, y: int, n: int)
    requires
        0 <= n <= a.len(),
        n <= b.len(),
        n <= c.len(),
        n <= s.len(),
        forall|i: int| 0 <= i < n ==> congruent(#[trigger] c[i] as int, x * a[i] + y * b[i]),
    ensures
        congruent(dot(c, s, n), x * dot(a, s, n) + y * dot(b, s, n)),
    decreases n,
{
    if n == 0 {
        assert(x * 0 + y * 0 == 0) by (nonlinear_arith);
    } else {
        lemma_dot_linear(a, b, c, s, x, y, n - 1);
        let i = n - 1;
        let t = torus_size();
        assert(congruent(c[i] as int, x * a[i] + y * b[i]));
        lemma_fundamental_div_mod(c[i] - (x * a[i] + y * b[i]), t);
        let q = (c[i] - (x * a[i] + y * b[i])) / t;
        assert(c[i] * s[i] - (x * a[i] + y * b[i]) * s[i] == t * (q * s[i]) + 0) by (nonlinear_arith)
            requires
                c[i] - (x * a[i] + y * b[i]) == t * q,
        ;
        lemma_mod_multiples_vanish(q * s[i], 0, t);
        lemma_congruent_combine(
            dot(c, s, n - 1),
            x * dot(a, s, n - 1) + y * dot(b, s, n - 1),
            c[i] * s[i],
            (x * a[i] + y * b[i]) * s[i],
            1,
        );
        assert(x * dot(a, s, n) + y * dot(b, s, n) == x * dot(a, s, n - 1) + y * dot(b, s, n - 1) + (x
            * a[i] + y * b[i]) * s[i]) by (nonlinear_arith)
            requires
                dot(a, s, n) == dot(a, s, n - 1) + a[i] * s[i],
                dot(b, s, n) == dot(b, s, n - 1) + b[i] * s[i],
        ;
    }
}

/// The phase is linear: if every component of `c` agrees with `x` times that of `a` plus `y`
/// times that of `b` (plus `k` on the body), then the phase of `c` is
/// `x * phase(a) + y * phase(b) + k mod 2^32`.
pub proof fn lemma_phase_linear(a: LweCiphertext, b: LweCiphertext, c: LweCiphertext, s: Seq<u32>, x: int, y: int, k: int)
    requires
        fits(a, s),
        fits(b, s),
        fits(c, s),
        forall|i: int| 0 <= i < s.len() ==> congruent(#[trigger] c.mask@[i] as int, x * a.mask@[i] + y * b.mask@[i]),
        congruent(c.body as int, x * a.body + y * b.body + k),
    ensures
        phase(c, s) == (x * phase(a, s) + y * phase(b, s) + k) % torus_size(),
{
    let t = torus_size();
    let n = s.len() as int;
    lemma_dot_linear(a.mask@, b.mask@, c.mask@, s, x, y, n);
    let da = dot(a.mask@, s, n);
    let db = dot(b.mask@, s, n);
    let dc = dot(c.mask@, s, n);
    lemma_congruent_combine(c.body as int, x * a.body + y * b.body + k, dc, x * da + y * db, -1);
    // phase(a) agrees with a.body - da, likewise for b
    lemma_fundamental_div_mod(a.body - da, t);
    lemma_fundamental_div_mod(b.body - db, t);
    let qa = (a.body - da) / t;
    let qb = (b.body - db) / t;
    let target = x * phase(a, s) + y * phase(b, s) + k;
    lemma_fundamental_div_mod((c.body - dc) - (x * a.body + y * b.body + k - (x * da + y * db)), t);
    let qc = ((c.body - dc) - (x * a.body + y * b.body + k - (x * da + y * db))) / t;
    let pa = phase(a, s);
    let pb = phase(b, s);
    assert(x * a.body + y * b.body + k - (x * da + y * db) == x * (a.body - da) + y * (b.body - db) + k) by (nonlinear_arith);
    assert(x * (t * qa + pa) == t * (x * qa) + x * pa) by (nonlinear_arith);
    assert(y * (t * qb + pb) == t * (y * qb) + y * pb) by (nonlinear_arith);
    assert(t * (qc + x * qa + y * qb) == t * qc + t * (x * qa) + t * (y * qb)) by (nonlinear_arith);
    assert(a.body - da == t * qa + pa);
    assert(b.body - db == t * qb + pb);
    assert((c.body - dc) == t * (qc + x * qa + y * qb) + target);
    lemma_mod_multiples_vanish(qc + x * qa + y * qb, target, t);
}

/// `(x + y) mod 2^32`.
fn add_torus(x: u32, y: u32) -> (r: u32)
    ensures
        r as int == (x + y) % torus_size(),
{
    ((x as u64 + y as u64) % 0x1_0000_0000u64) as u32
}

/// `(x * y) mod 2^32`.
fn mul_torus(x: u32, y: u32) -> (r: u32)
    ensures
        r as int == (x * y) % torus_size(),
{
    assert((x as u64) * (y as u64) <= 0xffff_ffffu64 * 0xffff_ffffu64) by (nonlinear_arith)
        requires
            x <= 0xffff_ffffu64,
            y <= 0xffff_ffffu64,
    ;
    (((x as u64) * (y as u64)) % 0x1_0000_0000u64) as u32
}

/// `(-x) mod 2^32`.
fn neg_torus(x: u32) -> (r: u32)
    ensures
        r as int == (-x) % torus_size(),
{
    if x == 0 {
        0
    } else {
        proof {
            lemma_fundamental_div_mod_converse(-x, torus_size(), -1, torus_size() - x);
        }
        ((0x1_0000_0000u64 - x as u64)) as u32
    }
}

/// `x mod 2^32` is congruent to `x`.
pub proof fn lemma_congruent_mod(x: int)
    ensures
        congruent(x % torus_size(), x),
{
    let t = torus_size();
    lemma_fundamental_div_mod(x, t);
    lemma_mod_multiples_vanish(-(x / t), 0, t);
    assert(x % t - x == t * (-(x / t)) + 0) by (nonlinear_arith)
        requires
            x == t * (x / t) + x % t,
    ;
}

impl LweCiphertext {
    /// The sample of dimension `n` with zero mask and zero body (phase 0 under every key).
    pub fn new(n: usize) -> (r: Self)
        ensures
            r.mask@.len() == n,
            forall|i: int| 0 <= i < n ==> #[trigger] r.mask@[i] == 0,
            r.body == 0,
    {
        let mut mask: Vec<u32> = Vec::new();
        let mut i: usize = 0;
        while i < n
            invariant
                i <= n,
                mask@.len() == i,
                forall|j: int| 0 <= j < i ==> #[trigger] mask@[j] == 0,
            decreases n - i,
        {
            mask.push(0);
            i = i + 1;
        }
        LweCiphertext { mask, body: 0 }
    }

    /// A copy of this sample.
    pub fn duplicate(&self) -> (r: Self)
        ensures
            r.mask@ == self.mask@,
            r.body == self.body,
    {
        LweCiphertext { mask: self.mask.clone(), body: self.body }
    }

    /// Adds `other` component-wise modulo `2^32`.
    pub fn add_assign(&mut self, other: &LweCiphertext)
        requires
            old(self).mask@.len() == other.mask@.len(),
        ensures
            final(self).mask@.len() == old(self).mask@.len(),
            forall|i: int| 0 <= i < other.mask@.len() ==> #[trigger] final(self).mask@[i] as int == (
            old(self).mask@[i] + other.mask@[i]) % torus_size(),
            final(self).body as int == (old(self).body + other.body) % torus_size(),
    {
        let mut i: usize = 0;
        while i < other.mask.len()
            invariant
                i <= other.mask.len(),
                self.mask@.len() == other.mask@.len(),
                self.body == old(self).body,
                forall|j: int| 0 <= j < i ==> #[trigger] self.mask@[j] as int == (old(self).mask@[j]
                    + other.mask@[j]) % torus_size(),
                forall|j: int| i <= j < other.mask@.len() ==> #[trigger] self.mask@[j] == old(self).mask@[j],
            decreases other.mask.len() - i,
        {
            let v = add_torus(self.mask[i], other.mask[i]);
            self.mask.set(i, v);
            i = i + 1;
        }
        self.body = add_torus(self.body, other.body);
    }

    /// Adds the torus value `plaintext` to the body.
    pub fn plaintext_add_assign(&mut self, plaintext: u32)
        ensures
            final(self).mask@ == old(self).mask@,
            final(self).body as int == (old(self).body + plaintext) % torus_size(),
    {
        self.body = add_torus(self.body, plaintext);
    }

    /// Every component multiplied by `coefficient` modulo `2^32`.
    pub fn cleartext_mul(&self, coefficient: u32) -> (r: LweCiphertext)
        ensures
            r.mask@.len() == self.mask@.len(),
            forall|i: int| 0 <= i < self.mask@.len() ==> #[trigger] r.mask@[i] as int == (self.mask@[i]
                * coefficient) % torus_size(),
            r.body as int == (self.body * coefficient) % torus_size(),
    {
        let mut mask: Vec<u32> = Vec::new();
        let mut i: usize = 0;
        while i < self.mask.len()
            invariant
                i <= self.mask.len(),
                mask@.len() == i,
                forall|j: int| 0 <= j < i ==> #[trigger] mask@[j] as int == (self.mask@[j] * coefficient)
                    % torus_size(),
            decreases self.mask.len() - i,
        {
            mask.push(mul_torus(self.mask[i], coefficient));
            i = i + 1;
        }
        LweCiphertext { mask, body: mul_torus(self.body, coefficient) }
    }

    /// Every component negated modulo `2^32`.
    pub fn negate(&self) -> (r: LweCiphertext)
        ensures
            r.mask@.len() == self.mask@.len(),
            forall|i: int| 0 <= i < self.mask@.len() ==> #[trigger] r.mask@[i] as int == (-self.mask@[i])
                % torus_size(),
            r.body as int == (-self.body) % torus_size(),
    {
        let mut mask: Vec<u32> = Vec::new();
        let mut i: usize = 0;
        while i < self.mask.len()
            invariant
                i <= self.mask.len(),
                mask@.len() == i,
                forall|j: int| 0 <= j < i ==> #[trigger] mask@[j] as int == (-self.mask@[j]) % torus_size(),
            decreases self.mask.len() - i,
        {
            mask.push(neg_torus(self.mask[i]));
            i = i + 1;
        }
        LweCiphertext { mask, body: neg_torus(self.body) }
    }

    /// The phase of this sample under `key`.
    pub fn decrypt_phase(&self, key: &LweSecretKey) -> (r: u32)
        requires
            self.mask@.len() == key.bits@.len(),
        ensures
            r as int == phase(*self, key.bits@),
    {
        let ghost s = key.bits@;
        let mut acc: u32 = 0;
        let mut i: usize = 0;
        while i < self.mask.len()
            invariant
                i <= self.mask.len(),
                self.mask@.len() == s.len(),
                s == key.bits@,
                acc as int == dot(self.mask@, s, i as int) % torus_size(),
            decreases self.mask.len() - i,
        {
            let m = mul_torus(self.mask[i], key.bits[i]);
            proof {
                let t = torus_size();
                let prev = dot(self.mask@, s, i as int);
                let term = self.mask@[i as int] * s[i as int];
                lemma_add_mod_noop(prev, term, t);
                lemma_mod_twice(prev, t);
                lemma_mod_twice(term, t);
                assert(dot(self.mask@, s, i + 1) == prev + term);
            }
            acc = add_torus(acc, m);
            proof {
                let t = torus_size();
                let prev = dot(self.mask@, s, i as int);
                let term = self.mask@[i as int] * s[i as int];
                lemma_add_mod_noop(prev, term, t);
            }
            i = i + 1;
        }
        let r = add_torus(self.body, neg_torus(acc));
        proof {
            let t = torus_size();
            let d = dot(self.mask@, s, s.len() as int);
            lemma_add_mod_noop(self.body as int, -acc, t);
            lemma_mod_twice(self.body as int, t);
            // (-(d % t)) % t == (-d) % t
            lemma_sub_mod_noop(0, d, t);
            lemma_mod_twice(0, t);
            lemma_add_mod_noop(self.body as int, -d, t);
            assert((-acc) % t == (-d) % t) by {
                lemma_sub_mod_noop(0, d, t);
                assert((0int % t - d % t) % t == (0int - d) % t);
                assert(0int % t == 0) by {
                    lemma_small_mod(0, t as nat);
                }
            }
        }
        r
    }
}

} // verus!
