//! The lookup table (accumulator) that realises a change of encoding in one bootstrap.
use vstd::prelude::*;
use vstd::arithmetic::div_mod::*;
use crate::encoding::{BooleanEncoding, Encoding};
use crate::error::GadgetError;
use crate::torus::{encode_plaintext, encode_torus};

verus! {

/// The entry at position `idx` of the accumulator over `Z/p` for the partitions `f`, `t` and
/// the output residues `d_false`, `d_true` of `Z/p_out`. Even positions `2k` carry residue `k`;
/// odd positions `2k + 1` carry the negation of residue `(p + 1) / 2 + k`; a residue in neither
/// partition gives 0.
pub open spec fn accumulator_entry(
    f: Set<u32>,
    t: Set<u32>,
    p: int,
    d_false: int,
    d_true: int,
    p_out: int,
    idx: int,
) -> int {
    let k = idx / 2;
    if idx % 2 == 0 {
        if f.contains(k as u32) {
            d_false
        } else if t.contains(k as u32) {
            d_true
        } else {
            0
        }
    } else {
        let m = (p + 1) / 2 + k;
        if f.contains(m as u32) {
            (p_out - d_false) % p_out
        } else if t.contains(m as u32) {
            (p_out - d_true) % p_out
        } else {
            0
        }
    }
}

/// The residue of a singleton set.
pub open spec fn single(s: Set<u32>) -> u32 {
    choose|d: u32| s == set![d]
}

/// The singleton `{x}` has residue `x`.
pub proof fn lemma_single(s: Set<u32>, x: u32)
    requires
        s == set![x],
    ensures
        single(s) == x,
{
    let d = single(s);
    assert(s == set![d]);
    assert(set![d].contains(d));
}

/// Entry `idx` of the accumulator from `enc_in` (intermediate) to canonical `enc_out`.
pub open spec fn accumulator_value(enc_in: BooleanEncoding, enc_out: BooleanEncoding, idx: int) -> int {
    accumulator_entry(
        enc_in.false_part(),
        enc_in.true_part(),
        enc_in.modulus() as int,
        single(enc_out.false_part()) as int,
        single(enc_out.true_part()) as int,
        enc_out.modulus() as int,
        idx,
    )
}

/// `N / (2p)`: half a window of the lookup table.
pub open spec fn half_window(n: int, p: int) -> int {
    n / (2 * p)
}

/// The first position of window `k` (for `1 <= k < p`) of a lookup table of size `n`.
pub open spec fn window_start(k: int, n: int, p: int) -> int {
    half_window(n, p) + ((k - 1) * n) / p
}

/// The lookup-table body of size `n` for an odd intermediate modulus: half a window of entry 0,
/// then window `k` of entry `k` for `1 <= k < p`, zeros up to the last half window, and the last
/// half window holding the negation of entry 0.
pub open spec fn odd_lookup_table(body: Seq<u32>, enc_in: BooleanEncoding, enc_out: BooleanEncoding, n: int) -> bool {
    let p = enc_in.modulus() as int;
    let p_out = enc_out.modulus() as int;
    let h = half_window(n, p);
    &&& body.len() == n
    &&& forall|i: int| 0 <= i < h && i < n - h ==> #[trigger] body[i] as int == encode_torus(
        accumulator_value(enc_in, enc_out, 0),
        p_out,
    )
    &&& forall|k: int, i: int|
        #![trigger accumulator_value(enc_in, enc_out, k), body[i]]
        1 <= k < p && window_start(k, n, p) <= i < window_start(k + 1, n, p) && i < n - h
            ==> body[i] as int == encode_torus(accumulator_value(enc_in, enc_out, k), p_out)
    &&& forall|i: int| window_start(p, n, p) <= i < n - h ==> #[trigger] body[i] == 0
    &&& forall|i: int| n - h <= i < n ==> #[trigger] body[i] as int == encode_torus(
        (p_out - accumulator_value(enc_in, enc_out, 0) % p_out) % p_out,
        p_out,
    )
}

/// The lookup-table body of size `n` for intermediate modulus 2: the first half carries the
/// output residue of the label of residue 0, the second half the other output residue.
pub open spec fn binary_lookup_table(body: Seq<u32>, enc_in: BooleanEncoding, enc_out: BooleanEncoding, n: int) -> bool {
    let b = enc_in.true_part().contains(0);
    let p_out = enc_out.modulus() as int;
    let first = if b { single(enc_out.true_part()) } else { single(enc_out.false_part()) };
    let second = if b { single(enc_out.false_part()) } else { single(enc_out.true_part()) };
    &&& body.len() == n
    &&& forall|i: int| 0 <= i < n / 2 ==> #[trigger] body[i] as int == encode_torus(first as int, p_out)
    &&& forall|i: int| n / 2 <= i < n ==> #[trigger] body[i] as int == encode_torus(second as int, p_out)
}

/// `a <= b` implies `a * n / p <= b * n / p`.
proof fn lemma_scaled_div_monotone(a: int, b: int, n: int, p: int)
    requires
        0 <= a <= b,
        n >= 0,
        p > 0,
    ensures
        (a * n) / p <= (b * n) / p,
{
    assert(a * n <= b * n) by (nonlinear_arith)
        requires
            a <= b,
            n >= 0,
    ;
    lemma_div_is_ordered(a * n, b * n, p);
}

/// A vector of `n` zeros.
fn zeros(n: usize) -> (r: Vec<u32>)
    ensures
        r@.len() == n,
        forall|i: int| 0 <= i < n ==> #[trigger] r@[i] == 0,
{
    let mut v: Vec<u32> = Vec::new();
    let mut i: usize = 0;
    while i < n
        invariant
            i <= n,
            v@.len() == i,
            forall|j: int| 0 <= j < i ==> #[trigger] v@[j] == 0,
        decreases n - i,
    {
        v.push(0);
        i = i + 1;
    }
    v
}

/// Sets positions `lo..hi` of `v` to `value`.
fn fill_range(v: &mut Vec<u32>, lo: usize, hi: usize, value: u32)
    requires
        lo <= hi <= old(v)@.len(),
    ensures
        final(v)@.len() == old(v)@.len(),
        forall|i: int| 0 <= i < final(v)@.len() ==> #[trigger] final(v)@[i] == if lo <= i < hi {
            value
        } else {
            old(v)@[i]
        },
{
    let mut i: usize = lo;
    while i < hi
        invariant
            lo <= i <= hi,
            hi <= v@.len(),
            v@.len() == old(v)@.len(),
            forall|j: int| 0 <= j < v@.len() ==> #[trigger] v@[j] == if lo <= j < i {
                value
            } else {
                old(v)@[j]
            },
        decreases hi - i,
    {
        v.set(i, value);
        i = i + 1;
    }
}

/// Scratch memory of the bootstrap driver.
pub struct Memory {
    /// The body of the last lookup table built.
    pub buffer: Vec<u32>,
}

impl Memory {
    /// Empty scratch memory.
    pub fn new() -> (r: Self)
        ensures
            r.buffer@.len() == 0,
    {
        Memory { buffer: Vec::new() }
    }

    /// The accumulator that maps the intermediate encoding `encoding_in` (odd modulus) to the
    /// canonical `encoding_out`.
    pub fn create_accumulator(encoding_in: &BooleanEncoding, encoding_out: &BooleanEncoding) -> (r:
        Result<Vec<u32>, GadgetError>)
        requires
            encoding_in.inv(),
            encoding_out.inv(),
        ensures
            r matches Err(GadgetError::EncodingNotCanonical) <==> !encoding_out.canonical(),
            r matches Err(GadgetError::EncodingDomainMismatch) <==> encoding_out.canonical()
                && encoding_in.modulus() % 2 == 0,
            r is Ok <==> encoding_out.canonical() && encoding_in.modulus() % 2 == 1,
            r is Ok ==> exists|d_false: u32, d_true: u32|
                {
                    &&& encoding_out.false_part() == set![d_false]
                    &&& encoding_out.true_part() == set![d_true]
                    &&& r->Ok_0@.len() == encoding_in.modulus()
                    &&& forall|idx: int|
                        0 <= idx < encoding_in.modulus() ==> #[trigger] r->Ok_0@[idx] as int
                            == accumulator_entry(
                            encoding_in.false_part(),
                            encoding_in.true_part(),
                            encoding_in.modulus() as int,
                            d_false as int,
                            d_true as int,
                            encoding_out.modulus() as int,
                            idx,
                        )
                },
            r is Ok ==> r->Ok_0@.len() == encoding_in.modulus() && forall|idx: int|
                0 <= idx < encoding_in.modulus() ==> #[trigger] r->Ok_0@[idx] as int
                    == accumulator_value(*encoding_in, *encoding_out, idx),
            r is Ok ==> forall|idx: int| 0 <= idx < encoding_in.modulus() ==> #[trigger] r->Ok_0@[idx] < encoding_out.modulus(),
    {
        let (d_false, d_true) = match encoding_out.get_values_if_canonical() {
            Ok(v) => v,
            Err(e) => {
                return Err(e);
            },
        };
        let p = encoding_in.get_modulus();
        if p % 2 == 0 {
            return Err(GadgetError::EncodingDomainMismatch);
        }
        let p_out = encoding_out.get_modulus();
        proof {
            encoding_in.lemma_inv();
            encoding_out.lemma_inv();
            assert(encoding_out.false_part().contains(d_false));
            assert(encoding_out.true_part().contains(d_true));
            lemma_single(encoding_out.false_part(), d_false);
            lemma_single(encoding_out.true_part(), d_true);
        }
        let ghost f = encoding_in.false_part();
        let ghost t = encoding_in.true_part();
        let neg_false = (p_out - d_false) % p_out;
        let neg_true = (p_out - d_true) % p_out;
        let mut accu: Vec<u32> = Vec::new();
        let mut idx: u32 = 0;
        while idx < p
            invariant
                encoding_in.inv(),
                f == encoding_in.false_part(),
                t == encoding_in.true_part(),
                p as nat == encoding_in.modulus(),
                p % 2 == 1,
                p_out as nat == encoding_out.modulus(),
                neg_false as int == (p_out - d_false) % (p_out as int),
                neg_true as int == (p_out - d_true) % (p_out as int),
                idx <= p,
                accu@.len() == idx,
                d_false < p_out,
                d_true < p_out,
                single(encoding_out.false_part()) == d_false,
                single(encoding_out.true_part()) == d_true,
                forall|j: int| 0 <= j < idx ==> #[trigger] accu@[j] < p_out,
                forall|j: int|
                    0 <= j < idx ==> #[trigger] accu@[j] as int == accumulator_entry(
                        f,
                        t,
                        p as int,
                        d_false as int,
                        d_true as int,
                        p_out as int,
                        j,
                    ),
            decreases p - idx,
        {
            let k = idx / 2;
            let v: u32 = if idx % 2 == 0 {
                if encoding_in.is_partition_containing(false, k) {
                    d_false
                } else if encoding_in.is_partition_containing(true, k) {
                    d_true
                } else {
                    0
                }
            } else {
                let m = (p / 2 + 1) + k;
                assert(m as int == (p as int + 1) / 2 + k);
                if encoding_in.is_partition_containing(false, m) {
                    neg_false
                } else if encoding_in.is_partition_containing(true, m) {
                    neg_true
                } else {
                    0
                }
            };
            accu.push(v);
            idx = idx + 1;
        }
        Ok(accu)
    }

    /// Builds in `buffer` the body of the lookup table, of size `polynomial_size`, that maps
    /// `encoding_in` to the canonical `encoding_out`: windowed for an odd modulus, by halves
    /// for modulus 2 (where the output residues must be opposite).
    pub fn fill_lookup_table(
        &mut self,
        encoding_in: &BooleanEncoding,
        encoding_out: &BooleanEncoding,
        polynomial_size: usize,
    ) -> (r: Result<(), GadgetError>)
        requires
            encoding_in.inv(),
            encoding_out.inv(),
            polynomial_size <= u32::MAX,
        ensures
            ({
                let p = encoding_in.modulus();
                let p_out = encoding_out.modulus() as int;
                let n = polynomial_size as int;
                let opposite_outputs = single(encoding_out.false_part()) as int == (p_out - single(
                    encoding_out.true_part(),
                ) as int) % p_out;
                &&& r is Ok <==> encoding_out.canonical() && (p % 2 == 1 || (p == 2 && opposite_outputs))
                &&& (r matches Err(GadgetError::EncodingNotCanonical)) <==> !encoding_out.canonical()
                &&& (r matches Err(GadgetError::EncodingDomainMismatch)) <==> encoding_out.canonical()
                    && p % 2 == 0 && p != 2
                &&& (r matches Err(GadgetError::EncodingInvalid)) <==> encoding_out.canonical() && p == 2
                    && !opposite_outputs
                &&& r is Ok && p % 2 == 1 ==> odd_lookup_table(final(self).buffer@, *encoding_in, *encoding_out, n)
                &&& r is Ok && p == 2 ==> binary_lookup_table(final(self).buffer@, *encoding_in, *encoding_out, n)
            }),
    {
        let (d_false, d_true) = match encoding_out.get_values_if_canonical() {
            Ok(v) => v,
            Err(e) => {
                return Err(e);
            },
        };
        proof {
            encoding_in.lemma_inv();
            encoding_out.lemma_inv();
            assert(encoding_out.false_part().contains(d_false));
            assert(encoding_out.true_part().contains(d_true));
            lemma_single(encoding_out.false_part(), d_false);
            lemma_single(encoding_out.true_part(), d_true);
        }
        let p = encoding_in.get_modulus();
        let p_out = encoding_out.get_modulus();
        let n = polynomial_size;
        if p == 2 {
            if d_false != (p_out - d_true) % p_out {
                return Err(GadgetError::EncodingInvalid);
            }
            let b = encoding_in.is_partition_containing(true, 0);
            let first = encode_plaintext(if b { d_true } else { d_false }, p_out);
            let second = encode_plaintext(if b { d_false } else { d_true }, p_out);
            let mut body = zeros(n);
            fill_range(&mut body, 0, n / 2, first);
            fill_range(&mut body, n / 2, n, second);
            self.buffer = body;
            return Ok(());
        }
        if p % 2 == 0 {
            return Err(GadgetError::EncodingDomainMismatch);
        }
        let accu = match Self::create_accumulator(encoding_in, encoding_out) {
            Ok(a) => a,
            Err(e) => {
                return Err(e);
            },
        };
        let ghost ei = *encoding_in;
        let ghost eo = *encoding_out;
        let pu = p as u64;
        let nu = n as u64;
        let h = (nu / (2 * pu)) as usize;
        assert(h as int == half_window(n as int, p as int));
        proof {
            assert(h <= n) by {
                lemma_div_is_ordered_by_denominator(n as int, 1, 2 * p as int);
            }
        }
        let mut body = zeros(n);
        fill_range(&mut body, 0, h, encode_plaintext(accu[0], p_out));
        let mut k: u32 = 1;
        while k < p
            invariant
                ei == *encoding_in,
                eo == *encoding_out,
                p as nat == ei.modulus(),
                p_out as nat == eo.modulus(),
                p_out > 0,
                p > 0,
                pu == p,
                nu == n,
                n <= u32::MAX,
                h as int == half_window(n as int, p as int),
                h <= n,
                1 <= k <= p,
                accu@.len() == p,
                forall|idx: int| 0 <= idx < p ==> #[trigger] accu@[idx] as int == accumulator_value(ei, eo, idx),
                forall|idx: int| 0 <= idx < p ==> #[trigger] accu@[idx] < p_out,
                body@.len() == n,
                forall|i: int| 0 <= i < h ==> #[trigger] body@[i] as int == encode_torus(
                    accumulator_value(ei, eo, 0),
                    p_out as int,
                ),
                forall|k2: int, i: int|
                    #![trigger accumulator_value(ei, eo, k2), body@[i]]
                    1 <= k2 < k && window_start(k2, n as int, p as int) <= i < window_start(k2 + 1, n as int, p as int) && i < n
                        ==> body@[i] as int == encode_torus(accumulator_value(ei, eo, k2), p_out as int),
                forall|i: int| window_start(k as int, n as int, p as int) <= i < n ==> #[trigger] body@[i] == 0,
            decreases p - k,
        {
            proof {
                lemma_scaled_div_monotone(k - 1, k as int, n as int, p as int);
                assert((k as u64 - 1) * nu <= u32::MAX as u64 * u32::MAX as u64) by (nonlinear_arith)
                    requires
                        k <= u32::MAX,
                        nu <= u32::MAX,
                ;
                assert((k as u64) * nu <= u32::MAX as u64 * u32::MAX as u64) by (nonlinear_arith)
                    requires
                        k <= u32::MAX,
                        nu <= u32::MAX,
                ;
            }
            let lo64 = h as u64 + ((k as u64 - 1) * nu) / pu;
            let hi64 = h as u64 + ((k as u64) * nu) / pu;
            let lo: usize = if lo64 < nu { lo64 as usize } else { n };
            let hi: usize = if hi64 < nu { hi64 as usize } else { n };
            let value = encode_plaintext(accu[k as usize], p_out);
            let ghost before = body@;
            fill_range(&mut body, lo, hi, value);
            proof {
                assert forall|k2: int, i: int|
                    #![trigger accumulator_value(ei, eo, k2), body@[i]]
                    1 <= k2 < k + 1 && window_start(k2, n as int, p as int) <= i < window_start(k2 + 1, n as int, p as int) && i < n
                        implies body@[i] as int == encode_torus(accumulator_value(ei, eo, k2), p_out as int) by {
                    if k2 < k {
                        lemma_scaled_div_monotone(k2, k - 1, n as int, p as int);
                        assert(before[i] == body@[i]);
                        assert(before[i] as int == encode_torus(accumulator_value(ei, eo, k2), p_out as int));
                    } else {
                        assert(accu@[k as int] as int == accumulator_value(ei, eo, k as int));
                    }
                }
                assert forall|i: int| 0 <= i < h implies #[trigger] body@[i] as int == encode_torus(
                    accumulator_value(ei, eo, 0),
                    p_out as int,
                ) by {
                    assert(before[i] == body@[i]);
                }
            }
            k = k + 1;
        }
        let last = encode_plaintext((p_out - accu[0] % p_out) % p_out, p_out);
        let ghost before = body@;
        fill_range(&mut body, n - h, n, last);
        proof {
            let nn = n as int;
            let pp = p as int;
            assert(odd_lookup_table(body@, ei, eo, nn)) by {
                assert forall|k2: int, i: int|
                    #![trigger accumulator_value(ei, eo, k2), body@[i]]
                    1 <= k2 < pp && window_start(k2, nn, pp) <= i < window_start(k2 + 1, nn, pp) && i < nn - h
                        implies body@[i] as int == encode_torus(accumulator_value(ei, eo, k2), p_out as int) by {
                    assert(before[i] == body@[i]);
                    assert(before[i] as int == encode_torus(accumulator_value(ei, eo, k2), p_out as int));
                }
                assert forall|i: int| 0 <= i < h && i < nn - h implies #[trigger] body@[i] as int == encode_torus(
                    accumulator_value(ei, eo, 0),
                    p_out as int,
                ) by {
                    assert(before[i] == body@[i]);
                }
                assert forall|i: int| window_start(pp, nn, pp) <= i < nn - h implies #[trigger] body@[i] == 0 by {
                    assert(before[i] == body@[i]);
                }
            }
        }
        self.buffer = body;
        Ok(())
    }
}

} // verus!
