//! Conversions between integers and vectors of bits.
use vstd::prelude::*;
use vstd::arithmetic::div_mod::*;

verus! {

/// `2^n`.
pub open spec fn two_pow(n: nat) -> nat
    decreases n,
{
    if n == 0 {
        1
    } else {
        2 * two_pow((n - 1) as nat)
    }
}

/// Bit `j` of `x` (bit 0 is the least significant).
pub open spec fn bit_of(x: nat, j: nat) -> bool {
    (x / two_pow(j)) % 2 == 1
}

/// `v` in reverse order.
pub open spec fn reversed(v: Seq<bool>) -> Seq<bool> {
    Seq::new(v.len(), |i: int| v[v.len() - 1 - i])
}

/// The value of the little-endian bits `v`: `sum of 2^i over the i with v[i]`.
pub open spec fn le_value(v: Seq<bool>) -> nat
    decreases v.len(),
{
    if v.len() == 0 {
        0
    } else {
        le_value(v.drop_last()) + if v.last() {
            two_pow((v.len() - 1) as nat)
        } else {
            0
        }
    }
}

/// The value of `v`, read little-endian or big-endian.
pub open spec fn bits_value(v: Seq<bool>, big_endian: bool) -> nat {
    if big_endian {
        le_value(reversed(v))
    } else {
        le_value(v)
    }
}

/// The `len` bits of `x`, little-endian (or big-endian: most significant first).
pub open spec fn bits_of(x: nat, len: nat, big_endian: bool) -> Seq<bool> {
    if big_endian {
        Seq::new(len, |i: int| bit_of(x, (len - 1 - i) as nat))
    } else {
        Seq::new(len, |i: int| bit_of(x, i as nat))
    }
}

/// `2^n` is positive.
pub proof fn lemma_two_pow_pos(n: nat)
    ensures
        two_pow(n) > 0,
    decreases n,
{
    if n > 0 {
        lemma_two_pow_pos((n - 1) as nat);
    }
}

/// A little-endian value of `n` bits is below `2^n`.
pub proof fn lemma_le_value_bound(v: Seq<bool>)
    ensures
        le_value(v) < two_pow(v.len()),
    decreases v.len(),
{
    if v.len() > 0 {
        lemma_le_value_bound(v.drop_last());
        lemma_two_pow_pos((v.len() - 1) as nat);
    }
}

/// The vector of bits of `x`.
fn bits_vec(x: u64, len: usize, big_endian: bool) -> (r: Vec<bool>)
    requires
        (x as nat) < two_pow(len as nat),
    ensures
        r@ == bits_of(x as nat, len as nat, big_endian),
{
    let mut le: Vec<bool> = Vec::new();
    let mut y: u64 = x;
    assert(two_pow(0) == 1);
    assert((x as nat) / 1 == x as nat);
    let mut j: usize = 0;
    while j < len
        invariant
            j <= len,
            le@.len() == j,
            y as nat == (x as nat) / two_pow(j as nat),
            forall|i: int| 0 <= i < j ==> #[trigger] le@[i] == bit_of(x as nat, i as nat),
        decreases len - j,
    {
        le.push(y % 2 == 1);
        proof {
            lemma_two_pow_pos(j as nat);
            lemma_div_denominator(x as int, two_pow(j as nat) as int, 2);
            assert(two_pow((j + 1) as nat) == two_pow(j as nat) * 2);
        }
        y = y / 2;
        j = j + 1;
    }
    if !big_endian {
        assert(le@ =~= bits_of(x as nat, len as nat, false));
        return le;
    }
    let mut be: Vec<bool> = Vec::new();
    let mut k: usize = 0;
    while k < len
        invariant
            k <= len,
            le@.len() == len,
            be@.len() == k,
            forall|i: int| 0 <= i < len ==> #[trigger] le@[i] == bit_of(x as nat, i as nat),
            forall|i: int| 0 <= i < k ==> #[trigger] be@[i] == bit_of(x as nat, (len - 1 - i) as nat),
        decreases len - k,
    {
        be.push(le[len - 1 - k]);
        k = k + 1;
    }
    assert(be@ =~= bits_of(x as nat, len as nat, true));
    be
}

/// The value of the bits `v`, read little-endian or big-endian.
fn value_of_bits(v: &Vec<bool>, big_endian: bool) -> (r: u64)
    requires
        v@.len() <= 64,
    ensures
        r as nat == bits_value(v@, big_endian),
{
    let n = v.len();
    let ghost w = if big_endian { reversed(v@) } else { v@ };
    let mut acc: u128 = 0;
    let mut pw: u128 = 1;
    proof {
        reveal_with_fuel(two_pow, 65);
        assert(two_pow(64) == 0x1_0000_0000_0000_0000);
        lemma_two_pow_mono(0, 64);
        assert(le_value(w.subrange(0, 0)) == 0);
    }
    let mut i: usize = 0;
    while i < n
        invariant
            n == v@.len(),
            n <= 64,
            w == if big_endian { reversed(v@) } else { v@ },
            i <= n,
            pw as nat == two_pow(i as nat),
            acc as nat == le_value(w.subrange(0, i as int)),
            (acc as nat) < two_pow(i as nat),
            two_pow(i as nat) <= 0x1_0000_0000_0000_0000,
            two_pow(64) == 0x1_0000_0000_0000_0000,
        decreases n - i,
    {
        let b = if big_endian { v[n - 1 - i] } else { v[i] };
        assert(b == w[i as int]);
        proof {
            let s = w.subrange(0, i + 1);
            assert(s.drop_last() =~= w.subrange(0, i as int));
            assert(s.last() == b);
        }
        if b {
            acc = acc + pw;
        }
        proof {
            if i + 1 <= 64 {
                lemma_two_pow_mono((i + 1) as nat, 64);
            }
        }
        pw = pw * 2;
        i = i + 1;
    }
    assert(w.subrange(0, n as int) =~= w);
    acc as u64
}

/// `a <= b` implies `2^a <= 2^b`.
pub proof fn lemma_two_pow_mono(a: nat, b: nat)
    requires
        a <= b,
    ensures
        two_pow(a) <= two_pow(b),
    decreases b,
{
    if a < b {
        lemma_two_pow_mono(a, (b - 1) as nat);
    }
}

/// The `target_length` bits of `x`, little-endian or big-endian.
pub fn int_to_vec_bool(x: usize, target_length: usize, big_endian: bool) -> (r: Vec<bool>)
    requires
        (x as nat) < two_pow(target_length as nat),
    ensures
        r@ == bits_of(x as nat, target_length as nat, big_endian),
{
    bits_vec(x as u64, target_length, big_endian)
}

/// The value of the bits `x`, read little-endian or big-endian.
pub fn vec_bool_to_int(x: Vec<bool>, big_endian: bool) -> (r: usize)
    requires
        x@.len() <= 32,
    ensures
        r as nat == bits_value(x@, big_endian),
{
    proof {
        if big_endian {
            lemma_le_value_bound(reversed(x@));
        } else {
            lemma_le_value_bound(x@);
        }
        lemma_two_pow_mono(x@.len(), 32);
        reveal_with_fuel(two_pow, 33);
        assert(two_pow(32) == 0x1_0000_0000);
    }
    value_of_bits(&x, big_endian) as usize
}

/// The value of the eight bits `v`, most significant first.
pub fn vec_bool_to_u8(v: &Vec<bool>) -> (r: u8)
    requires
        v@.len() == 8,
    ensures
        r as nat == bits_value(v@, true),
{
    proof {
        lemma_le_value_bound(reversed(v@));
        reveal_with_fuel(two_pow, 9);
        assert(two_pow(8) == 256);
    }
    value_of_bits(v, true) as u8
}

/// The eight bits of `x`, most significant first.
pub fn u8_to_vec_bool(x: u8) -> (r: Vec<bool>)
    ensures
        r@ == bits_of(x as nat, 8, true),
{
    proof {
        reveal_with_fuel(two_pow, 9);
        assert(two_pow(8) == 256);
    }
    bits_vec(x as u64, 8, true)
}

/// The value of the 32 bits `v`, most significant first.
pub fn vec_bool_to_u32(v: &Vec<bool>) -> (r: u32)
    requires
        v@.len() == 32,
    ensures
        r as nat == bits_value(v@, true),
{
    proof {
        lemma_le_value_bound(reversed(v@));
        reveal_with_fuel(two_pow, 33);
        assert(two_pow(32) == 0x1_0000_0000);
    }
    value_of_bits(v, true) as u32
}

/// The 32 bits of `x`, most significant first.
pub fn u32_to_vec_bool(x: u32) -> (r: Vec<bool>)
    ensures
        r@ == bits_of(x as nat, 32, true),
{
    proof {
        reveal_with_fuel(two_pow, 33);
        assert(two_pow(32) == 0x1_0000_0000);
    }
    bits_vec(x as u64, 32, true)
}

} // verus!
