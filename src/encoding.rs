//! Partitioned plaintext encodings of `Z/o` into `Z/p`.
use vstd::prelude::*;
use crate::error::GadgetError;
use vstd::arithmetic::div_mod::*;

verus! {

/// `x + p/2 (mod p)`: the residue opposite to `x` on the ring `Z/p`.
pub open spec fn opposite(x: int, p: int) -> int {
    (x + p / 2) % p
}

/// Every element of `s` lies in `Z/p`.
pub open spec fn below(s: Set<u32>, p: nat) -> bool {
    forall|x: u32| s.contains(x) ==> (x as nat) < p
}

/// The opposite of no element of `s` lies in `s` itself.
pub open spec fn closed_to_opposite_free(s: Set<u32>, p: nat) -> bool {
    forall|x: u32| #[trigger] s.contains(x) ==> !s.contains(opposite(x as int, p as int) as u32)
}

/// Validity of a Boolean encoding over `Z/p`: both partitions lie in `Z/p` and are
/// disjoint; when `p` is even, no residue shares its partition with its opposite.
pub open spec fn boolean_valid(f: Set<u32>, t: Set<u32>, p: nat) -> bool {
    &&& p > 0
    &&& below(f, p)
    &&& below(t, p)
    &&& f.disjoint(t)
    &&& p % 2 == 0 ==> closed_to_opposite_free(f, p) && closed_to_opposite_free(t, p)
}

/// `s` shifted by `c` modulo `p`.
pub open spec fn shifted(s: Set<u32>, c: int, p: int) -> Set<u32> {
    Set::new(|v: u32| exists|x: u32| s.contains(x) && v as int == (x + c) % p)
}

/// `s` multiplied by `c` modulo `p`.
pub open spec fn scaled(s: Set<u32>, c: int, p: int) -> Set<u32> {
    Set::new(|v: u32| exists|x: u32| s.contains(x) && v as int == (x * c) % p)
}

/// Whether `x` occurs in `v`.
pub fn vec_contains(v: &Vec<u32>, x: u32) -> (r: bool)
    ensures
        r == v@.contains(x),
{
    let mut i: usize = 0;
    while i < v.len()
        invariant
            i <= v.len(),
            forall|j: int| 0 <= j < i ==> v@[j] != x,
        decreases v.len() - i,
    {
        if v[i] == x {
            return true;
        }
        i = i + 1;
    }
    false
}

/// The elements of `v`, each once, in order of first occurrence.
pub fn dedup(v: &Vec<u32>) -> (r: Vec<u32>)
    ensures
        r@.no_duplicates(),
        r@.to_set() == v@.to_set(),
{
    let mut r: Vec<u32> = Vec::new();
    let mut i: usize = 0;
    while i < v.len()
        invariant
            i <= v.len(),
            r@.no_duplicates(),
            forall|x: u32| r@.contains(x) <==> v@.subrange(0, i as int).contains(x),
        decreases v.len() - i,
    {
        let ghost old_r = r@;
        assert(forall|y: u32| old_r.contains(y) <==> v@.subrange(0, i as int).contains(y));
        let x = v[i];
        if !vec_contains(&r, x) {
            r.push(x);
            proof {
                assert forall|a: int, b: int|
                    0 <= a < r@.len() && 0 <= b < r@.len() && a != b implies r@[a] != r@[b] by {
                    if a < old_r.len() && b < old_r.len() {
                        assert(old_r[a] != old_r[b]);
                    } else if a < old_r.len() {
                        assert(old_r.contains(old_r[a]));
                    } else if b < old_r.len() {
                        assert(old_r.contains(old_r[b]));
                    }
                }
            }
        }
        proof {
            assert forall|y: u32| r@.contains(y) <==> (old_r.contains(y) || y == x) by {
                if r@.contains(y) {
                    let k = choose|k: int| 0 <= k < r@.len() && #[trigger] r@[k] == y;
                    if k < old_r.len() {
                        assert(old_r[k] == y);
                    }
                }
                if old_r.contains(y) {
                    let k = choose|k: int| 0 <= k < old_r.len() && #[trigger] old_r[k] == y;
                    assert(r@[k] == y);
                }
                if y == x && r@ != old_r {
                    assert(r@[old_r.len() as int] == y);
                }
            }
            assert forall|y: u32|
                v@.subrange(0, i + 1).contains(y) <==> (v@.subrange(0, i as int).contains(y)
                    || y == x) by {
                if v@.subrange(0, i + 1).contains(y) {
                    let k = choose|k: int| 0 <= k < i + 1 && #[trigger] v@.subrange(0, i + 1)[k] == y;
                    if k < i {
                        assert(v@.subrange(0, i as int)[k] == y);
                    }
                }
                if v@.subrange(0, i as int).contains(y) {
                    let k = choose|k: int| 0 <= k < i && #[trigger] v@.subrange(0, i as int)[k] == y;
                    assert(v@.subrange(0, i + 1)[k] == y);
                }
                if y == x {
                    assert(v@.subrange(0, i + 1)[i as int] == y);
                }
            }
            assert forall|y: u32| r@.contains(y) <==> v@.subrange(0, i + 1).contains(y) by {
                assert(old_r.contains(y) <==> v@.subrange(0, i as int).contains(y));
            }
        }
        i = i + 1;
    }
    assert(v@.subrange(0, v.len() as int) == v@);
    assert(r@.to_set() =~= v@.to_set());
    r
}

/// Whether every element of `v` is below `p`.
fn all_below(v: &Vec<u32>, p: u32) -> (r: bool)
    ensures
        r == below(v@.to_set(), p as nat),
{
    let mut i: usize = 0;
    while i < v.len()
        invariant
            i <= v.len(),
            forall|j: int| 0 <= j < i ==> v@[j] < p,
        decreases v.len() - i,
    {
        if v[i] >= p {
            assert(v@.to_set().contains(v@[i as int]));
            return false;
        }
        i = i + 1;
    }
    true
}

/// Whether no element of `a` occurs in `b`.
fn disjoint_vecs(a: &Vec<u32>, b: &Vec<u32>) -> (r: bool)
    ensures
        r == a@.to_set().disjoint(b@.to_set()),
{
    let mut i: usize = 0;
    while i < a.len()
        invariant
            i <= a.len(),
            forall|j: int| 0 <= j < i ==> !b@.contains(a@[j]),
        decreases a.len() - i,
    {
        if vec_contains(b, a[i]) {
            assert(a@.to_set().contains(a@[i as int]));
            return false;
        }
        i = i + 1;
    }
    true
}

/// The residue opposite to `x` on `Z/p`.
fn opposite_exec(x: u32, p: u32) -> (r: u32)
    requires
        p > 0,
    ensures
        r as int == opposite(x as int, p as int),
{
    ((x as u64 + (p / 2) as u64) % (p as u64)) as u32
}

/// Whether no element of `v` has its opposite in `v` (all elements below `p`).
fn opposite_free(v: &Vec<u32>, p: u32) -> (r: bool)
    requires
        p > 0,
    ensures
        r == closed_to_opposite_free(v@.to_set(), p as nat),
{
    let mut i: usize = 0;
    while i < v.len()
        invariant
            p > 0,
            i <= v.len(),
            forall|j: int|
                0 <= j < i ==> !v@.contains(opposite(v@[j] as int, p as int) as u32),
        decreases v.len() - i,
    {
        let o = opposite_exec(v[i], p);
        if vec_contains(v, o) {
            assert(v@.to_set().contains(v@[i as int]));
            return false;
        }
        i = i + 1;
    }
    proof {
        assert forall|x: u32| #[trigger] v@.to_set().contains(x) implies !v@.to_set().contains(
            opposite(x as int, p as int) as u32,
        ) by {
            let j = choose|j: int| 0 <= j < v.len() && #[trigger] v@[j] == x;
        }
    }
    true
}


/// Shifting by a constant modulo `p` is injective on `Z/p`.
pub proof fn lemma_shift_injective(x: int, y: int, c: int, p: int)
    requires
        p > 0,
        0 <= x < p,
        0 <= y < p,
        (x + c) % p == (y + c) % p,
    ensures
        x == y,
{
    lemma_mod_equivalence(x + c, y + c, p);
    assert((x + c) - (y + c) == x - y);
    if x > y {
        lemma_small_mod((x - y) as nat, p as nat);
    } else if x < y {
        lemma_fundamental_div_mod_converse(x - y, p, -1, x - y + p);
    }
}

/// The opposite of a shifted residue is the shifted opposite.
pub proof fn lemma_opposite_shift(x: int, c: int, p: int)
    requires
        p > 0,
    ensures
        opposite((x + c) % p, p) == (opposite(x, p) + c) % p,
{
    let h = p / 2;
    lemma_add_mod_noop(x + c, h, p);
    lemma_mod_twice(h, p);
    lemma_add_mod_noop(x + h, c, p);
    lemma_mod_twice(c, p);
    lemma_mod_twice(x + c, p);
    lemma_mod_twice(x + h, p);
    assert((x + c) + h == (x + h) + c);
    lemma_add_mod_noop((x + c) % p, h, p);
    lemma_add_mod_noop((x + h) % p, c, p);
}

/// Shifting a valid Boolean encoding by a constant keeps it valid.
pub proof fn lemma_shift_valid(f: Set<u32>, t: Set<u32>, c: int, p: nat)
    requires
        boolean_valid(f, t, p),
        p <= u32::MAX,
    ensures
        boolean_valid(shifted(f, c, p as int), shifted(t, c, p as int), p),
{
    let pi = p as int;
    let sf = shifted(f, c, pi);
    let st = shifted(t, c, pi);
    assert forall|v: u32| sf.contains(v) implies (v as nat) < p by {
        let x = choose|x: u32| f.contains(x) && v as int == (x + c) % pi;
    }
    assert forall|v: u32| st.contains(v) implies (v as nat) < p by {
        let x = choose|x: u32| t.contains(x) && v as int == (x + c) % pi;
    }
    assert forall|v: u32| sf.contains(v) implies !st.contains(v) by {
        let x = choose|x: u32| f.contains(x) && v as int == (x + c) % pi;
        if st.contains(v) {
            let y = choose|y: u32| t.contains(y) && v as int == (y + c) % pi;
            lemma_shift_injective(x as int, y as int, c, pi);
        }
    }
    if p % 2 == 0 {
        lemma_shift_opposite_free(f, c, p);
        lemma_shift_opposite_free(t, c, p);
    }
}

proof fn lemma_shift_opposite_free(s: Set<u32>, c: int, p: nat)
    requires
        0 < p <= u32::MAX,
        below(s, p),
        closed_to_opposite_free(s, p),
    ensures
        closed_to_opposite_free(shifted(s, c, p as int), p),
{
    let pi = p as int;
    let ss = shifted(s, c, pi);
    assert forall|v: u32| #[trigger] ss.contains(v) implies !ss.contains(
        opposite(v as int, pi) as u32,
    ) by {
        let x = choose|x: u32| s.contains(x) && v as int == (x + c) % pi;
        lemma_opposite_shift(x as int, c, pi);
        let o = opposite(x as int, pi);
        assert(0 <= o < pi);
        assert(0 <= opposite(v as int, pi) < pi);
        assert((opposite(v as int, pi) as u32) as int == (o + c) % pi);
        if ss.contains(opposite(v as int, pi) as u32) {
            let y = choose|y: u32|
                s.contains(y) && (opposite(v as int, pi) as u32) as int == (y + c) % pi;
            lemma_shift_injective(y as int, o, c, pi);
            assert(s.contains(o as u32));
        }
    }
}

/// The residues of `v`, each shifted by `c` modulo `p`.
fn shift_vec(v: &Vec<u32>, c: u32, p: u32) -> (r: Vec<u32>)
    requires
        p > 0,
    ensures
        r@.no_duplicates(),
        r@.to_set() == shifted(v@.to_set(), c as int, p as int),
{
    let mut out: Vec<u32> = Vec::new();
    let mut i: usize = 0;
    while i < v.len()
        invariant
            p > 0,
            i <= v.len(),
            out@.len() == i,
            forall|j: int| 0 <= j < i ==> out@[j] as int == (v@[j] + c) % (p as int),
        decreases v.len() - i,
    {
        let y = ((v[i] as u64 + c as u64) % (p as u64)) as u32;
        out.push(y);
        i = i + 1;
    }
    proof {
        let target = shifted(v@.to_set(), c as int, p as int);
        assert forall|y: u32| out@.contains(y) <==> target.contains(y) by {
            if out@.contains(y) {
                let j = choose|j: int| 0 <= j < out@.len() && #[trigger] out@[j] == y;
                assert(v@.to_set().contains(v@[j]));
            }
            if target.contains(y) {
                let x = choose|x: u32| v@.to_set().contains(x) && y as int == (x + c) % (p as int);
                let j = choose|j: int| 0 <= j < v@.len() && #[trigger] v@[j] == x;
                assert(out@[j] == y);
            }
        }
        assert(out@.to_set() =~= target);
    }
    dedup(&out)
}

/// What every encoding of an origin domain into `Z/p` offers.
pub trait Encoding: Sized {
    /// An element of the origin domain.
    type Data;

    /// The encoding is well formed (it holds for every value that a constructor returned).
    spec fn well_formed(&self) -> bool;

    /// Whether the encoding is valid.
    fn is_valid(&self) -> (r: bool)
        requires
            self.well_formed(),
    ;

    /// Whether the partition of `element_of_zo` contains `value`.
    fn is_partition_containing(&self, element_of_zo: Self::Data, value: u32) -> (r: bool)
        requires
            self.well_formed(),
    ;

    /// Whether every partition is a single residue.
    fn is_canonical(&self) -> (r: bool)
        requires
            self.well_formed(),
    ;

    /// The plaintext modulus `p`.
    fn get_modulus(&self) -> (r: u32)
        requires
            self.well_formed(),
    ;

    /// `(p - x) mod p`.
    fn negative_on_p_ring(&self, x: u32) -> (r: u32)
        requires
            self.well_formed(),
    ;

    /// Every partition shifted by `constant` modulo `p`, with the same labels.
    fn add_constant(&self, constant: u32) -> (r: Self)
        requires
            self.well_formed(),
        ensures
            r.well_formed(),
    ;
}

/// `(p - x) mod p` on `Z/p`.
fn negative_mod(x: u32, p: u32) -> (r: u32)
    requires
        p > 0,
    ensures
        r as int == (p - x) % (p as int),
{
    let xr = x % p;
    proof {
        let q = (x / p) as int;
        let rr = xr as int;
        lemma_fundamental_div_mod(x as int, p as int);
        assert(p * (-q) == -(p * q)) by (nonlinear_arith);
        lemma_mod_multiples_vanish(-q, p - rr, p as int);
        assert(p * (-q) + (p - rr) == p - x);
    }
    (p - xr) % p
}

/// A Boolean encoding: two disjoint partitions of `Z/p`, labelled `false` and `true`.
#[derive(Clone, Debug)]
pub struct BooleanEncoding {
    part_false: Vec<u32>,
    part_true: Vec<u32>,
    modulus_p: u32,
}

impl BooleanEncoding {
    /// The residues that encode `false`.
    pub closed spec fn false_part(&self) -> Set<u32> {
        self.part_false@.to_set()
    }

    /// The residues that encode `true`.
    pub closed spec fn true_part(&self) -> Set<u32> {
        self.part_true@.to_set()
    }

    /// The residues that encode `b`.
    pub open spec fn part(&self, b: bool) -> Set<u32> {
        if b {
            self.true_part()
        } else {
            self.false_part()
        }
    }

    /// The plaintext modulus `p`.
    pub closed spec fn modulus(&self) -> nat {
        self.modulus_p as nat
    }

    /// Each partition is a single residue.
    pub open spec fn canonical(&self) -> bool {
        self.false_part().len() == 1 && self.true_part().len() == 1
    }

    /// Representation invariant: no residue is listed twice, and the encoding is valid.
    pub closed spec fn inv(&self) -> bool {
        &&& self.part_false@.no_duplicates()
        &&& self.part_true@.no_duplicates()
        &&& boolean_valid(self.false_part(), self.true_part(), self.modulus())
    }

    /// Every encoding value is valid and its partitions are finite.
    pub proof fn lemma_inv(&self)
        requires
            self.inv(),
        ensures
            boolean_valid(self.false_part(), self.true_part(), self.modulus()),
            self.modulus() <= u32::MAX,
            self.false_part().finite(),
            self.true_part().finite(),
    {
        self.part_false@.unique_seq_to_set();
        self.part_true@.unique_seq_to_set();
    }

    fn from_parts(part_false: Vec<u32>, part_true: Vec<u32>, modulus_p: u32) -> (r: Result<
        Self,
        GadgetError,
    >)
        ensures
            r is Ok <==> boolean_valid(part_false@.to_set(), part_true@.to_set(), modulus_p as nat),
            r is Ok ==> r->Ok_0.inv() && r->Ok_0.false_part() == part_false@.to_set()
                && r->Ok_0.true_part() == part_true@.to_set() && r->Ok_0.modulus()
                == modulus_p as nat,
            r is Err ==> r->Err_0 == GadgetError::EncodingInvalid,
    {
        let f = dedup(&part_false);
        let t = dedup(&part_true);
        if check_boolean_valid(&f, &t, modulus_p) {
            Ok(BooleanEncoding { part_false: f, part_true: t, modulus_p })
        } else {
            Err(GadgetError::EncodingInvalid)
        }
    }

    /// Builds the encoding `part_false -> false`, `part_true -> true` over `Z/modulus_p`;
    /// fails with `EncodingInvalid` exactly when the result would not be valid.
    pub fn new(part_false: Vec<u32>, part_true: Vec<u32>, modulus_p: u32) -> (r: Result<
        Self,
        GadgetError,
    >)
        ensures
            r is Ok <==> boolean_valid(part_false@.to_set(), part_true@.to_set(), modulus_p as nat),
            r is Ok ==> r->Ok_0.inv() && r->Ok_0.false_part() == part_false@.to_set()
                && r->Ok_0.true_part() == part_true@.to_set() && r->Ok_0.modulus()
                == modulus_p as nat,
            r is Err ==> r->Err_0 == GadgetError::EncodingInvalid,
    {
        Self::from_parts(part_false, part_true, modulus_p)
    }

    /// The canonical encoding `{0} -> false`, `{d_true} -> true` over `Z/modulus`.
    pub fn new_canonical(d_true: u32, modulus: u32) -> (r: Result<Self, GadgetError>)
        ensures
            r is Ok <==> boolean_valid(set![0u32], set![d_true], modulus as nat),
            r is Ok ==> r->Ok_0.inv() && r->Ok_0.false_part() == set![0u32]
                && r->Ok_0.true_part() == set![d_true] && r->Ok_0.modulus() == modulus as nat,
            r is Err ==> r->Err_0 == GadgetError::EncodingInvalid,
    {
        let f = vec![0u32];
        let t = vec![d_true];
        proof {
            assert(f@.to_set() =~= set![0u32]);
            assert(t@.to_set() =~= set![d_true]);
        }
        Self::from_parts(f, t, modulus)
    }

    /// The parity encoding `{0} -> false`, `{1} -> true` over `Z/2`.
    pub fn parity_encoding() -> (r: Self)
        ensures
            r.inv(),
            r.false_part() == set![0u32],
            r.true_part() == set![1u32],
            r.modulus() == 2,
    {
        let f = vec![0u32];
        let t = vec![1u32];
        proof {
            assert(f@.to_set() =~= set![0u32]);
            assert(t@.to_set() =~= set![1u32]);
            assert(opposite(0, 2) == 1);
            assert(opposite(1, 2) == 0);
        }
        BooleanEncoding { part_false: f, part_true: t, modulus_p: 2 }
    }
}

impl Encoding for BooleanEncoding {
    type Data = bool;

    open spec fn well_formed(&self) -> bool {
        self.inv()
    }

    fn is_valid(&self) -> (r: bool)
        ensures
            r == boolean_valid(self.false_part(), self.true_part(), self.modulus()),
    {
        check_boolean_valid(&self.part_false, &self.part_true, self.modulus_p)
    }

    fn is_partition_containing(&self, element_of_zo: bool, value: u32) -> (r: bool)
        ensures
            r == self.part(element_of_zo).contains(value),
    {
        if element_of_zo {
            vec_contains(&self.part_true, value)
        } else {
            vec_contains(&self.part_false, value)
        }
    }

    fn is_canonical(&self) -> (r: bool)
        ensures
            r == self.canonical(),
    {
        proof {
            self.part_false@.unique_seq_to_set();
            self.part_true@.unique_seq_to_set();
        }
        self.part_false.len() == 1 && self.part_true.len() == 1
    }

    fn get_modulus(&self) -> (r: u32)
        ensures
            r as nat == self.modulus(),
    {
        self.modulus_p
    }

    fn negative_on_p_ring(&self, x: u32) -> (r: u32)
        ensures
            r as int == (self.modulus() - x) % (self.modulus() as int),
    {
        negative_mod(x, self.modulus_p)
    }

    fn add_constant(&self, constant: u32) -> (r: Self)
        ensures
            r.modulus() == self.modulus(),
            r.false_part() == shifted(self.false_part(), constant as int, self.modulus() as int),
            r.true_part() == shifted(self.true_part(), constant as int, self.modulus() as int),
    {
        let f = shift_vec(&self.part_false, constant, self.modulus_p);
        let t = shift_vec(&self.part_true, constant, self.modulus_p);
        proof {
            lemma_shift_valid(
                self.false_part(),
                self.true_part(),
                constant as int,
                self.modulus(),
            );
        }
        BooleanEncoding { part_false: f, part_true: t, modulus_p: self.modulus_p }
    }
}

impl BooleanEncoding {
    /// A copy of this encoding.
    pub fn duplicate(&self) -> (r: Self)
        requires
            self.inv(),
        ensures
            r.inv(),
            r.false_part() == self.false_part(),
            r.true_part() == self.true_part(),
            r.modulus() == self.modulus(),
    {
        BooleanEncoding {
            part_false: self.part_false.clone(),
            part_true: self.part_true.clone(),
            modulus_p: self.modulus_p,
        }
    }

    /// The single residues `(d_false, d_true)` of a canonical encoding.
    pub fn get_values_if_canonical(&self) -> (r: Result<(u32, u32), GadgetError>)
        requires
            self.inv(),
        ensures
            r is Ok <==> self.canonical(),
            r is Ok ==> self.false_part() == set![r->Ok_0.0] && self.true_part() == set![r->Ok_0.1],
            r is Err ==> r->Err_0 == GadgetError::EncodingNotCanonical,
    {
        if !self.is_canonical() {
            return Err(GadgetError::EncodingNotCanonical);
        }
        proof {
            self.part_false@.unique_seq_to_set();
            self.part_true@.unique_seq_to_set();
        }
        let f = self.part_false[0];
        let t = self.part_true[0];
        proof {
            assert(self.part_false@ =~= seq![f]);
            assert(self.part_true@ =~= seq![t]);
            assert(self.false_part() =~= set![f]);
            assert(self.true_part() =~= set![t]);
        }
        Ok((f, t))
    }

    /// The single residue that encodes `b` in a canonical encoding.
    pub fn get_mono_encoding(&self, b: bool) -> (r: Result<u32, GadgetError>)
        requires
            self.inv(),
        ensures
            r is Ok <==> self.canonical(),
            r is Ok ==> self.part(b) == set![r->Ok_0],
            r is Err ==> r->Err_0 == GadgetError::EncodingNotCanonical,
    {
        match self.get_values_if_canonical() {
            Ok((f, t)) => Ok(if b { t } else { f }),
            Err(e) => Err(e),
        }
    }

    /// The same partitions with the labels exchanged.
    pub fn swapped(&self) -> (r: Self)
        requires
            self.inv(),
        ensures
            r.inv(),
            r.false_part() == self.true_part(),
            r.true_part() == self.false_part(),
            r.modulus() == self.modulus(),
    {
        BooleanEncoding {
            part_false: self.part_true.clone(),
            part_true: self.part_false.clone(),
            modulus_p: self.modulus_p,
        }
    }

    /// Every partition multiplied by `constant` modulo `p`; fails with `EncodingInvalid`
    /// exactly when the product is not a valid encoding.
    pub fn multiply_constant(&self, constant: u32) -> (r: Result<Self, GadgetError>)
        requires
            self.inv(),
        ensures
            ({
                let p = self.modulus() as int;
                let f = scaled(self.false_part(), constant as int, p);
                let t = scaled(self.true_part(), constant as int, p);
                &&& r is Ok <==> boolean_valid(f, t, self.modulus())
                &&& r is Ok ==> r->Ok_0.inv() && r->Ok_0.false_part() == f && r->Ok_0.true_part() == t
                    && r->Ok_0.modulus() == self.modulus()
                &&& r is Err ==> r->Err_0 == GadgetError::EncodingInvalid
            }),
    {
        let f = scale_vec(&self.part_false, constant, self.modulus_p);
        let t = scale_vec(&self.part_true, constant, self.modulus_p);
        Self::from_parts(f, t, self.modulus_p)
    }
}

/// The residues of `v`, each multiplied by `c` modulo `p`.
fn scale_vec(v: &Vec<u32>, c: u32, p: u32) -> (r: Vec<u32>)
    requires
        p > 0,
    ensures
        r@.to_set() == scaled(v@.to_set(), c as int, p as int),
{
    let mut out: Vec<u32> = Vec::new();
    let mut i: usize = 0;
    while i < v.len()
        invariant
            p > 0,
            i <= v.len(),
            out@.len() == i,
            forall|j: int| 0 <= j < i ==> out@[j] as int == (v@[j] * c) % (p as int),
        decreases v.len() - i,
    {
        let a = v[i] as u64;
        assert(a * (c as u64) <= u32::MAX as u64 * u32::MAX as u64) by (nonlinear_arith)
            requires
                a <= u32::MAX,
                c <= u32::MAX,
        ;
        let y = ((a * c as u64) % (p as u64)) as u32;
        out.push(y);
        i = i + 1;
    }
    proof {
        let target = scaled(v@.to_set(), c as int, p as int);
        assert forall|y: u32| out@.contains(y) <==> target.contains(y) by {
            if out@.contains(y) {
                let j = choose|j: int| 0 <= j < out@.len() && #[trigger] out@[j] == y;
                assert(v@.to_set().contains(v@[j]));
            }
            if target.contains(y) {
                let x = choose|x: u32| v@.to_set().contains(x) && y as int == (x * c) % (p as int);
                let j = choose|j: int| 0 <= j < v@.len() && #[trigger] v@[j] == x;
                assert(out@[j] == y);
            }
        }
        assert(out@.to_set() =~= target);
    }
    out
}

/// Decides `boolean_valid` on the listed partitions.
fn check_boolean_valid(f: &Vec<u32>, t: &Vec<u32>, p: u32) -> (r: bool)
    ensures
        r == boolean_valid(f@.to_set(), t@.to_set(), p as nat),
{
    if p == 0 {
        return false;
    }
    if !all_below(f, p) || !all_below(t, p) {
        return false;
    }
    if !disjoint_vecs(f, t) {
        return false;
    }
    if p % 2 == 0 {
        if !opposite_free(f, p) || !opposite_free(t, p) {
            return false;
        }
    }
    true
}

} // verus!

verus! {

/// The sets listed by each vector of `parts`.
pub open spec fn part_sets(parts: Seq<Vec<u32>>) -> Seq<Set<u32>> {
    Seq::new(parts.len(), |i: int| parts[i]@.to_set())
}

/// `(o - i) mod o`: the negation of `i` on `Z/o`.
pub open spec fn negative_on(i: int, o: int) -> int {
    (o - i) % o
}

/// Validity of an arithmetic encoding of `Z/o` over `Z/p`: `o` parts, all in `Z/p`, pairwise
/// disjoint; when `p` is even, the opposite of a residue of part `i` lies in no part but
/// part `(o - i) mod o`.
pub open spec fn arithmetic_valid(parts: Seq<Set<u32>>, o: nat, p: nat) -> bool {
    &&& p > 0
    &&& o > 0
    &&& parts.len() == o
    &&& forall|i: int| 0 <= i < o ==> below(#[trigger] parts[i], p)
    &&& forall|i: int, j: int| 0 <= i < j < o ==> (#[trigger] parts[i]).disjoint(#[trigger] parts[j])
    &&& p % 2 == 0 ==> forall|i: int, j: int, x: u32|
        #![trigger parts[i].contains(x), parts[j]]
        0 <= i < o && 0 <= j < o && j != negative_on(i, o as int) && parts[i].contains(x)
            ==> !parts[j].contains(opposite(x as int, p as int) as u32)
}

/// Whether the parts are pairwise disjoint.
fn pairwise_disjoint(parts: &Vec<Vec<u32>>) -> (r: bool)
    ensures
        r == forall|i: int, j: int|
            0 <= i < j < parts@.len() ==> (#[trigger] part_sets(parts@)[i]).disjoint(
                #[trigger] part_sets(parts@)[j],
            ),
{
    let ghost ps = part_sets(parts@);
    let mut i: usize = 0;
    while i < parts.len()
        invariant
            ps == part_sets(parts@),
            i <= parts.len(),
            forall|a: int, b: int| 0 <= a < i && a < b < parts@.len() ==> (#[trigger] ps[a]).disjoint(#[trigger] ps[b]),
        decreases parts.len() - i,
    {
        let mut j: usize = i + 1;
        while j < parts.len()
            invariant
                ps == part_sets(parts@),
                i < parts.len(),
                i + 1 <= j <= parts.len(),
                forall|a: int, b: int| 0 <= a < i && a < b < parts@.len() ==> (#[trigger] ps[a]).disjoint(#[trigger] ps[b]),
                forall|b: int| i < b < j ==> ps[i as int].disjoint(#[trigger] ps[b]),
            decreases parts.len() - j,
        {
            if !disjoint_vecs(&parts[i], &parts[j]) {
                assert(ps[i as int] == parts@[i as int]@.to_set());
                assert(ps[j as int] == parts@[j as int]@.to_set());
                return false;
            }
            j = j + 1;
        }
        i = i + 1;
    }
    true
}

/// Whether the opposite of every residue of part `i` lies in no part but part `(o - i) mod o`.
fn negacyclic_parts(parts: &Vec<Vec<u32>>, p: u32) -> (r: bool)
    requires
        p > 0,
        parts@.len() > 0,
        parts@.len() <= u32::MAX,
    ensures
        r == forall|i: int, j: int, x: u32|
            #![trigger part_sets(parts@)[i].contains(x), part_sets(parts@)[j]]
            0 <= i < parts@.len() && 0 <= j < parts@.len() && j != negative_on(i, parts@.len() as int)
                && part_sets(parts@)[i].contains(x) ==> !part_sets(parts@)[j].contains(
                opposite(x as int, p as int) as u32,
            ),
{
    let ghost ps = part_sets(parts@);
    let o = parts.len();
    let mut i: usize = 0;
    while i < o
        invariant
            ps == part_sets(parts@),
            o == parts@.len(),
            0 < o <= u32::MAX,
            p > 0,
            i <= o,
            forall|a: int, b: int, x: u32|
                #![trigger ps[a].contains(x), ps[b]]
                0 <= a < i && 0 <= b < o && b != negative_on(a, o as int) && ps[a].contains(x)
                    ==> !ps[b].contains(opposite(x as int, p as int) as u32),
        decreases o - i,
    {
        let ni = negative_mod(i as u32, o as u32) as usize;
        let part = &parts[i];
        let mut k: usize = 0;
        while k < part.len()
            invariant
                ps == part_sets(parts@),
                o == parts@.len(),
                0 < o <= u32::MAX,
                p > 0,
                i < o,
                ni as int == negative_on(i as int, o as int),
                part == parts@[i as int],
                k <= part.len(),
                forall|a: int, b: int, x: u32|
                    #![trigger ps[a].contains(x), ps[b]]
                    0 <= a < i && 0 <= b < o && b != negative_on(a, o as int) && ps[a].contains(x)
                        ==> !ps[b].contains(opposite(x as int, p as int) as u32),
                forall|c: int, b: int|
                    #![trigger part@[c], ps[b]]
                    0 <= c < k && 0 <= b < o && b != ni ==> !ps[b].contains(
                        opposite(part@[c] as int, p as int) as u32,
                    ),
            decreases part.len() - k,
        {
            let opp = opposite_exec(part[k], p);
            let mut j: usize = 0;
            while j < o
                invariant
                    ps == part_sets(parts@),
                    o == parts@.len(),
                    k < part.len(),
                    i < o,
                    part == parts@[i as int],
                    ni as int == negative_on(i as int, o as int),
                    opp as int == opposite(part@[k as int] as int, p as int),
                    j <= o,
                    forall|b: int| 0 <= b < j && b != ni ==> !(#[trigger] ps[b]).contains(opp),
                decreases o - j,
            {
                if j != ni && vec_contains(&parts[j], opp) {
                    assert(ps[i as int] == parts@[i as int]@.to_set());
                    assert(ps[j as int] == parts@[j as int]@.to_set());
                    assert(ps[i as int].contains(part@[k as int]));
                    assert(ps[j as int].contains(opp));
                    return false;
                }
                j = j + 1;
            }
            k = k + 1;
        }
        proof {
            assert forall|b: int, x: u32|
                0 <= b < o && b != negative_on(i as int, o as int) && #[trigger] ps[i as int].contains(x)
                    implies !(#[trigger] ps[b]).contains(opposite(x as int, p as int) as u32) by {
                let c = choose|c: int| 0 <= c < part@.len() && #[trigger] part@[c] == x;
            }
        }
        i = i + 1;
    }
    true
}

/// Whether every part lies in `Z/p`.
fn parts_below(parts: &Vec<Vec<u32>>, p: u32) -> (r: bool)
    ensures
        r == forall|i: int| 0 <= i < parts@.len() ==> below(#[trigger] part_sets(parts@)[i], p as nat),
{
    let mut i: usize = 0;
    while i < parts.len()
        invariant
            i <= parts.len(),
            forall|a: int| 0 <= a < i ==> below(#[trigger] part_sets(parts@)[a], p as nat),
        decreases parts.len() - i,
    {
        if !all_below(&parts[i], p) {
            assert(part_sets(parts@)[i as int] == parts@[i as int]@.to_set());
            return false;
        }
        i = i + 1;
    }
    true
}

/// Decides `arithmetic_valid` on the listed parts.
fn check_arithmetic_valid(origin_modulus: u32, parts: &Vec<Vec<u32>>, p: u32) -> (r: bool)
    ensures
        r == arithmetic_valid(part_sets(parts@), origin_modulus as nat, p as nat),
{
    if p == 0 || origin_modulus == 0 || parts.len() != origin_modulus as usize {
        return false;
    }
    if !parts_below(parts, p) || !pairwise_disjoint(parts) {
        return false;
    }
    if p % 2 == 0 && !negacyclic_parts(parts, p) {
        return false;
    }
    true
}

} // verus!

verus! {

/// Every part of `parts` shifted by `c` modulo `p`.
pub open spec fn shifted_parts(parts: Seq<Set<u32>>, c: int, p: int) -> Seq<Set<u32>> {
    Seq::new(parts.len(), |i: int| shifted(parts[i], c, p))
}

/// Shifting a valid arithmetic encoding by a constant keeps it valid.
pub proof fn lemma_shift_arithmetic_valid(parts: Seq<Set<u32>>, o: nat, p: nat, c: int)
    requires
        arithmetic_valid(parts, o, p),
        p <= u32::MAX,
    ensures
        arithmetic_valid(shifted_parts(parts, c, p as int), o, p),
{
    let pi = p as int;
    let sp = shifted_parts(parts, c, pi);
    assert forall|i: int| 0 <= i < o implies below(#[trigger] sp[i], p) by {
        assert forall|v: u32| sp[i].contains(v) implies (v as nat) < p by {
            let x = choose|x: u32| parts[i].contains(x) && v as int == (x + c) % pi;
        }
    }
    assert forall|i: int, j: int| 0 <= i < j < o implies (#[trigger] sp[i]).disjoint(#[trigger] sp[j]) by {
        assert forall|v: u32| sp[i].contains(v) implies !sp[j].contains(v) by {
            let x = choose|x: u32| parts[i].contains(x) && v as int == (x + c) % pi;
            if sp[j].contains(v) {
                let y = choose|y: u32| parts[j].contains(y) && v as int == (y + c) % pi;
                assert(below(parts[i], p));
                assert(below(parts[j], p));
                lemma_shift_injective(x as int, y as int, c, pi);
                assert(parts[i].disjoint(parts[j]));
            }
        }
    }
    if p % 2 == 0 {
        assert forall|i: int, j: int, v: u32|
            #![trigger sp[i].contains(v), sp[j]]
            0 <= i < o && 0 <= j < o && j != negative_on(i, o as int) && sp[i].contains(v)
                implies !sp[j].contains(opposite(v as int, pi) as u32) by {
            let x = choose|x: u32| parts[i].contains(x) && v as int == (x + c) % pi;
            lemma_opposite_shift(x as int, c, pi);
            let ox = opposite(x as int, pi);
            assert(0 <= ox < pi);
            assert(0 <= opposite(v as int, pi) < pi);
            if sp[j].contains(opposite(v as int, pi) as u32) {
                let y = choose|y: u32|
                    parts[j].contains(y) && (opposite(v as int, pi) as u32) as int == (y + c) % pi;
                assert(below(parts[j], p));
                lemma_shift_injective(y as int, ox, c, pi);
                assert(parts[i].contains(x) && parts[j].contains(ox as u32));
            }
        }
    }
}

/// An arithmetic encoding: `o` disjoint parts of `Z/p`, part `i` encoding `i` of `Z/o`.
#[derive(Clone, Debug)]
pub struct ArithmeticEncoding {
    origin_modulus: u32,
    parts: Vec<Vec<u32>>,
    modulus_p: u32,
}

impl ArithmeticEncoding {
    /// The parts, in the order of the origin elements.
    pub closed spec fn parts_view(&self) -> Seq<Set<u32>> {
        part_sets(self.parts@)
    }

    /// The origin modulus `o`.
    pub closed spec fn origin(&self) -> nat {
        self.origin_modulus as nat
    }

    /// The plaintext modulus `p`.
    pub closed spec fn modulus(&self) -> nat {
        self.modulus_p as nat
    }

    /// Each part is a single residue.
    pub open spec fn canonical(&self) -> bool {
        forall|i: int| 0 <= i < self.origin() ==> (#[trigger] self.parts_view()[i]).len() == 1
    }

    /// Representation invariant: no residue is listed twice in a part, and the encoding is valid.
    pub closed spec fn inv(&self) -> bool {
        &&& forall|i: int| 0 <= i < self.parts@.len() ==> (#[trigger] self.parts@[i])@.no_duplicates()
        &&& arithmetic_valid(self.parts_view(), self.origin(), self.modulus())
    }

    /// Every encoding value is valid.
    pub proof fn lemma_inv(&self)
        requires
            self.inv(),
        ensures
            arithmetic_valid(self.parts_view(), self.origin(), self.modulus()),
            self.modulus() <= u32::MAX,
            self.origin() <= u32::MAX,
    {
    }

    /// Builds the encoding whose part `i` is `parts[i]`; fails with `EncodingInvalid`
    /// exactly when the result would not be valid.
    pub fn new(origin_modulus: u32, parts: Vec<Vec<u32>>, modulus_p: u32) -> (r: Result<
        Self,
        GadgetError,
    >)
        ensures
            r is Ok <==> arithmetic_valid(part_sets(parts@), origin_modulus as nat, modulus_p as nat),
            r is Ok ==> r->Ok_0.inv() && r->Ok_0.parts_view() == part_sets(parts@)
                && r->Ok_0.origin() == origin_modulus as nat && r->Ok_0.modulus() == modulus_p as nat,
            r is Err ==> r->Err_0 == GadgetError::EncodingInvalid,
    {
        let mut clean: Vec<Vec<u32>> = Vec::new();
        let mut i: usize = 0;
        while i < parts.len()
            invariant
                i <= parts.len(),
                clean@.len() == i,
                forall|j: int| 0 <= j < i ==> (#[trigger] clean@[j])@.no_duplicates(),
                forall|j: int| 0 <= j < i ==> (#[trigger] clean@[j])@.to_set() == parts@[j]@.to_set(),
            decreases parts.len() - i,
        {
            clean.push(dedup(&parts[i]));
            i = i + 1;
        }
        assert(part_sets(clean@) =~= part_sets(parts@));
        if check_arithmetic_valid(origin_modulus, &clean, modulus_p) {
            Ok(ArithmeticEncoding { origin_modulus, parts: clean, modulus_p })
        } else {
            Err(GadgetError::EncodingInvalid)
        }
    }

    /// The canonical encoding whose part `i` is `{values_for_singletons[i]}`.
    pub fn new_canonical(origin_modulus: u32, values_for_singletons: Vec<u32>, modulus_p: u32) -> (r:
        Result<Self, GadgetError>)
        ensures
            ({
                let ps = Seq::new(values_for_singletons@.len(), |i: int| set![values_for_singletons@[i]]);
                &&& r is Ok <==> arithmetic_valid(ps, origin_modulus as nat, modulus_p as nat)
                &&& r is Ok ==> r->Ok_0.inv() && r->Ok_0.parts_view() == ps && r->Ok_0.origin()
                    == origin_modulus as nat && r->Ok_0.modulus() == modulus_p as nat
                &&& r is Err ==> r->Err_0 == GadgetError::EncodingInvalid
            }),
    {
        let ghost ps = Seq::new(values_for_singletons@.len(), |i: int| set![values_for_singletons@[i]]);
        let mut parts: Vec<Vec<u32>> = Vec::new();
        let mut i: usize = 0;
        while i < values_for_singletons.len()
            invariant
                i <= values_for_singletons.len(),
                parts@.len() == i,
                forall|j: int| 0 <= j < i ==> (#[trigger] parts@[j])@ == seq![values_for_singletons@[j]],
            decreases values_for_singletons.len() - i,
        {
            parts.push(vec![values_for_singletons[i]]);
            i = i + 1;
        }
        assert forall|j: int| 0 <= j < parts@.len() implies #[trigger] part_sets(parts@)[j] == ps[j] by {
            let v = values_for_singletons@[j];
            assert(parts@[j]@ == seq![v]);
            assert(seq![v][0] == v);
            assert forall|y: u32| seq![v].contains(y) implies y == v by {
                let k = choose|k: int| 0 <= k < 1 && #[trigger] seq![v][k] == y;
            }
            assert(parts@[j]@.to_set() =~= set![v]);
        }
        assert(part_sets(parts@) =~= ps);
        Self::new(origin_modulus, parts, modulus_p)
    }

    /// A copy of this encoding.
    pub fn duplicate(&self) -> (r: Self)
        requires
            self.inv(),
        ensures
            r.inv(),
            r.parts_view() == self.parts_view(),
            r.origin() == self.origin(),
            r.modulus() == self.modulus(),
    {
        let mut parts: Vec<Vec<u32>> = Vec::new();
        let mut i: usize = 0;
        while i < self.parts.len()
            invariant
                i <= self.parts.len(),
                parts@.len() == i,
                forall|j: int| 0 <= j < i ==> (#[trigger] parts@[j])@ == self.parts@[j]@,
            decreases self.parts.len() - i,
        {
            parts.push(self.parts[i].clone());
            i = i + 1;
        }
        let r = ArithmeticEncoding { origin_modulus: self.origin_modulus, parts, modulus_p: self.modulus_p };
        assert(r.parts_view() =~= self.parts_view());
        r
    }

    /// The origin modulus `o`.
    pub fn get_origin_modulus(&self) -> (r: u32)
        ensures
            r as nat == self.origin(),
    {
        self.origin_modulus
    }

    /// The residues that encode `element_of_zo`.
    pub fn get_part(&self, element_of_zo: u32) -> (r: &Vec<u32>)
        requires
            self.inv(),
            (element_of_zo as nat) < self.origin(),
        ensures
            r@.to_set() == self.parts_view()[element_of_zo as int],
    {
        &self.parts[element_of_zo as usize]
    }

    /// The single residue of the part of `element_of_zo` in a canonical encoding.
    pub fn get_part_single_value_if_canonical(&self, element_of_zo: u32) -> (r: Result<u32, GadgetError>)
        requires
            self.inv(),
            (element_of_zo as nat) < self.origin(),
        ensures
            r is Ok <==> self.canonical(),
            r is Ok ==> self.parts_view()[element_of_zo as int] == set![r->Ok_0],
            r is Err ==> r->Err_0 == GadgetError::EncodingNotCanonical,
    {
        if !self.is_canonical() {
            return Err(GadgetError::EncodingNotCanonical);
        }
        let part = &self.parts[element_of_zo as usize];
        proof {
            assert(self.parts_view()[element_of_zo as int] == part@.to_set());
            part@.unique_seq_to_set();
        }
        let v = part[0];
        proof {
            assert(part@ =~= seq![v]);
            assert(part@.to_set() =~= set![v]);
        }
        Ok(v)
    }

    /// `(o - e) mod o`: the negation of `element_of_zo` on `Z/o`.
    pub fn negative_on_o_ring(&self, element_of_zo: u32) -> (r: u32)
        requires
            self.inv(),
        ensures
            r as int == negative_on(element_of_zo as int, self.origin() as int),
    {
        negative_mod(element_of_zo, self.origin_modulus)
    }
}

impl Encoding for ArithmeticEncoding {
    type Data = u32;

    open spec fn well_formed(&self) -> bool {
        self.inv()
    }

    fn is_valid(&self) -> (r: bool)
        ensures
            r == arithmetic_valid(self.parts_view(), self.origin(), self.modulus()),
    {
        check_arithmetic_valid(self.origin_modulus, &self.parts, self.modulus_p)
    }

    fn is_partition_containing(&self, element_of_zo: u32, value: u32) -> (r: bool)
        ensures
            r == ((element_of_zo as nat) < self.origin() && self.parts_view()[element_of_zo as int].contains(
                value,
            )),
    {
        if element_of_zo >= self.origin_modulus {
            return false;
        }
        assert(self.parts_view()[element_of_zo as int] == self.parts@[element_of_zo as int]@.to_set());
        vec_contains(&self.parts[element_of_zo as usize], value)
    }

    fn is_canonical(&self) -> (r: bool)
        ensures
            r == self.canonical(),
    {
        let mut i: usize = 0;
        while i < self.parts.len()
            invariant
                self.inv(),
                i <= self.parts.len(),
                forall|j: int| 0 <= j < i ==> (#[trigger] self.parts_view()[j]).len() == 1,
            decreases self.parts.len() - i,
        {
            proof {
                assert(self.parts_view()[i as int] == self.parts@[i as int]@.to_set());
                self.parts@[i as int]@.unique_seq_to_set();
            }
            if self.parts[i].len() != 1 {
                return false;
            }
            i = i + 1;
        }
        true
    }

    fn get_modulus(&self) -> (r: u32)
        ensures
            r as nat == self.modulus(),
    {
        self.modulus_p
    }

    fn negative_on_p_ring(&self, x: u32) -> (r: u32)
        ensures
            r as int == (self.modulus() - x) % (self.modulus() as int),
    {
        negative_mod(x, self.modulus_p)
    }

    fn add_constant(&self, constant: u32) -> (r: Self)
        ensures
            r.origin() == self.origin(),
            r.modulus() == self.modulus(),
            r.parts_view() == shifted_parts(self.parts_view(), constant as int, self.modulus() as int),
    {
        let ghost target = shifted_parts(self.parts_view(), constant as int, self.modulus() as int);
        let mut parts: Vec<Vec<u32>> = Vec::new();
        let mut i: usize = 0;
        while i < self.parts.len()
            invariant
                self.inv(),
                i <= self.parts.len(),
                target == shifted_parts(self.parts_view(), constant as int, self.modulus() as int),
                parts@.len() == i,
                forall|j: int| 0 <= j < i ==> (#[trigger] parts@[j])@.no_duplicates(),
                forall|j: int| 0 <= j < i ==> (#[trigger] parts@[j])@.to_set() == target[j],
            decreases self.parts.len() - i,
        {
            assert(self.parts_view()[i as int] == self.parts@[i as int]@.to_set());
            parts.push(shift_vec(&self.parts[i], constant, self.modulus_p));
            i = i + 1;
        }
        let r = ArithmeticEncoding { origin_modulus: self.origin_modulus, parts, modulus_p: self.modulus_p };
        assert(r.parts_view() =~= target);
        proof {
            lemma_shift_arithmetic_valid(self.parts_view(), self.origin(), self.modulus(), constant as int);
        }
        r
    }
}

} // verus!
