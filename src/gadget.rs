//! Gadgets: one Boolean function realised by a linear combination and one bootstrap.
use vstd::prelude::*;
use crate::bits::{two_pow, bit_of, bits_of, bits_value, le_value, lemma_le_value_bound, lemma_two_pow_pos, int_to_vec_bool, vec_bool_to_int};
use crate::encoding::{BooleanEncoding, Encoding, boolean_valid, vec_contains};
use crate::error::GadgetError;
use crate::engine::{BooleanEngine, encodings_wf, ciphertexts_wf, carries, inputs_ready, table_ok};
use crate::lwe::phase;
use crate::torus::torus_size;
use crate::encoding::scaled;
use crate::accumulator::single;
use crate::ciphertext::Ciphertext;
use crate::server_key::{BootstrapKernel, ServerKey};
use vstd::arithmetic::div_mod::*;

verus! {

/// `sum over j < k of q[j] * bit j of x` (coefficients beyond `q` count as 0).
pub open spec fn weighted_sum(q: Seq<u32>, x: nat, k: nat) -> int
    decreases k,
{
    if k == 0 {
        0
    } else {
        weighted_sum(q, x, (k - 1) as nat) + if (k - 1) < q.len() && bit_of(x, (k - 1) as nat) {
            q[k - 1] as int
        } else {
            0
        }
    }
}

/// The residue modulo `p` that input assignment `x` (little-endian, `k` bits) reaches.
pub open spec fn residue(q: Seq<u32>, x: nat, k: nat, p: int) -> int {
    weighted_sum(q, x, k) % p
}

/// The residues reached by the assignments of `table` labelled `b` among the first `n`.
pub open spec fn labelled(q: Seq<u32>, table: Seq<bool>, k: nat, p: int, b: bool, n: int) -> Set<u32> {
    Set::new(|v: u32| exists|x: nat| x < n && #[trigger] table[x as int] == b && v as int == residue(q, x, k, p))
}

/// No residue is reached by two of the first `n` assignments with different labels.
pub open spec fn consistent(q: Seq<u32>, table: Seq<bool>, k: nat, p: int, n: int) -> bool {
    forall|x: nat, y: nat|
        x < n && y < n && #[trigger] residue(q, x, k, p) == #[trigger] residue(q, y, k, p) ==> table[x as int] == table[y as int]
}

/// `f` may return `b` on the `k` little-endian bits of `x`.
pub open spec fn agrees_with<F: Fn(Vec<bool>) -> bool>(f: F, x: nat, k: nat, b: bool) -> bool {
    exists|v: Vec<bool>| v@ == bits_of(x, k, false) && #[trigger] f.ensures((v,), b)
}

/// The canonical encoding `{0} -> false`, `{q} -> true` over `Z/p` is valid.
pub open spec fn canonical_ok(q: u32, p: u32) -> bool {
    boolean_valid(set![0u32], set![q], p as nat)
}

/// The gadget of truth table `table` (little-endian index, `k` inputs) with coefficients `qis`
/// over `Z/p_in` and output `{0}, {q_out}` over `Z/p_out` can be built: the input and output
/// encodings are valid, no residue gets both labels, and the labelled residues form a valid
/// encoding.
pub open spec fn truth_table_gadget_ok(qis: Seq<u32>, q_out: u32, p_in: u32, p_out: u32, k: nat, table: Seq<bool>) -> bool {
    let n = table.len() as int;
    &&& p_in > 0
    &&& forall|i: int| 0 <= i < qis.len() ==> canonical_ok(#[trigger] qis[i], p_in)
    &&& consistent(qis, table, k, p_in as int, n)
    &&& boolean_valid(
        labelled(qis, table, k, p_in as int, false, n),
        labelled(qis, table, k, p_in as int, true, n),
        p_in as nat,
    )
    &&& canonical_ok(q_out, p_out)
}

/// Input `c`, at modulus `p_in`, can be moved to modulus `p_out`: nothing to do when the moduli
/// agree; otherwise the identity gadget from `Z/p_in` (odd) to `Z/p_out` is valid and `c` is a
/// trivial bit or a Boolean-encrypted sample of dimension `dim`.
pub open spec fn switch_ok(c: Ciphertext, p_in: u32, p_out: u32, dim: int) -> bool {
    p_in == p_out || (p_in % 2 == 1 && canonical_ok(1, p_in) && canonical_ok(1, p_out) && (c is Trivial || (
    c is BooleanEncrypted && crate::engine::sample_of(c).mask@.len() == dim)))
}

/// The truth table of the identity on one input: residue 0 is `false`, residue 1 is `true`.
proof fn lemma_identity_table(p: u32)
    requires
        p >= 2,
    ensures
        labelled(seq![1u32], seq![false, true], 1, p as int, false, 2) == set![0u32],
        labelled(seq![1u32], seq![false, true], 1, p as int, true, 2) == set![1u32],
        consistent(seq![1u32], seq![false, true], 1, p as int, 2),
{
    let q = seq![1u32];
    let tb = seq![false, true];
    reveal_with_fuel(weighted_sum, 2);
    assert(q.len() == 1 && q[0] == 1u32);
    assert(two_pow(0) == 1);
    assert(!bit_of(0, 0));
    assert(bit_of(1, 0));
    assert(weighted_sum(q, 0, 1) == 0);
    assert(weighted_sum(q, 1, 1) == 1);
    vstd::arithmetic::div_mod::lemma_small_mod(0, p as nat);
    vstd::arithmetic::div_mod::lemma_small_mod(1, p as nat);
    assert(residue(q, 0, 1, p as int) == 0);
    assert(residue(q, 1, 1, p as int) == 1);
    assert(labelled(q, tb, 1, p as int, false, 2) =~= set![0u32]) by {
        assert(tb[0] == false);
    }
    assert(labelled(q, tb, 1, p as int, true, 2) =~= set![1u32]) by {
        assert(tb[1] == true);
    }
}

/// `e` is the canonical encoding `{0} -> false`, `{q} -> true` over `Z/p`.
pub open spec fn is_canonical_of(e: BooleanEncoding, q: u32, p: u32) -> bool {
    e.inv() && e.false_part() == set![0u32] && e.true_part() == set![q] && e.modulus() == p as nat
}


/// The positions `i < m` whose coefficient is not 0, in increasing order.
pub open spec fn nonzero_positions(coefficients: Seq<u32>, m: int) -> Seq<int>
    decreases m,
{
    if m <= 0 {
        Seq::empty()
    } else if coefficients[m - 1] != 0 {
        nonzero_positions(coefficients, m - 1).push(m - 1)
    } else {
        nonzero_positions(coefficients, m - 1)
    }
}

/// Every input with a nonzero coefficient can be multiplied by it.
pub open spec fn all_casts_ok(coefficients: Seq<u32>, inputs: Seq<Ciphertext>) -> bool {
    forall|i: int|
        0 <= i < coefficients.len() && i < inputs.len() && #[trigger] coefficients[i] != 0 ==> cast_ok(inputs[i], coefficients[i])
}

/// `x` is a Boolean-encrypted ciphertext whose encoding, multiplied by `c`, stays valid.
pub open spec fn cast_ok(x: Ciphertext, c: u32) -> bool {
    match x {
        Ciphertext::BooleanEncrypted(_, e) => boolean_valid(
            scaled(e.false_part(), c as int, e.modulus() as int),
            scaled(e.true_part(), c as int, e.modulus() as int),
            e.modulus(),
        ),
        _ => false,
    }
}

/// `y` is `x` multiplied by `c`: the sample and the encoding.
pub open spec fn is_cast_of(y: Ciphertext, x: Ciphertext, c: u32) -> bool {
    match (y, x) {
        (Ciphertext::BooleanEncrypted(c2, e2), Ciphertext::BooleanEncrypted(c1, e1)) => {
            &&& e2.false_part() == scaled(e1.false_part(), c as int, e1.modulus() as int)
            &&& e2.true_part() == scaled(e1.true_part(), c as int, e1.modulus() as int)
            &&& e2.modulus() == e1.modulus()
            &&& c2.mask@.len() == c1.mask@.len()
            &&& forall|s: Seq<u32>| s.len() == c1.mask@.len() ==> #[trigger] phase(c2, s) == (c * phase(c1, s)) % torus_size()
        },
        _ => false,
    }
}

/// One more position extends the list of nonzero positions by at most that position.
proof fn lemma_nonzero_positions_step(coefficients: Seq<u32>, i: int)
    requires
        0 <= i < coefficients.len(),
    ensures
        nonzero_positions(coefficients, i + 1) == if coefficients[i] != 0 {
            nonzero_positions(coefficients, i).push(i)
        } else {
            nonzero_positions(coefficients, i)
        },
        forall|j: int| 0 <= j < nonzero_positions(coefficients, i).len() ==> 0 <= #[trigger] nonzero_positions(coefficients, i)[j] < i,
    decreases i,
{
    if i > 0 {
        lemma_nonzero_positions_step(coefficients, i - 1);
    }
}

/// A gadget: canonical input encodings, an intermediate encoding, a canonical output encoding
/// and the truth table of the function, indexed by the little-endian value of the inputs.
pub struct Gadget {
    encodings_in: Vec<BooleanEncoding>,
    encoding_inter: BooleanEncoding,
    encoding_out: BooleanEncoding,
    size_input: u32,
    true_result: Vec<bool>,
}

impl Gadget {
    /// The input encodings.
    pub closed spec fn inputs(&self) -> Seq<BooleanEncoding> {
        self.encodings_in@
    }

    /// The intermediate encoding.
    pub closed spec fn inter(&self) -> BooleanEncoding {
        self.encoding_inter
    }

    /// The output encoding.
    pub closed spec fn out(&self) -> BooleanEncoding {
        self.encoding_out
    }

    /// The number of inputs of the function.
    pub closed spec fn size(&self) -> nat {
        self.size_input as nat
    }

    /// The truth table.
    pub closed spec fn table(&self) -> Seq<bool> {
        self.true_result@
    }

    /// The gadget is well formed: canonical input and output encodings, a table of `2^size`
    /// entries.
    pub open spec fn wf(&self) -> bool {
        &&& encodings_wf(self.inputs())
        &&& forall|i: int| 0 <= i < self.inputs().len() ==> (#[trigger] self.inputs()[i]).canonical()
        &&& self.inter().inv()
        &&& self.out().inv()
        &&& self.out().canonical()
        &&& self.size() < 32
        &&& self.table().len() == two_pow(self.size())
    }

    /// The input encoding of input `index`.
    pub fn get_encoding_in(&self, index: usize) -> (r: &BooleanEncoding)
        requires
            index < self.inputs().len(),
        ensures
            *r == self.inputs()[index as int],
    {
        &self.encodings_in[index]
    }

    /// The output encoding.
    pub fn get_encoding_out(&self) -> (r: &BooleanEncoding)
        ensures
            *r == self.out(),
    {
        &self.encoding_out
    }

    /// The modulus of the input encodings (that of input 0).
    pub fn get_modulus_in(&self) -> (r: u32)
        requires
            self.wf(),
            self.inputs().len() > 0,
        ensures
            r as nat == self.inputs()[0].modulus(),
    {
        self.get_encoding_in(0).get_modulus()
    }

    /// The modulus of the output encoding.
    pub fn get_modulus_out(&self) -> (r: u32)
        requires
            self.wf(),
        ensures
            r as nat == self.out().modulus(),
    {
        self.get_encoding_out().get_modulus()
    }

    /// The `expected_length` bits of `x`, little-endian or big-endian.
    pub fn split_int_in_booleans(x: u32, expected_length: usize, big_endian: bool) -> (r: Vec<bool>)
        requires
            (x as nat) < two_pow(expected_length as nat),
        ensures
            r@ == bits_of(x as nat, expected_length as nat, big_endian),
    {
        int_to_vec_bool(x as usize, expected_length, big_endian)
    }


    /// Assembles a gadget from its encodings and the function `true_fn` on `size_input` bits;
    /// fails with `EncodingNotCanonical` unless every input encoding and the output encoding
    /// are canonical.
    pub fn new<F: Fn(Vec<bool>) -> bool>(
        encodings_in: Vec<BooleanEncoding>,
        encoding_inter: BooleanEncoding,
        encoding_out: BooleanEncoding,
        size_input: u32,
        true_fn: &F,
    ) -> (r: Result<Self, GadgetError>)
        requires
            encodings_wf(encodings_in@),
            encoding_inter.inv(),
            encoding_out.inv(),
            size_input < 32,
            forall|v: Vec<bool>| v@.len() == size_input ==> #[trigger] true_fn.requires((v,)),
        ensures
            r is Ok <==> (forall|i: int| 0 <= i < encodings_in@.len() ==> (#[trigger] encodings_in@[i]).canonical())
                && encoding_out.canonical(),
            r is Err ==> r->Err_0 == GadgetError::EncodingNotCanonical,
            r is Ok ==> r->Ok_0.wf() && r->Ok_0.inputs() == encodings_in@ && r->Ok_0.inter() == encoding_inter
                && r->Ok_0.out() == encoding_out && r->Ok_0.size() == size_input as nat
                && forall|x: int| 0 <= x < r->Ok_0.table().len() ==> agrees_with(*true_fn, x as nat, size_input as nat, #[trigger] r->Ok_0.table()[x]),
    {
        let mut i: usize = 0;
        while i < encodings_in.len()
            invariant
                encodings_wf(encodings_in@),
                i <= encodings_in.len(),
                forall|j: int| 0 <= j < i ==> (#[trigger] encodings_in@[j]).canonical(),
            decreases encodings_in.len() - i,
        {
            if !encodings_in[i].is_canonical() {
                return Err(GadgetError::EncodingNotCanonical);
            }
            i = i + 1;
        }
        if !encoding_out.is_canonical() {
            return Err(GadgetError::EncodingNotCanonical);
        }
        let true_result = Self::truth_table(size_input, true_fn);
        Ok(Gadget { encodings_in, encoding_inter, encoding_out, size_input, true_result })
    }

    /// The gadget of the truth table `table` (entry `x` for the little-endian assignment `x`):
    /// input `i` is encoded `{0}, {qis[i]}` over `Z/p_in`, the output `{0}, {q_out}` over
    /// `Z/p_out`, and the intermediate encoding labels the residue of every assignment.
    pub fn from_truth_table(qis: Vec<u32>, q_out: u32, p_in: u32, p_out: u32, size_input: u32, table: Vec<bool>) -> (r: Result<Self, GadgetError>)
        requires
            size_input < 32,
            table@.len() == two_pow(size_input as nat),
        ensures
            ({
                let n = table@.len() as int;
                let k = size_input as nat;
                let f = labelled(qis@, table@, k, p_in as int, false, n);
                let t = labelled(qis@, table@, k, p_in as int, true, n);
                &&& r is Ok <==> truth_table_gadget_ok(qis@, q_out, p_in, p_out, k, table@)
                &&& (r matches Err(GadgetError::GadgetIntermediateInconsistent)) ==> !consistent(qis@, table@, k, p_in as int, n)
                &&& r is Err ==> r->Err_0 == GadgetError::GadgetIntermediateInconsistent || r->Err_0 == GadgetError::EncodingInvalid
                &&& r is Ok ==> r->Ok_0.wf() && r->Ok_0.inputs().len() == qis@.len()
                    && (forall|i: int| 0 <= i < qis@.len() ==> is_canonical_of(#[trigger] r->Ok_0.inputs()[i], qis@[i], p_in))
                    && r->Ok_0.inter().false_part() == f && r->Ok_0.inter().true_part() == t
                    && r->Ok_0.inter().modulus() == p_in as nat && is_canonical_of(r->Ok_0.out(), q_out, p_out)
                    && r->Ok_0.table() == table@ && r->Ok_0.size() == size_input as nat
            }),
    {
        if p_in == 0 {
            return Err(GadgetError::EncodingInvalid);
        }
        let mut encodings_in: Vec<BooleanEncoding> = Vec::new();
        let mut i: usize = 0;
        while i < qis.len()
            invariant
                i <= qis.len(),
                encodings_in@.len() == i,
                forall|j: int| 0 <= j < i ==> canonical_ok(#[trigger] qis@[j], p_in),
                forall|j: int| 0 <= j < i ==> is_canonical_of(#[trigger] encodings_in@[j], qis@[j], p_in),
            decreases qis.len() - i,
        {
            match BooleanEncoding::new_canonical(qis[i], p_in) {
                Ok(e) => encodings_in.push(e),
                Err(e) => {
                    return Err(e);
                },
            }
            i = i + 1;
        }
        proof {
            assert forall|j: int| 0 <= j < encodings_in@.len() implies (#[trigger] encodings_in@[j]).canonical() by {
                assert(is_canonical_of(encodings_in@[j], qis@[j], p_in));
                assert(set![0u32].len() == 1);
            }
        }
        let encoding_inter = match Self::compute_canonical_encoding_inter(&qis, p_in, size_input, &table) {
            Ok(e) => e,
            Err(e) => {
                return Err(e);
            },
        };
        let encoding_out = match BooleanEncoding::new_canonical(q_out, p_out) {
            Ok(e) => e,
            Err(e) => {
                return Err(e);
            },
        };
        assert(set![0u32].len() == 1 && set![q_out].len() == 1);
        Ok(Gadget { encodings_in, encoding_inter, encoding_out, size_input, true_result: table })
    }

    /// The gadget of `true_fn` on `size_input` bits, with canonical encodings built from the
    /// linear coefficients `qis` (see `from_truth_table`).
    pub fn new_canonical<F: Fn(Vec<bool>) -> bool>(qis: Vec<u32>, q_out: u32, p_in: u32, p_out: u32, size_input: u32, true_fn: &F) -> (r: Result<Self, GadgetError>)
        requires
            size_input < 32,
            forall|v: Vec<bool>| v@.len() == size_input ==> #[trigger] true_fn.requires((v,)),
        ensures
            r is Err ==> r->Err_0 == GadgetError::GadgetIntermediateInconsistent || r->Err_0 == GadgetError::EncodingInvalid,
            exists|tb: Seq<bool>|
                #![trigger truth_table_gadget_ok(qis@, q_out, p_in, p_out, size_input as nat, tb)]
                {
                    &&& tb.len() == two_pow(size_input as nat)
                    &&& forall|x: int| 0 <= x < tb.len() ==> agrees_with(*true_fn, x as nat, size_input as nat, #[trigger] tb[x])
                    &&& (r is Ok <==> truth_table_gadget_ok(qis@, q_out, p_in, p_out, size_input as nat, tb))
                    &&& ((r matches Err(GadgetError::GadgetIntermediateInconsistent)) ==> !consistent(qis@, tb, size_input as nat, p_in as int, tb.len() as int))
                    &&& (r is Ok ==> r->Ok_0.table() == tb)
                },
            r is Ok ==> r->Ok_0.wf() && r->Ok_0.inputs().len() == qis@.len()
                && (forall|i: int| 0 <= i < qis@.len() ==> is_canonical_of(#[trigger] r->Ok_0.inputs()[i], qis@[i], p_in))
                && r->Ok_0.inter().false_part() == labelled(qis@, r->Ok_0.table(), size_input as nat, p_in as int, false, r->Ok_0.table().len() as int)
                && r->Ok_0.inter().true_part() == labelled(qis@, r->Ok_0.table(), size_input as nat, p_in as int, true, r->Ok_0.table().len() as int)
                && r->Ok_0.inter().modulus() == p_in as nat && is_canonical_of(r->Ok_0.out(), q_out, p_out)
                && r->Ok_0.size() == size_input as nat
                && forall|x: int| 0 <= x < r->Ok_0.table().len() ==> agrees_with(*true_fn, x as nat, size_input as nat, #[trigger] r->Ok_0.table()[x]),
    {
        let table = Self::truth_table(size_input, true_fn);
        let ghost tb = table@;
        let r = Self::from_truth_table(qis, q_out, p_in, p_out, size_input, table);
        proof {
            if r is Ok {
                assert(r->Ok_0.table() == tb);
            }
            assert(truth_table_gadget_ok(qis@, q_out, p_in, p_out, size_input as nat, tb) == truth_table_gadget_ok(qis@, q_out, p_in, p_out, size_input as nat, tb));
        }
        r
    }

    /// The function evaluated in the clear on `input` (one bit per input, little-endian).
    pub fn exec_clear(&self, input: Vec<bool>) -> (r: bool)
        requires
            self.wf(),
            input@.len() == self.size(),
        ensures
            r == self.table()[le_value(input@) as int],
    {
        proof {
            lemma_le_value_bound(input@);
        }
        let x = Self::vec_bool_to_int(input, false);
        self.true_result[x as usize]
    }

    /// Evaluates the gadget on `input`, which must be encrypted (or trivial) under the input
    /// encodings; the result carries the output encoding.
    pub fn exec<K: BootstrapKernel>(&self, input: &Vec<Ciphertext>, server_key: &ServerKey<K>) -> (r: Result<Ciphertext, GadgetError>)
        requires
            self.wf(),
            ciphertexts_wf(input@),
            server_key.polynomial_size <= u32::MAX,
        ensures
            r is Ok <==> inputs_ready(self.inputs(), input@, server_key.lwe_dimension as int) && table_ok(self.inter(), self.out()),
            r is Ok ==> carries(r->Ok_0, self.out()) && r->Ok_0.well_formed(),
            (forall|i: int| 0 <= i < input@.len() ==> !(#[trigger] input@[i] is Trivial)) && (exists|i: int| 0 <= i < input@.len() && #[trigger] input@[i] is ArithmeticEncrypted)
                ==> r == Err::<Ciphertext, GadgetError>(GadgetError::EncodingDomainMismatch),
            r is Ok ==> crate::engine::gadget_result(crate::engine::sample_of(r->Ok_0), server_key.kernel, server_key.pbs_order, self.inputs(), self.inter(), self.out(), input@, server_key.lwe_dimension as int, server_key.polynomial_size as int),
    {
        server_key.exec_gadget_with_extraction(&self.encodings_in, &self.encoding_inter, &self.encoding_out, input)
    }

    /// Multiplies each input by its coefficient, dropping the inputs whose coefficient is 0.
    pub fn cast_before_gadget<K: BootstrapKernel>(&self, coefficients: Vec<u32>, inputs: &Vec<Ciphertext>, server_key: &ServerKey<K>) -> (r: Result<Vec<Ciphertext>, GadgetError>)
        requires
            ciphertexts_wf(inputs@),
        ensures
            ({
                let m = if coefficients@.len() < inputs@.len() { coefficients@.len() as int } else { inputs@.len() as int };
                let pos = nonzero_positions(coefficients@, m);
                &&& r is Ok <==> all_casts_ok(coefficients@, inputs@)
                &&& r is Ok ==> r->Ok_0@.len() == pos.len() && ciphertexts_wf(r->Ok_0@) && forall|j: int| 0 <= j < pos.len()
                    ==> is_cast_of(#[trigger] r->Ok_0@[j], inputs@[pos[j]], coefficients@[pos[j]])
            }),
    {
        let m: usize = if coefficients.len() < inputs.len() { coefficients.len() } else { inputs.len() };
        let mut result: Vec<Ciphertext> = Vec::new();
        let mut i: usize = 0;
        while i < m
            invariant
                ciphertexts_wf(inputs@),
                m <= coefficients@.len(),
                m <= inputs@.len(),
                m as int == if coefficients@.len() < inputs@.len() { coefficients@.len() as int } else { inputs@.len() as int },
                i <= m,
                result@.len() == nonzero_positions(coefficients@, i as int).len(),
                ciphertexts_wf(result@),
                forall|j: int| 0 <= j < result@.len() ==> is_cast_of(#[trigger] result@[j], inputs@[nonzero_positions(coefficients@, i as int)[j]], coefficients@[nonzero_positions(coefficients@, i as int)[j]]),
                forall|j: int| 0 <= j < i && #[trigger] coefficients@[j] != 0 ==> cast_ok(inputs@[j], coefficients@[j]),
            decreases m - i,
        {
            let c = coefficients[i];
            let ghost pos = nonzero_positions(coefficients@, i as int);
            proof {
                lemma_nonzero_positions_step(coefficients@, i as int);
            }
            if c != 0 {
                match server_key.cast_encoding(&inputs[i], c) {
                    Ok(y) => {
                        result.push(y);
                    },
                    Err(e) => {
                        proof {
                            assert(!cast_ok(inputs@[i as int], c));
                        }
                        return Err(e);
                    },
                }
            }
            i = i + 1;
        }
        assert(all_casts_ok(coefficients@, inputs@));
        Ok(result)
    }

    /// `cast_before_gadget` with, for input `i`, the residue that encodes `true` under input
    /// encoding `i`.
    pub fn cast_before_gadget_from_1<K: BootstrapKernel>(&self, inputs: Vec<Ciphertext>, server_key: &ServerKey<K>) -> (r: Result<Vec<Ciphertext>, GadgetError>)
        requires
            self.wf(),
            ciphertexts_wf(inputs@),
        ensures
            ({
                let coefficients = Seq::new(self.inputs().len(), |i: int| single(self.inputs()[i].true_part()));
                let m = if coefficients.len() < inputs@.len() { coefficients.len() as int } else { inputs@.len() as int };
                let pos = nonzero_positions(coefficients, m);
                &&& r is Ok <==> all_casts_ok(coefficients, inputs@)
                &&& r is Ok ==> r->Ok_0@.len() == pos.len() && ciphertexts_wf(r->Ok_0@) && forall|j: int| 0 <= j < pos.len()
                    ==> is_cast_of(#[trigger] r->Ok_0@[j], inputs@[pos[j]], coefficients[pos[j]])
            }),
    {
        let ghost target = Seq::new(self.inputs().len(), |i: int| single(self.inputs()[i].true_part()));
        let mut coefficients: Vec<u32> = Vec::new();
        let mut i: usize = 0;
        while i < self.encodings_in.len()
            invariant
                self.wf(),
                i <= self.encodings_in.len(),
                target == Seq::new(self.inputs().len(), |i: int| single(self.inputs()[i].true_part())),
                coefficients@.len() == i,
                forall|j: int| 0 <= j < i ==> #[trigger] coefficients@[j] == target[j],
            decreases self.encodings_in.len() - i,
        {
            let e = &self.encodings_in[i];
            assert(e.canonical());
            let q = match e.get_mono_encoding(true) {
                Ok(q) => q,
                Err(_) => 0,
            };
            proof {
                crate::accumulator::lemma_single(e.part(true), q);
            }
            coefficients.push(q);
            i = i + 1;
        }
        assert(coefficients@ =~= target);
        self.cast_before_gadget(coefficients, &inputs, server_key)
    }

    /// Moves each input whose modulus `p_in_vec[i]` differs from `p_out` to `p_out` through the
    /// identity gadget (`q = [1]`, `q_out = 1`, `f(x) = x[0]`); the others are kept as they are.
    /// Succeeds exactly when every input can be moved (`switch_ok`).
    pub fn modulus_switching<K: BootstrapKernel>(&self, inputs: Vec<Ciphertext>, p_in_vec: Vec<u32>, p_out: u32, server_key: &ServerKey<K>) -> (r: Result<Vec<Ciphertext>, GadgetError>)
        requires
            inputs@.len() == p_in_vec@.len(),
            ciphertexts_wf(inputs@),
            server_key.polynomial_size <= u32::MAX,
        ensures
            r is Ok <==> forall|i: int| 0 <= i < inputs@.len() ==> switch_ok(#[trigger] inputs@[i], p_in_vec@[i], p_out, server_key.lwe_dimension as int),
            r is Ok ==> r->Ok_0@.len() == inputs@.len() && ciphertexts_wf(r->Ok_0@),
            r is Ok ==> forall|i: int| 0 <= i < inputs@.len() && p_in_vec@[i] == p_out ==> (#[trigger] r->Ok_0@[i]).same_as(inputs@[i]),
            r is Ok ==> forall|i: int| 0 <= i < inputs@.len() && p_in_vec@[i] != p_out ==> (#[trigger] r->Ok_0@[i] matches Ciphertext::BooleanEncrypted(_, e)
                && is_canonical_of(e, 1, p_out)),
    {
        let dim = server_key.lwe_dimension;
        let mut out: Vec<Ciphertext> = Vec::new();
        let mut i: usize = 0;
        while i < inputs.len()
            invariant
                inputs@.len() == p_in_vec@.len(),
                ciphertexts_wf(inputs@),
                server_key.polynomial_size <= u32::MAX,
                dim == server_key.lwe_dimension,
                i <= inputs.len(),
                out@.len() == i,
                ciphertexts_wf(out@),
                forall|j: int| 0 <= j < i ==> switch_ok(#[trigger] inputs@[j], p_in_vec@[j], p_out, dim as int),
                forall|j: int| 0 <= j < i && p_in_vec@[j] == p_out ==> (#[trigger] out@[j]).same_as(inputs@[j]),
                forall|j: int| 0 <= j < i && p_in_vec@[j] != p_out ==> (#[trigger] out@[j] matches Ciphertext::BooleanEncrypted(_, e)
                    && is_canonical_of(e, 1, p_out)),
            decreases inputs.len() - i,
        {
            let p_i = p_in_vec[i];
            if p_i != p_out {
                let ghost c = inputs@[i as int];
                let qv = vec![1u32];
                let tv = vec![false, true];
                assert(qv@ =~= seq![1u32]);
                assert(tv@ =~= seq![false, true]);
                proof {
                    reveal_with_fuel(two_pow, 2);
                }
                let gadget = match Self::from_truth_table(qv, 1, p_i, p_out, 1, tv) {
                    Ok(g) => g,
                    Err(e) => {
                        proof {
                            if canonical_ok(1, p_i) && canonical_ok(1, p_out) {
                                assert(set![1u32].contains(1u32));
                                lemma_identity_table(p_i);
                                assert(seq![1u32][0] == 1u32);
                            }
                            assert(!switch_ok(c, p_i, p_out, dim as int));
                        }
                        return Err(e);
                    },
                };
                proof {
                    assert(seq![1u32][0] == 1u32);
                    assert(canonical_ok(1, p_i));
                    assert(set![1u32].contains(1u32));
                    lemma_identity_table(p_i);
                    crate::accumulator::lemma_single(gadget.out().false_part(), 0);
                    crate::accumulator::lemma_single(gadget.out().true_part(), 1);
                    assert(gadget.inputs()[0].canonical()) by {
                        assert(set![0u32].len() == 1 && set![1u32].len() == 1);
                    }
                }
                let single_input = vec![inputs[i].duplicate()];
                assert(ciphertexts_wf(single_input@));
                let y = match gadget.exec(&single_input, server_key) {
                    Ok(y) => y,
                    Err(e) => {
                        proof {
                            assert(!crate::engine::input_ready(single_input@[0], gadget.inputs(), 0, dim as int)
                                || !table_ok(gadget.inter(), gadget.out()));
                            assert(single_input@[0].same_as(c));
                            assert(!switch_ok(c, p_i, p_out, dim as int));
                        }
                        return Err(e);
                    },
                };
                proof {
                    assert(crate::engine::input_ready(single_input@[0], gadget.inputs(), 0, dim as int));
                    assert(table_ok(gadget.inter(), gadget.out()));
                    assert(single_input@[0].same_as(c));
                    assert(set![1u32].contains(1u32));
                    assert(p_out >= 2);
                    vstd::arithmetic::div_mod::lemma_small_mod((p_out - 1) as nat, p_out as nat);
                    assert(p_i % 2 == 1);
                    assert(switch_ok(c, p_i, p_out, dim as int));
                    assert(carries(y, gadget.out()));
                }
                out.push(y);
            } else {
                out.push(inputs[i].duplicate());
            }
            i = i + 1;
        }
        Ok(out)
    }

    fn vec_bool_to_int(x: Vec<bool>, big_endian: bool) -> (r: u32)
        requires
            x@.len() <= 32,
        ensures
            r as nat == bits_value(x@, big_endian),
    {
        proof {
            if big_endian {
                lemma_le_value_bound(crate::bits::reversed(x@));
            } else {
                lemma_le_value_bound(x@);
            }
            lemma_two_pow_le_32(x@.len());
        }
        vec_bool_to_int(x, big_endian) as u32
    }

    /// The truth table of `true_fn` on `size_input` inputs: entry `x` is its value on the
    /// little-endian bits of `x`.
    pub fn truth_table<F: Fn(Vec<bool>) -> bool>(size_input: u32, true_fn: &F) -> (r: Vec<bool>)
        requires
            size_input < 32,
            forall|v: Vec<bool>| v@.len() == size_input ==> #[trigger] true_fn.requires((v,)),
        ensures
            r@.len() == two_pow(size_input as nat),
            forall|x: int| 0 <= x < r@.len() ==> agrees_with(*true_fn, x as nat, size_input as nat, #[trigger] r@[x]),
    {
        proof {
            lemma_two_pow_le_32(size_input as nat);
        }
        let n: u64 = 1u64 << size_input;
        proof {
            lemma_shift_is_pow(size_input);
        }
        let mut table: Vec<bool> = Vec::new();
        let mut x: u64 = 0;
        while x < n
            invariant
                n as nat == two_pow(size_input as nat),
                n <= 0x1_0000_0000,
                x <= n,
                size_input < 32,
                table@.len() == x,
                forall|v: Vec<bool>| v@.len() == size_input ==> #[trigger] true_fn.requires((v,)),
                forall|y: int| 0 <= y < x ==> agrees_with(*true_fn, y as nat, size_input as nat, #[trigger] table@[y]),
            decreases n - x,
        {
            let v = Self::split_int_in_booleans(x as u32, size_input as usize, false);
            let b = true_fn(v);
            table.push(b);
            proof {
                assert(table@[x as int] == b);
                assert(agrees_with(*true_fn, x as nat, size_input as nat, b));
            }
            x = x + 1;
        }
        table
    }

    /// The intermediate encoding of the linear combination with coefficients `qis` modulo `p`:
    /// the residue of every assignment `x` is labelled `table[x]`. Fails with
    /// `GadgetIntermediateInconsistent` when a residue gets both labels, with `EncodingInvalid`
    /// when the labelled residues do not form a valid encoding.
    pub fn compute_canonical_encoding_inter(qis: &Vec<u32>, p: u32, size_input: u32, table: &Vec<bool>) -> (r: Result<BooleanEncoding, GadgetError>)
        requires
            p > 0,
            size_input < 32,
            table@.len() == two_pow(size_input as nat),
        ensures
            ({
                let n = table@.len() as int;
                let k = size_input as nat;
                let f = labelled(qis@, table@, k, p as int, false, n);
                let t = labelled(qis@, table@, k, p as int, true, n);
                &&& r is Ok <==> consistent(qis@, table@, k, p as int, n) && boolean_valid(f, t, p as nat)
                &&& (r matches Err(GadgetError::GadgetIntermediateInconsistent)) <==> !consistent(qis@, table@, k, p as int, n)
                &&& r is Err ==> r->Err_0 == GadgetError::GadgetIntermediateInconsistent || r->Err_0 == GadgetError::EncodingInvalid
                &&& r is Ok ==> r->Ok_0.inv() && r->Ok_0.false_part() == f && r->Ok_0.true_part() == t && r->Ok_0.modulus() == p as nat
            }),
    {
        let ghost k = size_input as nat;
        let ghost q = qis@;
        let ghost tb = table@;
        let n = table.len();
        let mut part_false: Vec<u32> = Vec::new();
        let mut part_true: Vec<u32> = Vec::new();
        let mut x: usize = 0;
        while x < n
            invariant
                p > 0,
                k == size_input as nat,
                size_input < 32,
                q == qis@,
                tb == table@,
                n == tb.len(),
                x <= n,
                forall|v: u32| part_false@.contains(v) <==> labelled(q, tb, k, p as int, false, x as int).contains(v),
                forall|v: u32| part_true@.contains(v) <==> labelled(q, tb, k, p as int, true, x as int).contains(v),
                consistent(q, tb, k, p as int, x as int),
            decreases n - x,
        {
            let rsd = Self::residue_of(qis, x as u64, size_input, p);
            let b = table[x];
            proof {
                assert forall|v: u32, c: bool| labelled(q, tb, k, p as int, c, x + 1).contains(v) <==> (labelled(q, tb, k, p as int, c, x as int).contains(v)
                    || (tb[x as int] == c && v == rsd)) by {
                    if labelled(q, tb, k, p as int, c, x + 1).contains(v) {
                        let y = choose|y: nat| y < x + 1 && #[trigger] tb[y as int] == c && v as int == residue(q, y, k, p as int);
                        if y < x {
                            assert(labelled(q, tb, k, p as int, c, x as int).contains(v));
                        }
                    }
                    if labelled(q, tb, k, p as int, c, x as int).contains(v) {
                        let y = choose|y: nat| y < x && #[trigger] tb[y as int] == c && v as int == residue(q, y, k, p as int);
                        assert(tb[y as int] == c);
                    }
                    if tb[x as int] == c && v == rsd {
                        assert(tb[(x as nat) as int] == c);
                    }
                }
            }
            let ghost of = part_false@;
            let ghost ot = part_true@;
            if b {
                if vec_contains(&part_false, rsd) {
                    proof {
                        assert(labelled(q, tb, k, p as int, false, x as int).contains(rsd));
                        let y = choose|y: nat| y < x && #[trigger] tb[y as int] == false && rsd as int == residue(q, y, k, p as int);
                        assert(residue(q, y, k, p as int) == residue(q, x as nat, k, p as int));
                        assert(!consistent(q, tb, k, p as int, n as int));
                    }
                    return Err(GadgetError::GadgetIntermediateInconsistent);
                }
                if !vec_contains(&part_true, rsd) {
                    part_true.push(rsd);
                }
            } else {
                if vec_contains(&part_true, rsd) {
                    proof {
                        assert(labelled(q, tb, k, p as int, true, x as int).contains(rsd));
                        let y = choose|y: nat| y < x && #[trigger] tb[y as int] == true && rsd as int == residue(q, y, k, p as int);
                        assert(residue(q, y, k, p as int) == residue(q, x as nat, k, p as int));
                        assert(!consistent(q, tb, k, p as int, n as int));
                    }
                    return Err(GadgetError::GadgetIntermediateInconsistent);
                }
                if !vec_contains(&part_false, rsd) {
                    part_false.push(rsd);
                }
            }
            proof {
                lemma_push_contains(of, rsd);
                lemma_push_contains(ot, rsd);
                assert(part_false@ == of || part_false@ == of.push(rsd));
                assert(part_true@ == ot || part_true@ == ot.push(rsd));
                assert forall|v: u32| part_false@.contains(v) <==> labelled(q, tb, k, p as int, false, x + 1).contains(v) by {
                    assert(of.contains(v) <==> labelled(q, tb, k, p as int, false, x as int).contains(v));
                    if !b && part_false@ == of {
                        assert(of.contains(rsd));
                    }
                }
                assert forall|v: u32| part_true@.contains(v) <==> labelled(q, tb, k, p as int, true, x + 1).contains(v) by {
                    assert(ot.contains(v) <==> labelled(q, tb, k, p as int, true, x as int).contains(v));
                    if b && part_true@ == ot {
                        assert(ot.contains(rsd));
                    }
                }
                assert forall|y1: nat, y2: nat|
                    y1 < x + 1 && y2 < x + 1 && #[trigger] residue(q, y1, k, p as int) == #[trigger] residue(q, y2, k, p as int)
                        implies tb[y1 as int] == tb[y2 as int] by {
                    if y1 == x && y2 < x {
                        let c = tb[y2 as int];
                        assert(labelled(q, tb, k, p as int, c, x as int).contains(rsd));
                    } else if y2 == x && y1 < x {
                        let c = tb[y1 as int];
                        assert(labelled(q, tb, k, p as int, c, x as int).contains(rsd));
                    }
                }
            }
            x = x + 1;
        }
        proof {
            assert(part_false@.to_set() =~= labelled(q, tb, k, p as int, false, n as int));
            assert(part_true@.to_set() =~= labelled(q, tb, k, p as int, true, n as int));
        }
        BooleanEncoding::new(part_false, part_true, p)
    }

    /// The residue modulo `p` reached by assignment `x`.
    fn residue_of(qis: &Vec<u32>, x: u64, size_input: u32, p: u32) -> (r: u32)
        requires
            p > 0,
            size_input < 32,
        ensures
            r as int == residue(qis@, x as nat, size_input as nat, p as int),
            (r as int) < p,
    {
        let mut acc: u64 = 0;
        let mut y: u64 = x;
        let mut j: u32 = 0;
        assert(two_pow(0) == 1);
        assert((x as nat) / 1 == x as nat);
        while j < size_input
            invariant
                j <= size_input,
                size_input < 32,
                y as nat == (x as nat) / two_pow(j as nat),
                acc as int == weighted_sum(qis@, x as nat, j as nat),
                acc <= j * 0xffff_ffffu64,
            decreases size_input - j,
        {
            let bit = y % 2 == 1;
            if bit && (j as usize) < qis.len() {
                acc = acc + qis[j as usize] as u64;
            }
            proof {
                lemma_two_pow_pos(j as nat);
                lemma_div_denominator(x as int, two_pow(j as nat) as int, 2);
                assert(two_pow((j + 1) as nat) == two_pow(j as nat) * 2);
            }
            y = y / 2;
            j = j + 1;
        }
        (acc % (p as u64)) as u32
    }
}

/// What a pushed sequence contains.
proof fn lemma_push_contains(s: Seq<u32>, a: u32)
    ensures
        forall|v: u32| s.push(a).contains(v) <==> (s.contains(v) || v == a),
{
    assert forall|v: u32| s.push(a).contains(v) <==> (s.contains(v) || v == a) by {
        if s.push(a).contains(v) {
            let j = choose|j: int| 0 <= j < s.len() + 1 && #[trigger] s.push(a)[j] == v;
            if j < s.len() {
                assert(s[j] == v);
            }
        }
        if s.contains(v) {
            let j = choose|j: int| 0 <= j < s.len() && #[trigger] s[j] == v;
            assert(s.push(a)[j] == v);
        }
        if v == a {
            assert(s.push(a)[s.len() as int] == v);
        }
    }
}

/// `2^n <= 2^32` for `n <= 32`.
proof fn lemma_two_pow_le_32(n: nat)
    requires
        n <= 32,
    ensures
        two_pow(n) <= 0x1_0000_0000,
    decreases 32 - n,
{
    if n < 32 {
        lemma_two_pow_le_32(n + 1);
        lemma_two_pow_pos(n);
    } else {
        reveal_with_fuel(two_pow, 33);
    }
}

/// `1 << n == 2^n` for `n < 32`.
proof fn lemma_shift_is_pow(n: u32)
    requires
        n < 32,
    ensures
        (1u64 << n) as nat == two_pow(n as nat),
    decreases n,
{
    if n == 0 {
        assert((1u64 << 0u32) == 1u64) by (bit_vector);
    } else {
        lemma_shift_is_pow((n - 1) as u32);
        assert((1u64 << n) == 2 * (1u64 << ((n - 1) as u32))) by (bit_vector)
            requires
                0 < n < 32,
        ;
    }
}

} // verus!
