//! Linear (XOR / XNOR) circuits over parity-encoded ciphertexts, and their text description.
//!
//! A description starts with a header line `N_in offset_in N_int offset_int N_out offset_out`;
//! every further non-blank line reads `dst OP src1 KIND src2`, where a wire is a letter among
//! `x` (inputs), `t` (intermediate values), `y` (outputs) followed by its number, and `KIND` is
//! `XOR` or `XNOR`.
use vstd::prelude::*;
use crate::ciphertext::Ciphertext;
use crate::engine::{ciphertexts_wf, phase_total};
use crate::error::GadgetError;
use crate::lwe::phase;
use crate::server_key::{BootstrapKernel, ServerKey};
use crate::torus::{torus_size, encode_torus};

verus! {

/// The three banks of wires of a linear circuit.
#[derive(Clone, Copy, Debug, PartialEq, Eq, Structural)]
pub enum Bank {
    X,
    T,
    Y,
}

/// One wire: a bank and a position in it (offsets already removed).
#[derive(Clone, Copy, Debug, PartialEq, Eq, Structural)]
pub struct Wire {
    pub bank: Bank,
    pub index: usize,
}

/// `dst = src1 XOR src2`, or its negation when `xnor`.
#[derive(Clone, Copy, Debug, PartialEq, Eq, Structural)]
pub struct LinearGate {
    pub dst: Wire,
    pub src1: Wire,
    pub src2: Wire,
    pub xnor: bool,
}

/// A parsed circuit: the sizes of the three banks and the gates in order.
#[derive(Clone, Debug)]
pub struct CircuitDescription {
    pub n_in: usize,
    pub n_int: usize,
    pub n_out: usize,
    pub gates: Vec<LinearGate>,
}

/// The inputs, intermediate values and outputs of a linear circuit.
pub struct LinearCircuit {
    pub x: Vec<Ciphertext>,
    pub t: Vec<Ciphertext>,
    pub y: Vec<Ciphertext>,
}

/// The phase of a wire's ciphertext under key `s` (0 for a trivial one).
pub open spec fn wire_phase(c: Ciphertext, s: Seq<u32>) -> int {
    match c {
        Ciphertext::BooleanEncrypted(ct, _) => phase(ct, s),
        _ => 0,
    }
}

/// The bank `b` of `(x, t, y)`.
pub open spec fn bank_of(banks: (Seq<Ciphertext>, Seq<Ciphertext>, Seq<Ciphertext>), b: Bank) -> Seq<Ciphertext> {
    match b {
        Bank::X => banks.0,
        Bank::T => banks.1,
        Bank::Y => banks.2,
    }
}

/// The wire `w` of `(x, t, y)`.
pub open spec fn wire_of(banks: (Seq<Ciphertext>, Seq<Ciphertext>, Seq<Ciphertext>), w: Wire) -> Ciphertext {
    bank_of(banks, w.bank)[w.index as int]
}

/// The wire lies in its bank, which for a destination is `t` or `y`.
pub open spec fn wire_in_range(w: Wire, n_in: int, n_int: int, n_out: int) -> bool {
    match w.bank {
        Bank::X => w.index < n_in,
        Bank::T => w.index < n_int,
        Bank::Y => w.index < n_out,
    }
}

/// The phase that gate `g` gives its destination under key `s`: the sum of the phases of its
/// sources, plus `2^31` for an XNOR, modulo `2^32`.
pub open spec fn gate_phase(g: LinearGate, banks: (Seq<Ciphertext>, Seq<Ciphertext>, Seq<Ciphertext>), s: Seq<u32>) -> int {
    (wire_phase(wire_of(banks, g.src1), s) + wire_phase(wire_of(banks, g.src2), s) + if g.xnor {
        encode_torus(1, 2)
    } else {
        0
    }) % torus_size()
}


/// The phases of all wires under key `s`.
pub open spec fn phase_banks(banks: (Seq<Ciphertext>, Seq<Ciphertext>, Seq<Ciphertext>), s: Seq<u32>) -> (Seq<int>, Seq<int>, Seq<int>) {
    (
        Seq::new(banks.0.len(), |i: int| wire_phase(banks.0[i], s)),
        Seq::new(banks.1.len(), |i: int| wire_phase(banks.1[i], s)),
        Seq::new(banks.2.len(), |i: int| wire_phase(banks.2[i], s)),
    )
}

/// The phase of wire `w` in phase banks `pb`.
pub open spec fn phase_at(pb: (Seq<int>, Seq<int>, Seq<int>), w: Wire) -> int {
    match w.bank {
        Bank::X => pb.0[w.index as int],
        Bank::T => pb.1[w.index as int],
        Bank::Y => pb.2[w.index as int],
    }
}

/// The phase banks after gate `g`.
pub open spec fn step_phases(pb: (Seq<int>, Seq<int>, Seq<int>), g: LinearGate) -> (Seq<int>, Seq<int>, Seq<int>) {
    let v = (phase_at(pb, g.src1) + phase_at(pb, g.src2) + if g.xnor { encode_torus(1, 2) } else { 0 }) % torus_size();
    match g.dst.bank {
        Bank::X => (pb.0.update(g.dst.index as int, v), pb.1, pb.2),
        Bank::T => (pb.0, pb.1.update(g.dst.index as int, v), pb.2),
        Bank::Y => (pb.0, pb.1, pb.2.update(g.dst.index as int, v)),
    }
}

/// The phase banks after the first `k` gates.
pub open spec fn run_phases(pb: (Seq<int>, Seq<int>, Seq<int>), gates: Seq<LinearGate>, k: int) -> (Seq<int>, Seq<int>, Seq<int>)
    decreases k,
{
    if k <= 0 {
        pb
    } else {
        step_phases(run_phases(pb, gates, k - 1), gates[k - 1])
    }
}


/// Wire value `c` is a Boolean-encrypted sample of dimension `dim`.
pub open spec fn ready_wire(c: Ciphertext, dim: int) -> bool {
    c is BooleanEncrypted && crate::engine::sample_of(c).mask@.len() == dim
}

/// Which wires of `(x, t, y)` hold Boolean-encrypted samples of dimension `dim`.
pub open spec fn readiness(banks: (Seq<Ciphertext>, Seq<Ciphertext>, Seq<Ciphertext>), dim: int) -> (Seq<bool>, Seq<bool>, Seq<bool>) {
    (
        Seq::new(banks.0.len(), |i: int| ready_wire(banks.0[i], dim)),
        Seq::new(banks.1.len(), |i: int| ready_wire(banks.1[i], dim)),
        Seq::new(banks.2.len(), |i: int| ready_wire(banks.2[i], dim)),
    )
}

/// The readiness of wire `w`.
pub open spec fn ready_at(rb: (Seq<bool>, Seq<bool>, Seq<bool>), w: Wire) -> bool {
    match w.bank {
        Bank::X => rb.0[w.index as int],
        Bank::T => rb.1[w.index as int],
        Bank::Y => rb.2[w.index as int],
    }
}

/// Gate `g` can be applied: its wires are in range, its destination is not an input, and its
/// sources hold Boolean-encrypted samples of the right dimension.
pub open spec fn gate_ok(g: LinearGate, rb: (Seq<bool>, Seq<bool>, Seq<bool>)) -> bool {
    let (a, b, c) = (rb.0.len() as int, rb.1.len() as int, rb.2.len() as int);
    &&& wire_in_range(g.src1, a, b, c)
    &&& wire_in_range(g.src2, a, b, c)
    &&& wire_in_range(g.dst, a, b, c)
    &&& g.dst.bank != Bank::X
    &&& ready_at(rb, g.src1)
    &&& ready_at(rb, g.src2)
}

/// The readiness after gate `g`: its destination holds a sample.
pub open spec fn step_ready(rb: (Seq<bool>, Seq<bool>, Seq<bool>), g: LinearGate) -> (Seq<bool>, Seq<bool>, Seq<bool>) {
    match g.dst.bank {
        Bank::X => (rb.0.update(g.dst.index as int, true), rb.1, rb.2),
        Bank::T => (rb.0, rb.1.update(g.dst.index as int, true), rb.2),
        Bank::Y => (rb.0, rb.1, rb.2.update(g.dst.index as int, true)),
    }
}

/// The readiness after the first `k` gates.
pub open spec fn run_ready(rb: (Seq<bool>, Seq<bool>, Seq<bool>), gates: Seq<LinearGate>, k: int) -> (Seq<bool>, Seq<bool>, Seq<bool>)
    decreases k,
{
    if k <= 0 {
        rb
    } else {
        step_ready(run_ready(rb, gates, k - 1), gates[k - 1])
    }
}

/// Every gate can be applied in turn, starting from readiness `rb`.
pub open spec fn circuit_ok(rb: (Seq<bool>, Seq<bool>, Seq<bool>), gates: Seq<LinearGate>) -> bool {
    forall|k: int| 0 <= k < gates.len() ==> gate_ok(#[trigger] gates[k], run_ready(rb, gates, k))
}

/// `n` trivial `false` ciphertexts.
fn trivial_bank(n: usize) -> (r: Vec<Ciphertext>)
    ensures
        r@.len() == n,
        ciphertexts_wf(r@),
        forall|i: int| 0 <= i < n ==> #[trigger] r@[i] == Ciphertext::Trivial(false),
{
    let mut v: Vec<Ciphertext> = Vec::new();
    let mut i: usize = 0;
    while i < n
        invariant
            i <= n,
            v@.len() == i,
            ciphertexts_wf(v@),
            forall|j: int| 0 <= j < i ==> #[trigger] v@[j] == Ciphertext::Trivial(false),
        decreases n - i,
    {
        v.push(Ciphertext::Trivial(false));
        i = i + 1;
    }
    v
}

impl LinearCircuit {
    /// A circuit whose inputs are copies of `state_slice`.
    pub fn new(state_slice: &Vec<Ciphertext>) -> (r: Self)
        requires
            ciphertexts_wf(state_slice@),
        ensures
            r.x@.len() == state_slice@.len(),
            ciphertexts_wf(r.x@),
            forall|i: int| 0 <= i < state_slice@.len() ==> (#[trigger] r.x@[i]).same_as(state_slice@[i]),
            r.t@.len() == 0,
            r.y@.len() == 0,
    {
        let mut x: Vec<Ciphertext> = Vec::new();
        let mut i: usize = 0;
        while i < state_slice.len()
            invariant
                ciphertexts_wf(state_slice@),
                i <= state_slice@.len(),
                x@.len() == i,
                ciphertexts_wf(x@),
                forall|j: int| 0 <= j < i ==> (#[trigger] x@[j]).same_as(state_slice@[j]),
            decreases state_slice.len() - i,
        {
            x.push(state_slice[i].duplicate());
            i = i + 1;
        }
        LinearCircuit { x, t: Vec::new(), y: Vec::new() }
    }

    fn read(&self, w: Wire) -> (r: &Ciphertext)
        requires
            wire_in_range(w, self.x@.len() as int, self.t@.len() as int, self.y@.len() as int),
        ensures
            *r == wire_of((self.x@, self.t@, self.y@), w),
    {
        match w.bank {
            Bank::X => &self.x[w.index],
            Bank::T => &self.t[w.index],
            Bank::Y => &self.y[w.index],
        }
    }

    /// Evaluates one gate: the sum of the two sources (`simple_sum`), followed for an XNOR by
    /// the addition of `1` modulo 2 (`simple_plaintext_sum`); the result is stored in the
    /// destination.
    pub fn apply_gate<K: BootstrapKernel>(&mut self, g: LinearGate, server_key: &ServerKey<K>) -> (r: Result<(), GadgetError>)
        requires
            ciphertexts_wf(old(self).x@),
            ciphertexts_wf(old(self).t@),
            ciphertexts_wf(old(self).y@),
        ensures
            ciphertexts_wf(final(self).x@),
            ciphertexts_wf(final(self).t@),
            ciphertexts_wf(final(self).y@),
            final(self).x@ == old(self).x@,
            final(self).t@.len() == old(self).t@.len(),
            final(self).y@.len() == old(self).y@.len(),
            r is Ok <==> gate_ok(g, readiness((old(self).x@, old(self).t@, old(self).y@), server_key.lwe_dimension as int)),
            r is Ok ==> readiness((final(self).x@, final(self).t@, final(self).y@), server_key.lwe_dimension as int)
                == step_ready(readiness((old(self).x@, old(self).t@, old(self).y@), server_key.lwe_dimension as int), g),
            r is Ok ==> ({
                let before = (old(self).x@, old(self).t@, old(self).y@);
                let after = (final(self).x@, final(self).t@, final(self).y@);
                &&& g.dst.bank != Bank::X
                &&& wire_in_range(g.src1, old(self).x@.len() as int, old(self).t@.len() as int, old(self).y@.len() as int)
                &&& wire_in_range(g.src2, old(self).x@.len() as int, old(self).t@.len() as int, old(self).y@.len() as int)
                &&& wire_in_range(g.dst, old(self).x@.len() as int, old(self).t@.len() as int, old(self).y@.len() as int)
                &&& wire_of(after, g.dst) matches Ciphertext::BooleanEncrypted(c, e) && e.false_part() == set![0u32]
                    && e.true_part() == set![1u32] && e.modulus() == 2 && c.mask@.len() == server_key.lwe_dimension
                    && forall|s: Seq<u32>| s.len() == server_key.lwe_dimension ==> #[trigger] phase(c, s) == gate_phase(g, before, s)
                &&& forall|w: Wire| w != g.dst && wire_in_range(w, old(self).x@.len() as int, old(self).t@.len() as int, old(self).y@.len() as int)
                    ==> #[trigger] wire_of(after, w) == wire_of(before, w)
            }),
            r is Err ==> final(self).x@ == old(self).x@ && final(self).t@ == old(self).t@ && final(self).y@ == old(self).y@,
    {
        let n_in = self.x.len();
        let n_int = self.t.len();
        let n_out = self.y.len();
        if !in_range(g.src1, n_in, n_int, n_out) || !in_range(g.src2, n_in, n_int, n_out) || !in_range(g.dst, n_in, n_int, n_out) {
            return Err(GadgetError::MalformedDescription);
        }
        if g.dst.bank == Bank::X {
            return Err(GadgetError::MalformedDescription);
        }
        let ghost before = (self.x@, self.t@, self.y@);
        let pair = vec![self.read(g.src1).duplicate(), self.read(g.src2).duplicate()];
        assert(ciphertexts_wf(pair@));
        let sum = server_key.simple_sum(&pair)?;
        let value = if g.xnor {
            let flipped = server_key.simple_plaintext_sum(&sum, 1, 2)?;
            flipped
        } else {
            sum
        };
        proof {
            let c1 = wire_of(before, g.src1);
            let c2 = wire_of(before, g.src2);
            assert(pair@[0].same_as(c1));
            assert(pair@[1].same_as(c2));
            assert(pair@[0] is BooleanEncrypted);
            assert(pair@[1] is BooleanEncrypted);
            assert forall|s: Seq<u32>| s.len() == server_key.lwe_dimension implies #[trigger] phase_total(pair@, Seq::empty(), s, 2) == wire_phase(c1, s) + wire_phase(c2, s) by {
                let none: Seq<crate::encoding::BooleanEncoding> = Seq::empty();
                assert(phase_total(pair@, none, s, 0) == 0);
                assert(phase_total(pair@, none, s, 1) == crate::engine::contribution(pair@[0], none, 0, s));
                assert(phase_total(pair@, none, s, 2) == phase_total(pair@, none, s, 1) + crate::engine::contribution(pair@[1], none, 1, s));
                assert(crate::engine::contribution(pair@[0], none, 0, s) == wire_phase(c1, s));
                assert(crate::engine::contribution(pair@[1], none, 1, s) == wire_phase(c2, s));
            }
            if g.xnor {
                assert forall|s: Seq<u32>| s.len() == server_key.lwe_dimension implies #[trigger] phase(crate::engine::sample_of(value), s) == gate_phase(g, before, s) by {
                    let a = wire_phase(c1, s) + wire_phase(c2, s);
                    let ps = phase(crate::engine::sample_of(sum), s);
                    assert(ps == a % torus_size());
                    assert((1u32 % 2u32) as int == 1);
                    vstd::arithmetic::div_mod::lemma_add_mod_noop(a, encode_torus(1, 2), torus_size());
                    vstd::arithmetic::div_mod::lemma_mod_twice(a, torus_size());
                    assert(encode_torus(1, 2) == 0x8000_0000);
                    vstd::arithmetic::div_mod::lemma_small_mod(0x8000_0000, torus_size() as nat);
                }
            }
        }
        match g.dst.bank {
            Bank::T => {
                self.t.set(g.dst.index, value);
            },
            _ => {
                self.y.set(g.dst.index, value);
            },
        }
        Ok(())
    }

    /// Runs `circuit` on the inputs: the intermediate values and outputs start as trivial
    /// `false` bits and every gate is applied in order (see `apply_gate`). Fails with
    /// `MalformedDescription` when the number of inputs differs from the description's or a gate
    /// names a wire out of range, and with the error of the first gate that cannot be applied.
    pub fn execute_circuit<K: BootstrapKernel>(&mut self, server_key: &ServerKey<K>, circuit: &CircuitDescription) -> (r: Result<(), GadgetError>)
        requires
            ciphertexts_wf(old(self).x@),
        ensures
            old(self).x@.len() != circuit.n_in ==> r == Err::<(), GadgetError>(GadgetError::MalformedDescription),
            r is Ok <==> old(self).x@.len() == circuit.n_in && circuit_ok(
                (
                    Seq::new(old(self).x@.len(), |i: int| ready_wire(old(self).x@[i], server_key.lwe_dimension as int)),
                    Seq::new(circuit.n_int as nat, |i: int| false),
                    Seq::new(circuit.n_out as nat, |i: int| false),
                ),
                circuit.gates@,
            ),
            r is Ok ==> final(self).x@ == old(self).x@ && final(self).t@.len() == circuit.n_int
                && final(self).y@.len() == circuit.n_out && ciphertexts_wf(final(self).t@) && ciphertexts_wf(final(self).y@)
                && forall|s: Seq<u32>| s.len() == server_key.lwe_dimension ==> #[trigger] phase_banks((final(self).x@, final(self).t@, final(self).y@), s)
                    == run_phases(
                        (
                            Seq::new(old(self).x@.len(), |i: int| wire_phase(old(self).x@[i], s)),
                            Seq::new(circuit.n_int as nat, |i: int| 0int),
                            Seq::new(circuit.n_out as nat, |i: int| 0int),
                        ),
                        circuit.gates@,
                        circuit.gates@.len() as int,
                    ),
    {
        if self.x.len() != circuit.n_in {
            return Err(GadgetError::MalformedDescription);
        }
        self.t = trivial_bank(circuit.n_int);
        self.y = trivial_bank(circuit.n_out);
        let ghost x0 = self.x@;
        let ghost init = |s: Seq<u32>| (
            Seq::new(x0.len(), |i: int| wire_phase(x0[i], s)),
            Seq::new(circuit.n_int as nat, |i: int| 0int),
            Seq::new(circuit.n_out as nat, |i: int| 0int),
        );
        let ghost dim = server_key.lwe_dimension as int;
        let ghost rb0 = (
            Seq::new(x0.len(), |i: int| ready_wire(x0[i], dim)),
            Seq::new(circuit.n_int as nat, |i: int| false),
            Seq::new(circuit.n_out as nat, |i: int| false),
        );
        proof {
            let rd = readiness((self.x@, self.t@, self.y@), dim);
            assert(rd.0 =~= rb0.0);
            assert(rd.1 =~= rb0.1);
            assert(rd.2 =~= rb0.2);
            assert forall|s: Seq<u32>| s.len() == server_key.lwe_dimension implies #[trigger] phase_banks((self.x@, self.t@, self.y@), s) == run_phases(init(s), circuit.gates@, 0) by {
                assert(phase_banks((self.x@, self.t@, self.y@), s).1 =~= init(s).1);
                assert(phase_banks((self.x@, self.t@, self.y@), s).2 =~= init(s).2);
                assert(phase_banks((self.x@, self.t@, self.y@), s).0 =~= init(s).0);
            }
        }
        let mut k: usize = 0;
        while k < circuit.gates.len()
            invariant
                k <= circuit.gates@.len(),
                self.x@ == x0,
                x0 == old(self).x@,
                x0.len() == circuit.n_in,
                self.t@.len() == circuit.n_int,
                self.y@.len() == circuit.n_out,
                ciphertexts_wf(self.x@),
                ciphertexts_wf(self.t@),
                ciphertexts_wf(self.y@),
                forall|s: Seq<u32>| s.len() == server_key.lwe_dimension ==> #[trigger] phase_banks((self.x@, self.t@, self.y@), s)
                    == run_phases(init(s), circuit.gates@, k as int),
                dim == server_key.lwe_dimension as int,
                rb0 == (
                    Seq::new(x0.len(), |i: int| ready_wire(x0[i], dim)),
                    Seq::new(circuit.n_int as nat, |i: int| false),
                    Seq::new(circuit.n_out as nat, |i: int| false),
                ),
                readiness((self.x@, self.t@, self.y@), dim) == run_ready(rb0, circuit.gates@, k as int),
                forall|j: int| 0 <= j < k ==> gate_ok(#[trigger] circuit.gates@[j], run_ready(rb0, circuit.gates@, j)),
            decreases circuit.gates.len() - k,
        {
            let g = circuit.gates[k];
            let ghost before = (self.x@, self.t@, self.y@);
            match self.apply_gate(g, server_key) {
                Ok(()) => {},
                Err(e) => {
                    proof {
                        assert(!gate_ok(circuit.gates@[k as int], run_ready(rb0, circuit.gates@, k as int)));
                        assert(!circuit_ok(rb0, circuit.gates@));
                    }
                    return Err(e);
                },
            }
            proof {
                let after = (self.x@, self.t@, self.y@);
                assert forall|s: Seq<u32>| s.len() == server_key.lwe_dimension implies #[trigger] phase_banks(after, s)
                    == run_phases(init(s), circuit.gates@, k + 1) by {
                    let pb = phase_banks(before, s);
                    assert(pb == run_phases(init(s), circuit.gates@, k as int));
                    let expected = step_phases(pb, g);
                    let got = phase_banks(after, s);
                    assert(phase_at(pb, g.src1) == wire_phase(wire_of(before, g.src1), s));
                    assert(phase_at(pb, g.src2) == wire_phase(wire_of(before, g.src2), s));
                    assert forall|i: int| 0 <= i < got.0.len() implies got.0[i] == expected.0[i] by {
                        let w = Wire { bank: Bank::X, index: i as usize };
                        assert(wire_of(after, w) == wire_of(before, w));
                    }
                    assert forall|i: int| 0 <= i < got.1.len() implies got.1[i] == expected.1[i] by {
                        let w = Wire { bank: Bank::T, index: i as usize };
                        if w != g.dst {
                            assert(wire_of(after, w) == wire_of(before, w));
                        }
                    }
                    assert forall|i: int| 0 <= i < got.2.len() implies got.2[i] == expected.2[i] by {
                        let w = Wire { bank: Bank::Y, index: i as usize };
                        if w != g.dst {
                            assert(wire_of(after, w) == wire_of(before, w));
                        }
                    }
                    assert(got.0 =~= expected.0);
                    assert(got.1 =~= expected.1);
                    assert(got.2 =~= expected.2);
                }
            }
            k = k + 1;
        }
        Ok(())
    }
}

/// Whether wire `w` lies in its bank.
fn in_range(w: Wire, n_in: usize, n_int: usize, n_out: usize) -> (r: bool)
    ensures
        r == wire_in_range(w, n_in as int, n_int as int, n_out as int),
{
    match w.bank {
        Bank::X => w.index < n_in,
        Bank::T => w.index < n_int,
        Bank::Y => w.index < n_out,
    }
}

} // verus!
