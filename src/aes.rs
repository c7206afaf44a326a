//! The linear layers of AES on a state of 128 parity-encoded bits (column after column, four
//! rows of eight bits each).
use vstd::prelude::*;
use crate::ciphertext::Ciphertext;
use crate::encoding::BooleanEncoding;
use crate::engine::{ciphertexts_wf, decrypt_value};
use crate::error::GadgetError;
use crate::keys::ClientKey;
use crate::linear_circuit::{CircuitDescription, LinearCircuit, phase_banks, run_phases, wire_phase};
use crate::lwe::phase;
use crate::server_key::{BootstrapKernel, ServerKey};
use crate::symmetric::decrypts_to_one;
use crate::lwe::noisy_encryption_of;
use crate::accumulator::single;
use crate::torus::{torus_size, encode_torus};

verus! {

/// The position of bit `bit` of the byte at `row`, `col` of the state.
pub open spec fn square_index(row: int, col: int, bit: int) -> int {
    col * 32 + row * 8 + bit
}

/// `c` is a fresh encryption of `b` under the parity encoding by client key `cks`.
pub open spec fn encrypts_parity_bit(c: Ciphertext, b: bool, cks: ClientKey) -> bool {
    &&& c.well_formed()
    &&& c matches Ciphertext::BooleanEncrypted(ct, e) && e.false_part() == set![0u32] && e.true_part() == set![1u32]
        && e.modulus() == 2 && ct.mask@.len() == cks.encryption_key().len() && noisy_encryption_of(
        ct,
        cks.encryption_key(),
        encode_torus(if b { 1int } else { 0 }, 2),
        cks.noise_bound(),
    )
}

/// An AES state of encrypted bits.
pub struct AESState {
    pub bits: Vec<Ciphertext>,
}

impl AESState {
    /// Encrypts the 128 bits of `m` under the parity encoding.
    /// Fails only with `EntropyUnavailable`.
    pub fn tfhe_encryption_bits(m: &Vec<bool>, client_key: &ClientKey) -> (r: Result<Self, GadgetError>)
        requires
            m@.len() == 128,
        ensures
            r is Err ==> r->Err_0 == GadgetError::EntropyUnavailable,
            r is Ok ==> r->Ok_0.bits@.len() == 128 && ciphertexts_wf(r->Ok_0.bits@)
                && forall|i: int| 0 <= i < 128 ==> encrypts_parity_bit(#[trigger] r->Ok_0.bits@[i], m@[i], *client_key),
    {
        let parity = BooleanEncoding::parity_encoding();
        let mut bits: Vec<Ciphertext> = Vec::new();
        let mut i: usize = 0;
        while i < 128
            invariant
                m@.len() == 128,
                parity.inv(),
                parity.false_part() == set![0u32],
                parity.true_part() == set![1u32],
                parity.modulus() == 2,
                i <= 128,
                bits@.len() == i,
                ciphertexts_wf(bits@),
                forall|j: int| 0 <= j < i ==> encrypts_parity_bit(#[trigger] bits@[j], m@[j], *client_key),
            decreases 128 - i,
        {
            proof {
                assert(set![0u32].len() == 1 && set![1u32].len() == 1);
            }
            let c = client_key.encrypt_boolean(m[i], &parity)?;
            proof {
                assert(single(parity.part(m@[i as int])) == if m@[i as int] { 1u32 } else { 0u32 }) by {
                    crate::accumulator::lemma_single(parity.part(m@[i as int]), if m@[i as int] { 1u32 } else { 0u32 });
                }
            }
            bits.push(c);
            i = i + 1;
        }
        Ok(AESState { bits })
    }

    /// Decrypts every bit (`true` when it decrypts to 1).
    pub fn tfhe_decryption_bits(&self, client_key: &ClientKey) -> (r: Result<Vec<bool>, GadgetError>)
        requires
            ciphertexts_wf(self.bits@),
        ensures
            r is Ok <==> forall|i: int| 0 <= i < self.bits@.len() ==> (#[trigger] decrypt_value(self.bits@[i], client_key.encryption_key())) is Ok,
            r is Ok ==> r->Ok_0@.len() == self.bits@.len() && forall|i: int| 0 <= i < self.bits@.len() ==> #[trigger] r->Ok_0@[i]
                == decrypts_to_one(self.bits@[i], client_key.encryption_key()),
    {
        let mut out: Vec<bool> = Vec::new();
        let mut i: usize = 0;
        while i < self.bits.len()
            invariant
                ciphertexts_wf(self.bits@),
                i <= self.bits@.len(),
                out@.len() == i,
                forall|j: int| 0 <= j < i ==> (#[trigger] decrypt_value(self.bits@[j], client_key.encryption_key())) is Ok,
                forall|j: int| 0 <= j < i ==> #[trigger] out@[j] == decrypts_to_one(self.bits@[j], client_key.encryption_key()),
            decreases self.bits.len() - i,
        {
            let v = client_key.decrypt(&self.bits[i])?;
            out.push(v == 1);
            i = i + 1;
        }
        Ok(out)
    }

    /// Bit `bit` of the byte at `row`, `col`.
    pub fn square_getter(&self, row: usize, col: usize, bit: usize) -> (r: &Ciphertext)
        requires
            self.bits@.len() == 128,
            row < 4,
            col < 4,
            bit < 8,
        ensures
            *r == self.bits@[square_index(row as int, col as int, bit as int)],
    {
        &self.bits[col * 32 + row * 8 + bit]
    }
}

/// Adds the round key: each bit whose key bit is set gets `1` added modulo 2.
pub fn add_round_key<K: BootstrapKernel>(state: &AESState, round_key: &Vec<bool>, server_key: &ServerKey<K>) -> (r: Result<AESState, GadgetError>)
    requires
        state.bits@.len() == 128,
        round_key@.len() == 128,
        ciphertexts_wf(state.bits@),
    ensures
        r is Ok <==> forall|i: int| 0 <= i < 128 && round_key@[i] ==> (#[trigger] state.bits@[i]) is BooleanEncrypted,
        r is Ok ==> r->Ok_0.bits@.len() == 128 && ciphertexts_wf(r->Ok_0.bits@),
        r is Ok ==> forall|i: int| 0 <= i < 128 && !round_key@[i] ==> (#[trigger] r->Ok_0.bits@[i]).same_as(state.bits@[i]),
        r is Ok ==> forall|i: int| 0 <= i < 128 && round_key@[i] ==> flipped(#[trigger] r->Ok_0.bits@[i], state.bits@[i]),
{
    let mut bits: Vec<Ciphertext> = Vec::new();
    let mut i: usize = 0;
    while i < 128
        invariant
            state.bits@.len() == 128,
            round_key@.len() == 128,
            ciphertexts_wf(state.bits@),
            i <= 128,
            bits@.len() == i,
            ciphertexts_wf(bits@),
            forall|j: int| 0 <= j < i && round_key@[j] ==> (#[trigger] state.bits@[j]) is BooleanEncrypted,
            forall|j: int| 0 <= j < i && !round_key@[j] ==> (#[trigger] bits@[j]).same_as(state.bits@[j]),
            forall|j: int| 0 <= j < i && round_key@[j] ==> flipped(#[trigger] bits@[j], state.bits@[j]),
        decreases 128 - i,
    {
        if round_key[i] {
            match &state.bits[i] {
                Ciphertext::BooleanEncrypted(_, _) => {},
                _ => {
                    return Err(GadgetError::TrivialCastForbidden);
                },
            }
            let c = server_key.simple_plaintext_sum(&state.bits[i], 1, 2)?;
            bits.push(c);
        } else {
            bits.push(state.bits[i].duplicate());
        }
        i = i + 1;
    }
    Ok(AESState { bits })
}

/// `y` is `x` with `1` added modulo 2: the same encoding, the phase shifted by `2^31`.
pub open spec fn flipped(y: Ciphertext, x: Ciphertext) -> bool {
    match (y, x) {
        (Ciphertext::BooleanEncrypted(c2, e2), Ciphertext::BooleanEncrypted(c1, e1)) => {
            &&& e2.inv()
            &&& e2.false_part() == e1.false_part()
            &&& e2.true_part() == e1.true_part()
            &&& e2.modulus() == e1.modulus()
            &&& c2.mask@.len() == c1.mask@.len()
            &&& forall|s: Seq<u32>| s.len() == c1.mask@.len() ==> #[trigger] phase(c2, s) == (phase(c1, s) + encode_torus(1, 2)) % torus_size()
        },
        _ => false,
    }
}

/// Shifts row `r` of the state by `r` columns to the left.
pub fn shift_rows(state: &AESState) -> (r: AESState)
    requires
        state.bits@.len() == 128,
        ciphertexts_wf(state.bits@),
    ensures
        r.bits@.len() == 128,
        ciphertexts_wf(r.bits@),
        forall|col: int, row: int, bit: int| 0 <= col < 4 && 0 <= row < 4 && 0 <= bit < 8 ==> (#[trigger] r.bits@[square_index(row, col, bit)]).same_as(
            state.bits@[square_index(row, (col + row) % 4, bit)],
        ),
{
    let mut bits: Vec<Ciphertext> = Vec::new();
    let mut k: usize = 0;
    while k < 128
        invariant
            state.bits@.len() == 128,
            ciphertexts_wf(state.bits@),
            k <= 128,
            bits@.len() == k,
            ciphertexts_wf(bits@),
            forall|j: int| 0 <= j < k ==> (#[trigger] bits@[j]).same_as(state.bits@[square_index((j % 32) / 8, (j / 32 + (j % 32) / 8) % 4, j % 8)]),
        decreases 128 - k,
    {
        let col = k / 32;
        let row = (k % 32) / 8;
        let bit = k % 8;
        let src = ((col + row) % 4) * 32 + row * 8 + bit;
        bits.push(state.bits[src].duplicate());
        k = k + 1;
    }
    proof {
        assert forall|col: int, row: int, bit: int| 0 <= col < 4 && 0 <= row < 4 && 0 <= bit < 8 implies (#[trigger] bits@[square_index(row, col, bit)]).same_as(
            state.bits@[square_index(row, (col + row) % 4, bit)],
        ) by {
            let j = square_index(row, col, bit);
            assert(j / 32 == col && (j % 32) / 8 == row && j % 8 == bit) by (nonlinear_arith)
                requires
                    j == col * 32 + row * 8 + bit,
                    0 <= col < 4,
                    0 <= row < 4,
                    0 <= bit < 8,
            ;
        }
    }
    AESState { bits }
}

} // verus!

verus! {

/// The phase banks with which column `col` of `bits` enters a circuit of `n_int` intermediate
/// values and `n_out` outputs.
pub open spec fn column_start(bits: Seq<Ciphertext>, col: int, n_int: nat, n_out: nat, s: Seq<u32>) -> (Seq<int>, Seq<int>, Seq<int>) {
    (
        Seq::new(32, |i: int| wire_phase(bits[32 * col + i], s)),
        Seq::new(n_int, |i: int| 0int),
        Seq::new(n_out, |i: int| 0int),
    )
}

/// Runs the linear `circuit` (32 inputs) on each of the four columns of the state; the result
/// holds the outputs of column 0, then of column 1, and so on.
pub fn mix_columns<K: BootstrapKernel>(state: &AESState, server_key: &ServerKey<K>, circuit: &CircuitDescription) -> (r: Result<AESState, GadgetError>)
    requires
        state.bits@.len() == 128,
        ciphertexts_wf(state.bits@),
    ensures
        circuit.n_in != 32 ==> r is Err,
        r is Ok ==> r->Ok_0.bits@.len() == 4 * circuit.n_out && ciphertexts_wf(r->Ok_0.bits@),
        r is Ok ==> forall|col: int, j: int, s: Seq<u32>|
            0 <= col < 4 && 0 <= j < circuit.n_out && s.len() == server_key.lwe_dimension
                ==> #[trigger] wire_phase(r->Ok_0.bits@[col * circuit.n_out + j], s) == #[trigger] run_phases(
                column_start(state.bits@, col, circuit.n_int as nat, circuit.n_out as nat, s),
                circuit.gates@,
                circuit.gates@.len() as int,
            ).2[j],
{
    let mut bits: Vec<Ciphertext> = Vec::new();
    let mut col: usize = 0;
    while col < 4
        invariant
            state.bits@.len() == 128,
            ciphertexts_wf(state.bits@),
            col <= 4,
            col > 0 ==> circuit.n_in == 32,
            bits@.len() == col * circuit.n_out,
            ciphertexts_wf(bits@),
            forall|c: int, j: int, s: Seq<u32>|
                0 <= c < col && 0 <= j < circuit.n_out && s.len() == server_key.lwe_dimension
                    ==> #[trigger] wire_phase(bits@[c * circuit.n_out + j], s) == #[trigger] run_phases(
                    column_start(state.bits@, c, circuit.n_int as nat, circuit.n_out as nat, s),
                    circuit.gates@,
                    circuit.gates@.len() as int,
                ).2[j],
        decreases 4 - col,
    {
        let mut slice: Vec<Ciphertext> = Vec::new();
        let mut i: usize = 0;
        while i < 32
            invariant
                state.bits@.len() == 128,
                ciphertexts_wf(state.bits@),
                col < 4,
                i <= 32,
                slice@.len() == i,
                ciphertexts_wf(slice@),
                forall|m: int| 0 <= m < i ==> (#[trigger] slice@[m]).same_as(state.bits@[32 * col + m]),
            decreases 32 - i,
        {
            slice.push(state.bits[col * 32 + i].duplicate());
            i = i + 1;
        }
        let mut lc = LinearCircuit::new(&slice);
        let ghost x_before = lc.x@;
        lc.execute_circuit(server_key, circuit)?;
        let ghost before = bits@;
        let mut j: usize = 0;
        while j < lc.y.len()
            invariant
                before.len() == col * circuit.n_out,
                lc.x@ == x_before,
                lc.y@.len() == circuit.n_out,
                ciphertexts_wf(lc.y@),
                j <= lc.y@.len(),
                bits@.len() == col * circuit.n_out + j,
                ciphertexts_wf(bits@),
                forall|m: int| 0 <= m < before.len() ==> #[trigger] bits@[m] == before[m],
                forall|m: int| 0 <= m < j ==> (#[trigger] bits@[col * circuit.n_out + m]).same_as(lc.y@[m]),
            decreases lc.y.len() - j,
        {
            bits.push(lc.y[j].duplicate());
            j = j + 1;
        }
        proof {
            assert(col * circuit.n_out + circuit.n_out == (col + 1) * circuit.n_out) by (nonlinear_arith);
            assert forall|c: int, jj: int, s: Seq<u32>|
                0 <= c < col + 1 && 0 <= jj < circuit.n_out && s.len() == server_key.lwe_dimension
                    implies #[trigger] wire_phase(bits@[c * circuit.n_out + jj], s) == #[trigger] run_phases(
                    column_start(state.bits@, c, circuit.n_int as nat, circuit.n_out as nat, s),
                    circuit.gates@,
                    circuit.gates@.len() as int,
                ).2[jj] by {
                if c < col {
                    assert(c * circuit.n_out + jj < col * circuit.n_out) by (nonlinear_arith)
                        requires
                            c < col,
                            jj < circuit.n_out,
                    ;
                    assert(bits@[c * circuit.n_out + jj] == before[c * circuit.n_out + jj]);
                } else {
                    let start = column_start(state.bits@, col as int, circuit.n_int as nat, circuit.n_out as nat, s);
                    let init = (
                        Seq::new(lc.x@.len(), |i: int| wire_phase(lc.x@[i], s)),
                        Seq::new(circuit.n_int as nat, |i: int| 0int),
                        Seq::new(circuit.n_out as nat, |i: int| 0int),
                    );
                    assert(init.0 =~= start.0) by {
                        assert forall|m: int| 0 <= m < 32 implies init.0[m] == start.0[m] by {
                            assert(lc.x@[m].same_as(slice@[m]));
                        }
                    }
                    assert(init.1 =~= start.1);
                    assert(init.2 =~= start.2);
                    assert(phase_banks((lc.x@, lc.t@, lc.y@), s) == run_phases(init, circuit.gates@, circuit.gates@.len() as int));
                    assert(bits@[col * circuit.n_out + jj].same_as(lc.y@[jj]));
                }
            }
        }
        col = col + 1;
    }
    Ok(AESState { bits })
}

} // verus!
