//! A reference kernel that computes in the clear what a programmable bootstrap computes.
//!
//! It holds the secret key, so it offers no security: it serves to check gadgets, lookup
//! tables and encodings end to end. The phase of the input is rounded to one of `2N` positions
//! and the lookup table is read negacyclically; the result is a noiseless sample with a zero
//! mask. Its keyswitch keeps the sample as it is (one key plays both parts).
use vstd::prelude::*;
use crate::lwe::{LweCiphertext, LweSecretKey, phase_of};
use crate::server_key::{BootstrapKernel, sample_view};
use crate::torus::torus_size;

verus! {

/// The value that a bootstrap reads from `lookup_table` (of size `N`) for phase `ph`: the
/// position `round(ph * 2N / 2^32) mod 2N`, negated in the second half.
pub open spec fn clear_lookup(ph: int, lookup_table: Seq<u32>) -> u32 {
    let n = lookup_table.len() as int;
    if n == 0 || n > 0x4000_0000 {
        0
    } else {
        let idx = ((ph * (2 * n) + torus_size() / 2) / torus_size()) % (2 * n);
        if idx < n {
            lookup_table[idx]
        } else {
            ((torus_size() - lookup_table[idx - n]) % torus_size()) as u32
        }
    }
}

/// The reference kernel: the secret key that gates work under.
pub struct ClearKernel {
    pub key: LweSecretKey,
}

impl BootstrapKernel for ClearKernel {
    open spec fn bootstrap_spec(&self, input: (Seq<u32>, u32), lookup_table: Seq<u32>) -> (Seq<u32>, u32) {
        let zeros = Seq::new(self.key.bits@.len(), |i: int| 0u32);
        if input.0.len() != self.key.bits@.len() {
            (zeros, 0)
        } else {
            (zeros, clear_lookup(phase_of(input, self.key.bits@), lookup_table))
        }
    }

    open spec fn keyswitch_spec(&self, input: (Seq<u32>, u32)) -> (Seq<u32>, u32) {
        input
    }

    open spec fn bootstrapping_key_len(&self) -> usize {
        0
    }

    open spec fn key_switching_key_len(&self) -> usize {
        0
    }

    fn programmable_bootstrap(&self, input: &LweCiphertext, lookup_table: &Vec<u32>) -> (r: LweCiphertext) {
        let mut out = LweCiphertext::new(self.key.bits.len());
        assert(out.mask@ =~= Seq::new(self.key.bits@.len(), |i: int| 0u32));
        if input.mask.len() != self.key.bits.len() {
            return out;
        }
        let ph = input.decrypt_phase(&self.key);
        let n = lookup_table.len();
        if n == 0 || n > 0x4000_0000 {
            return out;
        }
        let n64 = n as u64;
        proof {
            assert((ph as u64) * (2 * n64) <= 0xffff_ffffu64 * 0x8000_0000u64) by (nonlinear_arith)
                requires
                    ph <= 0xffff_ffffu64,
                    n64 <= 0x4000_0000u64,
            ;
        }
        let idx = (((ph as u64) * (2 * n64) + 0x8000_0000u64) / 0x1_0000_0000u64) % (2 * n64);
        let v = if idx < n64 {
            lookup_table[idx as usize]
        } else {
            let w = lookup_table[(idx - n64) as usize];
            ((0x1_0000_0000u64 - w as u64) % 0x1_0000_0000u64) as u32
        };
        out.body = v;
        out
    }

    fn keyswitch(&self, input: &LweCiphertext) -> (r: LweCiphertext) {
        input.duplicate()
    }

    fn bootstrapping_key_size_elements(&self) -> usize {
        0
    }

    fn key_switching_key_size_elements(&self) -> usize {
        0
    }
}

} // verus!
