//! The evaluation key: the bootstrap kernel and the shape of the ciphertexts it works on.
use vstd::prelude::*;
use crate::keys::PbsOrder;
use crate::lwe::LweCiphertext;

verus! {

/// The programmable-bootstrap and keyswitch primitives that the evaluator drives. The
/// bootstrapping key (in the Fourier domain) and the keyswitching key live in the implementor.
pub trait BootstrapKernel {
    /// The sample (mask, body) that bootstrapping `input` with `lookup_table` gives.
    spec fn bootstrap_spec(&self, input: (Seq<u32>, u32), lookup_table: Seq<u32>) -> (Seq<u32>, u32);

    /// The sample (mask, body) that keyswitching `input` gives.
    spec fn keyswitch_spec(&self, input: (Seq<u32>, u32)) -> (Seq<u32>, u32);

    /// Refreshes `input` while applying the lookup table whose GLWE body is `lookup_table`
    /// (the mask being zero).
    fn programmable_bootstrap(&self, input: &LweCiphertext, lookup_table: &Vec<u32>) -> (r: LweCiphertext)
        ensures
            sample_view(r) == self.bootstrap_spec(sample_view(*input), lookup_table@),
    ;

    /// Moves `input` from the key it is encrypted under to the other LWE key.
    fn keyswitch(&self, input: &LweCiphertext) -> (r: LweCiphertext)
        ensures
            sample_view(r) == self.keyswitch_spec(sample_view(*input)),
    ;

    /// The number of coefficients of the bootstrapping key.
    spec fn bootstrapping_key_len(&self) -> usize;

    /// The number of coefficients of the keyswitching key.
    spec fn key_switching_key_len(&self) -> usize;

    /// The number of coefficients of the bootstrapping key.
    fn bootstrapping_key_size_elements(&self) -> (r: usize)
        ensures
            r == self.bootstrapping_key_len(),
    ;

    /// The number of coefficients of the keyswitching key.
    fn key_switching_key_size_elements(&self) -> (r: usize)
        ensures
            r == self.key_switching_key_len(),
    ;
}

/// A sample as plain values: its mask and its body.
pub open spec fn sample_view(c: LweCiphertext) -> (Seq<u32>, u32) {
    (c.mask@, c.body)
}

/// The sample that a bootstrap of `input` with `lookup_table` gives, its two steps in `order`.
pub open spec fn bootstrap_pattern<K: BootstrapKernel>(kernel: K, order: PbsOrder, input: (Seq<u32>, u32), lookup_table: Seq<u32>) -> (Seq<u32>, u32) {
    match order {
        PbsOrder::KeyswitchBootstrap => kernel.bootstrap_spec(kernel.keyswitch_spec(input), lookup_table),
        PbsOrder::BootstrapKeyswitch => kernel.keyswitch_spec(kernel.bootstrap_spec(input, lookup_table)),
    }
}

/// The public evaluation key.
pub struct ServerKey<K> {
    /// The bootstrap and keyswitch primitives with their keys.
    pub kernel: K,
    /// The order of the two steps of every bootstrap.
    pub pbs_order: PbsOrder,
    /// The degree `N` of the lookup-table polynomial.
    pub polynomial_size: usize,
    /// The dimension of the ciphertexts that gates take and return.
    pub lwe_dimension: usize,
}

impl<K: BootstrapKernel> ServerKey<K> {
    /// Assembles a server key from its kernel and shape.
    pub fn new(kernel: K, pbs_order: PbsOrder, polynomial_size: usize, lwe_dimension: usize) -> (r: Self)
        ensures
            r.kernel == kernel,
            r.pbs_order == pbs_order,
            r.polynomial_size == polynomial_size,
            r.lwe_dimension == lwe_dimension,
    {
        ServerKey { kernel, pbs_order, polynomial_size, lwe_dimension }
    }

    /// The number of coefficients of the bootstrapping key.
    pub fn bootstrapping_key_size_elements(&self) -> (r: usize)
        ensures
            r == self.kernel.bootstrapping_key_len(),
    {
        self.kernel.bootstrapping_key_size_elements()
    }

    /// The number of coefficients of the keyswitching key.
    pub fn key_switching_key_size_elements(&self) -> (r: usize)
        ensures
            r == self.kernel.key_switching_key_len(),
    {
        self.kernel.key_switching_key_size_elements()
    }

    /// The size of the keyswitching key in bytes, eight per coefficient (saturating).
    pub fn key_switching_key_size_bytes(&self) -> (r: usize)
        ensures
            r as int == if 8 * self.kernel.key_switching_key_len() > usize::MAX {
                usize::MAX as int
            } else {
                8 * self.kernel.key_switching_key_len()
            },
    {
        let n = self.key_switching_key_size_elements();
        if n > usize::MAX / 8 {
            usize::MAX
        } else {
            n * 8
        }
    }
}

} // verus!
