//! Ciphertexts tagged with the encoding of their plaintext.
use vstd::prelude::*;
use crate::encoding::{ArithmeticEncoding, BooleanEncoding};
use crate::lwe::LweCiphertext;

verus! {

/// A ciphertext: an LWE sample with its Boolean or arithmetic encoding, or a plaintext bit.
#[derive(Clone, Debug)]
pub enum Ciphertext {
    BooleanEncrypted(LweCiphertext, BooleanEncoding),
    ArithmeticEncrypted(LweCiphertext, ArithmeticEncoding),
    Trivial(bool),
}

impl Ciphertext {
    /// The encodings carried are well formed.
    pub open spec fn well_formed(&self) -> bool {
        match self {
            Ciphertext::BooleanEncrypted(_, e) => e.inv(),
            Ciphertext::ArithmeticEncrypted(_, e) => e.inv(),
            Ciphertext::Trivial(_) => true,
        }
    }

    /// `self` and `other` carry the same sample, the same encoding or the same bit.
    pub open spec fn same_as(&self, other: Ciphertext) -> bool {
        match (*self, other) {
            (Ciphertext::BooleanEncrypted(c1, e1), Ciphertext::BooleanEncrypted(c2, e2)) => c1.mask@
                == c2.mask@ && c1.body == c2.body && e1.false_part() == e2.false_part() && e1.true_part()
                == e2.true_part() && e1.modulus() == e2.modulus(),
            (Ciphertext::ArithmeticEncrypted(c1, e1), Ciphertext::ArithmeticEncrypted(c2, e2)) => c1.mask@
                == c2.mask@ && c1.body == c2.body && e1.parts_view() == e2.parts_view() && e1.origin()
                == e2.origin() && e1.modulus() == e2.modulus(),
            (Ciphertext::Trivial(b1), Ciphertext::Trivial(b2)) => b1 == b2,
            _ => false,
        }
    }

    /// A copy of this ciphertext.
    pub fn duplicate(&self) -> (r: Ciphertext)
        requires
            self.well_formed(),
        ensures
            r.well_formed(),
            r.same_as(*self),
    {
        match self {
            Ciphertext::BooleanEncrypted(c, e) => Ciphertext::BooleanEncrypted(c.duplicate(), e.duplicate()),
            Ciphertext::ArithmeticEncrypted(c, e) => Ciphertext::ArithmeticEncrypted(
                c.duplicate(),
                e.duplicate(),
            ),
            Ciphertext::Trivial(b) => Ciphertext::Trivial(*b),
        }
    }
}

} // verus!
