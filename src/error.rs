use vstd::prelude::*;

verus! {

/// The failures that the evaluator reports instead of aborting.
#[derive(Clone, Copy, Debug, PartialEq, Eq, Structural)]
pub enum GadgetError {
    /// An encoding violates disjointness or negacyclicity, or a value is not below its modulus.
    EncodingInvalid,
    /// A canonical encoding was required.
    EncodingNotCanonical,
    /// While building a gadget, one residue received both truth values.
    GadgetIntermediateInconsistent,
    /// Boolean and arithmetic ciphertexts were mixed, or sizes or moduli do not agree.
    EncodingDomainMismatch,
    /// A trivial ciphertext was handed to an operation that needs an encrypted one.
    TrivialCastForbidden,
    /// The decrypted residue lies in no partition of the encoding.
    DecryptionMismatch,
    /// A circuit or gadget-table description does not follow its grammar, or names a wire out of range.
    MalformedDescription,
    /// The operating system could not seed a random generator.
    EntropyUnavailable,
}

} // verus!
