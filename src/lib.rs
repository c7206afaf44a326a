//! Encoding-aware gadget evaluation over LWE ciphertexts.
//!
//! Bits (or small integers modulo an origin modulus) are encoded into
//! partitions of `Z/p`, carried on the torus `Z/2^32`, and every non-linear
//! gate is realised by one programmable bootstrap whose lookup table is derived
//! from the encodings.
//!
//! The programmable-bootstrap and keyswitch primitives, with their keys, are supplied by the
//! caller through `server_key::BootstrapKernel`; everything around them (encodings, lookup
//! tables, linear combinations, encryption and decryption of LWE samples, gadgets) is here.
pub mod error;
pub mod encoding;
pub mod torus;
pub mod accumulator;
pub mod lwe;
pub mod ciphertext;
pub mod keys;
pub mod server_key;
pub mod clear_kernel;
pub mod engine;
pub mod bits;
pub mod gadget;
pub mod properties;
pub mod symmetric;
pub mod linear_circuit;
pub mod circuit_text;
pub mod gadget_table;
pub mod aes;
pub mod aes_key;
