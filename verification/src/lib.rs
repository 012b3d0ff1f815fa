//! A multi-authority, ciphertext-policy attribute-based encryption scheme
//! over asymmetric bilinear pairings, in seven algebraically equivalent
//! variants that trade key and ciphertext size for fewer pairings at
//! decryption.
//!
//! The core is verified: the policy grammar and its parser, the linear
//! secret-sharing scheme compiled from the policy tree, and the
//! reconstruction solver whose selection provably recombines the shared
//! secret exactly when the held attributes satisfy the policy — negation
//! included, by presenting any alternative value for the excluded one. The
//! group and field arithmetic is carried out by the arkworks crates behind
//! a small trusted layer.
pub mod attribute;
pub mod bench;
pub mod curve;
pub mod errors;
pub mod hashing;
pub mod laws;
pub mod lsss;
pub mod policy;
pub mod scheme;
