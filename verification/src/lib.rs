//! A zero-knowledge proof of knowledge for the partition form of subset sum.
//!
//! A prover who knows signs `+1` / `-1` that make the signed sum of a public
//! list of integers vanish convinces a verifier of that knowledge without
//! giving the signs away. Each round commits to a freshly blinded sequence
//! of partial sums with a salted Merkle tree and opens two neighbouring
//! entries, chosen by hashing everything committed so far.

pub mod encoding;
pub mod hash;
pub mod merkle;
pub mod protocol;
pub mod random;
pub mod witness;
