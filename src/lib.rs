//! A GKR-style interactive proof that a layered arithmetic circuit was
//! evaluated correctly. The verifier's decisions and the honest prover's
//! messages are stated over mathematical models of the circuit, its
//! multilinear extensions and the sum-check rounds, and proved to match them.
pub mod field;
pub mod mle;
pub mod circuit;
pub mod poly;
pub mod prover;
pub mod protocol;
pub mod text;
