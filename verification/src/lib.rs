//! An interactive sum-check protocol engine: a prover and a verifier that
//! jointly establish, with bounded error probability, that a claimed sum of a
//! multivariate polynomial over the boolean hypercube is correct, without the
//! verifier evaluating the exponentially large hypercube directly.

pub mod field;
pub mod unipoly;
pub mod multipoly;
pub mod hypercube;
pub mod sample;
pub mod protocol;
