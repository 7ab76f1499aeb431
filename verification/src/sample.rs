//! Uniform sampling of field elements from fixed-width random byte strings
//! via rejection sampling.

use vstd::prelude::*;
use crate::field::{le_u64_of_bytes, Fp};

verus! {

/// A draw misses the canonical range with probability below 2^-32, so this
/// many retries are never exhausted in practice.
const SAMPLE_RETRY_LIMIT: u64 = 1000000;

/// Relies on rand::random for `[u8; 8]`: returns 8 bytes drawn uniformly at
/// random from the thread-local generator.
#[verifier::external_body]
fn sample_random_bytes() -> (r: Vec<u8>)
    ensures
        r@.len() == 8,
{
    rand::random::<[u8; 8]>().to_vec()
}

/// Uniform sampling of a field element by rejection: draw a fixed-width
/// random byte string and attempt a canonical decode, retrying on a decode
/// failure. Should the retry bound ever be exhausted (it is unreachable in
/// practice), the final draw is reduced into range instead, so a sample is
/// always produced.
pub fn random_field_element() -> (r: Fp) {
    let mut attempts: u64 = 0;
    while attempts < SAMPLE_RETRY_LIMIT
        decreases SAMPLE_RETRY_LIMIT - attempts,
    {
        let bytes = sample_random_bytes();
        match Fp::from_random_bytes(&bytes) {
            Some(f) => {
                return f;
            },
            None => {},
        }
        attempts = attempts + 1;
    }
    let bytes = sample_random_bytes();
    Fp::from_u64(le_u64_of_bytes(&bytes))
}

} // verus!
