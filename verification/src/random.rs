//! Randomness from the operating system, which may be unavailable.

use rand::rngs::OsRng;
use rand::RngCore;
use vstd::prelude::*;

verus! {

/// Calls `OsRng::try_fill_bytes` (rand_core) on a buffer of `n` zero bytes:
/// `n` random bytes, or `None` when the system's random source fails. The
/// bytes are random, so only their number is stated.
#[verifier::external_body]
pub(crate) fn os_random_bytes(n: usize) -> (r: Option<Vec<u8>>)
    ensures
        r matches Some(v) ==> v@.len() == n,
{
    let mut buf = vec![0u8; n];
    match OsRng.try_fill_bytes(&mut buf) {
        Ok(()) => Some(buf),
        Err(_) => None,
    }
}

} // verus!
