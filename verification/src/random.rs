//! Bytes from the operating system's random number generator.

use vstd::prelude::*;

verus! {

/// The random number generator of the operating system could not be read.
#[derive(Debug, Clone, Copy, PartialEq, Eq, Structural)]
pub struct RandomUnavailable;

impl RandomUnavailable {
    /// The error as a line of text.
    pub fn message(&self) -> (r: String)
        ensures
            r@ == "OS CSPRNG unavailable"@,
    {
        crate::text::string_from("OS CSPRNG unavailable")
    }
}

/// `getrandom::getrandom` on a buffer of `n` bytes. On success the whole buffer has been filled;
/// which bytes come back is chance, so nothing is said of them.
#[verifier::external_body]
pub(crate) fn random_bytes(n: usize) -> (r: Result<Vec<u8>, RandomUnavailable>)
    ensures
        r matches Ok(v) ==> v@.len() == n,
{
    let mut v = vec![0u8; n];
    match getrandom::getrandom(&mut v) {
        Ok(()) => Ok(v),
        Err(_) => Err(RandomUnavailable),
    }
}

} // verus!
