//! Octet sequences.

use vstd::prelude::*;

verus! {

/// Appends octets.
pub fn push_all(out: &mut Vec<u8>, b: &[u8])
    ensures
        final(out)@ == old(out)@ + b@,
{
    let ghost before = out@;
    out.extend_from_slice(b);
    assert(out@ =~= before + b@);
}

} // verus!
