//! Values of the substrate that are carried and never checked.

use vstd::prelude::*;

verus! {

/// The public key that a coordinator is known by.
#[derive(Clone, PartialEq, Eq, Hash, Debug)]
pub struct IdentityKey(pub [u8; 32]);

/// A detached signature that nobody has checked.
#[derive(Clone, PartialEq, Eq, Debug)]
pub struct Signature(pub [u8; 64]);

/// Octets in deterministic CBOR.
#[derive(Clone, PartialEq, Eq, Debug)]
pub struct Cbor(pub Vec<u8>);

/// Marks a value whose authenticity was not checked. It must not be shown as verified.
#[derive(Clone, Copy, PartialEq, Eq, Debug)]
pub struct Unverified;

} // verus!
