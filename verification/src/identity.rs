//! Identity keys, signatures with a domain-separation label, and content addresses.
//!
//! The cryptography is the `kotva-core` crate's. A key is held here as its seed, and each operation
//! on it is one call into that crate, from octets to octets.

use crate::dkim;
use crate::random;
use vstd::prelude::*;
use vstd::slice::slice_to_vec;

verus! {

/// The public key that `kotva_core::identity::IdentityKey::public` gives for the key of a seed.
pub uninterp spec fn ed25519_public(seed: Seq<u8>) -> Seq<u8>;

/// The signature that `kotva_core::identity::IdentityKey::sign_domain` gives with the key of a seed.
pub uninterp spec fn ed25519_signature(seed: Seq<u8>, domain: Seq<u8>, msg: Seq<u8>) -> Seq<u8>;

/// Whether `kotva_core::identity::verify_domain` accepts.
pub uninterp spec fn ed25519_accepts(
    public_key: Seq<u8>,
    domain: Seq<u8>,
    msg: Seq<u8>,
    sig: Seq<u8>,
) -> bool;

/// The digest inside `kotva_core::ContentId::of`.
pub uninterp spec fn content_digest(bytes: Seq<u8>) -> Seq<u8>;

/// `IdentityKey::from_seed`, then `IdentityKey::public`. The result has 32 octets and is a function
/// of the seed alone, named [`ed25519_public`].
#[verifier::external_body]
fn public_of_seed(seed: &[u8; 32]) -> (r: Vec<u8>)
    ensures
        r@ == ed25519_public(seed@),
        r@.len() == 32,
{
    kotva_core::identity::IdentityKey::from_seed(seed).public()
}

/// `IdentityKey::from_seed`, then `IdentityKey::sign_domain`. The signature has 64 octets and is a
/// function of the seed, the label and the message, named [`ed25519_signature`]; and
/// `verify_domain` accepts it under the public key of the seed, the label and the message.
#[verifier::external_body]
fn sign_with_seed(seed: &[u8; 32], domain: &[u8], msg: &[u8]) -> (r: Vec<u8>)
    ensures
        r@ == ed25519_signature(seed@, domain@, msg@),
        r@.len() == 64,
        ed25519_accepts(ed25519_public(seed@), domain@, msg@, r@),
{
    kotva_core::identity::IdentityKey::from_seed(seed).sign_domain(domain, msg)
}

/// Why a signature was not accepted.
#[derive(Debug, Clone, Copy, PartialEq, Eq, Structural)]
pub enum IdentityError {
    /// The signature is not the key's.
    BadSignature,
    /// The key is no key, or the signature has the wrong length.
    BadKeyLength,
}

impl View for IdentityError {
    type V = IdentityError;

    open spec fn view(&self) -> IdentityError {
        *self
    }
}

/// What a key and a signature that are not accepted are refused for.
pub open spec fn refusal(public_key: Seq<u8>, sig: Seq<u8>) -> IdentityError {
    if public_key.len() == 32 && dkim::dalek_is_key(public_key) && sig.len() == 64 {
        IdentityError::BadSignature
    } else {
        IdentityError::BadKeyLength
    }
}

/// `kotva_core::identity::verify_domain`. Whether it accepts is a function of its arguments, named
/// [`ed25519_accepts`]. It refuses as too short or too long what is not a key for
/// `ed25519_dalek::VerifyingKey::from_bytes` and what is not a signature of 64 octets, and every
/// other refusal is of the signature.
#[verifier::external_body]
pub(crate) fn verify_domain(public_key: &[u8], domain: &[u8], msg: &[u8], sig: &[u8]) -> (r: Result<
    (),
    IdentityError,
>)
    ensures
        r is Ok <==> ed25519_accepts(public_key@, domain@, msg@, sig@),
        r matches Err(e) ==> e == refusal(public_key@, sig@),
        r is Ok ==> refusal(public_key@, sig@) == IdentityError::BadSignature,
{
    match kotva_core::identity::verify_domain(public_key, domain, msg, sig) {
        Ok(_) => Ok(()),
        Err(kotva_core::identity::IdentityError::BadSignature) => Err(IdentityError::BadSignature),
        Err(_) => Err(IdentityError::BadKeyLength),
    }
}

/// `kotva_core::ContentId::of`, then `ContentId::digest`. The digest has 32 octets and is a function
/// of the octets alone, named [`content_digest`].
#[verifier::external_body]
fn digest_of(bytes: &[u8]) -> (r: Vec<u8>)
    ensures
        r@ == content_digest(bytes@),
        r@.len() == 32,
{
    kotva_core::ContentId::of(bytes).digest().to_vec()
}

/// An identity key. Its view is its seed.
#[derive(Debug)]
pub struct IdentityKey {
    seed: [u8; 32],
}

impl View for IdentityKey {
    type V = Seq<u8>;

    closed spec fn view(&self) -> Seq<u8> {
        self.seed@
    }
}

impl Clone for IdentityKey {
    fn clone(&self) -> (r: Self)
        ensures
            r@ == self@,
    {
        IdentityKey { seed: self.seed }
    }
}

impl IdentityKey {
    /// The key of a seed.
    pub fn from_seed(seed: &[u8; 32]) -> (r: Self)
        ensures
            r@ == seed@,
    {
        IdentityKey { seed: *seed }
    }

    /// The seed.
    pub(crate) fn seed_octets(&self) -> (r: [u8; 32])
        ensures
            r@ == self@,
    {
        self.seed
    }

    /// A fresh key. Every seed is possible.
    pub fn generate() -> (r: Result<Self, random::RandomUnavailable>)
        ensures
            r matches Ok(k) ==> k@.len() == 32,
    {
        match random_seed() {
            Ok(seed) => Ok(IdentityKey { seed }),
            Err(e) => Err(e),
        }
    }

    /// The public half of the key.
    pub fn public(&self) -> (r: Vec<u8>)
        ensures
            r@ == ed25519_public(self@),
            r@.len() == 32,
    {
        public_of_seed(&self.seed)
    }

    /// Signs a message under a domain-separation label.
    pub fn sign_domain(&self, domain: &[u8], msg: &[u8]) -> (r: Vec<u8>)
        ensures
            r@ == ed25519_signature(self@, domain@, msg@),
            r@.len() == 64,
            ed25519_accepts(ed25519_public(self@), domain@, msg@, r@),
    {
        sign_with_seed(&self.seed, domain, msg)
    }
}

/// Thirty-two octets as an array.
pub fn array32(v: &[u8]) -> (r: [u8; 32])
    requires
        v@.len() == 32,
    ensures
        r@ == v@,
{
    let mut out: [u8; 32] = [0u8;32];
    let mut i: usize = 0;
    while i < 32
        invariant
            v@.len() == 32,
            i <= 32,
            forall|j: int| 0 <= j < i ==> out@[j] == v@[j],
        decreases 32 - i,
    {
        out[i] = v[i];
        i += 1;
    }
    assert(out@ =~= v@);
    out
}

/// Thirty-two random octets.
pub fn random_seed() -> (r: Result<[u8; 32], random::RandomUnavailable>)
{
    match random::random_bytes(32) {
        Ok(v) => Ok(array32(v.as_slice())),
        Err(e) => Err(e),
    }
}

/// The algorithm prefix of a content address: BLAKE3 with 256 bits.
pub const MH_BLAKE3_256: u8 = 0x1e;

/// A content address: the algorithm prefix, then the digest.
#[derive(Debug, PartialEq, Eq)]
pub struct ContentId(pub Vec<u8>);

impl View for ContentId {
    type V = Seq<u8>;

    open spec fn view(&self) -> Seq<u8> {
        self.0@
    }
}

impl Clone for ContentId {
    fn clone(&self) -> (r: Self)
        ensures
            r@ == self@,
    {
        ContentId(slice_to_vec(self.0.as_slice()))
    }
}

/// The content address of octets.
pub open spec fn content_address(bytes: Seq<u8>) -> Seq<u8> {
    seq![MH_BLAKE3_256] + content_digest(bytes)
}

impl ContentId {
    /// The content address of octets.
    pub fn of(bytes: &[u8]) -> (r: ContentId)
        ensures
            r@ == content_address(bytes@),
            r@.len() == 33,
    {
        let d = digest_of(bytes);
        let mut v: Vec<u8> = Vec::new();
        v.push(MH_BLAKE3_256);
        v.extend_from_slice(d.as_slice());
        assert(v@ =~= seq![MH_BLAKE3_256] + content_digest(bytes@));
        ContentId(v)
    }

    /// The digest: what follows the prefix.
    pub fn digest(&self) -> (r: &[u8])
        ensures
            r@ == (if self@.len() > 0 {
                self@.skip(1)
            } else {
                self@
            }),
    {
        let n: usize = self.0.len();
        if n > 0 {
            vstd::slice::slice_subrange(self.0.as_slice(), 1, n)
        } else {
            self.0.as_slice()
        }
    }
}

/// A 64-bit number in network byte order.
pub open spec fn be64(n: u64) -> Seq<u8> {
    seq![
        (n / 0x100_0000_0000_0000) as u8,
        (n / 0x1_0000_0000_0000 % 256) as u8,
        (n / 0x100_0000_0000 % 256) as u8,
        (n / 0x1_0000_0000 % 256) as u8,
        (n / 0x100_0000 % 256) as u8,
        (n / 0x1_0000 % 256) as u8,
        (n / 0x100 % 256) as u8,
        (n % 256) as u8,
    ]
}

/// Appends a 64-bit number in network byte order.
pub fn push_be64(out: &mut Vec<u8>, n: u64)
    ensures
        final(out)@ == old(out)@ + be64(n),
{
    let ghost before = out@;
    out.push((n / 0x100_0000_0000_0000) as u8);
    out.push((n / 0x1_0000_0000_0000 % 256) as u8);
    out.push((n / 0x100_0000_0000 % 256) as u8);
    out.push((n / 0x1_0000_0000 % 256) as u8);
    out.push((n / 0x100_0000 % 256) as u8);
    out.push((n / 0x1_0000 % 256) as u8);
    out.push((n / 0x100 % 256) as u8);
    out.push((n % 256) as u8);
    assert(out@ =~= before + be64(n));
}

/// The number that eight octets spell.
spec fn be64_value(b: Seq<u8>) -> int {
    b[7] + 256 * (b[6] + 256 * (b[5] + 256 * (b[4] + 256 * (b[3] + 256 * (b[2] + 256 * (b[1] + 256
        * b[0]))))))
}

proof fn lemma_be64_value(n: u64)
    ensures
        be64_value(be64(n)) == n,
{
    let q1 = n / 256;
    let q2 = q1 / 256;
    let q3 = q2 / 256;
    let q4 = q3 / 256;
    let q5 = q4 / 256;
    let q6 = q5 / 256;
    let q7 = q6 / 256;
    assert(n / 0x1_0000 == q2);
    assert(n / 0x100_0000 == q3) by {
        assert(n / 0x100_0000 == (n / 0x1_0000) / 256);
    }
    assert(n / 0x1_0000_0000 == q4) by {
        assert(n / 0x1_0000_0000 == (n / 0x100_0000) / 256);
    }
    assert(n / 0x100_0000_0000 == q5) by {
        assert(n / 0x100_0000_0000 == (n / 0x1_0000_0000) / 256);
    }
    assert(n / 0x1_0000_0000_0000 == q6) by {
        assert(n / 0x1_0000_0000_0000 == (n / 0x100_0000_0000) / 256);
    }
    assert(n / 0x100_0000_0000_0000 == q7) by {
        assert(n / 0x100_0000_0000_0000 == (n / 0x1_0000_0000_0000) / 256);
    }
    assert(q7 < 256);
    assert(n == q1 * 256 + n % 256);
    assert(q1 == q2 * 256 + q1 % 256);
    assert(q2 == q3 * 256 + q2 % 256);
    assert(q3 == q4 * 256 + q3 % 256);
    assert(q4 == q5 * 256 + q4 % 256);
    assert(q5 == q6 * 256 + q5 % 256);
    assert(q6 == q7 * 256 + q6 % 256);
}

/// Eight octets spell one number.
pub proof fn lemma_be64_injective(a: u64, b: u64)
    requires
        be64(a) == be64(b),
    ensures
        a == b,
{
    lemma_be64_value(a);
    lemma_be64_value(b);
}

/// A number of 64 bits is written in eight octets, the most significant first.
pub proof fn law_most_significant_octet_first(n: u64)
    ensures
        be64(n).len() == 8,
        ((((((be64(n)[0] * 256 + be64(n)[1]) * 256 + be64(n)[2]) * 256 + be64(n)[3]) * 256 + be64(
            n,
        )[4]) * 256 + be64(n)[5]) * 256 + be64(n)[6]) * 256 + be64(n)[7] == n,
{
    let m1 = n / 0x100;
    let m2 = n / 0x1_0000;
    let m3 = n / 0x100_0000;
    let m4 = n / 0x1_0000_0000;
    let m5 = n / 0x100_0000_0000;
    let m6 = n / 0x1_0000_0000_0000;
    let m7 = n / 0x100_0000_0000_0000;
    assert(m2 == m1 / 256);
    assert(m3 == m2 / 256);
    assert(m4 == m3 / 256);
    assert(m5 == m4 / 256);
    assert(m6 == m5 / 256);
    assert(m7 == m6 / 256);
    assert(m7 < 256);
    let b = be64(n);
    assert(b[0] == m7);
    assert(b[1] == m6 % 256);
    assert(b[2] == m5 % 256);
    assert(b[3] == m4 % 256);
    assert(b[4] == m3 % 256);
    assert(b[5] == m2 % 256);
    assert(b[6] == m1 % 256);
    assert(b[7] == n % 256);
}

/// A content address is the number of the digest, then the digest of the octets.
pub proof fn law_content_address(bytes: Seq<u8>)
    ensures
        content_address(bytes) == seq![0x1eu8] + content_digest(bytes),
{
}

} // verus!
