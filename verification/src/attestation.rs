//! Attestations: a gateway vouches for having received a message over legacy mail.
//!
//! The key that signs is anchored in the recipient's own domain, which publishes its public half.
//! What is signed names the domain, the message and the envelope that it came in, each with its
//! length in front, so that nothing can be moved from one field to another.

use crate::bytes;
use crate::identity;
use crate::identity::{ContentId, IdentityError, IdentityKey};
use crate::model;
use crate::random::RandomUnavailable;
use crate::seqmap;
use crate::text;
use std::sync::Arc;
use vstd::prelude::*;
use vstd::slice::slice_to_vec;

verus! {

/// The label that attestations are signed under.
pub const ATTESTATION_DS: &'static str = "DMTAP-v0/gateway-attestation\0";

/// The octets of the label.
pub open spec fn label() -> Seq<u8> {
    vstd::utf8::encode_utf8(ATTESTATION_DS@)
}

/// The key that a gateway attests with for one domain.
pub struct AttestationKey {
    domain: String,
    selector: String,
    key: Arc<IdentityKey>,
}

/// [`AttestationKey`] with its contents as sequences.
pub struct AttestationKeyModel {
    pub domain: Seq<char>,
    pub selector: Seq<char>,
    pub seed: Seq<u8>,
}

impl View for AttestationKey {
    type V = AttestationKeyModel;

    closed spec fn view(&self) -> AttestationKeyModel {
        AttestationKeyModel { domain: self.domain@, selector: self.selector@, seed: self.key@ }
    }
}

/// A statement that a gateway received a message, and from whom and for whom.
#[derive(Debug, PartialEq, Eq)]
pub struct Attestation {
    pub domain: String,
    pub selector: String,
    /// The key that signed. A hint: what counts is the key that the domain publishes.
    pub gateway_key: Vec<u8>,
    pub received_at: u64,
    pub smtp_mail_from: String,
    pub smtp_rcpt_to: String,
    /// The content address of the message that is vouched for.
    pub mote_id: ContentId,
    pub sig: Vec<u8>,
}

/// [`Attestation`] with its contents as sequences.
pub struct AttestationModel {
    pub domain: Seq<char>,
    pub selector: Seq<char>,
    pub gateway_key: Seq<u8>,
    pub received_at: u64,
    pub smtp_mail_from: Seq<char>,
    pub smtp_rcpt_to: Seq<char>,
    pub mote_id: Seq<u8>,
    pub sig: Seq<u8>,
}

impl View for Attestation {
    type V = AttestationModel;

    open spec fn view(&self) -> AttestationModel {
        AttestationModel {
            domain: self.domain@,
            selector: self.selector@,
            gateway_key: self.gateway_key@,
            received_at: self.received_at,
            smtp_mail_from: self.smtp_mail_from@,
            smtp_rcpt_to: self.smtp_rcpt_to@,
            mote_id: self.mote_id@,
            sig: self.sig@,
        }
    }
}

impl Clone for Attestation {
    fn clone(&self) -> (r: Self)
        ensures
            r@ == self@,
    {
        Attestation {
            domain: self.domain.clone(),
            selector: self.selector.clone(),
            gateway_key: slice_to_vec(self.gateway_key.as_slice()),
            received_at: self.received_at,
            smtp_mail_from: self.smtp_mail_from.clone(),
            smtp_rcpt_to: self.smtp_rcpt_to.clone(),
            mote_id: self.mote_id.clone(),
            sig: slice_to_vec(self.sig.as_slice()),
        }
    }
}

/// Octets with their number in front of them.
pub open spec fn framed(b: Seq<u8>) -> Seq<u8> {
    identity::be64(b.len() as u64) + b
}

/// The octets of a text with their number in front of them.
pub open spec fn framed_text(s: Seq<char>) -> Seq<u8> {
    framed(vstd::utf8::encode_utf8(s))
}

/// What is signed: every field but the signature.
pub open spec fn body(a: AttestationModel) -> Seq<u8> {
    framed_text(a.domain) + (framed_text(a.selector) + (framed(a.gateway_key) + (identity::be64(
        a.received_at,
    ) + (framed_text(a.smtp_mail_from) + (framed_text(a.smtp_rcpt_to) + framed(a.mote_id))))))
}

fn push_framed(out: &mut Vec<u8>, b: &[u8])
    ensures
        final(out)@ == old(out)@ + framed(b@),
{
    let n: usize = b.len();
    identity::push_be64(out, n as u64);
    bytes::push_all(out, b);
    assert(out@ =~= old(out)@ + framed(b@));
}

/// The attestation that a key gives, with the given signature.
pub open spec fn statement(
    k: AttestationKeyModel,
    mote_id: Seq<u8>,
    mail_from: Seq<char>,
    rcpt_to: Seq<char>,
    at: u64,
    sig: Seq<u8>,
) -> AttestationModel {
    AttestationModel {
        domain: k.domain,
        selector: k.selector,
        gateway_key: identity::ed25519_public(k.seed),
        received_at: at,
        smtp_mail_from: mail_from,
        smtp_rcpt_to: rcpt_to,
        mote_id,
        sig,
    }
}

/// The attestation that a key gives.
pub open spec fn attested(
    k: AttestationKeyModel,
    mote_id: Seq<u8>,
    mail_from: Seq<char>,
    rcpt_to: Seq<char>,
    at: u64,
) -> AttestationModel {
    let unsigned = statement(k, mote_id, mail_from, rcpt_to, at, Seq::empty());
    statement(
        k,
        mote_id,
        mail_from,
        rcpt_to,
        at,
        identity::ed25519_signature(k.seed, label(), body(unsigned)),
    )
}

impl AttestationKey {
    /// A key for a domain and a selector.
    pub fn new(domain: &str, selector: &str, key: IdentityKey) -> (r: Self)
        ensures
            r@ == (AttestationKeyModel { domain: domain@, selector: selector@, seed: key@ }),
    {
        AttestationKey::sharing(domain, selector, Arc::new(key))
    }

    /// A key for a domain and a selector that shares an identity key.
    pub fn sharing(domain: &str, selector: &str, key: Arc<IdentityKey>) -> (r: Self)
        ensures
            r@ == (AttestationKeyModel { domain: domain@, selector: selector@, seed: key@ }),
    {
        AttestationKey {
            domain: text::string_from(domain),
            selector: text::string_from(selector),
            key,
        }
    }

    /// A fresh key for a domain and a selector.
    pub fn generate(domain: &str, selector: &str) -> (r: Result<Self, RandomUnavailable>)
        ensures
            r matches Ok(k) ==> k@.domain == domain@ && k@.selector == selector@ && k@.seed.len()
                == 32,
    {
        match IdentityKey::generate() {
            Ok(key) => Ok(AttestationKey::new(domain, selector, key)),
            Err(e) => Err(e),
        }
    }

    /// The domain that the key is anchored in.
    pub fn domain(&self) -> (r: &str)
        ensures
            r@ == self@.domain,
    {
        self.domain.as_str()
    }

    /// The selector that the key is published under.
    pub fn selector(&self) -> (r: &str)
        ensures
            r@ == self@.selector,
    {
        self.selector.as_str()
    }

    /// The public half, to be published.
    pub fn public(&self) -> (r: Vec<u8>)
        ensures
            r@ == identity::ed25519_public(self@.seed),
            r@.len() == 32,
    {
        self.key.public()
    }

    /// Signs octets under a label. The public half of the key accepts the signature for them.
    pub fn sign_ds(&self, ds: &[u8], preimage: &[u8]) -> (r: Vec<u8>)
        ensures
            r@ == identity::ed25519_signature(self@.seed, ds@, preimage@),
            r@.len() == 64,
            identity::ed25519_accepts(
                identity::ed25519_public(self@.seed),
                ds@,
                preimage@,
                r@,
            ),
    {
        self.key.sign_domain(ds, preimage)
    }

    /// Attests that a message was received. The domain that publishes the key accepts the
    /// attestation for this message.
    pub fn attest(
        &self,
        mote_id: &ContentId,
        smtp_mail_from: &str,
        smtp_rcpt_to: &str,
        received_at: u64,
    ) -> (r: Attestation)
        ensures
            r@ == attested(self@, mote_id@, smtp_mail_from@, smtp_rcpt_to@, received_at),
            r@.sig.len() == 64,
            verdict(
                r@,
                self@.domain,
                Some(identity::ed25519_public(self@.seed)),
                mote_id@,
            ) is Ok,
    {
        let mut att = Attestation {
            domain: self.domain.clone(),
            selector: self.selector.clone(),
            gateway_key: self.key.public(),
            received_at,
            smtp_mail_from: text::string_from(smtp_mail_from),
            smtp_rcpt_to: text::string_from(smtp_rcpt_to),
            mote_id: mote_id.clone(),
            sig: Vec::new(),
        };
        let ghost unsigned = statement(
            self@,
            mote_id@,
            smtp_mail_from@,
            smtp_rcpt_to@,
            received_at,
            Seq::empty(),
        );
        assert(att@.sig =~= Seq::<u8>::empty());
        assert(att@ == unsigned);
        let b = att.signing_body();
        att.sig = self.sign_ds(ATTESTATION_DS.as_bytes(), b.as_slice());
        att
    }
}

/// Why an attestation was not accepted.
#[derive(Debug, Clone, PartialEq, Eq)]
pub enum AttestationError {
    /// It is about another domain.
    WrongDomain,
    /// The domain publishes no key under the selector.
    NoPublishedKey,
    /// It names another key than the one that is published.
    KeyMismatch,
    /// It vouches for another message.
    MoteMismatch,
    /// The signature does not verify.
    BadSignature(IdentityError),
}

/// What a recipient decides about an attestation.
pub open spec fn verdict(
    a: AttestationModel,
    domain: Seq<char>,
    published: Option<Seq<u8>>,
    mote_id: Seq<u8>,
) -> Result<(), AttestationError> {
    if a.domain != domain {
        Err(AttestationError::WrongDomain)
    } else if a.mote_id != mote_id {
        Err(AttestationError::MoteMismatch)
    } else {
        match published {
            None => Err(AttestationError::NoPublishedKey),
            Some(k) => if k != a.gateway_key {
                Err(AttestationError::KeyMismatch)
            } else if identity::ed25519_accepts(k, label(), body(a), a.sig) {
                Ok(())
            } else {
                Err(AttestationError::BadSignature(identity::refusal(k, a.sig)))
            },
        }
    }
}

impl Attestation {
    /// What is signed: every field but the signature.
    pub fn signing_body(&self) -> (r: Vec<u8>)
        ensures
            r@ == body(self@),
    {
        let mut m: Vec<u8> = Vec::new();
        push_framed(&mut m, self.domain.as_str().as_bytes());
        push_framed(&mut m, self.selector.as_str().as_bytes());
        push_framed(&mut m, self.gateway_key.as_slice());
        identity::push_be64(&mut m, self.received_at);
        push_framed(&mut m, self.smtp_mail_from.as_str().as_bytes());
        push_framed(&mut m, self.smtp_rcpt_to.as_str().as_bytes());
        push_framed(&mut m, self.mote_id.0.as_slice());
        assert(m@ =~= body(self@));
        m
    }

    /// Checks an attestation on the recipient's side: it must be about the recipient's own domain
    /// and about the message that it came with, and be signed with the key that the domain
    /// publishes.
    pub fn verify(
        &self,
        expected_domain: &str,
        published_key: Option<&[u8]>,
        wrapped_mote_id: &ContentId,
    ) -> (r: Result<(), AttestationError>)
        ensures
            r == verdict(
                self@,
                expected_domain@,
                match published_key {
                    Some(k) => Some(k@),
                    None => None,
                },
                wrapped_mote_id@,
            ),
    {
        if !text::same_str(self.domain.as_str(), expected_domain) {
            return Err(AttestationError::WrongDomain);
        }
        if !seqmap::same_bytes(self.mote_id.0.as_slice(), wrapped_mote_id.0.as_slice()) {
            return Err(AttestationError::MoteMismatch);
        }
        let published = match published_key {
            Some(k) => k,
            None => {
                return Err(AttestationError::NoPublishedKey);
            },
        };
        if !seqmap::same_bytes(published, self.gateway_key.as_slice()) {
            return Err(AttestationError::KeyMismatch);
        }
        let b = self.signing_body();
        match identity::verify_domain(
            published,
            ATTESTATION_DS.as_bytes(),
            b.as_slice(),
            self.sig.as_slice(),
        ) {
            Ok(_) => Ok(()),
            Err(e) => Err(AttestationError::BadSignature(e)),
        }
    }
}

/// Looks up the attestation keys that domains publish.
pub trait GwKeyResolver {
    /// Whether a lookup may come back with the given key, or with none.
    open spec fn may_publish(
        &self,
        domain: Seq<char>,
        selector: Seq<char>,
        key: Option<Seq<u8>>,
    ) -> bool {
        true
    }

    /// The key that a domain publishes under a selector.
    fn resolve_gw_key(&self, domain: &str, selector: &str) -> (r: Option<Vec<u8>>)
        ensures
            self.may_publish(domain@, selector@, model::opt_view(r)),
    ;
}

/// A table of published keys.
pub struct StaticGwKeys {
    entries: Vec<(String, String, Vec<u8>)>,
}

/// A published key.
pub struct GwEntryModel {
    pub domain: Seq<char>,
    pub selector: Seq<char>,
    pub key: Seq<u8>,
}

impl View for StaticGwKeys {
    type V = Seq<GwEntryModel>;

    closed spec fn view(&self) -> Seq<GwEntryModel> {
        Seq::new(
            self.entries@.len(),
            |i: int|
                GwEntryModel {
                    domain: self.entries@[i].0@,
                    selector: self.entries@[i].1@,
                    key: self.entries@[i].2@,
                },
        )
    }
}

/// The first key under a domain and a selector.
pub open spec fn first_key(
    entries: Seq<GwEntryModel>,
    domain: Seq<char>,
    selector: Seq<char>,
) -> Option<Seq<u8>>
    decreases entries.len(),
{
    if entries.len() == 0 {
        None
    } else if entries[0].domain == domain && entries[0].selector == selector {
        Some(entries[0].key)
    } else {
        first_key(entries.skip(1), domain, selector)
    }
}

impl StaticGwKeys {
    /// A table without keys.
    pub fn new() -> (r: Self)
        ensures
            r@ == Seq::<GwEntryModel>::empty(),
    {
        let r = StaticGwKeys { entries: Vec::new() };
        assert(r@ =~= Seq::<GwEntryModel>::empty());
        r
    }

    /// The table with one more key. Of two keys in the same place the first counts.
    pub fn publish(self, domain: &str, selector: &str, key: Vec<u8>) -> (r: Self)
        ensures
            r@ == self@.push(
                GwEntryModel { domain: domain@, selector: selector@, key: key@ },
            ),
    {
        let mut entries = self.entries;
        entries.push((text::string_from(domain), text::string_from(selector), key));
        let r = StaticGwKeys { entries };
        assert(r@ =~= self@.push(
            GwEntryModel { domain: domain@, selector: selector@, key: key@ },
        ));
        r
    }
}

impl GwKeyResolver for StaticGwKeys {
    open spec fn may_publish(
        &self,
        domain: Seq<char>,
        selector: Seq<char>,
        key: Option<Seq<u8>>,
    ) -> bool {
        key == first_key(self@, domain, selector)
    }

    fn resolve_gw_key(&self, domain: &str, selector: &str) -> (r: Option<Vec<u8>>) {
        let ghost all = self@;
        let mut i: usize = 0;
        assert(all.skip(0) =~= all);
        while i < self.entries.len()
            invariant
                i <= self.entries@.len(),
                all == self@,
                all.len() == self.entries@.len(),
                first_key(all, domain@, selector@) == first_key(
                    all.skip(i as int),
                    domain@,
                    selector@,
                ),
            decreases self.entries@.len() - i,
        {
            let e = &self.entries[i];
            assert(all.skip(i as int)[0] == all[i as int]);
            assert(all.skip(i as int).skip(1) =~= all.skip(i + 1));
            if text::same_str(e.0.as_str(), domain) && text::same_str(e.1.as_str(), selector) {
                return Some(slice_to_vec(e.2.as_slice()));
            }
            i += 1;
        }
        None
    }
}

// ---- laws --------------------------------------------------------------------------------------

proof fn lemma_framed_apart(a: Seq<u8>, x: Seq<u8>, b: Seq<u8>, y: Seq<u8>)
    requires
        a.len() <= u64::MAX,
        b.len() <= u64::MAX,
        framed(a) + x == framed(b) + y,
    ensures
        a == b,
        x == y,
{
    let l = framed(a) + x;
    let r = framed(b) + y;
    let ha = identity::be64(a.len() as u64);
    let hb = identity::be64(b.len() as u64);
    assert(l.take(8) =~= ha);
    assert(r.take(8) =~= hb);
    identity::lemma_be64_injective(a.len() as u64, b.len() as u64);
    let n = a.len() as int;
    assert(l.subrange(8, 8 + n) =~= a);
    assert(r.subrange(8, 8 + n) =~= b);
    assert(l.skip(8 + n) =~= x);
    assert(r.skip(8 + n) =~= y);
}

proof fn lemma_be64_apart(a: u64, x: Seq<u8>, b: u64, y: Seq<u8>)
    requires
        identity::be64(a) + x == identity::be64(b) + y,
    ensures
        a == b,
        x == y,
{
    let l = identity::be64(a) + x;
    let r = identity::be64(b) + y;
    assert(l.take(8) =~= identity::be64(a));
    assert(r.take(8) =~= identity::be64(b));
    identity::lemma_be64_injective(a, b);
    assert(l.skip(8) =~= x);
    assert(r.skip(8) =~= y);
}

proof fn lemma_same_text(a: Seq<char>, b: Seq<char>)
    requires
        vstd::utf8::encode_utf8(a) == vstd::utf8::encode_utf8(b),
    ensures
        a == b,
{
    vstd::utf8::encode_utf8_decode_utf8(a);
    vstd::utf8::encode_utf8_decode_utf8(b);
}

/// Whether the fields of an attestation have lengths that a machine can hold.
pub open spec fn sized(a: AttestationModel) -> bool {
    &&& vstd::utf8::encode_utf8(a.domain).len() <= u64::MAX
    &&& vstd::utf8::encode_utf8(a.selector).len() <= u64::MAX
    &&& a.gateway_key.len() <= u64::MAX
    &&& vstd::utf8::encode_utf8(a.smtp_mail_from).len() <= u64::MAX
    &&& vstd::utf8::encode_utf8(a.smtp_rcpt_to).len() <= u64::MAX
    &&& a.mote_id.len() <= u64::MAX
}

/// Two attestations whose signed octets are the same agree in every signed field: nothing can be
/// moved over a field boundary, and no attestation can be lifted onto another message.
pub proof fn law_body_is_injective(a: AttestationModel, b: AttestationModel)
    requires
        sized(a),
        sized(b),
        body(a) == body(b),
    ensures
        a == (AttestationModel { sig: a.sig, ..b }),
{
    let a5 = framed_text(a.smtp_rcpt_to) + framed(a.mote_id);
    let b5 = framed_text(b.smtp_rcpt_to) + framed(b.mote_id);
    let a4 = framed_text(a.smtp_mail_from) + a5;
    let b4 = framed_text(b.smtp_mail_from) + b5;
    let a3 = identity::be64(a.received_at) + a4;
    let b3 = identity::be64(b.received_at) + b4;
    let a2 = framed(a.gateway_key) + a3;
    let b2 = framed(b.gateway_key) + b3;
    let a1 = framed_text(a.selector) + a2;
    let b1 = framed_text(b.selector) + b2;
    lemma_framed_apart(
        vstd::utf8::encode_utf8(a.domain),
        a1,
        vstd::utf8::encode_utf8(b.domain),
        b1,
    );
    lemma_same_text(a.domain, b.domain);
    lemma_framed_apart(
        vstd::utf8::encode_utf8(a.selector),
        a2,
        vstd::utf8::encode_utf8(b.selector),
        b2,
    );
    lemma_same_text(a.selector, b.selector);
    lemma_framed_apart(a.gateway_key, a3, b.gateway_key, b3);
    lemma_be64_apart(a.received_at, a4, b.received_at, b4);
    lemma_framed_apart(
        vstd::utf8::encode_utf8(a.smtp_mail_from),
        a5,
        vstd::utf8::encode_utf8(b.smtp_mail_from),
        b5,
    );
    lemma_same_text(a.smtp_mail_from, b.smtp_mail_from);
    lemma_framed_apart(
        vstd::utf8::encode_utf8(a.smtp_rcpt_to),
        framed(a.mote_id),
        vstd::utf8::encode_utf8(b.smtp_rcpt_to),
        framed(b.mote_id),
    );
    lemma_same_text(a.smtp_rcpt_to, b.smtp_rcpt_to);
    let e = Seq::<u8>::empty();
    assert(framed(a.mote_id) + e =~= framed(a.mote_id));
    assert(framed(b.mote_id) + e =~= framed(b.mote_id));
    lemma_framed_apart(a.mote_id, e, b.mote_id, e);
}

/// An accepted attestation is about the recipient's domain and the delivered message, and names the
/// key that is published.
pub proof fn law_accepted_is_bound(
    a: AttestationModel,
    domain: Seq<char>,
    published: Option<Seq<u8>>,
    mote_id: Seq<u8>,
)
    requires
        verdict(a, domain, published, mote_id) is Ok,
    ensures
        a.domain == domain,
        a.mote_id == mote_id,
        published == Some(a.gateway_key),
        identity::ed25519_accepts(a.gateway_key, label(), body(a), a.sig),
{
}

/// Without a published key nothing is accepted.
pub proof fn law_no_key_no_acceptance(a: AttestationModel, domain: Seq<char>, mote_id: Seq<u8>)
    ensures
        verdict(a, domain, None, mote_id) is Err,
{
}

/// An attestation says which key of which domain vouches for which message, from whom, to whom and
/// when, and is signed with that key over all of it.
pub proof fn law_what_an_attestation_says(
    k: AttestationKeyModel,
    mote_id: Seq<u8>,
    mail_from: Seq<char>,
    rcpt_to: Seq<char>,
    at: u64,
    sig: Seq<u8>,
)
    ensures
        ({
            let a = attested(k, mote_id, mail_from, rcpt_to, at);
            &&& a.domain == k.domain && a.selector == k.selector
            &&& a.gateway_key == identity::ed25519_public(k.seed)
            &&& a.mote_id == mote_id && a.smtp_mail_from == mail_from && a.smtp_rcpt_to == rcpt_to
            &&& a.received_at == at
            &&& a.sig == identity::ed25519_signature(k.seed, label(), body(a))
            &&& body(AttestationModel { sig, ..a }) == body(a)
        }),
{
    let a = attested(k, mote_id, mail_from, rcpt_to, at);
    assert(body(statement(k, mote_id, mail_from, rcpt_to, at, Seq::empty())) == body(a));
}

proof fn lemma_seven_in_a_row(
    a: Seq<u8>,
    b: Seq<u8>,
    c: Seq<u8>,
    d: Seq<u8>,
    e: Seq<u8>,
    f: Seq<u8>,
    g: Seq<u8>,
)
    ensures
        a + (b + (c + (d + (e + (f + g))))) == a + b + c + d + e + f + g,
{
    lemma_three_in_a_row(a, b, c + (d + (e + (f + g))));
    lemma_three_in_a_row(a + b, c, d + (e + (f + g)));
    lemma_three_in_a_row(a + b + c, d, e + (f + g));
    lemma_three_in_a_row(a + b + c + d, e, f + g);
    lemma_three_in_a_row(a + b + c + d + e, f, g);
}

proof fn lemma_three_in_a_row(a: Seq<u8>, b: Seq<u8>, c: Seq<u8>)
    ensures
        a + (b + c) == a + b + c,
{
    assert(a + (b + c) =~= a + b + c);
}

/// What is signed: the domain, the selector, the key, the time, the sender, the recipient and the name
/// of the message, in this order, the time as a number and each of the others with the number of its
/// octets in front; all numbers in eight octets.
pub proof fn law_layout_of_what_is_signed(a: AttestationModel)
    ensures
        ({
            let text = |s: Seq<char>|
                identity::be64(vstd::utf8::encode_utf8(s).len() as u64) + vstd::utf8::encode_utf8(s);
            let octets = |b: Seq<u8>| identity::be64(b.len() as u64) + b;
            body(a) == text(a.domain) + text(a.selector) + octets(a.gateway_key) + identity::be64(
                a.received_at,
            ) + text(a.smtp_mail_from) + text(a.smtp_rcpt_to) + octets(a.mote_id)
        }),
{
    lemma_seven_in_a_row(
        framed_text(a.domain),
        framed_text(a.selector),
        framed(a.gateway_key),
        identity::be64(a.received_at),
        framed_text(a.smtp_mail_from),
        framed_text(a.smtp_rcpt_to),
        framed(a.mote_id),
    );
}

/// An attestation is accepted exactly if it is for the domain and the message, the domain publishes the
/// key that it names, and that key accepts the signature; else the first of these that fails is the
/// reason.
pub proof fn law_when_an_attestation_is_accepted(
    a: AttestationModel,
    domain: Seq<char>,
    published: Option<Seq<u8>>,
    mote_id: Seq<u8>,
)
    ensures
        match verdict(a, domain, published, mote_id) {
            Ok(_) => a.domain == domain && a.mote_id == mote_id && published == Some(a.gateway_key)
                && identity::ed25519_accepts(a.gateway_key, label(), body(a), a.sig),
            Err(AttestationError::WrongDomain) => a.domain != domain,
            Err(AttestationError::MoteMismatch) => a.domain == domain && a.mote_id != mote_id,
            Err(AttestationError::NoPublishedKey) => a.domain == domain && a.mote_id == mote_id
                && published is None,
            Err(AttestationError::KeyMismatch) => a.domain == domain && a.mote_id == mote_id
                && published is Some && published != Some(a.gateway_key),
            Err(AttestationError::BadSignature(_)) => a.domain == domain && a.mote_id == mote_id
                && published == Some(a.gateway_key) && !identity::ed25519_accepts(
                a.gateway_key,
                label(),
                body(a),
                a.sig,
            ),
        },
{
}

/// A table gives back the key that was published for a domain and a selector, unless another was
/// published for them before.
pub proof fn law_published_key_is_found(
    t: Seq<GwEntryModel>,
    k: GwEntryModel,
    domain: Seq<char>,
    selector: Seq<char>,
)
    ensures
        first_key(t.push(k), domain, selector) == (match first_key(t, domain, selector) {
            Some(old) => Some(old),
            None => if k.domain == domain && k.selector == selector {
                Some(k.key)
            } else {
                None
            },
        }),
        first_key(Seq::<GwEntryModel>::empty(), domain, selector) is None,
    decreases t.len(),
{
    if t.len() == 0 {
        reveal_with_fuel(first_key, 2);
        assert(t.push(k).skip(1) =~= t);
    } else {
        assert(t.push(k)[0] == t[0]);
        assert(t.push(k).skip(1) =~= t.skip(1).push(k));
        law_published_key_is_found(t.skip(1), k, domain, selector);
    }
}

/// What an attestation is signed under.
pub proof fn law_label_of_attestations()
    ensures
        label() == vstd::utf8::encode_utf8("DMTAP-v0/gateway-attestation\0"@),
{
}

/// A table of keys answers with the first key that is listed for the domain and the selector.
pub proof fn law_table_answers_with_its_key(
    t: StaticGwKeys,
    domain: Seq<char>,
    selector: Seq<char>,
    key: Option<Seq<u8>>,
)
    ensures
        t.may_publish(domain, selector, key) <==> key == first_key(t@, domain, selector),
{
}

} // verus!
