//! The way in: a legacy message is checked, sealed, attested and handed to the mesh.
//!
//! The sender is told that its message was accepted only once the mesh has taken durable custody of
//! it. In every other case the message stays with the sender, which is told why.

use crate::abuse::AntiAbuse;
use crate::attestation;
use crate::attestation::{Attestation, AttestationKey};
use crate::directory;
use crate::directory::{KeyDirectory, RecipientKey};
use crate::dkim;
use crate::dkim::{DkimKeyResolver, DkimVerdict};
use crate::identity;
use crate::identity::IdentityKey;
use crate::ip;
use crate::model;
use crate::mote;
use crate::mote::SealedMote;
use crate::provenance;
use crate::provenance::{GatewayHop, ProvenanceRecord};
use crate::smtp;
use crate::smtp::SmtpReply;
use crate::text;
use std::sync::Arc;
use vstd::prelude::*;

verus! {

/// What became of a message in the mesh.
#[derive(Debug, Clone, Copy, PartialEq, Eq, Structural)]
pub enum DeliveryOutcome {
    /// It is in durable custody.
    Acked,
    /// It is not, as far as is known.
    NoAck,
}

/// Hands a sealed and attested message to the mesh.
pub trait MeshDelivery: Sized {
    /// Whether one delivery of a message may have the given outcome and leave the way into the mesh
    /// as given.
    open spec fn delivers(
        before: Self,
        mote: mote::MoteModel,
        att: attestation::AttestationModel,
        outcome: DeliveryOutcome,
        after: Self,
    ) -> bool {
        true
    }

    /// Delivers a message.
    fn deliver(&mut self, mote: &SealedMote, att: &Attestation) -> (r: DeliveryOutcome)
        ensures
            Self::delivers(*old(self), mote@, att@, r, *final(self)),
    ;
}

/// What is done about a DKIM signature.
#[derive(Debug, Clone, Copy, PartialEq, Eq, Structural)]
pub enum DkimPolicy {
    /// It is looked at and nothing is refused for it.
    Annotate,
    /// A message with a signature that does not verify is refused.
    Enforce,
}

/// What is done about SPF.
#[derive(Debug, Clone, Copy, PartialEq, Eq, Structural)]
pub enum SpfPolicy {
    /// It is evaluated and nothing is refused for it.
    Annotate,
    /// A failure is refused, and a passing error puts the sender off.
    Enforce,
}

/// What is done about DMARC.
#[derive(Debug, Clone, Copy, PartialEq, Eq, Structural)]
pub enum DmarcHandling {
    /// It is evaluated and nothing is refused for it.
    Annotate,
    /// A message is refused that fails under a policy to reject.
    Enforce,
}

/// The result of an SPF evaluation.
#[derive(Debug, Clone, Copy, PartialEq, Eq, Structural)]
pub enum SpfResult {
    Pass,
    Fail,
    SoftFail,
    Neutral,
    /// There is no policy, or none was looked for.
    NoPolicy,
    TempError,
    PermError,
}

/// The outcome of an SPF evaluation.
#[derive(Debug, Clone, Copy, PartialEq, Eq, Structural)]
pub struct SpfOutcome {
    pub result: SpfResult,
}

impl SpfOutcome {
    /// The outcome where nothing was evaluated.
    pub fn unevaluated() -> (r: Self)
        ensures
            r == (SpfOutcome { result: SpfResult::NoPolicy }),
    {
        SpfOutcome { result: SpfResult::NoPolicy }
    }
}

/// Evaluates SPF.
pub trait SpfEvaluator {
    /// Whether an evaluation may come out as given.
    open spec fn may_evaluate(
        &self,
        peer_ip: Seq<char>,
        mail_from: Seq<char>,
        helo: Option<Seq<char>>,
        outcome: SpfOutcome,
    ) -> bool {
        true
    }

    /// Evaluates the policy of the sender's domain, or of the greeting's where the sender has none,
    /// for the IP address of the peer.
    fn evaluate(&self, peer_ip: &str, mail_from: &str, helo: Option<&str>) -> (r: SpfOutcome)
        requires
            ip::is_ip_address(peer_ip@),
        ensures
            self.may_evaluate(
                peer_ip@,
                mail_from@,
                match helo {
                    Some(h) => Some(h@),
                    None => None,
                },
                r,
            ),
    ;
}

/// What a domain asks for in the case of a failure.
#[derive(Debug, Clone, Copy, PartialEq, Eq, Structural)]
pub enum DmarcDisposition {
    NoAction,
    Quarantine,
    Reject,
}

/// The outcome of a DMARC evaluation.
#[derive(Debug, Clone, Copy, PartialEq, Eq, Structural)]
pub enum DmarcVerdict {
    Pass,
    NoPolicy,
    PermError,
    Fail { disposition: DmarcDisposition },
}

/// The domain that the `From:` field of a message names.
#[derive(Debug, Clone, PartialEq, Eq)]
pub enum HeaderFrom {
    Single(String),
    /// There is none that can be read.
    Unusable,
    /// There is more than one.
    Ambiguous,
}

/// [`HeaderFrom`] with its text as a sequence.
pub enum HeaderFromModel {
    Single(Seq<char>),
    Unusable,
    Ambiguous,
}

impl View for HeaderFrom {
    type V = HeaderFromModel;

    open spec fn view(&self) -> HeaderFromModel {
        match *self {
            HeaderFrom::Single(d) => HeaderFromModel::Single(d@),
            HeaderFrom::Unusable => HeaderFromModel::Unusable,
            HeaderFrom::Ambiguous => HeaderFromModel::Ambiguous,
        }
    }
}

/// Evaluates DMARC.
pub trait DmarcEvaluator {
    /// Whether the `From:` field of a message may be read as given.
    open spec fn may_read_from(&self, data: Seq<u8>, from: HeaderFromModel) -> bool {
        true
    }

    /// Whether an evaluation may come out as given.
    open spec fn may_judge(
        &self,
        header_domain: Seq<char>,
        envelope_domain: Seq<char>,
        spf: Option<SpfResult>,
        dkim: dkim::VerdictModel,
        verdict: DmarcVerdict,
    ) -> bool {
        true
    }

    /// Reads the `From:` field of a message.
    fn header_from(&self, data: &[u8]) -> (r: HeaderFrom)
        ensures
            self.may_read_from(data@, r@),
    ;

    /// Evaluates the policy of the domain in the `From:` field.
    fn evaluate(
        &self,
        header_domain: &str,
        envelope_domain: &str,
        spf: Option<SpfResult>,
        dkim: &DkimVerdict,
    ) -> (r: DmarcVerdict)
        ensures
            self.may_judge(header_domain@, envelope_domain@, spf, dkim@, r),
    ;
}

/// Stands where no resolver has been set.
#[derive(Debug, Clone, Copy)]
pub struct Unset;

impl DkimKeyResolver for Unset {
    open spec fn may_publish(
        &self,
        domain: Seq<char>,
        selector: Seq<char>,
        key: Option<Seq<u8>>,
    ) -> bool {
        key is None
    }

    fn resolve_dkim_key(&self, domain: &str, selector: &str) -> (r: Option<Vec<u8>>) {
        None
    }
}

impl SpfEvaluator for Unset {
    open spec fn may_evaluate(
        &self,
        peer_ip: Seq<char>,
        mail_from: Seq<char>,
        helo: Option<Seq<char>>,
        outcome: SpfOutcome,
    ) -> bool {
        outcome.result == SpfResult::NoPolicy
    }

    fn evaluate(&self, peer_ip: &str, mail_from: &str, helo: Option<&str>) -> (r: SpfOutcome) {
        SpfOutcome::unevaluated()
    }
}

impl DmarcEvaluator for Unset {
    open spec fn may_read_from(&self, data: Seq<u8>, from: HeaderFromModel) -> bool {
        from == HeaderFromModel::Unusable
    }

    open spec fn may_judge(
        &self,
        header_domain: Seq<char>,
        envelope_domain: Seq<char>,
        spf: Option<SpfResult>,
        dkim: dkim::VerdictModel,
        verdict: DmarcVerdict,
    ) -> bool {
        verdict == DmarcVerdict::NoPolicy
    }

    fn header_from(&self, data: &[u8]) -> (r: HeaderFrom) {
        HeaderFrom::Unusable
    }

    fn evaluate(
        &self,
        header_domain: &str,
        envelope_domain: &str,
        spf: Option<SpfResult>,
        dkim: &DkimVerdict,
    ) -> (r: DmarcVerdict) {
        DmarcVerdict::NoPolicy
    }
}

/// How many octets a message may have unless it is said otherwise: 25 MiB.
pub const DEFAULT_MAX_MESSAGE_BYTES: usize = 26_214_400;

/// Why a message could not be wrapped.
#[derive(Debug, Clone, PartialEq, Eq)]
pub enum InboundError {
    NoRecipient(String),
    NoAttestationKey(String),
    BadAddress(String),
    SealFailed,
}

/// [`InboundError`] with its texts as sequences.
pub enum InboundErrorModel {
    NoRecipient(Seq<char>),
    NoAttestationKey(Seq<char>),
    BadAddress(Seq<char>),
    SealFailed,
}

impl View for InboundError {
    type V = InboundErrorModel;

    open spec fn view(&self) -> InboundErrorModel {
        match *self {
            InboundError::NoRecipient(a) => InboundErrorModel::NoRecipient(a@),
            InboundError::NoAttestationKey(d) => InboundErrorModel::NoAttestationKey(d@),
            InboundError::BadAddress(a) => InboundErrorModel::BadAddress(a@),
            InboundError::SealFailed => InboundErrorModel::SealFailed,
        }
    }
}

/// A message on its way into the mesh, with its attestation, the gateway's step and the path made of
/// it. The step is held as it is, without a signature of its own: the attestation is what the gateway
/// has signed. Who hands the step on in a signed form signs with
/// [`AttestationKey::sign_ds`](attestation::AttestationKey::sign_ds).
#[derive(Debug)]
pub struct InboundBridged {
    pub env: SealedMote,
    pub attestation: Attestation,
    pub hop: GatewayHop,
    pub provenance: ProvenanceRecord,
}

/// [`InboundBridged`] with its contents as sequences.
pub struct BridgedModel {
    pub env: mote::MoteModel,
    pub attestation: attestation::AttestationModel,
    pub hop: provenance::HopModel,
    pub provenance: provenance::RecordModel,
}

impl View for InboundBridged {
    type V = BridgedModel;

    open spec fn view(&self) -> BridgedModel {
        BridgedModel {
            env: self.env@,
            attestation: self.attestation@,
            hop: self.hop@,
            provenance: self.provenance@,
        }
    }
}

// ---- addresses and keys ------------------------------------------------------------------------

/// An address without white space and angle brackets around it.
pub open spec fn bare_address(addr: Seq<char>) -> Seq<char> {
    text::strip_back(
        text::strip_front(text::trim(addr), |c: char| c == '<'),
        |c: char| c == '>',
    )
}

/// The domain of an address: what follows its last `@`, unless that is nothing.
pub open spec fn domain_part(addr: Seq<char>) -> Option<Seq<char>> {
    match text::rsplit_once(bare_address(addr), '@') {
        Some((_, d)) => if d.len() > 0 {
            Some(d)
        } else {
            None
        },
        None => None,
    }
}

/// The domain of an address.
pub fn domain_of(addr: &str) -> (r: Option<String>)
    ensures
        model::opt_view(r) == domain_part(addr@),
{
    let c = text::chars_of(addr);
    let a = text::drop_char(text::skip_char(text::trimmed(c.as_slice()), '<'), '>');
    match text::cut_last(a, '@') {
        Some((_, d)) => if d.len() > 0 {
            Some(text::string_of(d))
        } else {
            None
        },
        None => None,
    }
}

/// The views of a sequence of attestation keys.
pub open spec fn key_views(keys: Seq<AttestationKey>) -> Seq<attestation::AttestationKeyModel> {
    Seq::new(keys.len(), |i: int| keys[i]@)
}

/// The first key for a domain, in any case.
pub open spec fn key_for(
    keys: Seq<attestation::AttestationKeyModel>,
    domain: Seq<char>,
) -> Option<attestation::AttestationKeyModel>
    decreases keys.len(),
{
    if keys.len() == 0 {
        None
    } else if text::lower(keys[0].domain) == text::lower(domain) {
        Some(keys[0])
    } else {
        key_for(keys.skip(1), domain)
    }
}

/// The keys that a gateway gets for its own domains: one for each, all with its own identity key.
pub open spec fn shared_keys(domains: Seq<(&str, &str)>, seed: Seq<u8>) -> Seq<
    attestation::AttestationKeyModel,
> {
    Seq::new(
        domains.len(),
        |i: int|
            attestation::AttestationKeyModel {
                domain: domains[i].0@,
                selector: domains[i].1@,
                seed,
            },
    )
}

// ---- decisions ---------------------------------------------------------------------------------

/// What a sender is told for its signature, if anything.
pub open spec fn dkim_refusal(policy: DkimPolicy, verdict: dkim::VerdictModel) -> Option<
    smtp::ReplyModel,
> {
    if policy == DkimPolicy::Enforce && verdict is Fail {
        Some(smtp::reply(550, "5.7.20 DKIM signature present but does not verify"@))
    } else {
        None
    }
}

/// What a sender is told for its SPF result, if anything.
pub open spec fn spf_refusal(policy: SpfPolicy, result: SpfResult) -> Option<smtp::ReplyModel> {
    if policy != SpfPolicy::Enforce {
        None
    } else if result == SpfResult::Fail {
        Some(
            smtp::reply(
                550,
                "5.7.23 SPF hard fail (RFC 7208): sender IP not authorized for this domain"@,
            ),
        )
    } else if result == SpfResult::TempError {
        Some(
            smtp::reply(
                451,
                "4.4.3 SPF temporary DNS error evaluating sender policy, please retry"@,
            ),
        )
    } else {
        None
    }
}

/// What a sender is told for its DMARC verdict, if anything.
pub open spec fn dmarc_refusal(policy: DmarcHandling, verdict: DmarcVerdict) -> Option<
    smtp::ReplyModel,
> {
    if policy == DmarcHandling::Enforce && verdict == (DmarcVerdict::Fail {
        disposition: DmarcDisposition::Reject,
    }) {
        Some(
            smtp::reply(
                550,
                "5.7.1 message failed DMARC (RFC 7489): policy=reject and SPF/DKIM not aligned"@,
            ),
        )
    } else {
        None
    }
}

/// What a sender is told where its message could not be wrapped.
pub open spec fn error_reply(e: InboundErrorModel) -> smtp::ReplyModel {
    match e {
        InboundErrorModel::NoRecipient(_) => smtp::reply(550, "5.1.1 no such user here"@),
        InboundErrorModel::BadAddress(_) => smtp::reply(550, "5.1.1 no such user here"@),
        InboundErrorModel::NoAttestationKey(_) => smtp::reply(
            451,
            "4.3.5 gateway not configured for this domain"@,
        ),
        InboundErrorModel::SealFailed => smtp::reply(
            451,
            "4.3.0 temporary failure wrapping message"@,
        ),
    }
}

/// What a sender is told for the outcome of the delivery.
pub open spec fn delivery_reply(outcome: DeliveryOutcome) -> smtp::ReplyModel {
    match outcome {
        DeliveryOutcome::Acked => smtp::reply(250, "2.6.0 message durably accepted"@),
        DeliveryOutcome::NoAck => smtp::reply(
            451,
            "4.4.1 recipient has not durably accepted yet, try again later"@,
        ),
    }
}

/// What comes of wrapping a message, given the recipient's keys and the sealed message, as far as
/// there are any: the first thing that is missing decides.
pub open spec fn wrapped(
    keys: Seq<attestation::AttestationKeyModel>,
    mail_from: Seq<char>,
    rcpt_to: Seq<char>,
    now: u64,
    recipient: Option<directory::RecipientModel>,
    sealed: Option<mote::MoteModel>,
) -> Result<(mote::MoteModel, attestation::AttestationModel), InboundErrorModel> {
    match domain_part(rcpt_to) {
        None => Err(InboundErrorModel::BadAddress(rcpt_to)),
        Some(domain) => match recipient {
            None => Err(InboundErrorModel::NoRecipient(rcpt_to)),
            Some(_) => match key_for(keys, domain) {
                None => Err(InboundErrorModel::NoAttestationKey(domain)),
                Some(key) => match sealed {
                    None => Err(InboundErrorModel::SealFailed),
                    Some(m) => Ok(
                        (m, attestation::attested(key, m.id, mail_from, rcpt_to, now)),
                    ),
                },
            },
        },
    }
}

/// Whether a recipient accepts an attestation for a message, under the key that the gateway has for
/// the recipient's domain.
pub open spec fn vouched(
    keys: Seq<attestation::AttestationKeyModel>,
    rcpt_to: Seq<char>,
    mote_id: Seq<u8>,
    att: attestation::AttestationModel,
) -> bool {
    match domain_part(rcpt_to) {
        Some(domain) => match key_for(keys, domain) {
            Some(key) => attestation::verdict(
                att,
                key.domain,
                Some(identity::ed25519_public(key.seed)),
                mote_id,
            ) is Ok,
            None => false,
        },
        None => false,
    }
}

/// The step for a message of the gateway that has a key.
pub open spec fn hop_for(
    key: attestation::AttestationKeyModel,
    mail_from: Seq<char>,
    data: Seq<u8>,
    now: u64,
) -> provenance::HopModel {
    provenance::HopModel {
        domain: key.domain,
        selector: key.selector,
        gateway_key: identity::ed25519_public(key.seed),
        msg_digest: identity::content_address(mote::hygienic(data)),
        mail_from,
        received_at: now,
        seq: 0,
    }
}

/// What comes of wrapping a message and stamping it with the gateway's step.
pub open spec fn bridged(
    keys: Seq<attestation::AttestationKeyModel>,
    mail_from: Seq<char>,
    rcpt_to: Seq<char>,
    data: Seq<u8>,
    now: u64,
    recipient: Option<directory::RecipientModel>,
    sealed: Option<mote::MoteModel>,
) -> Result<BridgedModel, InboundErrorModel> {
    match wrapped(keys, mail_from, rcpt_to, now, recipient, sealed) {
        Ok((m, att)) => {
            let key = key_for(keys, domain_part(rcpt_to)->0)->0;
            let hop = hop_for(key, mail_from, data, now);
            Ok(
                BridgedModel {
                    env: m,
                    attestation: att,
                    hop,
                    provenance: provenance::path_through(hop),
                },
            )
        },
        Err(e) => Err(e),
    }
}

/// What a recipient's address is answered, if it is refused.
pub open spec fn rcpt_refusal(
    keys: Seq<attestation::AttestationKeyModel>,
    rcpt: Seq<char>,
    recipient: Option<directory::RecipientModel>,
) -> Option<smtp::ReplyModel> {
    match domain_part(rcpt) {
        None => Some(smtp::reply(501, "5.1.3 bad recipient address"@)),
        Some(domain) => if recipient is None {
            Some(smtp::reply(550, "5.1.1 no such user here"@))
        } else if key_for(keys, domain) is None {
            Some(smtp::reply(451, "4.3.5 gateway not configured for this domain"@))
        } else {
            None
        },
    }
}

/// What the resolvers, the directory, the sealing and the mesh came back with for one message.
pub struct AnswersModel {
    pub dkim: dkim::VerdictModel,
    pub dmarc: DmarcVerdict,
    pub recipient: Option<directory::RecipientModel>,
    pub sealed: Option<mote::MoteModel>,
    pub outcome: DeliveryOutcome,
}

/// What the sender of a message is told in the end.
pub open spec fn acceptance(
    dkim_policy: DkimPolicy,
    dmarc_policy: DmarcHandling,
    keys: Seq<attestation::AttestationKeyModel>,
    mail_from: Seq<char>,
    rcpt_to: Seq<char>,
    now: u64,
    a: AnswersModel,
) -> smtp::ReplyModel {
    match dkim_refusal(dkim_policy, a.dkim) {
        Some(r) => r,
        None => match dmarc_refusal(dmarc_policy, a.dmarc) {
            Some(r) => r,
            None => match wrapped(keys, mail_from, rcpt_to, now, a.recipient, a.sealed) {
                Err(e) => error_reply(e),
                Ok(_) => delivery_reply(a.outcome),
            },
        },
    }
}

/// The reply where the message could not be wrapped.
pub fn reply_to_error(e: &InboundError) -> (r: SmtpReply)
    ensures
        r@ == error_reply(e@),
{
    match e {
        InboundError::NoRecipient(_) => SmtpReply::new(550, "5.1.1 no such user here"),
        InboundError::BadAddress(_) => SmtpReply::new(550, "5.1.1 no such user here"),
        InboundError::NoAttestationKey(_) => SmtpReply::new(
            451,
            "4.3.5 gateway not configured for this domain",
        ),
        InboundError::SealFailed => SmtpReply::new(451, "4.3.0 temporary failure wrapping message"),
    }
}

/// The reply for the outcome of the delivery.
pub fn reply_to_delivery(outcome: DeliveryOutcome) -> (r: SmtpReply)
    ensures
        r@ == delivery_reply(outcome),
{
    match outcome {
        DeliveryOutcome::Acked => SmtpReply::new(250, "2.6.0 message durably accepted"),
        DeliveryOutcome::NoAck => SmtpReply::new(
            451,
            "4.4.1 recipient has not durably accepted yet, try again later",
        ),
    }
}

// ---- the gateway -------------------------------------------------------------------------------

/// The way in for one or more domains. It keeps no message.
pub struct InboundGateway<
    D: KeyDirectory,
    M: MeshDelivery,
    A: AntiAbuse,
    K: DkimKeyResolver,
    S: SpfEvaluator,
    R: DmarcEvaluator,
> {
    /// The gateway's own identity: sealed messages are from it.
    pub ik: Arc<IdentityKey>,
    pub attest_keys: Vec<AttestationKey>,
    pub directory: D,
    pub delivery: M,
    pub abuse: A,
    pub dkim_resolver: Option<K>,
    pub dkim_policy: DkimPolicy,
    pub spf_resolver: Option<S>,
    pub spf_policy: SpfPolicy,
    pub dmarc_resolver: Option<R>,
    pub dmarc_policy: DmarcHandling,
    pub max_message_bytes: usize,
}

impl<D: KeyDirectory, M: MeshDelivery, A: AntiAbuse> InboundGateway<D, M, A, Unset, Unset, Unset> {
    /// A gateway with the given keys, without resolvers.
    pub fn new(
        ik: IdentityKey,
        attest_keys: Vec<AttestationKey>,
        directory: D,
        delivery: M,
        abuse: A,
    ) -> (r: Self)
        ensures
            r.ik@ == ik@,
            r.attest_keys == attest_keys,
            r.directory == directory,
            r.delivery == delivery,
            r.abuse == abuse,
            r.unchecked(),
            r.max_message_bytes == DEFAULT_MAX_MESSAGE_BYTES,
    {
        InboundGateway {
            ik: Arc::new(ik),
            attest_keys,
            directory,
            delivery,
            abuse,
            dkim_resolver: None,
            dkim_policy: DkimPolicy::Annotate,
            spf_resolver: None,
            spf_policy: SpfPolicy::Annotate,
            dmarc_resolver: None,
            dmarc_policy: DmarcHandling::Annotate,
            max_message_bytes: DEFAULT_MAX_MESSAGE_BYTES,
        }
    }

    /// A gateway that attests for each of its domains with its own identity key, so that the key
    /// that a message is from and the key that vouches for it are the same.
    pub fn for_own_domains(
        ik: IdentityKey,
        domains: &[(&str, &str)],
        directory: D,
        delivery: M,
        abuse: A,
    ) -> (r: Self)
        ensures
            r.ik@ == ik@,
            key_views(r.attest_keys@) == shared_keys(domains@, ik@),
            r.directory == directory,
            r.delivery == delivery,
            r.abuse == abuse,
            r.unchecked(),
            r.max_message_bytes == DEFAULT_MAX_MESSAGE_BYTES,
    {
        let n: usize = domains.len();
        let ghost seed = ik@;
        let shared = Arc::new(ik);
        let mut keys: Vec<AttestationKey> = Vec::new();
        let mut i: usize = 0;
        while i < n
            invariant
                n == domains@.len(),
                i <= n,
                keys@.len() == i,
                shared@ == seed,
                forall|j: int|
                    0 <= j < i ==> (#[trigger] keys@[j])@ == shared_keys(domains@, seed)[j],
            decreases n - i,
        {
            let (domain, selector) = domains[i];
            keys.push(AttestationKey::sharing(domain, selector, shared.clone()));
            i += 1;
        }
        assert(key_views(keys@) =~= shared_keys(domains@, seed));
        InboundGateway {
            ik: shared,
            attest_keys: keys,
            directory,
            delivery,
            abuse,
            dkim_resolver: None,
            dkim_policy: DkimPolicy::Annotate,
            spf_resolver: None,
            spf_policy: SpfPolicy::Annotate,
            dmarc_resolver: None,
            dmarc_policy: DmarcHandling::Annotate,
            max_message_bytes: DEFAULT_MAX_MESSAGE_BYTES,
        }
    }
}

impl<
    D: KeyDirectory,
    M: MeshDelivery,
    A: AntiAbuse,
    K: DkimKeyResolver,
    S: SpfEvaluator,
    R: DmarcEvaluator,
> InboundGateway<D, M, A, K, S, R> {
    /// Whether nothing is resolved and nothing is refused.
    pub open spec fn unchecked(&self) -> bool {
        &&& self.dkim_resolver is None
        &&& self.dkim_policy == DkimPolicy::Annotate
        &&& self.spf_resolver is None
        &&& self.spf_policy == SpfPolicy::Annotate
        &&& self.dmarc_resolver is None
        &&& self.dmarc_policy == DmarcHandling::Annotate
    }

    /// The gateway with another bound on the size of a message.
    pub fn with_max_message_bytes(self, max_bytes: usize) -> (r: Self)
        ensures
            r == (InboundGateway { max_message_bytes: max_bytes, ..self }),
    {
        let mut gw = self;
        gw.max_message_bytes = max_bytes;
        gw
    }

    /// The gateway that looks up DKIM keys and applies a policy.
    pub fn with_dkim<K2: DkimKeyResolver>(self, resolver: K2, policy: DkimPolicy) -> (r:
        InboundGateway<D, M, A, K2, S, R>)
        ensures
            r.ik == self.ik,
            r.attest_keys == self.attest_keys,
            r.directory == self.directory,
            r.delivery == self.delivery,
            r.abuse == self.abuse,
            r.dkim_resolver == Some(resolver),
            r.dkim_policy == policy,
            r.spf_resolver == self.spf_resolver,
            r.spf_policy == self.spf_policy,
            r.dmarc_resolver == self.dmarc_resolver,
            r.dmarc_policy == self.dmarc_policy,
            r.max_message_bytes == self.max_message_bytes,
    {
        InboundGateway {
            ik: self.ik,
            attest_keys: self.attest_keys,
            directory: self.directory,
            delivery: self.delivery,
            abuse: self.abuse,
            dkim_resolver: Some(resolver),
            dkim_policy: policy,
            spf_resolver: self.spf_resolver,
            spf_policy: self.spf_policy,
            dmarc_resolver: self.dmarc_resolver,
            dmarc_policy: self.dmarc_policy,
            max_message_bytes: self.max_message_bytes,
        }
    }

    /// The gateway that evaluates SPF and applies a policy.
    pub fn with_spf<S2: SpfEvaluator>(self, resolver: S2, policy: SpfPolicy) -> (r: InboundGateway<
        D,
        M,
        A,
        K,
        S2,
        R,
    >)
        ensures
            r.ik == self.ik,
            r.attest_keys == self.attest_keys,
            r.directory == self.directory,
            r.delivery == self.delivery,
            r.abuse == self.abuse,
            r.dkim_resolver == self.dkim_resolver,
            r.dkim_policy == self.dkim_policy,
            r.spf_resolver == Some(resolver),
            r.spf_policy == policy,
            r.dmarc_resolver == self.dmarc_resolver,
            r.dmarc_policy == self.dmarc_policy,
            r.max_message_bytes == self.max_message_bytes,
    {
        InboundGateway {
            ik: self.ik,
            attest_keys: self.attest_keys,
            directory: self.directory,
            delivery: self.delivery,
            abuse: self.abuse,
            dkim_resolver: self.dkim_resolver,
            dkim_policy: self.dkim_policy,
            spf_resolver: Some(resolver),
            spf_policy: policy,
            dmarc_resolver: self.dmarc_resolver,
            dmarc_policy: self.dmarc_policy,
            max_message_bytes: self.max_message_bytes,
        }
    }

    /// The gateway that evaluates DMARC and applies a policy.
    pub fn with_dmarc<R2: DmarcEvaluator>(self, resolver: R2, policy: DmarcHandling) -> (r:
        InboundGateway<D, M, A, K, S, R2>)
        ensures
            r.ik == self.ik,
            r.attest_keys == self.attest_keys,
            r.directory == self.directory,
            r.delivery == self.delivery,
            r.abuse == self.abuse,
            r.dkim_resolver == self.dkim_resolver,
            r.dkim_policy == self.dkim_policy,
            r.spf_resolver == self.spf_resolver,
            r.spf_policy == self.spf_policy,
            r.dmarc_resolver == Some(resolver),
            r.dmarc_policy == policy,
            r.max_message_bytes == self.max_message_bytes,
    {
        InboundGateway {
            ik: self.ik,
            attest_keys: self.attest_keys,
            directory: self.directory,
            delivery: self.delivery,
            abuse: self.abuse,
            dkim_resolver: self.dkim_resolver,
            dkim_policy: self.dkim_policy,
            spf_resolver: self.spf_resolver,
            spf_policy: self.spf_policy,
            dmarc_resolver: Some(resolver),
            dmarc_policy: policy,
            max_message_bytes: self.max_message_bytes,
        }
    }

    /// The keys that the gateway attests with.
    pub open spec fn keys(&self) -> Seq<attestation::AttestationKeyModel> {
        key_views(self.attest_keys@)
    }

    fn attest_key_for(&self, domain: &str) -> (r: Option<&AttestationKey>)
        ensures
            match r {
                Some(k) => key_for(self.keys(), domain@) == Some(k@),
                None => key_for(self.keys(), domain@) is None,
            },
    {
        let ghost all = self.keys();
        let mut i: usize = 0;
        assert(all.skip(0) =~= all);
        while i < self.attest_keys.len()
            invariant
                i <= self.attest_keys@.len(),
                all == self.keys(),
                key_for(all, domain@) == key_for(all.skip(i as int), domain@),
            decreases self.attest_keys@.len() - i,
        {
            let k = &self.attest_keys[i];
            assert(all.skip(i as int)[0] == k@);
            assert(all.skip(i as int).skip(1) =~= all.skip(i + 1));
            if text::same_str_ignoring_case(k.domain(), domain) {
                return Some(k);
            }
            i += 1;
        }
        None
    }

    /// Whether the DKIM verdict on a message may be the given one.
    pub open spec fn may_verify(&self, message: Seq<u8>, v: dkim::VerdictModel) -> bool {
        match self.dkim_resolver {
            None => v == dkim::VerdictModel::NoSignature,
            Some(resolver) => match dkim::named_key(message) {
                None => v == dkim::nameless_verdict(message),
                Some((d, s)) => exists|key: Option<Seq<u8>>| #[trigger]
                    resolver.may_publish(d, s, key) && v == dkim::verdict(message, key),
            },
        }
    }

    /// Verifies the signature of a message. Without a resolver it counts as not signed.
    pub fn verify_inbound_dkim(&self, message: &[u8]) -> (r: DkimVerdict)
        ensures
            self.may_verify(message@, r@),
    {
        match &self.dkim_resolver {
            Some(resolver) => dkim::verify_with_resolver(message, resolver),
            None => DkimVerdict::NoSignature,
        }
    }

    /// Applies the DKIM policy to a verdict.
    pub fn dkim_gate(&self, verdict: &DkimVerdict) -> (r: Option<SmtpReply>)
        ensures
            model::opt_view(r) == dkim_refusal(self.dkim_policy, verdict@),
    {
        if self.dkim_policy != DkimPolicy::Enforce {
            return None;
        }
        match verdict {
            DkimVerdict::Fail(_) => Some(
                SmtpReply::new(550, "5.7.20 DKIM signature present but does not verify"),
            ),
            _ => None,
        }
    }

    /// Whether the SPF outcome for a sender may be the given one: without a resolver, and for a peer
    /// whose address is none, nothing is evaluated.
    pub open spec fn may_evaluate_spf(
        &self,
        peer_ip: Seq<char>,
        mail_from: Seq<char>,
        helo: Option<Seq<char>>,
        o: SpfOutcome,
    ) -> bool {
        match self.spf_resolver {
            None => o.result == SpfResult::NoPolicy,
            Some(resolver) => if ip::is_ip_address(text::trim(peer_ip)) {
                resolver.may_evaluate(text::trim(peer_ip), mail_from, helo, o)
            } else {
                o.result == SpfResult::NoPolicy
            },
        }
    }

    /// Evaluates SPF for a sender. Without a resolver, and for an address that is none, nothing is
    /// evaluated.
    pub fn evaluate_spf(&self, peer_ip: &str, mail_from: &str, helo: Option<&str>) -> (r: SpfOutcome)
        ensures
            self.may_evaluate_spf(
                peer_ip@,
                mail_from@,
                match helo {
                    Some(h) => Some(h@),
                    None => None,
                },
                r,
            ),
            self.spf_resolver is None ==> r.result == SpfResult::NoPolicy,
            !ip::is_ip_address(text::trim(peer_ip@)) ==> r.result == SpfResult::NoPolicy,
    {
        match &self.spf_resolver {
            None => SpfOutcome::unevaluated(),
            Some(resolver) => {
                let ip = text::trim_str(peer_ip);
                if ip::is_address(ip.as_str()) {
                    resolver.evaluate(ip.as_str(), mail_from, helo)
                } else {
                    SpfOutcome::unevaluated()
                }
            },
        }
    }

    /// Applies the SPF policy to an outcome.
    pub fn spf_gate(&self, outcome: &SpfOutcome) -> (r: Option<SmtpReply>)
        ensures
            model::opt_view(r) == spf_refusal(self.spf_policy, outcome.result),
    {
        if self.spf_policy != SpfPolicy::Enforce {
            return None;
        }
        match outcome.result {
            SpfResult::Fail => Some(
                SmtpReply::new(
                    550,
                    "5.7.23 SPF hard fail (RFC 7208): sender IP not authorized for this domain",
                ),
            ),
            SpfResult::TempError => Some(
                SmtpReply::new(
                    451,
                    "4.4.3 SPF temporary DNS error evaluating sender policy, please retry",
                ),
            ),
            _ => None,
        }
    }

    /// Whether the DMARC verdict on a message with the given DKIM verdict may be the given one.
    pub open spec fn may_judge(
        &self,
        data: Seq<u8>,
        spf: Option<SpfResult>,
        dkim: dkim::VerdictModel,
        mail_from: Seq<char>,
        v: DmarcVerdict,
    ) -> bool {
        match self.dmarc_resolver {
            None => v == DmarcVerdict::NoPolicy,
            Some(resolver) => exists|h: HeaderFromModel| #[trigger]
                resolver.may_read_from(data, h) && (match h {
                    HeaderFromModel::Unusable => v == DmarcVerdict::PermError,
                    HeaderFromModel::Ambiguous => v == (DmarcVerdict::Fail {
                        disposition: DmarcDisposition::Reject,
                    }),
                    HeaderFromModel::Single(d) => resolver.may_judge(
                        d,
                        match domain_part(mail_from) {
                            Some(e) => e,
                            None => Seq::empty(),
                        },
                        spf,
                        dkim,
                        v,
                    ),
                }),
        }
    }

    /// Evaluates DMARC for a message with the given DKIM verdict. A message that names more than
    /// one origin fails as if its domain asked for rejection.
    pub fn dmarc_verdict_with_dkim(
        &self,
        data: &[u8],
        spf: Option<&SpfOutcome>,
        dkim_verdict: &DkimVerdict,
        mail_from: &str,
    ) -> (r: DmarcVerdict)
        ensures
            self.may_judge(data@, spf_result(spf), dkim_verdict@, mail_from@, r),
    {
        let result: Option<SpfResult> = match spf {
            Some(o) => Some(o.result),
            None => None,
        };
        match &self.dmarc_resolver {
            None => DmarcVerdict::NoPolicy,
            Some(resolver) => match resolver.header_from(data) {
                HeaderFrom::Unusable => {
                    assert(resolver.may_read_from(data@, HeaderFromModel::Unusable));
                    DmarcVerdict::PermError
                },
                HeaderFrom::Ambiguous => {
                    assert(resolver.may_read_from(data@, HeaderFromModel::Ambiguous));
                    DmarcVerdict::Fail { disposition: DmarcDisposition::Reject }
                },
                HeaderFrom::Single(d) => {
                    assert(resolver.may_read_from(data@, HeaderFromModel::Single(d@)));
                    let envelope = match domain_of(mail_from) {
                        Some(e) => e,
                        None => {
                            let e = String::new();
                            assert(e@ =~= Seq::<char>::empty());
                            e
                        },
                    };
                    resolver.evaluate(d.as_str(), envelope.as_str(), result, dkim_verdict)
                },
            },
        }
    }

    /// Evaluates DKIM and then DMARC for a message.
    pub fn evaluate_dmarc(&self, data: &[u8], spf: Option<&SpfOutcome>, mail_from: &str) -> (r:
        DmarcVerdict)
        ensures
            exists|v: dkim::VerdictModel| #[trigger]
                self.may_verify(data@, v) && self.may_judge(
                    data@,
                    spf_result(spf),
                    v,
                    mail_from@,
                    r,
                ),
    {
        let verdict = self.verify_inbound_dkim(data);
        self.dmarc_verdict_with_dkim(data, spf, &verdict, mail_from)
    }

    /// Applies the DMARC policy to a verdict.
    pub fn dmarc_gate(&self, verdict: DmarcVerdict) -> (r: Option<SmtpReply>)
        ensures
            model::opt_view(r) == dmarc_refusal(self.dmarc_policy, verdict),
    {
        if self.dmarc_policy != DmarcHandling::Enforce {
            return None;
        }
        match verdict {
            DmarcVerdict::Fail { disposition: DmarcDisposition::Reject } => Some(
                SmtpReply::new(
                    550,
                    "5.7.1 message failed DMARC (RFC 7489): policy=reject and SPF/DKIM not aligned",
                ),
            ),
            _ => None,
        }
    }

    /// What is sealed for a recipient, signed besides with the key of the given seed.
    pub open spec fn sealing(
        &self,
        recipient: directory::RecipientModel,
        data: Seq<u8>,
        now: u64,
        seed: Seq<u8>,
    ) -> mote::SealingModel {
        mote::SealingModel {
            sender: self.ik@,
            ephemeral: seed,
            recipient: recipient.ik,
            seal_pub: recipient.seal_pub,
            message: mote::hygienic(data),
            ts: now,
        }
    }

    /// Whether the directory and the sealing may come back as given for a message, with the given
    /// seed for the key that signs it alone, if there is one: where the gateway can attest for the
    /// recipient's domain, sealing fails only for want of a seed or of a key to seal to.
    pub open spec fn may_wrap_with(
        &self,
        rcpt_to: Seq<char>,
        data: Seq<u8>,
        now: u64,
        seed: Option<Seq<u8>>,
        recipient: Option<directory::RecipientModel>,
        sealed: Option<mote::MoteModel>,
    ) -> bool {
        &&& domain_part(rcpt_to) is Some ==> self.directory.may_resolve(rcpt_to, recipient)
        &&& recipient is Some && domain_part(rcpt_to) is Some && key_for(
            self.keys(),
            domain_part(rcpt_to)->0,
        ) is Some ==> match seed {
            Some(e) => mote::may_seal_with(self.sealing(recipient->0, data, now, e), sealed),
            None => sealed is None,
        }
    }

    /// Whether the directory and the sealing may come back as given for a message.
    pub open spec fn may_wrap(
        &self,
        rcpt_to: Seq<char>,
        data: Seq<u8>,
        now: u64,
        recipient: Option<directory::RecipientModel>,
        sealed: Option<mote::MoteModel>,
    ) -> bool {
        exists|seed: Option<Seq<u8>>| #[trigger]
            self.may_wrap_with(rcpt_to, data, now, seed, recipient, sealed)
    }

    /// Attests a sealed message, given the recipient's keys and the sealed message, as far as there
    /// are any.
    pub fn attest_sealed(
        &self,
        mail_from: &str,
        rcpt_to: &str,
        now: u64,
        recipient: Option<&RecipientKey>,
        sealed: Option<SealedMote>,
    ) -> (r: Result<(SealedMote, Attestation), InboundError>)
        ensures
            pair_view(r) == wrapped(
                self.keys(),
                mail_from@,
                rcpt_to@,
                now,
                match recipient {
                    Some(k) => Some(k@),
                    None => None,
                },
                model::opt_view(sealed),
            ),
            r matches Ok(p) ==> vouched(self.keys(), rcpt_to@, p.0.id@, p.1@),
    {
        let domain = match domain_of(rcpt_to) {
            Some(d) => d,
            None => {
                return Err(InboundError::BadAddress(text::string_from(rcpt_to)));
            },
        };
        if recipient.is_none() {
            return Err(InboundError::NoRecipient(text::string_from(rcpt_to)));
        }
        let key = match self.attest_key_for(domain.as_str()) {
            Some(k) => k,
            None => {
                return Err(InboundError::NoAttestationKey(domain));
            },
        };
        match sealed {
            None => Err(InboundError::SealFailed),
            Some(m) => {
                let att = key.attest(&m.id, mail_from, rcpt_to, now);
                Ok((m, att))
            },
        }
    }

    /// Seals a message to its recipient and attests it, with the given seed for the key that signs
    /// this message alone, if there is one. What verdicts the message brings with it are taken out
    /// before.
    pub fn wrap_with(
        &self,
        mail_from: &str,
        rcpt_to: &str,
        data: &[u8],
        now: u64,
        seed: Option<&[u8; 32]>,
    ) -> (r: Result<(SealedMote, Attestation), InboundError>)
        ensures
            exists|k: Option<directory::RecipientModel>, m: Option<mote::MoteModel>| #[trigger]
                self.may_wrap_with(rcpt_to@, data@, now, seed_view(seed), k, m) && pair_view(r)
                    == wrapped(self.keys(), mail_from@, rcpt_to@, now, k, m),
            r matches Ok(p) ==> vouched(self.keys(), rcpt_to@, p.0.id@, p.1@),
    {
        let ghost e = seed_view(seed);
        let domain = match domain_of(rcpt_to) {
            Some(d) => d,
            None => {
                assert(self.may_wrap_with(rcpt_to@, data@, now, e, None, None));
                return Err(InboundError::BadAddress(text::string_from(rcpt_to)));
            },
        };
        let recipient = match self.directory.resolve(rcpt_to) {
            Some(k) => k,
            None => {
                assert(self.may_wrap_with(rcpt_to@, data@, now, e, None, None));
                return Err(InboundError::NoRecipient(text::string_from(rcpt_to)));
            },
        };
        if self.attest_key_for(domain.as_str()).is_none() {
            assert(self.may_wrap_with(rcpt_to@, data@, now, e, Some(recipient@), None));
            return Err(InboundError::NoAttestationKey(domain));
        }
        let sealed = match seed {
            Some(x) => {
                let clean = mote::strip_trust_boundary_headers(data);
                mote::seal_mail(
                    &self.ik,
                    x,
                    recipient.ik.as_slice(),
                    recipient.seal_pub.as_slice(),
                    clean.as_slice(),
                    now,
                )
            },
            None => None,
        };
        assert(self.may_wrap_with(
            rcpt_to@,
            data@,
            now,
            e,
            Some(recipient@),
            model::opt_view(sealed),
        ));
        self.attest_sealed(mail_from, rcpt_to, now, Some(&recipient), sealed)
    }

    /// Seals a message to its recipient, signed with a fresh key besides, and attests it. What
    /// verdicts the message brings with it are taken out before.
    pub fn wrap_and_attest(&self, mail_from: &str, rcpt_to: &str, data: &[u8], now: u64) -> (r:
        Result<(SealedMote, Attestation), InboundError>)
        ensures
            exists|k: Option<directory::RecipientModel>, m: Option<mote::MoteModel>| #[trigger]
                self.may_wrap(rcpt_to@, data@, now, k, m) && pair_view(r) == wrapped(
                    self.keys(),
                    mail_from@,
                    rcpt_to@,
                    now,
                    k,
                    m,
                ),
            r matches Ok(p) ==> vouched(self.keys(), rcpt_to@, p.0.id@, p.1@),
    {
        let fresh = identity::random_seed();
        let seed: Option<&[u8; 32]> = match &fresh {
            Ok(e) => Some(e),
            Err(_) => None,
        };
        let r = self.wrap_with(mail_from, rcpt_to, data, now, seed);
        proof {
            let (k, m) = choose|
                k: Option<directory::RecipientModel>,
                m: Option<mote::MoteModel>,
            | #[trigger]
                self.may_wrap_with(rcpt_to@, data@, now, seed_view(seed), k, m) && pair_view(r)
                    == wrapped(self.keys(), mail_from@, rcpt_to@, now, k, m);
            assert(self.may_wrap(rcpt_to@, data@, now, k, m));
        }
        r
    }

    /// Seals a message to its recipient, attests it and stamps it with the gateway's step. That the
    /// gateway can attest for the domain is settled before the recipient is looked up.
    pub fn wrap_attest_and_stamp(&self, mail_from: &str, rcpt_to: &str, data: &[u8], now: u64) -> (r:
        Result<InboundBridged, InboundError>)
        ensures
            match domain_part(rcpt_to@) {
                None => r matches Err(e) && e@ == InboundErrorModel::BadAddress(rcpt_to@),
                Some(d) => if key_for(self.keys(), d) is None {
                    r matches Err(e) && e@ == InboundErrorModel::NoAttestationKey(d)
                } else {
                    exists|k: Option<directory::RecipientModel>, m: Option<mote::MoteModel>|
                        #[trigger] self.may_wrap(rcpt_to@, data@, now, k, m) && model::res_view(r)
                            == bridged(self.keys(), mail_from@, rcpt_to@, data@, now, k, m)
                },
            },
            r matches Ok(b) ==> vouched(self.keys(), rcpt_to@, b.env.id@, b.attestation@),
    {
        let domain = match domain_of(rcpt_to) {
            Some(d) => d,
            None => {
                return Err(InboundError::BadAddress(text::string_from(rcpt_to)));
            },
        };
        let key = match self.attest_key_for(domain.as_str()) {
            Some(k) => k,
            None => {
                return Err(InboundError::NoAttestationKey(domain));
            },
        };
        let (env, attestation) = match self.wrap_and_attest(mail_from, rcpt_to, data, now) {
            Ok(w) => w,
            Err(e) => {
                return Err(e);
            },
        };
        let clean = mote::strip_trust_boundary_headers(data);
        let hop = GatewayHop {
            domain: text::string_from(key.domain()),
            selector: text::string_from(key.selector()),
            gateway_key: key.public(),
            msg_digest: provenance::msg_digest(clean.as_slice()),
            mail_from: text::string_from(mail_from),
            received_at: now,
            seq: 0,
        };
        let provenance = provenance::record_of(hop.clone());
        Ok(InboundBridged { env, attestation, hop, provenance })
    }

    /// Whether everything outside may answer as given while a message is accepted or refused, and
    /// the way into the mesh may be left as given: a message is delivered once where nothing
    /// refuses it, and else not at all. What is not asked for may be anything.
    pub open spec fn may_answer(
        &self,
        mail_from: Seq<char>,
        rcpt_to: Seq<char>,
        data: Seq<u8>,
        now: u64,
        spf: Option<SpfResult>,
        a: AnswersModel,
        after: M,
    ) -> bool {
        &&& self.may_verify(data, a.dkim)
        &&& if dkim_refusal(self.dkim_policy, a.dkim) is Some {
            after == self.delivery
        } else {
            &&& self.dmarc_policy == DmarcHandling::Enforce ==> self.may_judge(
                data,
                spf,
                a.dkim,
                mail_from,
                a.dmarc,
            )
            &&& if dmarc_refusal(self.dmarc_policy, a.dmarc) is Some {
                after == self.delivery
            } else {
                &&& self.may_wrap(rcpt_to, data, now, a.recipient, a.sealed)
                &&& match wrapped(
                    self.keys(),
                    mail_from,
                    rcpt_to,
                    now,
                    a.recipient,
                    a.sealed,
                ) {
                    Ok((m, att)) => vouched(self.keys(), rcpt_to, m.id, att) && M::delivers(
                        self.delivery,
                        m,
                        att,
                        a.outcome,
                        after,
                    ),
                    Err(_) => after == self.delivery,
                }
            }
        }
    }

    /// Whether the sender of a message may be told the given reply, and the way into the mesh be
    /// left as given.
    pub open spec fn may_reply(
        &self,
        mail_from: Seq<char>,
        rcpt_to: Seq<char>,
        data: Seq<u8>,
        now: u64,
        spf: Option<SpfResult>,
        r: smtp::ReplyModel,
        after: M,
    ) -> bool {
        exists|a: AnswersModel| #[trigger]
            self.may_answer(mail_from, rcpt_to, data, now, spf, a, after) && r == acceptance(
                self.dkim_policy,
                self.dmarc_policy,
                self.keys(),
                mail_from,
                rcpt_to,
                now,
                a,
            )
    }

    /// Checks, wraps and delivers a message and says what its sender is told, without an SPF
    /// outcome.
    pub fn accept_message(&mut self, mail_from: &str, rcpt_to: &str, data: &[u8], now: u64) -> (r:
        SmtpReply)
        ensures
            old(self).may_reply(
                mail_from@,
                rcpt_to@,
                data@,
                now,
                None,
                r@,
                final(self).delivery,
            ),
            *final(self) == (InboundGateway { delivery: final(self).delivery, ..*old(self) }),
    {
        self.accept_message_with_spf(mail_from, rcpt_to, data, now, None)
    }

    /// Checks, wraps and delivers a message and says what its sender is told.
    pub fn accept_message_with_spf(
        &mut self,
        mail_from: &str,
        rcpt_to: &str,
        data: &[u8],
        now: u64,
        spf: Option<&SpfOutcome>,
    ) -> (r: SmtpReply)
        ensures
            old(self).may_reply(
                mail_from@,
                rcpt_to@,
                data@,
                now,
                spf_result(spf),
                r@,
                final(self).delivery,
            ),
            *final(self) == (InboundGateway { delivery: final(self).delivery, ..*old(self) }),
    {
        let ghost g = *self;
        let verdict = self.verify_inbound_dkim(data);
        let ghost mut a = AnswersModel {
            dkim: verdict@,
            dmarc: DmarcVerdict::NoPolicy,
            recipient: None,
            sealed: None,
            outcome: DeliveryOutcome::NoAck,
        };
        if let Some(reply) = self.dkim_gate(&verdict) {
            assert(g.may_answer(mail_from@, rcpt_to@, data@, now, spf_result(spf), a, self.delivery));
            return reply;
        }
        if self.dmarc_policy == DmarcHandling::Enforce {
            let dmarc = self.dmarc_verdict_with_dkim(data, spf, &verdict, mail_from);
            proof {
                a = AnswersModel { dmarc, ..a };
            }
            if let Some(reply) = self.dmarc_gate(dmarc) {
                assert(g.may_answer(mail_from@, rcpt_to@, data@, now, spf_result(spf), a, self.delivery));
                return reply;
            }
        }
        let w = self.wrap_and_attest(mail_from, rcpt_to, data, now);
        proof {
            let (k, m) = choose|
                k: Option<directory::RecipientModel>,
                m: Option<mote::MoteModel>,
            | #[trigger]
                g.may_wrap(rcpt_to@, data@, now, k, m) && pair_view(w) == wrapped(
                    g.keys(),
                    mail_from@,
                    rcpt_to@,
                    now,
                    k,
                    m,
                );
            a = AnswersModel { recipient: k, sealed: m, ..a };
        }
        match w {
            Err(e) => {
                assert(g.may_answer(mail_from@, rcpt_to@, data@, now, spf_result(spf), a, self.delivery));
                reply_to_error(&e)
            },
            Ok((m, att)) => {
                let outcome = self.delivery.deliver(&m, &att);
                proof {
                    a = AnswersModel { outcome, ..a };
                    assert(g.may_answer(mail_from@, rcpt_to@, data@, now, spf_result(spf), a, self.delivery));
                }
                reply_to_delivery(outcome)
            },
        }
    }

    /// Says what a recipient's address is answered, given what the directory holds for it.
    pub fn rcpt_gate(&self, rcpt: &str, recipient: Option<&RecipientKey>) -> (r: Option<SmtpReply>)
        ensures
            model::opt_view(r) == rcpt_refusal(
                self.keys(),
                rcpt@,
                match recipient {
                    Some(k) => Some(k@),
                    None => None,
                },
            ),
    {
        let domain = match domain_of(rcpt) {
            Some(d) => d,
            None => {
                return Some(SmtpReply::new(501, "5.1.3 bad recipient address"));
            },
        };
        if recipient.is_none() {
            return Some(SmtpReply::new(550, "5.1.1 no such user here"));
        }
        if self.attest_key_for(domain.as_str()).is_none() {
            return Some(SmtpReply::new(451, "4.3.5 gateway not configured for this domain"));
        }
        None
    }

    /// Says what a recipient's address is answered. The directory is asked only where the address
    /// has a domain.
    pub fn rcpt_acceptable(&self, rcpt: &str) -> (r: Option<SmtpReply>)
        ensures
            exists|k: Option<directory::RecipientModel>|
                {
                    &&& domain_part(rcpt@) is Some ==> self.directory.may_resolve(rcpt@, k)
                    &&& model::opt_view(r) == #[trigger] rcpt_refusal(self.keys(), rcpt@, k)
                },
    {
        if domain_of(rcpt).is_none() {
            let r = self.rcpt_gate(rcpt, None);
            assert(model::opt_view(r) == rcpt_refusal(self.keys(), rcpt@, None));
            return r;
        }
        let k = self.directory.resolve(rcpt);
        let ghost kv = model::opt_view(k);
        let r = match k {
            Some(key) => self.rcpt_gate(rcpt, Some(&key)),
            None => self.rcpt_gate(rcpt, None),
        };
        assert(model::opt_view(r) == rcpt_refusal(self.keys(), rcpt@, kv));
        r
    }
}

/// The result of an SPF evaluation, if there was one.
pub open spec fn spf_result(o: Option<&SpfOutcome>) -> Option<SpfResult> {
    match o {
        Some(x) => Some(x.result),
        None => None,
    }
}

/// The octets of a seed, if there is one.
pub open spec fn seed_view(seed: Option<&[u8; 32]>) -> Option<Seq<u8>> {
    match seed {
        Some(e) => Some(e@),
        None => None,
    }
}

/// The views of a wrapped message or of the reason why there is none.
pub open spec fn pair_view(r: Result<(SealedMote, Attestation), InboundError>) -> Result<
    (mote::MoteModel, attestation::AttestationModel),
    InboundErrorModel,
> {
    match r {
        Ok((m, a)) => Ok((m@, a@)),
        Err(e) => Err(e@),
    }
}

// ---- laws --------------------------------------------------------------------------------------

/// A sender is told that its message was accepted only if the message was wrapped and attested and
/// the mesh acknowledged durable custody of it, and nothing refused it before.
pub proof fn law_accepted_means_acked(
    dkim_policy: DkimPolicy,
    dmarc_policy: DmarcHandling,
    keys: Seq<attestation::AttestationKeyModel>,
    mail_from: Seq<char>,
    rcpt_to: Seq<char>,
    now: u64,
    a: AnswersModel,
)
    ensures
        (200 <= acceptance(dkim_policy, dmarc_policy, keys, mail_from, rcpt_to, now, a).code < 300)
            <==> {
            &&& dkim_refusal(dkim_policy, a.dkim) is None
            &&& dmarc_refusal(dmarc_policy, a.dmarc) is None
            &&& wrapped(keys, mail_from, rcpt_to, now, a.recipient, a.sealed) is Ok
            &&& a.outcome == DeliveryOutcome::Acked
        },
{
}

/// A sender is told that its message was accepted exactly where the message was delivered and the
/// mesh acknowledged custody; a message that was refused before is not delivered at all.
pub proof fn law_acceptance_is_custody<
    D: KeyDirectory,
    M: MeshDelivery,
    A: AntiAbuse,
    K: DkimKeyResolver,
    S: SpfEvaluator,
    R: DmarcEvaluator,
>(
    gw: InboundGateway<D, M, A, K, S, R>,
    mail_from: Seq<char>,
    rcpt_to: Seq<char>,
    data: Seq<u8>,
    now: u64,
    spf: Option<SpfResult>,
    a: AnswersModel,
    after: M,
)
    requires
        gw.may_answer(mail_from, rcpt_to, data, now, spf, a, after),
    ensures
        ({
            let code = acceptance(
                gw.dkim_policy,
                gw.dmarc_policy,
                gw.keys(),
                mail_from,
                rcpt_to,
                now,
                a,
            ).code;
            let passes = dkim_refusal(gw.dkim_policy, a.dkim) is None && dmarc_refusal(
                gw.dmarc_policy,
                a.dmarc,
            ) is None;
            let w = wrapped(gw.keys(), mail_from, rcpt_to, now, a.recipient, a.sealed);
            &&& code == 250 <==> passes && w is Ok && a.outcome == DeliveryOutcome::Acked
            &&& passes && w is Ok ==> M::delivers(
                gw.delivery,
                (w->Ok_0).0,
                (w->Ok_0).1,
                a.outcome,
                after,
            )
            &&& !(passes && w is Ok) ==> after == gw.delivery
        }),
{
}

/// A message for a recipient that is malformed or unknown is refused for good, one for a domain
/// without a key is put off, and one that the mesh does not acknowledge is put off.
pub proof fn law_refusals_are_told_apart(
    keys: Seq<attestation::AttestationKeyModel>,
    mail_from: Seq<char>,
    rcpt_to: Seq<char>,
    now: u64,
    recipient: Option<directory::RecipientModel>,
    sealed: Option<mote::MoteModel>,
)
    ensures
        ({
            let w = wrapped(keys, mail_from, rcpt_to, now, recipient, sealed);
            &&& domain_part(rcpt_to) is None || recipient is None ==> w is Err && error_reply(
                w->Err_0,
            ).code == 550
            &&& domain_part(rcpt_to) is Some && recipient is Some && key_for(
                keys,
                domain_part(rcpt_to)->0,
            ) is None ==> w is Err && error_reply(w->Err_0).code == 451
        }),
        delivery_reply(DeliveryOutcome::NoAck).code == 451,
{
}

/// A message for a known recipient of a domain that the gateway can attest for is wrapped, given a
/// seed, a key to seal to and a message that can be sealed.
pub proof fn law_sealable_message_is_wrapped<
    D: KeyDirectory,
    M: MeshDelivery,
    A: AntiAbuse,
    K: DkimKeyResolver,
    S: SpfEvaluator,
    R: DmarcEvaluator,
>(
    gw: InboundGateway<D, M, A, K, S, R>,
    mail_from: Seq<char>,
    rcpt_to: Seq<char>,
    data: Seq<u8>,
    now: u64,
    seed: Seq<u8>,
    recipient: directory::RecipientModel,
    sealed: Option<mote::MoteModel>,
)
    requires
        gw.may_wrap_with(rcpt_to, data, now, Some(seed), Some(recipient), sealed),
        rcpt_refusal(gw.keys(), rcpt_to, Some(recipient)) is None,
        mote::seals_to(recipient.seal_pub),
        mote::hygienic(data).len() <= mote::MAX_SEALABLE,
    ensures
        wrapped(gw.keys(), mail_from, rcpt_to, now, Some(recipient), sealed) is Ok,
{
}

/// A message that is not accepted stays with its sender: every other reply is a refusal, for now or
/// for good.
pub proof fn law_never_silent(
    dkim_policy: DkimPolicy,
    dmarc_policy: DmarcHandling,
    keys: Seq<attestation::AttestationKeyModel>,
    mail_from: Seq<char>,
    rcpt_to: Seq<char>,
    now: u64,
    a: AnswersModel,
)
    ensures
        ({
            let code = acceptance(dkim_policy, dmarc_policy, keys, mail_from, rcpt_to, now, a).code;
            code == 250 || code == 451 || code == 550
        }),
{
}

/// Where a recipient was accepted and nothing has changed since, its message is not refused for its
/// recipient.
pub proof fn law_accepted_recipient_stays(
    keys: Seq<attestation::AttestationKeyModel>,
    mail_from: Seq<char>,
    rcpt_to: Seq<char>,
    now: u64,
    recipient: Option<directory::RecipientModel>,
    sealed: Option<mote::MoteModel>,
)
    requires
        rcpt_refusal(keys, rcpt_to, recipient) is None,
    ensures
        wrapped(keys, mail_from, rcpt_to, now, recipient, sealed) matches Err(e) ==> e
            is SealFailed,
{
}

/// What a gateway for its own domains wraps is vouched for with the gateway's own identity, under the
/// first of its domains that is the recipient's, in any case, and the recipient accepts it.
pub proof fn law_own_domains_vouch(
    domains: Seq<(&str, &str)>,
    seed: Seq<u8>,
    mail_from: Seq<char>,
    rcpt_to: Seq<char>,
    now: u64,
    recipient: Option<directory::RecipientModel>,
    sealed: Option<mote::MoteModel>,
)
    requires
        ({
            let w = wrapped(shared_keys(domains, seed), mail_from, rcpt_to, now, recipient, sealed);
            w matches Ok((m, att)) && vouched(shared_keys(domains, seed), rcpt_to, m.id, att)
        }),
    ensures
        ({
            let keys = shared_keys(domains, seed);
            let (m, att) = wrapped(keys, mail_from, rcpt_to, now, recipient, sealed)->Ok_0;
            &&& att.gateway_key == identity::ed25519_public(seed)
            &&& exists|i: int| #[trigger]
                first_for(domains, domain_part(rcpt_to)->0, i) && att.domain == domains[i].0@
                    && att.selector == domains[i].1@
            &&& attestation::verdict(
                att,
                att.domain,
                Some(identity::ed25519_public(seed)),
                m.id,
            ) is Ok
        }),
{
    let keys = shared_keys(domains, seed);
    let domain = domain_part(rcpt_to)->0;
    assert(keys.skip(0) =~= keys);
    lemma_first_key(domains, seed, domain, 0);
}

/// Whether the domain at `i` is the first that is the given one, in any case.
pub open spec fn first_for(domains: Seq<(&str, &str)>, domain: Seq<char>, i: int) -> bool {
    &&& 0 <= i < domains.len()
    &&& text::lower(domains[i].0@) == text::lower(domain)
    &&& forall|j: int| 0 <= j < i ==> text::lower((#[trigger] domains[j]).0@) != text::lower(domain)
}

proof fn lemma_first_key(
    domains: Seq<(&str, &str)>,
    seed: Seq<u8>,
    domain: Seq<char>,
    from: int,
)
    requires
        0 <= from <= domains.len(),
        key_for(shared_keys(domains, seed).skip(from), domain) is Some,
        forall|j: int|
            0 <= j < from ==> text::lower((#[trigger] domains[j]).0@) != text::lower(domain),
    ensures
        ({
            let k = key_for(shared_keys(domains, seed).skip(from), domain)->0;
            &&& k.seed == seed
            &&& exists|i: int| #[trigger]
                first_for(domains, domain, i) && k.domain == domains[i].0@ && k.selector
                    == domains[i].1@
        }),
    decreases domains.len() - from,
{
    let keys = shared_keys(domains, seed);
    let rest = keys.skip(from);
    assert(rest.len() > 0);
    assert(rest[0] == keys[from]);
    if text::lower(domains[from].0@) != text::lower(domain) {
        assert(rest.skip(1) =~= keys.skip(from + 1));
        lemma_first_key(domains, seed, domain, from + 1);
    } else {
        assert(first_for(domains, domain, from));
    }
}

/// A bridged message has been through one gateway: the one that vouches for it.
pub proof fn law_one_gateway_on_the_path(
    keys: Seq<attestation::AttestationKeyModel>,
    mail_from: Seq<char>,
    rcpt_to: Seq<char>,
    data: Seq<u8>,
    now: u64,
    recipient: Option<directory::RecipientModel>,
    sealed: Option<mote::MoteModel>,
)
    ensures
        bridged(keys, mail_from, rcpt_to, data, now, recipient, sealed) matches Ok(b) ==> {
            &&& b.provenance.gateways == seq![b.hop]
            &&& b.hop.domain == b.attestation.domain
            &&& b.hop.selector == b.attestation.selector
            &&& b.hop.gateway_key == b.attestation.gateway_key
            &&& b.hop.mail_from == b.attestation.smtp_mail_from
            &&& b.hop.received_at == b.attestation.received_at
        },
{
}

/// A gateway for its own domains vouches for its messages with the key that they are from.
pub proof fn law_own_domains_share_the_identity(
    domains: Seq<(&str, &str)>,
    seed: Seq<u8>,
    domain: Seq<char>,
)
    ensures
        key_for(shared_keys(domains, seed), domain) matches Some(k) ==> k.seed == seed,
{
    lemma_key_seed(shared_keys(domains, seed), seed, domain);
}

proof fn lemma_key_seed(
    keys: Seq<attestation::AttestationKeyModel>,
    seed: Seq<u8>,
    domain: Seq<char>,
)
    requires
        forall|i: int| 0 <= i < keys.len() ==> (#[trigger] keys[i]).seed == seed,
    ensures
        key_for(keys, domain) matches Some(k) ==> k.seed == seed,
    decreases keys.len(),
{
    if keys.len() > 0 {
        assert(keys[0].seed == seed);
        let rest = keys.skip(1);
        assert forall|i: int| 0 <= i < rest.len() implies (#[trigger] rest[i]).seed == seed by {
            assert(rest[i] == keys[i + 1]);
        }
        lemma_key_seed(rest, seed, domain);
    }
}

/// Only an enforcing policy refuses: where every policy annotates, no verdict does.
pub proof fn law_annotating_refuses_nothing(
    dkim: dkim::VerdictModel,
    spf: SpfResult,
    dmarc: DmarcVerdict,
)
    ensures
        dkim_refusal(DkimPolicy::Annotate, dkim) is None,
        spf_refusal(SpfPolicy::Annotate, spf) is None,
        dmarc_refusal(DmarcHandling::Annotate, dmarc) is None,
{
}

/// Under the policy that enforces SPF a sender is refused exactly for a result of failure, for good,
/// and for a temporary error, for the time being. No other result is a reason to refuse, and under the
/// other policy none is.
pub proof fn law_only_spf_failures_are_refused(policy: SpfPolicy, result: SpfResult)
    ensures
        spf_refusal(policy, result) is Some <==> policy == SpfPolicy::Enforce && (result
            == SpfResult::Fail || result == SpfResult::TempError),
        policy == SpfPolicy::Enforce && result == SpfResult::Fail ==> spf_refusal(
            policy,
            result,
        )->0.code == 550,
        policy == SpfPolicy::Enforce && result == SpfResult::TempError ==> spf_refusal(
            policy,
            result,
        )->0.code == 451,
        policy == SpfPolicy::Annotate ==> spf_refusal(policy, result) is None,
{
}

/// A message is refused for its signature exactly if signatures are enforced and there is one that does
/// not verify, and for DMARC exactly if that is enforced and the sender's domain asks for the
/// rejection of a message that fails; both for good. No signature, a key that cannot be had, and every
/// milder wish of the domain let the message through.
pub proof fn law_what_is_refused_for_dkim_and_dmarc(
    dkim_policy: DkimPolicy,
    verdict: dkim::VerdictModel,
    dmarc_policy: DmarcHandling,
    dmarc: DmarcVerdict,
)
    ensures
        dkim_refusal(dkim_policy, verdict) is Some <==> dkim_policy == DkimPolicy::Enforce && (exists|
            e: dkim::DkimError,
        |
            verdict == dkim::VerdictModel::Fail(e)),
        dkim_refusal(dkim_policy, verdict) matches Some(r) ==> r.code == 550,
        dmarc_refusal(dmarc_policy, dmarc) is Some <==> dmarc_policy == DmarcHandling::Enforce
            && dmarc == (DmarcVerdict::Fail { disposition: DmarcDisposition::Reject }),
        dmarc_refusal(dmarc_policy, dmarc) matches Some(r) ==> r.code == 550,
{
    if verdict is Fail {
        assert(verdict == dkim::VerdictModel::Fail(verdict->Fail_0));
    }
}

/// A message is wrapped exactly if its recipient's address has a domain, the recipient is known, the
/// gateway has a key for the domain and the message could be sealed: it is then the sealed message,
/// attested with that key for this message, sender, recipient and time. Else the first thing that is
/// missing is the reason.
pub proof fn law_when_a_message_is_wrapped(
    keys: Seq<attestation::AttestationKeyModel>,
    mail_from: Seq<char>,
    rcpt_to: Seq<char>,
    now: u64,
    recipient: Option<directory::RecipientModel>,
    sealed: Option<mote::MoteModel>,
)
    ensures
        ({
            let d = domain_part(rcpt_to);
            let k = key_for(keys, d->0);
            match wrapped(keys, mail_from, rcpt_to, now, recipient, sealed) {
                Ok((m, att)) => {
                    &&& d is Some && recipient is Some && k is Some && sealed == Some(m)
                    &&& att.domain == (k->0).domain
                    &&& att.selector == (k->0).selector
                    &&& att.gateway_key == identity::ed25519_public((k->0).seed)
                    &&& att.mote_id == m.id
                    &&& att.smtp_mail_from == mail_from
                    &&& att.smtp_rcpt_to == rcpt_to
                    &&& att.received_at == now
                },
                Err(InboundErrorModel::BadAddress(a)) => a == rcpt_to && d is None,
                Err(InboundErrorModel::NoRecipient(a)) => a == rcpt_to && d is Some
                    && recipient is None,
                Err(InboundErrorModel::NoAttestationKey(x)) => Some(x) == d && recipient is Some
                    && k is None,
                Err(InboundErrorModel::SealFailed) => d is Some && recipient is Some && k is Some
                    && sealed is None,
            }
        }),
{
}

/// The key for a domain is the first one whose domain is the same in any case; there is none only
/// where no key has it.
pub proof fn law_which_key_attests(keys: Seq<attestation::AttestationKeyModel>, domain: Seq<char>)
    ensures
        match key_for(keys, domain) {
            Some(k) => exists|i: int|
                0 <= i < keys.len() && #[trigger] keys[i] == k && text::lower(k.domain)
                    == text::lower(domain) && (forall|j: int|
                    0 <= j < i ==> text::lower((#[trigger] keys[j]).domain) != text::lower(domain)),
            None => forall|i: int|
                0 <= i < keys.len() ==> text::lower((#[trigger] keys[i]).domain) != text::lower(
                    domain,
                ),
        },
    decreases keys.len(),
{
    if keys.len() > 0 {
        if text::lower(keys[0].domain) == text::lower(domain) {
            assert(keys[0] == key_for(keys, domain)->0);
        } else {
            let rest = keys.skip(1);
            law_which_key_attests(rest, domain);
            match key_for(rest, domain) {
                Some(k) => {
                    let i = choose|i: int|
                        0 <= i < rest.len() && #[trigger] rest[i] == k && text::lower(k.domain)
                            == text::lower(domain) && (forall|j: int|
                            0 <= j < i ==> text::lower((#[trigger] rest[j]).domain) != text::lower(
                                domain,
                            ));
                    assert(keys[i + 1] == k);
                    assert forall|j: int| 0 <= j < i + 1 implies text::lower(
                        (#[trigger] keys[j]).domain,
                    ) != text::lower(domain) by {
                        if j > 0 {
                            assert(rest[j - 1] == keys[j]);
                        }
                    }
                },
                None => {
                    assert forall|j: int| 0 <= j < keys.len() implies text::lower(
                        (#[trigger] keys[j]).domain,
                    ) != text::lower(domain) by {
                        if j > 0 {
                            assert(rest[j - 1] == keys[j]);
                        }
                    }
                },
            }
        }
    }
}

/// The domain of an address is what follows its last `@`, with or without angle brackets and white
/// space around the address; an address without an `@`, or with nothing behind it, has none.
pub proof fn law_domain_of_an_address(
    before: Seq<char>,
    local: Seq<char>,
    domain: Seq<char>,
    after: Seq<char>,
)
    requires
        text::all_white(before),
        text::all_white(after),
        local.len() > 0 ==> !text::is_white(local[0]) && local[0] != '<',
        domain.len() > 0 ==> !text::is_white(domain.last()) && domain.last() != '>',
        !domain.contains('@'),
    ensures
        ({
            let a = local + seq!['@'] + domain;
            let expected = if domain.len() > 0 {
                Some(domain)
            } else {
                None
            };
            &&& domain_part(before + a + after) == expected
            &&& domain_part(before + (seq!['<'] + a + seq!['>']) + after) == expected
        }),
        domain.len() > 0 && !text::is_white(domain[0]) && domain[0] != '<' ==> domain_part(
            before + domain + after,
        ) is None,
{
    let a = local + seq!['@'] + domain;
    let b = seq!['<'] + a + seq!['>'];
    let open = |c: char| c == '<';
    let close = |c: char| c == '>';
    text::law_trim_takes_the_ends(before, a, after);
    text::law_trim_takes_the_ends(before, b, after);
    text::lemma_rsplit_of_joined(local, '@', domain);
    if local.len() > 0 {
        assert(a[0] == local[0]);
    } else {
        assert(a[0] == '@');
    }
    if domain.len() > 0 {
        assert(a.last() == domain.last());
    } else {
        assert(a.last() == '@');
    }
    assert(text::strip_front(a, open) == a);
    assert(text::strip_back(a, close) == a);
    assert(b.skip(1) =~= a.push('>'));
    assert(a.push('>')[0] == a[0]);
    assert(text::strip_front(b.skip(1), open) == b.skip(1));
    assert(text::strip_front(b, open) == a.push('>'));
    assert(a.push('>').drop_last() =~= a);
    assert(text::strip_back(a.push('>'), close) == a);
    if domain.len() > 0 && !text::is_white(domain[0]) && domain[0] != '<' {
        text::law_trim_takes_the_ends(before, domain, after);
        assert(text::strip_front(domain, open) == domain);
        assert(text::strip_back(domain, close) == domain);
        text::law_cut_at_the_first(domain, '@', domain);
    }
}

/// A recipient is refused exactly if its address has no domain (501), nobody has the address (550), or
/// the gateway has no key for the domain (451).
pub proof fn law_which_recipients_are_refused(
    keys: Seq<attestation::AttestationKeyModel>,
    rcpt: Seq<char>,
    recipient: Option<directory::RecipientModel>,
)
    ensures
        ({
            let d = domain_part(rcpt);
            match rcpt_refusal(keys, rcpt, recipient) {
                None => d is Some && recipient is Some && key_for(keys, d->0) is Some,
                Some(r) => {
                    &&& r.code == 501 <==> d is None
                    &&& r.code == 550 <==> d is Some && recipient is None
                    &&& r.code == 451 <==> d is Some && recipient is Some && key_for(keys, d->0)
                        is None
                    &&& r.code == 501 || r.code == 550 || r.code == 451
                },
            }
        }),
{
}

/// What is sealed is the message without the verdicts that it brought, to the keys that the directory
/// gave for the recipient, from the gateway's own key and at the given time; the sealed message is
/// named after what it holds.
pub proof fn law_message_is_sealed_to_its_recipient<
    D: KeyDirectory,
    M: MeshDelivery,
    A: AntiAbuse,
    K: DkimKeyResolver,
    S: SpfEvaluator,
    R: DmarcEvaluator,
>(
    gw: InboundGateway<D, M, A, K, S, R>,
    mail_from: Seq<char>,
    rcpt_to: Seq<char>,
    data: Seq<u8>,
    now: u64,
    seed: Option<Seq<u8>>,
    recipient: Option<directory::RecipientModel>,
    sealed: Option<mote::MoteModel>,
)
    requires
        gw.may_wrap_with(rcpt_to, data, now, seed, recipient, sealed),
        wrapped(gw.keys(), mail_from, rcpt_to, now, recipient, sealed) is Ok,
    ensures
        ({
            let m = (wrapped(gw.keys(), mail_from, rcpt_to, now, recipient, sealed)->Ok_0).0;
            let k = recipient->0;
            &&& seed is Some && recipient is Some
            &&& gw.directory.may_resolve(rcpt_to, Some(k))
            &&& m.id == seq![0x1eu8] + identity::content_digest(m.ciphertext)
            &&& mote::may_be_sealed(
                gw.ik@,
                seed->0,
                k.ik,
                k.seal_pub,
                mote::without_trust_headers(mote::header_block(data)) + mote::message_body(data),
                now,
                m.ciphertext,
                m.wire,
            )
            &&& mote::seals_to(k.seal_pub)
        }),
{
}

/// What a gateway asks while it takes a message: for the verdict on the message itself; where DMARC is
/// enforced, for the judgement on that verdict, the SPF result and the sender; for the recipient's
/// keys. It delivers once, the wrapped message, where nothing refuses it, and else not at all.
pub proof fn law_what_a_gateway_asks<
    D: KeyDirectory,
    M: MeshDelivery,
    A: AntiAbuse,
    K: DkimKeyResolver,
    S: SpfEvaluator,
    R: DmarcEvaluator,
>(
    gw: InboundGateway<D, M, A, K, S, R>,
    mail_from: Seq<char>,
    rcpt_to: Seq<char>,
    data: Seq<u8>,
    now: u64,
    spf: Option<SpfResult>,
    a: AnswersModel,
    after: M,
)
    requires
        gw.may_answer(mail_from, rcpt_to, data, now, spf, a, after),
    ensures
        ({
            let refused_by_dkim = gw.dkim_policy == DkimPolicy::Enforce && a.dkim is Fail;
            let refused_by_dmarc = gw.dmarc_policy == DmarcHandling::Enforce && a.dmarc == (
            DmarcVerdict::Fail { disposition: DmarcDisposition::Reject });
            let w = wrapped(gw.keys(), mail_from, rcpt_to, now, a.recipient, a.sealed);
            let code = acceptance(
                gw.dkim_policy,
                gw.dmarc_policy,
                gw.keys(),
                mail_from,
                rcpt_to,
                now,
                a,
            ).code;
            &&& gw.dkim_resolver is None ==> a.dkim is NoSignature
            &&& gw.dkim_resolver is Some && dkim::named_key(data) is None ==> a.dkim
                == dkim::nameless_verdict(data)
            &&& gw.dkim_resolver is Some && dkim::named_key(data) is Some ==> exists|
                key: Option<Seq<u8>>,
            | #[trigger]
                (gw.dkim_resolver->0).may_publish(
                    (dkim::named_key(data)->0).0,
                    (dkim::named_key(data)->0).1,
                    key,
                ) && a.dkim == dkim::verdict(data, key)
            &&& !refused_by_dkim && gw.dmarc_policy == DmarcHandling::Enforce && gw.dmarc_resolver
                is None ==> a.dmarc == DmarcVerdict::NoPolicy
            &&& !refused_by_dkim && gw.dmarc_policy == DmarcHandling::Enforce && gw.dmarc_resolver
                is Some ==> exists|h: HeaderFromModel| #[trigger]
                (gw.dmarc_resolver->0).may_read_from(data, h) && (h is Ambiguous ==> a.dmarc == (
                DmarcVerdict::Fail { disposition: DmarcDisposition::Reject })) && (h is Unusable
                    ==> a.dmarc == DmarcVerdict::PermError) && (h matches HeaderFromModel::Single(d)
                    ==> (gw.dmarc_resolver->0).may_judge(
                    d,
                    if domain_part(mail_from) is Some {
                        domain_part(mail_from)->0
                    } else {
                        Seq::empty()
                    },
                    spf,
                    a.dkim,
                    a.dmarc,
                ))
            &&& !refused_by_dkim && !refused_by_dmarc ==> gw.may_wrap(
                rcpt_to,
                data,
                now,
                a.recipient,
                a.sealed,
            )
            &&& refused_by_dkim || refused_by_dmarc || w is Err ==> after == gw.delivery && code
                != 250
            &&& !refused_by_dkim && !refused_by_dmarc && w is Ok ==> M::delivers(
                gw.delivery,
                (w->Ok_0).0,
                (w->Ok_0).1,
                a.outcome,
                after,
            ) && (code == 250 <==> a.outcome == DeliveryOutcome::Acked) && (code == 451
                <==> a.outcome == DeliveryOutcome::NoAck)
            &&& refused_by_dkim || refused_by_dmarc ==> code == 550
        }),
{
}

/// The gateway's own step on the path of a message names the key that attests, the sender, the time
/// and the digest of the message that was sealed.
pub proof fn law_what_a_step_says(
    keys: Seq<attestation::AttestationKeyModel>,
    mail_from: Seq<char>,
    rcpt_to: Seq<char>,
    data: Seq<u8>,
    now: u64,
    recipient: Option<directory::RecipientModel>,
    sealed: Option<mote::MoteModel>,
)
    ensures
        bridged(keys, mail_from, rcpt_to, data, now, recipient, sealed) is Ok <==> wrapped(
            keys,
            mail_from,
            rcpt_to,
            now,
            recipient,
            sealed,
        ) is Ok,
        bridged(keys, mail_from, rcpt_to, data, now, recipient, sealed) matches Ok(b) ==> {
            let (m, att) = wrapped(keys, mail_from, rcpt_to, now, recipient, sealed)->Ok_0;
            &&& b.env == m && b.attestation == att
            &&& b.hop.msg_digest == seq![0x1eu8] + identity::content_digest(mote::hygienic(data))
            &&& b.hop.mail_from == mail_from
            &&& b.hop.received_at == now
            &&& b.hop.seq == 0
            &&& b.provenance.tier == provenance::Tier::Fast
            &&& b.provenance.gateways.len() == 1
        },
{
}

/// A gateway that nothing was set on looks nothing up and refuses nothing for what it finds.
pub proof fn law_a_new_gateway_refuses_nothing<
    D: KeyDirectory,
    M: MeshDelivery,
    A: AntiAbuse,
    K: DkimKeyResolver,
    S: SpfEvaluator,
    R: DmarcEvaluator,
>(
    gw: InboundGateway<D, M, A, K, S, R>,
    peer_ip: Seq<char>,
    mail_from: Seq<char>,
    helo: Option<Seq<char>>,
    o: SpfOutcome,
)
    requires
        gw.unchecked(),
    ensures
        gw.dkim_policy == DkimPolicy::Annotate && gw.spf_policy == SpfPolicy::Annotate && gw.dmarc_policy
            == DmarcHandling::Annotate,
        gw.dkim_resolver is None && gw.spf_resolver is None && gw.dmarc_resolver is None,
        gw.may_evaluate_spf(peer_ip, mail_from, helo, o) ==> o.result == SpfResult::NoPolicy,
{
}

/// The sender policy is asked with the address of the peer, without white space round it; where that
/// is no address, nothing is asked and there is no policy.
pub proof fn law_what_the_sender_policy_is_asked<
    D: KeyDirectory,
    M: MeshDelivery,
    A: AntiAbuse,
    K: DkimKeyResolver,
    S: SpfEvaluator,
    R: DmarcEvaluator,
>(
    gw: InboundGateway<D, M, A, K, S, R>,
    peer_ip: Seq<char>,
    mail_from: Seq<char>,
    helo: Option<Seq<char>>,
    o: SpfOutcome,
)
    requires
        gw.may_evaluate_spf(peer_ip, mail_from, helo, o),
    ensures
        gw.spf_resolver is None || !ip::is_ip_address(text::trim(peer_ip)) ==> o.result
            == SpfResult::NoPolicy,
        gw.spf_resolver is Some && ip::is_ip_address(text::trim(peer_ip)) ==> (
        gw.spf_resolver->0).may_evaluate(text::trim(peer_ip), mail_from, helo, o),
{
}

/// The hop of a gateway says who took the message over, which message, from whom and when.
pub proof fn law_what_a_hop_says(
    key: attestation::AttestationKeyModel,
    mail_from: Seq<char>,
    data: Seq<u8>,
    now: u64,
)
    ensures
        ({
            let h = hop_for(key, mail_from, data, now);
            &&& h.domain == key.domain && h.selector == key.selector
            &&& h.gateway_key == identity::ed25519_public(key.seed)
            &&& h.msg_digest == seq![0x1eu8] + identity::content_digest(
                mote::without_trust_headers(mote::header_block(data)) + mote::message_body(data),
            )
            &&& h.mail_from == mail_from && h.received_at == now && h.seq == 0
        }),
{
}

/// The words of the refusals, each with the status that goes with its code: permanent refusals begin
/// with a five and passing ones with a four.
pub proof fn law_words_of_the_refusals(
    spf: SpfResult,
    verdict: dkim::VerdictModel,
    dmarc: DmarcVerdict,
    keys: Seq<attestation::AttestationKeyModel>,
    rcpt_to: Seq<char>,
    recipient: Option<directory::RecipientModel>,
)
    ensures
        spf == SpfResult::Fail ==> spf_refusal(SpfPolicy::Enforce, spf)->0.text
            == "5.7.23 SPF hard fail (RFC 7208): sender IP not authorized for this domain"@,
        spf == SpfResult::TempError ==> spf_refusal(SpfPolicy::Enforce, spf)->0.text
            == "4.4.3 SPF temporary DNS error evaluating sender policy, please retry"@,
        verdict is Fail ==> dkim_refusal(DkimPolicy::Enforce, verdict)->0.text
            == "5.7.20 DKIM signature present but does not verify"@,
        dmarc_refusal(DmarcHandling::Enforce, dmarc) is Some ==> dmarc_refusal(
            DmarcHandling::Enforce,
            dmarc,
        )->0.text
            == "5.7.1 message failed DMARC (RFC 7489): policy=reject and SPF/DKIM not aligned"@,
        rcpt_refusal(keys, rcpt_to, recipient) is Some ==> {
            let r = rcpt_refusal(keys, rcpt_to, recipient)->0;
            &&& r.code == 501 ==> r.text == "5.1.3 bad recipient address"@
            &&& r.code == 550 ==> r.text == "5.1.1 no such user here"@
            &&& r.code == 451 ==> r.text == "4.3.5 gateway not configured for this domain"@
        },
        delivery_reply(DeliveryOutcome::Acked) == (smtp::ReplyModel {
            code: 250,
            text: "2.6.0 message durably accepted"@,
        }),
        delivery_reply(DeliveryOutcome::NoAck) == (smtp::ReplyModel {
            code: 451,
            text: "4.4.1 recipient has not durably accepted yet, try again later"@,
        }),
{
}

/// What was not delivered for what is wrong on this side may come again; what has nobody to go to may
/// not.
pub proof fn law_words_of_the_errors(e: InboundErrorModel)
    ensures
        e is NoRecipient || e is BadAddress ==> error_reply(e) == (smtp::ReplyModel {
            code: 550,
            text: "5.1.1 no such user here"@,
        }),
        !(e is NoRecipient || e is BadAddress) ==> error_reply(e).code == 451 && (error_reply(e).text
            == "4.3.5 gateway not configured for this domain"@ || error_reply(e).text
            == "4.3.0 temporary failure wrapping message"@),
{
}

/// A message is vouched for where the key of its recipient's domain accepts what is said of it.
pub proof fn law_who_vouches(
    keys: Seq<attestation::AttestationKeyModel>,
    rcpt_to: Seq<char>,
    mote_id: Seq<u8>,
    att: attestation::AttestationModel,
)
    ensures
        domain_part(rcpt_to) is None ==> !vouched(keys, rcpt_to, mote_id, att),
        domain_part(rcpt_to) is Some && key_for(keys, domain_part(rcpt_to)->0) is None ==> !vouched(
            keys,
            rcpt_to,
            mote_id,
            att,
        ),
        domain_part(rcpt_to) is Some && key_for(keys, domain_part(rcpt_to)->0) is Some ==> (vouched(
            keys,
            rcpt_to,
            mote_id,
            att,
        ) <==> attestation::verdict(
            att,
            (key_for(keys, domain_part(rcpt_to)->0)->0).domain,
            Some(identity::ed25519_public((key_for(keys, domain_part(rcpt_to)->0)->0).seed)),
            mote_id,
        ) is Ok),
{
}

} // verus!
