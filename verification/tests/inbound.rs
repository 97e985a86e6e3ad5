use kotva_core::mote::SealKeypair;
use std::cell::RefCell;
use std::rc::Rc;
use wakala::abuse::{AbuseDecision, AllowAllAbuse, AntiAbuse};
use wakala::attestation::{Attestation, AttestationKey};
use wakala::directory::{InMemoryDirectory, RecipientKey};
use wakala::dkim::{sign, DkimKey, DkimVerdict, StaticDkimKeys};
use wakala::identity::{ContentId, IdentityKey};
use wakala::inbound::{
    domain_of, DeliveryOutcome, DkimPolicy, DmarcDisposition, DmarcEvaluator, DmarcHandling,
    DmarcVerdict, HeaderFrom, InboundError, InboundGateway, MeshDelivery, SpfEvaluator, SpfOutcome,
    SpfPolicy, SpfResult, Unset,
};
use wakala::mesh::NullMesh;
use wakala::mote::{strip_trust_boundary_headers, SealedMote};
use wakala::mx_conn::{ConnAction, MxConnection};
use wakala::mx_session::MxSession;
use wakala::provenance::{Profile, Tier};
use wakala::smtp::SmtpReply;

const NOW: u64 = 1_752_600_000_000;

/// A mesh that acknowledges everything and keeps what it was handed.
#[derive(Clone)]
struct Inbox(Rc<RefCell<Vec<(SealedMote, String)>>>);

impl Inbox {
    fn new() -> Self {
        Inbox(Rc::new(RefCell::new(Vec::new())))
    }
}

impl MeshDelivery for Inbox {
    fn deliver(&mut self, mote: &SealedMote, att: &Attestation) -> DeliveryOutcome {
        self.0.borrow_mut().push((mote.clone(), att.smtp_rcpt_to.clone()));
        DeliveryOutcome::Acked
    }
}

/// Says the same of every sender.
struct Spf(SpfResult);

impl SpfEvaluator for Spf {
    fn evaluate(&self, _: &str, _: &str, _: Option<&str>) -> SpfOutcome {
        SpfOutcome { result: self.0 }
    }
}

/// Says the same of every message.
struct Dmarc(DmarcVerdict);

impl DmarcEvaluator for Dmarc {
    fn header_from(&self, _: &[u8]) -> HeaderFrom {
        HeaderFrom::Single("gmail.com".to_string())
    }
    fn evaluate(&self, _: &str, _: &str, _: Option<SpfResult>, _: &DkimVerdict) -> DmarcVerdict {
        self.0
    }
}

/// Refuses everybody.
struct Closed;

impl AntiAbuse for Closed {
    fn check(&mut self, _: &str, _: &str) -> AbuseDecision {
        AbuseDecision::Reject { code: 550, reason: "5.7.1 go away".to_string() }
    }
}

fn directory() -> InMemoryDirectory {
    let ik = IdentityKey::from_seed(&[7u8; 32]).public();
    let seal = SealKeypair::generate();
    InMemoryDirectory::new()
        .with_recipient("alice@host.net", RecipientKey { ik, seal_pub: seal.public().to_vec() })
}

type Plain<M> = InboundGateway<InMemoryDirectory, M, AllowAllAbuse, Unset, Unset, Unset>;

fn gateway<M: MeshDelivery>(mesh: M) -> Plain<M> {
    InboundGateway::for_own_domains(
        IdentityKey::from_seed(&[1u8; 32]),
        &[("host.net", "gw1")],
        directory(),
        mesh,
        AllowAllAbuse,
    )
}

const MSG: &[u8] = b"From: bob@gmail.com\r\nAuthentication-Results: x; dkim=pass\r\n\r\nhi\r\n";

#[test]
fn a_message_is_accepted_once_the_mesh_has_it() {
    let inbox = Inbox::new();
    let mut gw = gateway(inbox.clone());
    let r = gw.accept_message("bob@gmail.com", "alice@host.net", MSG, NOW);
    assert_eq!(r, SmtpReply::new(250, "2.6.0 message durably accepted"));
    assert_eq!(inbox.0.borrow().len(), 1);
    assert_eq!(inbox.0.borrow()[0].1, "alice@host.net");
}

#[test]
fn without_an_acknowledgement_the_sender_keeps_the_message() {
    let mut gw = gateway(NullMesh);
    let r = gw.accept_message("bob@gmail.com", "alice@host.net", MSG, NOW);
    assert_eq!(
        r,
        SmtpReply::new(451, "4.4.1 recipient has not durably accepted yet, try again later")
    );
    assert!(!r.is_ok());
}

#[test]
fn each_thing_that_is_missing_is_named() {
    let mut gw = gateway(NullMesh);
    assert_eq!(
        gw.wrap_and_attest("b@x", "nobody", MSG, NOW).err(),
        Some(InboundError::BadAddress("nobody".to_string()))
    );
    assert_eq!(
        gw.wrap_and_attest("b@x", "carol@host.net", MSG, NOW).err(),
        Some(InboundError::NoRecipient("carol@host.net".to_string()))
    );
    assert_eq!(gw.accept_message("b@x", "carol@host.net", MSG, NOW).code, 550);

    let mut none: Plain<NullMesh> = InboundGateway::new(
        IdentityKey::from_seed(&[1u8; 32]),
        Vec::new(),
        directory(),
        NullMesh,
        AllowAllAbuse,
    );
    assert_eq!(
        none.wrap_and_attest("b@x", "alice@host.net", MSG, NOW).err(),
        Some(InboundError::NoAttestationKey("host.net".to_string()))
    );
    assert_eq!(none.accept_message("b@x", "alice@host.net", MSG, NOW).code, 451);

    let bad_key = InMemoryDirectory::new()
        .with_recipient("alice@host.net", RecipientKey { ik: vec![1], seal_pub: vec![2] });
    let unsealable = InboundGateway::for_own_domains(
        IdentityKey::from_seed(&[1u8; 32]),
        &[("host.net", "gw1")],
        bad_key,
        NullMesh,
        AllowAllAbuse,
    );
    assert_eq!(
        unsealable.wrap_and_attest("b@x", "alice@host.net", MSG, NOW).err(),
        Some(InboundError::SealFailed)
    );
}

#[test]
fn what_is_wrapped_is_attested_for_the_recipients_domain() {
    let gw = gateway(NullMesh);
    let (mote, att) = gw.wrap_and_attest("bob@gmail.com", "alice@host.net", MSG, NOW).unwrap();
    let published = gw.attest_keys[0].public();
    assert_eq!(att.verify("host.net", Some(&published), &mote.id), Ok(()));
    assert_eq!(published, gw.ik.public());
    assert_ne!(mote.ciphertext, MSG.to_vec());
    assert_eq!(mote.id.0.len(), 33);
}

#[test]
fn a_stamp_tells_what_the_gateway_vouches_for() {
    let gw = gateway(NullMesh);
    let b = gw.wrap_attest_and_stamp("bob@gmail.com", "alice@host.net", MSG, NOW).unwrap();
    assert_eq!(b.hop.msg_digest, ContentId::of(&strip_trust_boundary_headers(MSG)).0);
    assert_ne!(b.hop.msg_digest, ContentId::of(MSG).0);
    assert_eq!(b.hop.mail_from, "bob@gmail.com");
    assert_eq!((b.hop.received_at, b.hop.seq), (NOW, 0));
    let own = IdentityKey::from_seed(&[1u8; 32]).public();
    assert_eq!((b.hop.domain.as_str(), b.hop.selector.as_str()), ("host.net", "gw1"));
    assert_eq!(b.hop.gateway_key, own);
    assert_eq!((b.provenance.tier, b.provenance.profile), (Tier::Fast, Profile::NotApplicable));
    assert_eq!((b.provenance.min_hops, b.provenance.observed_at), (None, None));
    assert_eq!(b.provenance.gateways.len(), 1);
    assert_eq!(b.provenance.gateways[0].msg_digest, b.hop.msg_digest);
    assert_eq!(b.attestation.verify("host.net", Some(&own), &b.env.id), Ok(()));
    assert_eq!(b.attestation.mote_id, b.env.id);

    // The key comes before the recipient here.
    let none: Plain<NullMesh> = InboundGateway::new(
        IdentityKey::from_seed(&[1u8; 32]),
        Vec::new(),
        InMemoryDirectory::new(),
        NullMesh,
        AllowAllAbuse,
    );
    assert_eq!(
        none.wrap_attest_and_stamp("b@x", "alice@host.net", MSG, NOW).err(),
        Some(InboundError::NoAttestationKey("host.net".to_string()))
    );
    assert_eq!(
        none.wrap_attest_and_stamp("b@x", "alice", MSG, NOW).err(),
        Some(InboundError::BadAddress("alice".to_string()))
    );
}

#[test]
fn domains_of_addresses() {
    assert_eq!(domain_of(" <bob@host.net> "), Some("host.net".to_string()));
    assert_eq!(domain_of("a@b@host.net"), Some("host.net".to_string()));
    assert_eq!(domain_of("bob@"), None);
    assert_eq!(domain_of("bob"), None);
}

#[test]
fn a_bad_dkim_signature_is_refused_only_where_that_is_enforced() {
    let key = DkimKey::from_seed("gmail.com", "s1", &[3u8; 32]);
    let plain = b"From: bob@gmail.com\r\nSubject: hi\r\n\r\nhello\r\n";
    let mut msg = sign(&key, plain, 1_752_600_000).into_bytes();
    msg.extend_from_slice(plain);
    let mut tampered = msg.clone();
    let last = tampered.len() - 3;
    tampered[last] ^= 0x20;
    let keys = || StaticDkimKeys::new().publish("gmail.com", "s1", key.public_bytes().to_vec());

    let mut strict = gateway(Inbox::new()).with_dkim(keys(), DkimPolicy::Enforce);
    assert_eq!(strict.accept_message("bob@gmail.com", "alice@host.net", &msg, NOW).code, 250);
    assert_eq!(
        strict.accept_message("bob@gmail.com", "alice@host.net", &tampered, NOW),
        SmtpReply::new(550, "5.7.20 DKIM signature present but does not verify")
    );
    assert_eq!(strict.verify_inbound_dkim(plain), DkimVerdict::NoSignature);
    assert!(matches!(strict.verify_inbound_dkim(&tampered), DkimVerdict::Fail(_)));

    let mut lenient = gateway(Inbox::new()).with_dkim(keys(), DkimPolicy::Annotate);
    assert_eq!(lenient.accept_message("bob@gmail.com", "alice@host.net", &tampered, NOW).code, 250);
}

#[test]
fn dmarc_rejects_only_where_that_is_enforced() {
    let reject = DmarcVerdict::Fail { disposition: DmarcDisposition::Reject };
    let mut strict = gateway(Inbox::new()).with_dmarc(Dmarc(reject), DmarcHandling::Enforce);
    let r = strict.accept_message("bob@gmail.com", "alice@host.net", MSG, NOW);
    assert_eq!(r.code, 550);
    assert!(r.text.starts_with("5.7.1 message failed DMARC"));
    let mut lenient = gateway(Inbox::new()).with_dmarc(Dmarc(reject), DmarcHandling::Annotate);
    assert_eq!(lenient.accept_message("bob@gmail.com", "alice@host.net", MSG, NOW).code, 250);
}

fn say<M: MeshDelivery>(s: &mut MxSession, gw: &mut Plain<M>, line: &str) -> u16 {
    s.feed_line(gw, line).code
}

#[test]
fn a_conversation_from_greeting_to_goodbye() {
    let inbox = Inbox::new();
    let mut gw = gateway(inbox.clone());
    let mut s = MxSession::new("203.0.113.7", NOW);
    assert_eq!(s.greeting().wire(), "220 envoir-gateway DMTAP MX ready\r\n");
    assert_eq!((s.peer_ip(), s.now()), ("203.0.113.7", NOW));
    assert_eq!(say(&mut s, &mut gw, "NOOP"), 250);
    assert_eq!(say(&mut s, &mut gw, "RCPT TO:<alice@host.net>"), 503);
    assert_eq!(say(&mut s, &mut gw, "DATA"), 503);
    assert_eq!(say(&mut s, &mut gw, "MAIL bob"), 501);
    assert_eq!(say(&mut s, &mut gw, "MAIL FROM:<bob@gmail.com>"), 250);
    assert_eq!(say(&mut s, &mut gw, "RCPT alice"), 501);
    assert_eq!(say(&mut s, &mut gw, "RCPT TO:<carol@host.net>"), 550);
    assert_eq!(say(&mut s, &mut gw, "RCPT TO:<alice@host.net>"), 250);
    assert_eq!(say(&mut s, &mut gw, "DATA"), 354);
    assert!(s.in_data());
    assert_eq!(say(&mut s, &mut gw, "Subject: hi"), 0);
    assert_eq!(say(&mut s, &mut gw, ""), 0);
    assert_eq!(say(&mut s, &mut gw, "..dots"), 0);
    assert_eq!(say(&mut s, &mut gw, "."), 250);
    assert!(!s.in_data());
    assert_eq!(inbox.0.borrow().len(), 1);

    // Nothing of the transaction is left.
    assert_eq!(say(&mut s, &mut gw, "RCPT TO:<alice@host.net>"), 503);
    assert_eq!(say(&mut s, &mut gw, "RSET"), 250);
    assert_eq!(say(&mut s, &mut gw, "VRFY alice"), 502);
    assert_eq!(say(&mut s, &mut gw, "QUIT"), 221);
}

#[test]
fn a_message_that_is_too_large_is_refused_and_not_kept() {
    let inbox = Inbox::new();
    let mut gw = gateway(inbox.clone()).with_max_message_bytes(32);
    let mut s = MxSession::new("203.0.113.7", NOW);
    say(&mut s, &mut gw, "MAIL FROM:<bob@gmail.com>");
    say(&mut s, &mut gw, "RCPT TO:<alice@host.net>");
    say(&mut s, &mut gw, "DATA");
    for _ in 0..10 {
        assert_eq!(say(&mut s, &mut gw, "0123456789"), 0);
    }
    assert_eq!(say(&mut s, &mut gw, "."), 552);
    assert!(inbox.0.borrow().is_empty());
}

#[test]
fn a_sender_is_refused_by_policy() {
    let mut closed = InboundGateway::for_own_domains(
        IdentityKey::from_seed(&[1u8; 32]),
        &[("host.net", "gw1")],
        directory(),
        NullMesh,
        Closed,
    );
    let mut s = MxSession::new("203.0.113.7", NOW);
    let r = s.feed_line(&mut closed, "MAIL FROM:<bob@gmail.com>");
    assert_eq!(r, SmtpReply::new(550, "5.7.1 go away"));

    for (result, code) in [(SpfResult::Fail, 550), (SpfResult::TempError, 451), (SpfResult::Pass, 250)]
    {
        let mut gw = gateway(NullMesh).with_spf(Spf(result), SpfPolicy::Enforce);
        let mut s = MxSession::new("203.0.113.7", NOW);
        assert_eq!(s.feed_line(&mut gw, "MAIL FROM:<bob@gmail.com>").code, code, "{result:?}");
    }
    let mut gw = gateway(NullMesh).with_spf(Spf(SpfResult::Fail), SpfPolicy::Annotate);
    let mut s = MxSession::new("203.0.113.7", NOW);
    assert_eq!(s.feed_line(&mut gw, "MAIL FROM:<bob@gmail.com>").code, 250);
}

#[test]
fn a_connection_upgrades_once_and_starts_afresh() {
    let mut gw = gateway(Inbox::new());
    let mut c = MxConnection::new("203.0.113.7", NOW, true);
    assert_eq!(c.greeting(), "220 envoir-gateway DMTAP MX ready\r\n");
    assert_eq!(
        c.on_line(&mut gw, b"EHLO x"),
        ConnAction::Send("250-envoir-gateway at your service\r\n250 STARTTLS\r\n".to_string())
    );
    assert!(matches!(c.on_line(&mut gw, b"MAIL FROM:<bob@gmail.com>"), ConnAction::Send(_)));
    assert_eq!(
        c.on_line(&mut gw, b"STARTTLS"),
        ConnAction::StartTls("220 2.0.0 ready to start TLS\r\n".to_string())
    );
    // The sender named in the clear is forgotten.
    assert_eq!(
        c.on_line(&mut gw, b"RCPT TO:<alice@host.net>"),
        ConnAction::Send("503 5.5.1 need MAIL before RCPT\r\n".to_string())
    );
    assert_eq!(
        c.on_line(&mut gw, b"STARTTLS"),
        ConnAction::Send("503 5.5.1 already secured\r\n".to_string())
    );
    assert_eq!(
        c.on_line(&mut gw, b"EHLO x"),
        ConnAction::Send("250 envoir-gateway at your service\r\n".to_string())
    );
    assert_eq!(c.on_line(&mut gw, b"QUIT"), ConnAction::Close("221 2.0.0 bye\r\n".to_string()));
    assert_eq!(c.timed_out(), "421 4.4.2 transaction timed out, closing connection\r\n");

    let mut plain = MxConnection::new("203.0.113.7", NOW, false);
    assert_eq!(
        plain.on_line(&mut gw, b"STARTTLS"),
        ConnAction::Send("502 5.5.1 STARTTLS not available\r\n".to_string())
    );
}

#[test]
fn lines_of_a_message_are_not_answered() {
    let mut gw = gateway(Inbox::new());
    let mut c = MxConnection::new("203.0.113.7", NOW, false);
    for line in ["MAIL FROM:<bob@gmail.com>", "RCPT TO:<alice@host.net>", "DATA"] {
        assert!(matches!(c.on_line(&mut gw, line.as_bytes()), ConnAction::Send(_)));
    }
    // A command inside a message is a line of the message.
    assert_eq!(c.on_line(&mut gw, b"STARTTLS"), ConnAction::Wait);
    assert_eq!(c.on_line(&mut gw, b"QUIT"), ConnAction::Wait);
    assert_eq!(
        c.on_line(&mut gw, b"."),
        ConnAction::Send("250 2.6.0 message durably accepted\r\n".to_string())
    );
}

#[test]
fn a_message_of_octets_that_are_no_text_is_kept() {
    let inbox = Inbox::new();
    let mut gw = gateway(inbox.clone());
    let mut s = MxSession::new("203.0.113.7", NOW);
    say(&mut s, &mut gw, "MAIL FROM:<bob@gmail.com>");
    say(&mut s, &mut gw, "RCPT TO:<alice@host.net>");
    say(&mut s, &mut gw, "DATA");
    assert_eq!(s.feed_line_bytes(&mut gw, &[0xff, 0xfe]).code, 0);
    assert_eq!(s.feed_line_bytes(&mut gw, b".").code, 250);
}

#[test]
fn keys_of_own_domains_are_the_gateways_own() {
    let gw = InboundGateway::for_own_domains(
        IdentityKey::from_seed(&[9u8; 32]),
        &[("a.net", "s1"), ("b.net", "s2")],
        InMemoryDirectory::new(),
        NullMesh,
        AllowAllAbuse,
    );
    let domains: Vec<&str> = gw.attest_keys.iter().map(AttestationKey::domain).collect();
    assert_eq!(domains, ["a.net", "b.net"]);
    assert!(gw.attest_keys.iter().all(|k| k.public() == gw.ik.public()));
}

#[test]
fn policies_decide_on_what_was_evaluated() {
    let gw = gateway(NullMesh).with_spf(Spf(SpfResult::Fail), SpfPolicy::Enforce);
    let outcome = gw.evaluate_spf("203.0.113.7", "bob@gmail.com", None);
    assert_eq!(outcome.result, SpfResult::Fail);
    assert_eq!(gw.spf_gate(&outcome).map(|r| r.code), Some(550));
    assert_eq!(gw.spf_gate(&SpfOutcome::unevaluated()), None);
    assert_eq!(gateway(NullMesh).evaluate_spf("x", "y", None), SpfOutcome::unevaluated());

    let gw = gateway(NullMesh).with_dmarc(Dmarc(DmarcVerdict::Pass), DmarcHandling::Enforce);
    let verdict = gw.evaluate_dmarc(MSG, None, "bob@gmail.com");
    assert_eq!(verdict, DmarcVerdict::Pass);
    assert_eq!(gw.dmarc_gate(verdict), None);
    let quarantine = DmarcVerdict::Fail { disposition: DmarcDisposition::Quarantine };
    assert_eq!(gw.dmarc_gate(quarantine), None);
    assert_eq!(gw.rcpt_acceptable("alice@host.net"), None);
    assert_eq!(gw.rcpt_acceptable("alice").map(|r| r.code), Some(501));
}

/// A mesh that counts and never acknowledges.
#[derive(Clone)]
struct Deaf(Rc<RefCell<usize>>);

impl MeshDelivery for Deaf {
    fn deliver(&mut self, _: &SealedMote, _: &Attestation) -> DeliveryOutcome {
        *self.0.borrow_mut() += 1;
        DeliveryOutcome::NoAck
    }
}

#[test]
fn a_message_is_delivered_once_or_not_at_all() {
    let calls = Rc::new(RefCell::new(0));
    let mut gw = gateway(Deaf(calls.clone()));
    // No address, nobody known, no key: nothing is delivered.
    assert_eq!(gw.accept_message("b@x", "alice", MSG, NOW).code, 550);
    assert_eq!(gw.accept_message("b@x", "carol@host.net", MSG, NOW).code, 550);
    assert_eq!(*calls.borrow(), 0);
    // Delivered, not acknowledged.
    assert_eq!(gw.accept_message("b@x", "alice@host.net", MSG, NOW).code, 451);
    assert_eq!(*calls.borrow(), 1);

    // A policy refuses before delivery.
    let reject = DmarcVerdict::Fail { disposition: DmarcDisposition::Reject };
    let mut strict = gateway(Deaf(calls.clone())).with_dmarc(Dmarc(reject), DmarcHandling::Enforce);
    assert_eq!(strict.accept_message("b@x", "alice@host.net", MSG, NOW).code, 550);
    assert_eq!(*calls.borrow(), 1);

    let mut none: Plain<Deaf> = InboundGateway::new(
        IdentityKey::from_seed(&[1u8; 32]),
        Vec::new(),
        directory(),
        Deaf(calls.clone()),
        AllowAllAbuse,
    );
    assert_eq!(none.accept_message("b@x", "alice@host.net", MSG, NOW).code, 451);
    assert_eq!(*calls.borrow(), 1);
}

/// Accepts everybody and counts.
struct Counting(Rc<RefCell<Vec<String>>>);

impl AntiAbuse for Counting {
    fn check(&mut self, ip: &str, from: &str) -> AbuseDecision {
        self.0.borrow_mut().push(format!("{ip} {from}"));
        AbuseDecision::Accept
    }
}

#[test]
fn only_a_named_sender_is_checked_and_only_a_whole_message_is_delivered() {
    let seen = Rc::new(RefCell::new(Vec::new()));
    let inbox = Inbox::new();
    let mut gw = InboundGateway::for_own_domains(
        IdentityKey::from_seed(&[1u8; 32]),
        &[("host.net", "gw1")],
        directory(),
        inbox.clone(),
        Counting(seen.clone()),
    );
    let mut c = MxConnection::new("203.0.113.7", NOW, false);
    for line in ["EHLO x", "NOOP", "MAIL bob", "STARTTLS", "RSET", "DATA"] {
        c.on_line(&mut gw, line.as_bytes());
    }
    assert!(seen.borrow().is_empty());
    c.on_line(&mut gw, b"MAIL FROM:<bob@gmail.com>");
    assert_eq!(*seen.borrow(), vec!["203.0.113.7 <bob@gmail.com>".to_string()]);
    c.on_line(&mut gw, b"RCPT TO:<alice@host.net>");
    c.on_line(&mut gw, b"DATA");
    // A line of the message that looks like a command is none.
    c.on_line(&mut gw, b"MAIL FROM:<eve@gmail.com>");
    assert_eq!(seen.borrow().len(), 1);
    assert!(inbox.0.borrow().is_empty());
    c.on_line(&mut gw, b".");
    assert_eq!(inbox.0.borrow().len(), 1);
}

#[test]
fn sealing_fails_for_want_of_a_seed_or_of_a_key() {
    let gw = gateway(NullMesh);
    assert!(gw.wrap_with("b@x", "alice@host.net", MSG, NOW, Some(&[9u8; 32])).is_ok());
    assert_eq!(
        gw.wrap_with("b@x", "alice@host.net", MSG, NOW, None).err(),
        Some(InboundError::SealFailed)
    );
    for seal_pub in [vec![1u8; 31], vec![0u8; 32]] {
        let d = InMemoryDirectory::new().with_recipient(
            "alice@host.net",
            RecipientKey { ik: IdentityKey::from_seed(&[7u8; 32]).public(), seal_pub },
        );
        let gw = InboundGateway::for_own_domains(
            IdentityKey::from_seed(&[1u8; 32]),
            &[("host.net", "gw1")],
            d,
            NullMesh,
            AllowAllAbuse,
        );
        assert_eq!(
            gw.wrap_with("b@x", "alice@host.net", MSG, NOW, Some(&[9u8; 32])).err(),
            Some(InboundError::SealFailed)
        );
    }
}

/// Trusts those that call themselves by one name.
struct ByName;

impl SpfEvaluator for ByName {
    fn evaluate(&self, _: &str, _: &str, helo: Option<&str>) -> SpfOutcome {
        let result = if helo == Some("mx.gmail.com") { SpfResult::Pass } else { SpfResult::Fail };
        SpfOutcome { result }
    }
}

#[test]
fn a_connection_keeps_what_the_peer_calls_itself() {
    let mut gw = gateway(NullMesh).with_spf(ByName, SpfPolicy::Enforce);
    let mut c = MxConnection::new("203.0.113.7", NOW, true);
    c.on_line(&mut gw, b"EHLO mx.gmail.com");
    assert_eq!(
        c.on_line(&mut gw, b"MAIL FROM:<>"),
        ConnAction::Send("250 2.1.0 sender ok\r\n".to_string())
    );
    // A name given in the clear does not count under TLS.
    assert!(matches!(c.on_line(&mut gw, b"STARTTLS"), ConnAction::StartTls(_)));
    assert!(matches!(c.on_line(&mut gw, b"MAIL FROM:<>"), ConnAction::Send(t) if t.starts_with("550")));
    c.on_line(&mut gw, b"HELO mx.gmail.com");
    assert!(matches!(c.on_line(&mut gw, b"MAIL FROM:<>"), ConnAction::Send(t) if t.starts_with("250")));
}

#[test]
fn a_message_begins_however_its_command_is_written() {
    let mut gw = gateway(Inbox::new());
    let mut c = MxConnection::new("203.0.113.7", NOW, false);
    for line in ["MAIL FROM:<bob@gmail.com>", "RCPT TO:<alice@host.net>", "data\t"] {
        assert!(matches!(c.on_line(&mut gw, line.as_bytes()), ConnAction::Send(_)));
    }
    assert_eq!(c.on_line(&mut gw, b"QUIT"), ConnAction::Wait);
    assert!(matches!(c.on_line(&mut gw, b"."), ConnAction::Send(t) if t.starts_with("250")));
    assert!(matches!(c.on_line(&mut gw, b"QUIT"), ConnAction::Close(_)));
}

#[test]
fn spf_is_not_evaluated_for_what_is_no_address() {
    let gw = gateway(NullMesh).with_spf(Spf(SpfResult::Fail), SpfPolicy::Enforce);
    for ip in ["203.0.113.7", " 203.0.113.7\t", "2001:db8::1", "::ffff:192.0.2.1"] {
        assert_eq!(gw.evaluate_spf(ip, "bob@gmail.com", None).result, SpfResult::Fail);
    }
    for ip in ["", "peer", "203.0.113", "203.0.113.256", "203.0.113.7:25", "fe80::1%eth0"] {
        assert_eq!(gw.evaluate_spf(ip, "bob@gmail.com", None).result, SpfResult::NoPolicy);
    }
    let bare = gateway(NullMesh);
    assert_eq!(bare.evaluate_spf("203.0.113.7", "bob@gmail.com", None).result, SpfResult::NoPolicy);
}
