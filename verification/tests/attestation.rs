use kotva_core::identity::verify_domain;
use std::sync::Arc;
use wakala::attestation::{
    Attestation, AttestationError, AttestationKey, GwKeyResolver, StaticGwKeys,
};
use wakala::identity::{ContentId, IdentityError, IdentityKey};

fn sample() -> (AttestationKey, Attestation, ContentId) {
    let key = AttestationKey::new("example.org", "gw1", IdentityKey::from_seed(&[5u8; 32]));
    let id = ContentId::of(b"a message");
    let att = key.attest(&id, "sender@gmail.com", "alice@example.org", 1_752_600_000_000);
    (key, att, id)
}

#[test]
fn an_attestation_is_accepted_under_the_published_key() {
    let (key, att, id) = sample();
    let keys = StaticGwKeys::new().publish("example.org", "gw1", key.public());
    let published = keys.resolve_gw_key("example.org", "gw1");
    assert_eq!(att.verify("example.org", published.as_deref(), &id), Ok(()));
    assert_eq!((key.domain(), key.selector()), ("example.org", "gw1"));
    assert_eq!(keys.resolve_gw_key("example.org", "gw2"), None);
}

#[test]
fn every_doubt_refuses_an_attestation() {
    let (key, att, id) = sample();
    let published = key.public();
    assert_eq!(
        att.verify("other.org", Some(&published), &id),
        Err(AttestationError::WrongDomain)
    );
    assert_eq!(att.verify("example.org", None, &id), Err(AttestationError::NoPublishedKey));
    let other = IdentityKey::from_seed(&[6u8; 32]).public();
    assert_eq!(att.verify("example.org", Some(&other), &id), Err(AttestationError::KeyMismatch));
    assert_eq!(
        att.verify("example.org", Some(&published), &ContentId::of(b"another")),
        Err(AttestationError::MoteMismatch)
    );
    let (_, mut forged, _) = sample();
    forged.smtp_mail_from = "ceo@bank.example".to_string();
    assert_eq!(
        forged.verify("example.org", Some(&published), &id),
        Err(AttestationError::BadSignature(IdentityError::BadSignature))
    );
    let (_, mut short, _) = sample();
    short.sig = vec![1, 2, 3];
    assert_eq!(
        short.verify("example.org", Some(&published), &id),
        Err(AttestationError::BadSignature(IdentityError::BadKeyLength))
    );
}

#[test]
fn nothing_moves_from_one_field_to_another() {
    let (_, a, _) = sample();
    let (_, mut b, _) = sample();
    b.smtp_mail_from = "sender@gmail.comalice".to_string();
    b.smtp_rcpt_to = "@example.org".to_string();
    assert_ne!(a.signing_body(), b.signing_body());
}

#[test]
fn a_shared_key_attests_for_several_domains() {
    let ik = Arc::new(IdentityKey::from_seed(&[8u8; 32]));
    let a = AttestationKey::sharing("a.net", "s", ik.clone());
    let b = AttestationKey::sharing("b.net", "s", ik.clone());
    assert_eq!(a.public(), b.public());
    assert_eq!(a.public(), ik.public());
}

#[test]
fn a_key_signs_under_a_label_of_choice() {
    let (key, att, _) = sample();
    let sig = key.sign_ds(b"label\x00", b"octets");
    assert!(verify_domain(&key.public(), b"label\x00", b"octets", &sig).is_ok());
    assert!(verify_domain(&key.public(), b"other\x00", b"octets", &sig).is_err());
    assert!(verify_domain(&key.public(), b"label\x00", b"others", &sig).is_err());
    let label = b"DMTAP-v0/gateway-attestation\x00";
    assert_eq!(key.sign_ds(label, &att.signing_body()), att.sig);
}
