use wakala::abuse::{Clock, SystemClock};
use wakala::cbor;
use wakala::cbor::{CborError, Value};
use wakala::descriptor::{
    require_supported_suite, Cbor, Descriptor, DescriptorError, SignedDescriptor, Tariff, UsageReceipt,
    DESCRIPTOR_DS,
};
use wakala::identity::IdentityKey;
use wakala::kinds::CoordinatorKind;
use wakala::visibility::{AssuranceLevel, ContentVisibility, VisibilityClass};

fn ik(seed: u8) -> IdentityKey {
    IdentityKey::from_seed(&[seed; 32])
}

fn descriptor(identity: Vec<u8>) -> Descriptor {
    Descriptor {
        identity,
        kind: CoordinatorKind::Relay,
        visibility: ContentVisibility::new(VisibilityClass::Blind, AssuranceLevel::ByConstruction),
        policy: Cbor::empty(),
        tariff: None,
    }
}

/// The canonical octets of an object, and its pairs again.
fn body_of(pairs: Vec<(u64, Value)>) -> (Vec<(u64, Value)>, Vec<u8>) {
    let whole = Value::IntMap(pairs);
    let body = cbor::encode(&whole);
    match whole {
        Value::IntMap(pairs) => (pairs, body),
        _ => unreachable!(),
    }
}

#[test]
fn descriptor_signs_and_verifies() {
    let key = ik(1);
    let d = descriptor(key.public());
    let signed = d.sign(&key);
    assert!(signed.verify().is_ok());
}

#[test]
fn tampered_descriptor_fails_verification() {
    let key = ik(2);
    let d = descriptor(key.public());
    let mut signed = d.sign(&key);
    signed.descriptor.policy = Cbor(vec![0xaa]);
    assert!(signed.verify().is_err());
}

#[test]
fn tampered_signature_bytes_fail_verification() {
    let key = ik(3);
    let d = descriptor(key.public());
    let mut signed = d.sign(&key);
    signed.sig[0] ^= 0xff;
    assert!(signed.verify().is_err());
}

#[test]
fn signature_does_not_verify_under_a_different_identity() {
    let signer = ik(4);
    let other = ik(5);
    let d = descriptor(other.public());
    let signed = d.sign(&signer);
    assert!(signed.verify().is_err());
}

#[test]
fn descriptor_round_trips_through_det_cbor() {
    let key = ik(6);
    let mut d = descriptor(key.public());
    d.tariff = Some(Tariff::sign(Cbor::from_cv(&Value::U64(42)), &key));
    let signed = d.sign(&key);
    let bytes = signed.det_cbor();
    let decoded = SignedDescriptor::from_det_cbor(&bytes).expect("verified round trip");
    assert_eq!(decoded.descriptor.identity, signed.descriptor.identity);
    assert_eq!(decoded.sig, signed.sig);
}

#[test]
fn tariff_signs_and_verifies_and_detects_tamper() {
    let key = ik(7);
    let t = Tariff::sign(Cbor::from_cv(&Value::Text("1 unit = $0.001".into())), &key);
    assert!(t.verify().is_ok());
    let mut tampered = t.clone();
    tampered.schedule = Cbor(vec![0x01]);
    assert!(tampered.verify().is_err());
}

#[test]
fn usage_receipt_signs_and_verifies_and_detects_tamper() {
    let key = ik(8);
    let r = UsageReceipt::sign(Cbor::from_cv(&Value::U64(7)), &key);
    assert!(r.verify().is_ok());
    let mut tampered = r.clone();
    tampered.operation = Cbor(vec![0x02]);
    assert!(tampered.verify().is_err());
}

#[test]
fn declared_level_blind_claim_is_still_surfaced_as_unverified() {
    let key = ik(9);
    let mut d = descriptor(key.public());
    d.visibility = ContentVisibility::new(VisibilityClass::BlindRouting, AssuranceLevel::Declared);
    let signed = d.sign(&key);
    assert!(signed.verify().is_ok(), "the signature itself is genuinely valid");
    assert!(
        signed.descriptor.visibility.must_not_present_as_verified(),
        "a declared-level blind claim must still not be shown as verified, even though the \
         descriptor carrying it is authentically signed"
    );
    assert!(!signed.descriptor.visibility.is_verifiably_blind());
}

const OLD_DESCRIPTOR_DS: &[u8] = b"EPHOR-v0/coordinator-descriptor\x00";
const OLD_TARIFF_DS: &[u8] = b"EPHOR-v0/tariff\x00";
const OLD_USAGE_RECEIPT_DS: &[u8] = b"EPHOR-v0/usage-receipt\x00";

#[test]
fn old_layout_descriptor_bytes_do_not_verify_under_new_code() {
    let key = ik(10);
    let old_body = Value::IntMap(vec![
        (1u64, Value::Text("relay".to_string())),
        (2, Value::Bytes(key.public())),
        (
            3,
            Value::IntMap(vec![
                (1, Value::Text("blind".to_string())),
                (2, Value::Text("structural".to_string())),
            ]),
        ),
        (4, Value::Bytes(Vec::new())),
    ]);
    let old_sig = key.sign_domain(OLD_DESCRIPTOR_DS, &cbor::encode(&old_body));
    let mut wire = match old_body {
        Value::IntMap(m) => m,
        _ => unreachable!(),
    };
    wire.push((6, Value::Bytes(old_sig)));
    let old_wire_bytes = cbor::encode(&Value::IntMap(wire));

    let result = SignedDescriptor::from_det_cbor(&old_wire_bytes);
    assert!(
        result.is_err(),
        "an old-layout descriptor must not verify under the new decoder"
    );
}

#[test]
fn old_layout_tariff_does_not_verify_under_new_code() {
    let key = ik(11);
    let schedule = Cbor::from_cv(&Value::Text("old schedule".into()));
    let old_body = cbor::encode(&Value::IntMap(vec![
        (1u64, Value::Bytes(key.public())),
        (2, Value::Bytes(schedule.0.clone())),
    ]));
    let old_sig = key.sign_domain(OLD_TARIFF_DS, &old_body);
    let old_style_tariff = Tariff {
        identity: key.public(),
        schedule,
        valid_until: None,
        sig: old_sig,
    };
    assert!(
        old_style_tariff.verify().is_err(),
        "an old-layout tariff signature must not verify under the new preimage/DS-tag"
    );
}

#[test]
fn old_layout_usage_receipt_does_not_verify_under_new_code() {
    let key = ik(12);
    let operation = Cbor::from_cv(&Value::U64(99));
    let old_body = cbor::encode(&Value::IntMap(vec![
        (1u64, Value::Bytes(key.public())),
        (2, Value::Bytes(operation.0.clone())),
    ]));
    let old_sig = key.sign_domain(OLD_USAGE_RECEIPT_DS, &old_body);
    let old_style_receipt = UsageReceipt {
        identity: key.public(),
        operation,
        sig: old_sig,
    };
    assert!(
        old_style_receipt.verify().is_err(),
        "an old-layout usage receipt signature must not verify under the new preimage/DS-tag"
    );
}

#[test]
fn descriptor_missing_suite_is_rejected() {
    let key = ik(13);
    let body = Value::IntMap(vec![
        (2u64, Value::Text("relay".to_string())),
        (3, Value::Bytes(key.public())),
        (
            4,
            Value::IntMap(vec![
                (1, Value::Text("blind".to_string())),
                (2, Value::Text("structural".to_string())),
            ]),
        ),
        (5, Value::Bytes(Vec::new())),
    ]);
    let mut wire = match body {
        Value::IntMap(m) => m,
        _ => unreachable!(),
    };
    wire.push((7, Value::Bytes(vec![0u8; 64])));
    let bytes = cbor::encode(&Value::IntMap(wire));
    let err = SignedDescriptor::from_det_cbor(&bytes).expect_err("absent suite must reject");
    assert!(matches!(err, DescriptorError::BadEncoding(_)));
}

#[test]
fn descriptor_unsupported_suite_is_rejected() {
    let key = ik(14);
    let d = descriptor(key.public());
    let mut m = match d.to_cv() {
        Value::IntMap(m) => m,
        _ => unreachable!(),
    };
    m[0] = (1, Value::U64(0x02));
    let (mut m, tampered_body) = body_of(m);
    let sig = key.sign_domain(DESCRIPTOR_DS.as_bytes(), &tampered_body);
    m.push((7, Value::Bytes(sig)));
    let bytes = cbor::encode(&Value::IntMap(m));
    let err = SignedDescriptor::from_det_cbor(&bytes).expect_err("suite 0x02 must reject");
    assert!(matches!(err, DescriptorError::UnsupportedSuite(0x02)));
}

#[test]
fn descriptor_unrecognized_suite_byte_is_rejected() {
    let key = ik(15);
    let d = descriptor(key.public());
    let mut m = match d.to_cv() {
        Value::IntMap(m) => m,
        _ => unreachable!(),
    };
    m[0] = (1, Value::U64(0xfe));
    let (mut m, tampered_body) = body_of(m);
    let sig = key.sign_domain(DESCRIPTOR_DS.as_bytes(), &tampered_body);
    m.push((7, Value::Bytes(sig)));
    let bytes = cbor::encode(&Value::IntMap(m));
    let err = SignedDescriptor::from_det_cbor(&bytes).expect_err("suite 0xfe must reject");
    assert!(matches!(err, DescriptorError::UnsupportedSuite(0xfe)));
}

#[test]
fn descriptor_unknown_map_key_is_rejected() {
    let key = ik(16);
    let d = descriptor(key.public());
    let mut m = match d.to_cv() {
        Value::IntMap(m) => m,
        _ => unreachable!(),
    };
    m.push((99, Value::U64(1)));
    let (mut m, tampered_body) = body_of(m);
    let sig = key.sign_domain(DESCRIPTOR_DS.as_bytes(), &tampered_body);
    m.push((7, Value::Bytes(sig)));
    let bytes = cbor::encode(&Value::IntMap(m));
    let err = SignedDescriptor::from_det_cbor(&bytes).expect_err("unknown key must reject");
    assert!(matches!(err, DescriptorError::BadEncoding(CborError::UnknownKey(99))));
}

#[test]
fn tariff_missing_suite_is_rejected() {
    let key = ik(17);
    let body = Value::IntMap(vec![
        (2u64, Value::Bytes(key.public())),
        (3, Value::Bytes(vec![0xaa])),
    ]);
    let mut wire = match body {
        Value::IntMap(m) => m,
        _ => unreachable!(),
    };
    wire.push((5, Value::Bytes(vec![0u8; 64])));
    let cv = Value::IntMap(wire);
    let err = Tariff::from_cv(cv).expect_err("absent suite must reject");
    assert!(matches!(err, DescriptorError::BadEncoding(_)));
}

#[test]
fn tariff_unsupported_suite_is_rejected() {
    let key = ik(18);
    let t = Tariff::sign(Cbor::from_cv(&Value::Text("x".into())), &key);
    let mut m = match t.to_cv() {
        Value::IntMap(m) => m,
        _ => unreachable!(),
    };
    m[0] = (1, Value::U64(0x02));
    let cv = Value::IntMap(m);
    let err = Tariff::from_cv(cv).expect_err("suite 0x02 tariff must reject");
    assert!(matches!(err, DescriptorError::UnsupportedSuite(0x02)));
}

#[test]
fn usage_receipt_unsupported_suite_is_rejected_at_the_wire_level() {
    let err = require_supported_suite(Value::U64(0x02)).expect_err("suite 0x02 must reject");
    assert!(matches!(err, DescriptorError::UnsupportedSuite(0x02)));
    let err2 = require_supported_suite(Value::U64(0x01));
    assert!(err2.is_ok(), "suite 0x01 (classical) must be accepted");
}

#[test]
fn tariff_valid_until_absent_means_no_expiry() {
    let key = ik(19);
    let t = Tariff::sign(Cbor::from_cv(&Value::Text("no expiry".into())), &key);
    assert_eq!(t.valid_until, None);
    assert!(t.verify().is_ok(), "absent valid_until must never expire");
}

#[test]
fn tariff_valid_until_in_the_past_is_expired_and_fails_closed() {
    let key = ik(20);
    let long_ago: u64 = 1_000; // 1970-01-01T00:00:01Z — long past for any real clock.
    let t = Tariff::sign_with_validity(
        Cbor::from_cv(&Value::Text("expired".into())),
        Some(long_ago),
        &key,
    );
    let err = t.verify().expect_err("a tariff past its valid_until must fail closed");
    assert!(matches!(err, DescriptorError::Expired { valid_until: 1_000, .. }));
}

#[test]
fn tariff_valid_until_in_the_future_still_verifies() {
    let key = ik(21);
    let far_future: u64 = SystemClock.now_ms() + 1_000 * 60 * 60 * 24 * 365 * 50; // +50 years
    let t = Tariff::sign_with_validity(
        Cbor::from_cv(&Value::Text("not yet expired".into())),
        Some(far_future),
        &key,
    );
    assert!(t.verify().is_ok());
}

#[test]
fn tariff_verifies_standalone_against_its_own_identity_not_the_enclosing_descriptor() {
    let tariff_signer = ik(22);
    let descriptor_signer = ik(23);
    let tariff = Tariff::sign(Cbor::from_cv(&Value::Text("2 USD/GB".into())), &tariff_signer);

    let mut d = descriptor(descriptor_signer.public());
    d.tariff = Some(tariff.clone());
    let signed = d.sign(&descriptor_signer);

    assert!(signed.verify().is_ok());
    assert!(signed.descriptor.tariff.as_ref().unwrap().verify().is_ok());
    assert_ne!(
        signed.descriptor.tariff.as_ref().unwrap().identity,
        signed.descriptor.identity,
        "sanity: the tariff and descriptor really are signed by different identities here"
    );
    assert!(tariff.verify().is_ok());
}

#[test]
fn usage_receipt_verifies_standalone_against_its_own_identity() {
    let receipt_signer = ik(24);
    let r = UsageReceipt::sign(Cbor::from_cv(&Value::U64(123)), &receipt_signer);
    assert_eq!(r.identity, receipt_signer.public());
    assert!(r.verify().is_ok());
    let other = ik(25);
    let mut forged = r.clone();
    forged.identity = other.public();
    assert!(forged.verify().is_err());
}
