use wakala::authz::{
    key_fingerprint, random_nonce, AdmissionError, AuthzMode, Challenge, GatewayMode, IdentityRegistry,
    RegisteredIdentity, ADMISSION_DS,
};
use wakala::base32::base32_lower;
use wakala::identity::IdentityKey;
use wakala::provenance::{
    AuthzDecision, BridgeDirection, CountingMeter, GatewayAuthz, GatewayMeter, MeterEvent,
    StaticGatewayAuthz,
};
use wakala::quota::{Quota, QuotaError, QuotaLedger};
use wakala::vanity::{
    is_key_derived_form, is_valid_vanity_charset, key_derived_localpart, AliasAllocator, AliasError,
};

fn signed_answer(key: &IdentityKey, challenge: &Challenge) -> Vec<u8> {
    key.sign_domain(ADMISSION_DS.as_bytes(), &challenge.signing_body())
}

#[test]
fn key_registered_admits_a_valid_registered_key_and_rejects_a_forgery() {
    let alice = IdentityKey::generate().unwrap();
    let mut reg = IdentityRegistry::key_registered().register(RegisteredIdentity {
        public_key: alice.public(),
        account: "acct-alice".into(),
        domain: "alice.host.net".into(),
        quota: Quota::messages(100, 1000),
    });
    let ch = reg.issue_challenge([7u8; 32], 1_000_000);

    let sig = signed_answer(&alice, &ch);
    let adm = reg.admit_sender(&ch, &alice.public(), &sig, 1_000_100).expect("admitted");
    assert_eq!(adm.account, "acct-alice");
    assert_eq!(adm.domain, "alice.host.net");

    let mallory = IdentityKey::generate().unwrap();
    let forged = signed_answer(&mallory, &ch);
    assert_eq!(
        reg.admit_sender(&ch, &alice.public(), &forged, 1_000_100),
        Err(AdmissionError::BadSignature)
    );

    let sig_m = signed_answer(&mallory, &ch);
    assert_eq!(
        reg.admit_sender(&ch, &mallory.public(), &sig_m, 1_000_100),
        Err(AdmissionError::UnknownKey)
    );
}

#[test]
fn admission_challenge_expiry_is_enforced_fail_closed() {
    let alice = IdentityKey::generate().unwrap();
    let mut reg = IdentityRegistry::key_registered().with_challenge_ttl(60_000).register(
        RegisteredIdentity {
            public_key: alice.public(),
            account: "a".into(),
            domain: "a.net".into(),
            quota: Quota::messages(10, 10),
        },
    );
    let ch = reg.issue_challenge([1u8; 32], 1_000_000);
    let sig = signed_answer(&alice, &ch);

    assert!(reg.admit_sender(&ch, &alice.public(), &sig, 1_030_000).is_ok());
    assert_eq!(
        reg.admit_sender(&ch, &alice.public(), &sig, 1_000_000 + 60_001),
        Err(AdmissionError::ChallengeExpired)
    );
    assert_eq!(
        reg.admit_sender(&ch, &alice.public(), &sig, 999_999),
        Err(AdmissionError::ChallengeExpired)
    );
}

#[test]
fn admission_nonce_is_single_use_replay_and_forged_nonce_rejected() {
    let alice = IdentityKey::generate().unwrap();
    let mut reg = IdentityRegistry::key_registered().register(RegisteredIdentity {
        public_key: alice.public(),
        account: "acct-alice".into(),
        domain: "alice.net".into(),
        quota: Quota::messages(10, 10),
    });

    let ch = reg.issue_challenge([42u8; 32], 1_000_000);
    let sig = signed_answer(&alice, &ch);
    assert!(
        reg.admit_sender(&ch, &alice.public(), &sig, 1_000_100).is_ok(),
        "a fresh issued nonce is admitted once",
    );

    assert_eq!(
        reg.admit_sender(&ch, &alice.public(), &sig, 1_000_200),
        Err(AdmissionError::UnknownOrConsumedChallenge),
        "a captured admission tuple cannot be replayed",
    );

    let never_issued = Challenge::new([99u8; 32], 1_000_000);
    let ni_sig = signed_answer(&alice, &never_issued);
    assert_eq!(
        reg.admit_sender(&never_issued, &alice.public(), &ni_sig, 1_000_100),
        Err(AdmissionError::UnknownOrConsumedChallenge),
        "a never-issued nonce is not admissible",
    );

    let ch2 = reg.issue_challenge([43u8; 32], 1_000_300);
    let sig2 = signed_answer(&alice, &ch2);
    assert!(
        reg.admit_sender(&ch2, &alice.public(), &sig2, 1_000_400).is_ok(),
        "a newly issued nonce admits",
    );
}

#[test]
fn admission_rejects_a_mismatched_issued_at_even_with_a_valid_signature() {
    let alice = IdentityKey::generate().unwrap();
    let mut reg = IdentityRegistry::key_registered().register(RegisteredIdentity {
        public_key: alice.public(),
        account: "acct-alice".into(),
        domain: "alice.net".into(),
        quota: Quota::messages(10, 10),
    });

    let issued = reg.issue_challenge([55u8; 32], 1_000_000);

    let tampered = Challenge::new(issued.nonce, 1_000_050);
    let sig = signed_answer(&alice, &tampered);
    assert_eq!(
        reg.admit_sender(&tampered, &alice.public(), &sig, 1_000_100),
        Err(AdmissionError::UnknownOrConsumedChallenge),
        "a nonce presented with an issued_at that differs from the recorded one is refused",
    );

    let sig_ok = signed_answer(&alice, &issued);
    assert!(
        reg.admit_sender(&issued, &alice.public(), &sig_ok, 1_000_100).is_ok(),
        "the correctly-timed challenge for the same nonce still admits (mismatch didn't burn it)",
    );
}

#[test]
fn a_forged_signature_does_not_consume_a_live_nonce() {
    let alice = IdentityKey::generate().unwrap();
    let mut reg = IdentityRegistry::key_registered().register(RegisteredIdentity {
        public_key: alice.public(),
        account: "acct-alice".into(),
        domain: "alice.net".into(),
        quota: Quota::messages(10, 10),
    });
    let ch = reg.issue_challenge([7u8; 32], 1_000_000);
    let mallory = IdentityKey::generate().unwrap();
    let forged = signed_answer(&mallory, &ch);
    assert_eq!(
        reg.admit_sender(&ch, &alice.public(), &forged, 1_000_100),
        Err(AdmissionError::BadSignature),
    );
    let sig = signed_answer(&alice, &ch);
    assert!(reg.admit_sender(&ch, &alice.public(), &sig, 1_000_100).is_ok());
}

#[test]
fn anon_fingerprint_is_at_least_80_bits_wide() {
    let a = IdentityKey::generate().unwrap();
    let b = IdentityKey::generate().unwrap();
    let fa = key_fingerprint(&a.public());
    let fb = key_fingerprint(&b.public());
    assert_eq!(fa.len(), 16, "fingerprint encodes >=10 bytes (80 bits), not 48");
    assert_ne!(fa, fb, "distinct keys get distinct anon labels");
}

#[test]
fn open_public_admits_any_key_controller_but_is_the_non_default() {
    assert_eq!(AuthzMode::default(), AuthzMode::KeyRegistered);
    let mut reg = IdentityRegistry::open_public();
    let bob = IdentityKey::generate().unwrap();
    let ch = reg.issue_challenge([9u8; 32], 5_000);
    let sig = signed_answer(&bob, &ch);
    let adm = reg.admit_sender(&ch, &bob.public(), &sig, 5_050).expect("open relay admits any proof");
    assert!(adm.account.starts_with("anon:"));
    let evil = IdentityKey::generate().unwrap();
    let forged = signed_answer(&evil, &ch);
    assert_eq!(
        reg.admit_sender(&ch, &bob.public(), &forged, 5_050),
        Err(AdmissionError::BadSignature)
    );
}

#[test]
fn registry_is_a_gateway_authz_gate() {
    let alice = IdentityKey::generate().unwrap();
    let reg = IdentityRegistry::key_registered().register(RegisteredIdentity {
        public_key: alice.public(),
        account: "acct-alice".into(),
        domain: "alice.net".into(),
        quota: Quota::messages(10, 10),
    });
    assert_eq!(
        reg.authorize(BridgeDirection::Outbound, "alice.net"),
        AuthzDecision::Allowed { account: "acct-alice".into() }
    );
    assert!(matches!(
        reg.authorize(BridgeDirection::Outbound, "stranger.net"),
        AuthzDecision::Denied { .. }
    ));
}

#[test]
fn quota_refuses_past_the_cap_and_meters_only_admitted_charges() {
    let mut meter = CountingMeter::new();
    let mut ledger = QuotaLedger::new().set_quota("acct", Quota::messages(1, 2));
    let rfc = b"From: a@x.net\r\nTo: b@y.com\r\n\r\nhi\r\n";

    ledger
        .charge_and_meter("acct", "x.net", BridgeDirection::Outbound, rfc, 10, &mut meter)
        .unwrap();
    let u2 = ledger
        .charge_and_meter("acct", "x.net", BridgeDirection::Outbound, rfc, 20, &mut meter)
        .unwrap();
    assert_eq!(u2.messages, 2);
    assert!(u2.over_free_allowance(&Quota::messages(1, 2)), "past the free allowance of 1");
    assert_eq!(meter.count(), 2);

    let denied =
        ledger.charge_and_meter("acct", "x.net", BridgeDirection::Outbound, rfc, 5, &mut meter);
    assert_eq!(denied, Err(QuotaError::MessageCapExceeded("acct".into(), 2)));
    assert_eq!(ledger.usage("acct").messages, 2, "refused charge did not advance usage");
    assert_eq!(meter.count(), 2, "refused charge did not meter");
}

#[test]
fn quota_enforces_the_byte_volume_cap() {
    let mut meter = CountingMeter::new();
    let mut ledger = QuotaLedger::new().set_quota("acct", Quota::new(100, 100, 50, 100));
    ledger
        .charge_and_meter("acct", "d", BridgeDirection::Inbound, &[0u8; 60], 1, &mut meter)
        .unwrap();
    let denied =
        ledger.charge_and_meter("acct", "d", BridgeDirection::Inbound, &[0u8; 60], 2, &mut meter);
    assert_eq!(denied, Err(QuotaError::VolumeCapExceeded("acct".into(), 100)));
    assert_eq!(meter.count(), 1);
}

#[test]
fn unregistered_account_is_denied_a_charge_fail_closed() {
    let mut meter = NullMeterDouble;
    let mut ledger = QuotaLedger::new();
    assert_eq!(ledger.try_charge("nobody", 1), Err(QuotaError::Unregistered("nobody".into())));
    assert!(ledger
        .charge_and_meter("nobody", "d", BridgeDirection::Outbound, b"x", 0, &mut meter)
        .is_err());
}

struct NullMeterDouble;
impl GatewayMeter for NullMeterDouble {
    fn record(&mut self, _: &MeterEvent) {
        panic!("must not meter a refused charge");
    }
}

#[test]
fn static_authz_still_usable_alongside_registry() {
    let a = StaticGatewayAuthz::new().allow("host.net", "acct");
    assert!(matches!(
        a.authorize(BridgeDirection::Inbound, "host.net"),
        AuthzDecision::Allowed { .. }
    ));
}

const GW: &str = "gw.example";

#[test]
fn key_derived_alias_is_stable_and_fully_qualified_by_default() {
    let k = IdentityKey::generate().unwrap();
    let a1 = key_derived_localpart(&k.public());
    let a2 = key_derived_localpart(&k.public());
    assert_eq!(a1, a2, "deterministic");
    assert!(a1.starts_with('k') && a1.len() == 17);
    assert!(is_key_derived_form(&a1));

    let alloc = AliasAllocator::for_domain(GW).unwrap();
    assert_eq!(alloc.alias_for(&k.public()), format!("{a1}@{GW}"));
    assert_eq!(alloc.resolve(&format!("{a1}@{GW}"), &[k.public()]), Some(k.public()));
}

#[test]
fn rule2_allocation_binds_and_returns_the_fully_qualified_form_and_rejects_bare_handles() {
    let k = IdentityKey::generate().unwrap();
    let mut alloc = AliasAllocator::for_domain(GW).unwrap();

    let fq = alloc.allocate_vanity(&k.public(), "Alice").unwrap();
    assert_eq!(
        fq,
        format!("alice@{GW}"),
        "the stored/returned form is fully-qualified (lowercased)"
    );
    assert_eq!(alloc.alias_for(&k.public()), format!("alice@{GW}"));

    assert_eq!(alloc.resolve(&format!("alice@{GW}"), &[k.public()]), Some(k.public()));
    assert_eq!(alloc.resolve("alice", &[k.public()]), None);
    assert_eq!(alloc.resolve("alice@other.net", &[k.public()]), None);
    assert_eq!(
        alloc.resolve(&format!("{}@{GW}", key_derived_localpart(&k.public())), &[k.public()]),
        Some(k.public())
    );
}

#[test]
fn rule2_construction_rejects_an_invalid_gateway_domain_fail_closed() {
    assert!(AliasAllocator::for_domain("gw.example").is_ok());
    for bad in ["", " ", "no_underscores.example", "-lead.example", "trail-.example", "a..b"] {
        assert!(
            matches!(AliasAllocator::for_domain(bad), Err(AliasError::InvalidGatewayDomain(_))),
            "gateway domain {bad:?} must be rejected"
        );
    }
}

#[test]
fn rule1_dotted_vanity_is_rejected_not_normalized() {
    let k = IdentityKey::generate().unwrap();
    let mut alloc = AliasAllocator::for_domain(GW).unwrap();
    for dotted in ["first.last", ".lead", "trail.", "a.b.c", "imran.mydomain-.com"] {
        assert_eq!(
            alloc.allocate_vanity(&k.public(), dotted),
            Err(AliasError::ContainsDot(dotted.to_string())),
            "dotted vanity {dotted:?} must be refused (reserved for forwarded encoding), not stripped"
        );
    }
    assert_eq!(
        alloc.alias_for(&k.public()),
        format!("{}@{GW}", key_derived_localpart(&k.public()))
    );
}

#[test]
fn rule3_reserved_prefix_and_key_derived_shapes_are_rejected() {
    let a = IdentityKey::generate().unwrap();
    let b = IdentityKey::generate().unwrap();
    let mut alloc = AliasAllocator::for_domain(GW).unwrap();

    assert!(matches!(
        alloc.allocate_vanity(&a.public(), "dmtap1-anything"),
        Err(AliasError::ReservedCollision(_))
    ));
    assert!(matches!(
        alloc.allocate_vanity(&a.public(), "DMTAP1-Upper"),
        Err(AliasError::ReservedCollision(_))
    ));
    let own = key_derived_localpart(&a.public());
    assert!(matches!(
        alloc.allocate_vanity(&a.public(), &own),
        Err(AliasError::ReservedCollision(_))
    ));
    let other = key_derived_localpart(&b.public());
    assert!(matches!(
        alloc.allocate_vanity(&a.public(), &other),
        Err(AliasError::ReservedCollision(_))
    ));
}

#[test]
fn rule4_duplicate_allocation_is_refused_but_same_key_is_idempotent() {
    let a = IdentityKey::generate().unwrap();
    let b = IdentityKey::generate().unwrap();
    let mut alloc = AliasAllocator::for_domain(GW).unwrap();
    assert_eq!(alloc.allocate_vanity(&a.public(), "team").unwrap(), format!("team@{GW}"));

    assert_eq!(
        alloc.allocate_vanity(&b.public(), "team"),
        Err(AliasError::Taken("team".into()))
    );
    assert_eq!(alloc.allocate_vanity(&a.public(), "team").unwrap(), format!("team@{GW}"));
    assert_eq!(
        alloc.resolve(&format!("team@{GW}"), &[a.public(), b.public()]),
        Some(a.public())
    );
}

#[test]
fn rule4_release_then_reallocate_to_a_different_identity_works() {
    let a = IdentityKey::generate().unwrap();
    let b = IdentityKey::generate().unwrap();
    let mut alloc = AliasAllocator::for_domain(GW).unwrap();
    alloc.allocate_vanity(&a.public(), "team").unwrap();

    assert!(matches!(alloc.allocate_vanity(&b.public(), "team"), Err(AliasError::Taken(_))));

    assert_eq!(alloc.release_vanity(&a.public()), Some(format!("team@{GW}")));
    assert_eq!(
        alloc.alias_for(&a.public()),
        format!("{}@{GW}", key_derived_localpart(&a.public()))
    );
    assert_eq!(alloc.resolve(&format!("team@{GW}"), &[a.public(), b.public()]), None);

    assert_eq!(alloc.allocate_vanity(&b.public(), "team").unwrap(), format!("team@{GW}"));
    assert_eq!(
        alloc.resolve(&format!("team@{GW}"), &[a.public(), b.public()]),
        Some(b.public())
    );

    let c = IdentityKey::generate().unwrap();
    assert_eq!(alloc.release_vanity(&c.public()), None);
}

#[test]
fn rule5_vanity_cannot_shadow_an_operator_directory_identity() {
    let a = IdentityKey::generate().unwrap();
    let mut alloc = AliasAllocator::for_domain(GW).unwrap();

    alloc.reserve_localpart("postmaster");
    assert!(alloc.reserve_directory_address(&format!("founder@{GW}")));
    assert!(!alloc.reserve_directory_address("someone@other.net"));

    assert!(matches!(
        alloc.allocate_vanity(&a.public(), "postmaster"),
        Err(AliasError::ShadowsDirectoryIdentity(_))
    ));
    assert!(matches!(
        alloc.allocate_vanity(&a.public(), "Founder"),
        Err(AliasError::ShadowsDirectoryIdentity(_))
    ));
    assert_eq!(
        alloc.allocate_vanity(&a.public(), "founderx").unwrap(),
        format!("founderx@{GW}")
    );
}

#[test]
fn rule5_reserving_a_localpart_purges_an_earlier_conflicting_vanity() {
    let a = IdentityKey::generate().unwrap();
    let mut alloc = AliasAllocator::for_domain(GW).unwrap();
    assert_eq!(alloc.allocate_vanity(&a.public(), "alice").unwrap(), format!("alice@{GW}"));
    assert_eq!(alloc.alias_for(&a.public()), format!("alice@{GW}"));
    alloc.reserve_localpart("alice");
    assert_ne!(alloc.alias_for(&a.public()), format!("alice@{GW}"));
    assert!(matches!(
        alloc.allocate_vanity(&a.public(), "alice"),
        Err(AliasError::ShadowsDirectoryIdentity(_))
    ));
}

#[test]
fn rule6_hygiene_rejections_fail_closed() {
    let k = IdentityKey::generate().unwrap();
    let mut alloc = AliasAllocator::for_domain(GW).unwrap();
    let long = "a".repeat(65);
    for bad in [
        "",              // empty
        " ",             // whitespace only
        "with space",    // embedded whitespace
        "line\r\nbreak", // CRLF injection
        "nul\0byte",     // NUL
        "tab\tchar",     // control
        "bad!name",      // out-of-charset punctuation
        "emoji😀",       // non-ASCII
        long.as_str(),   // over the 64-octet cap
    ] {
        assert!(
            matches!(
                alloc.allocate_vanity(&k.public(), bad),
                Err(AliasError::InvalidLocalPart(_))
            ),
            "hygiene must reject {bad:?}"
        );
    }
    assert_eq!(
        alloc.allocate_vanity(&k.public(), "user_name-01+tag").unwrap(),
        format!("user_name-01+tag@{GW}")
    );
}

#[test]
fn base32_lower_is_a_valid_vanity_charset() {
    let s = base32_lower(&[0xff, 0x00, 0x99, 0x12, 0x34]);
    assert!(!s.is_empty());
    assert!(is_valid_vanity_charset(&s));
}

#[test]
fn modes_are_named() {
    for m in [GatewayMode::Private, GatewayMode::RegisteredClientsOnly, GatewayMode::Public] {
        assert_eq!(GatewayMode::parse(m.label()), Some(m));
    }
    assert_eq!(GatewayMode::parse("who knows"), None);
}

#[test]
fn charges_stay_with_their_account() {
    let mut ledger = QuotaLedger::new()
        .set_quota("a", Quota::messages(1, 1))
        .set_quota("b", Quota::messages(1, 1));
    assert_eq!(ledger.try_charge("a", 10).unwrap().messages, 1);
    assert_eq!(ledger.usage("b").messages, 0);
    assert_eq!(ledger.try_charge("a", 10), Err(QuotaError::MessageCapExceeded("a".into(), 1)));
    assert_eq!(ledger.usage("a").bytes, 10);
    assert_eq!(ledger.try_charge("b", 7).unwrap().bytes, 7);
}

#[test]
fn a_private_gateway_serves_no_third_party() {
    assert!(GatewayMode::Private.is_zero_third_party());
    assert!(!GatewayMode::Public.is_zero_third_party());
    assert_ne!(random_nonce().unwrap(), random_nonce().unwrap());
}

#[test]
fn a_refused_name_is_quoted() {
    let k = IdentityKey::from_seed(&[1u8; 32]).public();
    let mut alloc = AliasAllocator::for_domain(GW).unwrap();
    let e = alloc.allocate_vanity(&k, "a.\"b\"").unwrap_err();
    assert!(e.message().contains("\"a.\\\"b\\\"\""), "{}", e.message());
}
