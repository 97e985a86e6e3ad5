use wakala::alias_map::AliasTarget;
use wakala::directory::RecipientKey;
use wakala::identity::IdentityKey;
use wakala::multidomain::{
    ChargeError, MultiDomainError, MultiDomainGateway, Recipient, RouteError, UsageMeter,
};
use wakala::provenance::BridgeDirection;
use wakala::quota::Quota;
use wakala::vanity::AliasError;

fn rkey(tag: u8) -> RecipientKey {
    RecipientKey { ik: vec![tag; 32], seal_pub: vec![tag.wrapping_add(1); 32] }
}

#[test]
fn fresh_gateway_serves_nobody_fail_closed() {
    let mut gw = MultiDomainGateway::new();
    assert!(gw.domains().is_empty());
    assert_eq!(gw.route("a@gmail.com", "you@host.net", 0), Err(RouteError::NoSuchDomain));
    assert!(gw.dkim_sign("host.net", b"From: a@b\r\n\r\nx", 0).is_none());
}

#[test]
fn add_domain_is_fail_closed_on_invalid_and_duplicate() {
    let mut gw = MultiDomainGateway::new();
    assert!(gw.add_domain("host.net", None, "gw1").is_ok());
    assert!(gw.serves("HOST.NET"), "domain match is case-insensitive");
    assert!(matches!(
        gw.add_domain("host.net", None, "gw1"),
        Err(MultiDomainError::DomainExists(_))
    ));
    assert!(matches!(
        gw.add_domain("not a domain", None, "gw1"),
        Err(MultiDomainError::InvalidDomain(_))
    ));
}

#[test]
fn add_domain_returns_a_usable_dkim_key_and_signs_only_served_domains() {
    let mut gw = MultiDomainGateway::new();
    let seed = gw.add_domain("host.net", None, "sel9").unwrap();
    let pub1 = gw.tenant("host.net").unwrap().dkim_public_p_tag();
    gw.remove_domain("host.net");
    gw.add_domain("host.net", Some(seed), "sel9").unwrap();
    assert_eq!(gw.tenant("host.net").unwrap().dkim_public_p_tag(), pub1);
    assert_eq!(gw.tenant("host.net").unwrap().dkim_selector(), "sel9");

    let msg = b"From: user@host.net\r\nSubject: hi\r\n\r\nbody\r\n";
    let sig = gw.dkim_sign("host.net", msg, 1_700_000_000).expect("served domain signs");
    assert!(sig.starts_with("DKIM-Signature:"));
    assert!(gw.dkim_sign("other.net", msg, 1_700_000_000).is_none());
}

#[test]
fn routes_directory_recipient_and_unmapped_fail_closed() {
    let mut gw = MultiDomainGateway::new();
    gw.add_domain("host.net", None, "gw1").unwrap();
    gw.add_recipient("alice@host.net", rkey(1)).unwrap();

    assert_eq!(
        gw.route("bob@gmail.com", "alice@host.net", 0),
        Ok(Recipient::Directory(rkey(1)))
    );
    assert_eq!(
        gw.route("bob@gmail.com", "<ALICE@HOST.NET>", 0),
        Ok(Recipient::Directory(rkey(1)))
    );
    assert_eq!(gw.route("bob@gmail.com", "ghost@host.net", 0), Err(RouteError::Unmapped));
    assert!(gw.add_recipient("x@nope.net", rkey(2)).is_err());
}

#[test]
fn per_domain_isolation_directory_and_vanity_and_blocklist() {
    let mut gw = MultiDomainGateway::new();
    gw.add_domain("a.com", None, "gw1").unwrap();
    gw.add_domain("b.com", None, "gw1").unwrap();
    let ka = IdentityKey::generate().unwrap().public();
    let kb = IdentityKey::generate().unwrap().public();

    assert_eq!(gw.allocate_vanity("a.com", &ka, "hello").unwrap(), "hello@a.com");
    assert_eq!(gw.allocate_vanity("b.com", &kb, "hello").unwrap(), "hello@b.com");
    assert_eq!(
        gw.route("s@x.net", "hello@a.com", 0),
        Ok(Recipient::Alias(AliasTarget::Identity(ka.clone())))
    );
    assert_eq!(
        gw.route("s@x.net", "hello@b.com", 0),
        Ok(Recipient::Alias(AliasTarget::Identity(kb.clone())))
    );

    gw.block_sender("a.com", "spammer@evil.net").unwrap();
    assert_eq!(gw.route("spammer@evil.net", "hello@a.com", 0), Err(RouteError::SenderBlocked));
    assert_eq!(
        gw.route("spammer@evil.net", "hello@b.com", 0),
        Ok(Recipient::Alias(AliasTarget::Identity(kb)))
    );

    gw.block_sender_global("spammer@evil.net");
    assert_eq!(gw.route("spammer@evil.net", "hello@b.com", 0), Err(RouteError::SenderBlocked));
}

#[test]
fn vanity_cannot_shadow_a_directory_recipient() {
    let mut gw = MultiDomainGateway::new();
    gw.add_domain("host.net", None, "gw1").unwrap();
    gw.add_recipient("alice@host.net", rkey(1)).unwrap();
    let other = IdentityKey::generate().unwrap().public();
    assert!(matches!(
        gw.allocate_vanity("host.net", &other, "alice"),
        Err(MultiDomainError::Alias(AliasError::ShadowsDirectoryIdentity(_)))
    ));
}

#[test]
fn random_alias_lifecycle_and_isolation() {
    let mut gw = MultiDomainGateway::new();
    gw.add_domain("a.com", None, "gw1").unwrap();
    gw.add_domain("b.com", None, "gw1").unwrap();
    let target = AliasTarget::Native { local: "imran".into(), domain: "native.com".into() };
    let fq = gw.mint_random_alias("a.com", target.clone(), None, None, false, 0).unwrap();
    assert!(fq.ends_with("@a.com"));
    let token = fq.rsplit_once('@').unwrap().0.to_string();

    assert_eq!(gw.route("s@x.net", &fq, 0), Ok(Recipient::Alias(target)));
    assert_eq!(gw.route("s@x.net", &format!("{token}@b.com"), 0), Err(RouteError::Unmapped));
    assert!(gw.burn_random_alias("a.com", &fq).unwrap());
    assert_eq!(gw.route("s@x.net", &fq, 0), Err(RouteError::Unmapped));
}

#[test]
fn suspended_user_routes_to_suspended_not_delivered() {
    let mut gw = MultiDomainGateway::new();
    gw.add_domain("host.net", None, "gw1").unwrap();
    gw.add_recipient("alice@host.net", rkey(1)).unwrap();
    gw.suspend_user("host.net", "alice").unwrap();
    assert_eq!(gw.route("s@x.net", "alice@host.net", 0), Err(RouteError::UserSuspended));
    assert!(gw.unsuspend_user("host.net", "alice@host.net").unwrap());
    assert_eq!(gw.route("s@x.net", "alice@host.net", 0), Ok(Recipient::Directory(rkey(1))));
}

#[test]
fn per_domain_quota_is_enforced_and_metered_fail_closed() {
    let mut gw = MultiDomainGateway::new();
    gw.add_domain("host.net", None, "gw1").unwrap();
    gw.set_domain_quota("host.net", Quota::messages(1, 2)).unwrap();
    let mut meter = UsageMeter::new();
    let msg = b"From: a@gmail.com\r\n\r\nbody\r\n";

    assert!(gw.charge_relay("host.net", BridgeDirection::Inbound, msg, 1, &mut meter).is_ok());
    assert!(gw.charge_relay("host.net", BridgeDirection::Inbound, msg, 2, &mut meter).is_ok());
    assert!(matches!(
        gw.charge_relay("host.net", BridgeDirection::Inbound, msg, 3, &mut meter),
        Err(ChargeError::Quota(_))
    ));
    assert_eq!(meter.usage("host.net").messages, 2);
    assert_eq!(meter.usage("host.net").inbound, 2);

    assert!(matches!(
        gw.charge_relay("nope.net", BridgeDirection::Outbound, msg, 4, &mut meter),
        Err(ChargeError::NoSuchDomain(_))
    ));
    assert_eq!(meter.snapshot().len(), 1);
}

#[test]
fn refusals_are_told_by_their_codes() {
    assert_eq!(RouteError::NoSuchDomain.smtp_code(), 550);
    let mut gw = MultiDomainGateway::new();
    assert!(matches!(
        gw.block_sender("host.net", "x@y"),
        Err(MultiDomainError::NoSuchDomain(d)) if d == "host.net"
    ));
    assert!(!gw.remove_domain("host.net"));
    gw.add_domain("b.net", Some([1u8; 32]), "s").unwrap();
    gw.add_domain("a.net", Some([2u8; 32]), "s").unwrap();
    assert_eq!(gw.domains(), ["a.net", "b.net"]);
    assert!(matches!(
        gw.add_recipient("not an address", rkey(1)),
        Err(MultiDomainError::InvalidDomain(_))
    ));
}

#[test]
fn a_domain_starts_with_the_default_quota() {
    let mut gw = MultiDomainGateway::new().with_default_quota(Quota::messages(1, 7));
    gw.add_domain("host.net", None, "s").unwrap();
    assert_eq!(gw.tenant("host.net").unwrap().quota(), Quota::messages(1, 7));
}

#[test]
fn an_unserved_domain_is_named_before_a_blocked_sender() {
    let mut gw = MultiDomainGateway::new();
    gw.block_sender_global("s@evil.net");
    assert_eq!(gw.route("s@evil.net", "you@host.net", 0), Err(RouteError::NoSuchDomain));
    gw.add_domain("host.net", None, "gw1").unwrap();
    assert_eq!(gw.route("s@evil.net", "you@host.net", 0), Err(RouteError::SenderBlocked));
}

#[test]
fn a_recipient_is_reached_however_its_address_was_written() {
    let mut gw = MultiDomainGateway::new();
    gw.add_domain("host.net", None, "gw1").unwrap();
    gw.add_domain("other.net", None, "gw1").unwrap();
    gw.allocate_vanity("host.net", &[9u8; 32], "alice").unwrap();
    gw.add_recipient(" <Alice@HOST.net> ", rkey(1)).unwrap();
    for rcpt in ["alice@host.net", "<alice@host.net>", "ALICE@Host.Net"] {
        assert_eq!(gw.route("a@gmail.com", rcpt, 0), Ok(Recipient::Directory(rkey(1))), "{rcpt}");
    }
    // The name is nobody else's from now on, and stays so.
    assert!(gw.allocate_vanity("host.net", &[9u8; 32], "alice").is_err());
    assert!(gw.remove_recipient("<alice@host.net>").unwrap());
    assert!(!gw.remove_recipient("alice@host.net").unwrap());
    assert_eq!(gw.route("a@gmail.com", "alice@host.net", 0), Err(RouteError::Unmapped));
    assert!(gw.allocate_vanity("host.net", &[8u8; 32], "alice").is_err());
    assert!(gw.allocate_vanity("other.net", &[8u8; 32], "alice").is_ok());
}

#[test]
fn a_domain_gets_its_key_back() {
    let mut gw = MultiDomainGateway::new();
    gw.add_domain("other.net", Some([4u8; 32]), "s").unwrap();
    let seed = gw.add_domain("host.net", Some([3u8; 32]), "sel9").unwrap();
    let tag = gw.tenant("host.net").unwrap().dkim_public_p_tag();
    let kept = gw.tenant("other.net").unwrap().dkim_public_p_tag();
    gw.add_recipient("alice@host.net", rkey(1)).unwrap();
    assert!(gw.remove_domain(" HOST.net "));
    gw.add_domain("host.net", Some(seed), "sel9").unwrap();
    assert_eq!(gw.tenant("host.net").unwrap().dkim_public_p_tag(), tag);
    assert_eq!(gw.tenant("host.net").unwrap().recipient_count(), 0);
    assert_eq!(gw.tenant("other.net").unwrap().dkim_public_p_tag(), kept);
}
