use wakala::dkim::{
    canonicalize_body, canonicalize_header, empty_b_value, key_in_records, key_name, parse_public_key_txt, sign, signing_domain_selector, verify,
    verify_with_key, verify_with_resolver, DkimError, DkimKey, DkimVerdict, StaticDkimKeys,
};

const MSG: &[u8] =
    b"From: alice@sender.example\r\nTo: bob@host.net\r\nSubject: hi\r\nDate: Tue, 15 Jul 2026 00:00:00 +0000\r\n\r\nhello over the bridge\r\n";

fn signed_msg(domain: &str, selector: &str, seed: &[u8; 32]) -> (Vec<u8>, [u8; 32]) {
    let key = DkimKey::from_seed(domain, selector, seed);
    let pubk = key.public_bytes();
    let header = sign(&key, MSG, 1_752_600_000);
    let mut out = header.into_bytes();
    out.extend_from_slice(MSG);
    (out, pubk)
}

#[test]
fn inbound_verify_passes_for_a_genuinely_signed_message() {
    let (msg, pubk) = signed_msg("sender.example", "s1", &[3u8; 32]);
    let resolver = StaticDkimKeys::new().publish("sender.example", "s1", pubk.to_vec());
    assert_eq!(
        verify_with_resolver(&msg, &resolver),
        DkimVerdict::Pass { domain: "sender.example".into(), selector: "s1".into() }
    );
}

#[test]
fn inbound_verify_fails_on_a_tampered_body() {
    let (msg, pubk) = signed_msg("sender.example", "s1", &[4u8; 32]);
    let mut tampered = msg.clone();
    let pos = tampered.windows(5).position(|w| w == b"hello").unwrap();
    tampered[pos] ^= 0x20;
    let resolver = StaticDkimKeys::new().publish("sender.example", "s1", pubk.to_vec());
    assert!(matches!(verify_with_resolver(&tampered, &resolver), DkimVerdict::Fail(_)));
}

#[test]
fn inbound_verify_reports_no_signature_and_key_unavailable() {
    assert_eq!(verify_with_resolver(MSG, &StaticDkimKeys::new()), DkimVerdict::NoSignature);
    let (msg, _pubk) = signed_msg("sender.example", "s1", &[5u8; 32]);
    assert_eq!(
        verify_with_resolver(&msg, &StaticDkimKeys::new()),
        DkimVerdict::KeyUnavailable { domain: "sender.example".into(), selector: "s1".into() }
    );
}

#[test]
fn verify_rejects_a_signature_whose_h_omits_from() {
    let key = DkimKey::from_seed("sender.example", "s1", &[7u8; 32]);
    let header = sign(&key, MSG, 1_752_600_000);
    let start = header.find("h=").expect("h= tag present");
    let end = start + header[start..].find(';').expect("h= is terminated by ';'");
    let rewritten = format!("{}h=subject{}", &header[..start], &header[end..]);
    let mut msg = rewritten.into_bytes();
    msg.extend_from_slice(MSG);
    assert_eq!(verify(&msg, &key.public_bytes()), Err(DkimError::FromFieldNotSigned));
}

#[test]
fn oversigned_from_detects_an_appended_from_header() {
    let key = DkimKey::from_seed("sender.example", "s1", &[8u8; 32]);
    let pubk = key.public_bytes();
    let header = sign(&key, MSG, 1_752_600_000);

    let mut signed = header.clone().into_bytes();
    signed.extend_from_slice(MSG);
    assert_eq!(verify(&signed, &pubk), Ok(()), "the genuine oversigned message verifies");

    let mut tampered = b"From: eve@evil.example\r\n".to_vec();
    tampered.extend_from_slice(header.as_bytes());
    tampered.extend_from_slice(MSG);
    assert_eq!(
        verify(&tampered, &pubk),
        Err(DkimError::SignatureInvalid),
        "an appended From is caught by oversigning"
    );
}

#[test]
fn eight_bit_bodies_and_headers_hash_over_their_original_bytes() {
    let msg: Vec<u8> = [
        &b"From: alice@sender.example\r\nSubject: caf"[..],
        &[0xE9],
        &b"\r\n\r\nl'"[..],
        &[0xFC],
        &b"ber-body\r\n"[..],
    ]
    .concat();
    let key = DkimKey::from_seed("sender.example", "s1", &[11u8; 32]);
    let header = sign(&key, &msg, 1_752_600_000);
    let mut signed = header.into_bytes();
    signed.extend_from_slice(&msg);
    assert_eq!(verify(&signed, &key.public_bytes()), Ok(()), "octet-faithful round trip");

    let mangled = String::from_utf8_lossy(&signed).into_owned().into_bytes();
    assert!(verify(&mangled, &key.public_bytes()).is_err());
}

#[test]
fn signing_domain_selector_extracts_d_and_s() {
    let (msg, _pubk) = signed_msg("sender.example", "sel7", &[6u8; 32]);
    assert_eq!(
        signing_domain_selector(&msg),
        Some(("sender.example".to_string(), "sel7".to_string()))
    );
    assert_eq!(signing_domain_selector(MSG), None);
}

#[test]
fn parse_public_key_txt_extracts_the_p_tag() {
    let key = DkimKey::from_seed("d", "s", &[9u8; 32]);
    let p = key.public_p_tag();
    let txt = format!("v=DKIM1; k=ed25519; p={p}");
    assert_eq!(parse_public_key_txt(&txt), Some(key.public_bytes().to_vec()));
    assert_eq!(parse_public_key_txt("v=DKIM1; k=ed25519; p="), None);
    let (msg, _) = signed_msg("d", "s", &[9u8; 32]);
    let parsed = parse_public_key_txt(&txt).unwrap();
    assert!(verify(&msg, &parsed).is_ok());
}

#[test]
fn canonical_forms() {
    assert_eq!(canonicalize_header("Subject", b"  a \t b\r\n c "), b"subject:a b c\r\n".to_vec());
    assert_eq!(canonicalize_body(b"a  b \r\n\r\n\r\n"), b"a b\r\n".to_vec());
    assert_eq!(canonicalize_body(b""), b"".to_vec());
}

#[test]
fn a_verdict_follows_from_the_key() {
    let (msg, pubk) = signed_msg("sender.example", "s1", &[3u8; 32]);
    assert_eq!(
        verify_with_key(&msg, Some(&pubk)),
        DkimVerdict::Pass { domain: "sender.example".into(), selector: "s1".into() }
    );
    assert_eq!(
        verify_with_key(&msg, None),
        DkimVerdict::KeyUnavailable { domain: "sender.example".into(), selector: "s1".into() }
    );
}

#[test]
fn the_first_record_with_a_key_counts() {
    let key = DkimKey::from_seed("d", "s", &[9u8; 32]);
    let records = vec![
        "v=spf1 -all".to_string(),
        format!("v=DKIM1; p={}", key.public_p_tag()),
        "v=DKIM1; p=AAAA".to_string(),
    ];
    assert_eq!(key_in_records(&records), Some(key.public_bytes().to_vec()));
    assert_eq!(key_in_records(&records[..1].to_vec()), None);
    assert_eq!(key_name("host.net", "s1"), "s1._domainkey.host.net");
}

#[test]
fn the_signature_is_emptied_where_the_field_is_folded() {
    assert_eq!(
        empty_b_value(b" v=1; bh=aa;\r\n b=Zm9v; s=x"),
        b" v=1; bh=aa;\r\n b=; s=x".to_vec()
    );
    assert_eq!(empty_b_value(b"b=Zm9v; bh=b"), b"b=; bh=b".to_vec());
}

#[test]
fn a_folded_signature_verifies() {
    let key = DkimKey::from_seed("sender.example", "s1", &[8u8; 32]);
    let folded = sign(&key, MSG, 1_752_600_000).replace("; b=", ";\r\n b=");
    let mut msg = folded.into_bytes();
    msg.extend_from_slice(MSG);
    assert_eq!(verify(&msg, &key.public_bytes()), Ok(()));
}

#[test]
fn a_domain_beyond_ascii_signs_and_verifies() {
    let key = DkimKey::from_seed("b\u{fc}cher.example", "\u{43a}1", &[8u8; 32]);
    let mut msg = sign(&key, MSG, 1_752_600_000).into_bytes();
    msg.extend_from_slice(MSG);
    assert_eq!(verify(&msg, &key.public_bytes()), Ok(()));
    assert_eq!(
        signing_domain_selector(&msg),
        Some(("b\u{fc}cher.example".to_string(), "\u{43a}1".to_string()))
    );
    msg.extend_from_slice(b"more\r\n");
    assert_eq!(verify(&msg, &key.public_bytes()), Err(DkimError::BodyHashMismatch));
}

#[test]
fn a_signature_that_names_no_key_fails() {
    let (msg, pubk) = signed_msg("sender.example", "s1", &[41u8; 32]);
    let keys = StaticDkimKeys::new().publish("sender.example", "s1", pubk.to_vec());
    let text = String::from_utf8(msg).unwrap();
    for part in ["d=sender.example; ", "s=s1; "] {
        let nameless = text.replacen(part, "", 1).into_bytes();
        assert_eq!(signing_domain_selector(&nameless), None);
        assert_eq!(
            verify_with_resolver(&nameless, &keys),
            DkimVerdict::Fail(DkimError::MalformedSignature)
        );
        assert_eq!(
            verify_with_key(&nameless, Some(&pubk)),
            DkimVerdict::Fail(DkimError::MalformedSignature)
        );
    }
}

#[test]
fn from_is_listed_once_more_than_it_occurs() {
    let key = DkimKey::from_seed("sender.example", "s1", &[42u8; 32]);
    let none = sign(&key, b"To: b@host.net\r\n\r\nhi\r\n", 1);
    assert!(none.contains(" h=to:from;"));
    let one = sign(&key, b"From: a@sender.example\r\nTo: b@host.net\r\n\r\nhi\r\n", 1);
    assert!(one.contains(" h=from:to:from;"));
    let twice: &[u8] = b"From: a@sender.example\r\nFrom: c@sender.example\r\n\r\nhi\r\n";
    let two = sign(&key, twice, 1);
    assert!(two.contains(" h=from:from:from;"));

    let mut signed = two.clone().into_bytes();
    signed.extend_from_slice(twice);
    assert_eq!(verify(&signed, &key.public_bytes()), Ok(()));
    let mut tampered = b"From: eve@evil.example\r\n".to_vec();
    tampered.extend_from_slice(&signed);
    assert_eq!(verify(&tampered, &key.public_bytes()), Err(DkimError::SignatureInvalid));
}
