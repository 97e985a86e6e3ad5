use wakala::pem::{
    chain_of, first_key, load_certs, load_private_key, server_material_from_pem, KeyEncoding,
    PemError, PrivateKey,
};

fn section(kind: &str, body: &str) -> String {
    format!("-----BEGIN {kind}-----\n{body}\n-----END {kind}-----\n")
}

fn key(encoding: KeyEncoding, der: &[u8]) -> PrivateKey {
    PrivateKey { encoding, der: der.to_vec() }
}

#[test]
fn certificates_come_in_their_order() {
    let pem = format!(
        "a note\n{}{}{}",
        section("CERTIFICATE", "Zm9v"),
        section("PRIVATE KEY", "c2VjcmV0"),
        section("CERTIFICATE", "YmFy"),
    );
    assert_eq!(load_certs(pem.as_bytes()), Ok(vec![b"foo".to_vec(), b"bar".to_vec()]));
    assert_eq!(load_certs(b""), Ok(Vec::new()));
}

#[test]
fn the_first_key_is_found_whatever_its_encoding() {
    for (kind, encoding) in [
        ("RSA PRIVATE KEY", KeyEncoding::Pkcs1),
        ("EC PRIVATE KEY", KeyEncoding::Sec1),
        ("PRIVATE KEY", KeyEncoding::Pkcs8),
    ] {
        let pem = format!(
            "{}{}{}",
            section("CERTIFICATE", "Zm9v"),
            section(kind, "c2VjcmV0"),
            section("PRIVATE KEY", "b3RoZXI="),
        );
        assert!(load_private_key(pem.as_bytes()) == Ok(key(encoding, b"secret")));
    }
}

#[test]
fn a_text_without_a_key_is_refused() {
    let pem = section("CERTIFICATE", "Zm9v");
    assert!(load_private_key(pem.as_bytes()) == Err(PemError::NoPrivateKey));
    assert!(load_private_key(b"") == Err(PemError::NoPrivateKey));
    assert_eq!(PemError::NoPrivateKey.message(), "no private key in PEM");
}

#[test]
fn a_text_that_cannot_be_read_is_refused() {
    let open = b"-----BEGIN CERTIFICATE-----\nZm9v\n";
    let e = load_certs(open).unwrap_err();
    assert_eq!(e, PemError::Malformed("section end \"CERTIFICATE\" missing".to_string()));
    assert_eq!(e.message(), "section end \"CERTIFICATE\" missing");
    assert!(load_private_key(open) == Err(e));
    let unreadable = section("PRIVATE KEY", "!!!!");
    assert!(matches!(load_private_key(unreadable.as_bytes()), Err(PemError::Malformed(_))));
}

#[test]
fn the_certificates_are_read_before_the_key() {
    let cert = section("CERTIFICATE", "Zm9v");
    let secret = section("PRIVATE KEY", "c2VjcmV0");
    let open = "-----BEGIN CERTIFICATE-----\n";
    let m = match server_material_from_pem(cert.as_bytes(), secret.as_bytes()) {
        Ok(m) => m,
        Err(e) => panic!("{e:?}"),
    };
    assert_eq!(m.certs, vec![b"foo".to_vec()]);
    assert!(m.key == key(KeyEncoding::Pkcs8, b"secret"));
    assert!(matches!(
        server_material_from_pem(open.as_bytes(), cert.as_bytes()),
        Err(PemError::Malformed(_))
    ));
    assert!(matches!(
        server_material_from_pem(cert.as_bytes(), cert.as_bytes()),
        Err(PemError::NoPrivateKey)
    ));
}

#[test]
fn what_was_found_decides() {
    assert_eq!(chain_of(Ok(vec![vec![1, 2]])), Ok(vec![vec![1, 2]]));
    assert_eq!(chain_of(Err("torn".to_string())), Err(PemError::Malformed("torn".to_string())));
    assert!(
        first_key(Ok(Some(key(KeyEncoding::Sec1, b"k")))) == Ok(key(KeyEncoding::Sec1, b"k"))
    );
    assert!(first_key(Ok(None)) == Err(PemError::NoPrivateKey));
    assert!(first_key(Err("torn".to_string())) == Err(PemError::Malformed("torn".to_string())));
}
