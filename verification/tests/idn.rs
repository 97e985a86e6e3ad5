use wakala::idn::{domain_to_ascii, IdnError};

#[test]
fn unicode_domain_converts_to_a_labels() {
    assert_eq!(domain_to_ascii("bücher.example").unwrap(), "xn--bcher-kva.example");
    assert_eq!(domain_to_ascii("BÜCHER.example").unwrap(), "xn--bcher-kva.example");
    assert_eq!(domain_to_ascii("bu\u{0308}cher.example").unwrap(), "xn--bcher-kva.example");
}

#[test]
fn ascii_passes_through_lowercased_including_service_labels() {
    assert_eq!(domain_to_ascii("Example.ORG").unwrap(), "example.org");
    assert_eq!(
        domain_to_ascii("_mta-sts.xn--bcher-kva.example").unwrap(),
        "_mta-sts.xn--bcher-kva.example"
    );
    assert_eq!(
        domain_to_ascii("gw1._domainkey.example.org").unwrap(),
        "gw1._domainkey.example.org"
    );
}

#[test]
fn genuinely_unspellable_domains_are_specific_errors_not_truncations() {
    assert!(matches!(
        domain_to_ascii("exa mple.bad"),
        Err(IdnError::NotConvertible(d, _)) if d == "exa mple.bad"
    ));
    assert!(matches!(
        domain_to_ascii("xn--999999999.example"),
        Err(IdnError::NotConvertible(..))
    ));
    let long = format!("{}.example", "a".repeat(64));
    assert!(matches!(domain_to_ascii(&long), Err(IdnError::LabelTooLong(..))));
    let huge = vec!["a".repeat(60); 5].join(".");
    assert!(matches!(domain_to_ascii(&huge), Err(IdnError::NameTooLong(..))));
}
