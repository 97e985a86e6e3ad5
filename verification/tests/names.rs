use wakala::names::is_valid_dns_domain;

#[test]
fn domains_are_labels_with_dots_between_them() {
    for good in ["example.org", "a", "xn--bcher-kva.example", "1.2.3.4", "EXAMPLE.Org"] {
        assert!(is_valid_dns_domain(good), "{good}");
    }
    for bad in ["", ".", "a..b", "-a.b", "a-.b", "a_b.c", "a b", "a.b."] {
        assert!(!is_valid_dns_domain(bad), "{bad}");
    }
}
