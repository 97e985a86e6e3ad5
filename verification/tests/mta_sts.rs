use wakala::mta_sts::{
    any_pattern_matches, body_of_response, mx_pattern_matches, named_host, parse_policy,
    policy_host, policy_server, InMemoryPolicyFetcher, InMemoryTxtResolver, MtaStsTlsPolicy, PolicyMode, ResponseError, StsParseError, TlsPolicy,
    TlsRequirement,
};
use wakala::net::{is_forbidden_dest_ip, pick_destination, DialError, IpAddress};

#[test]
fn parses_a_valid_enforce_policy() {
    let text = "version: STSv1\nmode: enforce\nmx: mail.example.com\nmx: *.backup.example.com\nmax_age: 604800\n";
    let policy = parse_policy(text).expect("valid policy");
    assert_eq!(policy.mode, PolicyMode::Enforce);
    assert_eq!(policy.mx_patterns, vec!["mail.example.com", "*.backup.example.com"]);
    assert_eq!(policy.max_age, 604_800);
}

#[test]
fn parses_a_testing_policy_with_default_max_age() {
    let text = "version: STSv1\nmode: testing\nmx: mail.example.com\n";
    let policy = parse_policy(text).expect("valid policy");
    assert_eq!(policy.mode, PolicyMode::Testing);
    assert_eq!(policy.max_age, 86_400);
}

#[test]
fn none_mode_does_not_require_mx_patterns() {
    let text = "version: STSv1\nmode: none\n";
    let policy = parse_policy(text).expect("valid policy");
    assert_eq!(policy.mode, PolicyMode::OptOut);
    assert!(policy.mx_patterns.is_empty());
}

#[test]
fn unknown_keys_are_ignored() {
    let text =
        "version: STSv1\nmode: enforce\nmx: mail.example.com\nsome_future_key: whatever\n";
    assert!(parse_policy(text).is_ok());
}

#[test]
fn missing_version_is_malformed() {
    let text = "mode: enforce\nmx: mail.example.com\n";
    assert_eq!(parse_policy(text), Err(StsParseError::MissingVersion));
}

#[test]
fn wrong_version_is_malformed() {
    let text = "version: STSv2\nmode: enforce\nmx: mail.example.com\n";
    assert_eq!(parse_policy(text), Err(StsParseError::UnsupportedVersion("STSv2".into())));
}

#[test]
fn missing_mode_is_malformed() {
    let text = "version: STSv1\nmx: mail.example.com\n";
    assert_eq!(parse_policy(text), Err(StsParseError::MissingMode));
}

#[test]
fn unknown_mode_is_malformed() {
    let text = "version: STSv1\nmode: rigorous\nmx: mail.example.com\n";
    assert_eq!(parse_policy(text), Err(StsParseError::UnknownMode("rigorous".into())));
}

#[test]
fn enforce_with_no_mx_patterns_is_malformed() {
    let text = "version: STSv1\nmode: enforce\n";
    assert_eq!(parse_policy(text), Err(StsParseError::NoMxPatterns));
}

#[test]
fn a_line_with_no_colon_is_malformed() {
    let text = "version: STSv1\ngarbage line with no colon\n";
    assert_eq!(parse_policy(text), Err(StsParseError::MalformedLine));
}

#[test]
fn exact_pattern_matches_only_exactly() {
    assert!(mx_pattern_matches("mail.example.com", "mail.example.com"));
    assert!(mx_pattern_matches("MAIL.example.com", "mail.EXAMPLE.com"), "case-insensitive");
    assert!(!mx_pattern_matches("mail.example.com", "other.example.com"));
    assert!(!mx_pattern_matches("mail.example.com", "sub.mail.example.com"));
}

#[test]
fn wildcard_pattern_matches_exactly_one_label() {
    assert!(mx_pattern_matches("*.example.com", "mail.example.com"));
    assert!(mx_pattern_matches("*.example.com", "backup.example.com"));
    assert!(
        !mx_pattern_matches("*.example.com", "example.com"),
        "wildcard requires a label, not zero"
    );
    assert!(
        !mx_pattern_matches("*.example.com", "a.b.example.com"),
        "wildcard is exactly one label"
    );
    assert!(
        !mx_pattern_matches("*.example.com", "evilexample.com"),
        "must be a label boundary, not a suffix"
    );
}

#[test]
fn requirement_is_required_only_in_enforce_mode() {
    let txt = InMemoryTxtResolver::new()
        .with_txt("_mta-sts.enforced.example", &["v=STSv1; id=1"])
        .with_txt("_mta-sts.testing.example", &["v=STSv1; id=1"])
        .with_txt("_mta-sts.opted-out.example", &["v=STSv1; id=1"]);
    let fetcher = InMemoryPolicyFetcher::new()
        .with_policy(
            "enforced.example",
            "version: STSv1\nmode: enforce\nmx: mx.enforced.example\n",
        )
        .with_policy(
            "testing.example",
            "version: STSv1\nmode: testing\nmx: mx.testing.example\n",
        )
        .with_policy("opted-out.example", "version: STSv1\nmode: none\n");
    let policy = MtaStsTlsPolicy::new(txt, fetcher);

    assert_eq!(policy.requirement_for("enforced.example"), TlsRequirement::Required);
    assert_eq!(
        policy.allowed_mx_patterns("enforced.example"),
        vec!["mx.enforced.example".to_string()]
    );

    assert_eq!(policy.requirement_for("testing.example"), TlsRequirement::Opportunistic);
    assert!(policy.allowed_mx_patterns("testing.example").is_empty());

    assert_eq!(policy.requirement_for("opted-out.example"), TlsRequirement::Opportunistic);
}

#[test]
fn no_txt_signal_at_all_is_opportunistic() {
    let policy = MtaStsTlsPolicy::new(
        InMemoryTxtResolver::new(),
        InMemoryPolicyFetcher::new(),
    );
    assert_eq!(
        policy.requirement_for("never-heard-of-sts.example"),
        TlsRequirement::Opportunistic
    );
    assert!(policy.allowed_mx_patterns("never-heard-of-sts.example").is_empty());
}

#[test]
fn txt_signaled_but_policy_fetch_fails_is_opportunistic_not_enforce() {
    let txt = InMemoryTxtResolver::new().with_txt("_mta-sts.flaky.example", &["v=STSv1; id=1"]);
    let policy = MtaStsTlsPolicy::new(txt, InMemoryPolicyFetcher::new());
    assert_eq!(policy.requirement_for("flaky.example"), TlsRequirement::Opportunistic);
}

#[test]
fn https_policy_fetch_refuses_ssrf_targets() {
    for host in [[169, 254, 169, 254], [127, 0, 0, 1], [10, 0, 0, 1]] {
        let addr = IpAddress::V4(host);
        assert!(is_forbidden_dest_ip(&addr));
        assert_eq!(pick_destination(&[addr]), Err(DialError::PermissionDenied), "{host:?}");
    }
}

#[test]
fn https_policy_fetch_allows_an_ordinary_public_address() {
    let addr = IpAddress::V4([93, 184, 216, 34]);
    assert!(!is_forbidden_dest_ip(&addr));
    assert_eq!(pick_destination(&[addr]), Ok(0));
}

#[test]
fn txt_signaled_but_policy_body_malformed_is_opportunistic() {
    let txt =
        InMemoryTxtResolver::new().with_txt("_mta-sts.bad-policy.example", &["v=STSv1; id=1"]);
    let fetcher = InMemoryPolicyFetcher::new()
        .with_policy("bad-policy.example", "mode: enforce\nmx: mx.example\n"); // no version
    let policy = MtaStsTlsPolicy::new(txt, fetcher);
    assert_eq!(policy.requirement_for("bad-policy.example"), TlsRequirement::Opportunistic);
}

#[test]
fn a_policy_is_taken_out_of_a_response() {
    let body = body_of_response(b"HTTP/1.1 200 OK\r\nServer: x\r\n\r\nversion: STSv1\n");
    assert_eq!(body, Ok("version: STSv1\n".to_string()));
    assert!(matches!(
        body_of_response(b"HTTP/1.1 404 Not Found\r\n\r\n"),
        Err(ResponseError::NotSuccess(_))
    ));
    assert_eq!(body_of_response(b"HTTP/1.1 200 OK\r\n"), Err(ResponseError::NoSplit));
    assert_eq!(policy_host("example.org"), "mta-sts.example.org");
}

#[test]
fn forbidden_addresses_of_the_newer_kind() {
    let mut mapped = [0u8; 16];
    mapped[10] = 0xff;
    mapped[11] = 0xff;
    mapped[12] = 127;
    mapped[15] = 1;
    let mut own = [0u8; 16];
    own[15] = 1;
    let mut public = [0u8; 16];
    public[0] = 0x20;
    public[1] = 0x01;
    public[15] = 1;
    assert!(is_forbidden_dest_ip(&IpAddress::V6(mapped)));
    assert!(is_forbidden_dest_ip(&IpAddress::V6(own)));
    assert!(!is_forbidden_dest_ip(&IpAddress::V6(public)));
    assert_eq!(pick_destination(&[IpAddress::V6(own), IpAddress::V6(public)]), Ok(1));
    assert_eq!(pick_destination(&[]), Err(DialError::NotFound));
}

#[test]
fn one_pattern_that_matches_is_enough() {
    let patterns = vec!["mx1.example.com".to_string(), "*.backup.example.com".to_string()];
    assert!(any_pattern_matches(&patterns, "a.backup.example.com"));
    assert!(!any_pattern_matches(&patterns, "example.com"));
    assert!(!any_pattern_matches(&[], "example.com"));
}

#[test]
fn a_policy_is_fetched_only_under_the_name_of_a_server() {
    assert_eq!(policy_server("example.com"), Some("mta-sts.example.com".to_string()));
    assert_eq!(policy_server(""), Some("mta-sts.".to_string()));
    for domain in ["exam ple.com", "example..com", "-.com", "ex\u{e4}mple.com"] {
        assert_eq!(policy_server(domain), None, "{domain}");
    }
    assert_eq!(policy_server(&"a".repeat(64)), None);
    assert_eq!(named_host("h".to_string(), true), Some("h".to_string()));
    assert_eq!(named_host("h".to_string(), false), None);
}
