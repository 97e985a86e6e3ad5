use wakala::mx::{candidates_from_packet, InMemoryMxResolver, MxHost, MxResolver};

#[test]
fn multi_mx_preference_order_lowest_first() {
    let resolver = InMemoryMxResolver::new().with_mx(
        "example.org",
        &[
            ("mx-backup.example.org", 20),
            ("mx-primary.example.org", 10),
            ("mx-tertiary.example.org", 30),
        ],
    );
    let hosts = resolver.resolve_mx("example.org");
    assert_eq!(
        hosts,
        vec![
            MxHost { host: "mx-primary.example.org".into(), preference: 10 },
            MxHost { host: "mx-backup.example.org".into(), preference: 20 },
            MxHost { host: "mx-tertiary.example.org".into(), preference: 30 },
        ],
        "candidates come back sorted ascending by preference"
    );
}

#[test]
fn no_mx_falls_back_to_the_domain_itself() {
    let resolver = InMemoryMxResolver::new(); // nothing published for any domain
    let hosts = resolver.resolve_mx("no-mx.example.net");
    assert_eq!(
        hosts,
        vec![MxHost { host: "no-mx.example.net".into(), preference: 0 }],
        "no MX records → the domain acts as its own single implicit MX (A/AAAA fallback)"
    );
}

#[test]
fn domain_lookup_is_case_insensitive() {
    let resolver = InMemoryMxResolver::new().with_mx("Example.ORG", &[("mx.example.org", 10)]);
    assert_eq!(
        resolver.resolve_mx("example.org"),
        vec![MxHost { host: "mx.example.org".into(), preference: 10 }]
    );
}

#[test]
fn a_lone_mx_record_still_resolves() {
    let resolver =
        InMemoryMxResolver::new().with_mx("single.example", &[("mx1.single.example", 5)]);
    assert_eq!(
        resolver.resolve_mx("single.example"),
        vec![MxHost { host: "mx1.single.example".into(), preference: 5 }]
    );
}

#[test]
fn without_an_answer_the_domain_is_its_own_host() {
    let own = vec![MxHost { host: "example.org".into(), preference: 0 }];
    assert_eq!(candidates_from_packet("example.org", None), own);
    assert_eq!(candidates_from_packet("example.org", Some(&[0u8; 4])), own);
}

#[test]
fn hosts_of_one_preference_stay_in_their_order() {
    let r = InMemoryMxResolver::new()
        .with_mx("d.example", &[("b.d.example", 10), ("a.d.example", 10), ("c.d.example", 5)]);
    let hosts: Vec<String> = r.resolve_mx("d.example").into_iter().map(|h| h.host).collect();
    assert_eq!(hosts, ["c.d.example", "b.d.example", "a.d.example"]);
}

#[test]
fn a_host_that_is_listed_twice_is_tried_twice() {
    let resolver = InMemoryMxResolver::new()
        .with_mx("example.org", &[("b.example.org", 20), ("a.example.org", 10), ("b.example.org", 20)]);
    let hosts: Vec<String> =
        resolver.resolve_mx("example.org").into_iter().map(|h| h.host).collect();
    assert_eq!(hosts, vec!["a.example.org", "b.example.org", "b.example.org"]);
}
