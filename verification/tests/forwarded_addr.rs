use std::collections::HashMap;
use wakala::forwarded_addr::{decode, encode, ForwardedAddrError, MAX_LOCALPART_LEN};

fn case_variants(s: &str) -> Vec<String> {
    let alt: String = s
        .chars()
        .enumerate()
        .map(|(i, c)| if i % 2 == 0 { c.to_ascii_uppercase() } else { c.to_ascii_lowercase() })
        .collect();
    vec![s.to_string(), s.to_ascii_lowercase(), s.to_ascii_uppercase(), alt]
}

#[test]
fn worked_example_roundtrips() {
    let enc = encode("imran", "mydomain.com").unwrap();
    assert_eq!(enc, "imran.mydomain-.com");
    assert_eq!(decode(&enc), Some(("imran".to_string(), "mydomain.com".to_string())));
}

#[test]
fn separator_is_the_only_bare_dot() {
    for (local, domain) in [
        ("imran", "mydomain.com"),
        ("a.b.c", "x.y.z.example.co.uk"),
        ("first.last", "sub.domain.example.org"),
    ] {
        let enc = encode(local, domain).unwrap();
        let bytes = enc.as_bytes();
        let mut bare_dots = 0;
        let mut i = 0;
        while i < bytes.len() {
            if bytes[i] == b'-' {
                i += 2; // skip the escape pair, so its `.` is not counted as bare
                continue;
            }
            if bytes[i] == b'.' {
                bare_dots += 1;
            }
            i += 1;
        }
        assert_eq!(bare_dots, 1, "encoding {enc:?} must have exactly one bare separator dot");
    }
}

#[test]
fn roundtrip_matrix_multilabel_and_dotted_local() {
    let locals = [
        "imran",
        "a",
        "first.last",
        "a.b.c.d",
        "user+tag",
        "user_name",
        "with-hyphen",
        "-.-", // hyphens and dots interior (leading/trailing dot excluded)
        "a-b.c_d+e",
        "0123456789",
    ];
    let domains = [
        "com",
        "mydomain.com",
        "example.co.uk",
        "a.b.c.d.e.f.example.org",
        "xn--kbenhavn-54a.example", // punycode label
        "host-with-hyphen.example.com",
        "1.2.3.4.example",
        "sub.domain.example.museum",
    ];
    for l in locals {
        if encode(l, "example.com").is_err() {
            continue;
        }
        for d in domains {
            let enc = encode(l, d).expect("valid pair encodes");
            let (dl, dd) = decode(&enc).expect("encoded form decodes");
            assert_eq!(
                dl,
                l.to_ascii_lowercase(),
                "local mismatch for ({l:?},{d:?}) enc={enc:?}"
            );
            assert_eq!(
                dd,
                d.to_ascii_lowercase(),
                "domain mismatch for ({l:?},{d:?}) enc={enc:?}"
            );
            assert!(enc.len() <= MAX_LOCALPART_LEN);
        }
    }
}

#[test]
fn dots_in_domain_are_unambiguous() {
    let a = encode("a", "b.c").unwrap();
    let b = encode("a.b", "c").unwrap();
    let c = encode("a.b.c", "d").unwrap();
    assert_ne!(a, b);
    assert_ne!(b, c);
    assert_ne!(a, c);
    assert_eq!(decode(&a).unwrap(), ("a".into(), "b.c".into()));
    assert_eq!(decode(&b).unwrap(), ("a.b".into(), "c".into()));
    assert_eq!(decode(&c).unwrap(), ("a.b.c".into(), "d".into()));
}

#[test]
fn injective_no_two_pairs_collide() {
    let mut seen: HashMap<String, (String, String)> = HashMap::new();
    let locals = ["a", "a.b", "a-b", "a--b", "a.b.c", "x-.y", "user+t", "u_v"];
    let domains = ["c", "b.c", "b-c", "b.c.d", "x--y.z", "example.co.uk"];
    for l in locals {
        if encode(l, "example.com").is_err() {
            continue;
        }
        for d in domains {
            let enc = encode(l, d).unwrap();
            let pair = (l.to_ascii_lowercase(), d.to_ascii_lowercase());
            if let Some(prev) = seen.insert(enc.clone(), pair.clone()) {
                assert_eq!(
                    prev, pair,
                    "distinct pairs {prev:?} and {pair:?} collided to {enc:?}"
                );
            }
        }
    }
}

#[test]
fn survives_case_folding() {
    for (local, domain) in [
        ("Imran", "MyDomain.COM"),
        ("First.Last", "Sub.Example.Org"),
        ("USER+Tag", "Example.CO.UK"),
    ] {
        let enc = encode(local, domain).unwrap();
        let want = (local.to_ascii_lowercase(), domain.to_ascii_lowercase());
        for folded in case_variants(&enc) {
            assert_eq!(
                decode(&folded),
                Some(want.clone()),
                "case variant {folded:?} must decode"
            );
        }
    }
}

#[test]
fn encode_is_idempotent_under_lowercasing() {
    assert_eq!(
        encode("Imran", "MyDomain.Com").unwrap(),
        encode("imran", "mydomain.com").unwrap()
    );
}

#[test]
fn reject_malformed_decode_inputs() {
    let bad = [
        "",                  // empty
        "imran",             // no separator at all
        "imranmydomain-com", // no bare separator dot
        ".mydomain-.com",    // empty local component
        "imran.",            // empty domain component
        "imran-",            // dangling escape at end of local
        "imran.-",           // dangling escape at end of domain
        "imran.mydo-main",   // `-m`: invalid escape (not `--`/`-.`)
        "a.b.c",             // second bare dot ⇒ domain has a bare dot ⇒ malformed
        "imran..com",        // doubled bare dot
        "-.local.dom-.com",  // decodes to local ".local" (leading dot) ⇒ invalid local
        "im ran.dom-.com",   // space is not a permitted byte
    ];
    for s in bad {
        assert_eq!(decode(s), None, "expected {s:?} to be rejected fail-closed");
    }
}

#[test]
fn reject_invalid_encode_inputs() {
    assert!(matches!(encode("", "example.com"), Err(ForwardedAddrError::InvalidLocal(_))));
    assert!(matches!(encode(".lead", "example.com"), Err(ForwardedAddrError::InvalidLocal(_))));
    assert!(matches!(
        encode("trail.", "example.com"),
        Err(ForwardedAddrError::InvalidLocal(_))
    ));
    assert!(matches!(encode("a..b", "example.com"), Err(ForwardedAddrError::InvalidLocal(_))));
    assert!(matches!(
        encode("bad space", "example.com"),
        Err(ForwardedAddrError::InvalidLocal(_))
    ));
    assert!(matches!(encode("a", ""), Err(ForwardedAddrError::InvalidDomain(_))));
    assert!(matches!(encode("a", "example..com"), Err(ForwardedAddrError::InvalidDomain(_))));
    assert!(matches!(encode("a", "-lead.com"), Err(ForwardedAddrError::InvalidDomain(_))));
    assert!(matches!(encode("a", "trail-.com"), Err(ForwardedAddrError::InvalidDomain(_))));
    assert!(matches!(
        encode("a", "under_score.com"),
        Err(ForwardedAddrError::InvalidDomain(_))
    ));
}

#[test]
fn reject_overlong_encoding() {
    let long_domain = format!("{}.example.com", "a".repeat(60));
    assert!(matches!(encode("user", &long_domain), Err(ForwardedAddrError::TooLong(_))));
}

#[test]
fn boundary_length_encoding_is_accepted_and_roundtrips() {
    let enc = encode("user", "example.com").unwrap();
    assert!(enc.len() <= MAX_LOCALPART_LEN);
    assert_eq!(decode(&enc).unwrap(), ("user".into(), "example.com".into()));
}

#[test]
fn hyphen_heavy_components_roundtrip() {
    for (l, d) in [("a---b", "x--y.z"), ("--", "a-b.c-d"), ("a-.-b", "e-.-f.g")] {
        if let Ok(enc) = encode(l, d) {
            assert_eq!(
                decode(&enc),
                Some((l.to_ascii_lowercase(), d.to_ascii_lowercase())),
                "hyphen-heavy ({l:?},{d:?}) enc={enc:?}"
            );
        }
    }
}

#[test]
fn decode_rejects_noncanonical_reencode_mismatch() {
    assert!(decode("a--b.c").is_some()); // canonical: local "a-b", domain "c"
    assert!(decode("a-b.c").is_none()); // `-b` is not a valid escape ⇒ rejected
}
