use wakala::b64::{decode, encode};

#[test]
fn round_trips_and_matches_known_vectors() {
    assert_eq!(encode(b""), "");
    assert_eq!(encode(b"f"), "Zg==");
    assert_eq!(encode(b"fo"), "Zm8=");
    assert_eq!(encode(b"foo"), "Zm9v");
    assert_eq!(encode(b"foob"), "Zm9vYg==");
    assert_eq!(encode(b"fooba"), "Zm9vYmE=");
    assert_eq!(encode(b"foobar"), "Zm9vYmFy");
    for v in [
        &b""[..],
        b"f",
        b"fo",
        b"foo",
        b"the atomic unit of DMTAP",
        &[0u8, 255, 128, 1, 2, 3, 4, 5, 6, 7, 8, 9],
    ] {
        assert_eq!(decode(&encode(v)).unwrap(), v);
    }
}

#[test]
fn what_is_no_base64_is_refused() {
    assert!(decode("Z!==").is_err());
    assert_eq!(decode("Zg==!"), Err("invalid base64 character"));
    assert_eq!(decode("Zg==Zg=="), Ok(b"f".to_vec()));
    assert_eq!(decode("=Zg"), Ok(Vec::new()));
    assert_eq!(decode("Z m\n9v"), Ok(b"foo".to_vec()));
    assert_ne!(encode(b"foo"), encode(b"fop"));
}

#[test]
fn blanks_do_not_change_what_is_decoded() {
    for t in ["Zm9vYmFy", "Zm9vYg==", "Zm8=", "", "Z!"] {
        let spread: String = t.chars().flat_map(|c| [' ', c, '\r', '\n', '\t']).collect();
        assert_eq!(decode(&spread), decode(t));
    }
    assert_eq!(decode(" Z g = = "), Ok(b"f".to_vec()));
}

#[test]
fn missing_padding_does_not_change_what_is_decoded() {
    for v in [&b""[..], b"f", b"fo", b"foo", b"foob", b"fooba"] {
        let e = encode(v);
        let bare = e.trim_end_matches('=');
        assert_eq!(decode(bare), Ok(v.to_vec()));
        assert_eq!(decode(&format!("{bare}=")), Ok(v.to_vec()));
        assert_eq!(decode(&format!("{bare}===")), Ok(v.to_vec()));
    }
}
