use wakala::mote::strip_trust_boundary_headers;

#[test]
fn removes_a_forged_authentication_results_header() {
    let msg = b"From: attacker@evil.example\r\n\
Authentication-Results: dmtap.gw; dkim=pass header.d=paypal.com\r\n\
Subject: hi\r\n\r\nbody\r\n";
    let out = strip_trust_boundary_headers(msg);
    let out_s = String::from_utf8_lossy(&out);
    assert!(!out_s.to_ascii_lowercase().contains("authentication-results"));
    assert!(out_s.contains("From: attacker@evil.example"));
    assert!(out_s.contains("Subject: hi"));
    assert!(out_s.ends_with("\r\n\r\nbody\r\n"));
}

#[test]
fn removes_all_three_arc_headers_case_insensitively() {
    let msg = b"From: a@b.example\r\n\
arc-seal: i=1; a=rsa-sha256; d=example.org; s=x; t=1; cv=none; b=xxx\r\n\
ARC-Message-Signature: i=1; a=rsa-sha256; d=example.org; s=x; b=yyy\r\n\
Arc-Authentication-Results: i=1; mx.example.org; dkim=pass\r\n\
Subject: hi\r\n\r\nbody\r\n";
    let out = strip_trust_boundary_headers(msg);
    let out_s = String::from_utf8_lossy(&out).to_ascii_lowercase();
    assert!(!out_s.contains("arc-seal"));
    assert!(!out_s.contains("arc-message-signature"));
    assert!(!out_s.contains("arc-authentication-results"));
    assert!(out_s.contains("from: a@b.example"));
    assert!(out_s.contains("subject: hi"));
}

#[test]
fn preserves_the_senders_own_dkim_signature_and_ordinary_headers_untouched() {
    let msg = b"DKIM-Signature: v=1; a=rsa-sha256; d=example.org; s=sel; b=abc\r\n\
From: a@example.org\r\n\
To: b@host.net\r\n\
Subject: hi\r\n\r\nbody\r\n";
    let out = strip_trust_boundary_headers(msg);
    assert_eq!(out, msg, "no trust-boundary header present ⇒ byte-identical output");
}

#[test]
fn removes_a_stripped_headers_folded_continuation_lines_too() {
    let mut msg = Vec::new();
    msg.extend_from_slice(b"From: a@b.example\r\n");
    msg.extend_from_slice(b"Authentication-Results: dmtap.gw;\r\n");
    msg.extend_from_slice(b" dkim=pass header.d=paypal.com;\r\n");
    msg.extend_from_slice(b" spf=pass\r\n");
    msg.extend_from_slice(b"Subject: hi\r\n\r\nbody\r\n");
    let out = strip_trust_boundary_headers(&msg);
    let out_s = String::from_utf8_lossy(&out);
    assert!(!out_s.to_ascii_lowercase().contains("authentication-results"));
    assert!(!out_s.contains("dkim=pass"), "the folded continuation line must go with it");
    assert!(out_s.contains("From: a@b.example"));
    assert!(out_s.contains("Subject: hi"));
}

#[test]
fn preserves_a_kept_headers_folded_continuation_lines() {
    let msg = b"Subject: a very long\r\n subject that folds\r\n\r\nbody\r\n";
    let out = strip_trust_boundary_headers(msg);
    assert_eq!(out, msg);
}

#[test]
fn removes_multiple_authentication_results_instances_from_multiple_hops() {
    let msg = b"Authentication-Results: mx1.example; dkim=pass\r\n\
From: a@b.example\r\n\
Authentication-Results: mx2.example; dkim=fail\r\n\
Subject: hi\r\n\r\nbody\r\n";
    let out = strip_trust_boundary_headers(msg);
    let out_s = String::from_utf8_lossy(&out).to_ascii_lowercase();
    assert!(!out_s.contains("authentication-results"));
    assert!(out_s.contains("from: a@b.example"));
    assert!(out_s.contains("subject: hi"));
}

#[test]
fn body_is_carried_through_byte_exact_including_lookalike_bytes() {
    let msg = b"From: a@b.example\r\n\r\nAuthentication-Results: not-a-real-header\r\n\r\nmore\r\n";
    let out = strip_trust_boundary_headers(msg);
    assert_eq!(out, msg, "body content is never reinterpreted as headers");
}

#[test]
fn a_message_with_no_header_body_separator_is_returned_unchanged() {
    let msg = b"this is not a well-formed message at all";
    assert_eq!(strip_trust_boundary_headers(msg), msg);
}

#[test]
fn stripping_is_idempotent() {
    let msg = b"Authentication-Results: dmtap.gw; dkim=pass\r\nFrom: a@b.example\r\n\r\nbody\r\n";
    let once = strip_trust_boundary_headers(msg);
    let twice = strip_trust_boundary_headers(&once);
    assert_eq!(once, twice);
}

#[test]
fn empty_header_block_round_trips() {
    let msg = b"\r\nbody with no headers at all\r\n";
    assert_eq!(strip_trust_boundary_headers(msg), msg);
}

#[test]
fn a_malformed_leading_continuation_line_does_not_corrupt_output() {
    let msg = b" not-really-a-continuation\r\nFrom: a@b.example\r\n\r\nbody\r\n";
    let out = strip_trust_boundary_headers(msg);
    let out_s = String::from_utf8_lossy(&out);
    assert!(out_s.contains("From: a@b.example"));
    assert!(out_s.ends_with("\r\n\r\nbody\r\n"));
}

#[test]
fn a_verdict_with_blanks_around_its_name_goes_too() {
    let msg = b"From: a@b.example\r\nARC-Seal\t: i=1\r\n\r\nbody\r\n";
    assert_eq!(strip_trust_boundary_headers(msg), b"From: a@b.example\r\n\r\nbody\r\n");
    let first = b"  Authentication-Results: x\r\nFrom: a@b.example\r\n\r\nbody\r\n";
    assert_eq!(strip_trust_boundary_headers(first), b"From: a@b.example\r\n\r\nbody\r\n");
}
