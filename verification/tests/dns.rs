use wakala::dns::{
    build_query, encode_name, encode_query, parse_a_rdata, parse_aaaa_rdata, parse_mx_rdata,
    parse_response, parse_txt_rdata, random_txn_id, read_name, txn_id_from, DnsError, CLASS_IN, TYPE_A,
    TYPE_AAAA, TYPE_MX, TYPE_TXT,
};

fn build_response(qname: &str, qtype: u16, rrs: &[(u16, Vec<u8>)]) -> Vec<u8> {
    let mut buf = Vec::new();
    buf.extend_from_slice(&0x1234u16.to_be_bytes()); // id
    buf.extend_from_slice(&0x8180u16.to_be_bytes()); // flags: response, RA, no error
    buf.extend_from_slice(&1u16.to_be_bytes()); // qdcount
    buf.extend_from_slice(&(rrs.len() as u16).to_be_bytes()); // ancount
    buf.extend_from_slice(&0u16.to_be_bytes());
    buf.extend_from_slice(&0u16.to_be_bytes());
    let qname_offset = buf.len();
    encode_name(&mut buf, qname);
    buf.extend_from_slice(&qtype.to_be_bytes());
    buf.extend_from_slice(&CLASS_IN.to_be_bytes());
    for (rtype, rdata) in rrs {
        let ptr = 0xC000u16 | (qname_offset as u16 & 0x3FFF);
        buf.extend_from_slice(&ptr.to_be_bytes());
        buf.extend_from_slice(&rtype.to_be_bytes());
        buf.extend_from_slice(&CLASS_IN.to_be_bytes());
        buf.extend_from_slice(&300u32.to_be_bytes()); // ttl
        buf.extend_from_slice(&(rdata.len() as u16).to_be_bytes());
        buf.extend_from_slice(rdata);
    }
    buf
}

fn mx_rdata(preference: u16, exchange: &str) -> Vec<u8> {
    let mut r = Vec::new();
    r.extend_from_slice(&preference.to_be_bytes());
    encode_name(&mut r, exchange);
    r
}

#[test]
fn round_trips_a_single_mx_record() {
    let packet =
        build_response("example.org", TYPE_MX, &[(TYPE_MX, mx_rdata(10, "mail.example.org"))]);
    let msg = parse_response(&packet).expect("parses");
    assert_eq!(msg.rcode, 0);
    assert_eq!(msg.answers.len(), 1);
    let (pref, exch) = parse_mx_rdata(&packet, &msg.answers[0]).expect("mx rdata");
    assert_eq!(pref, 10);
    assert_eq!(exch, "mail.example.org");
}

#[test]
fn round_trips_multiple_mx_records_with_compressed_exchange_names() {
    let mut buf = Vec::new();
    buf.extend_from_slice(&0xAAAAu16.to_be_bytes());
    buf.extend_from_slice(&0x8180u16.to_be_bytes());
    buf.extend_from_slice(&1u16.to_be_bytes());
    buf.extend_from_slice(&2u16.to_be_bytes());
    buf.extend_from_slice(&0u16.to_be_bytes());
    buf.extend_from_slice(&0u16.to_be_bytes());
    let qname_offset = buf.len();
    encode_name(&mut buf, "example.org");
    buf.extend_from_slice(&TYPE_MX.to_be_bytes());
    buf.extend_from_slice(&CLASS_IN.to_be_bytes());

    let ptr = 0xC000u16 | (qname_offset as u16);
    buf.extend_from_slice(&ptr.to_be_bytes());
    buf.extend_from_slice(&TYPE_MX.to_be_bytes());
    buf.extend_from_slice(&CLASS_IN.to_be_bytes());
    buf.extend_from_slice(&300u32.to_be_bytes());
    let exch1_label_offset = buf.len() + 4; // rdata starts after rdlength field (2 bytes pref + label start)
    let rdata1 = mx_rdata(20, "mx-a.example.org");
    buf.extend_from_slice(&(rdata1.len() as u16).to_be_bytes());
    buf.extend_from_slice(&rdata1);
    let _ = exch1_label_offset;

    let mut rdata2 = Vec::new();
    rdata2.extend_from_slice(&5u16.to_be_bytes());
    rdata2.push(4);
    rdata2.extend_from_slice(b"mx-b");
    let ptr2 = 0xC000u16 | (qname_offset as u16);
    rdata2.extend_from_slice(&ptr2.to_be_bytes());
    buf.extend_from_slice(&ptr.to_be_bytes());
    buf.extend_from_slice(&TYPE_MX.to_be_bytes());
    buf.extend_from_slice(&CLASS_IN.to_be_bytes());
    buf.extend_from_slice(&300u32.to_be_bytes());
    buf.extend_from_slice(&(rdata2.len() as u16).to_be_bytes());
    buf.extend_from_slice(&rdata2);

    let msg = parse_response(&buf).expect("parses");
    assert_eq!(msg.answers.len(), 2);
    let (p1, e1) = parse_mx_rdata(&buf, &msg.answers[0]).unwrap();
    let (p2, e2) = parse_mx_rdata(&buf, &msg.answers[1]).unwrap();
    assert_eq!((p1, e1.as_str()), (20, "mx-a.example.org"));
    assert_eq!(
        (p2, e2.as_str()),
        (5, "mx-b.example.org"),
        "pointer-compressed exchange name resolves"
    );
}

#[test]
fn round_trips_a_record() {
    let packet = build_response("mail.example.org", TYPE_A, &[(TYPE_A, vec![203, 0, 113, 7])]);
    let msg = parse_response(&packet).unwrap();
    assert_eq!(parse_a_rdata(&msg.answers[0]), Some([203, 0, 113, 7]));
}

#[test]
fn round_trips_aaaa_record() {
    let addr: [u8; 16] = [0x20, 0x01, 0x0d, 0xb8, 0, 0, 0, 0, 0, 0, 0, 0, 0, 0, 0, 1];
    let packet = build_response("mail.example.org", TYPE_AAAA, &[(TYPE_AAAA, addr.to_vec())]);
    let msg = parse_response(&packet).unwrap();
    assert_eq!(parse_aaaa_rdata(&msg.answers[0]), Some(addr));
}

#[test]
fn aaaa_rdata_of_wrong_length_is_none_not_a_panic() {
    let packet = build_response("mail.example.org", TYPE_AAAA, &[(TYPE_AAAA, vec![1, 2, 3])]);
    let msg = parse_response(&packet).unwrap();
    assert_eq!(parse_aaaa_rdata(&msg.answers[0]), None);
}

#[test]
fn round_trips_txt_record_with_multiple_strings() {
    let mut rdata = Vec::new();
    rdata.push(9);
    rdata.extend_from_slice(b"v=STSv1; ");
    rdata.push(6);
    rdata.extend_from_slice(b"id=123");
    let packet = build_response("_mta-sts.example.org", TYPE_TXT, &[(TYPE_TXT, rdata)]);
    let msg = parse_response(&packet).unwrap();
    assert_eq!(parse_txt_rdata(&msg.answers[0]), "v=STSv1; id=123");
}

#[test]
fn nxdomain_rcode_yields_no_answers_not_a_parse_error() {
    let mut buf = Vec::new();
    buf.extend_from_slice(&1u16.to_be_bytes());
    buf.extend_from_slice(&0x8183u16.to_be_bytes()); // rcode 3 = NXDOMAIN
    buf.extend_from_slice(&1u16.to_be_bytes());
    buf.extend_from_slice(&0u16.to_be_bytes());
    buf.extend_from_slice(&0u16.to_be_bytes());
    buf.extend_from_slice(&0u16.to_be_bytes());
    encode_name(&mut buf, "nowhere.invalid");
    buf.extend_from_slice(&TYPE_MX.to_be_bytes());
    buf.extend_from_slice(&CLASS_IN.to_be_bytes());
    let msg = parse_response(&buf).unwrap();
    assert_eq!(msg.rcode, 3);
    assert!(msg.answers.is_empty());
}

#[test]
fn truncated_packet_is_a_dns_error_not_a_panic() {
    assert_eq!(parse_response(&[0u8; 4]), Err(DnsError::Truncated));
    let packet =
        build_response("example.org", TYPE_MX, &[(TYPE_MX, mx_rdata(10, "mail.example.org"))]);
    assert!(parse_response(&packet[..packet.len() - 3]).is_err());
}

#[test]
fn txn_id_is_not_a_constant_and_spans_the_16_bit_space() {
    let ids: std::collections::HashSet<u16> =
        (0..256).map(|_| random_txn_id().expect("csprng")).collect();
    assert!(ids.len() > 200, "CSPRNG ids should be overwhelmingly distinct, got {}", ids.len());
    assert!(ids.iter().any(|&x| x > 0x00FF), "high byte varies");
    assert!(ids.iter().any(|&x| x & 0x00FF != 0), "low byte varies");
}

#[test]
fn self_referential_pointer_is_rejected_not_an_infinite_loop() {
    let mut buf = vec![0u8; 12];
    buf.extend_from_slice(&[0xC0, 12]); // pointer to offset 12 == itself
    assert_eq!(read_name(&buf, 12), Err(DnsError::BadPointer));
}

#[test]
fn names_are_read_back_as_they_were_written() {
    let mut buf = Vec::new();
    encode_name(&mut buf, "mail.example.org");
    assert_eq!(buf[..5], [4, b'm', b'a', b'i', b'l']);
    assert_eq!(read_name(&buf, 0), Ok(("mail.example.org".to_string(), buf.len())));
}

#[test]
fn a_pointer_forward_is_refused() {
    let buf = [0xC0u8, 2, 1, b'a', 0];
    assert_eq!(read_name(&buf, 0), Err(DnsError::BadPointer));
}

#[test]
fn a_query_is_the_question_that_was_asked() {
    let q = encode_query(0x1234, "example.org", TYPE_MX);
    assert_eq!(q[..12], [0x12, 0x34, 0x01, 0x00, 0, 1, 0, 0, 0, 0, 0, 0]);
    assert_eq!(q[q.len() - 4..], [0, 15, 0, 1]);
    assert_eq!(build_query(7, "B\u{fc}cher.example", TYPE_A).unwrap(), encode_query(7, "xn--bcher-kva.example", TYPE_A));
    assert!(build_query(7, "exa mple.bad", TYPE_A).is_err());
    assert_eq!(txn_id_from(0x12, 0x34), 0x1234);
}

#[test]
fn text_that_is_no_utf8_is_replaced() {
    let rdata = vec![3, b'a', 0xff, b'b'];
    let packet = build_response("x.example", TYPE_TXT, &[(TYPE_TXT, rdata)]);
    let msg = parse_response(&packet).unwrap();
    assert_eq!(parse_txt_rdata(&msg.answers[0]), "a\u{fffd}b");
}
