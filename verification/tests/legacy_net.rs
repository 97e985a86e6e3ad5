use wakala::legacy_net::{decide, line_step, strip_line_end, verb_of, AfterReply, LegacyTls, LineProtocol};

/// A protocol of three commands.
struct Toy {
    lines: usize,
}

impl LineProtocol for Toy {
    fn greeting(&mut self) -> String {
        "220 toy ready\r\n".to_string()
    }
    fn feed_line_bytes(&mut self, line: &[u8]) -> String {
        self.lines += 1;
        match verb_of(&String::from_utf8_lossy(line)).as_str() {
            "STARTTLS" => "220 go ahead\r\n".to_string(),
            "QUIT" => "221 bye\r\n".to_string(),
            _ => "500 what\r\n".to_string(),
        }
    }
    fn is_starttls(&self, line: &str) -> bool {
        verb_of(line) == "STARTTLS"
    }
    fn accepts_upgrade(&self, reply: &str) -> bool {
        reply.starts_with('2')
    }
    fn is_quit(&self, line: &str) -> bool {
        verb_of(line) == "QUIT"
    }
}

#[test]
fn a_line_is_answered_and_acted_on() {
    let mut p = Toy { lines: 0 };
    assert_eq!(p.greeting(), "220 toy ready\r\n");
    assert_eq!(
        line_step(&mut p, false, b"noop\r\n", false),
        ("500 what\r\n".to_string(), AfterReply::GoOn)
    );
    assert_eq!(
        line_step(&mut p, false, b"starttls\r\n", false),
        ("220 go ahead\r\n".to_string(), AfterReply::StartTls)
    );
    assert_eq!(line_step(&mut p, true, b"starttls\r\n", false).1, AfterReply::GoOn);
    assert_eq!(line_step(&mut p, false, b"quit\r\n", true).1, AfterReply::End);
    assert_eq!(p.lines, 4);
}

#[test]
fn nothing_slips_into_tls() {
    let mut p = Toy { lines: 0 };
    assert_eq!(line_step(&mut p, false, b"STARTTLS\r\n", true).1, AfterReply::Refuse);
    assert_eq!(decide(true, true, true), AfterReply::Refuse);
    assert_eq!(decide(true, false, true), AfterReply::StartTlsAndEnd);
}

#[test]
fn line_ends_are_stripped() {
    assert_eq!(strip_line_end(b"NOOP\r\n"), b"NOOP");
    assert_eq!(strip_line_end(b"NOOP\n\r\n"), b"NOOP");
    assert_eq!(strip_line_end(b" NOOP "), b" NOOP ");
}

#[test]
fn legacy_net_parses_tls_mode_spellings() {
    assert_eq!(LegacyTls::parse("starttls"), Some(LegacyTls::StartTls));
    assert_eq!(LegacyTls::parse("STARTTLS"), Some(LegacyTls::StartTls));
    assert_eq!(LegacyTls::parse("implicit"), Some(LegacyTls::Implicit));
    assert_eq!(LegacyTls::parse("995"), Some(LegacyTls::Implicit));
    assert_eq!(LegacyTls::parse("plaintext"), None);
    assert!(LegacyTls::Implicit.is_implicit());
    assert!(!LegacyTls::StartTls.is_implicit());
}

#[test]
fn verb_is_the_uppercased_first_token() {
    assert_eq!(verb_of("stls\r\n"), "STLS");
    assert_eq!(verb_of("  QuIt  "), "QUIT");
    assert_eq!(verb_of("MAIL FROM:<a@b>"), "MAIL");
    assert_eq!(verb_of(""), "");
}
