use kotva_mail::store::{MailStore, MemoryStore};
use wakala::legacy_net::AfterReply;
use wakala::imap_access::{after_command, is_message_file, is_starttls_command, response_is_ok, seed_inbox, seed_inbox_with_room, ImapTls};

#[test]
fn imap_access_parses_tls_mode_spellings() {
    assert_eq!(ImapTls::parse("starttls"), Some(ImapTls::StartTls));
    assert_eq!(ImapTls::parse("STARTTLS"), Some(ImapTls::StartTls));
    assert_eq!(ImapTls::parse("implicit"), Some(ImapTls::Implicit));
    assert_eq!(ImapTls::parse("993"), Some(ImapTls::Implicit));
    assert_eq!(ImapTls::parse("plaintext"), None);
}

#[test]
fn detects_starttls_command() {
    assert!(is_starttls_command(b"a1 STARTTLS\r\n"));
    assert!(is_starttls_command(b"x starttls\r\n"));
    assert!(!is_starttls_command(b"a1 LOGIN u p\r\n"));
    assert!(!is_starttls_command(b"a1 CAPABILITY\r\n"));
}

#[test]
fn recognizes_affirmative_response() {
    assert!(response_is_ok(b"a1 OK Begin TLS negotiation now\r\n"));
    assert!(!response_is_ok(b"a1 NO nope\r\n"));
    assert!(!response_is_ok(b"a1 BAD malformed\r\n"));
    assert!(!response_is_ok(b"* OK server ready\r\n"));
}

#[test]
fn an_ok_elsewhere_in_a_reply_is_none() {
    assert!(!response_is_ok(b"a1 NO STARTTLS is not OK now\r\n"));
    assert!(!response_is_ok(b"+ OK go on\r\n"));
    assert!(!response_is_ok(b"OK\r\n"));
    assert!(response_is_ok(b"* CAPABILITY IMAP4rev1\r\na1 OK done\r\n"));
}

#[test]
fn an_inbox_that_cannot_number_the_messages_is_left_alone() {
    let messages = vec![(b"one".to_vec(), 1u64), (b"two".to_vec(), 2u64)];
    let mut store = MemoryStore::new();
    store.mailbox_mut("INBOX").unwrap().uid_next = u32::MAX - 1;
    assert_eq!(seed_inbox_with_room(&mut store, &messages), None);
    assert_eq!(store.mailbox("INBOX").unwrap().exists(), 0);
    assert_eq!(seed_inbox_with_room(&mut store, &messages[..1]), Some(1));
    assert_eq!(store.mailbox("INBOX").unwrap().uid_next, u32::MAX);
    store.mailbox_mut("INBOX").unwrap().uid_next = 7;
    store.mailbox_mut("INBOX").unwrap().highest_modseq = u64::MAX;
    assert_eq!(seed_inbox_with_room(&mut store, &messages), None);
}

#[test]
fn messages_are_filed_in_their_order() {
    let messages = vec![
        (b"Subject: First\r\n\r\none\r\n".to_vec(), 1u64),
        (b"Subject: Second\r\n\r\ntwo\r\n".to_vec(), 2u64),
    ];
    let mut store = MemoryStore::new();
    assert_eq!(seed_inbox(&mut store, &messages), 2);
    let inbox = store.mailbox("INBOX").unwrap();
    assert_eq!(inbox.exists(), 2);
    assert!(String::from_utf8_lossy(&inbox.messages[0].raw).contains("First"));
    assert!(String::from_utf8_lossy(&inbox.messages[1].raw).contains("Second"));
}

#[test]
fn tls_starts_where_it_was_asked_for_and_granted() {
    let (ask, ok, no) = (b"a1 STARTTLS\r\n", b"a1 OK go\r\n", b"a1 NO\r\n");
    assert_eq!(after_command(false, ask, ok, false, false), AfterReply::StartTls);
    assert_eq!(after_command(false, ask, ok, true, false), AfterReply::Refuse);
    assert_eq!(after_command(false, ask, no, false, false), AfterReply::GoOn);
    assert_eq!(after_command(true, ask, ok, false, false), AfterReply::GoOn);
    assert_eq!(after_command(true, b"a2 LOGOUT\r\n", ok, false, true), AfterReply::End);
}

#[test]
fn message_files_are_told_by_their_names() {
    for name in ["1.eml", "a.b.EML", "x.Eml"] {
        assert!(is_message_file(name), "{name}");
    }
    for name in ["note.txt", ".eml", "eml", "1.eml.bak", ""] {
        assert!(!is_message_file(name), "{name}");
    }
}
