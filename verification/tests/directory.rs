use wakala::b64;
use wakala::directory::{DirectoryError, FileDirectory, InMemoryDirectory, KeyDirectory, RecipientKey};

fn key(ik: &[u8], seal: &[u8]) -> RecipientKey {
    RecipientKey { ik: ik.to_vec(), seal_pub: seal.to_vec() }
}

#[test]
fn in_memory_resolves_case_insensitively() {
    let dir = InMemoryDirectory::new()
        .with_recipient("Alice@Example.ORG", key(&[1, 2, 3], &[4, 5, 6]));
    assert_eq!(dir.resolve("alice@example.org"), Some(key(&[1, 2, 3], &[4, 5, 6])));
    assert_eq!(dir.resolve("ALICE@EXAMPLE.ORG"), Some(key(&[1, 2, 3], &[4, 5, 6])));
    assert_eq!(dir.resolve(" alice@example.org "), Some(key(&[1, 2, 3], &[4, 5, 6])));
    assert_eq!(dir.resolve("bob@example.org"), None);
    assert_eq!(dir.len(), 1);
    assert!(!dir.is_empty());
}

#[test]
fn parses_the_reference_file_format_with_comments_and_blanks() {
    let ik = b64::encode(&[9u8; 32]);
    let seal = b64::encode(&[7u8; 32]);
    let text = format!(
        "# recipient directory\n\
         \n\
         alice@example.org  {ik}  {seal}   # inline comment\n\
         bob@example.org {ik} {seal}\n"
    );
    let dir = InMemoryDirectory::parse(&text).unwrap_or_else(|e| panic!("{e:?}"));
    assert_eq!(dir.len(), 2);
    assert_eq!(dir.resolve("alice@example.org").unwrap().ik, vec![9u8; 32]);
    assert_eq!(dir.resolve("bob@example.org").unwrap().seal_pub, vec![7u8; 32]);
}

#[test]
fn parse_fails_closed_on_a_malformed_line() {
    let ik = b64::encode(&[1u8; 32]);
    let text = format!("alice@example.org {ik}\n");
    assert_eq!(
        InMemoryDirectory::parse(&text).err(),
        Some(DirectoryError::MissingField { line: 1, field: "seal" })
    );

    let seal = b64::encode(&[2u8; 32]);
    let text = format!("notanemail {ik} {seal}\n");
    assert!(matches!(
        InMemoryDirectory::parse(&text),
        Err(DirectoryError::BadAddress { line: 1, .. })
    ));

    let text = "alice@example.org !!!!! @@@@@\n";
    assert!(matches!(
        InMemoryDirectory::parse(text),
        Err(DirectoryError::BadBase64 { line: 1, field: "ik", .. })
    ));

    let text = format!("alice@example.org {ik} {seal} extra-token\n");
    assert_eq!(InMemoryDirectory::parse(&text).err(), Some(DirectoryError::TrailingData { line: 1 }));
}

#[test]
fn a_file_directory_reads_the_text_of_a_file() {
    let ik = b64::encode(&[3u8; 32]);
    let seal = b64::encode(&[4u8; 32]);
    let text = format!("carol@example.org {ik} {seal}\n");
    let dir = match FileDirectory::from_text("directory.txt", Ok(text)) {
        Ok(dir) => dir,
        Err(e) => panic!("{e:?}"),
    };
    assert_eq!(dir.len(), 1);
    assert!(!dir.is_empty());
    assert_eq!(dir.resolve("carol@example.org").unwrap().ik, vec![3u8; 32]);
    assert!(dir.resolve("nobody@example.org").is_none());
}

#[test]
fn missing_file_is_an_io_error_not_a_panic() {
    assert!(matches!(
        FileDirectory::from_text(
            "/nonexistent/envoir/gateway/directory.txt",
            Err("No such file or directory".to_string())
        ),
        Err(DirectoryError::Io { .. })
    ));
}
