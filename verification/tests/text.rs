use wakala::json::{json_list, json_str};
use wakala::text::{chars_of, dec_string, parse_number, split_lines, string_of, trim_str};

#[test]
fn numbers_are_read_back_as_they_were_written() {
    for n in [0u64, 9, 10, 65_535, u64::MAX] {
        assert_eq!(dec_string(n), n.to_string());
        assert_eq!(parse_number(&chars_of(&dec_string(n)), u64::MAX), Some(n));
    }
    assert_eq!(parse_number(&chars_of("65536"), 65_535), None);
    assert_eq!(parse_number(&chars_of(""), 10), None);
    assert_eq!(parse_number(&chars_of("1a"), 100), None);
}

#[test]
fn lines_end_in_lf_or_cr_lf() {
    let lines: Vec<String> =
        split_lines(&chars_of("a\r\nb\n\nc")).iter().map(|l| string_of(l)).collect();
    assert_eq!(lines, ["a", "b", "", "c"]);
    assert_eq!(trim_str(" \t x \u{a0}"), "x");
}

#[test]
fn json_text_is_quoted() {
    assert_eq!(json_str("plain"), "\"plain\"");
    assert_eq!(json_str("a\"b\\c\n"), "\"a\\\"b\\\\c\\n\"");
    assert!(!json_str("\u{1}\u{7f}\r").contains('\u{1}'));
    assert_eq!(json_list(&vec![json_str("a"), json_str("b")]), "\"a\",\"b\"");
}
