use comet::{parse_tag, tag_text};

#[test]
fn tag_text_is_decimal() {
    assert_eq!(tag_text(0), "0");
    assert_eq!(tag_text(42), "42");
    assert_eq!(tag_text(u64::MAX), "18446744073709551615");
}

#[test]
fn tag_text_reads_back() {
    for t in [0u64, 7, 10, 123456789, u64::MAX] {
        assert_eq!(parse_tag(&tag_text(t)), Some(t));
    }
}

#[test]
fn parse_tag_accepts_json_space() {
    assert_eq!(parse_tag(" 42\n"), Some(42));
    assert_eq!(parse_tag("\t7\r"), Some(7));
}

#[test]
fn parse_tag_rejects_what_is_not_a_tag() {
    assert_eq!(parse_tag(""), None);
    assert_eq!(parse_tag("abc"), None);
    assert_eq!(parse_tag("-1"), None);
    assert_eq!(parse_tag("042"), None);
    assert_eq!(parse_tag("1.0"), None);
    assert_eq!(parse_tag("1e2"), None);
    assert_eq!(parse_tag("+1"), None);
    assert_eq!(parse_tag("18446744073709551616"), None);
    assert_eq!(parse_tag("4 2"), None);
}
