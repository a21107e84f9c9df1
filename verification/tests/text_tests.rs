use diff_stats::text::{decimal_text, decode, first_char, same_text, split_lines, starts_with};

// What `str::lines` of the standard library gives.
fn std_lines(text: &str) -> Vec<String> {
    text.lines().map(|line| line.to_string()).collect()
}

#[test]
fn decode_takes_utf8_only() {
    assert_eq!(decode(Vec::new()), Some(String::new()));
    assert_eq!(decode(b"plain".to_vec()), Some("plain".to_string()));
    assert_eq!(decode("día ☃".as_bytes().to_vec()), Some("día ☃".to_string()));
    assert_eq!(decode(vec![0xff]), None);
    assert_eq!(decode(vec![0x61, 0xe2, 0x98]), None);
    assert_eq!(decode(vec![0xc0, 0x80]), None);
    assert_eq!(decode(vec![0xed, 0xa0, 0x80]), None);
}

#[test]
fn lines_end_at_line_feeds() {
    assert_eq!(split_lines(""), Vec::<String>::new());
    assert_eq!(split_lines("one"), vec!["one"]);
    assert_eq!(split_lines("one\n"), vec!["one"]);
    assert_eq!(split_lines("one\ntwo"), vec!["one", "two"]);
    assert_eq!(split_lines("one\n\ntwo\n"), vec!["one", "", "two"]);
    assert_eq!(split_lines("\n"), vec![""]);
    assert_eq!(split_lines("\n\n"), vec!["", ""]);
}

#[test]
fn carriage_return_before_line_feed_is_dropped() {
    assert_eq!(split_lines("one\r\ntwo\r\n"), vec!["one", "two"]);
    assert_eq!(split_lines("one\r\n\r\ntwo"), vec!["one", "", "two"]);
    assert_eq!(split_lines("a\rb\nc"), vec!["a\rb", "c"]);
    assert_eq!(split_lines("a\r\r\nb"), vec!["a\r", "b"]);
    assert_eq!(split_lines("a\r"), vec!["a\r"]);
    assert_eq!(split_lines("\r"), vec!["\r"]);
    assert_eq!(split_lines("\r\n"), vec![""]);
    assert_eq!(split_lines("a\n\r"), vec!["a", "\r"]);
}

#[test]
fn lines_are_those_of_the_standard_library() {
    for text in [
        "",
        "\n",
        "\r",
        "\r\n",
        "a",
        "a\n",
        "a\r\n",
        "a\r",
        "a\rb",
        "a\r\rb\r\r\n\rc\n\n\r\n",
        "día\n☃\r\nend",
        "diff --git a/x b/x\nindex 1..2\n",
    ] {
        assert_eq!(split_lines(text), std_lines(text), "text {:?}", text);
    }
}

#[test]
fn first_character_of_a_line() {
    assert_eq!(first_char(""), None);
    assert_eq!(first_char("d"), Some('d'));
    assert_eq!(first_char("ébc"), Some('é'));
}

#[test]
fn prefix_is_compared_by_character() {
    assert!(starts_with("--- a/x", "---"));
    assert!(starts_with("---", "---"));
    assert!(starts_with("anything", ""));
    assert!(starts_with("", ""));
    assert!(!starts_with("--", "---"));
    assert!(!starts_with("", "-"));
    assert!(!starts_with("-+-", "---"));
    assert!(starts_with("éa", "é"));
    assert!(!starts_with("ea", "é"));
}

#[test]
fn texts_are_the_same_when_all_characters_are() {
    assert!(same_text("", ""));
    assert!(same_text("f()", "f()"));
    assert!(!same_text("f()", "f("));
    assert!(!same_text("f(", "f()"));
    assert!(!same_text("f()", "g()"));
    assert!(!same_text("", "a"));
}

#[test]
fn numbers_are_written_in_decimal() {
    assert_eq!(decimal_text(0), "0");
    assert_eq!(decimal_text(7), "7");
    assert_eq!(decimal_text(10), "10");
    assert_eq!(decimal_text(109), "109");
    assert_eq!(decimal_text(1234567890), "1234567890");
    assert_eq!(decimal_text(usize::MAX), usize::MAX.to_string());
}
