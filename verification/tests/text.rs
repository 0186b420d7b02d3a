use line_test::text::{
    chars_of, decimal, join_texts, parse_u32, split, strip_prefix, strip_suffix,
};

#[test]
fn chars_of_gives_every_character() {
    assert_eq!(chars_of("aß∂"), vec!['a', 'ß', '∂']);
    assert_eq!(chars_of(""), Vec::<char>::new());
}

#[test]
fn parse_u32_reads_decimal_numbers() {
    assert_eq!(parse_u32("0"), Some(0));
    assert_eq!(parse_u32("007"), Some(7));
    assert_eq!(parse_u32("+15"), Some(15));
    assert_eq!(parse_u32("4294967295"), Some(u32::MAX));
}

#[test]
fn parse_u32_refuses_what_is_no_number() {
    for text in ["", "+", "-", "-5", " 5", "5 ", "1_0", "0x10", "4294967296", "99999999999", "٣", "1+"] {
        assert_eq!(parse_u32(text), None, "{:?}", text);
    }
}

#[test]
fn parse_u32_agrees_with_the_standard_parser() {
    for text in ["12", "+12", "++12", "0000000000012", "12a", "", "+", "4294967295", "4294967296"] {
        assert_eq!(parse_u32(text), text.parse::<u32>().ok(), "{:?}", text);
    }
}

#[test]
fn decimal_writes_numbers_without_leading_zeros() {
    assert_eq!(decimal(0), "0");
    assert_eq!(decimal(9), "9");
    assert_eq!(decimal(10), "10");
    assert_eq!(decimal(4294967295), "4294967295");
    assert_eq!(decimal(u64::MAX), "18446744073709551615");
}

#[test]
fn decimal_reads_back() {
    for n in [0u32, 1, 9, 10, 99, 100, 12345, u32::MAX] {
        assert_eq!(parse_u32(&decimal(n as u64)), Some(n));
    }
}

#[test]
fn split_parts_at_every_separator() {
    assert_eq!(split("a::b::c", "::"), vec!["a", "b", "c"]);
    assert_eq!(split("abc", "::"), vec!["abc"]);
    assert_eq!(split("", "::"), vec![""]);
    assert_eq!(split("a::", "::"), vec!["a", ""]);
    assert_eq!(split("::a", "::"), vec!["", "a"]);
    assert_eq!(split("a:::b", "::"), vec!["a", ":b"]);
    assert_eq!(split("1,2,,3", ","), vec!["1", "2", "", "3"]);
    assert_eq!(split("abc", ""), vec!["abc"]);
}

#[test]
fn split_agrees_with_the_standard_split() {
    for text in ["", "a", "::", "a::b", "a:::b", "::::", "x::y::", ":a:b:"] {
        let expected: Vec<String> = text.split("::").map(|s| s.to_owned()).collect();
        assert_eq!(split(text, "::"), expected, "{:?}", text);
    }
}

#[test]
fn join_puts_the_separator_between() {
    let parts = vec!["a".to_owned(), "b".to_owned(), "c".to_owned()];
    assert_eq!(join_texts(&parts, "::"), "a::b::c");
    assert_eq!(join_texts(&vec!["a".to_owned()], "::"), "a");
    assert_eq!(join_texts(&vec![], "::"), "");
    assert_eq!(join_texts(&vec!["".to_owned(), "".to_owned()], "-"), "-");
}

#[test]
fn prefixes_and_suffixes_are_stripped() {
    assert_eq!(strip_prefix("bin:tool", "bin:"), Some("tool".to_owned()));
    assert_eq!(strip_prefix("bin", "bin:"), None);
    assert_eq!(strip_prefix("xbin:tool", "bin:"), None);
    assert_eq!(strip_suffix("a::b: test", ": test"), Some("a::b".to_owned()));
    assert_eq!(strip_suffix("a::b: bench", ": test"), None);
    assert_eq!(strip_suffix("test", ": test"), None);
    assert_eq!(strip_suffix(": test", ": test"), Some("".to_owned()));
}

#[test]
fn texts_are_equal_by_their_characters() {
    assert!(line_test::text::str_eq("", ""));
    assert!(line_test::text::str_eq("aß∂", "aß∂"));
    assert!(!line_test::text::str_eq("abc", "abd"));
    assert!(!line_test::text::str_eq("abc", "ab"));
    assert!(!line_test::text::str_eq("", "a"));
}
