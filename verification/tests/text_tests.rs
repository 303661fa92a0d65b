use database::text::{
    append_chars, append_str, chars_of, count_to_chars, is_word, key_to_chars, key_to_string,
    parse_key, same_text, string_from, string_of,
};

fn parse(s: &str) -> Option<i32> {
    let chars: Vec<char> = s.chars().collect();
    parse_key(&chars, 0, chars.len())
}

#[test]
fn chars_of_keeps_every_character() {
    assert_eq!(chars_of(""), Vec::<char>::new());
    assert_eq!(chars_of("a,b"), vec!['a', ',', 'b']);
    assert_eq!(chars_of("é\u{1F600}z"), vec!['é', '\u{1F600}', 'z']);
}

#[test]
fn string_from_takes_the_range() {
    let chars = chars_of("hello world");
    assert_eq!(string_from(&chars, 0, 5), "hello");
    assert_eq!(string_from(&chars, 6, 11), "world");
    assert_eq!(string_from(&chars, 3, 3), "");
    assert_eq!(string_of(&chars), "hello world");
}

#[test]
fn append_puts_characters_behind() {
    let mut out = vec!['a'];
    append_str(&mut out, "bc");
    append_chars(&mut out, &vec!['d', 'e']);
    append_str(&mut out, "");
    assert_eq!(out, vec!['a', 'b', 'c', 'd', 'e']);
}

#[test]
fn key_to_string_is_decimal() {
    assert_eq!(key_to_string(0), "0");
    assert_eq!(key_to_string(7), "7");
    assert_eq!(key_to_string(10), "10");
    assert_eq!(key_to_string(-1), "-1");
    assert_eq!(key_to_string(1234567890), "1234567890");
    assert_eq!(key_to_string(i32::MAX), "2147483647");
    assert_eq!(key_to_string(i32::MIN), "-2147483648");
    assert_eq!(key_to_chars(-905), vec!['-', '9', '0', '5']);
}

#[test]
fn count_to_chars_is_decimal() {
    assert_eq!(count_to_chars(0), vec!['0']);
    assert_eq!(count_to_chars(42), vec!['4', '2']);
    assert_eq!(count_to_chars(1000), vec!['1', '0', '0', '0']);
    let all: String = count_to_chars(usize::MAX).into_iter().collect();
    assert_eq!(all, usize::MAX.to_string());
}

#[test]
fn parse_key_reads_signed_decimals() {
    assert_eq!(parse("0"), Some(0));
    assert_eq!(parse("42"), Some(42));
    assert_eq!(parse("-42"), Some(-42));
    assert_eq!(parse("+42"), Some(42));
    assert_eq!(parse("007"), Some(7));
    assert_eq!(parse("-0"), Some(0));
    assert_eq!(parse("2147483647"), Some(i32::MAX));
    assert_eq!(parse("-2147483648"), Some(i32::MIN));
    assert_eq!(parse("0000000000000000000012"), Some(12));
}

#[test]
fn parse_key_refuses_what_is_no_number() {
    assert_eq!(parse(""), None);
    assert_eq!(parse("-"), None);
    assert_eq!(parse("+"), None);
    assert_eq!(parse("12a"), None);
    assert_eq!(parse("a12"), None);
    assert_eq!(parse(" 12"), None);
    assert_eq!(parse("12 "), None);
    assert_eq!(parse("--1"), None);
    assert_eq!(parse("1-"), None);
    assert_eq!(parse("1.5"), None);
    assert_eq!(parse("٣"), None);
}

#[test]
fn parse_key_refuses_what_does_not_fit() {
    assert_eq!(parse("2147483648"), None);
    assert_eq!(parse("-2147483649"), None);
    assert_eq!(parse("99999999999999999999999999"), None);
    assert_eq!(parse("-99999999999999999999999999"), None);
    assert_eq!(parse("21474836470"), None);
}

#[test]
fn parse_key_agrees_with_the_standard_library() {
    for s in ["5", "-5", "+5", "", "-", "x", "2147483647", "2147483648", "-2147483648", "1e3", "00"]
    {
        assert_eq!(parse(s), s.parse::<i32>().ok(), "{:?}", s);
    }
}

#[test]
fn parse_key_reads_a_part_of_the_characters() {
    let chars: Vec<char> = "ab-17cd".chars().collect();
    assert_eq!(parse_key(&chars, 2, 5), Some(-17));
    assert_eq!(parse_key(&chars, 3, 5), Some(17));
    assert_eq!(parse_key(&chars, 2, 6), None);
    assert_eq!(parse_key(&chars, 2, 2), None);
}

#[test]
fn decimal_form_is_read_back() {
    for k in [0, 1, -1, 9, 10, -10, 99, 100, 65535, -65536, i32::MAX, i32::MIN, i32::MIN + 1] {
        assert_eq!(parse(&key_to_string(k)), Some(k));
    }
}

#[test]
fn is_word_compares_the_range() {
    let chars: Vec<char> = "select 5".chars().collect();
    assert!(is_word(&chars, 0, 6, "select"));
    assert!(!is_word(&chars, 0, 5, "select"));
    assert!(!is_word(&chars, 0, 6, "selecT"));
    assert!(is_word(&chars, 7, 8, "5"));
    assert!(is_word(&chars, 3, 3, ""));
}

#[test]
fn same_text_compares_strings() {
    assert!(same_text("abc", "abc"));
    assert!(same_text("", ""));
    assert!(!same_text("abc", "abd"));
    assert!(!same_text("abc", "ab"));
    assert!(!same_text("", "a"));
}
