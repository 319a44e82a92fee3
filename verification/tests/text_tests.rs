use firemap::text::{
    append_decimal, chars_of, lower_char, join_texts, starts_with, string_from_chars, text_eq, text_lt,
    to_ascii_lowercase, trim_value,
};

#[test]
fn decimal_numbers() {
    let mut s = String::from("n=");
    append_decimal(&mut s, 0);
    assert_eq!(s, "n=0");
    let mut s = String::new();
    append_decimal(&mut s, 18446744073709551615);
    assert_eq!(s, "18446744073709551615");
}

#[test]
fn text_order_is_the_str_order() {
    assert!(text_lt("abc", "abd"));
    assert!(text_lt("ab", "abc"));
    assert!(!text_lt("abc", "abc"));
    assert!(!text_lt("b", "abc"));
    assert!(text_lt("Z", "a"));
    assert_eq!(text_lt("é", "z"), "é" < "z");
}

#[test]
fn text_helpers() {
    assert!(text_eq("Naga", "Naga"));
    assert!(!text_eq("Naga", "naga"));
    assert!(starts_with("/dev/input/event3", "/dev/input/event"));
    assert!(!starts_with("/dev", "/dev/input"));
    assert_eq!(to_ascii_lowercase("ÄBC-X"), "Äbc-x");
    assert_eq!(trim_value("\t\"x\" "), "x");
    assert_eq!(string_from_chars(&chars_of("héllo")), "héllo");
    assert_eq!(join_texts(&vec!["a".to_string(), "b".to_string(), "c".to_string()], " | "), "a | b | c");
    assert_eq!(join_texts(&vec![], ", "), "");
}

#[test]
fn single_characters_lower_case() {
    assert_eq!(lower_char('A'), 'a');
    assert_eq!(lower_char('Z'), 'z');
    assert_eq!(lower_char('m'), 'm');
    assert_eq!(lower_char('@'), '@');
    assert_eq!(lower_char('['), '[');
    assert_eq!(lower_char('Ä'), 'Ä');
}
