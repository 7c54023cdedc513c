use longcut::text::{chars_of, decimal_string, str_eq, string_from_chars, trimmed_range};

#[test]
fn numbers_are_written_in_decimal() {
    assert_eq!(decimal_string(0), "0");
    assert_eq!(decimal_string(7), "7");
    assert_eq!(decimal_string(10), "10");
    assert_eq!(decimal_string(4096), "4096");
    assert_eq!(decimal_string(usize::MAX), usize::MAX.to_string());
}

#[test]
fn a_range_is_trimmed_of_whitespace() {
    let chars = chars_of("  a b \t");
    assert_eq!(trimmed_range(&chars, 0, chars.len()), "a b");
    assert_eq!(trimmed_range(&chars, 0, 2), "");
}

#[test]
fn strings_compare_by_their_characters() {
    assert!(str_eq("abc", "abc"));
    assert!(!str_eq("abc", "abd"));
    assert_eq!(string_from_chars(&chars_of("äö")), "äö");
}
