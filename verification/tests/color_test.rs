use longcut::color::parse_hex_color;

#[test]
fn can_parse_color_from_a_valid_hex_color_string() {
    assert_eq!(parse_hex_color("#000000"), Ok((0, 0, 0)));
    assert_eq!(parse_hex_color("#ffffff"), Ok((255, 255, 255)));
    assert_eq!(parse_hex_color("#1A2b3C"), Ok((0x1a, 0x2b, 0x3c)));
}

#[test]
fn can_not_parse_from_an_invalid_length_hex_string() {
    assert!(parse_hex_color("#fff").is_err());
    assert_eq!(
        parse_hex_color("#ffffff00"),
        Err("The value 'ffffff00' has 4 color components instead of 3".to_string())
    );
    assert!(parse_hex_color("#").is_err());
    assert!(parse_hex_color("#aa").is_err());
    assert_eq!(
        parse_hex_color("#abcde"),
        Err("The value 'abcde' is an invalid hex string: Odd number of digits".to_string())
    );
}

#[test]
fn can_not_parse_if_hex_string_does_not_start_with_a_hash() {
    for value in ["$FFFFFF", "0000000", "abababa", ""] {
        assert_eq!(
            parse_hex_color(value),
            Err("Value must start with the # character".to_string())
        );
    }
}

#[test]
fn can_not_parse_if_hex_string_contains_invalid_characters() {
    assert!(parse_hex_color("#aabbGG").is_err());
    assert!(parse_hex_color("#ffffxx").is_err());
    assert!(parse_hex_color("###ffa#").is_err());
    assert!(parse_hex_color("#0000/1").is_err());
    assert!(parse_hex_color("#ääbbcc").is_err());
    assert!(parse_hex_color("#aabbc€").is_err());
    assert_eq!(
        parse_hex_color("#aabbGG"),
        Err("The value 'aabbGG' is an invalid hex string: Invalid character 'G' at position 4"
            .to_string())
    );
}
