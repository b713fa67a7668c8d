use icu_tool::charset::{parse, parse_charset_ranges, parse_charset_text, parse_codepoint};

#[test]
fn keeps_space_but_discards_file_line_endings() {
    assert_eq!(parse("ก ข\r\nข"), vec![' ', 'ก', 'ข']);
}

#[test]
fn charset_text_keeps_every_character_in_order() {
    assert_eq!(parse_charset_text("ba a"), vec!['b', 'a', ' ', 'a']);
}

#[test]
fn charset_ranges_name_sorted_distinct_characters() {
    assert_eq!(parse_charset_ranges("U+0043-U+0041, 0x41-0x42, 65"), vec!['A', 'B']);
    assert_eq!(parse_charset_ranges("U+0020-U+0022"), vec![' ', '!', '"']);
    assert_eq!(parse_charset_ranges("bogus, 0xZZ"), Vec::<char>::new());
}

#[test]
fn codepoints_are_hex_with_prefix_else_decimal() {
    assert_eq!(parse_codepoint(" U+0041 "), Some(0x41));
    assert_eq!(parse_codepoint("0x4e00"), Some(0x4e00));
    assert_eq!(parse_codepoint("65"), Some(65));
    assert_eq!(parse_codepoint("zz"), None);
}
