use security::number::{
    parse_i32, parse_u16, parse_u32, parse_u8, to_decimal, to_hex, to_signed_decimal,
};
use security::text::{
    digits, has, is_space, join3, lines, pad, repeat, same, split, starts, strip_marks, strip_prefixes, trim,
    words,
};

#[test]
fn splitting_keeps_empty_fields() {
    assert_eq!(split("a,,b,", ","), vec!["a", "", "b", ""]);
    assert_eq!(split("", ","), vec![""]);
    assert_eq!(split("x+CMGL:y+CMGL:", "+CMGL:"), vec!["x", "y", ""]);
}

#[test]
fn lines_lose_their_ends() {
    assert_eq!(lines("a\r\nb\n\nc"), vec!["a", "b", "", "c"]);
    assert_eq!(lines("a\n"), vec!["a"]);
    assert!(lines("").is_empty());
    assert_eq!(lines("a\rb"), vec!["a\rb"]);
}

#[test]
fn trimming_takes_all_white_space() {
    assert_eq!(trim(" \t\u{a0}\u{3000}x y\u{2028}\r\n"), "x y");
    assert_eq!(trim("\u{200b}x"), "\u{200b}x");
    assert_eq!(trim("   "), "");
}

#[test]
fn white_space_is_that_of_the_standard_library() {
    for c in '\0'..=char::MAX {
        assert_eq!(is_space(c), c.is_whitespace(), "{c:?}");
    }
}

#[test]
fn words_are_split_at_white_space() {
    assert_eq!(words("  раз\tдва \u{2003}три\n"), vec!["раз", "два", "три"]);
    assert!(words(" \n").is_empty());
}

#[test]
fn pieces_of_text() {
    assert!(has("охрана", "ран"));
    assert!(has("x", ""));
    assert!(!has("ab", "abc"));
    assert!(starts("+CSQ: 1", "+CSQ:"));
    assert!(!starts("CSQ", "+CSQ"));
    assert!(same("ё", "ё") && !same("е", "ё"));
    assert_eq!(join3("a", "б", "c"), "aбc");
    assert_eq!(digits("+7 (900) 123-45-67"), "79001234567");
    assert_eq!(repeat('●', 3), "●●●");
    assert_eq!(repeat('x', 0), "");
    assert_eq!(pad("7", 3, ' '), "  7");
    assert_eq!(pad("1234", 3, '0'), "1234");
    assert_eq!(strip_prefixes("+CSQ:+CSQ: 1", "+CSQ:"), " 1");
    assert_eq!(strip_marks("79001234567.;,"), "79001234567");
}

#[test]
fn numerals() {
    assert_eq!(to_decimal(0), "0");
    assert_eq!(to_decimal(u64::MAX), "18446744073709551615");
    assert_eq!(to_hex(0), "0");
    assert_eq!(to_hex(0xABCDEF), "ABCDEF");
    assert_eq!(to_signed_decimal(-113), "-113");
    assert_eq!(to_signed_decimal(i64::MIN + 1), "-9223372036854775807");
}

#[test]
fn numbers_are_parsed_as_the_standard_library_does() {
    for s in ["", "+", "-", "0", "007", "+12", "-12", "255", "256", "65535", "65536", "4294967295",
        "4294967296", "2147483647", "2147483648", "-2147483648", "-2147483649", "1 ", " 1", "1a",
        "٣", "+-1", "99999999999999999999999999"]
    {
        assert_eq!(parse_u8(s), s.parse::<u8>().ok(), "{s}");
        assert_eq!(parse_u16(s), s.parse::<u16>().ok(), "{s}");
        assert_eq!(parse_u32(s), s.parse::<u32>().ok(), "{s}");
        assert_eq!(parse_i32(s), s.parse::<i32>().ok(), "{s}");
    }
}
