use skipzone_app::text::{
    chars_of, format_integer, parse_i32, parse_i32_result, parse_u32, parse_u32_result,
    split_on, string_of, trimmed, white_space, IntErrorKind,
};

fn v(s: &str) -> Vec<char> {
    s.chars().collect()
}

fn text(c: &[char]) -> String {
    c.iter().collect()
}

#[test]
fn integers_parse_like_str_parse() {
    assert_eq!(parse_u32_result(&v("2026")), Ok(2026));
    assert_eq!(parse_u32_result(&v("+7")), Ok(7));
    assert_eq!(parse_u32_result(&v("0007")), Ok(7));
    assert_eq!(parse_u32_result(&v("4294967295")), Ok(u32::MAX));
    assert_eq!(parse_i32_result(&v("-2147483648")), Ok(i32::MIN));
    assert_eq!(parse_i32_result(&v("-12")), Ok(-12));
    for s in ["2026", "+7", "0", "-0", "4294967295", "-1", " 1", "1 ", "", "+", "-", "12a"] {
        assert_eq!(parse_u32_result(&v(s)).ok(), s.parse::<u32>().ok(), "{s:?}");
        assert_eq!(parse_i32_result(&v(s)).ok(), s.parse::<i32>().ok(), "{s:?}");
    }
}

/// Each way an integer can be refused.
#[test]
fn integer_errors() {
    assert_eq!(parse_u32_result(&v("")), Err(IntErrorKind::Empty));
    assert_eq!(parse_u32_result(&v("+")), Err(IntErrorKind::InvalidDigit));
    assert_eq!(parse_u32_result(&v("-1")), Err(IntErrorKind::InvalidDigit));
    assert_eq!(parse_u32_result(&v("1 2")), Err(IntErrorKind::InvalidDigit));
    assert_eq!(parse_u32_result(&v("4294967296")), Err(IntErrorKind::PosOverflow));
    assert_eq!(parse_i32_result(&v("2147483648")), Err(IntErrorKind::PosOverflow));
    assert_eq!(parse_i32_result(&v("-2147483649")), Err(IntErrorKind::NegOverflow));
    assert_eq!(parse_i32_result(&v("-")), Err(IntErrorKind::InvalidDigit));
    assert_eq!(parse_u32(&v("x")), None);
    assert_eq!(parse_i32(&v("-5")), Some(-5));
}

#[test]
fn trimming_and_splitting() {
    assert_eq!(text(&trimmed(&v(" \t 2026-7-3 \n"))), "2026-7-3");
    assert_eq!(text(&trimmed(&v("   "))), "");
    assert_eq!(text(&trimmed(&v("\u{3000}a b\u{a0}"))), "a b");
    let parts = split_on(&v("2026--03-"), '-');
    let parts: Vec<String> = parts.iter().map(|p| text(p)).collect();
    assert_eq!(parts, vec!["2026", "", "03", ""]);
    assert_eq!(split_on(&v(""), '-').len(), 1);
    assert!(white_space(' ') && white_space('\u{2028}') && !white_space('x'));
}

#[test]
fn integers_are_written_zero_padded() {
    assert_eq!(text(&format_integer(7, 2)), "07");
    assert_eq!(text(&format_integer(2026, 4)), "2026");
    assert_eq!(text(&format_integer(12345, 2)), "12345");
    assert_eq!(text(&format_integer(-5, 4)), format!("{:04}", -5));
    assert_eq!(text(&format_integer(0, 0)), "0");
    assert_eq!(text(&format_integer(i64::MIN, 0)), i64::MIN.to_string());
}

#[test]
fn strings_and_chars_convert() {
    assert_eq!(chars_of("héllo"), vec!['h', 'é', 'l', 'l', 'o']);
    assert_eq!(string_of(&v("héllo")), "héllo");
    assert_eq!(string_of(&Vec::new()), "");
}
