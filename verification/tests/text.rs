use minecraft_but_optimized::text::{
    chars_of, parse_bool, parse_i32, parse_u32, push_decimal, push_decimal_signed, split_whitespace,
    trim_chars,
};

fn v(s: &str) -> Vec<char> {
    s.chars().collect()
}

#[test]
fn integers_parse_like_rust() {
    assert_eq!(parse_i32(&v("42")), Some(42));
    assert_eq!(parse_i32(&v("-2147483648")), Some(i32::MIN));
    assert_eq!(parse_i32(&v("2147483648")), None);
    assert_eq!(parse_i32(&v("+7")), Some(7));
    assert_eq!(parse_i32(&v("-")), None);
    assert_eq!(parse_i32(&v("")), None);
    assert_eq!(parse_i32(&v("1_000")), None);
    assert_eq!(parse_i32(&v("00012")), Some(12));
    assert_eq!(parse_u32(&v("4294967295")), Some(u32::MAX));
    assert_eq!(parse_u32(&v("4294967296")), None);
    assert_eq!(parse_u32(&v("-1")), None);
    assert_eq!(parse_u32(&v("+0")), Some(0));
    for s in ["0", "17", "-5", "99999999999999999999", "x1", " 1"] {
        assert_eq!(parse_i32(&v(s)), s.parse::<i32>().ok(), "{s}");
        assert_eq!(parse_u32(&v(s)), s.parse::<u32>().ok(), "{s}");
    }
}

#[test]
fn booleans_parse_like_rust() {
    assert_eq!(parse_bool(&v("true")), Some(true));
    assert_eq!(parse_bool(&v("false")), Some(false));
    assert_eq!(parse_bool(&v("True")), None);
    assert_eq!(parse_bool(&v("1")), None);
}

#[test]
fn decimals_print_like_display() {
    for n in [0u64, 7, 10, 99, 100, 1234567890, u64::MAX] {
        let mut out = Vec::new();
        push_decimal(&mut out, n);
        assert_eq!(out.iter().collect::<String>(), n.to_string());
    }
    for n in [0i64, -1, 42, -987654321, i64::MIN, i64::MAX] {
        let mut out = v("x=");
        push_decimal_signed(&mut out, n);
        assert_eq!(out.iter().collect::<String>(), format!("x={n}"));
    }
}

#[test]
fn whitespace_splits_and_trims_like_std() {
    for s in ["", "   ", "a", " a  bb\tccc\n", "\u{3000}x\u{a0}y\u{85}", "one two"] {
        let words: Vec<String> = split_whitespace(&v(s)).iter().map(|w| w.iter().collect()).collect();
        let expected: Vec<String> = s.split_whitespace().map(|w| w.to_string()).collect();
        assert_eq!(words, expected, "{s:?}");
        let trimmed: String = trim_chars(&v(s)).iter().collect();
        assert_eq!(trimmed, s.trim(), "{s:?}");
    }
    assert_eq!(chars_of("héllo"), v("héllo"));
}
