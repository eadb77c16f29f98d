use kanban::num::{i64_to_chars, parse_i64, parse_u64, u64_to_chars};

fn chars(s: &str) -> Vec<char> {
    s.chars().collect()
}

fn text(v: &[char]) -> String {
    v.iter().collect()
}

#[test]
fn renders_exact_decimals() {
    assert_eq!(text(&u64_to_chars(0)), "0");
    assert_eq!(text(&u64_to_chars(7)), "7");
    assert_eq!(text(&u64_to_chars(1234)), "1234");
    assert_eq!(text(&u64_to_chars(u64::MAX)), "18446744073709551615");
    assert_eq!(text(&i64_to_chars(0)), "0");
    assert_eq!(text(&i64_to_chars(-1)), "-1");
    assert_eq!(text(&i64_to_chars(i64::MIN)), "-9223372036854775808");
    assert_eq!(text(&i64_to_chars(i64::MAX)), "9223372036854775807");
}

#[test]
fn parses_what_it_renders() {
    for n in [0u64, 1, 9, 10, 99, 100, 123456789, u64::MAX] {
        let v = u64_to_chars(n);
        assert_eq!(parse_u64(&v, 0), Some((n, v.len())));
    }
    for n in [0i64, -1, 1, i64::MIN, i64::MAX, -42] {
        let v = i64_to_chars(n);
        assert_eq!(parse_i64(&v, 0), Some((n, v.len())));
    }
}

#[test]
fn parse_stops_at_first_non_digit() {
    let v = chars("450,rest");
    assert_eq!(parse_u64(&v, 0), Some((450, 3)));
    let w = chars("-8}");
    assert_eq!(parse_i64(&w, 0), Some((-8, 2)));
}

#[test]
fn parse_rejects_missing_digits_and_overflow() {
    assert_eq!(parse_u64(&chars(""), 0), None);
    assert_eq!(parse_u64(&chars("x1"), 0), None);
    assert_eq!(parse_u64(&chars("-3"), 0), None);
    // one past the largest u64
    assert_eq!(parse_u64(&chars("18446744073709551616"), 0), None);
    // one past the smallest and largest i64
    assert_eq!(parse_i64(&chars("-9223372036854775809"), 0), None);
    assert_eq!(parse_i64(&chars("9223372036854775808"), 0), None);
}
