use kvdb::decimal::{parse_i64, push_decimal, push_signed_decimal};

#[test]
fn parses_the_text_of_an_i64() {
    assert_eq!(parse_i64(b"0"), Some(0));
    assert_eq!(parse_i64(b"-0"), Some(0));
    assert_eq!(parse_i64(b"+15"), Some(15));
    assert_eq!(parse_i64(b"007"), Some(7));
    assert_eq!(parse_i64(b"9223372036854775807"), Some(i64::MAX));
    assert_eq!(parse_i64(b"-9223372036854775808"), Some(i64::MIN));
    assert_eq!(parse_i64(b"9223372036854775808"), None);
    assert_eq!(parse_i64(b"-9223372036854775809"), None);
    assert_eq!(parse_i64(b""), None);
    assert_eq!(parse_i64(b"-"), None);
    assert_eq!(parse_i64(b"+"), None);
    assert_eq!(parse_i64(b"1a"), None);
    assert_eq!(parse_i64(b" 1"), None);
    assert_eq!(parse_i64(b"--1"), None);
}

#[test]
fn formats_decimal_text() {
    let mut out = Vec::new();
    push_decimal(&mut out, 0);
    out.push(b' ');
    push_decimal(&mut out, 18446744073709551615);
    out.push(b' ');
    push_signed_decimal(&mut out, -120);
    out.push(b' ');
    push_signed_decimal(&mut out, i64::MIN);
    assert_eq!(out, b"0 18446744073709551615 -120 -9223372036854775808".to_vec());
    for n in [-1000i64, -1, 0, 9, 10, 123456789] {
        let mut t = Vec::new();
        push_signed_decimal(&mut t, n);
        assert_eq!(parse_i64(&t), Some(n));
    }
}
