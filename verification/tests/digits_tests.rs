use lbbroker::digits::{fmt_i32, fmt_u64, fmt_u64_padded, parse_u64};

#[test]
fn fmt_writes_shortest_decimal() {
    assert_eq!(fmt_u64(0), b"0".to_vec());
    assert_eq!(fmt_u64(7), b"7".to_vec());
    assert_eq!(fmt_u64(10), b"10".to_vec());
    assert_eq!(fmt_u64(1234567890), b"1234567890".to_vec());
    assert_eq!(fmt_u64(u64::MAX), b"18446744073709551615".to_vec());
}

#[test]
fn fmt_padded_fills_with_zeros() {
    assert_eq!(fmt_u64_padded(42, 5), b"00042".to_vec());
    assert_eq!(fmt_u64_padded(0, 4), b"0000".to_vec());
    assert_eq!(fmt_u64_padded(99999, 5), b"99999".to_vec());
}

#[test]
fn fmt_padded_never_truncates() {
    assert_eq!(fmt_u64_padded(123456, 4), b"123456".to_vec());
}

#[test]
fn fmt_signed_writes_minus_sign() {
    assert_eq!(fmt_i32(-14), b"-14".to_vec());
    assert_eq!(fmt_i32(0), b"0".to_vec());
    assert_eq!(fmt_i32(39), b"39".to_vec());
}

#[test]
fn parse_reads_plain_decimals() {
    assert_eq!(parse_u64(&b"0".to_vec()), Some(0));
    assert_eq!(parse_u64(&b"123".to_vec()), Some(123));
    assert_eq!(parse_u64(&b"007".to_vec()), Some(7));
    assert_eq!(parse_u64(&b"+99".to_vec()), Some(99));
    assert_eq!(parse_u64(&b"18446744073709551615".to_vec()), Some(u64::MAX));
}

#[test]
fn parse_rejects_what_is_no_decimal() {
    assert_eq!(parse_u64(&b"".to_vec()), None);
    assert_eq!(parse_u64(&b"+".to_vec()), None);
    assert_eq!(parse_u64(&b"-5".to_vec()), None);
    assert_eq!(parse_u64(&b"12a".to_vec()), None);
    assert_eq!(parse_u64(&b" 12".to_vec()), None);
    assert_eq!(parse_u64(&b"1 2".to_vec()), None);
}

#[test]
fn parse_rejects_overflow() {
    assert_eq!(parse_u64(&b"18446744073709551616".to_vec()), None);
    assert_eq!(parse_u64(&b"99999999999999999999999".to_vec()), None);
}

#[test]
fn parse_reads_back_what_fmt_writes() {
    for n in [0u64, 1, 9, 10, 4095, u64::MAX - 1, u64::MAX] {
        assert_eq!(parse_u64(&fmt_u64(n)), Some(n));
    }
}
