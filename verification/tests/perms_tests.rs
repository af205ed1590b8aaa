use weave::perms::{parse_permissions, PermError};

fn b(s: &str) -> Vec<u8> {
    s.as_bytes().to_vec()
}

#[test]
fn parses_plain_octal() {
    assert_eq!(parse_permissions(&b("777")), Ok(0o777));
    assert_eq!(parse_permissions(&b("755")), Ok(0o755));
    assert_eq!(parse_permissions(&b("0")), Ok(0));
    assert_eq!(parse_permissions(&b("17")), Ok(15));
}

#[test]
fn parses_leading_plus() {
    assert_eq!(parse_permissions(&b("+17")), Ok(15));
    assert_eq!(parse_permissions(&b("+0")), Ok(0));
}

#[test]
fn rejects_empty() {
    assert_eq!(parse_permissions(&b("")), Err(PermError::Empty));
    assert_eq!(parse_permissions(&b("+")), Err(PermError::Empty));
}

#[test]
fn rejects_bad_digits() {
    assert_eq!(parse_permissions(&b("8")), Err(PermError::InvalidDigit));
    assert_eq!(parse_permissions(&b("7a7")), Err(PermError::InvalidDigit));
    assert_eq!(parse_permissions(&b("x777")), Err(PermError::InvalidDigit));
    assert_eq!(parse_permissions(&b("-7")), Err(PermError::InvalidDigit));
}

#[test]
fn rejects_overflow() {
    // eleven octal digits reach past 32 bits
    assert_eq!(parse_permissions(&b("77777777777")), Err(PermError::Overflow));
    // the largest mode that still fits
    assert_eq!(parse_permissions(&b("37777777777")), Ok(u32::MAX));
}

#[test]
fn overflow_before_a_later_bad_digit_wins() {
    // the digits are consumed left to right: the accumulator overflows
    // before the trailing bad byte is reached
    assert_eq!(parse_permissions(&b("77777777777x")), Err(PermError::Overflow));
}
