use dpdk::utils::{parse_hex, ParseHexError};

#[test]
fn parse_hex_reads_digits_of_both_cases() {
    assert_eq!(parse_hex("ff"), Ok(255));
    assert_eq!(parse_hex("FF"), Ok(255));
    assert_eq!(parse_hex("+1f"), Ok(31));
    assert_eq!(parse_hex("0"), Ok(0));
}

#[test]
fn parse_hex_refuses_what_is_no_number() {
    assert_eq!(parse_hex(""), Err(ParseHexError::Empty));
    assert_eq!(parse_hex("+"), Err(ParseHexError::InvalidDigit));
    assert_eq!(parse_hex("-"), Err(ParseHexError::InvalidDigit));
    assert_eq!(parse_hex("0x10"), Err(ParseHexError::InvalidDigit));
    assert_eq!(parse_hex("10000000000000000"), Err(ParseHexError::PosOverflow));
}

#[test]
fn parse_hex_agrees_with_the_standard_library() {
    let inputs = [
        "", "0", "f", "F", "g", "+", "-", "+0", "-0", "++1", "+-1", " 1", "1 ", "0x1", "_", "1_0",
        "ffffffffffffffff", "FFFFFFFFFFFFFFFF", "10000000000000000", "0000000000000000000001",
        "+ffffffffffffffff", "fffffffffffffffff", "ffffffffffffffffg", "fffffffffffffffg",
        "123456789abcdef0", "deadBEEF", "00", "é", "1é", "٣",
    ];
    for s in inputs {
        let ours = parse_hex(s);
        let theirs = u64::from_str_radix(s, 16);
        assert_eq!(ours.ok(), theirs.clone().ok(), "{:?}", s);
        let kind = theirs.err().map(|e| format!("{:?}", e.kind()));
        let mine = ours.err().map(|e| format!("{:?}", e));
        assert_eq!(mine, kind, "{:?}", s);
    }
}

#[test]
fn parse_hex_reads_the_largest_number() {
    assert_eq!(parse_hex("ffffffffffffffff"), Ok(u64::MAX));
    assert_eq!(parse_hex("8000000000000000"), Ok(1 << 63));
    assert_eq!(parse_hex("0123456789abcdef"), Ok(0x0123456789abcdef));
}
