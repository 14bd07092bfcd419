use snapstore::numeral::{parse_u64, parse_u8};

#[test]
fn parse_u64_accepts_what_str_parse_accepts() {
    assert_eq!(parse_u64("0"), Some(0));
    assert_eq!(parse_u64("007"), Some(7));
    assert_eq!(parse_u64("+42"), Some(42));
    assert_eq!(parse_u64("18446744073709551615"), Some(u64::MAX));
    for s in ["", "+", "-1", "1.5", " 1", "1 ", "one", "0x10", "++1"] {
        assert_eq!(parse_u64(s), None, "input {:?}", s);
        assert_eq!(s.parse::<u64>().ok(), None, "input {:?}", s);
    }
    for s in ["0", "007", "+42", "18446744073709551615"] {
        assert_eq!(parse_u64(s), s.parse::<u64>().ok(), "input {:?}", s);
    }
}

#[test]
fn parse_u64_rejects_overflow() {
    assert_eq!(parse_u64("18446744073709551616"), None);
    assert_eq!(parse_u64("99999999999999999999999999"), None);
}

#[test]
fn parse_u8_matches_str_parse() {
    for s in ["0", "255", "+255", "0255", "256", "2550", "-1", "", "+", "abc"] {
        assert_eq!(parse_u8(s), s.parse::<u8>().ok(), "input {:?}", s);
    }
}
