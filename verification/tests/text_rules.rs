use timecard::text::{decimal_text, eq_ignore_ascii_case, parse_u32, str_eq, str_less};

#[test]
fn parse_u32_like_std() {
    for s in ["0", "42", "+7", "4294967295", "4294967296", "", "+", "-1", "1a", " 1", "007"] {
        assert_eq!(parse_u32(s), s.parse::<u32>().ok(), "input {:?}", s);
    }
}

#[test]
fn string_order_like_std() {
    let words = ["", "a", "ab", "b", "WBS-10", "WBS-2", "é", "z"];
    for a in words {
        for b in words {
            assert_eq!(str_less(a, b), a < b);
            assert_eq!(str_eq(a, b), a == b);
        }
    }
}

#[test]
fn ascii_case_and_decimal() {
    assert!(eq_ignore_ascii_case("Reg", "rEG"));
    assert!(!eq_ignore_ascii_case("REG", "REGX"));
    assert_eq!(decimal_text(0), "0");
    assert_eq!(decimal_text(1207), "1207");
}
