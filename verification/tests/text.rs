use fitui::order::text_less;
use fitui::text::{chars_of, digit_of, format_amount, is_whitespace, parse_amount, text_of};

#[test]
fn parse_whole_number() {
    assert_eq!(parse_amount("100"), 10_000);
    assert_eq!(parse_amount("0"), 0);
    assert_eq!(parse_amount("7"), 700);
    assert_eq!(parse_amount("007"), 700);
}

#[test]
fn parse_with_fraction() {
    assert_eq!(parse_amount("12.5"), 1_250);
    assert_eq!(parse_amount("12.50"), 1_250);
    assert_eq!(parse_amount("12.05"), 1_205);
    assert_eq!(parse_amount("1000.50"), 100_050);
    assert_eq!(parse_amount("0.01"), 1);
}

#[test]
fn parse_point_at_either_end() {
    assert_eq!(parse_amount("5."), 500);
    assert_eq!(parse_amount(".5"), 50);
    assert_eq!(parse_amount(".05"), 5);
}

#[test]
fn parse_rounds_to_the_nearest_hundredth() {
    assert_eq!(parse_amount("1.239"), 124);
    assert_eq!(parse_amount("1.999"), 200);
    assert_eq!(parse_amount("1.2345"), 123);
    assert_eq!(parse_amount("1.235"), 124);
    assert_eq!(parse_amount("2.675"), 268);
    assert_eq!(parse_amount("0.001"), 0);
    assert_eq!(parse_amount("0.004"), 0);
    assert_eq!(parse_amount("0.005"), 1);
    assert_eq!(parse_amount("0.0049999"), 0);
    assert_eq!(parse_amount("9.995"), 1_000);
}

#[test]
fn parse_ignores_surrounding_white_space() {
    assert_eq!(parse_amount("  42 "), 4_200);
    assert_eq!(parse_amount("\t3.10\n"), 310);
    assert_eq!(parse_amount("\u{a0}8\u{3000}"), 800);
    assert_eq!(parse_amount(" +1e1 "), 1_000);
}

#[test]
fn parse_empty_is_zero() {
    assert_eq!(parse_amount(""), 0);
    assert_eq!(parse_amount("   "), 0);
}

#[test]
fn parse_leading_plus() {
    assert_eq!(parse_amount("+5"), 500);
    assert_eq!(parse_amount("+0.5"), 50);
    assert_eq!(parse_amount("+.5"), 50);
    assert_eq!(parse_amount("+5."), 500);
}

#[test]
fn parse_exponent() {
    assert_eq!(parse_amount("1e3"), 100_000);
    assert_eq!(parse_amount("1E3"), 100_000);
    assert_eq!(parse_amount("1e+3"), 100_000);
    assert_eq!(parse_amount("1.5e2"), 15_000);
    assert_eq!(parse_amount("1.e2"), 10_000);
    assert_eq!(parse_amount(".5e1"), 500);
    assert_eq!(parse_amount("1e0"), 100);
    assert_eq!(parse_amount("1e-0"), 100);
    assert_eq!(parse_amount("12e-1"), 120);
    assert_eq!(parse_amount("0.000001e6"), 100);
    assert_eq!(parse_amount("100000e-5"), 100);
    assert_eq!(parse_amount("1e0003"), 100_000);
}

#[test]
fn parse_exponent_rounds_what_falls_below_a_hundredth() {
    assert_eq!(parse_amount("1e-2"), 1);
    assert_eq!(parse_amount("1e-3"), 0);
    assert_eq!(parse_amount("4e-3"), 0);
    assert_eq!(parse_amount("5e-3"), 1);
    assert_eq!(parse_amount("9e-3"), 1);
    assert_eq!(parse_amount("9e-4"), 0);
    assert_eq!(parse_amount("50e-4"), 1);
    assert_eq!(parse_amount("1234567e-5"), 1_235);
    assert_eq!(parse_amount("1234e-20"), 0);
}

#[test]
fn parse_exponent_of_any_size() {
    assert_eq!(parse_amount("0e999999999999999999999999999999999999999"), 0);
    assert_eq!(parse_amount("1e999999999999999999999999999999999999999"), 0);
    assert_eq!(parse_amount("1e-999999999999999999999999999999999999999"), 0);
    assert_eq!(parse_amount("0.0e-999999999999999999999999999999999999999"), 0);
    assert_eq!(parse_amount("1e17"), 10_000_000_000_000_000_000);
    assert_eq!(parse_amount("1e18"), 0);
    assert_eq!(parse_amount("1e30"), 0);
    assert_eq!(parse_amount("0e30"), 0);
    assert_eq!(parse_amount("1.84467440737095516e17"), 18_446_744_073_709_551_600);
    assert_eq!(parse_amount("1.8446744073709551615e17"), u64::MAX);
    assert_eq!(parse_amount("18446744073709551615e-2"), u64::MAX);
    assert_eq!(parse_amount("18446744073709551616e-2"), 0);
}

#[test]
fn parse_unparsable_is_zero() {
    for text in [
        "abc", "12a", "a12", "1.2.3", "1,50", "1 2", ".", "1.x", "1.2x", "1.234x", "+", "++1", "+-1",
        "1+", "e3", ".e3", "+e3", "1e", "1e+", "1e-", "1e3.5", "1e3e3", "1e 3", "1 e3", "0x10", "1_000",
        "inf", "+inf", "infinity", "nan", "NaN", "١٢",
    ] {
        assert_eq!(parse_amount(text), 0, "{:?}", text);
    }
}

#[test]
fn parse_below_zero_is_zero() {
    assert_eq!(parse_amount("-5"), 0);
    assert_eq!(parse_amount("-0.50"), 0);
    assert_eq!(parse_amount("-0"), 0);
    assert_eq!(parse_amount("-1e3"), 0);
    assert_eq!(parse_amount("-"), 0);
}

#[test]
fn parse_largest_amount() {
    assert_eq!(parse_amount("184467440737095516.15"), u64::MAX);
    assert_eq!(parse_amount("184467440737095516.154"), u64::MAX);
    assert_eq!(parse_amount("000184467440737095516.15"), u64::MAX);
}

#[test]
fn parse_too_large_is_zero() {
    assert_eq!(parse_amount("184467440737095516.155"), 0);
    assert_eq!(parse_amount("184467440737095516.16"), 0);
    assert_eq!(parse_amount("184467440737095517"), 0);
    assert_eq!(parse_amount("99999999999999999999999999"), 0);
    assert_eq!(parse_amount("99999999999999999999999999x"), 0);
}

#[test]
fn parse_reads_what_std_reads_as_a_number() {
    for text in [
        "5", "+5", "5.", ".5", "0.25", "7.125", "1e3", "1E2", "1.5e2", "12e-1", " 42 ", "1e+2", "0",
        "+0", "10.75", "3.5e0", "250e-2", "0.5e1",
    ] {
        let units: f64 = text.trim().parse().unwrap();
        assert_eq!(parse_amount(text), (units * 100.0).round() as u64, "{:?}", text);
    }
    for text in ["", ".", "e3", "1e", "+", "1.2.3", "12a", "1 2"] {
        assert!(text.trim().parse::<f64>().is_err());
        assert_eq!(parse_amount(text), 0, "{:?}", text);
    }
}

#[test]
fn format_two_places() {
    assert_eq!(format_amount(0), "0.00");
    assert_eq!(format_amount(5), "0.05");
    assert_eq!(format_amount(50), "0.50");
    assert_eq!(format_amount(100), "1.00");
    assert_eq!(format_amount(10_000), "100.00");
    assert_eq!(format_amount(123_456), "1234.56");
    assert_eq!(format_amount(u64::MAX), "184467440737095516.15");
}

#[test]
fn format_then_parse_gives_the_amount() {
    let amounts = [0u64, 1, 9, 10, 99, 100, 101, 999, 1_000, 50_000, 123_456_789, u64::MAX - 1, u64::MAX];
    for amount in amounts {
        assert_eq!(parse_amount(&format_amount(amount)), amount);
    }
}

#[test]
fn whitespace_characters() {
    assert!(is_whitespace(' '));
    assert!(is_whitespace('\t'));
    assert!(is_whitespace('\n'));
    assert!(is_whitespace('\u{85}'));
    assert!(is_whitespace('\u{2003}'));
    assert!(!is_whitespace('a'));
    assert!(!is_whitespace('0'));
    assert!(!is_whitespace('\u{200b}'));
}

#[test]
fn whitespace_agrees_with_std() {
    let mut code: u32 = 0;
    while code < 0x3100 {
        if let Some(c) = char::from_u32(code) {
            assert_eq!(is_whitespace(c), c.is_whitespace());
        }
        code += 1;
    }
}

#[test]
fn digits() {
    assert_eq!(digit_of('0'), Some(0));
    assert_eq!(digit_of('9'), Some(9));
    assert_eq!(digit_of('a'), None);
    assert_eq!(digit_of('/'), None);
    assert_eq!(digit_of(':'), None);
    assert_eq!(digit_of('\u{663}'), None);
}

#[test]
fn chars_and_back() {
    assert_eq!(chars_of("a-é"), vec!['a', '-', 'é']);
    assert_eq!(chars_of(""), Vec::<char>::new());
    assert_eq!(text_of(&vec!['2', '0', '2', '6']), "2026");
    assert_eq!(text_of(&Vec::new()), "");
}

#[test]
fn text_order() {
    let less = |a: &str, b: &str| text_less(&chars_of(a), &chars_of(b));
    assert!(less("2026-01", "2026-02"));
    assert!(less("2025-12", "2026-01"));
    assert!(!less("2026-02", "2026-01"));
    assert!(!less("2026-01", "2026-01"));
    assert!(less("2026", "2026-01"));
    assert!(!less("2026-01", "2026"));
    assert!(less("", "a"));
    assert!(!less("", ""));
}

#[test]
fn text_order_agrees_with_std() {
    let words = ["", "a", "ab", "b", "2026-01", "2026-1", "é", "z", "zz", "\u{10000}"];
    for a in words {
        for b in words {
            assert_eq!(text_less(&chars_of(a), &chars_of(b)), a < b);
        }
    }
}
