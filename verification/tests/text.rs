use netto::address::{ip_kind, is_clat_placeholder, parse_ipv4, strip_zone, ChipKind};
use netto::double::{to_double, whole_percent, UNIT};
use netto::numeral::{decimal, decimal_tenths, round_half_even, round_half_up};
use netto::text::{
    chars_of, contains_text, copy_text, find, is_whitespace, lines, string_of, strip_prefix, trim,
};

#[test]
fn white_space_is_that_of_unicode() {
    for u in 0..=0x10ffffu32 {
        if let Some(c) = char::from_u32(u) {
            assert_eq!(is_whitespace(c), c.is_whitespace());
        }
    }
}

#[test]
fn trim_agrees_with_str() {
    for s in ["", "  ", "a", " a ", "\t a b\u{a0}\r\n", "\u{3000}x\u{2003}"] {
        let chars = chars_of(s);
        assert_eq!(string_of(trim(&chars)), s.trim());
    }
}

#[test]
fn lines_agree_with_str() {
    for s in ["", "\n", "a", "a\n", "a\n\nb", "a\r\nb\r", "\r\n", "x\r\r\ny\n"] {
        let chars = chars_of(s);
        let got: Vec<String> = lines(&chars).iter().map(|l| string_of(l)).collect();
        let want: Vec<String> = s.lines().map(|l| l.to_string()).collect();
        assert_eq!(got, want);
    }
}

#[test]
fn prefixes_and_finding() {
    let chars = chars_of("gateway: x");
    assert_eq!(string_of(strip_prefix(&chars, "gateway:").unwrap()), " x");
    assert!(strip_prefix(&chars, "gateway: xy").is_none());
    assert!(strip_prefix(&chars, "way").is_none());
    assert_eq!(find(&chars, ':'), 7);
    assert_eq!(find(&chars, '?'), 10);
    let list = vec!["a".to_string(), "b".to_string()];
    assert!(contains_text(&list, &"b".to_string()));
    assert!(!contains_text(&list, &"c".to_string()));
    assert_eq!(copy_text(&Some("q".to_string())), Some("q".to_string()));
    assert_eq!(copy_text(&None), None);
}

#[test]
fn zones_are_dropped() {
    assert_eq!(strip_zone("fe80::1%en0"), "fe80::1");
    assert_eq!(strip_zone("fe80::1%en0%x"), "fe80::1");
    assert_eq!(strip_zone("10.0.0.1"), "10.0.0.1");
    assert_eq!(strip_zone("%en0"), "");
}

#[test]
fn families_are_told_apart() {
    assert_eq!(ip_kind("fe80::1"), ChipKind::V6);
    assert_eq!(ip_kind("10.0.0.1"), ChipKind::V4);
    assert_eq!(ip_kind(""), ChipKind::V4);
}

#[test]
fn dotted_addresses_are_read() {
    assert_eq!(parse_ipv4("0.10.200.255"), Some((0, 10, 200, 255)));
    for s in [
        "", "1.2.3", "1.2.3.4.5", "01.2.3.4", "1.2.3.256", "1.2.3.", ".1.2.3", "1..2.3", "1.2.3.4 ",
        "1.2.3.a", "1.2.3.1000", "00.0.0.0", "1.2.3.-1", "::1",
    ] {
        assert_eq!(parse_ipv4(s), None, "{s}");
    }
    for v in 0..=255u8 {
        assert_eq!(parse_ipv4(&format!("{v}.{v}.0.{v}")), Some((v, v, 0, v)));
    }
}

#[test]
fn clat_block_is_recognised() {
    assert!(is_clat_placeholder("192.0.0.0"));
    assert!(is_clat_placeholder("192.0.0.1"));
    assert!(is_clat_placeholder("192.0.0.7"));
    assert!(!is_clat_placeholder("192.0.0.8"));
    assert!(!is_clat_placeholder("192.0.1.1"));
    assert!(!is_clat_placeholder("192.168.0.1"));
    assert!(!is_clat_placeholder("fe80::1"));
    assert!(!is_clat_placeholder("192.0.0.01"));
}

#[test]
fn numerals_agree_with_format() {
    for n in [0u64, 7, 10, 99, 100, 12_345, u64::MAX] {
        assert_eq!(decimal(n), format!("{n}"));
    }
    assert_eq!(decimal_tenths(0), "0.0");
    assert_eq!(decimal_tenths(123), "12.3");
}

#[test]
fn rounding_breaks_ties_as_stated() {
    assert_eq!(round_half_up(5, 10), 1);
    assert_eq!(round_half_up(14, 10), 1);
    assert_eq!(round_half_up(15, 10), 2);
    assert_eq!(round_half_even(5, 10), 0);
    assert_eq!(round_half_even(15, 10), 2);
    assert_eq!(round_half_even(25, 10), 2);
    assert_eq!(round_half_even(26, 10), 3);
    assert_eq!(round_half_even(u128::MAX, 1), u128::MAX);
    assert_eq!(round_half_up(u128::MAX, 1), u128::MAX);
}

#[test]
fn doubles_are_those_of_the_machine() {
    for (num, den) in [
        (1u64, 1_000_000u64),
        (1, 3),
        (50_000, 1_000_000),
        (12_350_000, 1_000_000),
        (23, 40),
        (u32::MAX as u64, 1),
        (1, u32::MAX as u64),
        (7_777_777_777, 1_000_000_000),
    ] {
        let (m, p) = to_double(num as u128, den as u128);
        assert!(p.is_power_of_two());
        assert_eq!(m as f64 / p as f64, num as f64 / den as f64);
        assert!(UNIT <= m && m <= 2 * UNIT);
    }
    assert_eq!(to_double(0, 9), (0, 1));
}

#[test]
fn percentages_agree_with_format() {
    assert_eq!(whole_percent(23, 40), 57);
    for all in 1..300u32 {
        for part in 0..=all {
            let want = format!("{:.0}", part as f64 / all as f64 * 100.0);
            assert_eq!(decimal(whole_percent(part, all)), want, "{part}/{all}");
        }
    }
    for (part, all) in [(1u32, u32::MAX), (u32::MAX, u32::MAX), (u32::MAX - 1, u32::MAX), (u32::MAX, 1)] {
        let want = format!("{:.0}", part as f64 / all as f64 * 100.0);
        assert_eq!(decimal(whole_percent(part, all)), want);
    }
}
