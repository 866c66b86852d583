use rust_leo_sim::text::{
    find_byte, is_ascii_digit, is_digit_run, is_whitespace, parse_fixed, parse_signed_fixed,
    parse_uint, push_blanked, push_decimal, push_fixed, push_fixed_zero_padded,
    push_left_justified, push_signed_fraction, push_spaces, push_zero_padded, push_zeros,
    split_fields, trim,
};

fn written(f: impl Fn(&mut Vec<u8>)) -> String {
    let mut out = b">".to_vec();
    f(&mut out);
    String::from_utf8(out).unwrap()
}

#[test]
fn white_space_and_digits() {
    for b in [b' ', b'\t', b'\n', 0x0b, 0x0c, b'\r'] {
        assert!(is_whitespace(b));
    }
    for b in [b'a', b'0', 0x00, 0x08, 0x0e, 0x1f, 0x21, 0x85, 0xa0] {
        assert!(!is_whitespace(b));
    }
    for b in b'0'..=b'9' {
        assert!(is_ascii_digit(b));
    }
    assert!(!is_ascii_digit(b'/'));
    assert!(!is_ascii_digit(b':'));
    assert!(is_digit_run(b"0123456789"));
    assert!(is_digit_run(b""));
    assert!(!is_digit_run(b"12 3"));
}

#[test]
fn trimming() {
    assert_eq!(trim(b"  abc \t\n"), b"abc");
    assert_eq!(trim(b"abc"), b"abc");
    assert_eq!(trim(b" a b "), b"a b");
    assert_eq!(trim(b"   "), b"");
    assert_eq!(trim(b""), b"");
    assert_eq!(trim(b"\x0b\x0cx\r"), b"x");
}

#[test]
fn first_byte() {
    assert_eq!(find_byte(b"12.34.5", b'.'), 2);
    assert_eq!(find_byte(b".5", b'.'), 0);
    assert_eq!(find_byte(b"12345", b'.'), 5);
    assert_eq!(find_byte(b"", b'.'), 0);
}

#[test]
fn whole_numbers() {
    assert_eq!(parse_uint(b"25544"), Some(25544));
    assert_eq!(parse_uint(b"0007877"), Some(7877));
    assert_eq!(parse_uint(b"0"), Some(0));
    assert_eq!(parse_uint(b""), None);
    assert_eq!(parse_uint(b"-1"), None);
    assert_eq!(parse_uint(b"1 2"), None);
    assert_eq!(parse_uint(b"18446744073709551615"), Some(u64::MAX));
    assert_eq!(parse_uint(b"18446744073709551616"), None);
    assert_eq!(parse_uint(b"000018446744073709551615"), Some(u64::MAX));
    assert_eq!(parse_uint(b"99999999999999999999999"), None);
}

#[test]
fn fixed_point_numbers() {
    assert_eq!(parse_fixed(b"51.6403", 4), Some(516_403));
    assert_eq!(parse_fixed(b"51.64", 4), Some(516_400));
    assert_eq!(parse_fixed(b"51", 4), Some(510_000));
    assert_eq!(parse_fixed(b"51.", 4), Some(510_000));
    assert_eq!(parse_fixed(b".5", 4), Some(5_000));
    assert_eq!(parse_fixed(b"0", 0), Some(0));
    assert_eq!(parse_fixed(b"7.", 0), Some(7));
    assert_eq!(parse_fixed(b"356.58519896", 8), Some(35_658_519_896));
    assert_eq!(parse_fixed(b"51.64035", 4), None);
    assert_eq!(parse_fixed(b".", 4), None);
    assert_eq!(parse_fixed(b"", 4), None);
    assert_eq!(parse_fixed(b"5.1.6", 4), None);
    assert_eq!(parse_fixed(b"-5.1", 4), None);
    assert_eq!(parse_fixed(b"5e3", 4), None);
    assert_eq!(parse_fixed(b"1844674407370955.1615", 4), Some(u64::MAX));
    assert_eq!(parse_fixed(b"1844674407370955.1616", 4), None);
    assert_eq!(parse_fixed(b"1", 20), None);
    assert_eq!(parse_fixed(b"0", 200), Some(0));
}

#[test]
fn signed_fixed_point_numbers() {
    assert_eq!(parse_signed_fixed(b"-.00014389", 8), Some(-14389));
    assert_eq!(parse_signed_fixed(b"+.00014389", 8), Some(14389));
    assert_eq!(parse_signed_fixed(b".00014389", 8), Some(14389));
    assert_eq!(parse_signed_fixed(b"-0", 2), Some(0));
    assert_eq!(parse_signed_fixed(b"-", 2), None);
    assert_eq!(parse_signed_fixed(b"+-1", 2), None);
    assert_eq!(parse_signed_fixed(b"--1", 2), None);
    assert_eq!(parse_signed_fixed(b"", 2), None);
    assert_eq!(parse_signed_fixed(b"9223372036854775807", 0), Some(i64::MAX));
    assert_eq!(parse_signed_fixed(b"-9223372036854775807", 0), Some(-i64::MAX));
    assert_eq!(parse_signed_fixed(b"9223372036854775808", 0), None);
    assert_eq!(parse_signed_fixed(b"-9223372036854775808", 0), None);
}

#[test]
fn zero_padded_numbers() {
    assert_eq!(written(|o| push_zero_padded(o, 42, 5)), ">00042");
    assert_eq!(written(|o| push_zero_padded(o, 0, 3)), ">000");
    assert_eq!(written(|o| push_zero_padded(o, 123456, 4)), ">3456");
    assert_eq!(written(|o| push_zero_padded(o, 7, 0)), ">");
    assert_eq!(written(|o| push_zero_padded(o, u64::MAX, 20)), ">18446744073709551615");
    assert_eq!(written(|o| push_zero_padded(o, 42, 25)), ">0000000000000000000000042");
    assert_eq!(written(|o| push_zero_padded(o, u64::MAX, 21)), ">018446744073709551615");
    let wide = written(|o| push_zero_padded(o, 7, 1_000_000));
    assert_eq!(wide.len(), 1_000_001);
    assert!(wide.ends_with("007"));
    assert!(wide[1..wide.len() - 1].bytes().all(|b| b == b'0'));
}

#[test]
fn right_justified_numbers() {
    assert_eq!(written(|o| push_blanked(o, 42, 5)), ">   42");
    assert_eq!(written(|o| push_blanked(o, 0, 5)), ">    0");
    assert_eq!(written(|o| push_blanked(o, 25544, 5)), ">25544");
    assert_eq!(written(|o| push_blanked(o, 100, 3)), ">100");
    assert_eq!(written(|o| push_blanked(o, 5, 0)), ">");
}

#[test]
fn numbers_without_leading_zeros() {
    assert_eq!(written(|o| push_decimal(o, 42, 5)), ">42");
    assert_eq!(written(|o| push_decimal(o, 0, 5)), ">0");
    assert_eq!(written(|o| push_decimal(o, 1005, 3)), ">5");
    assert_eq!(written(|o| push_decimal(o, u64::MAX, 20)), ">18446744073709551615");
}

#[test]
fn fixed_point_text() {
    assert_eq!(written(|o| push_fixed(o, 516_403, 3, 4)), "> 51.6403");
    assert_eq!(written(|o| push_fixed(o, 61_421, 3, 4)), ">  6.1421");
    assert_eq!(written(|o| push_fixed(o, 7, 3, 4)), ">  0.0007");
    assert_eq!(written(|o| push_fixed(o, 1_550_801_739, 2, 8)), ">15.50801739");
    assert_eq!(written(|o| push_fixed(o, 5, 1, 0)), ">5.");
    assert_eq!(written(|o| push_fixed_zero_padded(o, 135_000_000, 3, 8)), ">001.35000000");
    assert_eq!(written(|o| push_fixed_zero_padded(o, 45_190_144, 2, 6)), ">45.190144");
    assert_eq!(written(|o| push_fixed_zero_padded(o, 5, 0, 2)), ">.05");
}

#[test]
fn signed_fraction_text() {
    assert_eq!(written(|o| push_signed_fraction(o, 14389, 8)), ">+.00014389");
    assert_eq!(written(|o| push_signed_fraction(o, -14389, 8)), ">-.00014389");
    assert_eq!(written(|o| push_signed_fraction(o, 0, 8)), ">+.00000000");
    assert_eq!(written(|o| push_signed_fraction(o, i64::MIN, 19)), ">-.9223372036854775808");
}

#[test]
fn justified_text() {
    assert_eq!(written(|o| push_left_justified(o, b"98067A", 8)), ">98067A  ");
    assert_eq!(written(|o| push_left_justified(o, b"", 3)), ">   ");
    assert_eq!(written(|o| push_left_justified(o, b"toolong", 3)), ">toolong");
    assert_eq!(written(|o| push_spaces(o, 4)), ">    ");
    assert_eq!(written(|o| push_spaces(o, 0)), ">");
    assert_eq!(written(|o| push_zeros(o, 3)), ">000");
    assert_eq!(written(|o| push_zeros(o, 0)), ">");
}

#[test]
fn written_numbers_read_back() {
    for v in [0u64, 1, 9, 10, 99_999, 516_403, 9_999_999] {
        let mut out = Vec::new();
        push_fixed(&mut out, v, 3, 4);
        assert_eq!(out.len(), 8);
        assert_eq!(parse_fixed(trim(&out), 4), Some(v));
        let mut out = Vec::new();
        push_blanked(&mut out, v, 7);
        assert_eq!(parse_uint(trim(&out)), Some(v));
        let mut out = Vec::new();
        push_zero_padded(&mut out, v, 7);
        assert_eq!(parse_uint(&out), Some(v));
    }
}

#[test]
fn fields_of_a_line() {
    let fields = |line: &[u8]| -> Vec<String> {
        split_fields(line, b',').into_iter().map(|f| String::from_utf8(f).unwrap()).collect()
    };
    assert_eq!(fields(b"a,b,c"), vec!["a", "b", "c"]);
    assert_eq!(fields(b"abc"), vec!["abc"]);
    assert_eq!(fields(b""), vec![""]);
    assert_eq!(fields(b","), vec!["", ""]);
    assert_eq!(fields(b"a,,b,"), vec!["a", "", "b", ""]);
    assert_eq!(fields(b"1734789761.190144,6878.137,-0.5").len(), 3);
    assert_eq!(split_fields(b"a b  c", b' ').len(), 4);
}
