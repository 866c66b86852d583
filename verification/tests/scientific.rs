use rust_leo_sim::scientific::{
    add_up, convert_scientific, count_digits, parse_exponent, power_of_ten, to_tle_scientific,
    Mantissa, Scientific, ScientificError,
};

fn as_float(text: &[u8]) -> f64 {
    let value = convert_scientific(text).unwrap();
    String::from_utf8(value.numeric_text()).unwrap().parse::<f64>().unwrap()
}

fn column(value: &Scientific, plus: u8) -> Vec<u8> {
    let mut out = Vec::new();
    value.push_column(&mut out, plus);
    out
}

#[test]
fn decodes_positive_value() {
    assert_eq!(as_float(b"12345-3"), 0.00012345);
}

#[test]
fn decodes_negative_value() {
    assert_eq!(as_float(b"-23000-4"), -0.000023);
}

#[test]
fn decoded_value_holds_sign_mantissa_and_exponent() {
    assert_eq!(
        convert_scientific(b"-23000-4"),
        Ok(Scientific { negative: true, mantissa: 23000, digits: 5, exponent: -4 })
    );
    assert_eq!(
        convert_scientific(b"12345+2"),
        Ok(Scientific { negative: false, mantissa: 12345, digits: 5, exponent: 2 })
    );
    assert_eq!(
        convert_scientific(b"1234503"),
        Ok(Scientific { negative: false, mantissa: 12345, digits: 5, exponent: 3 })
    );
}

#[test]
fn keeps_leading_zeros_of_the_mantissa() {
    let value = convert_scientific(b"00123-3").unwrap();
    assert_eq!(value, Scientific { negative: false, mantissa: 123, digits: 5, exponent: -3 });
    assert_eq!(value.numeric_text(), b"0.00123e-3".to_vec());
    assert_eq!(as_float(b"00123-3"), 0.00000123);
}

#[test]
fn surrounding_white_space_is_trimmed() {
    assert_eq!(convert_scientific(b"  25222-3 \n"), convert_scientific(b"25222-3"));
    assert_eq!(as_float(b" 25222-3"), 0.00025222);
}

#[test]
fn a_plus_sign_in_front_is_passed_over() {
    assert_eq!(
        convert_scientific(b"+12345-3"),
        Ok(Scientific { negative: false, mantissa: 12345, digits: 5, exponent: -3 })
    );
}

#[test]
fn the_letter_e_before_the_exponent_is_left_out() {
    assert_eq!(
        convert_scientific(b"12345e-3"),
        Ok(Scientific { negative: false, mantissa: 12345, digits: 5, exponent: -3 })
    );
    assert_eq!(
        convert_scientific(b"-12345e+1"),
        Ok(Scientific { negative: true, mantissa: 12345, digits: 5, exponent: 1 })
    );
    assert_eq!(as_float(b"12345e-3"), 0.00012345);
}

#[test]
fn zero_in_both_forms() {
    assert_eq!(as_float(b" 00000-0"), 0.0);
    assert_eq!(as_float(b" 00000+0"), 0.0);
    assert_eq!(
        convert_scientific(b"00000-0"),
        Ok(Scientific { negative: false, mantissa: 0, digits: 5, exponent: 0 })
    );
}

#[test]
fn empty_input_is_refused() {
    assert_eq!(convert_scientific(b""), Err(ScientificError::Empty));
    assert_eq!(convert_scientific(b"   \t "), Err(ScientificError::Empty));
}

#[test]
fn short_input_is_refused() {
    assert_eq!(convert_scientific(b"1"), Err(ScientificError::TooShort));
    assert_eq!(convert_scientific(b"-3"), Err(ScientificError::TooShort));
    assert_eq!(convert_scientific(b" 12 "), Err(ScientificError::TooShort));
}

#[test]
fn bad_exponent_is_refused() {
    assert_eq!(convert_scientific(b"12345-x"), Err(ScientificError::BadExponent));
    assert_eq!(convert_scientific(b"12345 3"), Err(ScientificError::BadExponent));
    assert_eq!(convert_scientific(b"123453-"), Err(ScientificError::BadExponent));
}

#[test]
fn mantissa_of_twenty_digits_is_refused() {
    assert_eq!(
        convert_scientific(b"12345678901234567890-3"),
        Err(ScientificError::MantissaTooLong)
    );
    assert_eq!(
        convert_scientific(b"1234567890123456789-3"),
        Ok(Scientific {
            negative: false,
            mantissa: 1234567890123456789,
            digits: 19,
            exponent: -3
        })
    );
}

#[test]
fn add_up_collects_the_digits_between_two_positions() {
    assert_eq!(add_up(b"-23000-4", 1, 2), Ok(Mantissa { value: 23000, digits: 5 }));
    assert_eq!(add_up(b"12345e-3", 0, 3), Ok(Mantissa { value: 12345, digits: 5 }));
    assert_eq!(add_up(b"1.2a3", 0, 0), Ok(Mantissa { value: 123, digits: 3 }));
    assert_eq!(add_up(b"007", 0, 0), Ok(Mantissa { value: 7, digits: 3 }));
    assert_eq!(add_up(b"abc", 3, 0), Ok(Mantissa { value: 0, digits: 0 }));
}

#[test]
fn add_up_refuses_positions_past_the_text() {
    assert_eq!(add_up(b"123", 2, 2), Err(ScientificError::TooShort));
    assert_eq!(add_up(b"123", 4, 0), Err(ScientificError::TooShort));
    assert_eq!(add_up(b"123", usize::MAX, usize::MAX), Err(ScientificError::TooShort));
}

#[test]
fn exponent_characters() {
    assert_eq!(parse_exponent(b'-', b'3'), Some(-3));
    assert_eq!(parse_exponent(b'+', b'7'), Some(7));
    assert_eq!(parse_exponent(b'1', b'2'), Some(12));
    assert_eq!(parse_exponent(b'-', b'0'), Some(0));
    assert_eq!(parse_exponent(b' ', b'3'), None);
    assert_eq!(parse_exponent(b'-', b'-'), None);
}

#[test]
fn five_significant_digits_of_short_numbers() {
    assert_eq!(to_tle_scientific(0, 17), (0, 0));
    assert_eq!(to_tle_scientific(12345, -8), (12345, -8));
    assert_eq!(to_tle_scientific(1, 0), (10000, -4));
    assert_eq!(to_tle_scientific(23, -6), (23000, -9));
}

#[test]
fn five_significant_digits_of_long_numbers_are_rounded() {
    assert_eq!(to_tle_scientific(123456789, -12), (12346, -8));
    assert_eq!(to_tle_scientific(123454999, -12), (12345, -8));
    assert_eq!(to_tle_scientific(123455000, -12), (12346, -8));
    assert_eq!(to_tle_scientific(999995, 0), (10000, 2));
    assert_eq!(to_tle_scientific(999994, 0), (99999, 1));
    assert_eq!(to_tle_scientific(u64::MAX, 0), (18447, 15));
}

#[test]
fn digits_and_powers() {
    assert_eq!(count_digits(0), 1);
    assert_eq!(count_digits(9), 1);
    assert_eq!(count_digits(10), 2);
    assert_eq!(count_digits(99_999), 5);
    assert_eq!(count_digits(u64::MAX), 20);
    assert_eq!(power_of_ten(0), 1);
    assert_eq!(power_of_ten(5), 100_000);
    assert_eq!(power_of_ten(19), 10_000_000_000_000_000_000);
}

#[test]
fn column_form_from_parts() {
    // 0.00012345 = 12345e-8 = 0.12345e-3
    assert_eq!(
        Scientific::from_parts(false, 12345, -8),
        Some(Scientific { negative: false, mantissa: 12345, digits: 5, exponent: -3 })
    );
    assert_eq!(
        Scientific::from_parts(true, 0, 99),
        Some(Scientific { negative: true, mantissa: 0, digits: 5, exponent: 0 })
    );
    assert_eq!(Scientific::from_parts(false, 100_000, 0), None);
    assert_eq!(Scientific::from_parts(false, 12345, 5), None);
    assert_eq!(Scientific::from_parts(false, 12345, -15), None);
    assert!(Scientific::from_parts(false, 12345, 4).unwrap().canonical());
    assert!(Scientific::from_parts(false, 12345, -14).unwrap().canonical());
}

#[test]
fn canonical_form_fills_the_mantissa() {
    let short = Scientific { negative: true, mantissa: 23, digits: 2, exponent: -4 };
    assert!(!short.canonical());
    assert_eq!(
        short.to_canonical(),
        Some(Scientific { negative: true, mantissa: 23000, digits: 5, exponent: -4 })
    );
    let none = Scientific { negative: false, mantissa: 0, digits: 0, exponent: 0 };
    assert_eq!(
        none.to_canonical(),
        Some(Scientific { negative: false, mantissa: 0, digits: 5, exponent: 0 })
    );
    let long = Scientific { negative: false, mantissa: 123456, digits: 6, exponent: -4 };
    assert_eq!(long.to_canonical(), None);
    let far = Scientific { negative: false, mantissa: 12345, digits: 5, exponent: 12 };
    assert_eq!(far.to_canonical(), None);
    let odd = Scientific { negative: false, mantissa: 12345, digits: 3, exponent: 1 };
    assert_eq!(odd.to_canonical(), None);
}

#[test]
fn columns_of_a_value() {
    let value = Scientific { negative: false, mantissa: 25222, digits: 5, exponent: -3 };
    assert_eq!(column(&value, b' '), b" 25222-3".to_vec());
    assert_eq!(column(&value, b'+'), b"+25222-3".to_vec());
    let negative = Scientific { negative: true, mantissa: 123, digits: 5, exponent: 2 };
    assert_eq!(column(&negative, b' '), b"-00123+2".to_vec());
    let zero = Scientific { negative: false, mantissa: 0, digits: 5, exponent: 0 };
    assert_eq!(column(&zero, b' '), b" 00000-0".to_vec());
}

#[test]
fn written_columns_read_back_as_the_value() {
    for negative in [false, true] {
        for mantissa in [0u64, 1, 123, 10000, 12345, 99999] {
            for exponent in -9i8..=9 {
                for plus in [b' ', b'+'] {
                    let value = Scientific { negative, mantissa, digits: 5, exponent };
                    assert_eq!(convert_scientific(&column(&value, plus)), Ok(value));
                }
            }
        }
    }
}

#[test]
fn a_number_survives_encoding_to_five_digits() {
    // 0.000123456789 is written with five digits and read back as 0.00012346
    let (mantissa, exponent) = to_tle_scientific(123456789, -12);
    let value = Scientific::from_parts(false, mantissa, exponent).unwrap();
    let text = column(&value, b' ');
    assert_eq!(text, b" 12346-3".to_vec());
    let back = as_float(&text);
    assert_eq!(back, 0.00012346);
    assert!((back - 0.000123456789f64).abs() <= 0.5e-8);
}

#[test]
fn numeric_text_of_values() {
    let value = Scientific { negative: true, mantissa: 5, digits: 3, exponent: 12 };
    assert_eq!(value.numeric_text(), b"-0.005e12".to_vec());
    let none = Scientific { negative: false, mantissa: 0, digits: 0, exponent: -128 };
    assert_eq!(none.numeric_text(), b"0.0e-128".to_vec());
    let top = Scientific { negative: false, mantissa: 7, digits: 1, exponent: 127 };
    assert_eq!(top.numeric_text(), b"0.7e127".to_vec());
}
