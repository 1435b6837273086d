use cfa2_kernel::js_math::{
    extract_words, get_high_word, is_nan_words, set_high_word, set_low_word, split_exponent,
    y_integer_kind, scale_range, ScaleRange, sum_high_word, round_exponent, pow_case, PowCase,
    scaled_high_word,
};

fn kind(y: f64) -> i32 {
    let (hy, ly) = extract_words(y.to_bits());
    y_integer_kind(hy & 0x7fff_ffff, ly)
}

#[test]
fn words_of_one_and_a_half() {
    let bits = 1.5f64.to_bits();
    assert_eq!(extract_words(bits), (0x3ff8_0000, 0));
    assert_eq!(get_high_word(bits), 0x3ff8_0000);
    let (hi, lo) = extract_words((-0.1f64).to_bits());
    assert_eq!(hi, 0xbfb9_9999u32 as i32);
    assert_eq!(lo, 0x9999_999a);
    assert!(hi < 0);
}

#[test]
fn set_words_replace_one_half_only() {
    let bits = 0.1f64.to_bits();
    let cleared = set_low_word(bits, 0);
    assert_eq!(cleared, 0x3fb9_9999_0000_0000);
    assert_eq!(get_high_word(cleared), get_high_word(bits));
    let raised = set_high_word(bits, 0x4000_0000);
    assert_eq!(raised, 0x4000_0000_9999_999a);
    assert_eq!(f64::from_bits(set_high_word(0, 0x3ff0_0000)), 1.0);
    assert_eq!(set_high_word(0, -1), 0xffff_ffff_0000_0000);
}

#[test]
fn word_round_trip() {
    for &x in &[0.0f64, -0.0, 1.0, -2.5, 1e300, f64::MIN_POSITIVE, f64::INFINITY] {
        let bits = x.to_bits();
        let (hi, lo) = extract_words(bits);
        assert_eq!(set_low_word(set_high_word(0, hi), lo), bits);
    }
}

#[test]
fn integer_kind_of_exponents() {
    assert_eq!(kind(3.0), 1);
    assert_eq!(kind(-3.0), 1);
    assert_eq!(kind(1.0), 1);
    assert_eq!(kind(2.0), 2);
    assert_eq!(kind(0.5), 0);
    assert_eq!(kind(1.5), 0);
    assert_eq!(kind(0.0), 0);
    assert_eq!(kind(7.0), 1);
    assert_eq!(kind(1048577.0), 1);
    assert_eq!(kind(4503599627370497.0), 1);
    assert_eq!(kind(2251799813685248.5), 0);
    assert_eq!(kind(9007199254740992.0), 2);
    assert_eq!(kind(1e300), 2);
    assert_eq!(kind(f64::INFINITY), 2);
}

#[test]
fn nan_words_are_detected() {
    let (hi, lo) = extract_words(f64::NAN.to_bits());
    assert!(is_nan_words(hi & 0x7fff_ffff, lo));
    let (hi, lo) = extract_words(f64::INFINITY.to_bits());
    assert!(!is_nan_words(hi & 0x7fff_ffff, lo));
    assert!(is_nan_words(0x7ff0_0000, 1));
    assert!(!is_nan_words(0x3ff0_0000, 0));
}

#[test]
fn split_exponent_scales_by_powers_of_two() {
    assert_eq!(split_exponent(0x3ff0_0000), (0, 0, 0x3ff0_0000));
    assert_eq!(split_exponent(0x3ff8_0000), (0, 1, 0x3ff8_0000));
    assert_eq!(split_exponent(0x3ffe_6666), (1, 0, 0x3fee_6666));
    assert_eq!(split_exponent(0x4020_0000), (3, 0, 0x3ff0_0000));
    assert_eq!(split_exponent(0x0010_0000), (-1022, 0, 0x3ff0_0000));
    for &x in &[1.0f64, 1.3, 1.5, 1.9, 8.0, 0.001, 123456.789, 1e300] {
        let (hi, lo) = extract_words(x.to_bits());
        let (n, k, hi_norm) = split_exponent(hi);
        let reduced = f64::from_bits(set_low_word(set_high_word(0, hi_norm), lo));
        assert!((0.8660254..1.7320509).contains(&reduced));
        assert_eq!(k == 1, reduced >= 1.2247448);
        assert_eq!(reduced * 2f64.powi(n), x);
    }
}

#[test]
fn scale_range_against_1024_and_minus_1075() {
    let range = |z: f64| {
        let (j, lo) = extract_words(z.to_bits());
        scale_range(j, lo)
    };
    assert_eq!(range(1025.0), ScaleRange::Above);
    assert_eq!(range(1024.0000000000002), ScaleRange::Above);
    assert_eq!(range(1024.0), ScaleRange::AtUpper);
    assert_eq!(range(1023.9999999999999), ScaleRange::Within);
    assert_eq!(range(0.0), ScaleRange::Within);
    assert_eq!(range(-0.0), ScaleRange::Within);
    assert_eq!(range(-1074.5), ScaleRange::Within);
    assert_eq!(range(-1075.0), ScaleRange::AtLower);
    assert_eq!(range(-1075.0000000000002), ScaleRange::Below);
    assert_eq!(range(f64::INFINITY), ScaleRange::Above);
    assert_eq!(range(f64::NEG_INFINITY), ScaleRange::Below);
}

#[test]
fn sum_high_word_rebases_half_the_word() {
    assert_eq!(sum_high_word(0x3ff0_0000, 0), (0x3ff0_0000 >> 1 | 0x2000_0000) + 0x0008_0000);
    assert_eq!(sum_high_word(0x3ff8_0000, 1), 0x1ffc_0000 + 0x2008_0000 + 0x0004_0000);
    assert_eq!(sum_high_word(0x3feb_b67a, 0), 0x3feb_b67a / 2 + 0x2008_0000);
}

#[test]
fn round_exponent_is_nearest_integer_as_double() {
    for &(z, want) in &[
        (0.75f64, 1i32),
        (0.5000001, 1),
        (1.49, 1),
        (2.5, 3),
        (-2.4, -2),
        (-0.6, -1),
        (1023.7, 1024),
        (1024.0, 1024),
        (-1075.0, -1075),
        (-1074.4, -1074),
    ] {
        let (j, _) = extract_words(z.to_bits());
        let (n, t_hi) = round_exponent(j);
        assert_eq!(n, want, "z = {z}");
        assert_eq!(f64::from_bits(set_high_word(0, t_hi)), want as f64, "z = {z}");
    }
}

fn case(x: f64, y: f64) -> PowCase {
    let (hx, lx) = extract_words(x.to_bits());
    let (hy, ly) = extract_words(y.to_bits());
    pow_case(hx, lx, hy, ly)
}

#[test]
fn pow_case_special_values_of_y() {
    assert_eq!(case(f64::NAN, 0.0), PowCase::One);
    assert_eq!(case(3.0, -0.0), PowCase::One);
    assert_eq!(case(f64::NAN, 1.0), PowCase::NanSum);
    assert_eq!(case(2.0, f64::NAN), PowCase::NanSum);
    assert_eq!(case(1.0, f64::INFINITY), PowCase::InfOfOne);
    assert_eq!(case(-1.0, f64::NEG_INFINITY), PowCase::InfOfOne);
    assert_eq!(case(2.0, f64::INFINITY), PowCase::InfY);
    assert_eq!(case(2.0, f64::NEG_INFINITY), PowCase::InfZero);
    assert_eq!(case(0.5, f64::NEG_INFINITY), PowCase::InfNegY);
    assert_eq!(case(0.5, f64::INFINITY), PowCase::InfZero);
    assert_eq!(case(-7.25, 1.0), PowCase::Identity);
    assert_eq!(case(4.0, -1.0), PowCase::Reciprocal);
    assert_eq!(case(-0.0, -1.0), PowCase::Reciprocal);
    assert_eq!(case(-3.0, 2.0), PowCase::Square);
    assert_eq!(case(9.0, 0.5), PowCase::Sqrt);
}

#[test]
fn pow_case_special_values_of_x() {
    assert_eq!(
        case(-1.0, 0.5),
        PowCase::SpecialX { invert: false, nan: true, negate: false }
    );
    assert_eq!(
        case(-0.0, -3.0),
        PowCase::SpecialX { invert: true, nan: false, negate: true }
    );
    assert_eq!(
        case(f64::NEG_INFINITY, 3.0),
        PowCase::SpecialX { invert: false, nan: false, negate: true }
    );
    assert_eq!(
        case(0.0, 3.5),
        PowCase::SpecialX { invert: false, nan: false, negate: false }
    );
    assert_eq!(case(-2.0, 0.5), PowCase::NegativeBase);
    assert_eq!(case(-2.0, 2.5), PowCase::NegativeBase);
}

#[test]
fn pow_case_huge_exponents_and_the_general_path() {
    assert_eq!(case(2.0, 1e20), PowCase::Overflow { negative: false });
    assert_eq!(case(2.0, -1e20), PowCase::Underflow { negative: false });
    assert_eq!(case(0.5, 1e20), PowCase::Underflow { negative: false });
    assert_eq!(case(0.5, -1e20), PowCase::Overflow { negative: false });
    assert_eq!(case(-2.0, 3e9 + 1.0), PowCase::Overflow { negative: true });
    assert_eq!(case(-0.5, 3e9 + 1.0), PowCase::Underflow { negative: true });
    assert_eq!(case(1.0 + 1e-9, 3e9), PowCase::NearOne { negative: false });
    assert_eq!(case(-3.0, 3.0), PowCase::General { negative: true });
    assert_eq!(case(-3.0, 4.0), PowCase::General { negative: false });
    assert_eq!(case(2.0, 10.0), PowCase::General { negative: false });
}

#[test]
fn scaled_high_word_adds_to_the_exponent_field() {
    // 1.0 * 2^3 = 8.0, 1.5 * 2^-2 = 0.375
    assert_eq!(scaled_high_word(0x3ff0_0000, 3), Some(0x4020_0000));
    assert_eq!(f64::from_bits((scaled_high_word(0x3ff8_0000, -2).unwrap() as u32 as u64) << 32), 0.375);
    // 1.0 * 2^-1023 is subnormal: no normal high word
    assert_eq!(scaled_high_word(0x3ff0_0000, -1023), None);
    assert_eq!(scaled_high_word(0x3ff0_0000, -1022), Some(0x0010_0000));
}
