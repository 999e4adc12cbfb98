use wordplay::cosine::{cosine, isqrt, MAX_COMPONENT, MAX_DIM, SCORE_ONE};
use wordplay::decimal::{decimal, is_digit_char, parse_component, parse_index};

fn chars(s: &str) -> Vec<char> {
    s.chars().collect()
}

fn component(s: &str) -> Option<i32> {
    parse_component(&chars(s))
}

fn index(s: &str) -> Option<usize> {
    parse_index(&chars(s))
}

#[test]
fn integer_square_roots() {
    assert_eq!(isqrt(0), 0);
    assert_eq!(isqrt(1), 1);
    assert_eq!(isqrt(3), 1);
    assert_eq!(isqrt(4), 2);
    assert_eq!(isqrt(99), 9);
    assert_eq!(isqrt(100), 10);
    assert_eq!(isqrt(98_780_487), 9_938);
    assert_eq!(isqrt(100_000_000), 10_000);
    assert_eq!(isqrt(u64::MAX), 4_294_967_295);
}

#[test]
fn cosine_of_parallel_vectors_is_full_score() {
    assert_eq!(cosine(&[10_000, 0], &[10_000, 0]), SCORE_ONE);
    assert_eq!(cosine(&[3, 4], &[6, 8]), SCORE_ONE);
    assert_eq!(cosine(&[1], &[500_000]), SCORE_ONE);
}

#[test]
fn cosine_of_opposite_vectors_is_negative_full_score() {
    assert_eq!(cosine(&[3, 4], &[-3, -4]), -SCORE_ONE);
}

#[test]
fn cosine_of_orthogonal_vectors_is_zero() {
    assert_eq!(cosine(&[10_000, 0], &[0, 10_000]), 0);
}

#[test]
fn cosine_rounds_toward_zero() {
    assert_eq!(cosine(&[10_000, 0], &[9_000, 1_000]), 9_938);
    assert_eq!(cosine(&[10_000, 0], &[-9_000, 1_000]), -9_938);
    assert_eq!(cosine(&[1, 1], &[1, 0]), 7_071);
}

#[test]
fn cosine_of_zero_vector_is_zero() {
    assert_eq!(cosine(&[0, 0], &[1, 2]), 0);
    assert_eq!(cosine(&[1, 2], &[0, 0]), 0);
    assert_eq!(cosine(&[], &[]), 0);
}

#[test]
fn cosine_of_different_lengths_is_zero() {
    assert_eq!(cosine(&[1, 2], &[1, 2, 3]), 0);
}

#[test]
fn cosine_at_the_limits() {
    let a = vec![MAX_COMPONENT; MAX_DIM];
    let b = vec![-MAX_COMPONENT; MAX_DIM];
    assert_eq!(cosine(&a, &a), SCORE_ONE);
    assert_eq!(cosine(&a, &b), -SCORE_ONE);
}

#[test]
fn components_are_ten_thousandths() {
    assert_eq!(component("0.9"), Some(9_000));
    assert_eq!(component("1"), Some(10_000));
    assert_eq!(component("0"), Some(0));
    assert_eq!(component("-1.25"), Some(-12_500));
    assert_eq!(component("+3"), Some(30_000));
    assert_eq!(component(".5"), Some(5_000));
    assert_eq!(component("5."), Some(50_000));
    assert_eq!(component("0.12345678"), Some(1_234));
    assert_eq!(component("-0.00009"), Some(0));
    assert_eq!(component("007.5"), Some(75_000));
}

#[test]
fn components_have_a_range() {
    assert_eq!(component("50"), Some(500_000));
    assert_eq!(component("-50.0000"), Some(-500_000));
    assert_eq!(component("50.0001"), None);
    assert_eq!(component("51"), None);
    assert_eq!(component("99999999999999999999999999"), None);
}

#[test]
fn malformed_components_are_refused() {
    assert_eq!(component(""), None);
    assert_eq!(component("-"), None);
    assert_eq!(component("+"), None);
    assert_eq!(component("."), None);
    assert_eq!(component("abc"), None);
    assert_eq!(component("1.2.3"), None);
    assert_eq!(component("1e"), None);
    assert_eq!(component("e5"), None);
    assert_eq!(component("1e-"), None);
    assert_eq!(component("1e+"), None);
    assert_eq!(component("1e1.5"), None);
    assert_eq!(component("1ee1"), None);
    assert_eq!(component("1e 1"), None);
    assert_eq!(component(".e1"), None);
    assert_eq!(component("1e1x"), None);
    assert_eq!(component("inf"), None);
    assert_eq!(component("--1"), None);
    assert_eq!(component("1-"), None);
    assert_eq!(component("nan"), None);
}

#[test]
fn indices_are_read_as_decimal_numbers() {
    assert_eq!(index("0"), Some(0));
    assert_eq!(index("12"), Some(12));
    assert_eq!(index("+7"), Some(7));
    assert_eq!(index("007"), Some(7));
    assert_eq!(index(&usize::MAX.to_string()), Some(usize::MAX));
}

#[test]
fn malformed_indices_are_refused() {
    assert_eq!(index(""), None);
    assert_eq!(index("+"), None);
    assert_eq!(index("-1"), None);
    assert_eq!(index("1a"), None);
    assert_eq!(index("1 "), None);
    assert_eq!(index("18446744073709551616"), None);
    assert_eq!(index("99999999999999999999999"), None);
}

#[test]
fn numbers_are_written_in_decimal() {
    assert_eq!(decimal(0), chars("0"));
    assert_eq!(decimal(7), chars("7"));
    assert_eq!(decimal(10), chars("10"));
    assert_eq!(decimal(1234567890), chars("1234567890"));
    assert_eq!(decimal(usize::MAX), chars(&usize::MAX.to_string()));
}

#[test]
fn written_numbers_are_read_back() {
    for n in [0usize, 1, 9, 10, 99, 100, 65535, usize::MAX] {
        assert_eq!(parse_index(&decimal(n)), Some(n));
    }
}

#[test]
fn digits_are_recognised() {
    assert!(is_digit_char('0'));
    assert!(is_digit_char('9'));
    assert!(!is_digit_char('a'));
    assert!(!is_digit_char('/'));
    assert!(!is_digit_char(':'));
}

#[test]
fn components_may_have_an_exponent() {
    assert_eq!(component("1e0"), Some(10_000));
    assert_eq!(component("1E0"), Some(10_000));
    assert_eq!(component("1e-3"), Some(10));
    assert_eq!(component("1e-4"), Some(1));
    assert_eq!(component("1e-5"), Some(0));
    assert_eq!(component("1.5e1"), Some(150_000));
    assert_eq!(component("1e+1"), Some(100_000));
    assert_eq!(component("-2.5E-1"), Some(-2_500));
    assert_eq!(component("1.2345678e-2"), Some(123));
    assert_eq!(component("-7.6293945e-05"), Some(0));
    assert_eq!(component("7.6293945e-03"), Some(76));
    assert_eq!(component("12345678901234567890e-19"), Some(12_345));
    assert_eq!(component("0.000012345e5"), Some(12_345));
    assert_eq!(component(".5e1"), Some(50_000));
    assert_eq!(component("5.e-1"), Some(5_000));
    assert_eq!(component("00012e-0002"), Some(1_200));
}

#[test]
fn components_with_an_exponent_have_a_range() {
    assert_eq!(component("5e1"), Some(500_000));
    assert_eq!(component("5.00001e1"), None);
    assert_eq!(component("5.00009e1"), None);
    assert_eq!(component("0.5e2"), Some(500_000));
    assert_eq!(component("1e2"), None);
    assert_eq!(component("1e5"), None);
    assert_eq!(component("-1e99999999999999999999999999999999999999999"), None);
    assert_eq!(component("0e99999999999999999999999999999999999999999"), Some(0));
    assert_eq!(component("0.000e99999999999999999999999999999999999999"), Some(0));
    assert_eq!(component("1e-99999999999999999999999999999999999999999"), Some(0));
    assert_eq!(component("9999999999e-99999999999999999999999999999999"), Some(0));
    assert_eq!(component("0.000000000000000000000000000001e31"), Some(100_000));
}

#[test]
fn components_agree_with_floating_point_reading() {
    let tokens = [
        "0.418", "-0.24968", "1.2e-3", "3.5E-1", "0.0001", "9.99999", "-12.5", "4e1", "0.00009",
        "2.50001", "-3.14159e0", "6.02e-2",
    ];
    for t in tokens {
        let exact: f64 = t.parse().unwrap();
        let expected = (exact * 10_000.0 + if exact < 0.0 { -1e-7 } else { 1e-7 }).trunc() as i32;
        assert_eq!(component(t), Some(expected), "{}", t);
    }
}
