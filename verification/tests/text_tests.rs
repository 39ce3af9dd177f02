use codemap_rs::text::{chars_of, push_decimal, push_right_aligned};

fn decimal(n: u64) -> String {
    let mut out = String::new();
    push_decimal(&mut out, n);
    out
}

fn aligned(text: &str, width: usize) -> String {
    let mut out = String::new();
    push_right_aligned(&mut out, text, width);
    out
}

#[test]
fn decimal_of_small_numbers() {
    assert_eq!(decimal(0), "0");
    assert_eq!(decimal(7), "7");
    assert_eq!(decimal(9), "9");
    assert_eq!(decimal(10), "10");
    assert_eq!(decimal(42), "42");
    assert_eq!(decimal(100), "100");
}

#[test]
fn decimal_of_the_size_limit() {
    assert_eq!(decimal(102_400), "102400");
    assert_eq!(decimal(102_401), "102401");
}

#[test]
fn decimal_of_the_largest_number() {
    assert_eq!(decimal(u64::MAX), "18446744073709551615");
    assert_eq!(decimal(1_000_000_007), "1000000007");
}

#[test]
fn decimal_agrees_with_the_standard_library() {
    let mut n: u64 = 1;
    for _ in 0..64 {
        assert_eq!(decimal(n), n.to_string());
        assert_eq!(decimal(n - 1), (n - 1).to_string());
        n = n.wrapping_mul(2);
    }
}

#[test]
fn decimal_is_appended() {
    let mut out = String::from("n = ");
    push_decimal(&mut out, 1234567890);
    assert_eq!(out, "n = 1234567890");
}

#[test]
fn short_text_is_moved_to_the_right() {
    assert_eq!(aligned("1", 5), "    1");
    assert_eq!(aligned("12", 5), "   12");
    assert_eq!(aligned("1234", 5), " 1234");
    assert_eq!(aligned("", 3), "   ");
}

#[test]
fn text_that_fills_the_field_is_unchanged() {
    assert_eq!(aligned("12345", 5), "12345");
    assert_eq!(aligned("1234567", 5), "1234567");
    assert_eq!(aligned("abc", 0), "abc");
}

#[test]
fn field_width_counts_characters() {
    assert_eq!(aligned("äö", 5), "   äö");
}

#[test]
fn alignment_agrees_with_the_standard_library() {
    for n in [0u64, 5, 99, 1000, 99999, 100000, 12345678] {
        assert_eq!(aligned(&n.to_string(), 5), format!("{:>5}", n));
    }
}

#[test]
fn characters_of_a_text() {
    assert_eq!(chars_of(""), Vec::<char>::new());
    assert_eq!(chars_of("a/ä"), vec!['a', '/', 'ä']);
}
