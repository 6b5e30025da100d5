use beginner_tools::binary::{bin_to_dec, is_binary_text};

#[test]
fn converts_small_numbers() {
    assert_eq!(bin_to_dec("1010"), 10);
    assert_eq!(bin_to_dec("1"), 1);
    assert_eq!(bin_to_dec("0"), 0);
    assert_eq!(bin_to_dec("11111111"), 255);
}

#[test]
fn empty_string_is_zero() {
    assert_eq!(bin_to_dec(""), 0);
}

#[test]
fn leading_zeros_do_not_change_the_value() {
    assert_eq!(bin_to_dec("000101"), 5);
    assert_eq!(bin_to_dec("101"), 5);
}

#[test]
fn largest_accepted_length() {
    let ones = "1".repeat(31);
    assert_eq!(bin_to_dec(&ones), i32::MAX);
    let high = format!("1{}", "0".repeat(30));
    assert_eq!(bin_to_dec(&high), 1 << 30);
}

#[test]
fn decoding_then_encoding_drops_leading_zeros() {
    for s in ["0", "1", "0010", "110", "000111000", "1000000000000000000000000000000"] {
        let v = bin_to_dec(s);
        let back = format!("{:b}", v);
        let stripped = s.trim_start_matches('0');
        let expected = if stripped.is_empty() { "0" } else { stripped };
        assert_eq!(back, expected);
    }
}

#[test]
fn recognises_binary_text() {
    assert!(is_binary_text("0101"));
    assert!(is_binary_text(""));
    assert!(!is_binary_text("0121"));
    assert!(!is_binary_text("10 1"));
    assert!(!is_binary_text("abc"));
}
