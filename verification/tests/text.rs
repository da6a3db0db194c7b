use wikilinker::text::{decimal_string, join, join_with_arrows, signed_decimal_string};

#[test]
fn decimal_of_small_and_large_numbers() {
    assert_eq!(decimal_string(0), "0");
    assert_eq!(decimal_string(9), "9");
    assert_eq!(decimal_string(10), "10");
    assert_eq!(decimal_string(1234567890), "1234567890");
    assert_eq!(decimal_string(u64::MAX), "18446744073709551615");
}

#[test]
fn decimal_agrees_with_the_standard_library() {
    let mut n: u64 = 1;
    for _ in 0..60 {
        assert_eq!(decimal_string(n), n.to_string());
        assert_eq!(decimal_string(n - 1), (n - 1).to_string());
        n = n.wrapping_mul(7).wrapping_add(3) % 1_000_000_007 + 1;
    }
}

#[test]
fn signed_decimal_writes_the_sign() {
    assert_eq!(signed_decimal_string(0), "0");
    assert_eq!(signed_decimal_string(-1), "-1");
    assert_eq!(signed_decimal_string(2024), "2024");
    assert_eq!(signed_decimal_string(i64::MAX), "9223372036854775807");
    assert_eq!(signed_decimal_string(i64::MIN), "-9223372036854775808");
}

#[test]
fn joining_puts_the_separator_between_parts() {
    let parts = vec!["a".to_string(), "".to_string(), "c d".to_string()];
    assert_eq!(join(&parts, "|"), "a||c d");
    assert_eq!(join_with_arrows(&parts), "a ->  -> c d");
    assert_eq!(join(&vec!["only".to_string()], ", "), "only");
    assert_eq!(join(&vec![], ", "), "");
    assert_eq!(join_with_arrows(&vec![]), "");
}
