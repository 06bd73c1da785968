use daily_challenges::decimal::push_decimal;

#[test]
fn decimal_digits() {
    let mut out = b"x=".to_vec();
    push_decimal(&mut out, 0);
    assert_eq!(out, b"x=0".to_vec());
    let mut out = Vec::new();
    push_decimal(&mut out, 1234567890);
    assert_eq!(out, b"1234567890".to_vec());
    let mut out = Vec::new();
    push_decimal(&mut out, u64::MAX);
    assert_eq!(out, b"18446744073709551615".to_vec());
}
