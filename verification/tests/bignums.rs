use icfp_spica::bignum::BigNum;

#[test]
fn decimal_reads_and_writes() {
    assert_eq!(BigNum::from_decimal("123").unwrap().to_decimal(), "123");
    assert_eq!(BigNum::from_decimal("-0042").unwrap().to_decimal(), "-42");
    assert_eq!(BigNum::from_decimal("+5").unwrap().to_decimal(), "5");
    assert_eq!(BigNum::from_decimal("1_000").unwrap().to_decimal(), "1000");
    assert_eq!(BigNum::from_decimal("-0").unwrap().to_decimal(), "0");
    assert_eq!(
        BigNum::from_decimal("123456789012345678901234567890").unwrap().to_decimal(),
        "123456789012345678901234567890"
    );
}

#[test]
fn decimal_refuses_malformed() {
    assert!(BigNum::from_decimal("").is_none());
    assert!(BigNum::from_decimal("-").is_none());
    assert!(BigNum::from_decimal("_5").is_none());
    assert!(BigNum::from_decimal("-+5").is_none());
    assert!(BigNum::from_decimal("++5").is_none());
    assert!(BigNum::from_decimal("12a").is_none());
}

#[test]
fn decimal_of_value() {
    let n = BigNum { negative: true, magnitude: vec![0, 1] };
    assert_eq!(n.to_decimal(), "-4294967296");
    let z = BigNum { negative: false, magnitude: vec![] };
    assert_eq!(z.to_decimal(), "0");
}
