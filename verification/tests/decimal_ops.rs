use matchengine::decimal::Decimal;

fn d(m: i128) -> Decimal {
    Decimal { mantissa: m }
}

#[test]
fn round_half_away_from_zero() {
    // 1.25 rounded to one decimal place is 1.3 (ties away from zero).
    assert_eq!(d(1_250_000_000).round_dp(1).mantissa, 1_300_000_000);
    // -1.25 rounds to -1.3.
    assert_eq!(d(-1_250_000_000).round_dp(1).mantissa, -1_300_000_000);
    // 1.24 rounds down to 1.2.
    assert_eq!(d(1_240_000_000).round_dp(1).mantissa, 1_200_000_000);
    // Full precision is the identity.
    assert_eq!(d(123_456_789).round_dp(9).mantissa, 123_456_789);
}

#[test]
fn truncation_towards_zero() {
    assert_eq!(d(1_290_000_000).trunc_dp(1).mantissa, 1_200_000_000);
    assert_eq!(d(-1_290_000_000).trunc_dp(1).mantissa, -1_200_000_000);
}

#[test]
fn multiplication_is_exact_for_in_precision_factors() {
    // 0.5 * 110 at six decimal places: exactly 55.
    let a = d(500_000_000);
    let b = d(110_000_000_000);
    assert_eq!(a.mul_trunc_dp(&b, 6).mantissa, 55_000_000_000);
    // 0.7272 * 110 = 79.992 exactly.
    let a = d(727_200_000);
    assert_eq!(a.mul_trunc_dp(&b, 6).mantissa, 79_992_000_000);
}

#[test]
fn division_truncates_at_the_requested_precision() {
    // 80 / 110 at four decimal places: 0.7272.
    let a = d(80_000_000_000);
    let b = d(110_000_000_000);
    let q = a.div_trunc_dp_sat(&b, 4).unwrap();
    assert_eq!(q.mantissa, 727_200_000);
    // Division by zero is refused.
    assert!(a.div_trunc_dp_sat(&d(0), 4).is_none());
}

#[test]
fn checked_addition_reports_overflow() {
    let max = d(10_000_000_000_000_000_000_000_000_000);
    assert!(max.checked_add(&d(1)).is_none());
    assert_eq!(d(5).checked_add(&d(7)).unwrap().mantissa, 12);
    assert_eq!(d(5).checked_sub(&d(7)).unwrap().mantissa, -2);
}

#[test]
fn precision_membership() {
    assert!(d(1_500_000_000).has_prec(1));
    assert!(!d(1_500_000_000).has_prec(0));
    assert!(d(0).has_prec(0));
}
