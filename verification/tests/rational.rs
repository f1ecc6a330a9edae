use engineering_repr::EngineeringQuantity as EQ;
use engineering_repr::Error;

#[test]
fn to_ratio() {
    for (sig, exp, num, denom) in &[
        (1i64, 0i8, 1i64, 1i64),
        (1, 1, 1000, 1),
        (27, 2, 27_000_000, 1),
        (1, -1, 1, 1000),
        (4, -3, 4, 1_000_000_000),
        (12_345, -1, 12_345, 1000),
        (9, 6, 9_000_000_000_000_000_000, 1),
        (-9, -6, -9, 1_000_000_000_000_000_000),
    ] {
        let eq = EQ::from_raw(*sig, *exp).unwrap();
        let ratio = eq.to_ratio().unwrap();
        assert_eq!(ratio, (*num, *denom));
    }
}

#[test]
fn from_ratio() {
    for (num, denom, sig, exp) in &[
        (1i64, 1i64, 1i64, 0i8),
        (1000, 1, 1, 1),
        (27_000_000, 1, 27, 2),
        (1, 1000, 1, -1),
        (4, 1_000_000_000, 4, -3),
        (12_345, 1000, 12_345, -1),
        (9_000_000_000_000_000_000, 1, 9, 6),
        (-9, 1_000_000_000_000_000_000, -9, -6),
    ] {
        let eq: EQ<i64> = EQ::from_ratio(*num, *denom).unwrap();
        let expected = EQ::from_raw(*sig, *exp).unwrap();
        assert_eq!(eq, expected, "inputs: {num:?}, {denom:?}",);
    }
}

#[test]
fn from_ratio_errors() {
    let result = EQ::<i64>::from_ratio(1, 333).unwrap_err();
    assert_eq!(result, Error::ImpreciseConversion);
}

#[test]
fn ratio_round_trip() {
    // a rational with a power-of-1000 denominator survives the round trip
    for (num, denom) in &[(1i64, 1i64), (12_345, 1000), (-7, 1_000_000), (999, 1_000_000_000)] {
        let eq: EQ<i64> = EQ::from_ratio(*num, *denom).unwrap();
        let (num2, den2) = eq.to_ratio().unwrap();
        // equal as rationals: num/denom == num2/den2
        assert_eq!(num * den2, num2 * denom, "inputs {num}/{denom}");
    }
}

#[test]
fn from_ratio_scaling() {
    // denominators that divide 1000 scale the numerator up
    let eq: EQ<i64> = EQ::from_ratio(3, 4).unwrap();
    assert_eq!(eq.to_raw(), (750, -1));
    let eq: EQ<i64> = EQ::from_ratio(1, 2000).unwrap();
    assert_eq!(eq.to_raw(), (500, -2));
    // a numerator that cannot be scaled without overflow is rejected
    let r = EQ::<i64>::from_ratio(i64::MAX, 4);
    assert_eq!(r, Err(Error::Overflow));
}
