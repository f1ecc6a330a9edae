use engineering_repr::EngineeringQuantity as EQ;
use engineering_repr::Error as EQErr;

#[test]
fn integers() {
    for i in &[1i64, -1, 100, -100, 1000, 4000, -4000, 4_000_000] {
        let ee = EQ::from_raw(*i, 0).unwrap();
        assert_eq!(i64::from(ee), *i);
        let ee2 = EQ::from_raw(*i, 1).unwrap();
        assert_eq!(i64::from(ee2), *i * 1000, "input is {}", *i);
    }
}

#[test]
fn equality() {
    for (a, b, c, d) in &[
        (1i64, 0, 1i64, 0),
        (1, 1, 1000, 0),
        (2000, 0, 2, 1),
        (123_000_000, 0, 123_000, 1),
        (123_000_000, 0, 123, 2),
        (456_000_000_000_000, 0, 456_000, 3),
        (456_000_000_000_000, 0, 456, 4),
    ] {
        let e1 = EQ::from_raw(*a, *b).unwrap();
        let e2 = EQ::from_raw(*c, *d).unwrap();
        assert_eq!(e1, e2);
    }
}

#[test]
fn comparison() {
    for (a, b, c, d) in &[
        (1, 0i8, 2, 0i8),
        (1, 1, 2, 1),
        (1001, -1, 1002, -1),
        (4, -1, 4, -2),
        (400, -1, 400, -2),
    ] {
        let e1 = EQ::<i64>::from_raw(*a, *b).unwrap();
        let e2 = EQ::<i64>::from_raw(*c, *d).unwrap();
        assert_ne!(e1, e2);
    }
    let a1 = EQ::<i64>::from_raw(1, 2).unwrap();
    let a2 = EQ::<i64>::from_raw(2, 2).unwrap();
    assert!(matches!(a2.cmp(&a1), core::cmp::Ordering::Greater));
    assert!(matches!(a1.cmp(&a2), core::cmp::Ordering::Less));
}

#[test]
fn conversion() {
    let t = EQ::<u32>::from_raw(12345, 0).unwrap();
    let u = t.convert::<u64>();
    assert_eq!(u.to_raw().0, <u32 as Into<u64>>::into(t.to_raw().0));
    assert_eq!(t.to_raw().1, u.to_raw().1);
}

#[test]
fn to_primitive_underflow() {
    let _ = EQ::from_raw(1i64, -10).expect_err("underflow");
}

#[test]
fn lib_overflow() {
    // When the number is too big to fit into the destination type, the conversion fails.
    let t = EQ::<u32>::from_raw(100_000, 0).unwrap();
    let _ = t.try_convert::<u16>().expect_err("TryFromIntError");

    // 10^15 is too big for a u32, so overflow:
    assert_eq!(EQ::<u32>::from_raw(1, 5), Err(EQErr::Overflow));

    // The significand and exponent may both fit on their own, but overflow when combined:
    assert_eq!(EQ::<u64>::from_raw(100_000, 5), Err(EQErr::Overflow));
}

#[test]
fn normalise() {
    let q = EQ::from_raw(1_000_000, 0).unwrap();
    let q2 = q.normalise();
    assert_eq!(q, q2);
    assert_eq!(q2.to_raw(), (1, 2));
}

#[test]
fn to_primitive() {
    let e = EQ::<i128>::from_raw(1234, 0).unwrap();
    assert_eq!(e.to_i64(), Some(1234));
    assert_eq!(e.to_i128(), Some(1234));
    assert_eq!(e.to_u64(), Some(1234));
    assert_eq!(e.to_u128(), Some(1234));

    // negatives cannot fit into an unsigned
    let e = EQ::<i128>::from_raw(-1, 0).unwrap();
    assert_eq!(e.to_u64(), None);
    assert_eq!(e.to_u128(), None);

    // positives which would overflow
    let e = EQ::<u128>::from_raw(u128::MAX, 0).unwrap();
    assert_eq!(e.to_i64(), None);
    assert_eq!(e.to_i128(), None);

    // rounding toward zero
    let e = EQ::<i64>::from_raw(1, -1).unwrap();
    assert_eq!(e.to_i64(), Some(0));
    let e = EQ::<i64>::from_raw(1001, -1).unwrap();
    assert_eq!(e.to_i64(), Some(1));
    let e = EQ::<i64>::from_raw(-1, -1).unwrap();
    assert_eq!(e.to_i64(), Some(0));
    let e = EQ::<i64>::from_raw(-1001, -1).unwrap();
    assert_eq!(e.to_i64(), Some(-1));
}

#[test]
fn promotion() {
    let e = EQ::<u64>::from(65_537u64);
    assert_eq!(e.to_raw(), (65_537, 0));
    assert_eq!(e.to_u128(), Some(65_537));
    assert_eq!(e.to_u64(), Some(65_537));
    assert_eq!(e.to_i128(), Some(65_537));
    assert_eq!(e.to_i64(), Some(65_537));
}

#[test]
fn storage_conversion_round() {
    // converting the storage type preserves the raw components exactly
    let q = EQ::<i16>::from_raw(-12, 1).unwrap();
    let w = q.convert::<i128>();
    assert_eq!(w.to_raw(), (-12i128, 1));
    let back = w.try_convert::<i16>().unwrap();
    assert_eq!(back.to_raw(), (-12i16, 1));
    // and fails exactly when the significand does not fit
    let big = EQ::<i128>::from_raw(40_000, 0).unwrap();
    assert_eq!(big.try_convert::<i16>(), Err(EQErr::Overflow));
}

#[test]
fn normalise_twice() {
    // normalisation is idempotent and keeps the value
    for (sig, exp, nsig, nexp) in &[
        (1_000_000i64, 0i8, 1i64, 2i8),
        (123_000, -1, 123, 0),
        (5, 2, 5, 2),
        (0, 0, 0, 0),
    ] {
        let q = EQ::from_raw(*sig, *exp).unwrap();
        let n1 = q.normalise();
        let n2 = n1.normalise();
        assert_eq!(n1.to_raw(), (*nsig, *nexp));
        assert_eq!(n2.to_raw(), (*nsig, *nexp));
        assert_eq!(q, n1);
    }
}

#[test]
fn comparison_total() {
    // exactly one of less, equal, greater holds for each pair
    let values = [
        EQ::<i64>::from_raw(-5, 1).unwrap(),
        EQ::<i64>::from_raw(0, 0).unwrap(),
        EQ::<i64>::from_raw(999, 0).unwrap(),
        EQ::<i64>::from_raw(1, 1).unwrap(),
        EQ::<i64>::from_raw(1001, 0).unwrap(),
    ];
    for (i, a) in values.iter().enumerate() {
        for (j, b) in values.iter().enumerate() {
            let ord = a.cmp(b);
            match i.cmp(&j) {
                core::cmp::Ordering::Less => assert!(matches!(ord, core::cmp::Ordering::Less)),
                core::cmp::Ordering::Equal => assert!(matches!(ord, core::cmp::Ordering::Equal)),
                core::cmp::Ordering::Greater => {
                    assert!(matches!(ord, core::cmp::Ordering::Greater))
                }
            }
        }
    }
}

#[test]
fn negative_exponent_construction() {
    // a negative exponent requires only its scaling factor to fit the type
    let q = EQ::<i64>::from_raw(i64::MAX, -1).unwrap();
    assert_eq!(q.to_raw(), (i64::MAX, -1));
    assert_eq!(q.to_i64(), Some(i64::MAX / 1000));
    // tiny fractions truncate to zero whatever the target width
    let q = EQ::<i128>::from_raw(1, -8).unwrap();
    assert_eq!(q.to_i64(), Some(0));
    assert_eq!(q.to_u64(), Some(0));
}

#[test]
fn boundary_construction() {
    // an exponent whose scaling factor exceeds 64-bit storage underflows
    assert_eq!(EQ::<i64>::from_raw(1, -11), Err(EQErr::Underflow));
    // the same magnitude in the positive direction overflows
    assert_eq!(EQ::<i64>::from_raw(1, 11), Err(EQErr::Overflow));
    // the largest valid values construct
    assert!(EQ::<u128>::from_raw(u128::MAX, 0).is_ok());
    assert!(EQ::<i128>::from_raw(i128::MIN, 0).is_ok());
}
