use engineering_repr::EngineeringQuantity as EQ;
use engineering_repr::EngineeringRepr as _;
use engineering_repr::Error as EQErr;

#[test]
fn from_string() {
    for (i, s) in &[
        (1i128, "1"),
        (42, "42"),
        (999, "999"),
        (1000, "1k"),
        (1500, "1.5k"),
        (2345, "2.345k"),
        (9999, "9.999k"),
        (12_345, "12.345k"),
        (13_000, "13k"),
        (13_000, "13.k"),
        (13_000, "13.0k"),
        (999_999, "999.999k"),
        (1_000_000, "1.00M"),
        (2_345_678, "2.345678M"),
        (999_999_999, "999.999999M"),
        (12_345_000_000_000_000_000_000_000_000, "12.345R"),
        (12_345_000_000_000_000_000_000_000_000_000, "12.345Q"),
        (1000, "1k0"),
        (1500, "1k5"),
        (2345, "2k345"),
        (9999, "9k999"),
        (12_345, "12k345"),
        (13_000, "13k0"),
        (999_999, "999k999"),
        (1_000_000, "1M0"),
        (2_345_678, "2M345678"),
        (999_999_999, "999M999999"),
        (1_000_000_000, "1G0"),
        (1_000_000_000_000, "1T0"),
        (1_000_000_000_000_000, "1P0"),
        (1_000_000_000_000_000_000, "1E0"),
        (1_000_000_000_000_000_000_000, "1Z0"),
        (1_000_000_000_000_000_000_000_000, "1Y0"),
        (12_345_000_000_000_000_000_000_000_000, "12R345"),
        (12_345_000_000_000_000_000_000_000_000_000, "12Q345"),
    ] {
        let eq = EQ::<i128>::from_str(s).unwrap();
        let result = i128::from(eq);
        assert_eq!(result, *i, "input {s} expected {i}");
        let mut str2 = String::with_capacity(1 + s.len());
        str2.push('-');
        str2.push_str(s);
        let ee2 = EQ::<i128>::from_str(&str2).unwrap();
        assert_eq!(i128::from(ee2), -*i);
    }
}

#[test]
fn parse_failures() {
    for s in &["foo", "1.2.3k", "--1"] {
        let _ = EQ::<i128>::from_str(s).expect_err(&format!("this should have failed: {s}"));
    }
}

#[test]
fn to_string() {
    for (i, s) in &[
        (1i128, "1"),
        (42, "42"),
        (999, "999"),
        (1000, "1k"),
        (1500, "1.5k"),
        (2345, "2.34k"),
        (9999, "9.99k"),
        (12_345, "12.3k"),
        (13_000, "13k"),
        (999_999, "999k"),
        (1_000_000, "1M"),
        (2_345_678, "2.34M"),
        (999_999_999, "999M"),
        (12_345_000_000_000_000_000_000_000_000, "12.3R"),
        (12_345_000_000_000_000_000_000_000_000_000, "12.3Q"),
    ] {
        let ee = EQ::<i128>::from(*i);
        assert_eq!(ee.to_string(), *s);
        let ee2 = EQ::<i128>::from(-*i);
        let ss2 = ee2.to_string();
        assert_eq!(ss2.chars().next().unwrap(), '-');
        assert_eq!(&ss2[1..], *s);
    }
}

#[test]
fn to_string_small() {
    for (i, e, s) in &[
        (1, -1, "1m"),
        (999, -1, "999m"),
        (1, -2, "1μ"),
        (1001, -2, "1m"),
        (1001, -1, "1"),
        (1_000_001, -2, "1"),
        (1_111, -1, "1.11"),
        (1010, -3, "1.01μ"),
        (1010, -4, "1.01n"),
        (1010, -5, "1.01p"),
        (1010, -6, "1.01f"),
        (1010, -7, "1.01a"),
        (1010, -8, "1.01z"),
        (1010, -9, "1.01y"),
        (1010, -10, "1.01r"),
        (1010, -11, "1.01q"),
    ] {
        let ee = EQ::<i128>::from_raw(*i, *e).unwrap();
        assert_eq!(ee.to_string(), *s, "inputs {i}, {e}");
        let ee2 = EQ::<i128>::from_raw(-*i, *e).unwrap();
        let mut expected = (*s).to_string();
        expected.insert(0, '-');
        assert_eq!(ee2.to_string(), expected, "inputs -{i}, {e}");
    }
    for (i, e, s) in &[
        (1, -1, "1m"),
        (999, -1, "999m"),
        (1, -2, "1μ"),
        (1001, -2, "1m001"),
        (1001, -1, "1.001"),
        (1_000_001, -2, "1"),
    ] {
        let ee = EQ::<i128>::from_raw(*i, *e).unwrap();
        assert_eq!(ee.rkm_with_precision(4).to_string(), *s, "inputs {i}, {e}");
    }
}

#[test]
fn from_string_small() {
    for (i, e, s) in &[
        (1, -1, "1m"),
        (999, -1, "999m"),
        (1, -2, "1μ"),
        (1001, -2, "1.001m"),
        (1001, -1, "1.001"),
        (1, 0, "1"),
        (1_000_001, -2, "1.000001"),
        (1_111, -1, "1.111"),
        (1010, -3, "1.01μ"),
        (1010, -4, "1.01n"),
        (1010, -5, "1.01p"),
        (1010, -6, "1.01f"),
        (1010, -7, "1.01a"),
        (1010, -8, "1.01z"),
        (1010, -9, "1.01y"),
        (1010, -10, "1.01r"),
        (1010, -11, "1.01q"),
    ] {
        let ee3 = EQ::<i128>::from_str(s).unwrap();
        let expected_raw = (*i, *e);
        assert_eq!(ee3.to_raw(), expected_raw);
    }
    for (i, e, s) in &[
        (1, -1, "1m"),
        (999, -1, "999m"),
        (1, -2, "1μ"),
        (1001, -2, "1m001"),
        (1001, -1, "1.001"),
        (1_000_001, -2, "1.000001"),
    ] {
        let ee2 = EQ::<i64>::from_str(s).unwrap();
        let expected_raw = (*i, *e);
        assert_eq!(ee2.to_raw(), expected_raw);
    }
}

#[test]
fn to_string_rkm() {
    for (i, s) in &[
        (1i128, "1"),
        (42, "42"),
        (999, "999"),
        (1000, "1k"),
        (1500, "1k5"),
        (2345, "2k3"),
        (9999, "9k9"),
        (12_345, "12k"),
        (13_000, "13k"),
        (999_999, "999k"),
        (1_000_000, "1M"),
        (2_345_678, "2M3"),
        (999_999_999, "999M"),
        (12_345_000_000_000_000_000_000_000_000, "12R"),
        (12_345_000_000_000_000_000_000_000_000_000, "12Q"),
    ] {
        let ee = EQ::<i128>::from(*i);
        assert_eq!(ee.rkm_with_precision(2).to_string(), *s);
        let ee2 = EQ::<i128>::from(-*i);
        let ss2 = ee2.rkm_with_precision(2).to_string();
        assert_eq!(ss2.chars().next().unwrap(), '-');
        assert_eq!(&ss2[1..], *s);
    }
}

#[test]
fn traits() {
    assert_eq!("123k", 123_456.to_eng(3).to_string());
    assert_eq!("123.4k", 123_456.to_eng(4).to_string());
    assert_eq!("123k4", 123_456.to_rkm(4).to_string());
}

#[test]
fn raw_to_string() {
    for (sig, exp, str) in &[(1, 0i8, "1"), (1, 1, "1k"), (1000, 0, "1k"), (1000, 1, "1M")] {
        let e = EQ::<i128>::from_raw(*sig, *exp).unwrap();
        assert_eq!(e.to_string(), *str, "test case: {sig},{exp} -> {str}");
    }
}

#[test]
fn string_overflow() {
    let e = EQ::from_raw(1u16, 0).unwrap();
    let e2 = EQ::from_raw(1u16, 1).unwrap();
    assert_ne!(e, e2);
    println!("{:?} -> {}", e, e.to_string());
    println!("{:?} -> {}", e2, e2.to_string());
    let _ = e.to_string();
}

#[test]
fn auto_precision() {
    for (i, s) in &[
        (1i128, "1"),
        (42, "42"),
        (100, "100"),
        (999, "999"),
        (1000, "1k"),
        (1500, "1.5k"),
        (2345, "2.345k"),
        (9999, "9.999k"),
        (12_345, "12.345k"),
        (13_000, "13k"),
        (999_999, "999.999k"),
        (1_000_000, "1M"),
        (2_345_678, "2.345678M"),
        (999_999_999, "999.999999M"),
        (12_345_600_000_000_000_000_000_000_000, "12.3456R"),
        (12_345_600_000_000_000_000_000_000_000_000, "12.3456Q"),
    ] {
        let ee = EQ::<i128>::from(*i);
        assert_eq!(ee.with_precision(0).to_string(), *s, "input={}", *i);
        let ee2 = EQ::<i128>::from(-*i);
        let ss2 = ee2.with_precision(0).to_string();
        assert_eq!(ss2.chars().next().unwrap(), '-');
        assert_eq!(&ss2[1..], *s, "input={}", -*i);
    }
}

#[test]
fn strict_precision() {
    let ee = EQ::<i64>::from_raw(1234, -3).unwrap();
    assert_eq!(ee.with_strict_precision(6).to_string(), "1.23400μ");
}

#[test]
fn round_trip_auto() {
    // parse(format(v)) recovers the value at automatic precision, in both
    // standard and RKM modes
    for i in &[1i64, 7, 999, 1000, 1500, 12_345, 999_999, 1_000_001, -42, -1_234_567] {
        let q = EQ::<i64>::from_raw(*i, 0).unwrap();
        let standard = q.with_precision(0).to_string();
        let rkm = q.rkm_with_precision(0).to_string();
        assert_eq!(EQ::<i64>::from_str(&standard).unwrap(), q, "standard {standard}");
        assert_eq!(EQ::<i64>::from_str(&rkm).unwrap(), q, "rkm {rkm}");
    }
    for (sig, exp) in &[(1i64, -1i8), (1001, -2), (123, 2), (5, -5)] {
        let q = EQ::<i64>::from_raw(*sig, *exp).unwrap();
        let standard = q.with_precision(0).to_string();
        let rkm = q.rkm_with_precision(0).to_string();
        assert_eq!(EQ::<i64>::from_str(&standard).unwrap(), q, "standard {standard}");
        assert_eq!(EQ::<i64>::from_str(&rkm).unwrap(), q, "rkm {rkm}");
    }
}

#[test]
fn sign_preservation() {
    // the rendering of -q is "-" followed by the rendering of q
    for i in &[1i64, 999, 1500, 12_345, 1_000_000] {
        let pos = EQ::<i64>::from_raw(*i, 0).unwrap();
        let neg = EQ::<i64>::from_raw(-*i, 0).unwrap();
        for (p, r) in &[(0usize, false), (3, false), (0, true), (2, true)] {
            let sp = if *r {
                pos.rkm_with_precision(*p).to_string()
            } else {
                pos.with_precision(*p).to_string()
            };
            let sn = if *r {
                neg.rkm_with_precision(*p).to_string()
            } else {
                neg.with_precision(*p).to_string()
            };
            assert_eq!(sn, format!("-{sp}"));
        }
    }
}

#[test]
fn unsigned_rejects_sign() {
    assert_eq!(EQ::<u32>::from_str("-1"), Err(EQErr::ParseError));
    assert_eq!(EQ::<u32>::from_str(""), Err(EQErr::ParseError));
    assert_eq!(EQ::<u32>::from_str("k"), Err(EQErr::ParseError));
    // exponents out of range surface as construction failures
    assert_eq!(EQ::<i64>::from_str("1z"), Err(EQErr::Underflow));
    assert_eq!(EQ::<u32>::from_str("1T"), Err(EQErr::Overflow));
}
