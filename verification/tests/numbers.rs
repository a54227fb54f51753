use omawind::number::Real;

fn num(x: f64) -> Real {
    Real::new(x.to_bits()).unwrap()
}

fn value(x: &Real) -> f64 {
    f64::from_bits(x.bits())
}

#[test]
fn only_finite_numbers_are_numbers() {
    assert!(Real::new(f64::NAN.to_bits()).is_none());
    assert!(Real::new(f64::INFINITY.to_bits()).is_none());
    assert!(Real::new(f64::NEG_INFINITY.to_bits()).is_none());
    assert_eq!(value(&num(37.8663)), 37.8663);
}

#[test]
fn numbers_compare_as_floats_do() {
    let all = [
        -1.0e300, -180.0, -90.5, -1.0, -1.0e-300, -5.0e-324, -0.0, 0.0, 5.0e-324, 1.0e-300, 0.1, 1.0, 8.0, 90.0,
        360.0, 1.0e300,
    ];
    for a in all {
        for b in all {
            assert_eq!(num(a).less(&num(b)), a < b, "{a} {b}");
            assert_eq!(num(a).equals(&num(b)), a == b, "{a} {b}");
        }
    }
    assert!(num(1.0).within(&num(1.0), &num(2.0)));
    assert!(!num(2.5).within(&num(1.0), &num(2.0)));
    assert!(!num(0.5).within(&num(1.0), &num(2.0)));
}

#[test]
fn whole_numbers_are_exact() {
    for n in [0, 1, -1, 90, -180, 360, 65_535, i32::MAX, i32::MIN] {
        assert_eq!(value(&Real::whole(n)), f64::from(n));
    }
    assert_eq!(Real::zero().bits(), 0);
}

#[test]
fn a_span_is_measured_as_floats_measure_it() {
    let cases = [
        (36.8, 38.8),
        (30.0, 38.0),
        (30.0, 38.000_000_000_000_01),
        (-4.0, 4.0),
        (-1.0e-20, 8.0),
        (1.0e-20, 8.0),
        (-8.0, 1.0e-300),
        (0.0, 8.000_000_000_000_002),
        (1.0e22, 2.0e22),
        (-1.0e300, 1.0e300),
        (7.3e19, 7.300_000_000_000_01e19),
        (5.0e-324, 1.0e-323),
        (-3.3, 4.700_000_000_000_000_3),
    ];
    for (low, high) in cases {
        for n in [8u32, 10] {
            assert_eq!(
                num(low).spans_more_than(&num(high), n),
                high - low > f64::from(n),
                "{low} {high} {n}"
            );
        }
    }
}

#[test]
fn rounding_is_to_the_nearest_halves_away_from_zero() {
    for x in [
        0.0, -0.0, 0.4, 0.5, 0.6, 1.5, 2.5, -0.5, -1.5, -2.4, 359.5, 285.78, 4.5e15, 1.0e18, 9.3e18, -9.3e18, 1.0e30,
        -1.0e30, 5.0e-324, 0.499_999_999_999_999_94,
    ] {
        assert_eq!(num(x).rounded(), x.round() as i64, "{x}");
    }
}

#[test]
fn text_is_read_as_a_finite_number() {
    for s in ["37.8663", "-122", "1e3", ".5", "5.", "+7", "-0"] {
        let x = Real::parse(s).unwrap();
        assert_eq!(x.bits(), s.parse::<f64>().unwrap().to_bits(), "{s}");
    }
    for s in ["", "MM", "north", "nan", "inf", "-infinity", "1e999", "1 2", "0x10"] {
        assert!(Real::parse(s).is_none(), "{s}");
    }
}
