use normal_map::{apply_db_floor, DiscreteMap, Exponent, Frac, LinearMap, MapError, NormalMap};

fn to_f64(x: &Frac) -> f64 {
    x.num as f64 / x.den as f64
}

#[test]
fn linear_round_trip_is_exact() {
    let nm = NormalMap::linear(Frac::from_int(-50), Frac::from_int(50));
    let mut x: i64 = -49;
    while x < 50 {
        let r = nm.normalize(Frac::from_int(x));
        let red = r.reduce();
        let w = nm.denormalize(red);
        assert_eq!(w.num, x as i128 * w.den, "round trip not exact at {}", x);
        x += 1;
    }
}

#[test]
fn linear_endpoints_are_exact() {
    let nm = NormalMap::linear(Frac::from_int(-50), Frac::from_int(50));
    let at_min = nm.normalize(Frac::from_int(-50));
    assert_eq!(at_min.num, 0);
    let at_max = nm.normalize(Frac::from_int(50));
    assert_eq!(at_max.num, at_max.den);
    let w0 = nm.denormalize(Frac::new(0, 1));
    assert_eq!(w0.num, -50 * w0.den);
    let w1 = nm.denormalize(Frac::new(1, 1));
    assert_eq!(w1.num, 50 * w1.den);
}

#[test]
fn normalize_saturates_for_every_kind() {
    let maps = [
        NormalMap::linear(Frac::from_int(-50), Frac::from_int(50)),
        NormalMap::power(Frac::from_int(-50), Frac::from_int(50), Exponent::Recip(2)).unwrap(),
        NormalMap::power(Frac::from_int(-50), Frac::from_int(50), Exponent::Int(2)).unwrap(),
        NormalMap::discrete(-50, 50),
    ];
    for nm in maps.iter() {
        let below = nm.normalize(Frac::new(-701, 10));
        assert_eq!(below.num, 0, "below min must normalize to exactly zero");
        let at_min = nm.normalize(Frac::from_int(-50));
        assert_eq!(at_min.num, 0, "min must normalize to exactly zero");
        let above = nm.normalize(Frac::new(701, 10));
        assert_eq!(above.num, above.den, "beyond max must normalize to exactly one");
        let at_max = nm.normalize(Frac::from_int(50));
        assert_eq!(at_max.num, at_max.den, "max must normalize to exactly one");
    }
}

#[test]
fn arrays_truncate_to_the_shorter_buffer() {
    let nm = NormalMap::linear(Frac::from_int(0), Frac::from_int(10));
    let input = vec![
        Frac::from_int(1),
        Frac::from_int(2),
        Frac::from_int(3),
        Frac::from_int(4),
        Frac::from_int(5),
    ];
    let sentinel = Frac::new(7, 3);
    let mut output = vec![sentinel; 3];
    nm.normalize_array(&input, &mut output);
    assert_eq!(output.len(), 3, "output length must not change");
    for i in 0..3 {
        let expect = (i + 1) as i128;
        assert_eq!(output[i].num * 10, expect * output[i].den);
    }

    let normalized = vec![Frac::new(1, 10), Frac::new(2, 10), Frac::new(3, 10)];
    let mut values = vec![sentinel; 5];
    nm.denormalize_array(&normalized, &mut values);
    assert_eq!(values.len(), 5);
    for i in 0..3 {
        let expect = (i + 1) as i128;
        assert_eq!(values[i].num, expect * values[i].den);
    }
    assert_eq!(values[3], sentinel, "extra elements must stay untouched");
    assert_eq!(values[4], sentinel, "extra elements must stay untouched");
}

#[test]
fn degenerate_range_never_divides_by_zero() {
    let nm = NormalMap::linear(Frac::from_int(5), Frac::from_int(5));
    let below = nm.normalize(Frac::from_int(4));
    assert_eq!(below.num, 0);
    let at = nm.normalize(Frac::from_int(5));
    assert_eq!(at.num, 0);
    let above = nm.normalize(Frac::from_int(7));
    assert_eq!(above.num, above.den);
    let w = nm.denormalize(Frac::new(1, 2));
    assert_eq!(w.num, 5 * w.den, "degenerate denormalize must yield min");
}

#[test]
fn power_rejects_zero_exponent() {
    let a = NormalMap::power(Frac::from_int(0), Frac::from_int(1), Exponent::Int(0));
    assert_eq!(a.unwrap_err(), MapError::ZeroExponent);
    let b = NormalMap::power(Frac::from_int(0), Frac::from_int(1), Exponent::Recip(0));
    assert_eq!(b.unwrap_err(), MapError::ZeroExponent);
}

#[test]
fn power_rejects_unsupported_exponent() {
    let a = NormalMap::power(Frac::from_int(0), Frac::from_int(1), Exponent::Int(7));
    assert_eq!(a.unwrap_err(), MapError::UnsupportedExponent);
    let b = NormalMap::power(Frac::from_int(0), Frac::from_int(1), Exponent::Recip(-5));
    assert_eq!(b.unwrap_err(), MapError::UnsupportedExponent);
}

#[test]
fn power_cube_exponent_curves() {
    // exponent 3: normalize applies the cube root, denormalize cubes
    let nm = NormalMap::power(Frac::from_int(0), Frac::from_int(8), Exponent::Int(3)).unwrap();
    let r = nm.normalize(Frac::from_int(4));
    let true_root = 0.5f64.powf(1.0 / 3.0);
    assert!((to_f64(&r) - true_root).abs() <= 1e-6);
    // denormalize at 1/2: (1/2)^3 * 8 == 1, within the bracket width
    let w = nm.denormalize(Frac::new(1, 2));
    assert!((to_f64(&w) - 1.0).abs() <= 8.0 * 4.0 / 1_048_576.0);

    // exponent 1/3: normalize cubes, denormalize applies the cube root
    let nm2 = NormalMap::power(Frac::from_int(0), Frac::from_int(8), Exponent::Recip(3)).unwrap();
    let r2 = nm2.normalize(Frac::from_int(4));
    assert!((to_f64(&r2) - 0.125).abs() <= 4.0 / 1_048_576.0);
    let w2 = nm2.denormalize(Frac::new(1, 8));
    assert!((to_f64(&w2) - 4.0).abs() <= 8.0 / 1_048_576.0);
}

#[test]
fn power_higher_exponents_construct_and_clamp() {
    let mut n: i64 = 3;
    while n <= 6 {
        let a = NormalMap::power(Frac::from_int(0), Frac::from_int(10), Exponent::Int(n)).unwrap();
        let b = NormalMap::power(Frac::from_int(0), Frac::from_int(10), Exponent::Recip(n))
            .unwrap();
        for nm in [a, b].iter() {
            assert_eq!(nm.normalize(Frac::from_int(0)).num, 0);
            let one = nm.normalize(Frac::from_int(10));
            assert_eq!(one.num, one.den);
            let mid = nm.normalize(Frac::from_int(5));
            let x = to_f64(&mid);
            assert!(0.0 <= x && x <= 1.0);
        }
        n += 1;
    }
}

#[test]
fn power_square_exponent_curve() {
    let nm = NormalMap::power(Frac::from_int(0), Frac::from_int(4), Exponent::Int(2)).unwrap();
    // normalize applies the square root: sqrt(1/4) == 1/2 exactly
    let r = nm.normalize(Frac::from_int(1));
    assert_eq!(to_f64(&r), 0.5);
    // sqrt(1/2) is irrational; the result is within one fixed-point step
    let r2 = nm.normalize(Frac::from_int(2));
    let true_root = 0.5f64.sqrt();
    assert!((to_f64(&r2) - true_root).abs() <= 1e-6);
    // denormalize squares: (1/2)^2 * 4 == 1 exactly
    let w = nm.denormalize(Frac::new(1, 2));
    assert_eq!(w.num, 1 * w.den);
    // round trip through the bracketed root comes back from below
    let back = nm.denormalize(r2);
    assert!(back.num <= 2 * back.den);
    assert!((2.0 - to_f64(&back)).abs() < 1e-5);
}

#[test]
fn power_reciprocal_exponent_is_inverse_curve() {
    let nm = NormalMap::power(Frac::from_int(0), Frac::from_int(4), Exponent::Int(-1)).unwrap();
    // normalize applies t^(1/e) == 1/t: the linear image of 1 is 1/4
    let r = nm.normalize(Frac::from_int(1));
    assert_eq!(to_f64(&r), 4.0);
    // denormalize applies t^(-1): (1/2)^(-1) * 4 == 8
    let w = nm.denormalize(Frac::new(1, 2));
    assert_eq!(w.num, 8 * w.den);
}

#[test]
fn power_sqrt_round_trip_is_close_from_below() {
    let nm = NormalMap::power(Frac::from_int(-50), Frac::from_int(50), Exponent::Recip(2)).unwrap();
    let r = nm.normalize(Frac::from_int(10));
    let red = r.reduce();
    let w = nm.denormalize(red);
    // w <= 10 and 10 - w < 100 / SQRT_SCALE
    assert!(w.num <= 10 * w.den);
    assert!((10.0 - to_f64(&w)).abs() < 100.0 / 1_048_576.0);
}

#[test]
fn discrete_denormalize_rounds_ties_away_from_zero() {
    let dm = DiscreteMap::new(-5, 5);
    // 0.25 maps to -2.5, which rounds away from zero to -3
    assert_eq!(dm.denormalize(Frac::new(1, 4)), -3);
    // 0.75 maps to 2.5, which rounds away from zero to 3
    assert_eq!(dm.denormalize(Frac::new(3, 4)), 3);
}

#[test]
fn discrete_normalize_snaps_to_nearest_step() {
    let nm = NormalMap::discrete(-5, 5);
    // 0.5 rounds to step 1, whose normalized position is 0.6
    let r = nm.normalize(Frac::new(1, 2));
    assert_eq!(r.num * 10, 6 * r.den);
    // integer inputs are exact steps
    let dm = DiscreteMap::new(-5, 5);
    let r2 = dm.normalize(-3);
    assert_eq!(r2.num * 10, 2 * r2.den);
    assert_eq!(dm.denormalize(Frac::new(2, 10)), -3);
    // outside the bounds the integer entry point clamps too
    assert_eq!(dm.normalize(-6).num, 0);
    let one = dm.normalize(6);
    assert_eq!(one.num, one.den);
}

#[test]
fn reduce_keeps_the_value() {
    let red = Frac::new(75, 100).reduce();
    assert_eq!(red.num, 3);
    assert_eq!(red.den, 4);
    let neg = Frac::new(-48, 36).reduce();
    assert_eq!(neg.num, -4);
    assert_eq!(neg.den, 3);
    let zero = Frac::new(0, 7).reduce();
    assert_eq!(zero.num, 0);
    assert_eq!(zero.den, 1);
}

#[test]
fn round_nearest_ties_away_from_zero() {
    assert_eq!(Frac::new(5, 2).round_nearest(), 3);
    assert_eq!(Frac::new(-5, 2).round_nearest(), -3);
    assert_eq!(Frac::new(12, 5).round_nearest(), 2);
    assert_eq!(Frac::new(13, 5).round_nearest(), 3);
    assert_eq!(Frac::new(-12, 5).round_nearest(), -2);
    assert_eq!(Frac::new(-13, 5).round_nearest(), -3);
}

#[test]
fn db_floor_collapses_to_silence() {
    // a linear map over a decibel range, with the floor decision applied to
    // the denormalized decibel value
    let map = LinearMap::new(Frac::from_int(-90), Frac::from_int(20));
    let floor = Frac::from_int(-90);

    // denormalizing zero lands exactly on the floor, which is silence
    let w0 = map.denormalize(Frac::new(0, 1));
    assert!(apply_db_floor(w0, floor).is_none());

    // a mid value lands above the floor and passes through unchanged
    let w1 = map.denormalize(Frac::new(1, 2));
    let kept = apply_db_floor(w1, floor).unwrap();
    assert_eq!(kept, w1);

    // strictly below the floor is silence too
    assert!(apply_db_floor(Frac::new(-91, 1), floor).is_none());
    assert!(apply_db_floor(Frac::new(-899, 10), floor).is_some());
}

#[test]
fn log_domain_linear_bridge() {
    // the log2 mapping is the linear map over the log2 domain: quantized
    // log2 values in, the verified clamped interpolation inside
    let den: i64 = 1_024;
    let lf = |x: f64| -> Frac { Frac::new((x.log2() * den as f64).round() as i64, den) };
    let map = LinearMap::new(lf(20.0), lf(20480.0));

    let r = map.normalize(lf(40.0));
    assert!((r.num as f64 / r.den as f64 - 0.1).abs() < 1e-3);
    let zero = map.normalize(lf(20.0));
    assert_eq!(zero.num, 0);
    let one = map.normalize(lf(20480.0));
    assert_eq!(one.num, one.den);
    let below = map.normalize(lf(18.0));
    assert_eq!(below.num, 0);
    let above = map.normalize(lf(20500.0));
    assert_eq!(above.num, above.den);

    let w = map.denormalize(Frac::new(1, 2));
    let back = 2.0f64.powf(w.num as f64 / w.den as f64);
    assert!((back - 640.0).abs() < 1.0);
}

#[test]
fn reduce_result_is_coprime() {
    let red = Frac::new(84, 126).reduce();
    assert_eq!(red.num, 2);
    assert_eq!(red.den, 3);
    let red2 = Frac::new(1_000_000, 10).reduce();
    assert_eq!(red2.num, 100_000);
    assert_eq!(red2.den, 1);
}
