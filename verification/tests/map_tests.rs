use normal_map::{Exponent, Frac, NormalMap};

fn to_f32(x: &Frac) -> f32 {
    x.num as f32 / x.den as f32
}

fn to_f64(x: &Frac) -> f64 {
    x.num as f64 / x.den as f64
}

fn assert_approximate_f32(a: f32, b: f32) {
    assert!(
        (a - b).abs() <= 0.0001,
        "Values are not approximate: a = {}, b = {}",
        a,
        b
    );
}

fn assert_approximate_f64(a: f64, b: f64) {
    assert!(
        (a - b).abs() < 0.000000000001,
        "Values are not approximate: a = {}, b = {}",
        a,
        b
    );
}

#[test]
fn linear_map_f32() {
    let normal_map = NormalMap::linear(Frac::from_int(-50), Frac::from_int(50));

    assert_approximate_f32(0.0, to_f32(&normal_map.normalize(Frac::from_int(-50))));
    assert_approximate_f32(0.0, to_f32(&normal_map.normalize(Frac::from_int(-52))));
    assert_approximate_f32(1.0, to_f32(&normal_map.normalize(Frac::from_int(50))));
    assert_approximate_f32(1.0, to_f32(&normal_map.normalize(Frac::from_int(52))));

    assert_approximate_f32(-50.0, to_f32(&normal_map.denormalize(Frac::new(0, 1))));
    assert_approximate_f32(50.0, to_f32(&normal_map.denormalize(Frac::new(1, 1))));

    assert_approximate_f32(0.5, to_f32(&normal_map.normalize(Frac::from_int(0))));
    assert_approximate_f32(0.25, to_f32(&normal_map.normalize(Frac::from_int(-25))));
    assert_approximate_f32(0.75, to_f32(&normal_map.normalize(Frac::from_int(25))));

    assert_approximate_f32(0.0, to_f32(&normal_map.denormalize(Frac::new(1, 2))));
    assert_approximate_f32(-25.0, to_f32(&normal_map.denormalize(Frac::new(1, 4))));
    assert_approximate_f32(25.0, to_f32(&normal_map.denormalize(Frac::new(3, 4))));
}

#[test]
fn linear_map_f64() {
    let normal_map = NormalMap::linear(Frac::from_int(-50), Frac::from_int(50));

    assert_approximate_f64(0.0, to_f64(&normal_map.normalize(Frac::from_int(-50))));
    assert_approximate_f64(0.0, to_f64(&normal_map.normalize(Frac::from_int(-52))));
    assert_approximate_f64(1.0, to_f64(&normal_map.normalize(Frac::from_int(50))));
    assert_approximate_f64(1.0, to_f64(&normal_map.normalize(Frac::from_int(52))));

    assert_approximate_f64(-50.0, to_f64(&normal_map.denormalize(Frac::new(0, 1))));
    assert_approximate_f64(50.0, to_f64(&normal_map.denormalize(Frac::new(1, 1))));

    assert_approximate_f64(0.5, to_f64(&normal_map.normalize(Frac::from_int(0))));
    assert_approximate_f64(0.25, to_f64(&normal_map.normalize(Frac::from_int(-25))));
    assert_approximate_f64(0.75, to_f64(&normal_map.normalize(Frac::from_int(25))));

    assert_approximate_f64(0.0, to_f64(&normal_map.denormalize(Frac::new(1, 2))));
    assert_approximate_f64(-25.0, to_f64(&normal_map.denormalize(Frac::new(1, 4))));
    assert_approximate_f64(25.0, to_f64(&normal_map.denormalize(Frac::new(3, 4))));
}

#[test]
fn power_map_f32() {
    let normal_map =
        NormalMap::power(Frac::from_int(-50), Frac::from_int(50), Exponent::Recip(2)).unwrap();

    assert_approximate_f32(0.0, to_f32(&normal_map.normalize(Frac::from_int(-50))));
    assert_approximate_f32(0.0, to_f32(&normal_map.normalize(Frac::from_int(-52))));
    assert_approximate_f32(1.0, to_f32(&normal_map.normalize(Frac::from_int(50))));
    assert_approximate_f32(1.0, to_f32(&normal_map.normalize(Frac::from_int(52))));

    assert_approximate_f32(-50.0, to_f32(&normal_map.denormalize(Frac::new(0, 1))));
    assert_approximate_f32(50.0, to_f32(&normal_map.denormalize(Frac::new(1, 1))));

    assert_approximate_f32(0.25, to_f32(&normal_map.normalize(Frac::from_int(0))));
    assert_approximate_f32(0.0625, to_f32(&normal_map.normalize(Frac::from_int(-25))));
    assert_approximate_f32(0.5625, to_f32(&normal_map.normalize(Frac::from_int(25))));

    assert_approximate_f32(0.0, to_f32(&normal_map.denormalize(Frac::new(25, 100))));
    assert_approximate_f32(-25.0, to_f32(&normal_map.denormalize(Frac::new(625, 10000))));
    assert_approximate_f32(25.0, to_f32(&normal_map.denormalize(Frac::new(5625, 10000))));
}

#[test]
fn power_map_f64() {
    let normal_map =
        NormalMap::power(Frac::from_int(-50), Frac::from_int(50), Exponent::Recip(2)).unwrap();

    assert_approximate_f64(0.0, to_f64(&normal_map.normalize(Frac::from_int(-50))));
    assert_approximate_f64(0.0, to_f64(&normal_map.normalize(Frac::from_int(-52))));
    assert_approximate_f64(1.0, to_f64(&normal_map.normalize(Frac::from_int(50))));
    assert_approximate_f64(1.0, to_f64(&normal_map.normalize(Frac::from_int(52))));

    assert_approximate_f64(-50.0, to_f64(&normal_map.denormalize(Frac::new(0, 1))));
    assert_approximate_f64(50.0, to_f64(&normal_map.denormalize(Frac::new(1, 1))));

    assert_approximate_f64(0.25, to_f64(&normal_map.normalize(Frac::from_int(0))));
    assert_approximate_f64(0.0625, to_f64(&normal_map.normalize(Frac::from_int(-25))));
    assert_approximate_f64(0.5625, to_f64(&normal_map.normalize(Frac::from_int(25))));

    assert_approximate_f64(0.0, to_f64(&normal_map.denormalize(Frac::new(25, 100))));
    assert_approximate_f64(-25.0, to_f64(&normal_map.denormalize(Frac::new(625, 10000))));
    assert_approximate_f64(25.0, to_f64(&normal_map.denormalize(Frac::new(5625, 10000))));
}

#[test]
fn discrete_map_f32() {
    let normal_map = NormalMap::discrete(-5, 5);

    assert_approximate_f32(0.0, to_f32(&normal_map.normalize(Frac::from_int(-5))));
    assert_approximate_f32(0.0, to_f32(&normal_map.normalize(Frac::from_int(-6))));
    assert_approximate_f32(1.0, to_f32(&normal_map.normalize(Frac::from_int(5))));
    assert_approximate_f32(1.0, to_f32(&normal_map.normalize(Frac::from_int(6))));

    assert_approximate_f32(-5.0, to_f32(&normal_map.denormalize(Frac::new(0, 1))));
    assert_approximate_f32(5.0, to_f32(&normal_map.denormalize(Frac::new(1, 1))));

    assert_approximate_f32(0.0, to_f32(&normal_map.normalize(Frac::new(-49, 10))));
    assert_approximate_f32(1.0, to_f32(&normal_map.normalize(Frac::new(49, 10))));
    assert_approximate_f32(0.2, to_f32(&normal_map.normalize(Frac::from_int(-3))));
    assert_approximate_f32(0.8, to_f32(&normal_map.normalize(Frac::from_int(3))));

    assert_approximate_f32(-3.0, to_f32(&normal_map.denormalize(Frac::new(2, 10))));
    assert_approximate_f32(3.0, to_f32(&normal_map.denormalize(Frac::new(8, 10))));
}

#[test]
fn discrete_map_f64() {
    let normal_map = NormalMap::discrete(-5, 5);

    assert_approximate_f64(0.0, to_f64(&normal_map.normalize(Frac::from_int(-5))));
    assert_approximate_f64(0.0, to_f64(&normal_map.normalize(Frac::from_int(-6))));
    assert_approximate_f64(1.0, to_f64(&normal_map.normalize(Frac::from_int(5))));
    assert_approximate_f64(1.0, to_f64(&normal_map.normalize(Frac::from_int(6))));

    assert_approximate_f64(-5.0, to_f64(&normal_map.denormalize(Frac::new(0, 1))));
    assert_approximate_f64(5.0, to_f64(&normal_map.denormalize(Frac::new(1, 1))));

    assert_approximate_f64(0.0, to_f64(&normal_map.normalize(Frac::new(-49, 10))));
    assert_approximate_f64(1.0, to_f64(&normal_map.normalize(Frac::new(49, 10))));
    assert_approximate_f64(0.2, to_f64(&normal_map.normalize(Frac::from_int(-3))));
    assert_approximate_f64(0.8, to_f64(&normal_map.normalize(Frac::from_int(3))));

    assert_approximate_f64(-3.0, to_f64(&normal_map.denormalize(Frac::new(2, 10))));
    assert_approximate_f64(3.0, to_f64(&normal_map.denormalize(Frac::new(8, 10))));
}
