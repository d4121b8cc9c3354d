use itoken::float64::{
    add, divide, from_whole, is_less, multiply, narrow, round_to_u64, stands_before, subtract,
    truncate_to_u64,
};

fn samples() -> Vec<f64> {
    let mut v = vec![
        0.0,
        -0.0,
        1.0,
        -1.0,
        0.1,
        0.5,
        2.5,
        3.5,
        1e9,
        1e-9,
        25.0,
        1e300,
        1e-300,
        -1e308,
        f64::MAX,
        f64::MIN_POSITIVE,
        f64::from_bits(1),
        f64::from_bits(0x000f_ffff_ffff_ffff),
        f64::INFINITY,
        f64::NEG_INFINITY,
        f64::NAN,
        1.0 / 3.0,
        18446744073709551616.0,
        9007199254740993.0,
        4503599627370497.5,
    ];
    let mut x: u64 = 0x9e37_79b9_7f4a_7c15;
    for _ in 0..120 {
        x = x.wrapping_mul(6364136223846793005).wrapping_add(1442695040888963407);
        v.push(f64::from_bits(x));
        v.push((x >> 40) as f64 / 1024.0);
    }
    v
}

fn same(got: u64, expected: f64) -> bool {
    got == expected.to_bits() || (f64::from_bits(got).is_nan() && expected.is_nan())
}

#[test]
fn arithmetic_is_that_of_the_machine() {
    let v = samples();
    for a in &v {
        for b in &v {
            let (x, y) = (a.to_bits(), b.to_bits());
            assert!(same(multiply(x, y), a * b), "{} * {}", a, b);
            assert!(same(add(x, y), a + b), "{} + {}", a, b);
            assert!(same(subtract(x, y), a - b), "{} - {}", a, b);
            assert!(same(divide(x, y), a / b), "{} / {}", a, b);
            assert_eq!(is_less(x, y), a < b, "{} < {}", a, b);
            if !a.is_nan() && !b.is_nan() {
                assert_eq!(stands_before(x, y), a < b, "{} before {}", a, b);
            }
        }
    }
}

#[test]
fn conversions_are_those_of_the_machine() {
    for a in samples() {
        let x = a.to_bits();
        assert_eq!(round_to_u64(x), a.round() as u64, "round {}", a);
        assert_eq!(truncate_to_u64(x), a as u64, "truncate {}", a);
        let single = a as f32;
        if single.is_nan() {
            assert!(f32::from_bits(narrow(x)).is_nan());
        } else {
            assert_eq!(narrow(x), single.to_bits(), "narrow {}", a);
        }
    }
    for n in vec![0u64, 1, 3, 1 << 53, (1 << 53) + 1, (1 << 54) + 3, u64::MAX, u64::MAX - 1024] {
        assert_eq!(from_whole(n), (n as f64).to_bits());
    }
    for single in vec![0.7f32, 2.0, 1e-40, f32::MAX, f32::MIN_POSITIVE] {
        assert_eq!(narrow((single as f64).to_bits()), single.to_bits());
    }
    assert_eq!(narrow(0.7f64.to_bits()), 0.7f32.to_bits());
}
