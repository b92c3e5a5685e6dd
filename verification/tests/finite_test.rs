use shadow::distance::{within_distance, within_epsilon};
use shadow::finite::{
    float_eq, float_ge_ratio, float_is_finite, float_is_nan, float_le, float_lt,
    float_order_key, float_to_usize, Finite,
};

fn samples() -> Vec<f32> {
    vec![
        0.0,
        -0.0,
        1.0,
        -1.0,
        0.5,
        0.25,
        0.75,
        0.1,
        0.2,
        0.9,
        1.0 - f32::EPSILON,
        1.0 + f32::EPSILON,
        f32::EPSILON,
        f32::EPSILON / 2.0,
        f32::MIN_POSITIVE,
        f32::MIN_POSITIVE / 2.0,
        f32::from_bits(1),
        -f32::from_bits(1),
        3.5,
        -3.5,
        1e-10,
        -1e-10,
        1e10,
        -1e10,
        f32::MAX,
        f32::MIN,
        f32::INFINITY,
        f32::NEG_INFINITY,
        f32::NAN,
        1.0e-7,
        1.1e-7,
        1.2e-7,
        2.0e-7,
        0.4,
        0.4 + 1.0e-7,
        0.4 + 2.0e-7,
        7.0,
        7.0 + 0.000001,
    ]
}

#[test]
fn comparisons_agree_with_the_numbers() {
    for a in samples() {
        for b in samples() {
            assert_eq!(float_le(a.to_bits(), b.to_bits()), a <= b, "{a} <= {b}");
            assert_eq!(float_lt(a.to_bits(), b.to_bits()), a < b, "{a} < {b}");
            assert_eq!(float_eq(a.to_bits(), b.to_bits()), a == b, "{a} == {b}");
        }
    }
}

#[test]
fn order_keys_sort_as_the_numbers() {
    for a in samples() {
        for b in samples() {
            if a.is_nan() || b.is_nan() {
                continue;
            }
            assert_eq!(
                float_order_key(a.to_bits()) <= float_order_key(b.to_bits()),
                a <= b,
                "{a} {b}"
            );
        }
    }
}

#[test]
fn classes_of_patterns() {
    for a in samples() {
        assert_eq!(float_is_nan(a.to_bits()), a.is_nan());
        assert_eq!(float_is_finite(a.to_bits()), a.is_finite());
        assert_eq!(Finite::new(a.to_bits()).is_ok(), a.is_finite());
    }
}

#[test]
fn finite_keeps_its_pattern_and_order() {
    let a = Finite::new(1.5f32.to_bits()).unwrap();
    let b = Finite::new(2.5f32.to_bits()).unwrap();
    assert_eq!(a.get(), 1.5f32.to_bits());
    assert!(a.lt(b) && a.le(b) && !b.le(a) && !a.same_value(b));
    let zero = Finite::new(0.0f32.to_bits()).unwrap();
    let negative_zero = Finite::new((-0.0f32).to_bits()).unwrap();
    assert!(zero.same_value(negative_zero) && zero.is_zero() && negative_zero.is_zero());
    assert!(!a.is_zero());
    assert!(Finite::new(f32::NAN.to_bits()).is_err());
    assert!(Finite::new(f32::INFINITY.to_bits()).is_err());
}

#[test]
fn distance_below_epsilon_is_exact() {
    for a in samples() {
        for b in samples() {
            let difference = (a as f64) - (b as f64);
            if a.is_finite()
                && b.is_finite()
                && (difference + (b as f64) != (a as f64) || (a as f64) - difference != (b as f64))
            {
                // The difference is not a double precision number: the
                // pairs at the edge are tried one by one below.
                continue;
            }
            let expected =
                a.is_finite() && b.is_finite() && difference.abs() < f32::EPSILON as f64;
            assert_eq!(
                within_epsilon(a.to_bits(), b.to_bits()),
                expected,
                "{a} {b}"
            );
        }
    }
}

#[test]
fn distance_below_epsilon_at_the_edge() {
    let one = 1.0f32;
    let below = f32::from_bits(one.to_bits() - 1);
    let above = f32::from_bits(one.to_bits() + 1);
    assert!(within_epsilon(one.to_bits(), below.to_bits()));
    assert!(!within_epsilon(one.to_bits(), above.to_bits()));
    assert!(!within_epsilon(0.0f32.to_bits(), f32::EPSILON.to_bits()));
    assert!(within_epsilon(
        0.0f32.to_bits(),
        f32::from_bits(f32::EPSILON.to_bits() - 1).to_bits()
    ));
    assert!(within_epsilon(
        (f32::EPSILON / 4.0).to_bits(),
        (-f32::EPSILON / 4.0).to_bits()
    ));
    assert!(!within_epsilon(
        (f32::EPSILON / 2.0).to_bits(),
        (-f32::EPSILON / 2.0).to_bits()
    ));
    assert!(within_epsilon(
        f32::EPSILON.to_bits(),
        f32::MIN_POSITIVE.to_bits()
    ));
    assert!(!within_epsilon(
        f32::EPSILON.to_bits(),
        (-f32::MIN_POSITIVE).to_bits()
    ));
    assert!(within_epsilon(1.0e30f32.to_bits(), 1.0e30f32.to_bits()));
    assert!(!within_epsilon(
        1.0e30f32.to_bits(),
        f32::from_bits(1.0e30f32.to_bits() + 1).to_bits()
    ));
}

#[test]
fn thresholds_are_reached_exactly() {
    for p in samples() {
        for denominator in [2u64, 4, 10, 100, 256, 1_000_003] {
            for numerator in [0u64, 1, denominator / 2, denominator - 1, denominator] {
                let threshold = numerator as f64 / denominator as f64;
                let expected = (p as f64) >= threshold;
                if ((p as f64) - threshold).abs() < 1e-12 && (p as f64) != threshold {
                    continue;
                }
                assert_eq!(
                    float_ge_ratio(p.to_bits(), numerator, denominator),
                    expected,
                    "{p} >= {numerator}/{denominator}"
                );
            }
        }
    }
}

#[test]
fn a_tenth_in_single_precision_is_above_one_tenth() {
    assert!(float_ge_ratio(0.1f32.to_bits(), 1, 10));
    let below = f32::from_bits(0.1f32.to_bits() - 1);
    assert!(!float_ge_ratio(below.to_bits(), 1, 10));
    assert!(float_ge_ratio(0.25f32.to_bits(), 1, 4));
    assert!(!float_ge_ratio(f32::from_bits(0.25f32.to_bits() - 1).to_bits(), 1, 4));
}

#[test]
fn whole_parts_are_cut_towards_zero() {
    for x in samples() {
        let expected = if x.is_finite() && x > -1.0 && x < 18446744073709551616.0 {
            Some(x as usize)
        } else {
            None
        };
        assert_eq!(float_to_usize(x.to_bits()), expected, "{x}");
    }
    assert_eq!(float_to_usize(89.99999f32.to_bits()), Some(89));
    assert_eq!(float_to_usize(90.0f32.to_bits()), Some(90));
    assert_eq!(float_to_usize(0.99999994f32.to_bits()), Some(0));
    assert_eq!(float_to_usize((-0.99999994f32).to_bits()), Some(0));
    assert_eq!(float_to_usize((-1.0f32).to_bits()), None);
    assert_eq!(float_to_usize(16777216.0f32.to_bits()), Some(16777216));
    assert_eq!(float_to_usize(4294967296.0f32.to_bits()), Some(4294967296));
    assert_eq!(
        float_to_usize(18446742974197923840.0f32.to_bits()),
        Some(18446742974197923840)
    );
    assert_eq!(float_to_usize(18446744073709551616.0f32.to_bits()), None);
}

/// Numbers whose exponents are small enough for 128 bits to hold them
/// exactly in units of 2^-60.
fn exact(x: f32) -> i128 {
    let scaled = (x as f64) * (1u64 << 60) as f64;
    assert!(scaled == scaled.trunc() && scaled.abs() < 1.0e36);
    scaled as i128
}

fn pseudo_random_numbers(count: usize) -> Vec<f32> {
    let mut state: u64 = 0x2545_f491_4f6c_dd1d;
    let mut numbers = Vec::new();
    while numbers.len() < count {
        state ^= state << 13;
        state ^= state >> 7;
        state ^= state << 17;
        let fraction = (state >> 40) as u32 & 0x7f_ffff;
        let exponent = 127 - 30 + ((state >> 8) % 50) as u32;
        let sign = ((state >> 3) & 1) as u32;
        numbers.push(f32::from_bits((sign << 31) | (exponent << 23) | fraction));
    }
    numbers.push(0.0);
    numbers.push(-0.0);
    numbers
}

#[test]
fn distances_are_compared_exactly() {
    let numbers = pseudo_random_numbers(60);
    for &a in &numbers {
        for &b in &numbers {
            for &limit in &numbers {
                let expected = (exact(a) - exact(b)).abs() < exact(limit);
                assert_eq!(
                    within_distance(a.to_bits(), b.to_bits(), limit.to_bits()),
                    expected,
                    "{a} {b} {limit}"
                );
            }
        }
    }
}

#[test]
fn distances_of_close_numbers_are_compared_exactly() {
    let mut numbers = Vec::new();
    for base in [1.0f32, 0.5, 3.0, 1024.0, 1.0e-3] {
        for step in 0..6u32 {
            numbers.push(f32::from_bits(base.to_bits() + step));
            numbers.push(-f32::from_bits(base.to_bits() + step));
        }
    }
    let limits = [
        f32::EPSILON,
        f32::EPSILON / 2.0,
        1.0e-3,
        f32::from_bits(1.0f32.to_bits() - 1),
        2.0,
        0.0,
        -1.0,
    ];
    for &a in &numbers {
        for &b in &numbers {
            for &limit in &limits {
                let expected = (exact(a) - exact(b)).abs() < exact(limit);
                assert_eq!(
                    within_distance(a.to_bits(), b.to_bits(), limit.to_bits()),
                    expected,
                    "{a} {b} {limit}"
                );
                if limit == f32::EPSILON {
                    assert_eq!(within_epsilon(a.to_bits(), b.to_bits()), expected);
                }
            }
        }
    }
}

#[test]
fn distances_at_the_ends_of_the_range() {
    let tiny = f32::from_bits(1);
    let huge = f32::MAX;
    assert!(within_distance(huge.to_bits(), huge.to_bits(), tiny.to_bits()));
    assert!(!within_distance(huge.to_bits(), (-huge).to_bits(), huge.to_bits()));
    assert!(within_distance(huge.to_bits(), tiny.to_bits(), huge.to_bits()));
    assert!(!within_distance(huge.to_bits(), (-tiny).to_bits(), huge.to_bits()));
    assert!(!within_distance(huge.to_bits(), 0.0f32.to_bits(), huge.to_bits()));
    assert!(within_distance(huge.to_bits(), 0.0f32.to_bits(), f32::INFINITY.to_bits()));
    assert!(within_distance(
        f32::from_bits(huge.to_bits() - 1).to_bits(),
        tiny.to_bits(),
        huge.to_bits()
    ));
    assert!(within_distance(huge.to_bits(), tiny.to_bits(), f32::INFINITY.to_bits()));
    assert!(!within_distance(tiny.to_bits(), 0.0f32.to_bits(), tiny.to_bits()));
    assert!(within_distance(tiny.to_bits(), 0.0f32.to_bits(), f32::from_bits(2).to_bits()));
    assert!(within_distance(tiny.to_bits(), (-tiny).to_bits(), f32::from_bits(3).to_bits()));
    assert!(!within_distance(tiny.to_bits(), (-tiny).to_bits(), f32::from_bits(2).to_bits()));
    assert!(!within_distance(1.0f32.to_bits(), 1.0f32.to_bits(), 0.0f32.to_bits()));
    assert!(!within_distance(1.0f32.to_bits(), 1.0f32.to_bits(), f32::NAN.to_bits()));
    assert!(!within_distance(f32::NAN.to_bits(), 1.0f32.to_bits(), 1.0f32.to_bits()));
    assert!(!within_distance(f32::INFINITY.to_bits(), f32::INFINITY.to_bits(), 1.0f32.to_bits()));
    assert!(within_distance(1.0e30f32.to_bits(), 1.0e30f32.to_bits(), 1.0e-30f32.to_bits()));
    assert!(!within_distance(
        1.0e30f32.to_bits(),
        f32::from_bits(1.0e30f32.to_bits() + 1).to_bits(),
        1.0e-30f32.to_bits()
    ));
}

#[test]
fn finite_numbers_are_compared_by_their_values() {
    let numbers: Vec<f32> = samples().into_iter().filter(|x| x.is_finite()).collect();
    for &a in &numbers {
        for &b in &numbers {
            let left = Finite::new(a.to_bits()).unwrap();
            let right = Finite::new(b.to_bits()).unwrap();
            assert_eq!(left == right, a == b, "{a} == {b}");
            assert_eq!(left < right, a < b, "{a} < {b}");
            assert_eq!(left <= right, a <= b, "{a} <= {b}");
            assert_eq!(left > right, a > b, "{a} > {b}");
            assert_eq!(left.partial_cmp(&right), a.partial_cmp(&b));
            assert_eq!(left.key() == right.key(), a == b);
            assert_eq!(left.key() < right.key(), a < b);
        }
    }
}
