//! Soft floating point against the machine's.
use sluggrs_skylines::float32::F32;
use sluggrs_skylines::float64::F64;

fn single(x: f32) -> F32 {
    F32 { bits: x.to_bits() }
}

fn double(x: f64) -> F64 {
    F64 { bits: x.to_bits() }
}

fn same_single(a: F32, b: f32) -> bool {
    if b.is_nan() {
        a.is_nan()
    } else {
        a.bits == b.to_bits()
    }
}

fn same_double(a: F64, b: f64) -> bool {
    if b.is_nan() {
        f64::from_bits(a.bits).is_nan()
    } else {
        a.bits == b.to_bits()
    }
}

/// A fixed stream of words.
fn next(state: &mut u64) -> u64 {
    *state = state.wrapping_mul(6364136223846793005).wrapping_add(1442695040888963407);
    let x = *state ^ (*state >> 33);
    x.wrapping_mul(0xff51afd7ed558ccd) ^ (x >> 29)
}

fn singles() -> Vec<f32> {
    let mut list = vec![
        0.0, -0.0, 1.0, -1.0, 0.5, 2.0, 3.0, 0.1, 255.0, 1.0e-45, -1.0e-45, 1.1754944e-38, 1.1754942e-38, 3.4028235e38,
        -3.4028235e38, f32::INFINITY, f32::NEG_INFINITY, f32::NAN, 16777216.0, 16777215.0, 8388607.5, 1.5, 2.5, -2.5,
        2147483648.0, -2147483648.0, 9.2233720e18, 1.0e20,
    ];
    let mut state = 7;
    for _ in 0..60 {
        list.push(f32::from_bits(next(&mut state) as u32));
        list.push((next(&mut state) as i32) as f32 / 65536.0);
    }
    list
}

fn doubles() -> Vec<f64> {
    let mut list = vec![
        0.0, -0.0, 1.0, -1.0, 0.5, 3.0, 0.1, 5.0e-324, 2.2250738585072014e-308, f64::MAX, f64::MIN, f64::INFINITY,
        f64::NEG_INFINITY, f64::NAN, 9007199254740993.0, 1.5, -1.5, 1.0e300,
    ];
    let mut state = 11;
    for _ in 0..60 {
        list.push(f64::from_bits(next(&mut state)));
        list.push((next(&mut state) as i32) as f64 / 1024.0);
    }
    list
}

#[test]
fn single_arithmetic_is_the_machines() {
    for a in singles() {
        for b in singles() {
            let (x, y) = (single(a), single(b));
            assert!(same_single(x.plus(y), a + b), "{a:e} + {b:e}");
            assert!(same_single(x.minus(y), a - b), "{a:e} - {b:e}");
            assert!(same_single(x.times(y), a * b), "{a:e} * {b:e}");
            assert!(same_single(x.over(y), a / b), "{a:e} / {b:e}");
        }
    }
}

#[test]
fn single_comparison_is_the_machines() {
    for a in singles() {
        for b in singles() {
            let (x, y) = (single(a), single(b));
            assert_eq!(x.lt(y), a < b);
            assert_eq!(x.le(y), a <= b);
            assert_eq!(x.eq_value(y), a == b);
            let (low, high) = (f32::from_bits(x.min(y).bits), f32::from_bits(x.max(y).bits));
            assert!(low == a.min(b) || (a.is_nan() && b.is_nan() && low.is_nan()));
            assert!(high == a.max(b) || (a.is_nan() && b.is_nan() && high.is_nan()));
        }
    }
}

#[test]
fn single_functions_are_the_machines() {
    for a in singles() {
        let x = single(a);
        assert!(same_single(x.sqrt(), a.sqrt()), "sqrt {a:e}");
        assert!(same_single(x.round(), a.round()), "round {a:e}");
        assert!(same_single(x.abs(), a.abs()));
        assert!(same_single(x.negate(), -a));
        assert_eq!(x.floor_i64(), a.floor() as i64);
        assert_eq!(x.round_i64(), a.round() as i64);
        assert_eq!(x.trunc_i64(), a as i64);
        assert_eq!(x.ceil_u32(), a.ceil() as u32);
        assert_eq!(x.is_nan(), a.is_nan());
        assert_eq!(x.is_finite(), a.is_finite());
        assert!(same_single(x.quantize(), (a * 4.0).round() * 0.25));
    }
    assert!(same_single(single(-0.0).sqrt(), -0.0));
}

#[test]
fn single_hypotenuse_is_correctly_rounded() {
    for (a, b, h) in [(3.0f32, 4.0f32, 5.0f32), (5.0, -12.0, 13.0), (0.0, -2.5, 2.5), (1.0e30, 0.0, 1.0e30)] {
        assert!(same_single(single(a).hypot(single(b)), h));
    }
    for a in singles() {
        for b in singles() {
            if a.is_finite() && b.is_finite() {
                let exact = ((a as f64) * (a as f64) + (b as f64) * (b as f64)).sqrt() as f32;
                let ours = f32::from_bits(single(a).hypot(single(b)).bits);
                let gap = (ours.to_bits() as i64 - exact.to_bits() as i64).abs();
                assert!(gap <= 1, "hypot {a:e} {b:e}: {ours:e} {exact:e}");
            }
        }
    }
}

#[test]
fn integers_convert_as_the_machine_does() {
    let mut state = 3;
    for _ in 0..500 {
        let k = next(&mut state) as i64 >> (2 + (next(&mut state) % 60) as u32);
        assert!(same_single(F32::from_i64(k), k as f32), "{k}");
        assert!(same_double(F64::from_i128(k as i128), k as f64), "{k}");
    }
    for k in [0i64, 1, -1, 16777216, 16777217, -16777219, 33554433] {
        assert!(same_single(F32::from_i64(k), k as f32));
    }
}

#[test]
fn small_integers_are_exact() {
    for k in [0i64, 1, 2, 3, 255, 4096, 65535, 16777215, 16777216, -16777216] {
        assert_eq!(F32::from_i64(k).trunc_i64(), k);
    }
}

#[test]
fn powers_of_two_are_the_next_ones() {
    for (x, p) in [(1.0f32, 1.0f32), (1.5, 2.0), (2.0, 2.0), (2.0000002, 4.0), (1000.0, 1024.0), (0.3, 0.5)] {
        assert!(same_single(single(x).next_power_of_two(), p), "{x}");
    }
}

#[test]
fn double_arithmetic_is_the_machines() {
    for a in doubles() {
        for b in doubles() {
            let (x, y) = (double(a), double(b));
            assert!(same_double(x.plus(y), a + b), "{a:e} + {b:e}");
            assert!(same_double(x.minus(y), a - b), "{a:e} - {b:e}");
            assert!(same_double(x.times(y), a * b), "{a:e} * {b:e}");
            assert!(same_double(x.over(y), a / b), "{a:e} / {b:e}");
            assert_eq!(x.lt(y), a < b);
            assert_eq!(x.le(y), a <= b);
        }
    }
}

#[test]
fn double_functions_are_the_machines() {
    for a in doubles() {
        assert!(same_double(double(a).floor(), a.floor()), "floor {a:e}");
        assert!(same_double(double(a).abs(), a.abs()));
        assert!(same_single(F32::from_f64(double(a)), a as f32), "{a:e}");
    }
    for a in singles() {
        assert!(same_double(F64::from_f32(single(a)), a as f64), "{a:e}");
    }
}

#[test]
fn sums_never_pass_a_value_on_their_side() {
    let list: Vec<f32> = singles().into_iter().filter(|x| x.is_finite()).collect();
    for a in &list {
        for s in list.iter().filter(|s| **s >= 0.0) {
            assert!(single(*a).le(single(*a).plus(single(*s))));
            assert!(single(*a).minus(single(*s)).le(single(*a)));
        }
    }
}
