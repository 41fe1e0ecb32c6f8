use vyges_pad::single::Single;

fn single(v: f32) -> Single {
    Single::from_bits(v.to_bits())
}

fn values() -> Vec<f32> {
    let mut out = vec![
        0.0,
        -0.0,
        1.0,
        -1.0,
        0.1,
        0.2,
        0.5,
        1.5,
        2.5,
        -2.5,
        3.0,
        7.0,
        0.333_333_34,
        1_000.0,
        25_600.0,
        25_601.0,
        16_777_215.0,
        16_777_216.0,
        16_777_218.0,
        2_147_483_647.0,
        -2_147_483_648.0,
        4_294_967_296.0,
        9_223_372_036_854_775_807.0,
        f32::MAX,
        f32::MIN,
        f32::MIN_POSITIVE,
        f32::INFINITY,
        f32::NEG_INFINITY,
        f32::NAN,
        f32::from_bits(1),
        f32::from_bits(0x007f_ffff),
        f32::from_bits(0x8000_0001),
        f32::EPSILON,
    ];
    let mut seed: u32 = 12_345;
    for _ in 0..60 {
        seed = seed.wrapping_mul(1_664_525).wrapping_add(1_013_904_223);
        out.push(f32::from_bits(seed));
    }
    out
}

fn same(a: Single, b: f32) -> bool {
    let x = f32::from_bits(a.to_bits());
    (x.is_nan() && b.is_nan()) || x.to_bits() == b.to_bits()
}

#[test]
fn sums_and_products_are_those_of_the_machine() {
    for a in values() {
        for b in values() {
            let (x, y) = (single(a), single(b));
            assert!(same(x.add(y), a + b), "{a:?} + {b:?}");
            assert!(same(x.subtract(y), a - b), "{a:?} - {b:?}");
            assert!(same(x.multiply(y), a * b), "{a:?} * {b:?}");
            assert!(same(x.divide(y), a / b), "{a:?} / {b:?}");
        }
    }
}

#[test]
fn the_lesser_of_two_numbers_passes_over_what_is_none() {
    for a in values() {
        for b in values() {
            let m = f32::from_bits(single(a).min(single(b)).to_bits());
            if a.is_nan() && b.is_nan() {
                assert!(m.is_nan());
            } else {
                assert_eq!(m, a.min(b), "{a:?} {b:?}");
            }
        }
    }
}

#[test]
fn whole_numbers_are_rounded_to_the_nearest() {
    for v in [0i64, 1, -1, 3, 255, 16_777_217, 16_777_219, -33_554_433, i64::MAX, i64::MIN, 25_601] {
        assert!(same(Single::from_int(v), v as f32), "{v}");
    }
    for n in [0usize, 1, 7, 16_777_217, usize::MAX] {
        assert!(same(Single::from_count(n), n as f32), "{n}");
    }
    assert!(same(Single::one(), 1.0));
}

#[test]
fn numbers_become_whole_as_the_machine_does_it() {
    for a in values() {
        let x = single(a);
        assert_eq!(x.to_i64(), a as i64, "{a:?}");
        assert_eq!(x.to_i32(), a as i32, "{a:?}");
        assert_eq!(x.round_to_i32(), a.round() as i32, "round {a:?}");
        assert_eq!(x.ceil_to_i32(), a.ceil() as i32, "ceil {a:?}");
        assert_eq!(x.floor_to_i32(), a.floor() as i32, "floor {a:?}");
        assert_eq!(x.is_below_zero(), a < 0.0, "{a:?}");
        if !a.is_nan() {
            assert!(same(x.negate(), -a));
            assert!(same(x.magnitude(), a.abs()));
        }
    }
}
