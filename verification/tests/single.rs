use porda::single::Single;

fn s(x: f32) -> Single {
    Single { bits: x.to_bits() }
}

fn samples() -> Vec<f32> {
    vec![
        0.0, -0.0, 1.0, -1.0, 0.1, 0.25, 0.9, 3.5, 255.0, 544.0, 1e-40, -1e-40, 1e-20, 3e38, -3e38,
        1.17549435e-38, f32::INFINITY, f32::NEG_INFINITY, 16777217.0, 0.33333334, 65504.0, 1e10,
    ]
}

#[test]
fn arithmetic_is_that_of_single_precision() {
    for a in samples() {
        for b in samples() {
            let cases = [
                (s(a).times(s(b)), a * b),
                (s(a).over(s(b)), a / b),
                (s(a).plus(s(b)), a + b),
                (s(a).minus(s(b)), a - b),
            ];
            for (got, want) in cases {
                if want.is_nan() {
                    assert!(got.nan(), "{} {}", a, b);
                } else {
                    assert_eq!(got.bits, want.to_bits(), "{} {}", a, b);
                }
            }
            assert_eq!(s(a).gt(s(b)), a > b);
            assert_eq!(s(a).ge(s(b)), a >= b);
        }
    }
}

#[test]
fn conversions_are_those_of_single_precision() {
    for n in [0u64, 1, 2, 3, 100, 255, 16777216, 16777217, 16777219, u32::MAX as u64, u64::MAX] {
        assert_eq!(Single::from_u64(n).bits, (n as f32).to_bits());
    }
    for n in [0i32, 1, -1, 7, -255, i32::MAX, i32::MIN, 16777217, -16777219] {
        assert_eq!(Single::from_i32(n).bits, (n as f32).to_bits());
    }
    for x in samples() {
        assert_eq!(s(x).to_u32(), x as u32);
        assert_eq!(s(x).to_i32(), x as i32);
    }
    assert_eq!(s(f32::NAN).to_u32(), 0);
    assert_eq!(s(f32::NAN).to_i32(), 0);
}

#[test]
fn the_lesser_of_two() {
    assert_eq!(s(0.5).min(s(0.25)).bits, 0.25f32.to_bits());
    assert_eq!(s(0.25).min(s(0.5)).bits, 0.25f32.to_bits());
    assert_eq!(s(0.25).min(s(f32::NAN)).bits, 0.25f32.to_bits());
}
