use zygdrum::arith::{divide, negate, round, sum, times};
use zygdrum::crush::crush;

/// A sequence of numbers without a visible pattern.
struct Dice(u64);

impl Dice {
    fn roll(&mut self) -> u32 {
        self.0 = self.0.wrapping_mul(6364136223846793005).wrapping_add(1442695040888963407);
        (self.0 >> 32) as u32
    }
}

#[test]
fn quotients_are_rounded_like_the_machine_does() {
    for d in 1..=300u16 {
        for n in 0..=600u16 {
            assert_eq!(f32::from_bits(divide(n, d)), n as f32 / d as f32, "{n} / {d}");
        }
    }
    let mut dice = Dice(1);
    for _ in 0..200_000 {
        let n = dice.roll() as u16;
        let d = dice.roll() as u16;
        if d != 0 {
            assert_eq!(f32::from_bits(divide(n, d)), n as f32 / d as f32, "{n} / {d}");
        }
    }
    assert_eq!(f32::from_bits(divide(65535, 1)), 65535.0);
    assert_eq!(f32::from_bits(divide(1, 65535)), 1.0 / 65535.0);
}

#[test]
fn sums_are_rounded_like_the_machine_does() {
    let mut dice = Dice(2);
    let top = 18446744073709551616.0f32;
    for _ in 0..400_000 {
        let x = f32::from_bits(dice.roll());
        let near = dice.roll() % 3 != 0;
        let y = if near {
            f32::from_bits((x.to_bits() & 0x7FFF_FFFF).wrapping_add(dice.roll() % 0x1000_0000) ^ (dice.roll() & 0x8000_0000))
        } else {
            f32::from_bits(dice.roll())
        };
        if x.abs() <= top && y.abs() <= top {
            assert_eq!(sum(x.to_bits(), y.to_bits()), (x + y).to_bits(), "{x:e} + {y:e}");
            assert_eq!(sum(y.to_bits(), x.to_bits()), (x + y).to_bits(), "{y:e} + {x:e}");
            assert_eq!(sum(x.to_bits(), negate(y.to_bits())), (x - y).to_bits(), "{x:e} - {y:e}");
        }
    }
}

#[test]
fn sums_of_zeros_and_of_opposites() {
    let samples = [0.0f32, -0.0, 1.0, -1.0, 1e-45, -1e-45, 1.1754944e-38, 16777216.0, 1.6, 0.05];
    for x in samples {
        for y in samples {
            assert_eq!(sum(x.to_bits(), y.to_bits()), (x + y).to_bits(), "{x} + {y}");
        }
        assert_eq!(negate(x.to_bits()), (-x).to_bits());
    }
}

#[test]
fn products_are_rounded_like_the_machine_does() {
    let mut dice = Dice(3);
    for _ in 0..200_000 {
        let x = f32::from_bits(dice.roll() % 0x3F80_0001);
        let shift = dice.roll() % 64;
        let n = (((dice.roll() as u64) << 32) | dice.roll() as u64) >> shift;
        assert_eq!(f32::from_bits(times(x.to_bits(), n)), x * n as f32, "{x:e} * {n}");
    }
    assert_eq!(f32::from_bits(times(1.0f32.to_bits(), u64::MAX)), u64::MAX as f32);
    assert_eq!(times(1.0f32.to_bits(), 0), 0);
    assert_eq!(times(1, 3), 3);
}

#[test]
fn numbers_are_rounded_to_whole_ones() {
    let mut dice = Dice(4);
    for _ in 0..200_000 {
        let x = f32::from_bits(dice.roll() % 0x7F80_0000);
        assert_eq!(round(x.to_bits()), x.round() as usize, "{x:e}");
    }
    for k in 0..400 {
        let x = k as f32 * 0.25;
        assert_eq!(round(x.to_bits()), x.round() as usize, "{x}");
    }
    assert_eq!(round(f32::MAX.to_bits()), usize::MAX);
    assert_eq!(round(0.49999997f32.to_bits()), 0);
    assert_eq!(round(0.5f32.to_bits()), 1);
}

fn machine_crush(x: f32, levels: f32) -> f32 {
    if levels >= 1.0 {
        (x * levels).round() / levels
    } else {
        x
    }
}

#[test]
fn samples_are_crushed_like_the_machine_does() {
    let mut dice = Dice(5);
    for levels in [0u32, 2048, 128, 32, 8, 4, 1, 2, 1024] {
        for turn in 0..60_000u32 {
            let x = if turn % 2 == 0 {
                f32::from_bits(dice.roll())
            } else {
                dice.roll() as i32 as f32 / 1e9
            };
            let got = crush(x.to_bits(), levels);
            let expected = machine_crush(x, levels as f32);
            if x.is_nan() {
                assert!(f32::from_bits(got).is_nan());
            } else {
                assert_eq!(got, expected.to_bits(), "{x:e} {levels}");
                assert_eq!(crush(got, levels), got);
            }
        }
    }
}

#[test]
fn crushing_rounds_halves_away_from_zero() {
    let cases = [
        (0.125f32, 4u32, 0.25f32),
        (-0.125, 4, -0.25),
        (0.1249, 4, 0.0),
        (-0.1, 4, -0.0),
        (0.3, 8, 0.25),
        (-0.0, 8, -0.0),
        (1.0, 32, 1.0),
        (0.7, 0, 0.7),
        (f32::INFINITY, 4, f32::INFINITY),
        (f32::MAX, 4, f32::INFINITY),
        (-f32::MAX, 2048, f32::NEG_INFINITY),
    ];
    for (x, levels, expected) in cases {
        assert_eq!(crush(x.to_bits(), levels), expected.to_bits(), "{x} {levels}");
    }
}
