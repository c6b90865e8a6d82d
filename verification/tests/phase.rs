use system_audio::phase::{round, Step};

/// Rounding is that of a double, ties to even included.
#[test]
fn rounding_is_that_of_a_double() {
    let two53 = 1u128 << 53;
    for x in [
        0u128,
        1,
        two53 - 1,
        two53,
        two53 + 1,
        two53 + 2,
        two53 + 3,
        2 * two53 - 1,
        2 * two53 + 2,
        2 * two53 + 6,
        4 * two53 - 1,
        (1u128 << 100) + 12345,
        (1u128 << 103) - 1,
    ] {
        assert_eq!(round(x), x as f64 as u128, "{x}");
    }
    let mut x = 3u128;
    for _ in 0..2_000 {
        x = (x * 6_364_136_223_846_793_005 + 1_442_695_040_888_963_407) % (1u128 << 104);
        assert_eq!(round(x), x as f64 as u128, "{x}");
    }
}

/// The step is the double quotient of the rates.
#[test]
fn step_is_the_double_quotient() {
    for (in_rate, out_rate) in [
        (48_000u32, 16_000u32),
        (44_100, 16_000),
        (16_000, 44_100),
        (1, u32::MAX),
        (u32::MAX, 1),
        (u32::MAX, 3),
        (2, 3),
    ] {
        let step = Step::between(in_rate, out_rate);
        assert_eq!(
            step.units as f64 / step.scale as f64,
            in_rate as f64 / out_rate as f64,
            "{in_rate}/{out_rate}"
        );
        assert_eq!(step.scale, 1u128 << step.bits);
    }
}
