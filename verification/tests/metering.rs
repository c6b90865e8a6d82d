use system_audio::apm::APM_FRAME_SIZE;
use system_audio::metering::{rms, LevelThrottle, LEVEL_EMIT_INTERVAL_MS, RMS_DEDUPE_THOUSANDTHS};
use system_audio::FrameEvent;

fn close(current: i32, previous: i32) -> bool {
    (current - previous).abs() < RMS_DEDUPE_THOUSANDTHS as i32
}

fn offer(throttle: &mut LevelThrottle<i32>, now_ms: u128, mic: i32, lp: i32) -> bool {
    match throttle.offer(now_ms, mic, lp, close) {
        Some(FrameEvent::Level { mic_rms, loopback_rms }) => {
            assert_eq!((mic_rms, loopback_rms), (mic, lp));
            assert_eq!(throttle.last, Some((mic, lp)));
            assert_eq!(throttle.last_emit_at_ms, now_ms);
            true
        }
        Some(other) => panic!("unexpected event: {other:?}"),
        None => false,
    }
}

#[test]
fn thresholds_are_a_tenth_second_and_half_a_percent() {
    assert_eq!(LEVEL_EMIT_INTERVAL_MS, 100);
    assert_eq!(RMS_DEDUPE_THOUSANDTHS, 5);
}

#[test]
fn first_levels_are_emitted_at_once() {
    let mut throttle = LevelThrottle::new();
    assert!(offer(&mut throttle, 0, 0, 0));
}

/// Moved or not, no two levels come within the interval.
#[test]
fn levels_are_throttled() {
    let mut throttle = LevelThrottle::new();
    assert!(offer(&mut throttle, 1_000, 0, 0));
    assert!(!offer(&mut throttle, 1_010, 900, 0));
    assert!(!offer(&mut throttle, 1_099, 900, 0));
    assert!(offer(&mut throttle, 1_100, 900, 0));
    let mut emitted = Vec::new();
    for now in (1_110..2_500u128).step_by(10) {
        if offer(&mut throttle, now, now as i32, 0) {
            emitted.push(now);
        }
    }
    assert_eq!(emitted.first(), Some(&1_200));
    assert!(emitted.windows(2).all(|w| w[1] - w[0] == 100));
}

/// Levels that stay within the threshold of the last emitted ones are not
/// repeated, however long they stay; the threshold itself is a move.
#[test]
fn unmoved_levels_are_deduped() {
    let mut throttle = LevelThrottle::new();
    assert!(offer(&mut throttle, 0, 100, 50));
    assert!(!offer(&mut throttle, 200, 104, 50));
    assert!(!offer(&mut throttle, 5_000, 96, 54));
    assert!(offer(&mut throttle, 5_010, 105, 50));
    assert!(offer(&mut throttle, 5_110, 105, 45));
}

fn rms_f32(samples: &[f32]) -> f32 {
    rms(
        samples,
        0.0f64,
        0.0f32,
        |acc: f64, s: f32| acc + (s as f64).powi(2),
        |squares: f64, n: usize| (squares / n as f64).sqrt() as f32,
    )
}

/// A flat 0.5 (half-scale) input gives RMS = 0.5.
#[test]
fn rms_half_scale_constant_is_half() {
    let frame = vec![0.5f32; APM_FRAME_SIZE];
    let r = rms_f32(&frame);
    assert!(
        (r - 0.5).abs() < 0.01,
        "expected ~0.5 for half-scale, got {r}"
    );
}

#[test]
fn rms_is_the_root_of_the_mean_square() {
    assert_eq!(rms_f32(&[]), 0.0);
    assert_eq!(rms_f32(&[3.0, -3.0]), 3.0);
    assert_eq!(rms_f32(&[1.0, -7.0]), 5.0);
    let order = rms(
        &[1u64, 2, 3],
        9u64,
        0u64,
        |acc: u64, s: u64| acc * 10 + s,
        |sum: u64, n: usize| sum * 10 + n as u64,
    );
    assert_eq!(order, 91_233);
}
