use system_audio::mixer::{Mixer, DEFAULT_GAIN_TENTHS, HOLD_SAMPLES};

fn ratio(numerator: u32, denominator: u32) -> f32 {
    numerator as f32 / denominator as f32
}

fn weigh(mic: i16, mic_gain: f32, loopback: i16, loopback_gain: f32) -> i32 {
    (mic as f32 * mic_gain + loopback as f32 * loopback_gain) as i32
}

fn default_mixer() -> Mixer<f32> {
    Mixer::with_default_gains(ratio)
}

#[test]
fn default_gains_are_seven_tenths() {
    let mixer = default_mixer();
    assert_eq!(DEFAULT_GAIN_TENTHS, 7);
    assert_eq!(mixer.mic_gain, 0.7f32);
    assert_eq!(mixer.loopback_gain, 0.7f32);
    assert_eq!(mixer.drift_frames, 0);
}

#[test]
fn sample_and_hold_when_loopback_short() {
    let mut mixer = default_mixer();
    // First mix establishes the "last value" for both streams.
    let _ = mixer.mix(&vec![100i16; 160], &vec![500i16; 160], weigh);
    // Now mic delivers a full frame but loopback only 80 samples.
    let mic = vec![100i16; 160];
    let lp = vec![500i16; 80];
    let out = mixer.mix(&mic, &lp, weigh);
    assert_eq!(out.len(), 160);
    // The 80 trailing samples should use the held loopback value (500),
    // not zero: the additive mix on tail samples is (100+500)*.7.
    let expected = ((100.0f32 + 500.0) * 0.7).round() as i16;
    assert_eq!(out[100], expected);
    assert_eq!(out[159], expected);
}

#[test]
fn drift_counter_increments_on_large_misalignment() {
    let mut mixer = default_mixer();
    // 100ms mic vs only 32 samples of loopback: short by 1568, way over
    // HOLD_SAMPLES (160).
    let out = mixer.mix(&vec![0i16; 1600], &vec![0i16; 32], weigh);
    assert_eq!(out.len(), 1600);
    assert_eq!(mixer.drift_frames, 1);
}

/// Below-threshold drift does not count: it is jitter between periods.
#[test]
fn drift_counter_silent_on_jitter() {
    let mut mixer = default_mixer();
    // 1600 vs 1500: short by 100, well under HOLD_SAMPLES (160).
    let _ = mixer.mix(&vec![0i16; 1600], &vec![0i16; 1500], weigh);
    assert_eq!(mixer.drift_frames, 0);
    // Repeat: still no drift.
    let _ = mixer.mix(&vec![0i16; 1600], &vec![0i16; 1550], weigh);
    assert_eq!(mixer.drift_frames, 0);
}

/// Exactly the threshold is jitter; one more is drift, on either side.
#[test]
fn drift_starts_past_the_hold_length() {
    let mut mixer = default_mixer();
    let _ = mixer.mix(&vec![0i16; 200], &vec![0i16; 200 - HOLD_SAMPLES], weigh);
    assert_eq!(mixer.drift_frames, 0);
    let _ = mixer.mix(&vec![0i16; 200], &vec![0i16; 199 - HOLD_SAMPLES], weigh);
    assert_eq!(mixer.drift_frames, 1);
    let _ = mixer.mix(&vec![0i16; 199 - HOLD_SAMPLES], &vec![0i16; 200], weigh);
    assert_eq!(mixer.drift_frames, 2);
}

/// Empty loopback: the mix is still the mic frame, the hold falls back to 0.
#[test]
fn empty_loopback_yields_mic_only() {
    let mut mixer = default_mixer();
    let mic = vec![1000i16; 1600];
    let out = mixer.mix(&mic, &[], weigh);
    assert_eq!(out.len(), 1600);
    let expected = (1000.0 * 0.7) as i16;
    assert!(
        out.iter().all(|&s| (s - expected).abs() <= 1),
        "all samples should be ~700"
    );
}

/// Clip protection: gains of 0.7 + full-scale i16 = ~22937 each x2 =
/// 45874 -> clamp to 32767. No wrap.
#[test]
fn additive_mix_clamps_at_i16_max() {
    let mut mixer = default_mixer();
    let mic = vec![i16::MAX; 100];
    let lp = vec![i16::MAX; 100];
    let out = mixer.mix(&mic, &lp, weigh);
    for &s in &out {
        assert_eq!(s, i16::MAX);
    }
}

#[test]
fn additive_mix_clamps_at_i16_min() {
    let mut mixer = default_mixer();
    let out = mixer.mix(&[i16::MIN, -100], &[i16::MIN, 50], weigh);
    assert_eq!(out, vec![i16::MIN, -35]);
}

/// `mix_into` reuses the output buffer: it is resized in place and old
/// contents are overwritten (not appended).
#[test]
fn mix_into_reuses_buffer() {
    let mut mixer = default_mixer();
    let mut out = vec![999i16; 100]; // pre-existing garbage
    let mic = vec![10i16; 1600];
    let lp = vec![20i16; 1600];
    mixer.mix_into(&mic, &lp, &mut out, weigh);
    assert_eq!(out.len(), 1600);
    // First sample should be ~21 (10*.7 + 20*.7 = 21), NOT 999.
    let expected = ((10.0 + 20.0) * 0.7) as i16;
    assert_eq!(out[0], expected);
    // Capacity should be preserved/grown: no shrink.
    assert!(out.capacity() >= 1600);
}

/// The drift counter wraps rather than panics on overflow.
#[test]
fn drift_counter_wraps_safely() {
    let mut mixer = default_mixer();
    mixer.drift_frames = u64::MAX;
    let _ = mixer.mix(&vec![0i16; 1600], &vec![0i16; 0], weigh);
    assert_eq!(mixer.drift_frames, 0); // wrapping_add(1) on MAX = 0
}

/// A stream that was never heard is padded with silence, one that was heard
/// with its latest sample, also where its next frame is missing.
#[test]
fn missing_frame_is_held() {
    let sum = |a: i16, g: i32, b: i16, h: i32| a as i32 * g + b as i32 * h;
    let mut mixer = Mixer::new(1i32, 10i32);
    assert_eq!(mixer.mix(&[1, 2], &[], sum), vec![1, 2]);
    assert_eq!(mixer.mix(&[], &[3, 4], sum), vec![32, 42]);
    assert_eq!(mixer.mix(&[5, 6, 7], &[8], sum), vec![85, 86, 87]);
    assert_eq!(mixer.mix(&[9], &[], sum), vec![89]);
    assert_eq!(mixer.mix(&[], &[], sum), Vec::<i16>::new());
}

/// Two frames of one length, then two more, mix as the frames put together.
#[test]
fn mix_in_pieces_is_mix_at_once() {
    let mic: Vec<i16> = (0..40).map(|i| i * 700 - 9000).collect();
    let lp: Vec<i16> = (0..33).map(|i| 12000 - i * 650).collect();
    let mut whole = default_mixer();
    let mut cut = default_mixer();
    let at_once = whole.mix(&mic, &lp, weigh);
    let mut in_pieces = cut.mix(&mic[..20], &lp[..20], weigh);
    in_pieces.extend(cut.mix(&mic[20..], &lp[20..], weigh));
    assert_eq!(in_pieces, at_once);
    assert_eq!(cut.last_mic, whole.last_mic);
    assert_eq!(cut.last_loopback, whole.last_loopback);
}

/// Both sides are padded, clipped and counted alike: swapped streams give
/// one mix.
#[test]
fn swapped_streams_give_one_mix() {
    let a: Vec<i16> = (0..500).map(|i| (i * 131 - 32_000) as i16).collect();
    let b: Vec<i16> = (0..300).map(|i| (31_000 - i * 97) as i16).collect();
    let mut one = default_mixer();
    let mut other = default_mixer();
    for (x, y) in [
        (&a[..], &b[..]),
        (&b[..20], &a[..180]),
        (&a[..0], &b[..7]),
        (&a[7..9], &b[..0]),
    ] {
        assert_eq!(one.mix(x, y, weigh), other.mix(y, x, weigh));
        assert_eq!(one.drift_frames, other.drift_frames);
        assert_eq!((one.last_mic, one.last_loopback), (other.last_loopback, other.last_mic));
    }
    assert_eq!(one.drift_frames, 1);
}
