use system_audio::resampler::{design_lpf, mixdown, Fraction, Linear, FILTER_TAPS};

fn average(frame: &[f32]) -> f32 {
    frame.iter().sum::<f32>() * (1.0 / frame.len() as f32)
}

fn mac(acc: f32, sample: f32, coefficient: f32) -> f32 {
    acc + sample * coefficient
}

fn lerp(a: f32, b: f32, fraction: Fraction) -> f32 {
    a + (b - a) * (fraction.units as f64 / fraction.of as f64) as f32
}

/// A Hamming-windowed sinc, cut off at 0.4 times the Nyquist frequency of
/// the output.
fn tap(in_rate: u32, out_rate: u32, offset: i32) -> f32 {
    let cutoff = 0.4 * (out_rate as f32 / in_rate as f32);
    let sinc = if offset == 0 {
        cutoff
    } else {
        let x = std::f32::consts::PI * offset as f32;
        (cutoff * x).sin() / x
    };
    let i = (offset + FILTER_TAPS as i32 / 2) as f32;
    let window = 0.54 - 0.46 * (2.0 * std::f32::consts::PI * i / (FILTER_TAPS as f32 - 1.0)).cos();
    sinc * window
}

fn normalise(tap: f32, total: f32) -> f32 {
    if total.abs() > 1e-6 {
        tap / total
    } else {
        tap
    }
}

fn lpf(in_rate: u32, out_rate: u32) -> [f32; FILTER_TAPS] {
    design_lpf(in_rate, out_rate, 0.0f32, tap, |a: f32, b: f32| a + b, normalise)
}

fn linear(in_rate: u32, out_rate: u32, in_channels: u16) -> Linear<f32> {
    Linear::new(in_rate, out_rate, in_channels, 1, 0.0f32, lpf)
}

fn process(r: &mut Linear<f32>, samples: &[f32]) -> Vec<f32> {
    r.process(samples, average, mac, lerp)
}

/// The LPF passes DC approximately unchanged.
#[test]
fn lpf_unity_dc_gain() {
    let mut r = linear(48_000, 16_000, 1);
    let samples = vec![0.25f32; 100];
    let out = process(&mut r, &samples);
    let avg = out.iter().rev().take(10).copied().sum::<f32>() / 10.0;
    assert!((avg - 0.25).abs() < 0.01, "dc gain off: {avg}");
}

/// 48k to 16k: the output length is ~1/3 of the input's.
#[test]
fn downsample_48k_to_16k() {
    let mut r = linear(48_000, 16_000, 1);
    let samples = vec![0.0f32; 4800];
    let out = process(&mut r, &samples);
    assert!(
        out.len() >= 1500 && out.len() <= 1700,
        "out len {} not ~1600",
        out.len()
    );
}

/// 44.1k to 16k: silence gives no ringing and no DC bias.
#[test]
fn downsample_44100_to_16k_no_aliasing() {
    let mut r = linear(44_100, 16_000, 1);
    let samples = vec![0.0f32; 8820];
    let out = process(&mut r, &samples);
    assert!(out.len() >= 3000 && out.len() <= 3400);
    let max_abs = out.iter().map(|s| s.abs()).fold(0.0f32, f32::max);
    assert!(
        max_abs <= 1e-4,
        "silence in → silence out, got max={max_abs}"
    );
}

/// Stereo to mono: take L. L=R=0.5 gives 0.5.
#[test]
fn stereo_mixdown_takes_left() {
    let mut r = linear(16_000, 16_000, 2);
    let samples: Vec<f32> = (0..16).map(|_| 0.5f32).collect();
    let out = process(&mut r, &samples);
    assert_eq!(out.len(), 8);
    for &s in &out {
        assert!((s - 0.5).abs() < 1e-3, "expected 0.5 (L), got {s}");
    }
}

/// Stereo with L=0.5 R=-0.5: the output is just L = 0.5.
#[test]
fn stereo_mixdown_ignores_right() {
    let mut r = linear(16_000, 16_000, 2);
    let mut samples: Vec<f32> = Vec::with_capacity(16);
    for _ in 0..8 {
        samples.push(0.5);
        samples.push(-0.5);
    }
    let out = process(&mut r, &samples);
    assert_eq!(out.len(), 8);
    for &s in &out {
        assert!((s - 0.5).abs() < 1e-6, "expected L=0.5, got {s}");
    }
}

/// No resample, mono: pass-through, without the FIR.
#[test]
fn passthrough_mono_no_resample() {
    let mut r = linear(16_000, 16_000, 1);
    let samples: Vec<f32> = (0..1600).map(|i| (i as f32 / 1000.0) - 0.8).collect();
    let out = process(&mut r, &samples);
    assert_eq!(out, samples);
}

/// A device that reports no channels is mono.
#[test]
fn no_channels_is_mono() {
    let mut r = linear(16_000, 16_000, 0);
    assert_eq!(process(&mut r, &[0.1, 0.2, 0.3]), vec![0.1, 0.2, 0.3]);
}

#[test]
fn surround_is_averaged_and_partial_frames_drop() {
    let mono = mixdown(
        &[1.0f32, 2.0, 3.0, 4.0, 4.0, 4.0, 4.0, 4.0, 9.0],
        4,
        &average,
    );
    assert_eq!(mono, vec![2.5, 4.0]);
    let stereo = mixdown(&[1.0f32, 2.0, 3.0], 2, &average);
    assert_eq!(stereo, vec![1.0]);
}

/// At a whole ratio the length is exactly one output for each `c` samples,
/// rounded up.
#[test]
fn whole_ratio_length_is_exact() {
    for (len, expected) in [(0usize, 0usize), (1, 1), (3, 1), (4, 2), (4800, 1600), (4801, 1601)] {
        let mut r = linear(48_000, 16_000, 1);
        assert_eq!(process(&mut r, &vec![0.5f32; len]).len(), expected);
    }
}

/// The walk is that of a double that is advanced by the quotient of the
/// rates, block after block, to the last bit.
#[test]
fn walk_is_that_of_a_double() {
    for (in_rate, out_rate) in [
        (44_100u32, 16_000u32),
        (22_050, 16_000),
        (11_025, 16_000),
        (8_000, 48_000),
        (192_000, 16_000),
        (44_101, 7),
        (3, 7),
    ] {
        // An identity filter leaves only the walk to compare.
        let identity = |_: u32, _: u32| {
            let mut coeffs = [0.0f32; FILTER_TAPS];
            coeffs[FILTER_TAPS - 1] = 1.0;
            coeffs
        };
        let mut r = Linear::new(in_rate, out_rate, 1, 1, 0.0f32, identity);
        let step = in_rate as f64 / out_rate as f64;
        let mut pos = 0.0f64;
        let mut last = 0.0f32;
        for block in 0..60usize {
            let samples: Vec<f32> = (0..block * 7 % 97)
                .map(|i| ((i * 31 + block * 17) % 101) as f32 / 101.0 - 0.5)
                .collect();
            let mut expected: Vec<f32> = Vec::new();
            while pos < samples.len() as f64 {
                let i = pos.floor() as usize;
                let frac = (pos - i as f64) as f32;
                let a = if i == 0 { last } else { samples[i - 1] };
                let b = samples[i];
                expected.push(a + (b - a) * frac);
                pos += step;
            }
            pos -= samples.len() as f64;
            if let Some(&s) = samples.last() {
                last = s;
            }
            assert_eq!(process(&mut r, &samples), expected, "{in_rate} to {out_rate}");
        }
    }
}

/// The filter is a dot product of the last samples, oldest first, with the
/// coefficients.
#[test]
fn filter_sees_the_last_samples() {
    let ramp = |_: u32, _: u32| {
        let mut coeffs = [0i64; FILTER_TAPS];
        for (i, c) in coeffs.iter_mut().enumerate() {
            *c = i as i64 + 1;
        }
        coeffs
    };
    let mut r = Linear::new(2, 1, 1, 1, 0i64, ramp);
    let samples: Vec<i64> = (0..300).map(|i| (i * 37 + 11) % 101 - 50).collect();
    let mut filtered: Vec<i64> = Vec::new();
    for k in 0..samples.len() {
        let mut acc = 0i64;
        for j in 0..FILTER_TAPS {
            let at = k as isize + 1 - FILTER_TAPS as isize + j as isize;
            if at >= 0 {
                acc += samples[at as usize] * (j as i64 + 1);
            }
        }
        filtered.push(acc);
    }
    // On a whole ratio each output is the sample before its position.
    let mut expected: Vec<i64> = vec![0];
    let mut i = 2usize;
    while i < filtered.len() {
        expected.push(filtered[i - 1]);
        i += 2;
    }
    let out = r.process(
        &samples,
        |frame: &[i64]| frame[0],
        |acc: i64, s: i64, c: i64| acc + s * c,
        |a: i64, b: i64, f: Fraction| a + (b - a) * f.units as i64 / f.of as i64,
    );
    assert_eq!(out, expected);
}

/// A stream in pieces comes out as it does at once where the ratio is whole.
#[test]
fn stream_in_pieces_is_stream_at_once() {
    let samples: Vec<f32> = (0..999).map(|i| ((i * 29) % 64) as f32 / 64.0 - 0.5).collect();
    let mut whole = linear(48_000, 16_000, 1);
    let mut cut = linear(48_000, 16_000, 1);
    let at_once = process(&mut whole, &samples);
    let mut in_pieces = Vec::new();
    for piece in samples.chunks(70) {
        in_pieces.extend(process(&mut cut, piece));
    }
    assert_eq!(in_pieces, at_once);
}

/// An output rate of zero gives one output and then none.
#[test]
fn no_output_rate_gives_one_output() {
    let mut r = linear(16_000, 0, 1);
    assert_eq!(process(&mut r, &[]).len(), 0);
    assert_eq!(process(&mut r, &[0.5; 8]), vec![0.0]);
    assert_eq!(process(&mut r, &[0.5; 8]).len(), 0);
}

/// Two rates of zero are equal rates.
#[test]
fn no_rates_pass_through() {
    let mut r = linear(0, 0, 1);
    assert_eq!(process(&mut r, &[0.5, 0.25]), vec![0.5, 0.25]);
}

/// The filter is symmetric around its middle tap and sums to one.
#[test]
fn filter_is_symmetric_with_unity_gain() {
    let coeffs = lpf(48_000, 16_000);
    for i in 0..FILTER_TAPS {
        assert!((coeffs[i] - coeffs[FILTER_TAPS - 1 - i]).abs() < 1e-6);
        assert!(coeffs[i] <= coeffs[FILTER_TAPS / 2]);
    }
    assert!((coeffs.iter().sum::<f32>() - 1.0).abs() < 1e-4);
}

/// Taps lie at the offsets -64 to 64, and each is normalised by their sum.
#[test]
fn taps_are_normalised_by_their_sum() {
    let coeffs = design_lpf(
        3,
        2,
        1_000i64,
        |in_rate: u32, out_rate: u32, offset: i32| (in_rate - out_rate) as i64 * offset as i64 + 1,
        |a: i64, b: i64| a + b,
        |tap: i64, total: i64| tap * 10_000 + total,
    );
    for i in 0..FILTER_TAPS {
        assert_eq!(coeffs[i], (i as i64 - 63) * 10_000 + 1_129);
    }
}

/// Over any row of calls at a whole ratio `n` frames give `n / c` outputs,
/// rounded up; at other ratios the count strays by less than one output.
#[test]
fn total_length_does_not_depend_on_the_cuts() {
    for chunk in [1usize, 2, 7, 480, 1000] {
        let mut whole = linear(48_000, 16_000, 2);
        let mut other = linear(44_100, 16_000, 1);
        let (mut n, mut o, mut p) = (0usize, 0usize, 0usize);
        while n < 3_000 {
            o += process(&mut whole, &vec![0.5f32; 2 * chunk]).len();
            p += process(&mut other, &vec![0.5f32; chunk]).len();
            n += chunk;
            assert!(n <= 3 * o && 3 * o < n + 3);
            let exact = n as f64 * 16_000.0 / 44_100.0;
            assert!((p as f64 - exact).abs() <= 1.0);
        }
    }
}

/// A block without a whole frame gives nothing and changes nothing.
#[test]
fn empty_block_changes_nothing() {
    let mut with = linear(44_100, 16_000, 2);
    let mut without = linear(44_100, 16_000, 2);
    for block in 0..20usize {
        let samples: Vec<f32> = (0..2 * block).map(|i| (i % 5) as f32 / 5.0).collect();
        assert_eq!(process(&mut with, &[]).len(), 0);
        assert_eq!(process(&mut with, &[0.9]).len(), 0);
        assert_eq!(process(&mut with, &samples), process(&mut without, &samples));
    }
}
