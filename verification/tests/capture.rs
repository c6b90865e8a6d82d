use system_audio::apm::{Apm, APM_FRAME_SIZE};
use system_audio::capture::{
    emit_pcm_frame, take_frame, CaptureLoop, LoopScratch, APM_STREAM_DELAY_MS, DRAIN_TICK_MS,
    FRAME_SAMPLES, MAX_FRAMES_PER_TICK, TARGET_CHANNELS, TARGET_SAMPLE_RATE,
};
use system_audio::{CaptureOptions, FrameEvent, PcmSource};

fn quantise(sample: f32) -> i32 {
    (sample * 32_767.0) as i32
}

fn rms(samples: &[f32]) -> f32 {
    let sum_sq: f64 = samples.iter().map(|&s| (s as f64).powi(2)).sum();
    (sum_sq / samples.len() as f64).sqrt() as f32
}

fn close(current: f32, previous: f32) -> bool {
    previous.is_finite() && (current - previous).abs() < 0.005
}

/// `level_only` must not emit PCM, open loopback, or run APM: even when the
/// other flags are set, the stricter mode wins.
#[test]
fn level_only_never_emits_pcm() {
    let opts = CaptureOptions {
        loopback: true,
        processing: true,
        level_only: true,
    };
    assert!(!opts.emits_pcm());
    assert!(!opts.uses_apm());
    assert!(!opts.uses_loopback());
}

/// Defaults turn on the full pipeline.
#[test]
fn default_options_use_full_pipeline() {
    let opts = CaptureOptions::default();
    assert!(opts.emits_pcm());
    assert!(opts.uses_apm());
    assert!(opts.uses_loopback());
}

/// Mic-only + processing: PCM yes, APM yes, loopback no.
#[test]
fn mic_only_runs_apm_skips_loopback() {
    let opts = CaptureOptions {
        loopback: false,
        processing: true,
        level_only: false,
    };
    assert!(opts.emits_pcm());
    assert!(opts.uses_apm());
    assert!(!opts.uses_loopback());
}

/// LoopScratch preallocates all hot-path buffers.
#[test]
fn loop_scratch_preallocates_capacity() {
    let state: LoopScratch<f32> = LoopScratch::new();
    assert!(state.mic_frame.capacity() >= FRAME_SAMPLES);
    assert!(state.lp_frame.capacity() >= FRAME_SAMPLES);
    assert!(state.byte_scratch.capacity() >= FRAME_SAMPLES * 2);
    // Base64 expansion is 4/3, so FRAME_SAMPLES*2 bytes (640) -> ~854
    // chars. FRAME_SAMPLES * 3 (960) leaves comfortable headroom.
    assert!(state.b64_scratch.capacity() >= FRAME_SAMPLES * 8 / 3);
    assert_eq!(state.seq, 0);
}

/// The delay seed must stay within the tolerance of the echo canceller.
#[test]
fn apm_stream_delay_seed_unchanged() {
    assert_eq!(APM_STREAM_DELAY_MS, 150);
}

#[test]
fn frames_are_20ms_at_16khz() {
    assert_eq!(TARGET_SAMPLE_RATE, 16_000);
    assert_eq!(TARGET_CHANNELS, 1);
    assert_eq!(FRAME_SAMPLES, 320);
    assert_eq!(DRAIN_TICK_MS, 10);
    assert_eq!(MAX_FRAMES_PER_TICK as usize * FRAME_SAMPLES, 16_000);
}

#[test]
fn frame_is_taken_from_the_front() {
    let mut buf: Vec<i32> = (0..700).collect();
    let mut frame = vec![-1; 3];
    assert!(take_frame(&mut buf, &mut frame));
    assert_eq!(frame, (0..320).collect::<Vec<i32>>());
    assert!(take_frame(&mut buf, &mut frame));
    assert_eq!(frame, (320..640).collect::<Vec<i32>>());
    assert!(!take_frame(&mut buf, &mut frame));
    assert_eq!(frame, (320..640).collect::<Vec<i32>>());
    assert_eq!(buf, (640..700).collect::<Vec<i32>>());
}

/// However the buffer is filled, the frames and the rest are the stream.
#[test]
fn frames_tile_the_stream() {
    let mut buf: Vec<u32> = Vec::new();
    let mut frame = Vec::new();
    let mut framed: Vec<u32> = Vec::new();
    let mut next = 0u32;
    for chunk in [100u32, 0, 500, 319, 1, 1000, 7] {
        buf.extend(next..next + chunk);
        next += chunk;
        if take_frame(&mut buf, &mut frame) {
            framed.extend(&frame);
        }
    }
    assert_eq!(framed.len() % FRAME_SAMPLES, 0);
    framed.extend(&buf);
    assert_eq!(framed, (0..next).collect::<Vec<u32>>());
}

#[test]
fn samples_are_clipped_little_endian_base64() {
    let mut bytes = vec![1u8; 9];
    let mut text = String::from("old");
    let event: FrameEvent<f32> = emit_pcm_frame(
        7,
        PcmSource::Loopback,
        &[0.0, 1.0, -1.0, 2.0, -2.0, 0.5],
        &mut bytes,
        &mut text,
        &quantise,
    );
    assert_eq!(
        bytes,
        vec![0x00, 0x00, 0xff, 0x7f, 0x01, 0x80, 0xff, 0x7f, 0x00, 0x80, 0xff, 0x3f]
    );
    assert_eq!(text, "AAD/fwGA/38AgP8/");
    match event {
        FrameEvent::Pcm { seq, source, sample_rate, channels, samples_base64 } => {
            assert_eq!(seq, 7);
            assert_eq!(source, PcmSource::Loopback);
            assert_eq!(sample_rate, 16_000);
            assert_eq!(channels, 1);
            assert_eq!(samples_base64, "AAD/fwGA/38AgP8/");
        }
        other => panic!("unexpected event: {other:?}"),
    }
}

/// The padding of the text: two bytes to four symbols, four to eight.
#[test]
fn short_frames_are_padded_text() {
    for (samples, expected) in [
        (vec![], ""),
        (vec![258i32], "AgE="),
        (vec![258, 772], "AgEEAw=="),
        (vec![258, 772, -1], "AgEEA///"),
    ] {
        let mut bytes = Vec::new();
        let mut text = String::new();
        let _: FrameEvent<f32> =
            emit_pcm_frame(0, PcmSource::Mic, &samples, &mut bytes, &mut text, &|s: i32| s);
        assert_eq!(text, expected);
    }
}

fn symbol_value(symbol: u8) -> u32 {
    match symbol {
        b'A'..=b'Z' => (symbol - b'A') as u32,
        b'a'..=b'z' => (symbol - b'a') as u32 + 26,
        b'0'..=b'9' => (symbol - b'0') as u32 + 52,
        b'+' => 62,
        _ => 63,
    }
}

fn decode(text: &str) -> Vec<i16> {
    let mut bytes = Vec::new();
    for group in text.as_bytes().chunks(4) {
        let padding = group.iter().filter(|&&c| c == b'=').count();
        let value = group.iter().fold(0u32, |v, &c| v * 64 + if c == b'=' { 0 } else { symbol_value(c) });
        for k in 0..3 - padding {
            bytes.push((value >> (16 - 8 * k)) as u8);
        }
    }
    bytes.chunks_exact(2).map(|b| i16::from_le_bytes([b[0], b[1]])).collect()
}

/// A listener decodes the samples that went in, clipped.
#[test]
fn listener_gets_the_samples() {
    let samples: Vec<i32> = (-40_000..40_000).step_by(251).collect();
    let mut bytes = Vec::new();
    let mut text = String::new();
    let _: FrameEvent<f32> =
        emit_pcm_frame(0, PcmSource::Mic, &samples, &mut bytes, &mut text, &|s: i32| s);
    let expected: Vec<i16> = samples.iter().map(|s| (*s).clamp(-32_768, 32_767) as i16).collect();
    assert_eq!(decode(&text), expected);
}

fn tell_delay(mut log: Vec<String>, ms: i32) -> Vec<String> {
    log.push(format!("delay {ms}"));
    log
}

fn process_frame(
    capture: &mut CaptureLoop<f32, f32, Vec<String>>,
    now_ms: u128,
) -> Vec<FrameEvent<f32>> {
    // The events replace what the buffer held.
    let mut events = vec![FrameEvent::Level { mic_rms: -1.0, loopback_rms: -1.0 }; 5];
    capture.process_frame(
        now_ms,
        0.0,
        |mut log: Vec<String>, src: &[f32]| {
            log.push(format!("far {}", src[0]));
            (log, 0)
        },
        |mut log: Vec<String>, src: &[f32]| {
            log.push(format!("near {}", src[0]));
            let mut dest = [0.0f32; APM_FRAME_SIZE];
            for (d, s) in dest.iter_mut().zip(src) {
                *d = s / 2.0;
            }
            (log, 0, dest)
        },
        rms,
        close,
        quantise,
        &mut events,
    );
    events
}

fn pcm_of(event: &FrameEvent<f32>) -> (u64, PcmSource, Vec<i16>) {
    match event {
        FrameEvent::Pcm { seq, source, samples_base64, .. } => (*seq, *source, decode(samples_base64)),
        other => panic!("unexpected event: {other:?}"),
    }
}

/// The module is told the delay, the far end is fed before the near end is
/// cleaned, and what is emitted and measured has been cleaned.
#[test]
fn frame_goes_far_near_pcm_level() {
    let mut capture: CaptureLoop<f32, f32, Vec<String>> =
        CaptureLoop::new(CaptureOptions::default(), true, Some(Apm::Engine(Vec::new())), tell_delay);
    let mut mic = vec![0.5f32; 330];
    let mut lp = vec![0.25f32; 320];
    capture.begin_tick();
    assert!(capture.next_frame(&mut mic));
    capture.pair_loopback(&mut lp);
    assert_eq!(mic.len(), 10);
    assert_eq!(lp.len(), 0);
    let events = process_frame(&mut capture, 0);
    assert_eq!(events.len(), 3);
    assert_eq!(pcm_of(&events[0]), (0, PcmSource::Mic, vec![8191i16; 320]));
    assert_eq!(pcm_of(&events[1]), (0, PcmSource::Loopback, vec![8191i16; 320]));
    match events[2] {
        FrameEvent::Level { mic_rms, loopback_rms } => {
            assert_eq!(mic_rms, 0.25);
            assert_eq!(loopback_rms, 0.25);
        }
        _ => panic!("no level"),
    }
    match &capture.apm {
        Some(Apm::Engine(log)) => assert_eq!(
            log,
            &vec![
                "delay 150".to_string(),
                "far 0.25".to_string(),
                "far 0.25".to_string(),
                "near 0.5".to_string(),
                "near 0.5".to_string(),
            ]
        ),
        _ => panic!("the engine is gone"),
    }
    assert_eq!(capture.scratch.seq, 1);
    assert!(!capture.next_frame(&mut mic));
}

/// A missing loopback frame is no error: the microphone goes on alone.
#[test]
fn missing_loopback_frame_is_skipped() {
    let mut capture: CaptureLoop<f32, f32, Vec<String>> =
        CaptureLoop::new(CaptureOptions::default(), true, Some(Apm::Engine(Vec::new())), tell_delay);
    let mut mic = vec![0.5f32; 320];
    let mut lp = vec![0.25f32; 319];
    assert!(capture.next_frame(&mut mic));
    capture.pair_loopback(&mut lp);
    assert_eq!(lp.len(), 319);
    let events = process_frame(&mut capture, 0);
    assert_eq!(events.len(), 2);
    assert_eq!(pcm_of(&events[0]).1, PcmSource::Mic);
    assert!(matches!(events[1], FrameEvent::Level { loopback_rms, .. } if loopback_rms == 0.0));
    match &capture.apm {
        Some(Apm::Engine(log)) => {
            assert_eq!(log.join(", "), "delay 150, near 0.5, near 0.5")
        }
        _ => panic!("the engine is gone"),
    }
}

/// Without loopback the loopback buffer is left alone.
#[test]
fn no_loopback_takes_no_loopback_frame() {
    let options = CaptureOptions { loopback: false, processing: false, level_only: false };
    let mut capture: CaptureLoop<f32, f32, Vec<String>> = CaptureLoop::new(options, false, None, tell_delay);
    let mut mic = vec![0.5f32; 320];
    let mut lp = vec![0.25f32; 640];
    assert!(capture.next_frame(&mut mic));
    capture.pair_loopback(&mut lp);
    assert_eq!(lp.len(), 640);
    let events = process_frame(&mut capture, 0);
    assert_eq!(events.len(), 2);
    assert_eq!(pcm_of(&events[0]), (0, PcmSource::Mic, vec![16_383i16; 320]));
}

#[test]
fn level_only_emits_levels_only() {
    let options = CaptureOptions { loopback: true, processing: true, level_only: true };
    let mut capture: CaptureLoop<f32, f32, Vec<String>> = CaptureLoop::new(options, false, None, tell_delay);
    let mut mic = vec![0.5f32; 640];
    assert!(capture.next_frame(&mut mic));
    let first = process_frame(&mut capture, 0);
    assert_eq!(first.len(), 1);
    assert!(matches!(first[0], FrameEvent::Level { mic_rms, .. } if mic_rms == 0.5));
    assert!(capture.next_frame(&mut mic));
    assert_eq!(process_frame(&mut capture, 20).len(), 0);
}

/// Frames are numbered one after the other, and the number wraps.
#[test]
fn frames_are_numbered() {
    let mut capture: CaptureLoop<f32, f32, Vec<String>> =
        CaptureLoop::new(CaptureOptions::default(), false, None, tell_delay);
    capture.scratch.seq = u64::MAX - 1;
    let mut mic = vec![0.0f32; 960];
    let mut numbers = Vec::new();
    while capture.next_frame(&mut mic) {
        numbers.push(pcm_of(&process_frame(&mut capture, 0)[0]).0);
    }
    assert_eq!(numbers, vec![u64::MAX - 1, u64::MAX, 0]);
}

/// A tick takes a second of audio at most; the next tick goes on.
#[test]
fn tick_is_bounded() {
    let mut capture: CaptureLoop<f32, f32, Vec<String>> =
        CaptureLoop::new(CaptureOptions::default(), false, None, tell_delay);
    let mut mic = vec![0.0f32; 320 * 52];
    capture.begin_tick();
    let mut frames = 0;
    while capture.next_frame(&mut mic) {
        process_frame(&mut capture, 0);
        frames += 1;
    }
    assert_eq!(frames, 50);
    assert_eq!(mic.len(), 640);
    capture.begin_tick();
    assert!(capture.next_frame(&mut mic));
}

/// The delay is told once: later frames meet the engine that earlier ones
/// left.
#[test]
fn delay_is_told_once_before_frames() {
    let mut capture: CaptureLoop<f32, f32, Vec<String>> =
        CaptureLoop::new(CaptureOptions::default(), false, Some(Apm::Engine(Vec::new())), tell_delay);
    let mut mic = vec![0.5f32; 960];
    while capture.next_frame(&mut mic) {
        process_frame(&mut capture, 0);
    }
    match &capture.apm {
        Some(Apm::Engine(log)) => {
            assert_eq!(log[0], "delay 150");
            assert_eq!(log.len(), 7);
            assert!(log[1..].iter().all(|call| call == "near 0.5"));
        }
        _ => panic!("the engine is gone"),
    }
}

/// Over a whole capture a listener decodes the microphone's stream, and hears
/// each loopback sample once, however the buffers are filled.
#[test]
fn listener_hears_the_streams() {
    let mut capture: CaptureLoop<f32, f32, Vec<String>> =
        CaptureLoop::new(CaptureOptions::default(), true, None, tell_delay);
    let sample = |i: usize| ((i * 37) % 401) as f32 / 401.0 - 0.5;
    let (mut mic, mut lp) = (Vec::new(), Vec::new());
    let (mut mic_next, mut lp_next) = (0usize, 0usize);
    let (mut heard_mic, mut heard_lp) = (Vec::<i16>::new(), Vec::<i16>::new());
    let mut numbers = Vec::new();
    for (mic_chunk, lp_chunk) in [(100, 0), (700, 319), (13, 1), (320, 500), (1000, 200), (0, 900)] {
        mic.extend((mic_next..mic_next + mic_chunk).map(sample));
        mic_next += mic_chunk;
        lp.extend((lp_next..lp_next + lp_chunk).map(|i| -sample(i)));
        lp_next += lp_chunk;
        capture.begin_tick();
        while capture.next_frame(&mut mic) {
            capture.pair_loopback(&mut lp);
            for event in process_frame(&mut capture, 0) {
                if let FrameEvent::Pcm { .. } = event {
                    let (number, source, samples) = pcm_of(&event);
                    if source == PcmSource::Mic {
                        numbers.push(number);
                        heard_mic.extend(samples);
                    } else {
                        heard_lp.extend(samples);
                    }
                }
            }
        }
    }
    let wire = |s: f32| quantise(s) as i16;
    assert_eq!(numbers, (0..6).collect::<Vec<u64>>());
    assert_eq!(heard_mic, (0..6 * 320).map(|i| wire(sample(i))).collect::<Vec<i16>>());
    assert_eq!(heard_lp.len() % 320, 0);
    assert_eq!(heard_lp, (0..heard_lp.len()).map(|i| wire(-sample(i))).collect::<Vec<i16>>());
    assert_eq!(heard_lp.len() + lp.len(), lp_next);
}
