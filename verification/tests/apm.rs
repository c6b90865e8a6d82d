use system_audio::apm::{
    candidate_paths, find_library, lib_name, open, resources_dir, set_lib_path, teardown, Apm,
    ApmCall, ApmSetup, LibPath, ProgramPaths, SetupFailure, APM_FRAME_SIZE, APM_PLAYBACK_DELAY_MS,
    APM_SAMPLE_RATE,
};

/// `open` is the entry point. Where the platform has no module it errs
/// cleanly, with a message that is not empty.
#[test]
fn apm_open_returns_either_ok_or_err() {
    let res = open(|| None::<Result<(), String>>);
    match res {
        Ok(_apm) => {}
        Err(e) => {
            let msg = e.to_string();
            assert!(!msg.is_empty(), "error message must not be empty");
        }
    }
}

#[test]
fn apm_open_hands_on_what_was_loaded() {
    assert!(matches!(open(|| Some(Ok(7u8))), Ok(Apm::Engine(7))));
    let failed: Result<Apm<u8>, String> = open(|| Some(Err("no symbol".to_string())));
    assert_eq!(failed.err().as_deref(), Some("no symbol"));
    let absent: Result<Apm<u8>, String> = open(|| None);
    assert_eq!(
        absent.err().as_deref(),
        Some("APM not used on this platform (Apple VPIO handles AEC + NS on macOS)")
    );
}

/// 160 samples = 10ms @ 16kHz.
#[test]
fn apm_frame_size_is_10ms_at_16khz() {
    assert_eq!(APM_FRAME_SIZE, 160);
    assert_eq!(APM_SAMPLE_RATE, 16_000);
    // 160 samples / 16000 Hz = 10ms exactly.
    let ms = (APM_FRAME_SIZE as f32 / APM_SAMPLE_RATE as f32) * 1000.0;
    assert!((ms - 10.0).abs() < 0.001, "frame must be 10ms, got {ms}ms");
}

/// Without an engine `process_near` is a no-op: the frame comes out
/// unchanged.
#[test]
fn apm_stub_is_passthrough() {
    let mut apm: Apm<()> = Apm::Passthrough;
    let mut frame = vec![0.25f32; APM_FRAME_SIZE];
    let original = frame.clone();
    let rc = apm.process_near(&mut frame, &|engine: (), _: &[f32]| {
        (engine, -1, [0.0f32; APM_FRAME_SIZE])
    });
    assert_eq!(rc, 0);
    assert_eq!(frame, original, "stub must not modify near-end frame");
    assert_eq!(apm.process_far(&frame, &|engine: (), _: &[f32]| (engine, -1)), 0);
    apm.set_stream_delay_ms(150, |engine: (), _: i32| engine);
    assert!(matches!(apm, Apm::Passthrough));
}

/// Near: each whole block is replaced, first to last; the rest is untouched.
#[test]
fn near_end_goes_through_in_blocks() {
    let mut apm = Apm::Engine(0i32);
    let mut frame: Vec<i32> = (0..400).collect();
    let rc = apm.process_near(&mut frame, &|calls: i32, src: &[i32]| {
        let mut dest = [0i32; APM_FRAME_SIZE];
        for (d, s) in dest.iter_mut().zip(src) {
            *d = -*s - 1000 * calls;
        }
        (calls + 1, 10 + calls, dest)
    });
    assert_eq!(rc, 11);
    assert!(matches!(apm, Apm::Engine(2)));
    for i in 0..400i32 {
        let expected = if i < 160 {
            -i
        } else if i < 320 {
            -i - 1000
        } else {
            i
        };
        assert_eq!(frame[i as usize], expected);
    }
}

/// Far: each whole block is handed over in order; a partial one is ignored.
#[test]
fn far_end_goes_through_in_blocks() {
    let mut apm = Apm::Engine(Vec::<i32>::new());
    let frame: Vec<i32> = (0..479).collect();
    let rc = apm.process_far(&frame, &|mut seen: Vec<i32>, src: &[i32]| {
        assert_eq!(src.len(), APM_FRAME_SIZE);
        seen.push(src[0]);
        let code = src[0] - 200;
        (seen, code)
    });
    assert_eq!(rc, -40);
    assert!(matches!(apm, Apm::Engine(seen) if seen == vec![0, 160]));
}

/// No whole block, no call, and success is reported.
#[test]
fn short_frame_is_not_processed() {
    let mut apm = Apm::Engine(());
    let mut frame = vec![1i32; 159];
    let rc = apm.process_near(&mut frame, &|engine: (), _: &[i32]| (engine, 5, [0; APM_FRAME_SIZE]));
    assert_eq!(rc, 0);
    assert_eq!(frame, vec![1i32; 159]);
}

#[test]
fn delay_is_handed_on() {
    let mut apm = Apm::Engine(0);
    apm.set_stream_delay_ms(180, |_: i32, ms: i32| ms);
    assert!(matches!(apm, Apm::Engine(180)));
}

#[test]
fn library_and_resources_are_named() {
    assert_eq!(lib_name(), "webrtc-apm.dll");
    assert_eq!(resources_dir(), "resources");
}

#[test]
fn candidates_are_listed_in_order() {
    let mut path = LibPath::default();
    assert_eq!(candidate_paths(&path, None), vec!["webrtc-apm.dll".to_string()]);
    set_lib_path(&mut path, "first.dll".to_string());
    set_lib_path(&mut path, "app/own.dll".to_string());
    let program = ProgramPaths {
        beside: "bin/webrtc-apm.dll".to_string(),
        resources: "bin/resources/webrtc-apm.dll".to_string(),
    };
    assert_eq!(
        candidate_paths(&path, Some(program)),
        vec![
            "app/own.dll".to_string(),
            "webrtc-apm.dll".to_string(),
            "bin/webrtc-apm.dll".to_string(),
            "bin/resources/webrtc-apm.dll".to_string(),
        ]
    );
}

#[test]
fn first_library_that_opens_is_taken() {
    let places = vec!["a".to_string(), "b".to_string(), "c".to_string()];
    let found = find_library(&places, |place: &String| {
        if place == "a" {
            Err("missing".to_string())
        } else {
            Ok(place.clone())
        }
    });
    assert_eq!(found, Ok("b".to_string()));
}

#[test]
fn library_that_is_nowhere_is_reported() {
    let places: Vec<String> = (0..12).map(|i| format!("p{i}")).collect();
    let found: Result<(), String> = find_library(&places, |_: &String| Err("missing".to_string()));
    assert_eq!(
        found,
        Err("webrtc-apm.dll not found (tried 12 candidates) — last error: p11: missing".to_string())
    );
    let none: Result<(), String> = find_library(&Vec::new(), |_: &String| Err("x".to_string()));
    assert_eq!(
        none,
        Err("webrtc-apm.dll not found (tried 0 candidates) — last error: <none>".to_string())
    );
}

fn run_setup(replies: &[(ApmCall, i32)]) -> (ApmSetup, Vec<ApmCall>) {
    let mut setup = ApmSetup::start();
    let mut calls = Vec::new();
    while let Some(call) = setup.call() {
        calls.push(call);
        let reply = replies
            .iter()
            .find(|(c, _)| *c == call)
            .map(|(_, r)| *r)
            .unwrap_or(match call {
                ApmCall::Create | ApmCall::CreateConfig | ApmCall::CreateStreamConfig { .. } => 1,
                _ => 0,
            });
        setup = setup.replied(reply);
    }
    (setup, calls)
}

/// Echo cancellation on, noise suppression low, all else off, 16 kHz mono.
#[test]
fn smooth_setup_makes_all_calls() {
    let (setup, calls) = run_setup(&[]);
    assert_eq!(setup, ApmSetup::Ready);
    assert_eq!(
        calls,
        vec![
            ApmCall::Create,
            ApmCall::CreateConfig,
            ApmCall::SetEchoCanceller { enabled: 1, mobile_mode: 0 },
            ApmCall::SetNoiseSuppression { enabled: 1, level: 0 },
            ApmCall::SetHighPassFilter { enabled: 0 },
            ApmCall::SetGainController1 {
                enabled: 0,
                mode: 1,
                target_level_dbfs: 3,
                compression_gain_db: 9,
                enable_limiter: 1,
            },
            ApmCall::SetGainController2 { enabled: 0 },
            ApmCall::SetPipeline {
                max_internal_rate: 16_000,
                multi_channel_render: 0,
                multi_channel_capture: 0,
                capture_downmix: 0,
            },
            ApmCall::ApplyConfig,
            ApmCall::DestroyConfig,
            ApmCall::Initialize,
            ApmCall::CreateStreamConfig { sample_rate_hz: 16_000, num_channels: 1 },
            ApmCall::SetStreamDelay { delay_ms: 150 },
        ]
    );
    assert_eq!(APM_PLAYBACK_DELAY_MS, 150);
}

/// Each failure destroys what was created, and says what failed.
#[test]
fn failed_setup_cleans_up() {
    let stream = ApmCall::CreateStreamConfig { sample_rate_hz: 16_000, num_channels: 1 };
    for (call, reply, failure, message, destroys) in [
        (
            ApmCall::Create,
            0,
            SetupFailure::NoHandle,
            "webrtc_apm_create returned null",
            0,
        ),
        (
            ApmCall::CreateConfig,
            0,
            SetupFailure::NoConfig,
            "webrtc_apm_config_create returned null",
            1,
        ),
        (
            ApmCall::ApplyConfig,
            -7,
            SetupFailure::ApplyConfig(-7),
            "webrtc_apm_apply_config returned -7",
            1,
        ),
        (
            ApmCall::Initialize,
            i32::MIN,
            SetupFailure::Initialize(i32::MIN),
            "webrtc_apm_initialize returned -2147483648",
            1,
        ),
        (
            stream,
            0,
            SetupFailure::NoStreamConfig,
            "webrtc_apm_stream_config_create returned null",
            1,
        ),
    ] {
        let (setup, calls) = run_setup(&[(call, reply)]);
        assert_eq!(setup, ApmSetup::Failed(failure));
        assert_eq!(failure.message(), message);
        let count = |wanted: ApmCall| calls.iter().filter(|c| **c == wanted).count();
        assert_eq!(count(ApmCall::Destroy), destroys);
        assert_eq!(
            count(ApmCall::DestroyConfig),
            if call == ApmCall::Create || call == ApmCall::CreateConfig { 0 } else { 1 }
        );
        assert_eq!(setup.replied(1), setup);
    }
}

#[test]
fn teardown_frees_the_stream_first() {
    assert_eq!(teardown(), [ApmCall::DestroyStreamConfig, ApmCall::Destroy]);
}
