use system_audio::device::{OpenFailure, OpenReply, OpenStep, SampleFormat, SampleKind};
use system_audio::loopback::{try_start, LoopbackStream};
use system_audio::startup::{
    config_error, mic_error, shutdown, ShutdownStep, StartupFailure, StartupReply, StartupStep,
};
use system_audio::{CaptureOptions, Error};

fn options(loopback: bool, processing: bool, level_only: bool) -> CaptureOptions {
    CaptureOptions { loopback, processing, level_only }
}

fn steps(options: CaptureOptions, replies: Vec<StartupReply>) -> Vec<String> {
    let mut step = StartupStep::start();
    let mut seen = vec![format!("{step:?}")];
    for reply in replies {
        step = step.replied(options, reply);
        seen.push(format!("{step:?}"));
    }
    seen
}

fn done(n: usize) -> Vec<StartupReply> {
    (0..n).map(|_| StartupReply::Done).collect()
}

#[test]
fn full_start_opens_everything_in_order() {
    assert_eq!(
        steps(CaptureOptions::default(), done(4)),
        vec![
            "CheckPermission",
            "OpenMic",
            "OpenLoopback",
            "OpenApm { has_loopback: true }",
            "Run { has_loopback: true, has_apm: true }",
        ]
    );
}

#[test]
fn options_leave_parts_out() {
    let end = |o: CaptureOptions, n: usize| steps(o, done(n)).last().cloned();
    assert_eq!(
        end(options(false, true, false), 2).as_deref(),
        Some("OpenApm { has_loopback: false }")
    );
    assert_eq!(
        end(options(true, false, false), 3).as_deref(),
        Some("Run { has_loopback: true, has_apm: false }")
    );
    assert_eq!(
        end(options(false, false, false), 2).as_deref(),
        Some("Run { has_loopback: false, has_apm: false }")
    );
    assert_eq!(
        end(options(true, true, true), 2).as_deref(),
        Some("Run { has_loopback: false, has_apm: false }")
    );
}

/// Loopback and processing that are not to be had are done without.
#[test]
fn optional_parts_degrade() {
    let replies = vec![
        StartupReply::Done,
        StartupReply::Done,
        StartupReply::Unavailable,
        StartupReply::Unavailable,
    ];
    assert_eq!(
        steps(CaptureOptions::default(), replies).last().map(String::as_str),
        Some("Run { has_loopback: false, has_apm: false }")
    );
}

#[test]
fn denied_permission_ends_the_start() {
    let step = StartupStep::start()
        .replied(CaptureOptions::default(), StartupReply::Denied("off".to_string()))
        .replied(CaptureOptions::default(), StartupReply::Done);
    match step {
        StartupStep::Fail(failure) => {
            let err = failure.error();
            assert_eq!(err.category(), "permission");
            assert_eq!(err.message(), "audio permission denied: off");
        }
        other => panic!("unexpected step: {other:?}"),
    }
}

#[test]
fn missing_microphone_ends_the_start() {
    let step = StartupStep::start()
        .replied(CaptureOptions::default(), StartupReply::Done)
        .replied(CaptureOptions::default(), StartupReply::Mic(OpenFailure::NoDevice));
    match step {
        StartupStep::Fail(failure) => {
            assert_eq!(failure.error().message(), "audio device error: no default input device");
        }
        other => panic!("unexpected step: {other:?}"),
    }
}

#[test]
fn microphone_errors_are_named() {
    let message = |failure: OpenFailure| mic_error(failure).message();
    assert_eq!(
        message(OpenFailure::Config("busy".to_string())),
        "audio device error: default input config: busy"
    );
    assert_eq!(
        message(OpenFailure::Format("F64".to_string())),
        "audio device error: unsupported sample format"
    );
    assert_eq!(message(OpenFailure::Build("b".to_string())), "audio device error: b");
    assert_eq!(message(OpenFailure::Play("p".to_string())), "audio device error: p");
    let denied = StartupFailure::Mic(OpenFailure::Config("Access is refused".to_string())).error();
    assert_eq!(denied.category(), "permission");
}

/// A refused configuration that tells of a permission is a permission error.
#[test]
fn config_error_tells_permission_from_device() {
    for text in ["no permission to record", "Access", "it was denied", "denied"] {
        match config_error(text.to_string()) {
            Error::Permission(cause) => assert_eq!(cause, text),
            other => panic!("unexpected error: {other:?}"),
        }
    }
    for text in ["", "Permission", "access", "Denied", "permissio"] {
        match config_error(text.to_string()) {
            Error::Device(cause) => assert_eq!(cause, format!("default input config: {text}")),
            other => panic!("unexpected error: {other:?}"),
        }
    }
}

#[test]
fn stream_is_opened_step_by_step() {
    for kind in [SampleKind::F32, SampleKind::I16, SampleKind::U16] {
        let build = OpenStep::start()
            .replied(OpenReply::Done)
            .replied(OpenReply::Config(SampleFormat::Known(kind)));
        assert!(matches!(build, OpenStep::Build(k) if k == kind));
        let opened = build.replied(OpenReply::Done).replied(OpenReply::Done);
        assert!(matches!(opened, OpenStep::Opened));
        assert!(matches!(opened.replied(OpenReply::NoDevice), OpenStep::Opened));
    }
}

#[test]
fn stream_failures_are_named() {
    let fail = |replies: Vec<OpenReply>| {
        let mut step = OpenStep::start();
        for reply in replies {
            step = step.replied(reply);
        }
        match step {
            OpenStep::Failed(failure) => failure.loopback_message(),
            other => panic!("unexpected step: {other:?}"),
        }
    };
    let known = || OpenReply::Config(SampleFormat::Known(SampleKind::I16));
    let refused = || OpenReply::Refused("why".to_string());
    assert_eq!(
        fail(vec![OpenReply::NoDevice]),
        "no default output device for WASAPI loopback"
    );
    assert_eq!(fail(vec![OpenReply::Done, refused()]), "default_output_config: why");
    assert_eq!(
        fail(vec![
            OpenReply::Done,
            OpenReply::Config(SampleFormat::Other("F64".to_string()))
        ]),
        "unsupported loopback sample format: F64"
    );
    assert_eq!(
        fail(vec![OpenReply::Done, known(), refused()]),
        "build_input_stream (loopback): why"
    );
    assert_eq!(
        fail(vec![OpenReply::Done, known(), OpenReply::Done, refused()]),
        "loopback stream.play: why"
    );
}

#[test]
fn loopback_start_hands_on_the_stream() {
    let started = try_start(|| {
        Some(Ok(LoopbackStream { stream: 3u8, source_sample_rate: 48_000, source_channels: 2 }))
    });
    match started {
        Ok(stream) => assert_eq!(
            (stream.stream, stream.source_sample_rate, stream.source_channels),
            (3, 48_000, 2)
        ),
        Err(message) => panic!("{message}"),
    }
    let absent = try_start(|| None::<Result<LoopbackStream<u8>, OpenFailure>>);
    assert_eq!(absent.err().as_deref(), Some("loopback not supported on this platform"));
    let failed: Result<LoopbackStream<u8>, String> =
        try_start(|| Some(Err(OpenFailure::NoDevice)));
    assert_eq!(
        failed.err().as_deref(),
        Some("no default output device for WASAPI loopback")
    );
}

#[test]
fn streams_stop_before_the_module_is_freed() {
    assert_eq!(
        shutdown(),
        [ShutdownStep::StopMic, ShutdownStep::StopLoopback, ShutdownStep::FreeApm]
    );
}
