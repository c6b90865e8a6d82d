use system_audio::{failure_event, AudioSession, Error, FrameEvent};

#[test]
fn one_capture_runs_at_a_time() {
    let mut session: AudioSession<u8> = AudioSession::default();
    assert!(matches!(session.stop(), Err(Error::NotRunning)));
    assert!(matches!(session.start(|| (1u8, "first")), Ok("first")));
    assert!(matches!(session.start(|| (2u8, "second")), Err(Error::AlreadyRunning)));
    assert!(matches!(session.stop(), Ok(1)));
    assert!(matches!(session.stop(), Err(Error::NotRunning)));
    assert!(matches!(session.start(|| (3u8, "third")), Ok("third")));
    assert!(matches!(session.stop(), Ok(3)));
}

#[test]
fn failures_carry_category_and_message() {
    for (err, category, message) in [
        (Error::AlreadyRunning, "lifecycle", "audio session already running"),
        (Error::NotRunning, "lifecycle", "audio session not running"),
        (Error::Device("d".to_string()), "device", "audio device error: d"),
        (Error::Permission("p".to_string()), "permission", "audio permission denied: p"),
        (Error::Io("i".to_string()), "io", "io: i"),
    ] {
        let event: FrameEvent<f32> = failure_event(&err);
        match event {
            FrameEvent::Failure { category: c, message: m } => {
                assert_eq!(c, category);
                assert_eq!(m, message);
            }
            other => panic!("unexpected event: {other:?}"),
        }
    }
}
