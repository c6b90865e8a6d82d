use system_audio::permission::{check_mic_permission_status, preflight_mic_permission, Consent};

fn consent(text: &str) -> Consent {
    let mut buf: Vec<u16> = text.encode_utf16().collect();
    let size = (buf.len() as u32 + 1) * 2;
    buf.resize(16, 0);
    Consent::Text { buf, size }
}

/// The status is one of the three stable strings.
#[test]
fn permission_status_returns_known_value() {
    for preflight in [
        None,
        Some(preflight_mic_permission(&Consent::NoKey)),
        Some(preflight_mic_permission(&consent("Deny"))),
    ] {
        let s = check_mic_permission_status(preflight);
        assert!(
            matches!(s, "allowed" | "denied" | "unknown"),
            "unexpected status: {s:?}"
        );
    }
}

#[test]
fn permission_status_tells_the_answers_apart() {
    assert_eq!(check_mic_permission_status(Some(Ok(()))), "allowed");
    assert_eq!(check_mic_permission_status(Some(Err("no".to_string()))), "denied");
    assert_eq!(check_mic_permission_status(None), "unknown");
}

#[test]
fn denial_is_read_in_any_case() {
    for text in ["Deny", "deny", "DENY", "dEnY"] {
        assert_eq!(
            preflight_mic_permission(&consent(text)),
            Err("Windows microphone access is disabled for desktop apps. Open Settings → Privacy & Security → Microphone, then turn on \"Microphone access\" and \"Let desktop apps access your microphone\".".to_string())
        );
    }
}

#[test]
fn all_else_is_allowed() {
    for text in ["Allow", "", "Den", "Denyy", "Deny ", "D\u{0}ny", "$eny", "\u{212a}eny"] {
        assert_eq!(preflight_mic_permission(&consent(text)), Ok(()));
    }
    assert_eq!(preflight_mic_permission(&Consent::NoKey), Ok(()));
    assert_eq!(preflight_mic_permission(&Consent::NoText), Ok(()));
}

/// The size counts the terminator, and may exceed the buffer or be odd.
#[test]
fn size_is_in_bytes_with_the_terminator() {
    let deny: Vec<u16> = "Deny".encode_utf16().collect();
    for (size, denied) in [(0, false), (1, false), (8, false), (10, true), (11, true), (12, true), (400, true)] {
        let consent = Consent::Text { buf: deny.clone(), size };
        assert_eq!(preflight_mic_permission(&consent).is_err(), denied);
    }
}
