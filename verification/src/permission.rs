//! Access to the microphone, before a capture starts.
use vstd::prelude::*;
use vstd::string::*;

verus! {

/// What the system's consent store says of the microphone: the registry
/// value that also backs the system's own query.
pub enum Consent {
    /// The key is missing: older systems have no such store.
    NoKey,
    /// The value is missing or is no text.
    NoText,
    /// The value is a text of 16-bit units: the buffer that it was read
    /// into, and its size in bytes with the terminator.
    Text { buf: Vec<u16>, size: u32 },
}

/// The text that was read, without its terminator.
pub open spec fn consent_units(buf: Seq<u16>, size: u32) -> Seq<u16> {
    let chars = if size / 2 == 0 {
        0
    } else {
        size / 2 - 1
    };
    if chars < buf.len() {
        buf.take(chars)
    } else {
        buf
    }
}

/// A unit with an ASCII capital made small.
pub open spec fn ascii_lower(unit: u16) -> int {
    if 65 <= unit <= 90 {
        unit + 32
    } else {
        unit as int
    }
}

/// The units spell `Deny`, in capitals or not.
pub open spec fn spells_deny(units: Seq<u16>) -> bool {
    &&& units.len() == 4
    &&& ascii_lower(units[0]) == 'd' as int
    &&& ascii_lower(units[1]) == 'e' as int
    &&& ascii_lower(units[2]) == 'n' as int
    &&& ascii_lower(units[3]) == 'y' as int
}

/// Access to the microphone is denied. A store that says nothing denies
/// nothing.
pub open spec fn denied(consent: Consent) -> bool {
    match consent {
        Consent::Text { buf, size } => spells_deny(consent_units(buf@, size)),
        _ => false,
    }
}

fn lower(unit: u16) -> (r: u16)
    ensures
        r == ascii_lower(unit),
{
    if 65 <= unit && unit <= 90 {
        unit + 32
    } else {
        unit
    }
}

/// What the user is told where access is denied.
pub open spec fn denied_text() -> Seq<char> {
    "Windows microphone access is disabled for desktop apps. Open Settings → Privacy & Security → Microphone, then turn on \"Microphone access\" and \"Let desktop apps access your microphone\"."@
}

/// Decides whether the consent store lets a capture start. Without this
/// check a capture that is denied runs, and delivers silence.
pub fn preflight_mic_permission(consent: &Consent) -> (r: Result<(), String>)
    ensures
        match r {
            Ok(()) => !denied(*consent),
            Err(message) => denied(*consent) && message@ == denied_text(),
        },
{
    match consent {
        Consent::NoKey => Ok(()),
        Consent::NoText => Ok(()),
        Consent::Text { buf, size } => {
            let pairs: u32 = *size / 2;
            let chars: usize = if pairs == 0 {
                0
            } else {
                (pairs - 1) as usize
            };
            let len: usize = if chars < buf.len() {
                chars
            } else {
                buf.len()
            };
            if len == 4 && lower(buf[0]) == 100 && lower(buf[1]) == 101 && lower(buf[2]) == 110
                && lower(buf[3]) == 121 {
                Err(
                    "Windows microphone access is disabled for desktop apps. Open Settings → Privacy & Security → Microphone, then turn on \"Microphone access\" and \"Let desktop apps access your microphone\".".to_owned(),
                )
            } else {
                Ok(())
            }
        },
    }
}

/// The answer to the question whether a capture may start, for a user
/// interface to switch on. Platforms without a consent store have no
/// `preflight`.
pub fn check_mic_permission_status(preflight: Option<Result<(), String>>) -> (r: &'static str)
    ensures
        r@ == match preflight {
            Some(Ok(())) => "allowed"@,
            Some(Err(_)) => "denied"@,
            None => "unknown"@,
        },
{
    match preflight {
        Some(Ok(())) => "allowed",
        Some(Err(_)) => "denied",
        None => "unknown",
    }
}

/// When access is denied, unit by unit: the value is a text of four units,
/// as its size in bytes with the terminator tells or as the buffer has them,
/// and they are `D`, `E`, `N` and `Y`, each large or small. Nothing else is a
/// denial.
pub proof fn law_denial_unit_by_unit(buf: Vec<u16>, size: u32)
    ensures
        denied(Consent::Text { buf, size }) <==> {
            &&& (10 <= size < 12 && buf@.len() >= 4) || (size >= 10 && buf@.len() == 4)
            &&& buf@[0] == 68 || buf@[0] == 100
            &&& buf@[1] == 69 || buf@[1] == 101
            &&& buf@[2] == 78 || buf@[2] == 110
            &&& buf@[3] == 89 || buf@[3] == 121
        },
        !denied(Consent::NoKey),
        !denied(Consent::NoText),
{
}

/// The check before a capture refuses just where access is denied, and tells
/// the user where to allow it.
pub proof fn law_preflight_refuses_a_denial(consent: &Consent, r: Result<(), String>)
    requires
        call_ensures(preflight_mic_permission, (consent,), r),
    ensures
        r is Err <==> denied(*consent),
        r matches Err(message) ==> message@
            == "Windows microphone access is disabled for desktop apps. Open Settings → Privacy & Security → Microphone, then turn on \"Microphone access\" and \"Let desktop apps access your microphone\"."@,
{
}

} // verus!
