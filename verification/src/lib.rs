//! Dual audio capture, microphone and system audio, as two tagged streams of
//! 16 kHz mono PCM.
//!
//! ```text
//!   mic ------> resampler -> APM near end --> FrameEvent::Pcm (mic)
//!   loopback -> resampler -> APM far end  --> FrameEvent::Pcm (loopback)
//! ```
//!
//! The crate holds what the capture decides and computes: options and
//! errors, the session, the order in which the audio processing module is
//! set up and fed, framing and metering, the wire form of a frame, mixing
//! and resampling. Devices, threads, the dynamic library and the arithmetic
//! on samples are the program's; where a function needs such a value, it
//! takes it, or a function that yields it, as an argument.
use vstd::prelude::*;
use crate::text::joined;

pub mod apm;
pub mod capture;
pub mod device;
pub mod fold;
pub mod loopback;
pub mod metering;
pub mod mixer;
pub mod pcm;
pub mod permission;
pub mod phase;
pub mod recording;
pub mod resampler;
pub mod signal;
pub mod startup;
pub mod streaming;
pub mod text;
pub mod throughput;

verus! {

/// Why a capture could not start or had to end.
#[derive(Debug)]
pub enum Error {
    AlreadyRunning,
    NotRunning,
    Device(String),
    /// The system denied access to the microphone. It is a variant of its
    /// own so that a user interface can point to the settings.
    Permission(String),
    Io(String),
}

impl Error {
    /// The text of the error.
    pub open spec fn message_text(self) -> Seq<char> {
        match self {
            Error::AlreadyRunning => "audio session already running"@,
            Error::NotRunning => "audio session not running"@,
            Error::Device(cause) => "audio device error: "@ + cause@,
            Error::Permission(cause) => "audio permission denied: "@ + cause@,
            Error::Io(cause) => "io: "@ + cause@,
        }
    }

    /// The kind of the error, for a listener to switch on.
    pub open spec fn category_text(self) -> Seq<char> {
        match self {
            Error::Permission(_) => "permission"@,
            Error::Device(_) => "device"@,
            Error::Io(_) => "io"@,
            Error::AlreadyRunning => "lifecycle"@,
            Error::NotRunning => "lifecycle"@,
        }
    }

    /// Renders the error for people.
    pub fn message(&self) -> (r: String)
        ensures
            r@ == self.message_text(),
    {
        match self {
            Error::AlreadyRunning => "audio session already running".to_owned(),
            Error::NotRunning => "audio session not running".to_owned(),
            Error::Device(cause) => joined("audio device error: ", cause.as_str()),
            Error::Permission(cause) => joined("audio permission denied: ", cause.as_str()),
            Error::Io(cause) => joined("io: ", cause.as_str()),
        }
    }

    /// One of `permission`, `device`, `io` and `lifecycle`.
    pub fn category(&self) -> (r: &'static str)
        ensures
            r@ == self.category_text(),
    {
        match self {
            Error::Permission(_) => "permission",
            Error::Device(_) => "device",
            Error::Io(_) => "io",
            Error::AlreadyRunning => "lifecycle",
            Error::NotRunning => "lifecycle",
        }
    }
}

/// What to capture and how to process it. The flags are orthogonal; the
/// defaults give the full pipeline.
#[derive(Debug, Clone, Copy)]
pub struct CaptureOptions {
    /// Capture what the default output device plays.
    pub loopback: bool,
    /// Run echo cancellation and light noise suppression on the microphone.
    pub processing: bool,
    /// Emit level events only: no PCM, no loopback, no processing.
    pub level_only: bool,
}

impl Default for CaptureOptions {
    fn default() -> (options: Self)
        ensures
            options.loopback,
            options.processing,
            !options.level_only,
    {
        CaptureOptions { loopback: true, processing: true, level_only: false }
    }
}

impl CaptureOptions {
    pub fn uses_loopback(self) -> (r: bool)
        ensures
            r == (self.loopback && !self.level_only),
    {
        self.loopback && !self.level_only
    }

    pub fn uses_apm(self) -> (r: bool)
        ensures
            r == (self.processing && !self.level_only),
    {
        self.processing && !self.level_only
    }

    pub fn emits_pcm(self) -> (r: bool)
        ensures
            r == !self.level_only,
    {
        !self.level_only
    }
}

/// The source of a PCM frame. Frames of both sources are interleaved in one
/// stream of events, and a listener parts them by this tag.
#[derive(Debug, Clone, Copy, PartialEq, Eq, Structural)]
pub enum PcmSource {
    Mic,
    Loopback,
}

/// What a capture emits. `L` is the type of a level.
#[derive(Debug, Clone)]
pub enum FrameEvent<L> {
    /// One 20 ms frame of 16 kHz mono PCM: 16-bit little-endian samples in
    /// base64.
    Pcm { seq: u64, source: PcmSource, sample_rate: u32, channels: u8, samples_base64: String },
    /// The RMS levels for a meter, in 0 to 1, ten times a second at most.
    Level { mic_rms: L, loopback_rms: L },
    /// The capture has ended on an error. `category` is one of `permission`,
    /// `device`, `io` and `lifecycle`.
    Failure { category: String, message: String },
}

/// The event that tells of an error.
pub fn failure_event<L>(err: &Error) -> (event: FrameEvent<L>)
    ensures
        event matches FrameEvent::Failure { category, message } && category@ == err.category_text()
            && message@ == err.message_text(),
{
    FrameEvent::Failure { category: err.category().to_owned(), message: err.message() }
}

/// The session: at most one capture runs at a time. `S` is what stops it.
pub struct AudioSession<S> {
    pub stop_token: Option<S>,
}

impl<S> Default for AudioSession<S> {
    fn default() -> (session: Self)
        ensures
            session.stop_token is None,
    {
        AudioSession { stop_token: None }
    }
}

impl<S> AudioSession<S> {
    /// One call of `start`: what becomes of the session, and what is
    /// returned.
    pub open spec fn is_start<R, O: Fn() -> (S, R)>(
        before: Self,
        open: O,
        after: Self,
        r: Result<R, Error>,
    ) -> bool {
        match r {
            Ok(listener) => {
                &&& before.stop_token is None
                &&& after.stop_token matches Some(token) && open.ensures((), (token, listener))
            },
            Err(err) => {
                &&& before.stop_token is Some
                &&& after == before
                &&& err is AlreadyRunning
            },
        }
    }

    /// One call of `stop`: what becomes of the session, and what is returned.
    pub open spec fn is_stop(before: Self, after: Self, r: Result<S, Error>) -> bool {
        &&& after.stop_token is None
        &&& match r {
            Ok(token) => before.stop_token == Some(token),
            Err(err) => before.stop_token is None && err is NotRunning,
        }
    }

    /// Claims the session for a capture. `open` makes the stop token and the
    /// end that the capture listens on; it is called only where no capture
    /// runs.
    pub fn start<R, O: Fn() -> (S, R)>(&mut self, open: O) -> (r: Result<R, Error>)
        requires
            open.requires(()),
        ensures
            Self::is_start(*old(self), open, *final(self), r),
    {
        if self.stop_token.is_some() {
            return Err(Error::AlreadyRunning);
        }
        let (token, listener) = open();
        self.stop_token = Some(token);
        Ok(listener)
    }

    /// Gives the session up and hands out the token that stops its capture.
    pub fn stop(&mut self) -> (r: Result<S, Error>)
        ensures
            Self::is_stop(*old(self), *final(self), r),
    {
        match self.stop_token.take() {
            Some(token) => Ok(token),
            None => Err(Error::NotRunning),
        }
    }

    /// At most one capture runs: between a start and the next stop every
    /// other start is refused and changes nothing. The stop hands out the
    /// token of the capture that runs; a second one is refused, and a start
    /// is accepted again.
    pub proof fn law_one_capture_at_a_time<R, O: Fn() -> (S, R), P: Fn() -> (S, R)>(
        idle: Self,
        open: O,
        running: Self,
        listener: R,
        other: P,
        still_running: Self,
        refused: Result<R, Error>,
        stopped: Self,
        token: Result<S, Error>,
        still_stopped: Self,
        nothing: Result<S, Error>,
        running_again: Self,
        again: Result<R, Error>,
    )
        requires
            Self::is_start(idle, open, running, Ok(listener)),
            Self::is_start(running, other, still_running, refused),
            Self::is_stop(still_running, stopped, token),
            Self::is_stop(stopped, still_stopped, nothing),
            Self::is_start(still_stopped, other, running_again, again),
        ensures
            refused matches Err(err) && err is AlreadyRunning,
            still_running == running,
            token matches Ok(token) && open.ensures((), (token, listener)),
            nothing matches Err(err) && err is NotRunning,
            again is Ok,
    {
    }
}

/// What an error is told as: its category, and its text with its cause.
pub proof fn law_errors_are_told(cause: String)
    ensures
        Error::AlreadyRunning.category_text() == "lifecycle"@,
        Error::NotRunning.category_text() == "lifecycle"@,
        Error::Device(cause).category_text() == "device"@,
        Error::Permission(cause).category_text() == "permission"@,
        Error::Io(cause).category_text() == "io"@,
        Error::AlreadyRunning.message_text() == "audio session already running"@,
        Error::NotRunning.message_text() == "audio session not running"@,
        Error::Device(cause).message_text() == "audio device error: "@ + cause@,
        Error::Permission(cause).message_text() == "audio permission denied: "@ + cause@,
        Error::Io(cause).message_text() == "io: "@ + cause@,
{
}

impl<S> AudioSession<S> {
    /// A start is accepted just where no capture runs, and then the session
    /// holds the token that came with the listener; else nothing changes.
    pub proof fn law_start_in_full<R, O: Fn() -> (S, R)>(
        before: Self,
        open: O,
        after: Self,
        r: Result<R, Error>,
    )
        requires
            Self::is_start(before, open, after, r),
        ensures
            r is Ok <==> before.stop_token is None,
            r matches Ok(listener) ==> after.stop_token is Some && open.ensures(
                (),
                (after.stop_token->0, listener),
            ),
            r matches Err(err) ==> err is AlreadyRunning && after == before,
    {
    }

    /// A stop is accepted just where a capture runs, and hands out its token;
    /// no capture runs afterwards.
    pub proof fn law_stop_in_full(before: Self, after: Self, r: Result<S, Error>)
        requires
            Self::is_stop(before, after, r),
        ensures
            r is Ok <==> before.stop_token is Some,
            r matches Ok(token) ==> before.stop_token == Some(token),
            r matches Err(err) ==> err is NotRunning,
            after.stop_token is None,
    {
    }
}

/// What `message`, `category` and `failure_event` tell of an error is what
/// `law_errors_are_told` speaks of.
pub proof fn law_failure_event_tells_of_the_error<L>(
    err: &Error,
    message: String,
    category: &'static str,
    event: FrameEvent<L>,
)
    requires
        call_ensures(Error::message, (err,), message),
        call_ensures(Error::category, (err,), category),
        call_ensures(failure_event::<L>, (err,), event),
    ensures
        message@ == err.message_text(),
        category@ == err.category_text(),
        event is Failure,
        event->category@ == err.category_text(),
        event->message@ == err.message_text(),
{
}

/// `level_only` rules out the loopback stream, the processing and PCM; else
/// the flags count, each for itself, and PCM is always emitted.
pub proof fn law_level_only_rules_out_the_rest(
    options: CaptureOptions,
    loopback: bool,
    apm: bool,
    pcm: bool,
)
    requires
        call_ensures(CaptureOptions::uses_loopback, (options,), loopback),
        call_ensures(CaptureOptions::uses_apm, (options,), apm),
        call_ensures(CaptureOptions::emits_pcm, (options,), pcm),
    ensures
        options.level_only ==> !loopback && !apm && !pcm,
        !options.level_only ==> pcm && loopback == options.loopback && apm == options.processing,
{
}

/// The calls on a session are what `law_start_in_full` and `law_stop_in_full`
/// speak of.
pub proof fn law_session_is_claimed_by_calls<S, R, O: Fn() -> (S, R)>(
    starting: &mut AudioSession<S>,
    open: O,
    started: Result<R, Error>,
    stopping: &mut AudioSession<S>,
    stopped: Result<S, Error>,
)
    requires
        call_ensures(AudioSession::<S>::start::<R, O>, (starting, open), started),
        call_ensures(AudioSession::<S>::stop, (stopping,), stopped),
    ensures
        AudioSession::is_start(*old(starting), open, *final(starting), started),
        AudioSession::is_stop(*old(stopping), *final(stopping), stopped),
{
}

/// By default both streams are captured and processed, and PCM is emitted; a
/// session begins without a capture.
pub proof fn law_defaults_give_the_full_pipeline<S>(
    options: CaptureOptions,
    session: AudioSession<S>,
)
    requires
        call_ensures(<CaptureOptions as Default>::default, (), options),
        call_ensures(<AudioSession<S> as Default>::default, (), session),
    ensures
        options.loopback && options.processing && !options.level_only,
        session.stop_token is None,
{
}

} // verus!
