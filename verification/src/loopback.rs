//! The loopback stream: what the default output device plays, captured as an
//! input.
use vstd::prelude::*;
use crate::device::OpenFailure;
use crate::text::joined;

verus! {

/// A running loopback stream; dropping the stream handle `S` stops it.
pub struct LoopbackStream<S> {
    pub stream: S,
    /// The sample rate of the output device, for diagnostics.
    pub source_sample_rate: u32,
    /// The channel count of the output device, for diagnostics.
    pub source_channels: u16,
}

impl OpenFailure {
    /// What is said of a loopback stream that could not be opened.
    pub open spec fn loopback_text(self) -> Seq<char> {
        match self {
            OpenFailure::NoDevice => "no default output device for WASAPI loopback"@,
            OpenFailure::Config(cause) => "default_output_config: "@ + cause@,
            OpenFailure::Format(name) => "unsupported loopback sample format: "@ + name@,
            OpenFailure::Build(cause) => "build_input_stream (loopback): "@ + cause@,
            OpenFailure::Play(cause) => "loopback stream.play: "@ + cause@,
        }
    }

    /// Renders the failure to open a loopback stream.
    pub fn loopback_message(&self) -> (r: String)
        ensures
            r@ == self.loopback_text(),
    {
        match self {
            OpenFailure::NoDevice => "no default output device for WASAPI loopback".to_owned(),
            OpenFailure::Config(cause) => joined("default_output_config: ", cause.as_str()),
            OpenFailure::Format(name) => joined(
                "unsupported loopback sample format: ",
                name.as_str(),
            ),
            OpenFailure::Build(cause) => joined("build_input_stream (loopback): ", cause.as_str()),
            OpenFailure::Play(cause) => joined("loopback stream.play: ", cause.as_str()),
        }
    }
}

/// Starts the loopback stream. `start` opens it on the default output
/// device, and returns `None` on platforms that cannot capture their output.
pub fn try_start<S, L: Fn() -> Option<Result<LoopbackStream<S>, OpenFailure>>>(start: L) -> (r:
    Result<LoopbackStream<S>, String>)
    requires
        start.requires(()),
    ensures
        match r {
            Ok(stream) => start.ensures((), Some(Ok(stream))),
            Err(message) => {
                ||| start.ensures((), None) && message@
                    == "loopback not supported on this platform"@
                ||| exists|failure: OpenFailure|
                    #[trigger] start.ensures((), Some(Err(failure))) && message@
                        == failure.loopback_text()
            },
        },
{
    match start() {
        Some(Ok(stream)) => Ok(stream),
        Some(Err(failure)) => Err(failure.loopback_message()),
        None => Err("loopback not supported on this platform".to_owned()),
    }
}

/// What is said of a loopback stream that did not open tells the step, and
/// carries what the device said.
pub proof fn law_loopback_failures_are_told(cause: String)
    ensures
        OpenFailure::NoDevice.loopback_text() == "no default output device for WASAPI loopback"@,
        OpenFailure::Config(cause).loopback_text() == "default_output_config: "@ + cause@,
        OpenFailure::Format(cause).loopback_text() == "unsupported loopback sample format: "@
            + cause@,
        OpenFailure::Build(cause).loopback_text() == "build_input_stream (loopback): "@ + cause@,
        OpenFailure::Play(cause).loopback_text() == "loopback stream.play: "@ + cause@,
{
}

/// A loopback stream that was started is handed on; one that was not gives
/// the text of its failure, and a platform that has none is told so.
pub proof fn law_start_of_loopback_is_handed_on<
    S,
    L: Fn() -> Option<Result<LoopbackStream<S>, OpenFailure>>,
>(start: L, r: Result<LoopbackStream<S>, String>, failure: OpenFailure, message: String)
    requires
        call_ensures(try_start::<S, L>, (start,), r),
        call_ensures(OpenFailure::loopback_message, (&failure,), message),
    ensures
        r matches Ok(stream) ==> start.ensures((), Some(Ok(stream))),
        r matches Err(told) ==> (start.ensures((), None) && told@
            == "loopback not supported on this platform"@) || exists|cause: OpenFailure|
            #[trigger] start.ensures((), Some(Err(cause))) && told@ == cause.loopback_text(),
        message@ == failure.loopback_text(),
{
}

} // verus!
