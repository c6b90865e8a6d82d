//! The WebRTC audio processing module: where its library is looked for, how
//! it is set up and torn down, and how frames are fed to it.
//!
//! The library is a C interface of opaque handles. Calling it is the
//! program's; which call comes next, and what a reply means, is decided
//! here.
use vstd::prelude::*;
use vstd::string::*;
use vstd::slice::slice_subrange;
use crate::capture::FRAME_SAMPLES;
use crate::text::{decimal, joined, push_decimal, push_signed_decimal, signed_decimal};

verus! {

/// The module takes frames of exactly 10 ms at 16 kHz.
pub const APM_FRAME_SIZE: usize = 160;

pub const APM_SAMPLE_RATE: i32 = 16_000;

/// The delay that the echo canceller's estimator starts from. It tolerates
/// an error of some 250 ms: the acoustic path takes 10 to 50 ms, a buffered
/// playback path some 300 ms.
pub const APM_PLAYBACK_DELAY_MS: i32 = 150;

/// Where the program has said that the library is.
pub struct LibPath {
    pub explicit: Option<String>,
}

impl Default for LibPath {
    fn default() -> (path: Self)
        ensures
            path.explicit is None,
    {
        LibPath { explicit: None }
    }
}

/// Sets the path that is tried before all others.
pub fn set_lib_path(path: &mut LibPath, p: String)
    ensures
        final(path).explicit == Some(p),
{
    path.explicit = Some(p);
}

/// The file name of the library.
pub fn lib_name() -> (r: &'static str)
    ensures
        r@ == "webrtc-apm.dll"@,
{
    "webrtc-apm.dll"
}

/// The directory of a bundled program's resources, beside the program.
pub fn resources_dir() -> (r: &'static str)
    ensures
        r@ == "resources"@,
{
    "resources"
}

/// The two places of the library that belong to the directory of the
/// running program.
pub struct ProgramPaths {
    /// The library beside the program.
    pub beside: String,
    /// The library among the resources of a bundled program.
    pub resources: String,
}

/// The views of some texts.
pub open spec fn texts(strings: Seq<String>) -> Seq<Seq<char>> {
    Seq::new(strings.len(), |i: int| strings[i]@)
}

/// The places of the library, in the order in which they are tried: the
/// explicit path, the plain name, and those of the program's directory.
pub open spec fn candidates(path: LibPath, program: Option<ProgramPaths>) -> Seq<Seq<char>> {
    let explicit = match path.explicit {
        Some(p) => seq![p@],
        None => seq![],
    };
    let own = match program {
        Some(paths) => seq![paths.beside@, paths.resources@],
        None => seq![],
    };
    explicit + seq!["webrtc-apm.dll"@] + own
}

/// Lists the places to look for the library in.
pub fn candidate_paths(path: &LibPath, program: Option<ProgramPaths>) -> (r: Vec<String>)
    ensures
        texts(r@) == candidates(*path, program),
{
    let mut out: Vec<String> = Vec::new();
    match &path.explicit {
        Some(explicit) => {
            out.push(explicit.clone());
        },
        None => {},
    }
    out.push(lib_name().to_owned());
    let ghost given = program;
    match program {
        Some(paths) => {
            out.push(paths.beside);
            out.push(paths.resources);
        },
        None => {},
    }
    proof {
        assert(texts(out@) =~= candidates(*path, given));
    }
    out
}

/// `open` fails on this place.
pub open spec fn fails<Lib, O: Fn(&String) -> Result<Lib, String>>(open: O, place: String) -> bool {
    exists|err: String| open.ensures((&place,), Err(err))
}

/// `open` fails on each of the first `n` places.
pub open spec fn all_fail<Lib, O: Fn(&String) -> Result<Lib, String>>(
    open: O,
    places: Seq<String>,
    n: int,
) -> bool {
    forall|i: int| 0 <= i < n ==> #[trigger] fails(open, places[i])
}

/// What is said when the library is nowhere: how many places were tried, and
/// the last one with its error.
pub open spec fn not_found_text(tried: nat, last: Seq<char>) -> Seq<char> {
    "webrtc-apm.dll not found (tried "@ + decimal(tried) + " candidates) — last error: "@ + last
}

/// Opens the library at the first place where `open` succeeds.
pub fn find_library<Lib, O: Fn(&String) -> Result<Lib, String>>(
    places: &Vec<String>,
    open: O,
) -> (r: Result<Lib, String>)
    requires
        forall|place: &String| #[trigger] open.requires((place,)),
    ensures
        match r {
            Ok(lib) => exists|k: int|
                {
                    &&& 0 <= k < places@.len()
                    &&& all_fail(open, places@, k)
                    &&& #[trigger] open.ensures((&places@[k],), Ok(lib))
                },
            Err(message) => {
                &&& all_fail(open, places@, places@.len() as int)
                &&& if places@.len() == 0 {
                    message@ == not_found_text(0, "<none>"@)
                } else {
                    exists|err: String|
                        #[trigger] open.ensures((&places@.last(),), Err(err)) && message@
                            == not_found_text(
                            places@.len(),
                            places@.last()@ + ": "@ + err@,
                        )
                }
            },
        },
{
    let mut last_err: String = "<none>".to_owned();
    let ghost mut cause: String = last_err;
    let mut i: usize = 0;
    while i < places.len()
        invariant
            i <= places@.len(),
            forall|place: &String| #[trigger] open.requires((place,)),
            all_fail(open, places@, i as int),
            i == 0 ==> last_err@ == "<none>"@,
            i > 0 ==> open.ensures((&places@[i - 1],), Err(cause)) && last_err@ == places@[i
                - 1]@ + ": "@ + cause@,
        decreases places@.len() - i,
    {
        match open(&places[i]) {
            Ok(lib) => {
                return Ok(lib);
            },
            Err(err) => {
                last_err = joined(places[i].as_str(), ": ");
                last_err.append(err.as_str());
                proof {
                    cause = err;
                    assert(fails(open, places@[i as int]));
                }
            },
        }
        i = i + 1;
    }
    let mut message: String = "webrtc-apm.dll not found (tried ".to_owned();
    push_decimal(&mut message, places.len() as u64);
    message.append(" candidates) — last error: ");
    message.append(last_err.as_str());
    proof {
        if places@.len() > 0 {
            assert(open.ensures((&places@.last(),), Err(cause)));
        }
    }
    Err(message)
}

/// A call into the library. `handle`, `config` and `stream_config` are the
/// objects that the creating calls returned.
#[derive(Debug, Clone, Copy, PartialEq, Eq, Structural)]
pub enum ApmCall {
    /// `webrtc_apm_create()`
    Create,
    /// `webrtc_apm_config_create()`
    CreateConfig,
    /// `webrtc_apm_config_set_echo_canceller(config, ..)`
    SetEchoCanceller { enabled: i32, mobile_mode: i32 },
    /// `webrtc_apm_config_set_noise_suppression(config, ..)`
    SetNoiseSuppression { enabled: i32, level: i32 },
    /// `webrtc_apm_config_set_high_pass_filter(config, ..)`
    SetHighPassFilter { enabled: i32 },
    /// `webrtc_apm_config_set_gain_controller1(config, ..)`
    SetGainController1 {
        enabled: i32,
        mode: i32,
        target_level_dbfs: i32,
        compression_gain_db: i32,
        enable_limiter: i32,
    },
    /// `webrtc_apm_config_set_gain_controller2(config, ..)`
    SetGainController2 { enabled: i32 },
    /// `webrtc_apm_config_set_pipeline(config, ..)`
    SetPipeline {
        max_internal_rate: i32,
        multi_channel_render: i32,
        multi_channel_capture: i32,
        capture_downmix: i32,
    },
    /// `webrtc_apm_apply_config(handle, config)`
    ApplyConfig,
    /// `webrtc_apm_config_destroy(config)`
    DestroyConfig,
    /// `webrtc_apm_initialize(handle)`
    Initialize,
    /// `webrtc_apm_stream_config_create(..)`
    CreateStreamConfig { sample_rate_hz: i32, num_channels: usize },
    /// `webrtc_apm_set_stream_delay_ms(handle, ..)`
    SetStreamDelay { delay_ms: i32 },
    /// `webrtc_apm_stream_config_destroy(stream_config)`
    DestroyStreamConfig,
    /// `webrtc_apm_destroy(handle)`
    Destroy,
}

/// What went wrong while the module was set up.
#[derive(Debug, Clone, Copy, PartialEq, Eq, Structural)]
pub enum SetupFailure {
    NoHandle,
    NoConfig,
    ApplyConfig(i32),
    Initialize(i32),
    NoStreamConfig,
}

impl SetupFailure {
    pub open spec fn message_text(self) -> Seq<char> {
        match self {
            SetupFailure::NoHandle => "webrtc_apm_create returned null"@,
            SetupFailure::NoConfig => "webrtc_apm_config_create returned null"@,
            SetupFailure::ApplyConfig(code) => "webrtc_apm_apply_config returned "@
                + signed_decimal(code as int),
            SetupFailure::Initialize(code) => "webrtc_apm_initialize returned "@ + signed_decimal(
                code as int,
            ),
            SetupFailure::NoStreamConfig => "webrtc_apm_stream_config_create returned null"@,
        }
    }

    /// Renders the failure for people.
    pub fn message(&self) -> (r: String)
        ensures
            r@ == self.message_text(),
    {
        match self {
            SetupFailure::NoHandle => "webrtc_apm_create returned null".to_owned(),
            SetupFailure::NoConfig => "webrtc_apm_config_create returned null".to_owned(),
            SetupFailure::ApplyConfig(code) => {
                let mut r: String = "webrtc_apm_apply_config returned ".to_owned();
                push_signed_decimal(&mut r, *code);
                r
            },
            SetupFailure::Initialize(code) => {
                let mut r: String = "webrtc_apm_initialize returned ".to_owned();
                push_signed_decimal(&mut r, *code);
                r
            },
            SetupFailure::NoStreamConfig => {
                "webrtc_apm_stream_config_create returned null".to_owned()
            },
        }
    }
}

/// How far the set-up of the module has come.
#[derive(Debug, Clone, Copy, PartialEq, Eq, Structural)]
pub enum ApmSetup {
    /// The named call is next.
    Next(ApmCall),
    /// The configuration was handed over with this reply and is to be
    /// destroyed.
    Applied(i32),
    /// The handle is to be destroyed because of a failure.
    Abandon(SetupFailure),
    /// The module is ready.
    Ready,
    /// The set-up failed, and nothing is left of it.
    Failed(SetupFailure),
}

/// Echo cancellation on, in its desktop mode.
pub open spec fn echo_canceller() -> ApmCall {
    ApmCall::SetEchoCanceller { enabled: 1, mobile_mode: 0 }
}

/// Noise suppression at its lowest level.
pub open spec fn noise_suppression() -> ApmCall {
    ApmCall::SetNoiseSuppression { enabled: 1, level: 0 }
}

/// No high-pass filter: it would thin out the fundamentals of speech.
pub open spec fn high_pass_filter() -> ApmCall {
    ApmCall::SetHighPassFilter { enabled: 0 }
}

/// No gain control: it would pump up the noise of the room in pauses.
pub open spec fn gain_controller1() -> ApmCall {
    ApmCall::SetGainController1 {
        enabled: 0,
        mode: 1,
        target_level_dbfs: 3,
        compression_gain_db: 9,
        enable_limiter: 1,
    }
}

pub open spec fn gain_controller2() -> ApmCall {
    ApmCall::SetGainController2 { enabled: 0 }
}

pub open spec fn pipeline() -> ApmCall {
    ApmCall::SetPipeline {
        max_internal_rate: APM_SAMPLE_RATE,
        multi_channel_render: 0,
        multi_channel_capture: 0,
        capture_downmix: 0,
    }
}

pub open spec fn stream_config() -> ApmCall {
    ApmCall::CreateStreamConfig { sample_rate_hz: APM_SAMPLE_RATE, num_channels: 1 }
}

pub open spec fn stream_delay() -> ApmCall {
    ApmCall::SetStreamDelay { delay_ms: APM_PLAYBACK_DELAY_MS }
}

impl ApmSetup {
    /// The calls of a set-up in which nothing fails, in order.
    pub open spec fn smooth_run() -> Seq<ApmCall> {
        seq![
            ApmCall::Create,
            ApmCall::CreateConfig,
            echo_canceller(),
            noise_suppression(),
            high_pass_filter(),
            gain_controller1(),
            gain_controller2(),
            pipeline(),
            ApmCall::ApplyConfig,
            ApmCall::DestroyConfig,
            ApmCall::Initialize,
            stream_config(),
            stream_delay(),
        ]
    }

    /// The call to make now.
    pub open spec fn due(self) -> Option<ApmCall> {
        match self {
            ApmSetup::Next(call) => Some(call),
            ApmSetup::Applied(_) => Some(ApmCall::DestroyConfig),
            ApmSetup::Abandon(_) => Some(ApmCall::Destroy),
            ApmSetup::Ready => None,
            ApmSetup::Failed(_) => None,
        }
    }

    /// The set-up after the reply to the call that was due. The reply to a
    /// creating call is 0 where the library returned no object; the reply to
    /// a call that returns nothing does not matter.
    pub open spec fn after(self, reply: i32) -> ApmSetup {
        match self {
            ApmSetup::Next(ApmCall::Create) => if reply == 0 {
                ApmSetup::Failed(SetupFailure::NoHandle)
            } else {
                ApmSetup::Next(ApmCall::CreateConfig)
            },
            ApmSetup::Next(ApmCall::CreateConfig) => if reply == 0 {
                ApmSetup::Abandon(SetupFailure::NoConfig)
            } else {
                ApmSetup::Next(echo_canceller())
            },
            ApmSetup::Next(ApmCall::SetEchoCanceller { .. }) => ApmSetup::Next(noise_suppression()),
            ApmSetup::Next(ApmCall::SetNoiseSuppression { .. }) => ApmSetup::Next(
                high_pass_filter(),
            ),
            ApmSetup::Next(ApmCall::SetHighPassFilter { .. }) => ApmSetup::Next(gain_controller1()),
            ApmSetup::Next(ApmCall::SetGainController1 { .. }) => ApmSetup::Next(
                gain_controller2(),
            ),
            ApmSetup::Next(ApmCall::SetGainController2 { .. }) => ApmSetup::Next(pipeline()),
            ApmSetup::Next(ApmCall::SetPipeline { .. }) => ApmSetup::Next(ApmCall::ApplyConfig),
            ApmSetup::Next(ApmCall::ApplyConfig) => ApmSetup::Applied(reply),
            ApmSetup::Applied(code) => if code != 0 {
                ApmSetup::Abandon(SetupFailure::ApplyConfig(code))
            } else {
                ApmSetup::Next(ApmCall::Initialize)
            },
            ApmSetup::Next(ApmCall::Initialize) => if reply != 0 {
                ApmSetup::Abandon(SetupFailure::Initialize(reply))
            } else {
                ApmSetup::Next(stream_config())
            },
            ApmSetup::Next(ApmCall::CreateStreamConfig { .. }) => if reply == 0 {
                ApmSetup::Abandon(SetupFailure::NoStreamConfig)
            } else {
                ApmSetup::Next(stream_delay())
            },
            ApmSetup::Next(ApmCall::SetStreamDelay { .. }) => ApmSetup::Ready,
            ApmSetup::Abandon(failure) => ApmSetup::Failed(failure),
            _ => self,
        }
    }

    /// The beginning of a set-up.
    pub fn start() -> (setup: ApmSetup)
        ensures
            setup == ApmSetup::Next(ApmCall::Create),
    {
        ApmSetup::Next(ApmCall::Create)
    }

    /// The call to make now, or `None` where the set-up has ended.
    pub fn call(&self) -> (r: Option<ApmCall>)
        ensures
            r == self.due(),
    {
        match *self {
            ApmSetup::Next(call) => Some(call),
            ApmSetup::Applied(_) => Some(ApmCall::DestroyConfig),
            ApmSetup::Abandon(_) => Some(ApmCall::Destroy),
            ApmSetup::Ready => None,
            ApmSetup::Failed(_) => None,
        }
    }

    /// Takes the reply to the call that was due.
    pub fn replied(self, reply: i32) -> (next: ApmSetup)
        ensures
            next == self.after(reply),
    {
        match self {
            ApmSetup::Applied(code) => if code != 0 {
                ApmSetup::Abandon(SetupFailure::ApplyConfig(code))
            } else {
                ApmSetup::Next(ApmCall::Initialize)
            },
            ApmSetup::Abandon(failure) => ApmSetup::Failed(failure),
            ApmSetup::Ready => ApmSetup::Ready,
            ApmSetup::Failed(failure) => ApmSetup::Failed(failure),
            ApmSetup::Next(call) => match call {
                ApmCall::Create => if reply == 0 {
                    ApmSetup::Failed(SetupFailure::NoHandle)
                } else {
                    ApmSetup::Next(ApmCall::CreateConfig)
                },
                ApmCall::CreateConfig => if reply == 0 {
                    ApmSetup::Abandon(SetupFailure::NoConfig)
                } else {
                    ApmSetup::Next(ApmCall::SetEchoCanceller { enabled: 1, mobile_mode: 0 })
                },
                ApmCall::SetEchoCanceller { .. } => ApmSetup::Next(
                    ApmCall::SetNoiseSuppression { enabled: 1, level: 0 },
                ),
                ApmCall::SetNoiseSuppression { .. } => ApmSetup::Next(
                    ApmCall::SetHighPassFilter { enabled: 0 },
                ),
                ApmCall::SetHighPassFilter { .. } => ApmSetup::Next(
                    ApmCall::SetGainController1 {
                        enabled: 0,
                        mode: 1,
                        target_level_dbfs: 3,
                        compression_gain_db: 9,
                        enable_limiter: 1,
                    },
                ),
                ApmCall::SetGainController1 { .. } => ApmSetup::Next(
                    ApmCall::SetGainController2 { enabled: 0 },
                ),
                ApmCall::SetGainController2 { .. } => ApmSetup::Next(
                    ApmCall::SetPipeline {
                        max_internal_rate: APM_SAMPLE_RATE,
                        multi_channel_render: 0,
                        multi_channel_capture: 0,
                        capture_downmix: 0,
                    },
                ),
                ApmCall::SetPipeline { .. } => ApmSetup::Next(ApmCall::ApplyConfig),
                ApmCall::ApplyConfig => ApmSetup::Applied(reply),
                ApmCall::Initialize => if reply != 0 {
                    ApmSetup::Abandon(SetupFailure::Initialize(reply))
                } else {
                    ApmSetup::Next(
                        ApmCall::CreateStreamConfig {
                            sample_rate_hz: APM_SAMPLE_RATE,
                            num_channels: 1,
                        },
                    )
                },
                ApmCall::CreateStreamConfig { .. } => if reply == 0 {
                    ApmSetup::Abandon(SetupFailure::NoStreamConfig)
                } else {
                    ApmSetup::Next(ApmCall::SetStreamDelay { delay_ms: APM_PLAYBACK_DELAY_MS })
                },
                ApmCall::SetStreamDelay { .. } => ApmSetup::Ready,
                ApmCall::DestroyConfig => self,
                ApmCall::DestroyStreamConfig => self,
                ApmCall::Destroy => self,
            },
        }
    }
}

/// Which of the library's objects exist.
pub struct Live {
    pub handle: bool,
    pub config: bool,
    pub stream_config: bool,
}

pub open spec fn nothing() -> Live {
    Live { handle: false, config: false, stream_config: false }
}

impl Live {
    /// The objects that the call works on exist, and it creates none that
    /// exists already.
    pub open spec fn permits(self, call: ApmCall) -> bool {
        match call {
            ApmCall::Create => !self.handle,
            ApmCall::CreateConfig => !self.config,
            ApmCall::SetEchoCanceller { .. } => self.config,
            ApmCall::SetNoiseSuppression { .. } => self.config,
            ApmCall::SetHighPassFilter { .. } => self.config,
            ApmCall::SetGainController1 { .. } => self.config,
            ApmCall::SetGainController2 { .. } => self.config,
            ApmCall::SetPipeline { .. } => self.config,
            ApmCall::ApplyConfig => self.handle && self.config,
            ApmCall::DestroyConfig => self.config,
            ApmCall::Initialize => self.handle,
            ApmCall::CreateStreamConfig { .. } => !self.stream_config,
            ApmCall::SetStreamDelay { .. } => self.handle,
            ApmCall::DestroyStreamConfig => self.stream_config,
            ApmCall::Destroy => self.handle,
        }
    }

    /// The objects that exist after the call and its reply.
    pub open spec fn after(self, call: ApmCall, reply: i32) -> Live {
        match call {
            ApmCall::Create => Live { handle: reply != 0, ..self },
            ApmCall::CreateConfig => Live { config: reply != 0, ..self },
            ApmCall::CreateStreamConfig { .. } => Live { stream_config: reply != 0, ..self },
            ApmCall::DestroyConfig => Live { config: false, ..self },
            ApmCall::DestroyStreamConfig => Live { stream_config: false, ..self },
            ApmCall::Destroy => Live { handle: false, ..self },
            _ => self,
        }
    }
}

impl ApmSetup {
    /// A set-up that `start` leads to: nothing that was set up is destroyed
    /// but on the way out.
    pub open spec fn wf(self) -> bool {
        self matches ApmSetup::Next(call) ==> {
            &&& call != ApmCall::DestroyConfig
            &&& call != ApmCall::DestroyStreamConfig
            &&& call != ApmCall::Destroy
        }
    }

    /// The objects that exist at this point of a set-up.
    pub open spec fn live(self) -> Live {
        match self {
            ApmSetup::Next(ApmCall::Create) => nothing(),
            ApmSetup::Next(ApmCall::CreateConfig) => Live { handle: true, ..nothing() },
            ApmSetup::Next(ApmCall::Initialize) => Live { handle: true, ..nothing() },
            ApmSetup::Next(ApmCall::CreateStreamConfig { .. }) => Live {
                handle: true,
                ..nothing()
            },
            ApmSetup::Next(ApmCall::SetStreamDelay { .. }) => Live {
                handle: true,
                stream_config: true,
                ..nothing()
            },
            ApmSetup::Next(_) => Live { handle: true, config: true, ..nothing() },
            ApmSetup::Applied(_) => Live { handle: true, config: true, ..nothing() },
            ApmSetup::Abandon(_) => Live { handle: true, ..nothing() },
            ApmSetup::Ready => Live { handle: true, stream_config: true, ..nothing() },
            ApmSetup::Failed(_) => nothing(),
        }
    }

    /// The set-up after a row of replies.
    pub open spec fn after_all(self, replies: Seq<i32>) -> ApmSetup
        decreases replies.len(),
    {
        if replies.len() == 0 {
            self
        } else {
            self.after_all(replies.drop_last()).after(replies.last())
        }
    }

    /// The calls that were made when a row of replies has come in.
    pub open spec fn calls_made(self, replies: Seq<i32>) -> Seq<ApmCall>
        decreases replies.len(),
    {
        if replies.len() == 0 {
            seq![]
        } else {
            let before = self.calls_made(replies.drop_last());
            match self.after_all(replies.drop_last()).due() {
                Some(call) => before.push(call),
                None => before,
            }
        }
    }

    /// The calls that are still to come if nothing fails.
    pub open spec fn remaining(self) -> nat {
        match self {
            ApmSetup::Next(ApmCall::Create) => 14,
            ApmSetup::Next(ApmCall::CreateConfig) => 13,
            ApmSetup::Next(ApmCall::SetEchoCanceller { .. }) => 12,
            ApmSetup::Next(ApmCall::SetNoiseSuppression { .. }) => 11,
            ApmSetup::Next(ApmCall::SetHighPassFilter { .. }) => 10,
            ApmSetup::Next(ApmCall::SetGainController1 { .. }) => 9,
            ApmSetup::Next(ApmCall::SetGainController2 { .. }) => 8,
            ApmSetup::Next(ApmCall::SetPipeline { .. }) => 7,
            ApmSetup::Next(ApmCall::ApplyConfig) => 6,
            ApmSetup::Applied(_) => 5,
            ApmSetup::Next(ApmCall::Initialize) => 4,
            ApmSetup::Next(ApmCall::CreateStreamConfig { .. }) => 3,
            ApmSetup::Next(_) => 2,
            ApmSetup::Abandon(_) => 1,
            ApmSetup::Ready => 0,
            ApmSetup::Failed(_) => 0,
        }
    }
}

/// The objects that exist after a row of calls and their replies.
pub open spec fn live_after_all(setup: ApmSetup, live: Live, replies: Seq<i32>) -> Live
    decreases replies.len(),
{
    if replies.len() == 0 {
        live
    } else {
        let before = live_after_all(setup, live, replies.drop_last());
        match setup.after_all(replies.drop_last()).due() {
            Some(call) => before.after(call, replies.last()),
            None => before,
        }
    }
}

/// Whatever the library replies, no call of a set-up works on an object that
/// does not exist or creates one that does; a set-up that failed leaves no
/// object behind, and one that is ready leaves the handle and the stream
/// configuration.
pub proof fn law_setup_leaves_nothing_behind(replies: Seq<i32>)
    ensures
        ({
            let start = ApmSetup::Next(ApmCall::Create);
            let end = start.after_all(replies);
            &&& end.wf()
            &&& live_after_all(start, nothing(), replies) == end.live()
            &&& end.due() matches Some(call) ==> end.live().permits(call)
            &&& end is Failed ==> live_after_all(start, nothing(), replies) == nothing()
            &&& end is Ready ==> live_after_all(start, nothing(), replies) == (Live {
                handle: true,
                stream_config: true,
                config: false,
            })
        }),
    decreases replies.len(),
{
    if replies.len() > 0 {
        law_setup_leaves_nothing_behind(replies.drop_last());
    }
}

/// Whatever the library replies, a set-up ends after at most fourteen calls.
pub proof fn law_setup_ends(replies: Seq<i32>)
    ensures
        ({
            let end = ApmSetup::Next(ApmCall::Create).after_all(replies);
            &&& end.wf()
            &&& end.remaining() == 0 <==> end.due() is None
            &&& end.due() is Some ==> end.remaining() + replies.len() <= 14
            &&& replies.len() >= 14 ==> end.due() is None
        }),
    decreases replies.len(),
{
    if replies.len() > 0 {
        law_setup_ends(replies.drop_last());
    }
}

/// The replies to the calls of `smooth_run` report no failure.
pub open spec fn is_smooth(replies: Seq<i32>) -> bool {
    &&& replies.len() == 13
    &&& replies[0] != 0
    &&& replies[1] != 0
    &&& replies[8] == 0
    &&& replies[10] == 0
    &&& replies[11] != 0
}

/// Where nothing fails, the calls are those of `smooth_run`, and then the
/// module is ready.
pub proof fn law_smooth_setup_is_ready(replies: Seq<i32>)
    requires
        is_smooth(replies),
    ensures
        ApmSetup::Next(ApmCall::Create).after_all(replies) == ApmSetup::Ready,
        ApmSetup::Next(ApmCall::Create).calls_made(replies) == ApmSetup::smooth_run(),
{
    let start = ApmSetup::Next(ApmCall::Create);
    lemma_smooth_prefix(replies, 13);
    assert(replies.take(13) =~= replies);
    assert(ApmSetup::smooth_run().take(13) =~= ApmSetup::smooth_run());
}

/// Where a smooth set-up stands after `n` replies.
spec fn smooth_stage(n: int) -> ApmSetup {
    if n == 9 {
        ApmSetup::Applied(0)
    } else if n == 13 {
        ApmSetup::Ready
    } else {
        ApmSetup::Next(ApmSetup::smooth_run()[n])
    }
}

proof fn lemma_smooth_prefix(replies: Seq<i32>, n: int)
    requires
        is_smooth(replies),
        0 <= n <= 13,
    ensures
        ApmSetup::Next(ApmCall::Create).after_all(replies.take(n)) == smooth_stage(n),
        ApmSetup::Next(ApmCall::Create).calls_made(replies.take(n))
            == ApmSetup::smooth_run().take(n),
    decreases n,
{
    let start = ApmSetup::Next(ApmCall::Create);
    if n == 0 {
        assert(replies.take(0) =~= Seq::<i32>::empty());
        assert(start.calls_made(replies.take(0)) =~= ApmSetup::smooth_run().take(0));
    } else {
        lemma_smooth_prefix(replies, n - 1);
        assert(replies.take(n).drop_last() =~= replies.take(n - 1));
        assert(replies.take(n).last() == replies[n - 1]);
        assert(ApmSetup::smooth_run().take(n) =~= ApmSetup::smooth_run().take(n - 1).push(
            ApmSetup::smooth_run()[n - 1],
        ));
    }
}

/// The calls that take a ready module down, in order.
pub fn teardown() -> (calls: [ApmCall; 2])
    ensures
        calls@ == seq![ApmCall::DestroyStreamConfig, ApmCall::Destroy],
{
    let calls: [ApmCall; 2] = [ApmCall::DestroyStreamConfig, ApmCall::Destroy];
    proof {
        assert(calls@ =~= seq![ApmCall::DestroyStreamConfig, ApmCall::Destroy]);
    }
    calls
}

/// Taking a ready module down destroys what exists, each object once, and
/// leaves none.
pub proof fn law_teardown_leaves_nothing()
    ensures
        ({
            let ready = ApmSetup::Ready.live();
            let between = ready.after(ApmCall::DestroyStreamConfig, 0);
            &&& ready.permits(ApmCall::DestroyStreamConfig)
            &&& between.permits(ApmCall::Destroy)
            &&& between.after(ApmCall::Destroy, 0) == nothing()
        }),
{
}

/// The audio processing module: a set-up library, or none on platforms whose
/// system does the processing. The engine `E` changes with each call into
/// the library: a function that makes the call takes the engine and gives it
/// back.
pub enum Apm<E> {
    Engine(E),
    Passthrough,
}

/// Opens the module. `load` brings the library up, and returns `None` on
/// platforms that the module is not for.
pub fn open<E, L: Fn() -> Option<Result<E, String>>>(load: L) -> (r: Result<Apm<E>, String>)
    requires
        load.requires(()),
    ensures
        match r {
            Ok(Apm::Engine(engine)) => load.ensures((), Some(Ok(engine))),
            Ok(Apm::Passthrough) => false,
            Err(message) => load.ensures((), Some(Err(message))) || (load.ensures((), None)
                && message@
                == "APM not used on this platform (Apple VPIO handles AEC + NS on macOS)"@),
        },
{
    match load() {
        Some(Ok(engine)) => Ok(Apm::Engine(engine)),
        Some(Err(message)) => Err(message),
        None => Err(
            "APM not used on this platform (Apple VPIO handles AEC + NS on macOS)".to_owned(),
        ),
    }
}

/// Block `j` of a frame.
pub open spec fn block<T>(frame: Seq<T>, j: int) -> Seq<T> {
    frame.subrange(j * APM_FRAME_SIZE, j * APM_FRAME_SIZE + APM_FRAME_SIZE)
}

/// The whole blocks in a frame.
pub open spec fn blocks<T>(frame: Seq<T>) -> int {
    frame.len() as int / APM_FRAME_SIZE as int
}

/// The blocks that the module is handed have the length that it takes, and
/// with the rest they make up the frame: a frame of the capture is two blocks
/// and no rest.
pub proof fn law_blocks_tile_the_frame<T>(frame: Seq<T>, i: int)
    requires
        0 <= i < frame.len(),
    ensures
        forall|j: int|
            0 <= j < blocks(frame) ==> (#[trigger] block(frame, j)).len() == APM_FRAME_SIZE,
        frame.len() - blocks(frame) * APM_FRAME_SIZE < APM_FRAME_SIZE,
        i < blocks(frame) * APM_FRAME_SIZE ==> {
            let j = i / (APM_FRAME_SIZE as int);
            &&& 0 <= j < blocks(frame)
            &&& frame[i] == block(frame, j)[i % (APM_FRAME_SIZE as int)]
        },
        frame.len() == FRAME_SAMPLES ==> blocks(frame) == 2 && blocks(frame) * APM_FRAME_SIZE
            == frame.len(),
{
}

/// The reply to the last block, or 0 where there was none.
pub open spec fn last_code(codes: Seq<i32>) -> i32 {
    if codes.len() == 0 {
        0
    } else {
        codes.last()
    }
}

/// `process` took the engine from the state `engine` to `next` on the block
/// `from`, replied `code` and made `to` of the block.
pub open spec fn is_near_block<E, T, P: Fn(E, &[T]) -> (E, i32, [T; APM_FRAME_SIZE])>(
    process: P,
    engine: E,
    from: Seq<T>,
    next: E,
    code: i32,
    to: Seq<T>,
) -> bool {
    exists|src: &[T], dest: [T; APM_FRAME_SIZE]|
        src@ == from && dest@ == to && #[trigger] process.ensures(
            (engine, src),
            (next, code, dest),
        )
}

/// `process` took the engine from the state `engine` to `next` on the block
/// `from` and replied `code`.
pub open spec fn is_far_block<E, T, P: Fn(E, &[T]) -> (E, i32)>(
    process: P,
    engine: E,
    from: Seq<T>,
    next: E,
    code: i32,
) -> bool {
    exists|src: &[T]| src@ == from && #[trigger] process.ensures((engine, src), (next, code))
}

/// Each whole block of `before` went through `process` once, first to last,
/// and is replaced in `after`; the samples behind the last whole block are
/// untouched. `engines` are the states of the engine before each block and
/// at the end.
pub open spec fn is_near_frame<E, T, P: Fn(E, &[T]) -> (E, i32, [T; APM_FRAME_SIZE])>(
    process: P,
    before: Seq<T>,
    engines: Seq<E>,
    codes: Seq<i32>,
    after: Seq<T>,
) -> bool {
    &&& codes.len() == blocks(before)
    &&& engines.len() == codes.len() + 1
    &&& after.len() == before.len()
    &&& forall|i: int|
        blocks(before) * APM_FRAME_SIZE <= i < before.len() ==> #[trigger] after[i] == before[i]
    &&& forall|j: int|
        0 <= j < codes.len() ==> is_near_block(
            process,
            engines[j],
            block(before, j),
            engines[j + 1],
            #[trigger] codes[j],
            block(after, j),
        )
}

/// Each whole block of `frame` went through `process` once, first to last.
/// `engines` are the states of the engine before each block and at the end.
pub open spec fn is_far_frame<E, T, P: Fn(E, &[T]) -> (E, i32)>(
    process: P,
    frame: Seq<T>,
    engines: Seq<E>,
    codes: Seq<i32>,
) -> bool {
    &&& codes.len() == blocks(frame)
    &&& engines.len() == codes.len() + 1
    &&& forall|j: int|
        0 <= j < codes.len() ==> is_far_block(
            process,
            engines[j],
            block(frame, j),
            engines[j + 1],
            #[trigger] codes[j],
        )
}

impl<E> Apm<E> {
    /// One call of `process_near`.
    pub open spec fn is_near<T, P: Fn(E, &[T]) -> (E, i32, [T; APM_FRAME_SIZE])>(
        before: Self,
        frame: Seq<T>,
        process: P,
        after: Self,
        processed: Seq<T>,
        r: i32,
    ) -> bool {
        match before {
            Apm::Engine(engine) => exists|engines: Seq<E>, codes: Seq<i32>|
                {
                    &&& #[trigger] is_near_frame(process, frame, engines, codes, processed)
                    &&& engines[0] == engine
                    &&& after == Apm::Engine(engines.last())
                    &&& r == last_code(codes)
                },
            Apm::Passthrough => after == before && processed == frame && r == 0,
        }
    }

    /// One call of `process_far`.
    pub open spec fn is_far<T, P: Fn(E, &[T]) -> (E, i32)>(
        before: Self,
        frame: Seq<T>,
        process: P,
        after: Self,
        r: i32,
    ) -> bool {
        match before {
            Apm::Engine(engine) => exists|engines: Seq<E>, codes: Seq<i32>|
                {
                    &&& #[trigger] is_far_frame(process, frame, engines, codes)
                    &&& engines[0] == engine
                    &&& after == Apm::Engine(engines.last())
                    &&& r == last_code(codes)
                },
            Apm::Passthrough => after == before && r == 0,
        }
    }

    /// One call of `set_stream_delay_ms`.
    pub open spec fn is_delayed<D: Fn(E, i32) -> E>(
        before: Self,
        ms: i32,
        set_delay: D,
        after: Self,
    ) -> bool {
        match before {
            Apm::Engine(engine) => after matches Apm::Engine(next) && set_delay.ensures(
                (engine, ms),
                next,
            ),
            Apm::Passthrough => after == before,
        }
    }

    /// Runs the near end (microphone) frame through the module, block by
    /// block, in place. `process` hands one block to the library and returns
    /// its reply and the processed block. Samples behind the last whole
    /// block pass through untouched. Returns the last reply (0 is success).
    pub fn process_near<T: Copy, P: Fn(E, &[T]) -> (E, i32, [T; APM_FRAME_SIZE])>(
        &mut self,
        frame: &mut Vec<T>,
        process: &P,
    ) -> (r: i32)
        requires
            forall|engine: E, src: &[T]|
                src@.len() == APM_FRAME_SIZE ==> #[trigger] process.requires((engine, src)),
        ensures
            Self::is_near(*old(self), old(frame)@, *process, *final(self), final(frame)@, r),
    {
        let mut taken: Apm<E> = Apm::Passthrough;
        std::mem::swap(self, &mut taken);
        let first: E = match taken {
            Apm::Engine(engine) => engine,
            Apm::Passthrough => {
                return 0;
            },
        };
        let ghost mut engines: Seq<E> = seq![first];
        let ghost mut codes: Seq<i32> = seq![];
        let len: usize = frame.len();
        let count: usize = len / APM_FRAME_SIZE;
        let mut engine: E = first;
        let mut last: i32 = 0;
        let mut j: usize = 0;
        while j < count
            invariant
                j <= count,
                len == old(frame)@.len(),
                frame@.len() == len,
                count == len / APM_FRAME_SIZE,
                codes.len() == j,
                engines.len() == j + 1,
                engines[0] == first,
                engines.last() == engine,
                last == last_code(codes),
                forall|engine: E, src: &[T]|
                    src@.len() == APM_FRAME_SIZE ==> #[trigger] process.requires((engine, src)),
                forall|i: int|
                    j * APM_FRAME_SIZE <= i < len ==> #[trigger] frame@[i] == old(frame)@[i],
                forall|k: int|
                    0 <= k < j ==> is_near_block(
                        *process,
                        engines[k],
                        block(old(frame)@, k),
                        engines[k + 1],
                        #[trigger] codes[k],
                        block(frame@, k),
                    ),
            decreases count - j,
        {
            let at: usize = j * APM_FRAME_SIZE;
            let ghost before = frame@;
            let ghost engine_before = engine;
            let (next, code, dest) = process(
                engine,
                slice_subrange(frame.as_slice(), at, at + APM_FRAME_SIZE),
            );
            engine = next;
            proof {
                assert(before.subrange(at as int, at + APM_FRAME_SIZE) =~= block(
                    old(frame)@,
                    j as int,
                ));
                assert(is_near_block(
                    *process,
                    engine_before,
                    block(old(frame)@, j as int),
                    engine,
                    code,
                    dest@,
                ));
            }
            let mut i: usize = 0;
            while i < APM_FRAME_SIZE
                invariant
                    i <= APM_FRAME_SIZE,
                    at + APM_FRAME_SIZE <= len,
                    before.len() == len,
                    frame@ =~= Seq::new(
                        len as nat,
                        |k: int|
                            if at <= k < at + i {
                                dest@[k - at]
                            } else {
                                before[k]
                            },
                    ),
                decreases APM_FRAME_SIZE - i,
            {
                frame.set(at + i, dest[i]);
                i = i + 1;
            }
            last = code;
            proof {
                let states = engines;
                codes = codes.push(code);
                engines = engines.push(engine);
                assert(block(frame@, j as int) =~= dest@);
                assert forall|k: int| 0 <= k < j + 1 implies is_near_block(
                    *process,
                    engines[k],
                    block(old(frame)@, k),
                    engines[k + 1],
                    #[trigger] codes[k],
                    block(frame@, k),
                ) by {
                    if k < j {
                        assert(block(frame@, k) =~= block(before, k));
                        assert(engines[k + 1] == states[k + 1]);
                    }
                }
            }
            j = j + 1;
        }
        *self = Apm::Engine(engine);
        proof {
            assert(is_near_frame(*process, old(frame)@, engines, codes, frame@));
        }
        last
    }

    /// Runs the far end (playback) frame through the module, block by block,
    /// for its echo model; what the library makes of it is discarded. A
    /// partial last block is ignored. Returns the last reply (0 is success).
    pub fn process_far<T: Copy, P: Fn(E, &[T]) -> (E, i32)>(
        &mut self,
        frame: &[T],
        process: &P,
    ) -> (r: i32)
        requires
            forall|engine: E, src: &[T]|
                src@.len() == APM_FRAME_SIZE ==> #[trigger] process.requires((engine, src)),
        ensures
            Self::is_far(*old(self), frame@, *process, *final(self), r),
    {
        let mut taken: Apm<E> = Apm::Passthrough;
        std::mem::swap(self, &mut taken);
        let first: E = match taken {
            Apm::Engine(engine) => engine,
            Apm::Passthrough => {
                return 0;
            },
        };
        let ghost mut engines: Seq<E> = seq![first];
        let ghost mut codes: Seq<i32> = seq![];
        let len: usize = frame.len();
        let count: usize = len / APM_FRAME_SIZE;
        let mut engine: E = first;
        let mut last: i32 = 0;
        let mut j: usize = 0;
        while j < count
            invariant
                j <= count,
                len == frame@.len(),
                count == len / APM_FRAME_SIZE,
                codes.len() == j,
                engines.len() == j + 1,
                engines[0] == first,
                engines.last() == engine,
                last == last_code(codes),
                forall|engine: E, src: &[T]|
                src@.len() == APM_FRAME_SIZE ==> #[trigger] process.requires((engine, src)),
                forall|k: int|
                    0 <= k < j ==> is_far_block(
                        *process,
                        engines[k],
                        block(frame@, k),
                        engines[k + 1],
                        #[trigger] codes[k],
                    ),
            decreases count - j,
        {
            let at: usize = j * APM_FRAME_SIZE;
            let ghost engine_before = engine;
            let (next, code) = process(engine, slice_subrange(frame, at, at + APM_FRAME_SIZE));
            engine = next;
            last = code;
            proof {
                assert(is_far_block(
                    *process,
                    engine_before,
                    block(frame@, j as int),
                    engine,
                    code,
                ));
                let states = engines;
                codes = codes.push(code);
                engines = engines.push(engine);
                assert forall|k: int| 0 <= k < j + 1 implies is_far_block(
                    *process,
                    engines[k],
                    block(frame@, k),
                    engines[k + 1],
                    #[trigger] codes[k],
                ) by {
                    if k < j {
                        assert(engines[k + 1] == states[k + 1]);
                    }
                }
            }
            j = j + 1;
        }
        *self = Apm::Engine(engine);
        proof {
            assert(is_far_frame(*process, frame@, engines, codes));
        }
        last
    }

    /// Tells the echo canceller how long playback takes to come back in.
    pub fn set_stream_delay_ms<D: Fn(E, i32) -> E>(&mut self, ms: i32, set_delay: D)
        requires
            forall|engine: E| #[trigger] set_delay.requires((engine, ms)),
        ensures
            Self::is_delayed(*old(self), ms, set_delay, *final(self)),
    {
        let mut taken: Apm<E> = Apm::Passthrough;
        std::mem::swap(self, &mut taken);
        match taken {
            Apm::Engine(engine) => {
                *self = Apm::Engine(set_delay(engine, ms));
            },
            Apm::Passthrough => {},
        }
    }
}

/// The echo reference is what the speakers played. The far end is handed the
/// frame up to its last whole block: call `j` of `process` gets a slice of
/// `APM_FRAME_SIZE` samples, and sample `i` of it is sample
/// `j * APM_FRAME_SIZE + i` of the frame. The calls are made in that order on
/// the engine, each on the state that the one before has left, and the reply
/// to the last of them is returned, or 0 where there was none.
pub proof fn law_far_end_hears_the_frame<E, T, P: Fn(E, &[T]) -> (E, i32)>(
    engine: E,
    frame: Seq<T>,
    process: P,
    after: Apm<E>,
    r: i32,
)
    requires
        Apm::is_far(Apm::Engine(engine), frame, process, after, r),
    ensures
        exists|engines: Seq<E>, handed: Seq<&[T]>, codes: Seq<i32>|
            {
                &&& #[trigger] handed.len() == frame.len() / APM_FRAME_SIZE as nat
                &&& #[trigger] engines.len() == handed.len() + 1
                &&& #[trigger] codes.len() == handed.len()
                &&& engines[0] == engine
                &&& after == Apm::Engine(engines[handed.len() as int])
                &&& forall|j: int|
                    0 <= j < handed.len() ==> (#[trigger] handed[j])@.len() == APM_FRAME_SIZE
                        && process.ensures((engines[j], handed[j]), (engines[j + 1], codes[j]))
                &&& forall|j: int, i: int|
                    0 <= j < handed.len() && 0 <= i < APM_FRAME_SIZE ==> #[trigger] handed[j]@[i]
                        == frame[j * APM_FRAME_SIZE + i]
                &&& handed.len() == 0 ==> r == 0
                &&& handed.len() > 0 ==> r == codes[handed.len() - 1]
            },
{
    let (engines, codes) = choose|engines: Seq<E>, codes: Seq<i32>|
        {
            &&& #[trigger] is_far_frame(process, frame, engines, codes)
            &&& engines[0] == engine
            &&& after == Apm::Engine(engines.last())
            &&& r == last_code(codes)
        };
    let handed = Seq::new(
        codes.len(),
        |j: int|
            choose|src: &[T]|
                src@ == block(frame, j) && #[trigger] process.ensures(
                    (engines[j], src),
                    (engines[j + 1], codes[j]),
                ),
    );
    assert forall|j: int| 0 <= j < handed.len() implies {
        &&& (#[trigger] handed[j])@ == block(frame, j)
        &&& handed[j]@.len() == APM_FRAME_SIZE
        &&& process.ensures((engines[j], handed[j]), (engines[j + 1], codes[j]))
    } by {
        assert(is_far_block(process, engines[j], block(frame, j), engines[j + 1], codes[j]));
    }
    assert forall|j: int, i: int|
        0 <= j < handed.len() && 0 <= i < APM_FRAME_SIZE implies #[trigger] handed[j]@[i]
        == frame[j * APM_FRAME_SIZE + i] by {
        assert(handed[j]@ == block(frame, j));
    }
    assert(handed.len() == frame.len() / APM_FRAME_SIZE as nat);
    assert(engines.len() == handed.len() + 1);
    assert(codes.len() == handed.len());
}

/// The near end is cleaned in place. Call `j` of `process` gets a slice of
/// `APM_FRAME_SIZE` samples, of which sample `i` is sample
/// `j * APM_FRAME_SIZE + i` of the frame, and sample `i` of what it gives
/// stands there afterwards; what is behind the last whole block is as it was.
/// The calls are made in that order on the engine, each on the state that the
/// one before has left, and the reply to the last of them is returned, or 0
/// where there was none.
pub proof fn law_near_end_is_cleaned<E, T, P: Fn(E, &[T]) -> (E, i32, [T; APM_FRAME_SIZE])>(
    engine: E,
    frame: Seq<T>,
    process: P,
    after: Apm<E>,
    cleaned: Seq<T>,
    r: i32,
)
    requires
        Apm::is_near(Apm::Engine(engine), frame, process, after, cleaned, r),
    ensures
        cleaned.len() == frame.len(),
        exists|
            engines: Seq<E>,
            handed: Seq<&[T]>,
            codes: Seq<i32>,
            given: Seq<[T; APM_FRAME_SIZE]>,
        |
            {
                &&& #[trigger] handed.len() == frame.len() / APM_FRAME_SIZE as nat
                &&& #[trigger] engines.len() == handed.len() + 1
                &&& #[trigger] codes.len() == handed.len()
                &&& #[trigger] given.len() == handed.len()
                &&& engines[0] == engine
                &&& after == Apm::Engine(engines[handed.len() as int])
                &&& forall|j: int|
                    0 <= j < handed.len() ==> (#[trigger] handed[j])@.len() == APM_FRAME_SIZE
                        && process.ensures(
                        (engines[j], handed[j]),
                        (engines[j + 1], codes[j], given[j]),
                    )
                &&& forall|j: int, i: int|
                    0 <= j < handed.len() && 0 <= i < APM_FRAME_SIZE ==> #[trigger] handed[j]@[i]
                        == frame[j * APM_FRAME_SIZE + i]
                &&& forall|j: int, i: int|
                    0 <= j < handed.len() && 0 <= i < APM_FRAME_SIZE ==> cleaned[j * APM_FRAME_SIZE
                        + i] == #[trigger] given[j]@[i]
                &&& forall|i: int|
                    handed.len() * APM_FRAME_SIZE <= i < frame.len() ==> #[trigger] cleaned[i]
                        == frame[i]
                &&& handed.len() == 0 ==> r == 0
                &&& handed.len() > 0 ==> r == codes[handed.len() - 1]
            },
{
    let (engines, codes) = choose|engines: Seq<E>, codes: Seq<i32>|
        {
            &&& #[trigger] is_near_frame(process, frame, engines, codes, cleaned)
            &&& engines[0] == engine
            &&& after == Apm::Engine(engines.last())
            &&& r == last_code(codes)
        };
    let calls = Seq::new(
        codes.len(),
        |j: int|
            choose|src: &[T], dest: [T; APM_FRAME_SIZE]|
                src@ == block(frame, j) && dest@ == block(cleaned, j) && #[trigger] process.ensures(
                    (engines[j], src),
                    (engines[j + 1], codes[j], dest),
                ),
    );
    let handed = Seq::new(codes.len(), |j: int| calls[j].0);
    let given = Seq::new(codes.len(), |j: int| calls[j].1);
    assert forall|j: int| 0 <= j < handed.len() implies {
        &&& (#[trigger] handed[j])@ == block(frame, j)
        &&& handed[j]@.len() == APM_FRAME_SIZE
        &&& given[j]@ == block(cleaned, j)
        &&& process.ensures((engines[j], handed[j]), (engines[j + 1], codes[j], given[j]))
    } by {
        assert(is_near_block(
            process,
            engines[j],
            block(frame, j),
            engines[j + 1],
            codes[j],
            block(cleaned, j),
        ));
        let (src, dest) = choose|src: &[T], dest: [T; APM_FRAME_SIZE]|
            src@ == block(frame, j) && dest@ == block(cleaned, j) && #[trigger] process.ensures(
                (engines[j], src),
                (engines[j + 1], codes[j], dest),
            );
        assert(calls[j] == (src, dest));
    }
    assert forall|j: int, i: int|
        0 <= j < handed.len() && 0 <= i < APM_FRAME_SIZE implies #[trigger] handed[j]@[i]
        == frame[j * APM_FRAME_SIZE + i] by {
        assert(handed[j]@ == block(frame, j));
    }
    assert forall|j: int, i: int|
        0 <= j < handed.len() && 0 <= i < APM_FRAME_SIZE implies cleaned[j * APM_FRAME_SIZE + i]
        == #[trigger] given[j]@[i] by {
        assert(handed[j]@ == block(frame, j));
        assert(given[j]@ == block(cleaned, j));
    }
    assert(handed.len() == frame.len() / APM_FRAME_SIZE as nat);
    assert(engines.len() == handed.len() + 1);
    assert(codes.len() == handed.len());
    assert(given.len() == handed.len());
}

/// Without an engine nothing is touched, and success is reported.
pub proof fn law_no_engine_touches_nothing<
    E,
    T,
    F: Fn(E, &[T]) -> (E, i32),
    P: Fn(E, &[T]) -> (E, i32, [T; APM_FRAME_SIZE]),
>(
    frame: Seq<T>,
    far: F,
    near: P,
    after_far: Apm<E>,
    far_code: i32,
    after_near: Apm<E>,
    cleaned: Seq<T>,
    near_code: i32,
)
    requires
        Apm::is_far(Apm::Passthrough, frame, far, after_far, far_code),
        Apm::is_near(Apm::Passthrough, frame, near, after_near, cleaned, near_code),
    ensures
        after_far is Passthrough,
        after_near is Passthrough,
        cleaned == frame,
        far_code == 0,
        near_code == 0,
{
}

/// The places of the library: an explicit path comes first, then the plain
/// name, then beside the program, then among its resources; and no others.
pub proof fn law_places_in_order(path: LibPath, program: Option<ProgramPaths>)
    ensures
        ({
            let places = candidates(path, program);
            let skipped: int = if path.explicit is Some {
                1
            } else {
                0
            };
            &&& path.explicit matches Some(p) ==> places[0] == p@
            &&& places[skipped] == "webrtc-apm.dll"@
            &&& program matches Some(paths) ==> {
                &&& places.len() == skipped + 3
                &&& places[skipped + 1] == paths.beside@
                &&& places[skipped + 2] == paths.resources@
            }
            &&& program is None ==> places.len() == skipped + 1
        }),
{
}

/// A set-up, call by call. The module is created and configured: echo
/// cancellation on, noise suppression low, all else off, at 16 kHz; the
/// configuration is applied and destroyed, the module initialised, a stream
/// configuration for 16 kHz mono created and the delay of 150 ms set. Each
/// reply that tells of a failure ends it: the module, where there is one, is
/// destroyed, and the failure carries the reply.
pub proof fn law_setup_call_by_call(
    create: i32,
    config: i32,
    apply: i32,
    initialize: i32,
    stream: i32,
    ignored: i32,
)
    ensures
        ({
            let s0 = ApmSetup::Next(ApmCall::Create);
            let s1 = s0.after(create);
            let s2 = s1.after(config);
            let s3 = s2.after(ignored);
            let s4 = s3.after(ignored);
            let s5 = s4.after(ignored);
            let s6 = s5.after(ignored);
            let s7 = s6.after(ignored);
            let s8 = s7.after(ignored);
            let s9 = s8.after(apply);
            let s10 = s9.after(ignored);
            let s11 = s10.after(initialize);
            let s12 = s11.after(stream);
            &&& s0.due() == Some(ApmCall::Create)
            &&& create == 0 ==> s1 == ApmSetup::Failed(SetupFailure::NoHandle) && s1.due() is None
            &&& create != 0 ==> s1.due() == Some(ApmCall::CreateConfig)
            &&& create != 0 && config == 0 ==> s2.due() == Some(ApmCall::Destroy) && s3
                == ApmSetup::Failed(SetupFailure::NoConfig) && s3.due() is None
            &&& create != 0 && config != 0 ==> {
                &&& s2.due() == Some(ApmCall::SetEchoCanceller { enabled: 1, mobile_mode: 0 })
                &&& s3.due() == Some(ApmCall::SetNoiseSuppression { enabled: 1, level: 0 })
                &&& s4.due() == Some(ApmCall::SetHighPassFilter { enabled: 0 })
                &&& s5.due() == Some(
                    ApmCall::SetGainController1 {
                        enabled: 0,
                        mode: 1,
                        target_level_dbfs: 3,
                        compression_gain_db: 9,
                        enable_limiter: 1,
                    },
                )
                &&& s6.due() == Some(ApmCall::SetGainController2 { enabled: 0 })
                &&& s7.due() == Some(
                    ApmCall::SetPipeline {
                        max_internal_rate: 16_000,
                        multi_channel_render: 0,
                        multi_channel_capture: 0,
                        capture_downmix: 0,
                    },
                )
                &&& s8.due() == Some(ApmCall::ApplyConfig)
                &&& s9.due() == Some(ApmCall::DestroyConfig)
                &&& apply != 0 ==> s10.due() == Some(ApmCall::Destroy) && s10.after(ignored)
                    == ApmSetup::Failed(SetupFailure::ApplyConfig(apply))
                &&& apply == 0 ==> s10.due() == Some(ApmCall::Initialize)
                &&& apply == 0 && initialize != 0 ==> s11.due() == Some(ApmCall::Destroy)
                    && s11.after(ignored) == ApmSetup::Failed(SetupFailure::Initialize(initialize))
                &&& apply == 0 && initialize == 0 ==> s11.due() == Some(
                    ApmCall::CreateStreamConfig { sample_rate_hz: 16_000, num_channels: 1 },
                )
                &&& apply == 0 && initialize == 0 && stream == 0 ==> s12.due() == Some(
                    ApmCall::Destroy,
                ) && s12.after(ignored) == ApmSetup::Failed(SetupFailure::NoStreamConfig)
                &&& apply == 0 && initialize == 0 && stream != 0 ==> s12.due() == Some(
                    ApmCall::SetStreamDelay { delay_ms: 150 },
                ) && s12.after(ignored) == ApmSetup::Ready && s12.after(ignored).due() is None
            }
        }),
{
}

/// What a set-up that failed is reported as: the call, and the code where it
/// gave one.
pub proof fn law_setup_failures_are_told(code: i32)
    ensures
        SetupFailure::NoHandle.message_text() == "webrtc_apm_create returned null"@,
        SetupFailure::NoConfig.message_text() == "webrtc_apm_config_create returned null"@,
        SetupFailure::NoStreamConfig.message_text()
            == "webrtc_apm_stream_config_create returned null"@,
        SetupFailure::ApplyConfig(code).message_text() == "webrtc_apm_apply_config returned "@
            + signed_decimal(code as int),
        SetupFailure::Initialize(code).message_text() == "webrtc_apm_initialize returned "@
            + signed_decimal(code as int),
{
}

/// `start`, `call` and `replied` go through the set-up of `due` and `after`,
/// from the creation of the module on.
pub proof fn law_replies_move_the_setup(
    first: ApmSetup,
    setup: ApmSetup,
    call: Option<ApmCall>,
    reply: i32,
    next: ApmSetup,
)
    requires
        call_ensures(ApmSetup::start, (), first),
        call_ensures(ApmSetup::call, (&setup,), call),
        call_ensures(ApmSetup::replied, (setup, reply), next),
    ensures
        first == ApmSetup::Next(ApmCall::Create),
        call == setup.due(),
        next == setup.after(reply),
{
}

/// A ready module is taken down stream configuration first, handle last.
pub proof fn law_teardown_in_order(calls: [ApmCall; 2])
    requires
        call_ensures(teardown, (), calls),
    ensures
        calls@.len() == 2,
        calls@[0] is DestroyStreamConfig,
        calls@[1] is Destroy,
{
}

/// An opened module has the engine that was loaded; a load that failed fails
/// with its message, and a platform without the module is told so.
pub proof fn law_open_gives_what_was_loaded<E, L: Fn() -> Option<Result<E, String>>>(
    load: L,
    r: Result<Apm<E>, String>,
)
    requires
        call_ensures(open::<E, L>, (load,), r),
    ensures
        r matches Ok(module) ==> module is Engine && load.ensures(
            (),
            Some(Ok(module->Engine_0)),
        ),
        r matches Err(message) ==> load.ensures((), Some(Err(message))) || (load.ensures((), None)
            && message@ == "APM not used on this platform (Apple VPIO handles AEC + NS on macOS)"@),
{
}

/// The library is taken from the first place where it opens: every place
/// before has failed. Where it is nowhere, every place has failed, and the
/// message tells how many were tried and what the last one said. What the
/// places that failed said is returned.
pub proof fn law_first_library_that_opens<Lib, O: Fn(&String) -> Result<Lib, String>>(
    places: &Vec<String>,
    open: O,
    r: Result<Lib, String>,
) -> (errors: Seq<String>)
    requires
        call_ensures(find_library::<Lib, O>, (places, open), r),
    ensures
        errors.len() <= places@.len(),
        forall|i: int|
            #![trigger errors[i]]
            0 <= i < errors.len() ==> open.ensures((&places@[i],), Err(errors[i])),
        r matches Ok(lib) ==> errors.len() < places@.len() && open.ensures(
            (&places@[errors.len() as int],),
            Ok(lib),
        ),
        r matches Err(message) ==> {
            let n = places@.len();
            &&& errors.len() == n
            &&& n == 0 ==> message@ == "webrtc-apm.dll not found (tried "@ + decimal(0)
                + " candidates) — last error: "@ + "<none>"@
            &&& n > 0 ==> message@ == "webrtc-apm.dll not found (tried "@ + decimal(n)
                + " candidates) — last error: "@ + (places@[n - 1]@ + ": "@ + errors[n - 1]@)
        },
{
    let n = places@.len();
    match r {
        Ok(lib) => {
            let k = choose|k: int|
                {
                    &&& 0 <= k < n
                    &&& all_fail(open, places@, k)
                    &&& #[trigger] open.ensures((&places@[k],), Ok(lib))
                };
            lemma_errors(places@, open, k as nat)
        },
        Err(message) => if n == 0 {
            seq![]
        } else {
            let last = choose|err: String|
                #[trigger] open.ensures((&places@.last(),), Err(err)) && message@ == not_found_text(
                    n,
                    places@.last()@ + ": "@ + err@,
                );
            let errors = lemma_errors(places@, open, n);
            errors.update(n - 1, last)
        },
    }
}

/// What the first `n` places said.
proof fn lemma_errors<Lib, O: Fn(&String) -> Result<Lib, String>>(
    places: Seq<String>,
    open: O,
    n: nat,
) -> (errors: Seq<String>)
    requires
        all_fail(open, places, n as int),
    ensures
        errors.len() == n,
        forall|i: int|
            #![trigger errors[i]]
            0 <= i < n ==> open.ensures((&places[i],), Err(errors[i])),
{
    let errors = Seq::new(n, |i: int| choose|err: String| open.ensures((&places[i],), Err(err)));
    assert forall|i: int| #![trigger errors[i]] 0 <= i < n implies open.ensures(
        (&places[i],),
        Err(errors[i]),
    ) by {
        assert(fails(open, places[i]));
    }
    errors
}

/// The places that are listed are those of `law_places_in_order`.
pub proof fn law_places_are_listed(
    path: &LibPath,
    program: Option<ProgramPaths>,
    r: Vec<String>,
    i: int,
)
    requires
        call_ensures(candidate_paths, (path, program), r),
        0 <= i < r@.len(),
    ensures
        r@.len() == candidates(*path, program).len(),
        r@[i]@ == candidates(*path, program)[i],
{
    assert(texts(r@)[i] == r@[i]@);
}

/// What a failed set-up is told as, and what the library and the resources of
/// a bundled program are called.
pub proof fn law_setup_failures_have_their_message(
    failure: SetupFailure,
    message: String,
    name: &'static str,
    resources: &'static str,
)
    requires
        call_ensures(SetupFailure::message, (&failure,), message),
        call_ensures(lib_name, (), name),
        call_ensures(resources_dir, (), resources),
    ensures
        message@ == failure.message_text(),
        name@ == "webrtc-apm.dll"@,
        resources@ == "resources"@,
{
}

/// The stream delay goes to the engine as it is, once; without an engine
/// nothing is told.
pub proof fn law_delay_is_told_as_it_is<E, D: Fn(E, i32) -> E>(
    before: Apm<E>,
    ms: i32,
    set_delay: D,
    after: Apm<E>,
)
    requires
        Apm::is_delayed(before, ms, set_delay, after),
    ensures
        before matches Apm::Engine(engine) ==> after is Engine && set_delay.ensures(
            (engine, ms),
            after->Engine_0,
        ),
        before is Passthrough ==> after is Passthrough,
{
}

/// The calls on the module are what the laws on `is_far`, `is_near` and
/// `is_delayed` speak of; and a path that was set is the one that is tried
/// first.
pub proof fn law_module_is_fed_by_calls<
    E,
    T: Copy,
    F: Fn(E, &[T]) -> (E, i32),
    N: Fn(E, &[T]) -> (E, i32, [T; APM_FRAME_SIZE]),
    D: Fn(E, i32) -> E,
>(
    hearing: &mut Apm<E>,
    lp_frame: &[T],
    far: &F,
    far_code: i32,
    cleaning: &mut Apm<E>,
    mic_frame: &mut Vec<T>,
    near: &N,
    near_code: i32,
    told: &mut Apm<E>,
    ms: i32,
    set_delay: D,
    path: &mut LibPath,
    explicit: String,
)
    requires
        call_ensures(Apm::<E>::process_far::<T, F>, (hearing, lp_frame, far), far_code),
        call_ensures(Apm::<E>::process_near::<T, N>, (cleaning, mic_frame, near), near_code),
        call_ensures(Apm::<E>::set_stream_delay_ms::<D>, (told, ms, set_delay), ()),
        call_ensures(set_lib_path, (path, explicit), ()),
    ensures
        Apm::is_far(*old(hearing), lp_frame@, *far, *final(hearing), far_code),
        Apm::is_near(
            *old(cleaning),
            old(mic_frame)@,
            *near,
            *final(cleaning),
            final(mic_frame)@,
            near_code,
        ),
        Apm::is_delayed(*old(told), ms, set_delay, *final(told)),
        final(path).explicit == Some(explicit),
{
}

} // verus!
