//! The start of a capture: what is opened, in which order, and what it fails
//! over; and its end.
use vstd::prelude::*;
use vstd::string::*;
use crate::device::OpenFailure;
use crate::text::{contains, contains_text, joined, stands_at};
use crate::{CaptureOptions, Error};

verus! {

/// The message of a refused device configuration tells of a permission.
pub open spec fn tells_of_permission(message: Seq<char>) -> bool {
    contains_text(message, "permission"@) || contains_text(message, "Access"@) || contains_text(
        message,
        "denied"@,
    )
}

/// Names the error of a refused device configuration: some systems report a
/// denied permission only here.
pub fn config_error(message: String) -> (err: Error)
    ensures
        tells_of_permission(message@) ==> err == Error::Permission(message),
        !tells_of_permission(message@) ==> (err matches Error::Device(cause) && cause@
            == "default input config: "@ + message@),
{
    if contains(message.as_str(), "permission") || contains(message.as_str(), "Access") || contains(
        message.as_str(),
        "denied",
    ) {
        Error::Permission(message)
    } else {
        Error::Device(joined("default input config: ", message.as_str()))
    }
}

/// `err` is the error of a microphone stream that could not be opened.
pub open spec fn is_mic_error(failure: OpenFailure, err: Error) -> bool {
    match failure {
        OpenFailure::NoDevice => err matches Error::Device(cause) && cause@
            == "no default input device"@,
        OpenFailure::Config(message) => if tells_of_permission(message@) {
            err == Error::Permission(message)
        } else {
            err matches Error::Device(cause) && cause@ == "default input config: "@ + message@
        },
        OpenFailure::Format(_) => err matches Error::Device(cause) && cause@
            == "unsupported sample format"@,
        OpenFailure::Build(message) => err == Error::Device(message),
        OpenFailure::Play(message) => err == Error::Device(message),
    }
}

/// Names the error of a microphone stream that could not be opened.
pub fn mic_error(failure: OpenFailure) -> (err: Error)
    ensures
        is_mic_error(failure, err),
{
    match failure {
        OpenFailure::NoDevice => Error::Device("no default input device".to_owned()),
        OpenFailure::Config(message) => config_error(message),
        OpenFailure::Format(_) => Error::Device("unsupported sample format".to_owned()),
        OpenFailure::Build(message) => Error::Device(message),
        OpenFailure::Play(message) => Error::Device(message),
    }
}

/// How far the start of a capture has come: what is to be done next, or how
/// it ended.
#[derive(Debug)]
pub enum StartupStep {
    CheckPermission,
    OpenMic,
    OpenLoopback,
    OpenApm { has_loopback: bool },
    Run { has_loopback: bool, has_apm: bool },
    Fail(StartupFailure),
}

#[derive(Debug)]
pub enum StartupFailure {
    Denied(String),
    Mic(OpenFailure),
}

/// What came of a step.
#[derive(Debug)]
pub enum StartupReply {
    Done,
    Denied(String),
    Mic(OpenFailure),
    /// An optional part is not to be had.
    Unavailable,
}

/// The step after the microphone runs.
pub open spec fn after_mic(options: CaptureOptions) -> StartupStep {
    if options.loopback && !options.level_only {
        StartupStep::OpenLoopback
    } else {
        after_loopback(options, false)
    }
}

/// The step after the loopback stream runs or is done without.
pub open spec fn after_loopback(options: CaptureOptions, has_loopback: bool) -> StartupStep {
    if options.processing && !options.level_only {
        StartupStep::OpenApm { has_loopback }
    } else {
        StartupStep::Run { has_loopback, has_apm: false }
    }
}

impl StartupStep {
    /// The step after the reply to this one. Permission and the microphone
    /// are needed; the loopback stream and the processing module are done
    /// without where they are not to be had.
    pub open spec fn after(self, options: CaptureOptions, reply: StartupReply) -> StartupStep {
        match self {
            StartupStep::CheckPermission => match reply {
                StartupReply::Denied(message) => StartupStep::Fail(StartupFailure::Denied(message)),
                _ => StartupStep::OpenMic,
            },
            StartupStep::OpenMic => match reply {
                StartupReply::Mic(failure) => StartupStep::Fail(StartupFailure::Mic(failure)),
                _ => after_mic(options),
            },
            StartupStep::OpenLoopback => after_loopback(options, reply is Done),
            StartupStep::OpenApm { has_loopback } => StartupStep::Run {
                has_loopback,
                has_apm: reply is Done,
            },
            _ => self,
        }
    }

    /// The beginning.
    pub fn start() -> (step: StartupStep)
        ensures
            step == StartupStep::CheckPermission,
    {
        StartupStep::CheckPermission
    }

    /// Takes the reply to a step.
    pub fn replied(self, options: CaptureOptions, reply: StartupReply) -> (next: StartupStep)
        ensures
            next == self.after(options, reply),
    {
        match self {
            StartupStep::CheckPermission => match reply {
                StartupReply::Denied(message) => StartupStep::Fail(StartupFailure::Denied(message)),
                _ => StartupStep::OpenMic,
            },
            StartupStep::OpenMic => match reply {
                StartupReply::Mic(failure) => StartupStep::Fail(StartupFailure::Mic(failure)),
                _ => if options.uses_loopback() {
                    StartupStep::OpenLoopback
                } else if options.uses_apm() {
                    StartupStep::OpenApm { has_loopback: false }
                } else {
                    StartupStep::Run { has_loopback: false, has_apm: false }
                },
            },
            StartupStep::OpenLoopback => {
                let has_loopback: bool = matches!(reply, StartupReply::Done);
                if options.uses_apm() {
                    StartupStep::OpenApm { has_loopback }
                } else {
                    StartupStep::Run { has_loopback, has_apm: false }
                }
            },
            StartupStep::OpenApm { has_loopback } => {
                let has_apm: bool = matches!(reply, StartupReply::Done);
                StartupStep::Run { has_loopback, has_apm }
            },
            StartupStep::Run { has_loopback, has_apm } => StartupStep::Run {
                has_loopback,
                has_apm,
            },
            StartupStep::Fail(failure) => StartupStep::Fail(failure),
        }
    }
}

impl StartupFailure {
    /// The error that the capture ends on.
    pub fn error(self) -> (err: Error)
        ensures
            match self {
                StartupFailure::Denied(message) => err == Error::Permission(message),
                StartupFailure::Mic(failure) => is_mic_error(failure, err),
            },
    {
        match self {
            StartupFailure::Denied(message) => Error::Permission(message),
            StartupFailure::Mic(failure) => mic_error(failure),
        }
    }
}

impl StartupStep {
    /// The step after all these replies.
    pub open spec fn after_all(self, options: CaptureOptions, replies: Seq<StartupReply>) -> StartupStep
        decreases replies.len(),
    {
        if replies.len() == 0 {
            self
        } else {
            self.after_all(options, replies.drop_last()).after(options, replies.last())
        }
    }
}

/// The start has come to a step that these options allow: the loopback
/// stream and the processing module are asked for, and used, only where the
/// options want them and levels are not all that is wanted.
pub open spec fn is_allowed(options: CaptureOptions, step: StartupStep) -> bool {
    let wants_loopback = options.loopback && !options.level_only;
    let wants_apm = options.processing && !options.level_only;
    match step {
        StartupStep::OpenLoopback => wants_loopback,
        StartupStep::OpenApm { has_loopback } => wants_apm && (has_loopback ==> wants_loopback),
        StartupStep::Run { has_loopback, has_apm } => {
            &&& has_loopback ==> wants_loopback
            &&& has_apm ==> wants_apm
        },
        _ => true,
    }
}

/// Whatever is replied, a start asks for no more than its options want. With
/// `level_only` neither the loopback stream nor the processing module is
/// opened, even where their own flags are set.
pub proof fn law_start_asks_for_no_more(options: CaptureOptions, replies: Seq<StartupReply>)
    ensures
        is_allowed(options, StartupStep::CheckPermission.after_all(options, replies)),
    decreases replies.len(),
{
    if replies.len() > 0 {
        law_start_asks_for_no_more(options, replies.drop_last());
    }
}

/// A start fails only over the permission or the microphone: its failure is
/// one of the replies. A loopback stream or a processing module that is not
/// to be had never fails it.
pub proof fn law_only_permission_and_microphone_fail(
    options: CaptureOptions,
    replies: Seq<StartupReply>,
)
    ensures
        StartupStep::CheckPermission.after_all(options, replies) matches StartupStep::Fail(failure)
            ==> replies.contains(
            match failure {
                StartupFailure::Denied(message) => StartupReply::Denied(message),
                StartupFailure::Mic(cause) => StartupReply::Mic(cause),
            },
        ),
    decreases replies.len(),
{
    if replies.len() > 0 {
        let before = replies.drop_last();
        law_only_permission_and_microphone_fail(options, before);
        assert(replies.last() == replies[replies.len() - 1]);
        assert forall|reply: StartupReply| before.contains(reply) implies replies.contains(
            reply,
        ) by {
            let i = choose|i: int| 0 <= i < before.len() && before[i] == reply;
            assert(replies[i] == reply);
        }
    }
}

/// A start ends: the fourth reply at the latest brings it to a running
/// capture or to a failure, and no later reply changes that.
pub proof fn law_start_ends(options: CaptureOptions, replies: Seq<StartupReply>)
    requires
        replies.len() >= 4,
    ensures
        ({
            let end = StartupStep::CheckPermission.after_all(options, replies);
            end is Run || end is Fail
        }),
        forall|more: StartupReply|
            #[trigger] StartupStep::CheckPermission.after_all(options, replies.push(more))
                == StartupStep::CheckPermission.after_all(options, replies),
{
    lemma_progress(options, replies);
    assert forall|more: StartupReply|
        #[trigger] StartupStep::CheckPermission.after_all(options, replies.push(more))
            == StartupStep::CheckPermission.after_all(options, replies) by {
        assert(replies.push(more).drop_last() =~= replies);
    }
}

/// How many replies a step may still need.
spec fn needed(step: StartupStep) -> nat {
    match step {
        StartupStep::CheckPermission => 4,
        StartupStep::OpenMic => 3,
        StartupStep::OpenLoopback => 2,
        StartupStep::OpenApm { .. } => 1,
        _ => 0,
    }
}

/// Each reply brings the start one step on.
proof fn lemma_progress(options: CaptureOptions, replies: Seq<StartupReply>)
    ensures
        needed(StartupStep::CheckPermission.after_all(options, replies)) <= (if replies.len() >= 4 {
            0
        } else {
            4 - replies.len()
        }),
    decreases replies.len(),
{
    if replies.len() > 0 {
        lemma_progress(options, replies.drop_last());
    }
}

/// A thing to do when a capture ends.
#[derive(Debug, Clone, Copy, PartialEq, Eq, Structural)]
pub enum ShutdownStep {
    StopMic,
    StopLoopback,
    FreeApm,
}

/// What is to be done when a capture ends, in order: the streams stop first,
/// so that nothing more is written to the buffers, and then the processing
/// module is freed.
pub fn shutdown() -> (steps: [ShutdownStep; 3])
    ensures
        steps@ == seq![ShutdownStep::StopMic, ShutdownStep::StopLoopback, ShutdownStep::FreeApm],
{
    let steps: [ShutdownStep; 3] = [
        ShutdownStep::StopMic,
        ShutdownStep::StopLoopback,
        ShutdownStep::FreeApm,
    ];
    proof {
        assert(steps@ =~= seq![
            ShutdownStep::StopMic,
            ShutdownStep::StopLoopback,
            ShutdownStep::FreeApm,
        ]);
    }
    steps
}

/// A start, reply by reply. Permission is asked for first, then the
/// microphone; a denial, or a microphone that does not open, ends the start
/// with just that. Then the loopback stream is asked for if the options want
/// it, and then the processing module if they want that, whatever came of the
/// loopback stream; the capture runs with those that replied `Done`.
pub proof fn law_start_reply_by_reply(
    options: CaptureOptions,
    permission: StartupReply,
    mic: StartupReply,
    loopback: StartupReply,
    apm: StartupReply,
)
    ensures
        ({
            let wants_loopback = options.loopback && !options.level_only;
            let wants_apm = options.processing && !options.level_only;
            let asked = StartupStep::CheckPermission.after(options, permission);
            let opened = asked.after(options, mic);
            &&& permission matches StartupReply::Denied(message) ==> asked == StartupStep::Fail(
                StartupFailure::Denied(message),
            )
            &&& permission !is Denied ==> asked is OpenMic
            &&& permission !is Denied && mic is Mic ==> opened == StartupStep::Fail(
                StartupFailure::Mic(mic->Mic_0),
            )
            &&& permission !is Denied && mic !is Mic ==> {
                let heard = opened.after(options, loopback);
                &&& wants_loopback ==> opened is OpenLoopback
                &&& wants_loopback && wants_apm ==> heard == (StartupStep::OpenApm {
                    has_loopback: loopback is Done,
                }) && heard.after(options, apm) == (StartupStep::Run {
                    has_loopback: loopback is Done,
                    has_apm: apm is Done,
                })
                &&& wants_loopback && !wants_apm ==> heard == (StartupStep::Run {
                    has_loopback: loopback is Done,
                    has_apm: false,
                })
                &&& !wants_loopback && wants_apm ==> opened == (StartupStep::OpenApm {
                    has_loopback: false,
                }) && opened.after(options, apm) == (StartupStep::Run {
                    has_loopback: false,
                    has_apm: apm is Done,
                })
                &&& !wants_loopback && !wants_apm ==> opened == (StartupStep::Run {
                    has_loopback: false,
                    has_apm: false,
                })
            }
        }),
{
}

/// A start asks for no less than its options want. A capture that runs has
/// passed the microphone, has passed the step to the loopback stream where
/// that was wanted, and has it just where the reply there was `Done`; and it
/// has passed the step to the processing module where that was wanted,
/// whatever was replied of the loopback stream, and has it just where the
/// reply there was `Done`.
pub proof fn law_start_asks_for_no_less(
    options: CaptureOptions,
    replies: Seq<StartupReply>,
    has_loopback: bool,
    has_apm: bool,
)
    requires
        StartupStep::CheckPermission.after_all(options, replies) == (StartupStep::Run {
            has_loopback,
            has_apm,
        }),
    ensures
        exists|k: int|
            #![trigger replies[k]]
            0 <= k < replies.len() && StartupStep::CheckPermission.after_all(
                options,
                replies.take(k),
            ) is OpenMic && replies[k] !is Mic,
        options.loopback && !options.level_only ==> exists|k: int|
            #![trigger replies[k]]
            0 <= k < replies.len() && StartupStep::CheckPermission.after_all(
                options,
                replies.take(k),
            ) is OpenLoopback && (has_loopback <==> replies[k] is Done),
        !(options.loopback && !options.level_only) ==> !has_loopback,
        options.processing && !options.level_only ==> exists|k: int|
            #![trigger replies[k]]
            0 <= k < replies.len() && StartupStep::CheckPermission.after_all(
                options,
                replies.take(k),
            ) is OpenApm && (has_apm <==> replies[k] is Done),
        !(options.processing && !options.level_only) ==> !has_apm,
{
    lemma_trace(options, replies);
    if options.loopback && !options.level_only {
        let k = choose|k: int| #[trigger]
            passed(options, replies, k) is OpenLoopback && 0 <= k < replies.len() && (has_loopback
                <==> replies[k] is Done);
        assert(0 <= k < replies.len() && replies[k] == replies[k]);
    }
    if options.processing && !options.level_only {
        let k = choose|k: int| #[trigger]
            passed(options, replies, k) is OpenApm && 0 <= k < replies.len() && (has_apm
                <==> replies[k] is Done);
        assert(0 <= k < replies.len() && replies[k] == replies[k]);
    }
    let k = choose|k: int| #[trigger]
        passed(options, replies, k) is OpenMic && 0 <= k < replies.len() && replies[k] !is Mic;
    assert(0 <= k < replies.len() && replies[k] == replies[k]);
}

/// The step that reply `k` was to.
spec fn passed(options: CaptureOptions, replies: Seq<StartupReply>, k: int) -> StartupStep {
    StartupStep::CheckPermission.after_all(options, replies.take(k))
}

/// What the steps so far tell of where the start has come to.
spec fn is_traced(options: CaptureOptions, replies: Seq<StartupReply>, step: StartupStep) -> bool {
    let wants_loopback = options.loopback && !options.level_only;
    let wants_apm = options.processing && !options.level_only;
    let opened_mic = exists|k: int| #[trigger]
        passed(options, replies, k) is OpenMic && 0 <= k < replies.len() && replies[k] !is Mic;
    match step {
        StartupStep::OpenLoopback => opened_mic,
        StartupStep::OpenApm { has_loopback } => {
            &&& opened_mic
            &&& has_loopback_of(options, replies, has_loopback)
        },
        StartupStep::Run { has_loopback, has_apm } => {
            &&& opened_mic
            &&& has_loopback_of(options, replies, has_loopback)
            &&& if wants_apm {
                exists|k: int| #[trigger]
                    passed(options, replies, k) is OpenApm && 0 <= k < replies.len() && (has_apm
                        <==> replies[k] is Done)
            } else {
                !has_apm
            }
        },
        _ => true,
    }
}

spec fn has_loopback_of(
    options: CaptureOptions,
    replies: Seq<StartupReply>,
    has_loopback: bool,
) -> bool {
    if options.loopback && !options.level_only {
        exists|k: int| #[trigger]
            passed(options, replies, k) is OpenLoopback && 0 <= k < replies.len() && (has_loopback
                <==> replies[k] is Done)
    } else {
        !has_loopback
    }
}

proof fn lemma_trace(options: CaptureOptions, replies: Seq<StartupReply>)
    ensures
        is_traced(options, replies, StartupStep::CheckPermission.after_all(options, replies)),
    decreases replies.len(),
{
    if replies.len() > 0 {
        let before = replies.drop_last();
        let n = replies.len() - 1;
        lemma_trace(options, before);
        law_start_asks_for_no_more(options, before);
        assert forall|k: int| 0 <= k <= n implies #[trigger] passed(options, replies, k) == passed(
            options,
            before,
            k,
        ) by {
            assert(replies.take(k) =~= before.take(k));
        }
        assert(before.take(n) =~= before);
        let step = passed(options, replies, n);
        assert(step == StartupStep::CheckPermission.after_all(options, before));
        assert forall|k: int| 0 <= k < n implies replies[k] == #[trigger] before[k] by {}
        if exists|k: int| #[trigger]
            passed(options, before, k) is OpenMic && 0 <= k < before.len() && before[k] !is Mic {
            let k = choose|k: int| #[trigger]
                passed(options, before, k) is OpenMic && 0 <= k < before.len() && before[k] !is Mic;
            assert(passed(options, replies, k) is OpenMic && replies[k] !is Mic);
        }
        if let StartupStep::OpenApm { has_loopback } = step {
            lemma_loopback_stays(options, before, replies, has_loopback);
        }
        if let StartupStep::Run { has_loopback, has_apm } = step {
            lemma_loopback_stays(options, before, replies, has_loopback);
            if options.processing && !options.level_only {
                let k = choose|k: int| #[trigger]
                    passed(options, before, k) is OpenApm && 0 <= k < before.len() && (has_apm
                        <==> before[k] is Done);
                assert(passed(options, replies, k) is OpenApm && (has_apm <==> replies[k] is Done));
            }
        }
    }
}

proof fn lemma_loopback_stays(
    options: CaptureOptions,
    before: Seq<StartupReply>,
    replies: Seq<StartupReply>,
    has_loopback: bool,
)
    requires
        replies.len() > 0,
        before == replies.drop_last(),
        has_loopback_of(options, before, has_loopback),
    ensures
        has_loopback_of(options, replies, has_loopback),
{
    if options.loopback && !options.level_only {
        let k = choose|k: int| #[trigger]
            passed(options, before, k) is OpenLoopback && 0 <= k < before.len() && (has_loopback
                <==> before[k] is Done);
        assert(replies.take(k) =~= before.take(k));
        assert(passed(options, replies, k) is OpenLoopback && replies[k] == before[k]);
    }
}

/// Which error a microphone that did not open gives: the three words that
/// tell of a permission, wherever they stand in the system's message, make it
/// a permission error with that message; all else is a device error.
pub proof fn law_microphone_errors_are_told_apart(failure: OpenFailure, err: Error, at: int)
    requires
        is_mic_error(failure, err),
    ensures
        failure is NoDevice ==> (err matches Error::Device(cause) && cause@
            == "no default input device"@),
        failure is Format ==> (err matches Error::Device(cause) && cause@
            == "unsupported sample format"@),
        failure is Build ==> err == Error::Device(failure->Build_0),
        failure is Play ==> err == Error::Device(failure->Play_0),
        failure matches OpenFailure::Config(message) ==> {
            &&& err is Permission || err is Device
            &&& err is Permission ==> err == Error::Permission(message)
            &&& err matches Error::Device(cause) ==> cause@ == "default input config: "@ + message@
            &&& 0 <= at && at + "permission"@.len() <= message@.len() && message@.subrange(
                at,
                at + "permission"@.len(),
            ) == "permission"@ ==> err is Permission
            &&& 0 <= at && at + "Access"@.len() <= message@.len() && message@.subrange(
                at,
                at + "Access"@.len(),
            ) == "Access"@ ==> err is Permission
            &&& 0 <= at && at + "denied"@.len() <= message@.len() && message@.subrange(
                at,
                at + "denied"@.len(),
            ) == "denied"@ ==> err is Permission
            &&& err is Permission ==> exists|i: int|
                #![trigger message@.subrange(i, i + "permission"@.len())]
                #![trigger message@.subrange(i, i + "Access"@.len())]
                #![trigger message@.subrange(i, i + "denied"@.len())]
                0 <= i && ((i + "permission"@.len() <= message@.len() && message@.subrange(
                    i,
                    i + "permission"@.len(),
                ) == "permission"@) || (i + "Access"@.len() <= message@.len() && message@.subrange(
                    i,
                    i + "Access"@.len(),
                ) == "Access"@) || (i + "denied"@.len() <= message@.len() && message@.subrange(
                    i,
                    i + "denied"@.len(),
                ) == "denied"@))
        },
{
    if let OpenFailure::Config(message) = failure {
        assert(stands_at(message@, "permission"@, at) ==> contains_text(message@, "permission"@));
        assert(stands_at(message@, "Access"@, at) ==> contains_text(message@, "Access"@));
        assert(stands_at(message@, "denied"@, at) ==> contains_text(message@, "denied"@));
        if err is Permission {
            let i = if contains_text(message@, "permission"@) {
                choose|i: int| stands_at(message@, "permission"@, i)
            } else if contains_text(message@, "Access"@) {
                choose|i: int| stands_at(message@, "Access"@, i)
            } else {
                choose|i: int| stands_at(message@, "denied"@, i)
            };
            let p = message@.subrange(i, i + "permission"@.len());
            let a = message@.subrange(i, i + "Access"@.len());
            let d = message@.subrange(i, i + "denied"@.len());
        }
    }
}

/// `start` and `replied` go through the steps of `after`, from the question
/// for permission on.
pub proof fn law_replies_move_the_start(
    first: StartupStep,
    step: StartupStep,
    options: CaptureOptions,
    reply: StartupReply,
    next: StartupStep,
)
    requires
        call_ensures(StartupStep::start, (), first),
        call_ensures(StartupStep::replied, (step, options, reply), next),
    ensures
        first is CheckPermission,
        next == step.after(options, reply),
{
}

/// The error that a failed start ends on: a denial is a permission error with
/// the message that came with it, and a microphone that did not open gives
/// the error that `law_microphone_errors_are_told_apart` speaks of.
pub proof fn law_failed_start_gives_its_error(failure: StartupFailure, err: Error)
    requires
        call_ensures(StartupFailure::error, (failure,), err),
    ensures
        failure matches StartupFailure::Denied(message) ==> err == Error::Permission(message),
        failure matches StartupFailure::Mic(cause) ==> is_mic_error(cause, err),
{
}

/// A capture ends in order: the microphone stops, then the loopback stream,
/// and only then is the processing module freed.
pub proof fn law_streams_stop_before_the_module_is_freed(steps: [ShutdownStep; 3])
    requires
        call_ensures(shutdown, (), steps),
    ensures
        steps@.len() == 3,
        steps@[0] is StopMic,
        steps@[1] is StopLoopback,
        steps@[2] is FreeApm,
{
}

} // verus!
