//! Opening an input stream on an audio device.
//!
//! The steps are the same for the microphone and for the loopback stream;
//! what a failure is called differs.
use vstd::prelude::*;

verus! {

/// The sample formats that a stream is opened in.
#[derive(Debug, Clone, Copy, PartialEq, Eq, Structural)]
pub enum SampleKind {
    F32,
    I16,
    U16,
}

/// The sample format that a device reports.
#[derive(Debug)]
pub enum SampleFormat {
    Known(SampleKind),
    /// Any other, by its name.
    Other(String),
}

/// What an attempt to open a stream came to.
#[derive(Debug)]
pub enum OpenReply {
    Done,
    NoDevice,
    Config(SampleFormat),
    Refused(String),
}

#[derive(Debug)]
pub enum OpenFailure {
    NoDevice,
    Config(String),
    Format(String),
    Build(String),
    Play(String),
}

/// How far the opening of a stream has come: what is to be done next, or how
/// it ended.
#[derive(Debug)]
pub enum OpenStep {
    FindDevice,
    ReadConfig,
    Build(SampleKind),
    Play,
    Opened,
    Failed(OpenFailure),
}

impl OpenStep {
    /// The step after the reply to this one. A reply that does not belong to
    /// the step changes nothing.
    pub open spec fn after(self, reply: OpenReply) -> OpenStep {
        match (self, reply) {
            (OpenStep::FindDevice, OpenReply::Done) => OpenStep::ReadConfig,
            (OpenStep::FindDevice, OpenReply::NoDevice) => OpenStep::Failed(OpenFailure::NoDevice),
            (OpenStep::ReadConfig, OpenReply::Config(SampleFormat::Known(kind))) => OpenStep::Build(
                kind,
            ),
            (OpenStep::ReadConfig, OpenReply::Config(SampleFormat::Other(name))) => {
                OpenStep::Failed(OpenFailure::Format(name))
            },
            (OpenStep::ReadConfig, OpenReply::Refused(cause)) => OpenStep::Failed(
                OpenFailure::Config(cause),
            ),
            (OpenStep::Build(_), OpenReply::Done) => OpenStep::Play,
            (OpenStep::Build(_), OpenReply::Refused(cause)) => OpenStep::Failed(
                OpenFailure::Build(cause),
            ),
            (OpenStep::Play, OpenReply::Done) => OpenStep::Opened,
            (OpenStep::Play, OpenReply::Refused(cause)) => OpenStep::Failed(
                OpenFailure::Play(cause),
            ),
            _ => self,
        }
    }

    /// The beginning.
    pub fn start() -> (step: OpenStep)
        ensures
            step == OpenStep::FindDevice,
    {
        OpenStep::FindDevice
    }

    /// Takes the reply to a step.
    pub fn replied(self, reply: OpenReply) -> (next: OpenStep)
        ensures
            next == self.after(reply),
    {
        match (self, reply) {
            (OpenStep::FindDevice, OpenReply::Done) => OpenStep::ReadConfig,
            (OpenStep::FindDevice, OpenReply::NoDevice) => OpenStep::Failed(OpenFailure::NoDevice),
            (OpenStep::ReadConfig, OpenReply::Config(format)) => match format {
                SampleFormat::Known(kind) => OpenStep::Build(kind),
                SampleFormat::Other(name) => OpenStep::Failed(OpenFailure::Format(name)),
            },
            (OpenStep::ReadConfig, OpenReply::Refused(cause)) => OpenStep::Failed(
                OpenFailure::Config(cause),
            ),
            (OpenStep::Build(_), OpenReply::Done) => OpenStep::Play,
            (OpenStep::Build(_), OpenReply::Refused(cause)) => OpenStep::Failed(
                OpenFailure::Build(cause),
            ),
            (OpenStep::Play, OpenReply::Done) => OpenStep::Opened,
            (OpenStep::Play, OpenReply::Refused(cause)) => OpenStep::Failed(
                OpenFailure::Play(cause),
            ),
            (step, _) => step,
        }
    }
}

impl OpenStep {
    /// The step after all these replies.
    pub open spec fn after_all(self, replies: Seq<OpenReply>) -> OpenStep
        decreases replies.len(),
    {
        if replies.len() == 0 {
            self
        } else {
            self.after_all(replies.drop_last()).after(replies.last())
        }
    }
}

/// An opening that has ended stays as it ended.
pub proof fn law_end_is_final(step: OpenStep, replies: Seq<OpenReply>)
    requires
        step is Opened || step is Failed,
    ensures
        step.after_all(replies) == step,
    decreases replies.len(),
{
    if replies.len() > 0 {
        law_end_is_final(step, replies.drop_last());
    }
}

/// `step` is reached only by replies that lead there: a stream plays in a
/// format that is known, and that its device has reported.
spec fn is_earned(step: OpenStep, replies: Seq<OpenReply>) -> bool {
    match step {
        OpenStep::Build(kind) => replies.contains(OpenReply::Config(SampleFormat::Known(kind))),
        OpenStep::Play | OpenStep::Opened => exists|kind: SampleKind|
            replies.contains(#[trigger] known(kind)),
        _ => true,
    }
}

/// The reply of a device that reports a known format.
pub open spec fn known(kind: SampleKind) -> OpenReply {
    OpenReply::Config(SampleFormat::Known(kind))
}

/// The failure is one that the device, or the lack of one, has given.
spec fn is_caused(step: OpenStep, replies: Seq<OpenReply>) -> bool {
    step matches OpenStep::Failed(failure) ==> replies.contains(
        match failure {
            OpenFailure::NoDevice => OpenReply::NoDevice,
            OpenFailure::Format(name) => OpenReply::Config(SampleFormat::Other(name)),
            OpenFailure::Config(cause) => OpenReply::Refused(cause),
            OpenFailure::Build(cause) => OpenReply::Refused(cause),
            OpenFailure::Play(cause) => OpenReply::Refused(cause),
        },
    )
}

proof fn lemma_end_is_due(replies: Seq<OpenReply>)
    ensures
        is_earned(OpenStep::FindDevice.after_all(replies), replies),
        is_caused(OpenStep::FindDevice.after_all(replies), replies),
    decreases replies.len(),
{
    if replies.len() > 0 {
        let before = replies.drop_last();
        let step = OpenStep::FindDevice.after_all(before);
        lemma_end_is_due(before);
        assert(replies.last() == replies[replies.len() - 1]);
        assert forall|reply: OpenReply| before.contains(reply) implies replies.contains(reply) by {
            let i = choose|i: int| 0 <= i < before.len() && before[i] == reply;
            assert(replies[i] == reply);
        }
        match step {
            OpenStep::Build(kind) => {
                assert(before.contains(known(kind)));
                assert(replies.contains(known(kind)));
            },
            OpenStep::Play | OpenStep::Opened => {
                let kind = choose|kind: SampleKind| before.contains(#[trigger] known(kind));
                assert(replies.contains(known(kind)));
            },
            _ => {},
        }
    }
}

/// A stream is opened only on a device that has reported a known format.
pub proof fn law_opened_in_a_known_format(replies: Seq<OpenReply>)
    requires
        OpenStep::FindDevice.after_all(replies) is Opened,
    ensures
        exists|kind: SampleKind| replies.contains(#[trigger] known(kind)),
{
    lemma_end_is_due(replies);
}

/// An opening fails over what was replied, and names it.
pub proof fn law_failure_names_its_cause(replies: Seq<OpenReply>, failure: OpenFailure)
    requires
        OpenStep::FindDevice.after_all(replies) == OpenStep::Failed(failure),
    ensures
        replies.contains(
            match failure {
                OpenFailure::NoDevice => OpenReply::NoDevice,
                OpenFailure::Format(name) => OpenReply::Config(SampleFormat::Other(name)),
                OpenFailure::Config(cause) => OpenReply::Refused(cause),
                OpenFailure::Build(cause) => OpenReply::Refused(cause),
                OpenFailure::Play(cause) => OpenReply::Refused(cause),
            },
        ),
{
    lemma_end_is_due(replies);
}

/// A device that is there, reports a known format and refuses nothing is
/// opened.
pub proof fn law_willing_device_is_opened(kind: SampleKind)
    ensures
        OpenStep::FindDevice.after(OpenReply::Done).after(known(kind)).after(OpenReply::Done).after(
            OpenReply::Done,
        ) is Opened,
{
}

/// An opening, reply by reply: the device, its configuration, a stream in the
/// format that the configuration has, and its start. The first reply that is
/// not what was asked for ends it with a failure that carries the reply.
pub proof fn law_opening_reply_by_reply(kind: SampleKind, name: String, cause: String)
    ensures
        ({
            let found = OpenStep::FindDevice.after(OpenReply::Done);
            let read = found.after(OpenReply::Config(SampleFormat::Known(kind)));
            let built = read.after(OpenReply::Done);
            &&& OpenStep::FindDevice.after(OpenReply::NoDevice) == OpenStep::Failed(
                OpenFailure::NoDevice,
            )
            &&& found is ReadConfig
            &&& found.after(OpenReply::Refused(cause)) == OpenStep::Failed(
                OpenFailure::Config(cause),
            )
            &&& found.after(OpenReply::Config(SampleFormat::Other(name))) == OpenStep::Failed(
                OpenFailure::Format(name),
            )
            &&& read == OpenStep::Build(kind)
            &&& read.after(OpenReply::Refused(cause)) == OpenStep::Failed(OpenFailure::Build(cause))
            &&& built is Play
            &&& built.after(OpenReply::Refused(cause)) == OpenStep::Failed(OpenFailure::Play(cause))
            &&& built.after(OpenReply::Done) is Opened
        }),
{
}

/// `start` and `replied` go through the steps of `after`, from the search for
/// a device on.
pub proof fn law_replies_move_the_opening(
    first: OpenStep,
    step: OpenStep,
    reply: OpenReply,
    next: OpenStep,
)
    requires
        call_ensures(OpenStep::start, (), first),
        call_ensures(OpenStep::replied, (step, reply), next),
    ensures
        first is FindDevice,
        next == step.after(reply),
{
}

/// A reply that does not belong to a step changes nothing.
pub proof fn law_stray_replies_change_nothing(kind: SampleKind, reply: OpenReply)
    ensures
        !(reply is Done || reply is NoDevice) ==> OpenStep::FindDevice.after(reply) is FindDevice,
        !(reply is Config || reply is Refused) ==> OpenStep::ReadConfig.after(reply) is ReadConfig,
        !(reply is Done || reply is Refused) ==> OpenStep::Build(kind).after(reply)
            == OpenStep::Build(kind),
        !(reply is Done || reply is Refused) ==> OpenStep::Play.after(reply) is Play,
{
}

} // verus!
