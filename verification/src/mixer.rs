//! Sample-and-hold mixer for two streams that drift against each other.
//!
//! Two devices hand over frames on clocks of their own, so of two frames that
//! are to be mixed one may be the shorter. It is padded with the last sample
//! that its stream delivered: padding with zero would put an edge into the
//! mix. The two samples are weighed by the gains and summed by a function of
//! the caller's, which knows what a gain is; the sum is hard-clipped to 16
//! bits.
use vstd::prelude::*;
use crate::pcm::{clip, clipped};

verus! {

/// One 10 ms frame at 16 kHz. Two frames whose lengths differ by more than
/// this are out of step; below it the difference is jitter between device
/// periods.
pub const HOLD_SAMPLES: usize = 160;

/// The default gain of each stream is 7/10, which leaves some 6 dB of
/// headroom to the sum of two streams near full scale.
pub const DEFAULT_GAIN_TENTHS: u32 = 7;

pub struct Mixer<G> {
    pub mic_gain: G,
    pub loopback_gain: G,
    /// The last sample that the microphone delivered.
    pub last_mic: Option<i16>,
    /// The last sample that the loopback stream delivered.
    pub last_loopback: Option<i16>,
    /// How often the two frames of a call were out of step. It wraps.
    pub drift_frames: u64,
}

/// The sample that a stream holds after the frame `frame`.
pub open spec fn held_after(last: Option<i16>, frame: Seq<i16>) -> Option<i16> {
    if frame.len() > 0 {
        Some(frame.last())
    } else {
        last
    }
}

/// Sample `i` of a frame that is padded with the held sample, or with
/// silence where nothing was ever delivered.
pub open spec fn padded(frame: Seq<i16>, held: Option<i16>, i: int) -> i16 {
    if i < frame.len() {
        frame[i]
    } else {
        match held {
            Some(sample) => sample,
            None => 0,
        }
    }
}

/// The length of the longer frame.
pub open spec fn mix_len(mic: Seq<i16>, loopback: Seq<i16>) -> nat {
    if mic.len() >= loopback.len() {
        mic.len()
    } else {
        loopback.len()
    }
}

/// The two frames are out of step.
pub open spec fn drifts(mic: Seq<i16>, loopback: Seq<i16>) -> bool {
    mic.len() > loopback.len() + HOLD_SAMPLES || loopback.len() > mic.len() + HOLD_SAMPLES
}

/// `r` is a weighed sum of the two samples, clipped.
pub open spec fn is_mixed<G, W: Fn(i16, G, i16, G) -> i32>(
    weigh: W,
    mic: i16,
    mic_gain: G,
    loopback: i16,
    loopback_gain: G,
    r: i16,
) -> bool {
    exists|sum: i32|
        #[trigger] weigh.ensures((mic, mic_gain, loopback, loopback_gain), sum) && r == clipped(
            sum as int,
        )
}

impl<G: Copy> Mixer<G> {
    /// A mixer that has mixed nothing yet.
    pub fn new(mic_gain: G, loopback_gain: G) -> (mixer: Self)
        ensures
            mixer.mic_gain == mic_gain,
            mixer.loopback_gain == loopback_gain,
            mixer.last_mic is None,
            mixer.last_loopback is None,
            mixer.drift_frames == 0,
    {
        Mixer { mic_gain, loopback_gain, last_mic: None, last_loopback: None, drift_frames: 0 }
    }

    /// A mixer with the default gains, which `ratio` makes of a numerator
    /// and a denominator.
    pub fn with_default_gains<R: Fn(u32, u32) -> G>(ratio: R) -> (mixer: Self)
        requires
            ratio.requires((DEFAULT_GAIN_TENTHS, 10)),
        ensures
            ratio.ensures((DEFAULT_GAIN_TENTHS, 10), mixer.mic_gain),
            mixer.loopback_gain == mixer.mic_gain,
            mixer.last_mic is None,
            mixer.last_loopback is None,
            mixer.drift_frames == 0,
    {
        let gain: G = ratio(DEFAULT_GAIN_TENTHS, 10);
        Mixer::new(gain, gain)
    }

    /// One call of `mix_into`: what becomes of the mixer and of `out`.
    pub open spec fn is_mix_of<W: Fn(i16, G, i16, G) -> i32>(
        before: Self,
        mic: Seq<i16>,
        loopback: Seq<i16>,
        weigh: W,
        after: Self,
        out: Seq<i16>,
    ) -> bool {
        &&& after.mic_gain == before.mic_gain
        &&& after.loopback_gain == before.loopback_gain
        &&& after.last_mic == held_after(before.last_mic, mic)
        &&& after.last_loopback == held_after(before.last_loopback, loopback)
        &&& after.drift_frames == (if drifts(mic, loopback) {
            (before.drift_frames + 1) % 0x1_0000_0000_0000_0000
        } else {
            before.drift_frames as int
        })
        &&& out.len() == mix_len(mic, loopback)
        &&& forall|i: int|
            0 <= i < out.len() ==> is_mixed(
                weigh,
                padded(mic, after.last_mic, i),
                before.mic_gain,
                padded(loopback, after.last_loopback, i),
                before.loopback_gain,
                #[trigger] out[i],
            )
    }

    /// Mixes into a fresh buffer.
    pub fn mix<W: Fn(i16, G, i16, G) -> i32>(
        &mut self,
        mic: &[i16],
        loopback: &[i16],
        weigh: W,
    ) -> (out: Vec<i16>)
        requires
            forall|a: i16, g: G, b: i16, h: G| #[trigger] weigh.requires((a, g, b, h)),
        ensures
            Self::is_mix_of(*old(self), mic@, loopback@, weigh, *final(self), out@),
    {
        let len: usize = if mic.len() >= loopback.len() {
            mic.len()
        } else {
            loopback.len()
        };
        let mut out: Vec<i16> = Vec::with_capacity(len);
        self.mix_into(mic, loopback, &mut out, weigh);
        out
    }

    /// Mixes into `out`, in place of what it held. The buffer is the
    /// caller's so that a capture loop does not allocate one on each tick.
    pub fn mix_into<W: Fn(i16, G, i16, G) -> i32>(
        &mut self,
        mic: &[i16],
        loopback: &[i16],
        out: &mut Vec<i16>,
        weigh: W,
    )
        requires
            forall|a: i16, g: G, b: i16, h: G| #[trigger] weigh.requires((a, g, b, h)),
        ensures
            Self::is_mix_of(*old(self), mic@, loopback@, weigh, *final(self), final(out)@),
    {
        let mic_gain: G = self.mic_gain;
        let loopback_gain: G = self.loopback_gain;
        let mic_len: usize = mic.len();
        let loopback_len: usize = loopback.len();
        let len: usize = if mic_len >= loopback_len {
            mic_len
        } else {
            loopback_len
        };
        if mic_len > 0 {
            self.last_mic = Some(mic[mic_len - 1]);
        }
        if loopback_len > 0 {
            self.last_loopback = Some(loopback[loopback_len - 1]);
        }
        if len - mic_len > HOLD_SAMPLES || len - loopback_len > HOLD_SAMPLES {
            self.drift_frames = self.drift_frames.wrapping_add(1);
        }
        let mic_hold: i16 = match self.last_mic {
            Some(sample) => sample,
            None => 0,
        };
        let loopback_hold: i16 = match self.last_loopback {
            Some(sample) => sample,
            None => 0,
        };
        out.clear();
        out.reserve(len);
        let mut i: usize = 0;
        while i < len
            invariant
                i <= len,
                mic_len == mic@.len(),
                loopback_len == loopback@.len(),
                forall|a: i16, g: G, b: i16, h: G| #[trigger] weigh.requires((a, g, b, h)),
                mic_hold == padded(Seq::empty(), self.last_mic, 0),
                loopback_hold == padded(Seq::empty(), self.last_loopback, 0),
                out@.len() == i,
                forall|j: int|
                    0 <= j < i ==> is_mixed(
                        weigh,
                        padded(mic@, self.last_mic, j),
                        mic_gain,
                        padded(loopback@, self.last_loopback, j),
                        loopback_gain,
                        #[trigger] out@[j],
                    ),
            decreases len - i,
        {
            let a: i16 = if i < mic_len {
                mic[i]
            } else {
                mic_hold
            };
            let b: i16 = if i < loopback_len {
                loopback[i]
            } else {
                loopback_hold
            };
            let sum: i32 = weigh(a, mic_gain, b, loopback_gain);
            out.push(clip(sum));
            i = i + 1;
        }
    }
}

/// Two mixes in a row are one mix of both pieces, where the first two frames
/// have one length: how a stream is cut does not change what is mixed.
pub proof fn law_mix_in_pieces<G: Copy, W: Fn(i16, G, i16, G) -> i32>(
    before: Mixer<G>,
    between: Mixer<G>,
    after: Mixer<G>,
    mic: Seq<i16>,
    loopback: Seq<i16>,
    next_mic: Seq<i16>,
    next_loopback: Seq<i16>,
    weigh: W,
    out: Seq<i16>,
    next_out: Seq<i16>,
)
    requires
        mic.len() == loopback.len(),
        Mixer::is_mix_of(before, mic, loopback, weigh, between, out),
        Mixer::is_mix_of(between, next_mic, next_loopback, weigh, after, next_out),
    ensures
        Mixer::is_mix_of(
            before,
            mic + next_mic,
            loopback + next_loopback,
            weigh,
            after,
            out + next_out,
        ),
{
    let both = out + next_out;
    assert(held_after(before.last_mic, mic + next_mic) == after.last_mic);
    assert(held_after(before.last_loopback, loopback + next_loopback) == after.last_loopback);
    let n = out.len();
    assert forall|i: int| 0 <= i < both.len() implies is_mixed(
        weigh,
        padded(mic + next_mic, after.last_mic, i),
        before.mic_gain,
        padded(loopback + next_loopback, after.last_loopback, i),
        before.loopback_gain,
        #[trigger] both[i],
    ) by {
        if i < n {
            assert(both[i] == out[i]);
        } else {
            assert(both[i] == next_out[i - n]);
        }
    }
}

/// Once a stream has delivered a sample, a frame of it that is too short, or
/// missing, is padded with the latest sample that it delivered, not with
/// silence.
pub proof fn law_short_frame_is_held<G: Copy, W: Fn(i16, G, i16, G) -> i32>(
    before: Mixer<G>,
    between: Mixer<G>,
    after: Mixer<G>,
    mic: Seq<i16>,
    loopback: Seq<i16>,
    next_mic: Seq<i16>,
    next_loopback: Seq<i16>,
    weigh: W,
    out: Seq<i16>,
    next_out: Seq<i16>,
)
    requires
        Mixer::is_mix_of(before, mic, loopback, weigh, between, out),
        Mixer::is_mix_of(between, next_mic, next_loopback, weigh, after, next_out),
    ensures
        forall|i: int|
            loopback.len() > 0 && next_loopback.len() <= i < next_mic.len() ==> is_mixed(
                weigh,
                next_mic[i],
                before.mic_gain,
                (loopback + next_loopback).last(),
                before.loopback_gain,
                #[trigger] next_out[i],
            ),
        forall|i: int|
            mic.len() > 0 && next_mic.len() <= i < next_loopback.len() ==> is_mixed(
                weigh,
                (mic + next_mic).last(),
                before.mic_gain,
                next_loopback[i],
                before.loopback_gain,
                #[trigger] next_out[i],
            ),
{
}

/// The weighing gives one result, whichever of the two weighed samples comes
/// first.
pub open spec fn is_symmetric<G, W: Fn(i16, G, i16, G) -> i32>(weigh: W) -> bool {
    forall|a: i16, g: G, b: i16, h: G, r: i32, q: i32| #[trigger]
        weigh.ensures((a, g, b, h), r) && #[trigger] weigh.ensures((b, h, a, g), q) ==> r == q
}

/// Both sides are treated alike. Where the weighing is symmetric, two mixers
/// whose gains and held samples are swapped, as those of two fresh mixers of
/// equal gains are, make one mix of swapped streams, count the same drift and
/// hold swapped samples again.
pub proof fn law_sides_are_alike<G: Copy, W: Fn(i16, G, i16, G) -> i32>(
    before: Mixer<G>,
    after: Mixer<G>,
    swapped: Mixer<G>,
    swapped_after: Mixer<G>,
    a: Seq<i16>,
    b: Seq<i16>,
    weigh: W,
    out: Seq<i16>,
    swapped_out: Seq<i16>,
)
    requires
        is_symmetric(weigh),
        swapped.mic_gain == before.loopback_gain,
        swapped.loopback_gain == before.mic_gain,
        swapped.last_mic == before.last_loopback,
        swapped.last_loopback == before.last_mic,
        swapped.drift_frames == before.drift_frames,
        Mixer::is_mix_of(before, a, b, weigh, after, out),
        Mixer::is_mix_of(swapped, b, a, weigh, swapped_after, swapped_out),
    ensures
        swapped_out == out,
        swapped_after.drift_frames == after.drift_frames,
        swapped_after.last_mic == after.last_loopback,
        swapped_after.last_loopback == after.last_mic,
{
    assert forall|i: int| 0 <= i < out.len() implies out[i] == swapped_out[i] by {
        let x = padded(a, after.last_mic, i);
        let y = padded(b, after.last_loopback, i);
        let g = before.mic_gain;
        let h = before.loopback_gain;
        assert(is_mixed(weigh, x, g, y, h, out[i]));
        assert(is_mixed(weigh, y, h, x, g, swapped_out[i]));
        let r = choose|sum: i32| #[trigger]
            weigh.ensures((x, g, y, h), sum) && out[i] == clipped(sum as int);
        let q = choose|sum: i32| #[trigger]
            weigh.ensures((y, h, x, g), sum) && swapped_out[i] == clipped(sum as int);
        assert(r == q);
    }
    assert(swapped_out =~= out);
}

/// Every sample of a mix, in numbers. `a` is the sample that the microphone
/// has at `i`, or else the latest that it has delivered, or else 0; `b` is
/// that of the loopback stream. Of the two comes their weighed sum where it
/// fits in 16 bits, and the nearer end of the range where it does not.
pub proof fn law_mix_sample_by_sample<G: Copy, W: Fn(i16, G, i16, G) -> i32>(
    before: Mixer<G>,
    mic: Seq<i16>,
    loopback: Seq<i16>,
    weigh: W,
    after: Mixer<G>,
    out: Seq<i16>,
    i: int,
    a: i16,
    b: i16,
)
    requires
        Mixer::is_mix_of(before, mic, loopback, weigh, after, out),
        0 <= i < out.len(),
        i < mic.len() ==> a == mic[i],
        i >= mic.len() && mic.len() > 0 ==> a == mic[mic.len() - 1],
        i >= mic.len() && mic.len() == 0 ==> (match before.last_mic {
            Some(held) => a == held,
            None => a == 0,
        }),
        i < loopback.len() ==> b == loopback[i],
        i >= loopback.len() && loopback.len() > 0 ==> b == loopback[loopback.len() - 1],
        i >= loopback.len() && loopback.len() == 0 ==> (match before.last_loopback {
            Some(held) => b == held,
            None => b == 0,
        }),
    ensures
        exists|sum: i32|
            {
                &&& #[trigger] weigh.ensures((a, before.mic_gain, b, before.loopback_gain), sum)
                &&& -32768 <= sum <= 32767 ==> out[i] == sum
                &&& sum > 32767 ==> out[i] == 32767
                &&& sum < -32768 ==> out[i] == -32768
            },
{
    assert(is_mixed(
        weigh,
        padded(mic, after.last_mic, i),
        before.mic_gain,
        padded(loopback, after.last_loopback, i),
        before.loopback_gain,
        out[i],
    ));
    assert(padded(mic, after.last_mic, i) == a);
    assert(padded(loopback, after.last_loopback, i) == b);
    let sum = choose|sum: i32| #[trigger]
        weigh.ensures((a, before.mic_gain, b, before.loopback_gain), sum) && out[i] == clipped(
            sum as int,
        );
    assert(weigh.ensures((a, before.mic_gain, b, before.loopback_gain), sum));
}

/// A mix is as long as the longer frame, keeps the gains, remembers the last
/// sample of each frame that has one, and counts a frame of drift just where
/// one frame is over 10 ms longer than the other.
pub proof fn law_mix_keeps_count<G: Copy, W: Fn(i16, G, i16, G) -> i32>(
    before: Mixer<G>,
    mic: Seq<i16>,
    loopback: Seq<i16>,
    weigh: W,
    after: Mixer<G>,
    out: Seq<i16>,
)
    requires
        Mixer::is_mix_of(before, mic, loopback, weigh, after, out),
    ensures
        out.len() >= mic.len(),
        out.len() >= loopback.len(),
        out.len() == mic.len() || out.len() == loopback.len(),
        after.mic_gain == before.mic_gain,
        after.loopback_gain == before.loopback_gain,
        mic.len() > 0 ==> after.last_mic == Some(mic[mic.len() - 1]),
        mic.len() == 0 ==> after.last_mic == before.last_mic,
        loopback.len() > 0 ==> after.last_loopback == Some(loopback[loopback.len() - 1]),
        loopback.len() == 0 ==> after.last_loopback == before.last_loopback,
        -160 <= mic.len() - loopback.len() <= 160 ==> after.drift_frames == before.drift_frames,
        !(-160 <= mic.len() - loopback.len() <= 160) && before.drift_frames < u64::MAX
            ==> after.drift_frames == before.drift_frames + 1,
        !(-160 <= mic.len() - loopback.len() <= 160) && before.drift_frames == u64::MAX
            ==> after.drift_frames == 0,
{
}

/// A fresh mixer holds no sample and has seen no drift; by default both
/// streams have the gain that `ratio` makes of 7 and 10.
pub proof fn law_fresh_mixer_holds_nothing<G: Copy, R: Fn(u32, u32) -> G>(
    mic_gain: G,
    loopback_gain: G,
    mixer: Mixer<G>,
    ratio: R,
    by_default: Mixer<G>,
)
    requires
        call_ensures(Mixer::<G>::new, (mic_gain, loopback_gain), mixer),
        call_ensures(Mixer::<G>::with_default_gains::<R>, (ratio,), by_default),
    ensures
        mixer.mic_gain == mic_gain,
        mixer.loopback_gain == loopback_gain,
        mixer.last_mic is None,
        mixer.last_loopback is None,
        mixer.drift_frames == 0,
        ratio.ensures((7, 10), by_default.mic_gain),
        ratio.ensures((7, 10), by_default.loopback_gain),
        by_default.last_mic is None,
        by_default.last_loopback is None,
        by_default.drift_frames == 0,
{
}

/// Both calls mix as `law_mix_sample_by_sample` has it: into a fresh buffer,
/// or in place of what the caller's buffer held.
pub proof fn law_both_calls_mix<G: Copy, W: Fn(i16, G, i16, G) -> i32>(
    mixer: &mut Mixer<G>,
    mic: &[i16],
    loopback: &[i16],
    weigh: W,
    fresh: Vec<i16>,
    other: &mut Mixer<G>,
    out: &mut Vec<i16>,
)
    requires
        call_ensures(Mixer::<G>::mix::<W>, (mixer, mic, loopback, weigh), fresh),
        call_ensures(Mixer::<G>::mix_into::<W>, (other, mic, loopback, out, weigh), ()),
    ensures
        Mixer::is_mix_of(*old(mixer), mic@, loopback@, weigh, *final(mixer), fresh@),
        Mixer::is_mix_of(*old(other), mic@, loopback@, weigh, *final(other), final(out)@),
{
}

} // verus!
