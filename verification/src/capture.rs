//! The capture loop: frames are cut from the two streams, processed, measured
//! and turned into events.
use vstd::prelude::*;
use vstd::string::*;
use crate::apm::{
    is_far_frame, is_near_frame, last_code, law_far_end_hears_the_frame, law_near_end_is_cleaned, Apm,
    APM_FRAME_SIZE, APM_PLAYBACK_DELAY_MS, APM_SAMPLE_RATE,
};
use crate::metering::{is_level, LevelThrottle, LEVEL_EMIT_INTERVAL_MS};
use crate::pcm::{
    base64_octets, base64_text, clip, clipped, encode_base64, law_base64_gives_bytes_back,
    law_pcm_bytes_give_samples_back, pcm_bytes, pcm_samples, push_sample,
};
use crate::{CaptureOptions, FrameEvent, PcmSource};

verus! {

pub const TARGET_SAMPLE_RATE: u32 = 16_000;

pub const TARGET_CHANNELS: u8 = 1;

/// 20 ms at 16 kHz: frames this short let a streaming speech recogniser
/// update its partial results all the time.
pub const FRAME_SAMPLES: usize = APM_FRAME_SIZE * 2;

/// How long the capture loop waits for a stop between two ticks.
pub const DRAIN_TICK_MS: u64 = 10;

/// The delay that the echo canceller is told to start from: the acoustic
/// path alone takes 10 to 50 ms, a buffered playback path some 300 ms, and
/// the estimator tolerates an error of some 250 ms.
pub const APM_STREAM_DELAY_MS: i32 = 150;

/// One second of audio: a tick drains no more, so that a runaway buffer
/// never starves the check for a stop.
pub const MAX_FRAMES_PER_TICK: u32 = 50;

/// `String::clear`: the string is empty afterwards. It keeps its memory.
pub assume_specification[ String::clear ](s: &mut String)
    ensures
        final(s)@ == Seq::<char>::empty(),
;

/// `String::with_capacity`: a fresh string is empty, whatever it reserves.
pub assume_specification[ String::with_capacity ](capacity: usize) -> (s: String)
    requires
        capacity <= isize::MAX,
    ensures
        s@ == Seq::<char>::empty(),
;

/// What the capture loop reuses from frame to frame, so that it does not
/// allocate on the audio path.
pub struct LoopScratch<T> {
    /// The number of the frame.
    pub seq: u64,
    pub mic_frame: Vec<T>,
    pub lp_frame: Vec<T>,
    pub byte_scratch: Vec<u8>,
    pub b64_scratch: String,
}

/// A whole frame is in the buffer.
pub open spec fn has_frame<T>(buf: Seq<T>) -> bool {
    buf.len() >= FRAME_SAMPLES
}

/// The frame that is cut from the front of the buffer, or nothing where none
/// is whole.
pub open spec fn cut_frame<T>(buf: Seq<T>) -> Seq<T> {
    if has_frame(buf) {
        buf.take(FRAME_SAMPLES as int)
    } else {
        seq![]
    }
}

/// What is left of the buffer when a frame was cut.
pub open spec fn left_of<T>(buf: Seq<T>) -> Seq<T> {
    if has_frame(buf) {
        buf.skip(FRAME_SAMPLES as int)
    } else {
        buf
    }
}

/// Moves the first `FRAME_SAMPLES` samples of `buf` into `frame`, in place
/// of what it held. Where there are fewer, nothing happens.
pub fn take_frame<T: Copy>(buf: &mut Vec<T>, frame: &mut Vec<T>) -> (r: bool)
    ensures
        r == has_frame(old(buf)@),
        final(buf)@ == left_of(old(buf)@),
        r ==> final(frame)@ == cut_frame(old(buf)@),
        !r ==> *final(frame) == *old(frame) && *final(buf) == *old(buf),
{
    let len: usize = buf.len();
    if len < FRAME_SAMPLES {
        return false;
    }
    frame.clear();
    let mut i: usize = 0;
    while i < FRAME_SAMPLES
        invariant
            i <= FRAME_SAMPLES,
            len == buf@.len(),
            len >= FRAME_SAMPLES,
            buf@ == old(buf)@,
            frame@ =~= old(buf)@.take(i as int),
        decreases FRAME_SAMPLES - i,
    {
        frame.push(buf[i]);
        i = i + 1;
    }
    let rest: usize = len - FRAME_SAMPLES;
    let mut j: usize = 0;
    while j < rest
        invariant
            j <= rest,
            len == old(buf)@.len(),
            rest == len - FRAME_SAMPLES,
            buf@.len() == len,
            forall|k: int| 0 <= k < j ==> #[trigger] buf@[k] == old(buf)@[k + FRAME_SAMPLES],
            forall|k: int| j <= k < len ==> #[trigger] buf@[k] == old(buf)@[k],
        decreases rest - j,
    {
        let sample: T = buf[j + FRAME_SAMPLES];
        buf.set(j, sample);
        j = j + 1;
    }
    buf.truncate(rest);
    proof {
        assert(buf@ =~= old(buf)@.skip(FRAME_SAMPLES as int));
    }
    true
}

impl<T: Copy> LoopScratch<T> {
    /// Fresh scratch, with room for one frame of each kind.
    pub fn new() -> (scratch: Self)
        ensures
            scratch.seq == 0,
            scratch.mic_frame@.len() == 0,
            scratch.lp_frame@.len() == 0,
            scratch.byte_scratch@.len() == 0,
            scratch.b64_scratch@.len() == 0,
    {
        LoopScratch {
            seq: 0,
            mic_frame: Vec::with_capacity(FRAME_SAMPLES),
            lp_frame: Vec::with_capacity(FRAME_SAMPLES),
            byte_scratch: Vec::with_capacity(FRAME_SAMPLES * 2),
            // Base64 grows by 4/3; three bytes for each sample leave room.
            b64_scratch: String::with_capacity(FRAME_SAMPLES * 3),
        }
    }

    /// Takes the next microphone frame, if a whole one is there.
    pub fn pull_mic(&mut self, mic_buf: &mut Vec<T>) -> (r: bool)
        ensures
            r == has_frame(old(mic_buf)@),
            final(mic_buf)@ == left_of(old(mic_buf)@),
            r ==> final(self).mic_frame@ == cut_frame(old(mic_buf)@),
            !r ==> *final(self) == *old(self) && *final(mic_buf) == *old(mic_buf),
            *final(self) == (LoopScratch { mic_frame: final(self).mic_frame, ..*old(self) }),
    {
        take_frame(mic_buf, &mut self.mic_frame)
    }

    /// Takes the loopback frame that goes with the microphone frame. The
    /// loopback stream may lag by a frame or two, so that one may be
    /// missing: the frame is then empty.
    pub fn pull_loopback(&mut self, lp_buf: &mut Vec<T>, has_loopback: bool)
        ensures
            has_loopback ==> final(self).lp_frame@ == cut_frame(old(lp_buf)@) && final(lp_buf)@
                == left_of(old(lp_buf)@),
            !has_loopback ==> final(self).lp_frame@.len() == 0 && *final(lp_buf) == *old(lp_buf),
            *final(self) == (LoopScratch { lp_frame: final(self).lp_frame, ..*old(self) }),
    {
        self.lp_frame.clear();
        if has_loopback {
            take_frame(lp_buf, &mut self.lp_frame);
        }
    }

    /// The levels of the two frames, which `rms` measures; an absent
    /// loopback frame is silent.
    pub fn levels<L, R: Fn(&[T]) -> L>(&self, silence: L, rms: &R) -> (r: (L, L))
        requires
            forall|frame: &[T]| #[trigger] rms.requires((frame,)),
        ensures
            is_level(*rms, self.mic_frame@, r.0),
            self.lp_frame@.len() == 0 ==> r.1 == silence,
            self.lp_frame@.len() > 0 ==> is_level(*rms, self.lp_frame@, r.1),
    {
        let mic: L = rms(self.mic_frame.as_slice());
        proof {
            assert(is_level(*rms, self.mic_frame@, mic));
        }
        let lp: L = if self.lp_frame.len() == 0 {
            silence
        } else {
            rms(self.lp_frame.as_slice())
        };
        proof {
            assert(self.lp_frame@.len() > 0 ==> is_level(*rms, self.lp_frame@, lp));
        }
        (mic, lp)
    }
}

/// The samples as the wire form holds them: clipped to 16 bits.
pub open spec fn clipped_all(samples: Seq<i32>) -> Seq<i16> {
    Seq::new(samples.len(), |i: int| clipped(samples[i] as int))
}

/// Each of `quantised` is what `quantise` makes of the sample in its place.
pub open spec fn is_quantised<T, Q: Fn(T) -> i32>(
    quantise: Q,
    samples: Seq<T>,
    quantised: Seq<i32>,
) -> bool {
    &&& quantised.len() == samples.len()
    &&& forall|i: int|
        0 <= i < samples.len() ==> quantise.ensures((samples[i],), #[trigger] quantised[i])
}

/// `event` is the PCM event of the quantised samples.
pub open spec fn is_pcm_event<L>(
    event: FrameEvent<L>,
    seq: u64,
    source: PcmSource,
    quantised: Seq<i32>,
) -> bool {
    event matches FrameEvent::Pcm {
        seq: event_seq,
        source: event_source,
        sample_rate,
        channels,
        samples_base64,
    } && {
        &&& event_seq == seq
        &&& event_source == source
        &&& sample_rate == TARGET_SAMPLE_RATE
        &&& channels == TARGET_CHANNELS
        &&& samples_base64@ == base64_text(pcm_bytes(clipped_all(quantised)))
    }
}

/// `event` is the PCM event of the samples, which `quantise` has quantised.
pub open spec fn is_pcm_event_of<T, L, Q: Fn(T) -> i32>(
    event: FrameEvent<L>,
    seq: u64,
    source: PcmSource,
    samples: Seq<T>,
    quantise: Q,
) -> bool {
    exists|quantised: Seq<i32>|
        #[trigger] is_quantised(quantise, samples, quantised) && is_pcm_event(
            event,
            seq,
            source,
            quantised,
        )
}

/// Makes the event of one frame: samples to 16 bits, little-endian bytes,
/// base64. `quantise` scales a sample so that full scale is 32767 and drops
/// the fraction. The scratch buffers are the caller's, to be reused.
pub fn emit_pcm_frame<T: Copy, L, Q: Fn(T) -> i32>(
    seq: u64,
    source: PcmSource,
    samples: &[T],
    byte_scratch: &mut Vec<u8>,
    b64_scratch: &mut String,
    quantise: &Q,
) -> (event: FrameEvent<L>)
    requires
        samples@.len() <= isize::MAX / 4,
        forall|sample: T| #[trigger] quantise.requires((sample,)),
    ensures
        exists|quantised: Seq<i32>|
            {
                &&& #[trigger] is_quantised(*quantise, samples@, quantised)
                &&& is_pcm_event(event, seq, source, quantised)
                &&& final(byte_scratch)@ == pcm_bytes(clipped_all(quantised))
                &&& final(b64_scratch)@ == base64_text(pcm_bytes(clipped_all(quantised)))
            },
{
    byte_scratch.clear();
    let len: usize = samples.len();
    byte_scratch.reserve(len * 2);
    let ghost mut quantised: Seq<i32> = seq![];
    let mut i: usize = 0;
    proof {
        assert(pcm_bytes(clipped_all(quantised)) =~= Seq::<u8>::empty());
    }
    while i < len
        invariant
            i <= len,
            len == samples@.len(),
            quantised.len() == i,
            forall|sample: T| #[trigger] quantise.requires((sample,)),
            forall|k: int|
                0 <= k < i ==> quantise.ensures((samples@[k],), #[trigger] quantised[k]),
            byte_scratch@ == pcm_bytes(clipped_all(quantised)),
        decreases len - i,
    {
        let scaled: i32 = quantise(samples[i]);
        let ghost before = quantised;
        push_sample(byte_scratch, clip(scaled));
        proof {
            quantised = quantised.push(scaled);
            let bytes = pcm_bytes(clipped_all(quantised));
            assert forall|k: int| 0 <= k < bytes.len() implies bytes[k] == byte_scratch@[k] by {
                if k < 2 * before.len() {
                    assert(clipped_all(quantised)[k / 2] == clipped_all(before)[k / 2]);
                    assert(pcm_bytes(clipped_all(before))[k] == bytes[k]);
                }
            }
            assert(byte_scratch@ =~= bytes);
        }
        i = i + 1;
    }
    b64_scratch.clear();
    encode_base64(byte_scratch, b64_scratch);
    let event: FrameEvent<L> = FrameEvent::Pcm {
        seq,
        source,
        sample_rate: TARGET_SAMPLE_RATE,
        channels: TARGET_CHANNELS,
        samples_base64: b64_scratch.clone(),
    };
    proof {
        assert(is_quantised(*quantise, samples@, quantised));
    }
    event
}

/// The capture loop between two devices and a listener. `E` is the engine of
/// the audio processing module.
pub struct CaptureLoop<T, L, E> {
    pub options: CaptureOptions,
    pub has_loopback: bool,
    pub apm: Option<Apm<E>>,
    pub scratch: LoopScratch<T>,
    pub throttle: LevelThrottle<L>,
    pub emitted_this_tick: u32,
}

impl<T: Copy, L: Copy, E> CaptureLoop<T, L, E> {
    /// There is a loopback frame beside the microphone frame.
    pub open spec fn has_lp_frame(&self) -> bool {
        self.has_loopback && self.scratch.lp_frame@.len() > 0
    }

    /// `fed` is the processing module once the loopback frame, if there is
    /// one, was handed to it.
    pub open spec fn is_fed<F: Fn(E, &[T]) -> (E, i32)>(
        &self,
        far: F,
        module: Apm<E>,
        fed: Apm<E>,
    ) -> bool {
        if self.has_lp_frame() {
            exists|code: i32| #[trigger]
                Apm::is_far(module, self.scratch.lp_frame@, far, fed, code)
        } else {
            fed == module
        }
    }

    /// `apm` and `mic` are the processing module and the microphone frame
    /// once the frame at hand has gone through the module: first the far
    /// end, where there is a loopback frame, so that the near end is cleaned
    /// with a fresh echo model.
    pub open spec fn is_cleaned<
        F: Fn(E, &[T]) -> (E, i32),
        N: Fn(E, &[T]) -> (E, i32, [T; APM_FRAME_SIZE]),
    >(&self, far: F, near: N, apm: Option<Apm<E>>, mic: Seq<T>) -> bool {
        match self.apm {
            None => apm is None && mic == self.scratch.mic_frame@,
            Some(module) => exists|fed: Apm<E>, cleaned: Apm<E>, near_code: i32|
                {
                    &&& self.is_fed(far, module, fed)
                    &&& #[trigger] Apm::is_near(
                        fed,
                        self.scratch.mic_frame@,
                        near,
                        cleaned,
                        mic,
                        near_code,
                    )
                    &&& apm == Some(cleaned)
                },
        }
    }

    /// The frame of one source, where `mic` is that of the microphone.
    pub open spec fn frame_of(&self, mic: Seq<T>, source: PcmSource) -> Seq<T> {
        match source {
            PcmSource::Mic => mic,
            PcmSource::Loopback => self.scratch.lp_frame@,
        }
    }

    /// The sources whose frames are emitted, in order: each is a stream of
    /// its own.
    pub open spec fn sources(&self) -> Seq<PcmSource> {
        if self.options.level_only {
            seq![]
        } else if self.has_lp_frame() {
            seq![PcmSource::Mic, PcmSource::Loopback]
        } else {
            seq![PcmSource::Mic]
        }
    }

    /// `pcm` are the PCM events of the frame at hand, one for each source.
    pub open spec fn are_pcm_events<Q: Fn(T) -> i32>(
        &self,
        mic: Seq<T>,
        quantise: Q,
        pcm: Seq<FrameEvent<L>>,
    ) -> bool {
        &&& pcm.len() == self.sources().len()
        &&& forall|i: int|
            0 <= i < pcm.len() ==> is_pcm_event_of(
                #[trigger] pcm[i],
                self.scratch.seq,
                self.sources()[i],
                self.frame_of(mic, self.sources()[i]),
                quantise,
            )
    }

    /// The levels of the frame at hand, of which `rms` makes one for each
    /// frame; an absent loopback frame is silent.
    pub open spec fn are_levels<R: Fn(&[T]) -> L>(
        &self,
        mic: Seq<T>,
        silence: L,
        rms: R,
        mic_rms: L,
        lp_rms: L,
    ) -> bool {
        &&& is_level(rms, mic, mic_rms)
        &&& if self.scratch.lp_frame@.len() == 0 {
            lp_rms == silence
        } else {
            is_level(rms, self.scratch.lp_frame@, lp_rms)
        }
    }

    /// The events of the frame at hand, where `mic` is that of the
    /// microphone: its PCM, and its levels where the throttle lets them through.
    pub open spec fn are_events<R: Fn(&[T]) -> L, C: Fn(L, L) -> bool, Q: Fn(T) -> i32>(
        &self,
        mic: Seq<T>,
        now_ms: u128,
        silence: L,
        rms: R,
        close: C,
        quantise: Q,
        throttle: LevelThrottle<L>,
        events: Seq<FrameEvent<L>>,
    ) -> bool {
        exists|pcm: Seq<FrameEvent<L>>, mic_rms: L, lp_rms: L, level: Option<FrameEvent<L>>|
            {
                &&& #[trigger] self.are_pcm_events(mic, quantise, pcm)
                &&& self.are_levels(mic, silence, rms, mic_rms, lp_rms)
                &&& #[trigger] LevelThrottle::is_offer(
                    self.throttle,
                    now_ms,
                    mic_rms,
                    lp_rms,
                    close,
                    throttle,
                    level,
                )
                &&& events == match level {
                    Some(event) => pcm.push(event),
                    None => pcm,
                }
            }
    }

    /// `r` is a loop that has taken nothing yet, and whose processing module,
    /// if there is one, was told the delay to start from.
    pub open spec fn is_new<D: Fn(E, i32) -> E>(
        options: CaptureOptions,
        has_loopback: bool,
        apm: Option<Apm<E>>,
        set_delay: D,
        r: Self,
    ) -> bool {
        &&& r.options == options
        &&& r.has_loopback == has_loopback
        &&& match apm {
            Some(opened) => r.apm matches Some(seeded) && Apm::is_delayed(
                opened,
                APM_STREAM_DELAY_MS,
                set_delay,
                seeded,
            ),
            None => r.apm is None,
        }
        &&& r.scratch.seq == 0
        &&& r.scratch.mic_frame@.len() == 0
        &&& r.scratch.lp_frame@.len() == 0
        &&& r.throttle.last is None
        &&& r.throttle.last_emit_at_ms == 0
        &&& r.emitted_this_tick == 0
    }

    /// A loop over an opened processing module, if there is one. The module
    /// is told the delay to start from here, before it can see a frame.
    pub fn new<D: Fn(E, i32) -> E>(
        options: CaptureOptions,
        has_loopback: bool,
        apm: Option<Apm<E>>,
        set_delay: D,
    ) -> (r: Self)
        requires
            forall|engine: E| #[trigger] set_delay.requires((engine, APM_STREAM_DELAY_MS)),
        ensures
            Self::is_new(options, has_loopback, apm, set_delay, r),
    {
        let seeded: Option<Apm<E>> = match apm {
            Some(opened) => {
                let mut module: Apm<E> = opened;
                module.set_stream_delay_ms(APM_STREAM_DELAY_MS, set_delay);
                Some(module)
            },
            None => None,
        };
        CaptureLoop {
            options,
            has_loopback,
            apm: seeded,
            scratch: LoopScratch::new(),
            throttle: LevelThrottle::new(),
            emitted_this_tick: 0,
        }
    }

    /// Starts a tick.
    pub fn begin_tick(&mut self)
        ensures
            *final(self) == (CaptureLoop { emitted_this_tick: 0, ..*old(self) }),
    {
        self.emitted_this_tick = 0;
    }

    /// One call of `next_frame`: what becomes of the loop and of the buffer,
    /// and what is returned.
    pub open spec fn is_next_frame(
        before: Self,
        mic_buf: Seq<T>,
        after: Self,
        mic_left: Seq<T>,
        r: bool,
    ) -> bool {
        &&& r == (before.emitted_this_tick < MAX_FRAMES_PER_TICK && has_frame(mic_buf))
        &&& if r {
            &&& after.scratch.mic_frame@ == cut_frame(mic_buf)
            &&& mic_left == left_of(mic_buf)
            &&& after == CaptureLoop {
                scratch: LoopScratch { mic_frame: after.scratch.mic_frame, ..before.scratch },
                ..before
            }
        } else {
            after == before && mic_left == mic_buf
        }
    }

    /// Takes the next microphone frame of the tick, if a whole one is there
    /// and the tick may take another.
    pub fn next_frame(&mut self, mic_buf: &mut Vec<T>) -> (r: bool)
        ensures
            Self::is_next_frame(*old(self), old(mic_buf)@, *final(self), final(mic_buf)@, r),
    {
        if self.emitted_this_tick >= MAX_FRAMES_PER_TICK {
            return false;
        }
        self.scratch.pull_mic(mic_buf)
    }

    /// One call of `pair_loopback`: what becomes of the loop and of the
    /// buffer.
    pub open spec fn is_paired(before: Self, lp_buf: Seq<T>, after: Self, lp_left: Seq<T>) -> bool {
        &&& if before.has_loopback {
            after.scratch.lp_frame@ == cut_frame(lp_buf) && lp_left == left_of(lp_buf)
        } else {
            after.scratch.lp_frame@.len() == 0 && lp_left == lp_buf
        }
        &&& after == CaptureLoop {
            scratch: LoopScratch { lp_frame: after.scratch.lp_frame, ..before.scratch },
            ..before
        }
    }

    /// Takes the loopback frame that goes with it, if one is there.
    pub fn pair_loopback(&mut self, lp_buf: &mut Vec<T>)
        ensures
            Self::is_paired(*old(self), old(lp_buf)@, *final(self), final(lp_buf)@),
    {
        let has_loopback: bool = self.has_loopback;
        self.scratch.pull_loopback(lp_buf, has_loopback);
    }

    /// Runs the frame at hand through the processing module, if there is
    /// one.
    pub fn clean_frame<
        F: Fn(E, &[T]) -> (E, i32),
        N: Fn(E, &[T]) -> (E, i32, [T; APM_FRAME_SIZE]),
    >(&mut self, far: &F, near: &N)
        requires
            forall|engine: E, src: &[T]|
                src@.len() == APM_FRAME_SIZE ==> #[trigger] far.requires((engine, src)),
            forall|engine: E, src: &[T]|
                src@.len() == APM_FRAME_SIZE ==> #[trigger] near.requires((engine, src)),
        ensures
            old(self).is_cleaned(*far, *near, final(self).apm, final(self).scratch.mic_frame@),
            final(self).scratch.mic_frame@.len() == old(self).scratch.mic_frame@.len(),
            *final(self) == (CaptureLoop {
                scratch: LoopScratch {
                    mic_frame: final(self).scratch.mic_frame,
                    ..old(self).scratch
                },
                apm: final(self).apm,
                ..*old(self)
            }),
    {
        if let Some(mut module) = self.apm.take() {
            let ghost given = module;
            if self.has_loopback && self.scratch.lp_frame.len() > 0 {
                module.process_far(self.scratch.lp_frame.as_slice(), far);
            }
            proof {
                assert(old(self).is_fed(*far, given, module));
            }
            let ghost fed = module;
            let code: i32 = module.process_near(&mut self.scratch.mic_frame, near);
            proof {
                assert(Apm::is_near(
                    fed,
                    old(self).scratch.mic_frame@,
                    *near,
                    module,
                    self.scratch.mic_frame@,
                    code,
                ));
            }
            self.apm = Some(module);
        }
    }

    /// Makes the PCM event of the frame of one source.
    pub fn pcm_event<Q: Fn(T) -> i32>(&mut self, source: PcmSource, quantise: &Q) -> (event:
        FrameEvent<L>)
        requires
            old(self).scratch.mic_frame@.len() <= isize::MAX / 4,
            old(self).scratch.lp_frame@.len() <= isize::MAX / 4,
            forall|sample: T| #[trigger] quantise.requires((sample,)),
        ensures
            is_pcm_event_of(
                event,
                old(self).scratch.seq,
                source,
                old(self).frame_of(old(self).scratch.mic_frame@, source),
                *quantise,
            ),
            *final(self) == (CaptureLoop {
                scratch: LoopScratch {
                    byte_scratch: final(self).scratch.byte_scratch,
                    b64_scratch: final(self).scratch.b64_scratch,
                    ..old(self).scratch
                },
                ..*old(self)
            }),
    {
        match source {
            PcmSource::Mic => emit_pcm_frame(
                self.scratch.seq,
                source,
                &self.scratch.mic_frame,
                &mut self.scratch.byte_scratch,
                &mut self.scratch.b64_scratch,
                quantise,
            ),
            PcmSource::Loopback => emit_pcm_frame(
                self.scratch.seq,
                source,
                &self.scratch.lp_frame,
                &mut self.scratch.byte_scratch,
                &mut self.scratch.b64_scratch,
                quantise,
            ),
        }
    }

    /// One call of `process_frame`: what becomes of the loop, and the events
    /// that come of it.
    pub open spec fn is_frame<
        F: Fn(E, &[T]) -> (E, i32),
        N: Fn(E, &[T]) -> (E, i32, [T; APM_FRAME_SIZE]),
        R: Fn(&[T]) -> L,
        C: Fn(L, L) -> bool,
        Q: Fn(T) -> i32,
    >(
        before: Self,
        now_ms: u128,
        silence: L,
        far: F,
        near: N,
        rms: R,
        close: C,
        quantise: Q,
        after: Self,
        events: Seq<FrameEvent<L>>,
    ) -> bool {
        &&& before.is_cleaned(far, near, after.apm, after.scratch.mic_frame@)
        &&& before.are_events(
            after.scratch.mic_frame@,
            now_ms,
            silence,
            rms,
            close,
            quantise,
            after.throttle,
            events,
        )
        &&& after.scratch.seq == (before.scratch.seq + 1) % 0x1_0000_0000_0000_0000
        &&& after == CaptureLoop {
            scratch: LoopScratch { lp_frame: before.scratch.lp_frame, ..after.scratch },
            apm: after.apm,
            throttle: after.throttle,
            emitted_this_tick: (before.emitted_this_tick + 1) as u32,
            ..before
        }
    }

    /// Processes the frame at hand and makes its events: the frame goes
    /// through the processing module, and then its PCM and its levels are
    /// taken, so that a listener hears, and a meter shows, what the module
    /// has made of it. The next frame has the next number, which wraps, and
    /// the tick has taken one more. The events replace what `events` held:
    /// the buffer is the caller's, to be reused.
    pub fn process_frame<
        F: Fn(E, &[T]) -> (E, i32),
        N: Fn(E, &[T]) -> (E, i32, [T; APM_FRAME_SIZE]),
        R: Fn(&[T]) -> L,
        C: Fn(L, L) -> bool,
        Q: Fn(T) -> i32,
    >(
        &mut self,
        now_ms: u128,
        silence: L,
        far: F,
        near: N,
        rms: R,
        close: C,
        quantise: Q,
        events: &mut Vec<FrameEvent<L>>,
    )
        requires
            old(self).emitted_this_tick < MAX_FRAMES_PER_TICK,
            old(self).throttle.last_emit_at_ms <= now_ms,
            old(self).scratch.mic_frame@.len() <= isize::MAX / 4,
            old(self).scratch.lp_frame@.len() <= isize::MAX / 4,
            forall|engine: E, src: &[T]|
                src@.len() == APM_FRAME_SIZE ==> #[trigger] far.requires((engine, src)),
            forall|engine: E, src: &[T]|
                src@.len() == APM_FRAME_SIZE ==> #[trigger] near.requires((engine, src)),
            forall|frame: &[T]| #[trigger] rms.requires((frame,)),
            forall|current: L, previous: L| #[trigger] close.requires((current, previous)),
            forall|sample: T| #[trigger] quantise.requires((sample,)),
        ensures
            Self::is_frame(
                *old(self),
                now_ms,
                silence,
                far,
                near,
                rms,
                close,
                quantise,
                *final(self),
                final(events)@,
            ),
    {
        self.clean_frame(&far, &near);
        let ghost mic = self.scratch.mic_frame@;
        let (mic_rms, lp_rms) = self.scratch.levels(silence, &rms);
        events.clear();
        if self.options.emits_pcm() {
            events.push(self.pcm_event(PcmSource::Mic, &quantise));
            if self.has_loopback && self.scratch.lp_frame.len() > 0 {
                events.push(self.pcm_event(PcmSource::Loopback, &quantise));
            }
        }
        let ghost pcm = events@;
        let level: Option<FrameEvent<L>> = self.throttle.offer(now_ms, mic_rms, lp_rms, close);
        proof {
            assert(old(self).are_pcm_events(mic, quantise, pcm));
            assert(old(self).are_levels(mic, silence, rms, mic_rms, lp_rms));
            assert(LevelThrottle::is_offer(
                old(self).throttle,
                now_ms,
                mic_rms,
                lp_rms,
                close,
                self.throttle,
                level,
            ));
        }
        if let Some(event) = level {
            events.push(event);
        }
        self.scratch.seq = self.scratch.seq.wrapping_add(1);
        self.emitted_this_tick = self.emitted_this_tick + 1;
    }

    /// With `level_only` no PCM is emitted: of a frame comes its level, or
    /// nothing.
    pub proof fn law_level_only_emits_no_pcm<
        R: Fn(&[T]) -> L,
        C: Fn(L, L) -> bool,
        Q: Fn(T) -> i32,
    >(
        self,
        mic: Seq<T>,
        now_ms: u128,
        silence: L,
        rms: R,
        close: C,
        quantise: Q,
        throttle: LevelThrottle<L>,
        events: Seq<FrameEvent<L>>,
    )
        requires
            self.options.level_only,
            self.are_events(mic, now_ms, silence, rms, close, quantise, throttle, events),
        ensures
            events.len() <= 1,
            events.len() == 1 ==> events[0] is Level,
    {
    }

    /// The parts of the events of a frame: its PCM events, its levels and
    /// what the throttle made of them.
    pub proof fn lemma_parts<R: Fn(&[T]) -> L, C: Fn(L, L) -> bool, Q: Fn(T) -> i32>(
        self,
        mic: Seq<T>,
        now_ms: u128,
        silence: L,
        rms: R,
        close: C,
        quantise: Q,
        throttle: LevelThrottle<L>,
        events: Seq<FrameEvent<L>>,
    ) -> (r: (Seq<FrameEvent<L>>, L, L, Option<FrameEvent<L>>))
        requires
            self.are_events(mic, now_ms, silence, rms, close, quantise, throttle, events),
        ensures
            self.are_pcm_events(mic, quantise, r.0),
            self.are_levels(mic, silence, rms, r.1, r.2),
            LevelThrottle::is_offer(self.throttle, now_ms, r.1, r.2, close, throttle, r.3),
            events == match r.3 {
                Some(event) => r.0.push(event),
                None => r.0,
            },
    {
        choose|pcm: Seq<FrameEvent<L>>, mic_rms: L, lp_rms: L, level: Option<FrameEvent<L>>|
            {
                &&& #[trigger] self.are_pcm_events(mic, quantise, pcm)
                &&& self.are_levels(mic, silence, rms, mic_rms, lp_rms)
                &&& #[trigger] LevelThrottle::is_offer(
                    self.throttle,
                    now_ms,
                    mic_rms,
                    lp_rms,
                    close,
                    throttle,
                    level,
                )
                &&& events == match level {
                    Some(event) => pcm.push(event),
                    None => pcm,
                }
            }
    }

    /// The two streams are kept apart: without `level_only` a frame gives
    /// one PCM event of the microphone and, where there is a loopback frame,
    /// one of that, under one number; then comes the level, if any.
    pub proof fn law_streams_are_kept_apart<
        R: Fn(&[T]) -> L,
        C: Fn(L, L) -> bool,
        Q: Fn(T) -> i32,
    >(
        self,
        mic: Seq<T>,
        now_ms: u128,
        silence: L,
        rms: R,
        close: C,
        quantise: Q,
        throttle: LevelThrottle<L>,
        events: Seq<FrameEvent<L>>,
    )
        requires
            !self.options.level_only,
            self.are_events(mic, now_ms, silence, rms, close, quantise, throttle, events),
        ensures
            events.len() >= 1,
            is_pcm_event_of(events[0], self.scratch.seq, PcmSource::Mic, mic, quantise),
            self.has_lp_frame() ==> events.len() >= 2 && is_pcm_event_of(
                events[1],
                self.scratch.seq,
                PcmSource::Loopback,
                self.scratch.lp_frame@,
                quantise,
            ),
            forall|i: int|
                self.sources().len() <= i < events.len() ==> (#[trigger] events[i]) is Level && i
                    == events.len() - 1,
    {
        let (pcm, mic_rms, lp_rms, level) = self.lemma_parts(
            mic,
            now_ms,
            silence,
            rms,
            close,
            quantise,
            throttle,
            events,
        );
        assert(events[0] == pcm[0]);
        if self.has_lp_frame() {
            assert(events[1] == pcm[1]);
        }
    }

    /// Where a loopback frame is there and the module is an engine, the far
    /// end is fed, whole, before the near end: the engine that cleans the
    /// first block of the microphone frame is the one that the last block of
    /// the loopback frame left.
    pub proof fn law_far_end_is_fed_first<
        F: Fn(E, &[T]) -> (E, i32),
        N: Fn(E, &[T]) -> (E, i32, [T; APM_FRAME_SIZE]),
    >(self, engine: E, far: F, near: N, apm: Option<Apm<E>>, mic: Seq<T>)
        requires
            self.apm == Some(Apm::Engine(engine)),
            self.has_lp_frame(),
            self.is_cleaned(far, near, apm, mic),
        ensures
            exists|
                far_engines: Seq<E>,
                far_codes: Seq<i32>,
                near_engines: Seq<E>,
                near_codes: Seq<i32>,
            |
                {
                    &&& #[trigger] is_far_frame(far, self.scratch.lp_frame@, far_engines, far_codes)
                    &&& #[trigger] is_near_frame(
                        near,
                        self.scratch.mic_frame@,
                        near_engines,
                        near_codes,
                        mic,
                    )
                    &&& far_engines[0] == engine
                    &&& near_engines[0] == far_engines.last()
                    &&& apm == Some(Apm::Engine(near_engines.last()))
                },
    {
        let module = Apm::Engine(engine);
        let (fed, cleaned, near_code) = choose|fed: Apm<E>, cleaned: Apm<E>, near_code: i32|
            {
                &&& self.is_fed(far, module, fed)
                &&& #[trigger] Apm::is_near(
                    fed,
                    self.scratch.mic_frame@,
                    near,
                    cleaned,
                    mic,
                    near_code,
                )
                &&& apm == Some(cleaned)
            };
        let far_code = choose|code: i32| #[trigger]
            Apm::is_far(module, self.scratch.lp_frame@, far, fed, code);
        let (far_engines, far_codes) = choose|engines: Seq<E>, codes: Seq<i32>|
            {
                &&& #[trigger] is_far_frame(far, self.scratch.lp_frame@, engines, codes)
                &&& engines[0] == engine
                &&& fed == Apm::Engine(engines.last())
                &&& far_code == last_code(codes)
            };
        let (near_engines, near_codes) = choose|engines: Seq<E>, codes: Seq<i32>|
            {
                &&& #[trigger] is_near_frame(near, self.scratch.mic_frame@, engines, codes, mic)
                &&& engines[0] == far_engines.last()
                &&& cleaned == Apm::Engine(engines.last())
                &&& near_code == last_code(codes)
            };
    }
}

/// `r` is the sample, as `quantise` has quantised it, clipped to 16 bits.
pub open spec fn is_wire_sample<T, Q: Fn(T) -> i32>(quantise: Q, sample: T, r: i16) -> bool {
    exists|scaled: i32|
        #[trigger] quantise.ensures((sample,), scaled) && r == clipped(scaled as int)
}

/// What a listener decodes from a PCM event are the samples that went in,
/// clipped to 16 bits: a frame of `n` samples gives `n` samples.
pub proof fn law_listener_gets_the_samples<T, L, Q: Fn(T) -> i32>(
    event: FrameEvent<L>,
    seq: u64,
    source: PcmSource,
    samples: Seq<T>,
    quantise: Q,
)
    requires
        is_pcm_event_of(event, seq, source, samples, quantise),
    ensures
        event is Pcm,
        ({
            let decoded = pcm_samples(base64_octets(event->samples_base64@));
            &&& decoded.len() == samples.len()
            &&& forall|i: int|
                0 <= i < samples.len() ==> is_wire_sample(quantise, samples[i], #[trigger] decoded[i])
        }),
{
    let quantised = choose|quantised: Seq<i32>|
        #[trigger] is_quantised(quantise, samples, quantised) && is_pcm_event(
            event,
            seq,
            source,
            quantised,
        );
    law_base64_gives_bytes_back(pcm_bytes(clipped_all(quantised)));
    law_pcm_bytes_give_samples_back(clipped_all(quantised));
    let decoded = pcm_samples(base64_octets(event->samples_base64@));
    assert(decoded == clipped_all(quantised));
    assert forall|i: int| 0 <= i < samples.len() implies is_wire_sample(
        quantise,
        samples[i],
        #[trigger] decoded[i],
    ) by {
        assert(quantise.ensures((samples[i],), quantised[i]));
        assert(decoded[i] == clipped_all(quantised)[i]);
    }
}

/// What happens to the buffer of a stream.
pub enum BufferEvent<T> {
    /// A device callback appends samples.
    Filled(Seq<T>),
    /// The loop takes a frame, if a whole one is there.
    Taken,
}

/// All that was appended.
pub open spec fn delivered<T>(events: Seq<BufferEvent<T>>) -> Seq<T>
    decreases events.len(),
{
    if events.len() == 0 {
        seq![]
    } else {
        match events.last() {
            BufferEvent::Filled(samples) => delivered(events.drop_last()) + samples,
            BufferEvent::Taken => delivered(events.drop_last()),
        }
    }
}

/// What is in the buffer after the events, as `take_frame` leaves it.
pub open spec fn buffered<T>(events: Seq<BufferEvent<T>>) -> Seq<T>
    decreases events.len(),
{
    if events.len() == 0 {
        seq![]
    } else {
        let buf = buffered(events.drop_last());
        match events.last() {
            BufferEvent::Filled(samples) => buf + samples,
            BufferEvent::Taken => left_of(buf),
        }
    }
}

/// The frames that were taken, one behind the other, as `take_frame` gives
/// them.
pub open spec fn framed<T>(events: Seq<BufferEvent<T>>) -> Seq<T>
    decreases events.len(),
{
    if events.len() == 0 {
        seq![]
    } else {
        let buf = buffered(events.drop_last());
        let before = framed(events.drop_last());
        match events.last() {
            BufferEvent::Filled(_) => before,
            BufferEvent::Taken => before + cut_frame(buf),
        }
    }
}

/// The frames are the stream, cut: no sample is lost, doubled or moved,
/// however the device fills the buffer, and what is not in a frame yet is
/// still in the buffer.
pub proof fn law_frames_tile_the_stream<T>(events: Seq<BufferEvent<T>>)
    ensures
        framed(events) + buffered(events) == delivered(events),
        framed(events).len() % FRAME_SAMPLES as nat == 0,
    decreases events.len(),
{
    if events.len() == 0 {
        assert(framed(events) + buffered(events) =~= delivered(events));
    } else {
        let before = events.drop_last();
        law_frames_tile_the_stream(before);
        let buf = buffered(before);
        match events.last() {
            BufferEvent::Filled(samples) => {
                assert(framed(before) + (buf + samples) =~= delivered(before) + samples);
            },
            BufferEvent::Taken => {
                assert((framed(before) + cut_frame(buf)) + left_of(buf) =~= framed(before) + buf);
            },
        }
    }
}

impl<T: Copy, L: Copy, E> CaptureLoop<T, L, E> {
    /// The levels that a frame emits are those of its two frames, each of its
    /// own: the microphone level is what `rms` makes of the microphone frame
    /// as the processing module has left it, the loopback level what it makes
    /// of the loopback frame, and silence where there is none.
    pub proof fn law_levels_are_of_their_frames<
        F: Fn(E, &[T]) -> (E, i32),
        N: Fn(E, &[T]) -> (E, i32, [T; APM_FRAME_SIZE]),
        R: Fn(&[T]) -> L,
        C: Fn(L, L) -> bool,
        Q: Fn(T) -> i32,
    >(
        before: Self,
        now_ms: u128,
        silence: L,
        far: F,
        near: N,
        rms: R,
        close: C,
        quantise: Q,
        after: Self,
        events: Seq<FrameEvent<L>>,
        i: int,
    )
        requires
            Self::is_frame(
                before,
                now_ms,
                silence,
                far,
                near,
                rms,
                close,
                quantise,
                after,
                events,
            ),
            0 <= i < events.len(),
            events[i] is Level,
        ensures
            exists|frame: &[T]|
                frame@ == after.scratch.mic_frame@ && #[trigger] rms.ensures(
                    (frame,),
                    events[i]->mic_rms,
                ),
            before.scratch.lp_frame@.len() == 0 ==> events[i]->loopback_rms == silence,
            before.scratch.lp_frame@.len() > 0 ==> exists|frame: &[T]|
                frame@ == before.scratch.lp_frame@ && #[trigger] rms.ensures(
                    (frame,),
                    events[i]->loopback_rms,
                ),
    {
        let (pcm, mic_rms, lp_rms, level) = before.lemma_parts(
            after.scratch.mic_frame@,
            now_ms,
            silence,
            rms,
            close,
            quantise,
            after.throttle,
            events,
        );
        if i < pcm.len() {
            let source = before.sources()[i];
            let samples = before.frame_of(after.scratch.mic_frame@, source);
            assert(events[i] == pcm[i]);
            law_pcm_event_in_full(pcm[i], before.scratch.seq, source, samples, quantise);
        }
        assert(events[i] == level->0);
        let mic_frame = choose|frame: &[T]|
            frame@ == after.scratch.mic_frame@ && #[trigger] rms.ensures((frame,), mic_rms);
        assert(rms.ensures((mic_frame,), events[i]->mic_rms));
        if before.scratch.lp_frame@.len() > 0 {
            let lp_frame = choose|frame: &[T]|
                frame@ == before.scratch.lp_frame@ && #[trigger] rms.ensures((frame,), lp_rms);
            assert(rms.ensures((lp_frame,), events[i]->loopback_rms));
        }
    }

    /// The events of a frame, counted: `count` PCM events, none with
    /// `level_only`, two where there is a loopback frame, else one; behind
    /// them the levels, or nothing. The first levels are always emitted;
    /// after that none before 100 ms have passed, and from then on just where
    /// `close` tells of one of the two that it is not close to the one
    /// emitted last. What was emitted, and when, is remembered.
    pub proof fn law_levels_come_when_due<
        F: Fn(E, &[T]) -> (E, i32),
        N: Fn(E, &[T]) -> (E, i32, [T; APM_FRAME_SIZE]),
        R: Fn(&[T]) -> L,
        C: Fn(L, L) -> bool,
        Q: Fn(T) -> i32,
    >(
        before: Self,
        now_ms: u128,
        silence: L,
        far: F,
        near: N,
        rms: R,
        close: C,
        quantise: Q,
        after: Self,
        events: Seq<FrameEvent<L>>,
        count: nat,
    )
        requires
            Self::is_frame(
                before,
                now_ms,
                silence,
                far,
                near,
                rms,
                close,
                quantise,
                after,
                events,
            ),
            before.options.level_only ==> count == 0,
            !before.options.level_only && before.has_loopback && before.scratch.lp_frame@.len() > 0
                ==> count == 2,
            !before.options.level_only && !(before.has_loopback && before.scratch.lp_frame@.len()
                > 0) ==> count == 1,
        ensures
            events.len() == count || events.len() == count + 1,
            forall|i: int| 0 <= i < count ==> (#[trigger] events[i]) is Pcm,
            events.len() == count + 1 ==> {
                &&& events[count as int] is Level
                &&& after.throttle.last is Some
                &&& (after.throttle.last->0).0 == events[count as int]->mic_rms
                &&& (after.throttle.last->0).1 == events[count as int]->loopback_rms
                &&& after.throttle.last_emit_at_ms == now_ms
            },
            events.len() == count ==> after.throttle == before.throttle,
            before.throttle.last is None ==> events.len() == count + 1,
            before.throttle.last is Some && now_ms < before.throttle.last_emit_at_ms + 100
                ==> events.len() == count,
            before.throttle.last is Some && now_ms >= before.throttle.last_emit_at_ms + 100
                && events.len() == count + 1 ==> close.ensures(
                (events[count as int]->mic_rms, (before.throttle.last->0).0),
                false,
            ) || (close.ensures(
                (events[count as int]->mic_rms, (before.throttle.last->0).0),
                true,
            ) && close.ensures(
                (events[count as int]->loopback_rms, (before.throttle.last->0).1),
                false,
            )),
            before.throttle.last is Some && now_ms >= before.throttle.last_emit_at_ms + 100
                && events.len() == count ==> exists|frame: &[T], mic_rms: L, lp_rms: L|
                {
                    &&& frame@ == after.scratch.mic_frame@
                    &&& #[trigger] rms.ensures((frame,), mic_rms)
                    &&& close.ensures((mic_rms, (before.throttle.last->0).0), true)
                    &&& #[trigger] close.ensures((lp_rms, (before.throttle.last->0).1), true)
                    &&& before.scratch.lp_frame@.len() == 0 ==> lp_rms == silence
                    &&& before.scratch.lp_frame@.len() > 0 ==> exists|lp: &[T]|
                        lp@ == before.scratch.lp_frame@ && #[trigger] rms.ensures((lp,), lp_rms)
                },
    {
        let (pcm, mic_rms, lp_rms, level) = before.lemma_parts(
            after.scratch.mic_frame@,
            now_ms,
            silence,
            rms,
            close,
            quantise,
            after.throttle,
            events,
        );
        assert(pcm.len() == count);
        assert forall|i: int| 0 <= i < count implies (#[trigger] events[i]) is Pcm by {
            let source = before.sources()[i];
            let samples = before.frame_of(after.scratch.mic_frame@, source);
            assert(events[i] == pcm[i]);
            law_pcm_event_in_full(pcm[i], before.scratch.seq, source, samples, quantise);
        }
        let frame = choose|frame: &[T]|
            frame@ == after.scratch.mic_frame@ && #[trigger] rms.ensures((frame,), mic_rms);
        assert(rms.ensures((frame,), mic_rms));
    }

    /// The PCM events of a frame, written out: the first is that of the
    /// microphone frame as the processing module has left it, the second,
    /// where there is a loopback frame, that of the loopback frame as it
    /// came. Each has the number of the frame, 16 kHz and one channel, and is
    /// the base64 text of two bytes for each sample: what `quantise` makes of
    /// it, clipped to 16 bits, the low byte first.
    pub proof fn law_pcm_events_carry_the_frames<
        F: Fn(E, &[T]) -> (E, i32),
        N: Fn(E, &[T]) -> (E, i32, [T; APM_FRAME_SIZE]),
        R: Fn(&[T]) -> L,
        C: Fn(L, L) -> bool,
        Q: Fn(T) -> i32,
    >(
        before: Self,
        now_ms: u128,
        silence: L,
        far: F,
        near: N,
        rms: R,
        close: C,
        quantise: Q,
        after: Self,
        events: Seq<FrameEvent<L>>,
        i: int,
        samples: Seq<T>,
    )
        requires
            Self::is_frame(
                before,
                now_ms,
                silence,
                far,
                near,
                rms,
                close,
                quantise,
                after,
                events,
            ),
            !before.options.level_only,
            i == 0 || i == 1,
            i == 0 ==> samples == after.scratch.mic_frame@,
            i == 1 ==> before.has_loopback && before.scratch.lp_frame@.len() > 0 && samples
                == before.scratch.lp_frame@,
        ensures
            i < events.len(),
            events[i] is Pcm,
            events[i]->seq == before.scratch.seq,
            i == 0 ==> events[i]->source is Mic,
            i == 1 ==> events[i]->source is Loopback,
            events[i]->sample_rate == 16_000,
            events[i]->channels == 1,
            exists|scaled: Seq<i32>, bytes: Seq<u8>|
                {
                    &&& #[trigger] scaled.len() == samples.len()
                    &&& #[trigger] bytes.len() == 2 * samples.len()
                    &&& events[i]->samples_base64@ == base64_text(bytes)
                    &&& forall|k: int|
                        0 <= k < samples.len() ==> {
                            &&& quantise.ensures((samples[k],), #[trigger] scaled[k])
                            &&& scaled[k] > 32_767 ==> bytes[2 * k] == 0xff && bytes[2 * k + 1]
                                == 0x7f
                            &&& scaled[k] < -32_768 ==> bytes[2 * k] == 0 && bytes[2 * k + 1]
                                == 0x80
                            &&& -32_768 <= scaled[k] <= 32_767 ==> bytes[2 * k] as int
                                == scaled[k] as int % 256 && bytes[2 * k + 1] as int == (
                            scaled[k] as int / 256) % 256
                        }
                },
    {
        let (pcm, mic_rms, lp_rms, level) = before.lemma_parts(
            after.scratch.mic_frame@,
            now_ms,
            silence,
            rms,
            close,
            quantise,
            after.throttle,
            events,
        );
        let source = before.sources()[i];
        assert(samples == before.frame_of(after.scratch.mic_frame@, source));
        assert(events[i] == pcm[i]);
        law_pcm_event_in_full(pcm[i], before.scratch.seq, source, samples, quantise);
    }

    /// What a frame changes of the loop: it has the next number, which wraps
    /// behind 2^64 - 1, and the tick has taken one more; the options, the
    /// streams and the loopback frame are as they were.
    pub proof fn law_frame_counts_on<
        F: Fn(E, &[T]) -> (E, i32),
        N: Fn(E, &[T]) -> (E, i32, [T; APM_FRAME_SIZE]),
        R: Fn(&[T]) -> L,
        C: Fn(L, L) -> bool,
        Q: Fn(T) -> i32,
    >(
        before: Self,
        now_ms: u128,
        silence: L,
        far: F,
        near: N,
        rms: R,
        close: C,
        quantise: Q,
        after: Self,
        events: Seq<FrameEvent<L>>,
    )
        requires
            Self::is_frame(
                before,
                now_ms,
                silence,
                far,
                near,
                rms,
                close,
                quantise,
                after,
                events,
            ),
            before.emitted_this_tick < 50,
        ensures
            before.scratch.seq < u64::MAX ==> after.scratch.seq == before.scratch.seq + 1,
            before.scratch.seq == u64::MAX ==> after.scratch.seq == 0,
            after.emitted_this_tick == before.emitted_this_tick + 1,
            after.options == before.options,
            after.has_loopback == before.has_loopback,
            after.scratch.lp_frame == before.scratch.lp_frame,
            after.apm is None <==> before.apm is None,
    {
    }

    /// Without a processing module, or with one that has no engine, the
    /// microphone frame is as it was taken.
    pub proof fn law_frame_without_engine_is_as_taken<
        F: Fn(E, &[T]) -> (E, i32),
        N: Fn(E, &[T]) -> (E, i32, [T; APM_FRAME_SIZE]),
        R: Fn(&[T]) -> L,
        C: Fn(L, L) -> bool,
        Q: Fn(T) -> i32,
    >(
        before: Self,
        now_ms: u128,
        silence: L,
        far: F,
        near: N,
        rms: R,
        close: C,
        quantise: Q,
        after: Self,
        events: Seq<FrameEvent<L>>,
    )
        requires
            Self::is_frame(
                before,
                now_ms,
                silence,
                far,
                near,
                rms,
                close,
                quantise,
                after,
                events,
            ),
            before.apm is None || before.apm->0 is Passthrough,
        ensures
            after.scratch.mic_frame@ == before.scratch.mic_frame@,
            after.apm == before.apm,
    {
        if before.apm is Some {
            let module = before.apm->0;
            let (fed, cleaned, near_code) = before.lemma_cleaned(
                far,
                near,
                after.apm,
                after.scratch.mic_frame@,
            );
            assert(fed == module);
        }
    }

    /// How a frame went through the processing module.
    proof fn lemma_cleaned<
        F: Fn(E, &[T]) -> (E, i32),
        N: Fn(E, &[T]) -> (E, i32, [T; APM_FRAME_SIZE]),
    >(self, far: F, near: N, apm: Option<Apm<E>>, mic: Seq<T>) -> (r: (Apm<E>, Apm<E>, i32))
        requires
            self.is_cleaned(far, near, apm, mic),
            self.apm is Some,
        ensures
            self.is_fed(far, self.apm->0, r.0),
            Apm::is_near(r.0, self.scratch.mic_frame@, near, r.1, mic, r.2),
            apm == Some(r.1),
    {
        choose|fed: Apm<E>, cleaned: Apm<E>, near_code: i32|
            {
                &&& self.is_fed(far, self.apm->0, fed)
                &&& #[trigger] Apm::is_near(
                    fed,
                    self.scratch.mic_frame@,
                    near,
                    cleaned,
                    mic,
                    near_code,
                )
                &&& apm == Some(cleaned)
            }
    }

    /// A frame goes through the engine block by block, each call on the
    /// engine that the one before has left: first the blocks of the loopback
    /// frame, where there is one, through `far`, then those of the microphone
    /// frame through `near`. Sample `i` of the slice in call `j` is sample
    /// `160 * j + i` of its frame, and what `near` gives stands in the
    /// microphone frame afterwards. `heard` is the loopback frame, or nothing
    /// where there is none. The calls are returned: the engines, the slices
    /// and the replies, and what `near` gave.
    pub proof fn law_frame_goes_through_the_engine<
        'a,
        F: Fn(E, &[T]) -> (E, i32),
        N: Fn(E, &[T]) -> (E, i32, [T; APM_FRAME_SIZE]),
        R: Fn(&[T]) -> L,
        C: Fn(L, L) -> bool,
        Q: Fn(T) -> i32,
    >(
        before: Self,
        now_ms: u128,
        silence: L,
        far: F,
        near: N,
        rms: R,
        close: C,
        quantise: Q,
        after: Self,
        events: Seq<FrameEvent<L>>,
        engine: E,
        heard: Seq<T>,
    ) -> (r: (
        (Seq<E>, Seq<&'a [T]>, Seq<i32>),
        (Seq<E>, Seq<&'a [T]>, Seq<i32>, Seq<[T; APM_FRAME_SIZE]>),
    )) where T: 'a
        requires
            Self::is_frame(
                before,
                now_ms,
                silence,
                far,
                near,
                rms,
                close,
                quantise,
                after,
                events,
            ),
            before.apm == Some(Apm::Engine(engine)),
            before.has_loopback && before.scratch.lp_frame@.len() > 0 ==> heard
                == before.scratch.lp_frame@,
            !(before.has_loopback && before.scratch.lp_frame@.len() > 0) ==> heard.len() == 0,
        ensures
            after.scratch.mic_frame@.len() == before.scratch.mic_frame@.len(),
            ({
                let (far_engines, far_handed, far_codes) = r.0;
                let (engines, handed, codes, given) = r.1;
                &&& far_handed.len() == heard.len() / 160
                &&& far_engines.len() == far_handed.len() + 1
                &&& far_codes.len() == far_handed.len()
                &&& far_engines[0] == engine
                &&& forall|j: int|
                    0 <= j < far_handed.len() ==> (#[trigger] far_handed[j])@.len() == 160
                        && far.ensures(
                        (far_engines[j], far_handed[j]),
                        (far_engines[j + 1], far_codes[j]),
                    )
                &&& forall|j: int, i: int|
                    0 <= j < far_handed.len() && 0 <= i < 160
                        ==> #[trigger] far_handed[j]@[i] == heard[160 * j + i]
                &&& handed.len() == before.scratch.mic_frame@.len() / 160
                &&& engines.len() == handed.len() + 1
                &&& codes.len() == handed.len()
                &&& given.len() == handed.len()
                &&& engines[0] == far_engines[far_handed.len() as int]
                &&& forall|j: int|
                    0 <= j < handed.len() ==> (#[trigger] handed[j])@.len() == 160
                        && near.ensures(
                        (engines[j], handed[j]),
                        (engines[j + 1], codes[j], given[j]),
                    )
                &&& forall|j: int, i: int|
                    0 <= j < handed.len() && 0 <= i < 160 ==> #[trigger] handed[j]@[i]
                        == before.scratch.mic_frame@[160 * j + i]
                &&& forall|j: int, i: int|
                    0 <= j < handed.len() && 0 <= i < 160
                        ==> after.scratch.mic_frame@[160 * j + i] == #[trigger] given[j]@[i]
                &&& forall|i: int|
                    160 * handed.len() <= i < before.scratch.mic_frame@.len()
                        ==> #[trigger] after.scratch.mic_frame@[i]
                        == before.scratch.mic_frame@[i]
                &&& after.apm == Some(Apm::Engine(engines[handed.len() as int]))
            }),
    {
        let mic = before.scratch.mic_frame@;
        let cleaned_mic = after.scratch.mic_frame@;
        let (fed, cleaned, near_code) = before.lemma_cleaned(far, near, after.apm, cleaned_mic);
        let (far_engines, far_handed, far_codes) = if before.has_lp_frame() {
            let code = choose|code: i32| #[trigger]
                Apm::is_far(Apm::Engine(engine), heard, far, fed, code);
            law_far_end_hears_the_frame(engine, heard, far, fed, code);
            choose|engines: Seq<E>, handed: Seq<&[T]>, codes: Seq<i32>|
                {
                    &&& #[trigger] handed.len() == heard.len() / APM_FRAME_SIZE as nat
                    &&& #[trigger] engines.len() == handed.len() + 1
                    &&& #[trigger] codes.len() == handed.len()
                    &&& engines[0] == engine
                    &&& fed == Apm::Engine(engines[handed.len() as int])
                    &&& forall|j: int|
                        0 <= j < handed.len() ==> (#[trigger] handed[j])@.len() == APM_FRAME_SIZE
                            && far.ensures((engines[j], handed[j]), (engines[j + 1], codes[j]))
                    &&& forall|j: int, i: int|
                        0 <= j < handed.len() && 0 <= i < APM_FRAME_SIZE
                            ==> #[trigger] handed[j]@[i] == heard[j * APM_FRAME_SIZE + i]
                }
        } else {
            (seq![engine], Seq::<&[T]>::empty(), Seq::<i32>::empty())
        };
        let next = far_engines[far_handed.len() as int];
        assert(fed == Apm::Engine(next));
        law_near_end_is_cleaned(next, mic, near, cleaned, cleaned_mic, near_code);
        let (engines, handed, codes, given) = choose|
            engines: Seq<E>,
            handed: Seq<&[T]>,
            codes: Seq<i32>,
            given: Seq<[T; APM_FRAME_SIZE]>,
        |
            {
                &&& #[trigger] handed.len() == mic.len() / APM_FRAME_SIZE as nat
                &&& #[trigger] engines.len() == handed.len() + 1
                &&& #[trigger] codes.len() == handed.len()
                &&& #[trigger] given.len() == handed.len()
                &&& engines[0] == next
                &&& cleaned == Apm::Engine(engines[handed.len() as int])
                &&& forall|j: int|
                    0 <= j < handed.len() ==> (#[trigger] handed[j])@.len() == APM_FRAME_SIZE
                        && near.ensures(
                        (engines[j], handed[j]),
                        (engines[j + 1], codes[j], given[j]),
                    )
                &&& forall|j: int, i: int|
                    0 <= j < handed.len() && 0 <= i < APM_FRAME_SIZE ==> #[trigger] handed[j]@[i]
                        == mic[j * APM_FRAME_SIZE + i]
                &&& forall|j: int, i: int|
                    0 <= j < handed.len() && 0 <= i < APM_FRAME_SIZE ==> cleaned_mic[j
                        * APM_FRAME_SIZE + i] == #[trigger] given[j]@[i]
                &&& forall|i: int|
                    handed.len() * APM_FRAME_SIZE <= i < mic.len() ==> #[trigger] cleaned_mic[i]
                        == mic[i]
            };
        assert(far_handed.len() == heard.len() / 160);
        assert(handed.len() == mic.len() / 160);
        ((far_engines, far_handed, far_codes), (engines, handed, codes, given))
    }

    /// A fresh loop has taken nothing, and its module, if it has an engine,
    /// was told a delay of 150 ms, once.
    pub proof fn law_fresh_loop_is_seeded<D: Fn(E, i32) -> E>(
        options: CaptureOptions,
        has_loopback: bool,
        apm: Option<Apm<E>>,
        set_delay: D,
        r: Self,
    )
        requires
            Self::is_new(options, has_loopback, apm, set_delay, r),
        ensures
            apm is None ==> r.apm is None,
            apm matches Some(Apm::Passthrough) ==> r.apm == apm,
            apm matches Some(Apm::Engine(engine)) ==> (r.apm matches Some(Apm::Engine(seeded))
                && set_delay.ensures((engine, 150), seeded)),
            r.options == options,
            r.has_loopback == has_loopback,
            r.scratch.seq == 0,
            r.scratch.mic_frame@.len() == 0,
            r.scratch.lp_frame@.len() == 0,
            r.throttle.last is None,
            r.emitted_this_tick == 0,
    {
    }

    /// A microphone frame is taken just where the tick has taken fewer than
    /// 50 and 320 samples are there: the frame is the first 320 of them, in
    /// order, and those behind stay, in order. Else nothing changes.
    pub proof fn law_next_frame_sample_by_sample(
        before: Self,
        mic_buf: Seq<T>,
        after: Self,
        mic_left: Seq<T>,
        r: bool,
    )
        requires
            Self::is_next_frame(before, mic_buf, after, mic_left, r),
        ensures
            r <==> before.emitted_this_tick < 50 && mic_buf.len() >= 320,
            !r ==> after == before && mic_left == mic_buf,
            r ==> {
                &&& after.scratch.mic_frame@.len() == 320
                &&& forall|i: int|
                    0 <= i < 320 ==> #[trigger] after.scratch.mic_frame@[i] == mic_buf[i]
                &&& mic_left.len() == mic_buf.len() - 320
                &&& forall|i: int|
                    0 <= i < mic_left.len() ==> #[trigger] mic_left[i] == mic_buf[320 + i]
                &&& after.options == before.options
                &&& after.has_loopback == before.has_loopback
                &&& after.apm == before.apm
                &&& after.throttle == before.throttle
                &&& after.scratch.seq == before.scratch.seq
                &&& after.scratch.lp_frame == before.scratch.lp_frame
                &&& after.emitted_this_tick == before.emitted_this_tick
            },
    {
    }

    /// A loopback frame is taken just where there is a loopback stream and
    /// 320 samples of it are there: the frame is the first 320 of them, in
    /// order, and those behind stay, in order. Else the frame is empty and
    /// the buffer stays. Nothing else changes.
    pub proof fn law_pairing_sample_by_sample(
        before: Self,
        lp_buf: Seq<T>,
        after: Self,
        lp_left: Seq<T>,
    )
        requires
            Self::is_paired(before, lp_buf, after, lp_left),
        ensures
            before.has_loopback && lp_buf.len() >= 320 ==> {
                &&& after.scratch.lp_frame@.len() == 320
                &&& forall|i: int|
                    0 <= i < 320 ==> #[trigger] after.scratch.lp_frame@[i] == lp_buf[i]
                &&& lp_left.len() == lp_buf.len() - 320
                &&& forall|i: int|
                    0 <= i < lp_left.len() ==> #[trigger] lp_left[i] == lp_buf[320 + i]
            },
            !(before.has_loopback && lp_buf.len() >= 320) ==> after.scratch.lp_frame@.len() == 0
                && lp_left == lp_buf,
            after.options == before.options,
            after.has_loopback == before.has_loopback,
            after.apm == before.apm,
            after.throttle == before.throttle,
            after.scratch.seq == before.scratch.seq,
            after.scratch.mic_frame == before.scratch.mic_frame,
            after.emitted_this_tick == before.emitted_this_tick,
    {
    }
}

/// A PCM event, written out: its number and source, 16 kHz and one channel,
/// and the base64 text of two bytes for each sample: what `quantise` makes of
/// it, clipped to 16 bits, the low byte first.
pub proof fn law_pcm_event_in_full<T, L, Q: Fn(T) -> i32>(
    event: FrameEvent<L>,
    seq: u64,
    source: PcmSource,
    samples: Seq<T>,
    quantise: Q,
)
    requires
        is_pcm_event_of(event, seq, source, samples, quantise),
    ensures
        event is Pcm,
        event->seq == seq,
        event->source == source,
        event->sample_rate == 16_000,
        event->channels == 1,
        exists|scaled: Seq<i32>, bytes: Seq<u8>|
            {
                &&& #[trigger] scaled.len() == samples.len()
                &&& #[trigger] bytes.len() == 2 * samples.len()
                &&& event->samples_base64@ == base64_text(bytes)
                &&& forall|k: int|
                    0 <= k < samples.len() ==> {
                        &&& quantise.ensures((samples[k],), #[trigger] scaled[k])
                        &&& scaled[k] > 32_767 ==> bytes[2 * k] == 0xff && bytes[2 * k + 1] == 0x7f
                        &&& scaled[k] < -32_768 ==> bytes[2 * k] == 0 && bytes[2 * k + 1] == 0x80
                        &&& -32_768 <= scaled[k] <= 32_767 ==> bytes[2 * k] as int == scaled[k]
                            as int % 256 && bytes[2 * k + 1] as int == (scaled[k] as int / 256)
                            % 256
                    }
            },
{
    let scaled = choose|quantised: Seq<i32>|
        #[trigger] is_quantised(quantise, samples, quantised) && is_pcm_event(
            event,
            seq,
            source,
            quantised,
        );
    let bytes = pcm_bytes(clipped_all(scaled));
    assert(scaled.len() == samples.len());
    assert(bytes.len() == 2 * samples.len());
    assert forall|k: int| 0 <= k < samples.len() implies {
        &&& quantise.ensures((samples[k],), #[trigger] scaled[k])
        &&& scaled[k] > 32_767 ==> bytes[2 * k] == 0xff && bytes[2 * k + 1] == 0x7f
        &&& scaled[k] < -32_768 ==> bytes[2 * k] == 0 && bytes[2 * k + 1] == 0x80
        &&& -32_768 <= scaled[k] <= 32_767 ==> bytes[2 * k] as int == scaled[k] as int % 256
            && bytes[2 * k + 1] as int == (scaled[k] as int / 256) % 256
    } by {
        assert((2 * k) / 2 == k && (2 * k) % 2 == 0);
        assert((2 * k + 1) / 2 == k && (2 * k + 1) % 2 == 1);
        assert(clipped_all(scaled)[k] == clipped(scaled[k] as int));
    }
}

/// A fresh loop, and the calls that take a frame, are those that the laws on
/// `is_new`, `is_next_frame` and `is_paired` speak of; a tick begins with no
/// frame taken, and with nothing else changed.
pub proof fn law_frames_are_taken_by_calls<T: Copy, L: Copy, E, D: Fn(E, i32) -> E>(
    options: CaptureOptions,
    has_loopback: bool,
    apm: Option<Apm<E>>,
    set_delay: D,
    fresh: CaptureLoop<T, L, E>,
    ticked: &mut CaptureLoop<T, L, E>,
    taking: &mut CaptureLoop<T, L, E>,
    mic_buf: &mut Vec<T>,
    taken: bool,
    pairing: &mut CaptureLoop<T, L, E>,
    lp_buf: &mut Vec<T>,
)
    requires
        call_ensures(
            CaptureLoop::<T, L, E>::new::<D>,
            (options, has_loopback, apm, set_delay),
            fresh,
        ),
        call_ensures(CaptureLoop::<T, L, E>::begin_tick, (ticked,), ()),
        call_ensures(CaptureLoop::<T, L, E>::next_frame, (taking, mic_buf), taken),
        call_ensures(CaptureLoop::<T, L, E>::pair_loopback, (pairing, lp_buf), ()),
    ensures
        CaptureLoop::is_new(options, has_loopback, apm, set_delay, fresh),
        final(ticked).emitted_this_tick == 0,
        final(ticked).options == old(ticked).options,
        final(ticked).has_loopback == old(ticked).has_loopback,
        final(ticked).apm == old(ticked).apm,
        final(ticked).scratch == old(ticked).scratch,
        final(ticked).throttle == old(ticked).throttle,
        CaptureLoop::is_next_frame(
            *old(taking),
            old(mic_buf)@,
            *final(taking),
            final(mic_buf)@,
            taken,
        ),
        CaptureLoop::is_paired(*old(pairing), old(lp_buf)@, *final(pairing), final(lp_buf)@),
{
}

/// A call of `process_frame` is what the laws on `is_frame` speak of.
pub proof fn law_frames_are_processed_by_calls<
    T: Copy,
    L: Copy,
    E,
    F: Fn(E, &[T]) -> (E, i32),
    N: Fn(E, &[T]) -> (E, i32, [T; APM_FRAME_SIZE]),
    R: Fn(&[T]) -> L,
    C: Fn(L, L) -> bool,
    Q: Fn(T) -> i32,
>(
    run: &mut CaptureLoop<T, L, E>,
    now_ms: u128,
    silence: L,
    far: F,
    near: N,
    rms: R,
    close: C,
    quantise: Q,
    events: &mut Vec<FrameEvent<L>>,
)
    requires
        call_ensures(
            CaptureLoop::<T, L, E>::process_frame::<F, N, R, C, Q>,
            (run, now_ms, silence, far, near, rms, close, quantise, events),
            (),
        ),
    ensures
        CaptureLoop::is_frame(
            *old(run),
            now_ms,
            silence,
            far,
            near,
            rms,
            close,
            quantise,
            *final(run),
            final(events)@,
        ),
{
}

/// `emit_pcm_frame` gives the event of all samples, in order, as
/// `law_pcm_event_in_full` writes it out, whatever the scratch buffers held.
pub proof fn law_pcm_frame_is_emitted<T: Copy, L, Q: Fn(T) -> i32>(
    seq: u64,
    source: PcmSource,
    samples: &[T],
    byte_scratch: &mut Vec<u8>,
    b64_scratch: &mut String,
    quantise: &Q,
    event: FrameEvent<L>,
)
    requires
        call_ensures(
            emit_pcm_frame::<T, L, Q>,
            (seq, source, samples, byte_scratch, b64_scratch, quantise),
            event,
        ),
    ensures
        is_pcm_event_of(event, seq, source, samples@, *quantise),
        final(b64_scratch)@ == event->samples_base64@,
{
}

/// `take_frame` moves the first 320 samples into the frame, in place of what
/// it held, where so many are there, and else does nothing.
pub proof fn law_frame_is_cut_sample_by_sample<T: Copy>(
    buf: &mut Vec<T>,
    frame: &mut Vec<T>,
    r: bool,
)
    requires
        call_ensures(take_frame::<T>, (buf, frame), r),
    ensures
        r <==> old(buf)@.len() >= 320,
        r ==> final(frame)@.len() == 320 && final(buf)@.len() == old(buf)@.len() - 320,
        r ==> forall|i: int| 0 <= i < 320 ==> #[trigger] final(frame)@[i] == old(buf)@[i],
        r ==> forall|i: int|
            0 <= i < final(buf)@.len() ==> #[trigger] final(buf)@[i] == old(buf)@[320 + i],
        !r ==> *final(frame) == *old(frame) && *final(buf) == *old(buf),
{
}

/// What the scratch does, call by call: it takes the first 320 samples of a
/// stream, if so many are there, and measures the level of each frame, an
/// empty loopback frame being silent.
pub proof fn law_scratch_call_by_call<T: Copy, L, R: Fn(&[T]) -> L>(
    taking: &mut LoopScratch<T>,
    mic_buf: &mut Vec<T>,
    taken: bool,
    pairing: &mut LoopScratch<T>,
    lp_buf: &mut Vec<T>,
    has_loopback: bool,
    measured: &LoopScratch<T>,
    silence: L,
    rms: &R,
    levels: (L, L),
)
    requires
        call_ensures(LoopScratch::<T>::pull_mic, (taking, mic_buf), taken),
        call_ensures(LoopScratch::<T>::pull_loopback, (pairing, lp_buf, has_loopback), ()),
        call_ensures(LoopScratch::<T>::levels::<L, R>, (measured, silence, rms), levels),
    ensures
        taken <==> old(mic_buf)@.len() >= 320,
        taken ==> final(taking).mic_frame@ == old(mic_buf)@.subrange(0, 320) && final(mic_buf)@
            == old(mic_buf)@.subrange(320, old(mic_buf)@.len() as int),
        !taken ==> *final(taking) == *old(taking) && final(mic_buf)@ == old(mic_buf)@,
        has_loopback && old(lp_buf)@.len() >= 320 ==> final(pairing).lp_frame@ == old(
            lp_buf,
        )@.subrange(0, 320) && final(lp_buf)@ == old(lp_buf)@.subrange(
            320,
            old(lp_buf)@.len() as int,
        ),
        !(has_loopback && old(lp_buf)@.len() >= 320) ==> final(pairing).lp_frame@.len() == 0
            && final(lp_buf)@ == old(lp_buf)@,
        exists|frame: &[T]|
            frame@ == measured.mic_frame@ && #[trigger] rms.ensures((frame,), levels.0),
        measured.lp_frame@.len() == 0 ==> levels.1 == silence,
        measured.lp_frame@.len() > 0 ==> exists|frame: &[T]|
            frame@ == measured.lp_frame@ && #[trigger] rms.ensures((frame,), levels.1),
{
    assert(taken ==> final(taking).mic_frame@ =~= old(mic_buf)@.subrange(0, 320));
}

/// The sizes fit together: a frame is 20 ms and two blocks of the processing
/// module, each 10 ms; a tick takes one second of audio at most; the loop
/// ticks a hundred times a second and a meter is told of levels ten times.
pub proof fn law_sizes_fit_together()
    ensures
        FRAME_SAMPLES == 2 * APM_FRAME_SIZE,
        1000 * FRAME_SAMPLES == 20 * TARGET_SAMPLE_RATE,
        1000 * APM_FRAME_SIZE == 10 * APM_SAMPLE_RATE,
        APM_SAMPLE_RATE == TARGET_SAMPLE_RATE,
        MAX_FRAMES_PER_TICK * FRAME_SAMPLES == TARGET_SAMPLE_RATE,
        100 * DRAIN_TICK_MS == 1000,
        10 * LEVEL_EMIT_INTERVAL_MS == 1000,
        APM_STREAM_DELAY_MS == APM_PLAYBACK_DELAY_MS,
        TARGET_SAMPLE_RATE == 16_000,
        TARGET_CHANNELS == 1,
{
}

} // verus!
