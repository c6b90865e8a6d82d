//! A whole capture: what holds over all its frames.
use vstd::prelude::*;
use crate::apm::{Apm, APM_FRAME_SIZE};
use crate::capture::{
    buffered, cut_frame, delivered, framed, has_frame, is_pcm_event, is_pcm_event_of, is_quantised,
    is_wire_sample, left_of, law_frames_tile_the_stream, law_listener_gets_the_samples, BufferEvent,
    CaptureLoop, APM_STREAM_DELAY_MS, FRAME_SAMPLES,
};
use crate::metering::{LevelThrottle, LEVEL_EMIT_INTERVAL_MS};
use crate::pcm::{base64_octets, pcm_samples};
use crate::{CaptureOptions, FrameEvent, PcmSource};

verus! {

/// One frame of a capture, from the moment that it is taken to its events.
pub struct FrameRun<T, L, E> {
    /// What the microphone has delivered since the frame before was taken.
    pub mic_arrived: Seq<T>,
    /// What the loopback stream has delivered since it was asked before.
    pub lp_arrived: Seq<T>,
    /// The loop before `next_frame`, after it and after `pair_loopback`.
    pub begun: CaptureLoop<T, L, E>,
    pub taken: CaptureLoop<T, L, E>,
    pub paired: CaptureLoop<T, L, E>,
    /// What was left in the two buffers.
    pub mic_left: Seq<T>,
    pub lp_left: Seq<T>,
    /// When `process_frame` was called, what it returned and the loop after
    /// it.
    pub now_ms: u128,
    pub events: Seq<FrameEvent<L>>,
    pub done: CaptureLoop<T, L, E>,
}

/// `run` is the frame that follows on the loop `before`, whose buffers held
/// `mic_left` and `lp_left`. A tick may have begun in between.
#[verifier::opaque]
pub open spec fn is_run<
    T: Copy,
    L: Copy,
    E,
    F: Fn(E, &[T]) -> (E, i32),
    N: Fn(E, &[T]) -> (E, i32, [T; APM_FRAME_SIZE]),
    R: Fn(&[T]) -> L,
    C: Fn(L, L) -> bool,
    Q: Fn(T) -> i32,
>(
    before: CaptureLoop<T, L, E>,
    mic_left: Seq<T>,
    lp_left: Seq<T>,
    run: FrameRun<T, L, E>,
    silence: L,
    far: F,
    near: N,
    rms: R,
    close: C,
    quantise: Q,
) -> bool {
    &&& run.begun == before || run.begun == (CaptureLoop { emitted_this_tick: 0, ..before })
    &&& CaptureLoop::is_next_frame(
        run.begun,
        mic_left + run.mic_arrived,
        run.taken,
        run.mic_left,
        true,
    )
    &&& CaptureLoop::is_paired(run.taken, lp_left + run.lp_arrived, run.paired, run.lp_left)
    &&& CaptureLoop::is_frame(
        run.paired,
        run.now_ms,
        silence,
        far,
        near,
        rms,
        close,
        quantise,
        run.done,
        run.events,
    )
}

/// The loop before frame `k`.
pub open spec fn loop_before<T, L, E>(
    fresh: CaptureLoop<T, L, E>,
    runs: Seq<FrameRun<T, L, E>>,
    k: int,
) -> CaptureLoop<T, L, E> {
    if k == 0 {
        fresh
    } else {
        runs[k - 1].done
    }
}

/// What the microphone buffer held when frame `k` was not asked for yet.
pub open spec fn mic_left_before<T, L, E>(runs: Seq<FrameRun<T, L, E>>, k: int) -> Seq<T> {
    if k == 0 {
        seq![]
    } else {
        runs[k - 1].mic_left
    }
}

/// What the loopback buffer held when frame `k` was not asked for yet.
pub open spec fn lp_left_before<T, L, E>(runs: Seq<FrameRun<T, L, E>>, k: int) -> Seq<T> {
    if k == 0 {
        seq![]
    } else {
        runs[k - 1].lp_left
    }
}

/// `runs` are the frames of a capture, first to last, on a loop that was
/// `fresh` before the first of them.
pub open spec fn is_capture<
    T: Copy,
    L: Copy,
    E,
    F: Fn(E, &[T]) -> (E, i32),
    N: Fn(E, &[T]) -> (E, i32, [T; APM_FRAME_SIZE]),
    R: Fn(&[T]) -> L,
    C: Fn(L, L) -> bool,
    Q: Fn(T) -> i32,
>(
    fresh: CaptureLoop<T, L, E>,
    runs: Seq<FrameRun<T, L, E>>,
    silence: L,
    far: F,
    near: N,
    rms: R,
    close: C,
    quantise: Q,
) -> bool {
    forall|k: int|
        0 <= k < runs.len() ==> is_run(
            loop_before(fresh, runs, k),
            mic_left_before(runs, k),
            lp_left_before(runs, k),
            #[trigger] runs[k],
            silence,
            far,
            near,
            rms,
            close,
            quantise,
        )
}

/// What happened to the microphone buffer up to frame `n`.
pub open spec fn mic_events<T, L, E>(runs: Seq<FrameRun<T, L, E>>, n: int) -> Seq<BufferEvent<T>>
    decreases n,
{
    if n <= 0 {
        seq![]
    } else {
        mic_events(runs, n - 1).push(BufferEvent::Filled(runs[n - 1].mic_arrived)).push(
            BufferEvent::Taken,
        )
    }
}

/// What happened to the loopback buffer up to frame `n`.
pub open spec fn lp_events<T, L, E>(runs: Seq<FrameRun<T, L, E>>, n: int) -> Seq<BufferEvent<T>>
    decreases n,
{
    if n <= 0 {
        seq![]
    } else {
        lp_events(runs, n - 1).push(BufferEvent::Filled(runs[n - 1].lp_arrived)).push(
            BufferEvent::Taken,
        )
    }
}

/// The microphone stream up to frame `n`.
pub open spec fn mic_stream<T, L, E>(runs: Seq<FrameRun<T, L, E>>, n: int) -> Seq<T> {
    delivered(mic_events(runs, n))
}

/// The microphone frames up to frame `n`, one behind the other, as the
/// processing module has left them.
pub open spec fn cleaned_stream<T, L, E>(runs: Seq<FrameRun<T, L, E>>, n: int) -> Seq<T>
    decreases n,
{
    if n <= 0 {
        seq![]
    } else {
        cleaned_stream(runs, n - 1) + runs[n - 1].done.scratch.mic_frame@
    }
}

/// The loopback frames up to frame `n`, one behind the other.
pub open spec fn lp_frames<T, L, E>(runs: Seq<FrameRun<T, L, E>>, n: int) -> Seq<T>
    decreases n,
{
    if n <= 0 {
        seq![]
    } else {
        lp_frames(runs, n - 1) + runs[n - 1].paired.scratch.lp_frame@
    }
}

/// What a listener decodes from a PCM event.
pub open spec fn heard<L>(event: FrameEvent<L>) -> Seq<i16> {
    pcm_samples(base64_octets(event->samples_base64@))
}

/// What a listener has decoded of the microphone up to frame `n`: the first
/// event of each frame.
pub open spec fn heard_stream<T, L, E>(runs: Seq<FrameRun<T, L, E>>, n: int) -> Seq<i16>
    decreases n,
{
    if n <= 0 {
        seq![]
    } else {
        heard_stream(runs, n - 1) + heard(runs[n - 1].events[0])
    }
}

/// What a listener has decoded of the loopback stream up to frame `n`: the
/// second event of each frame that has a loopback frame beside it.
pub open spec fn heard_loopback<T: Copy, L: Copy, E>(
    runs: Seq<FrameRun<T, L, E>>,
    n: int,
) -> Seq<i16>
    decreases n,
{
    if n <= 0 {
        seq![]
    } else if runs[n - 1].paired.has_lp_frame() {
        heard_loopback(runs, n - 1) + heard(runs[n - 1].events[1])
    } else {
        heard_loopback(runs, n - 1)
    }
}

/// A buffer that was filled and asked for a frame.
proof fn lemma_filled_and_taken<T>(events: Seq<BufferEvent<T>>, arrived: Seq<T>)
    ensures
        ({
            let filled = events.push(BufferEvent::Filled(arrived));
            let taken = filled.push(BufferEvent::Taken);
            let buf = buffered(events) + arrived;
            &&& delivered(taken) == delivered(events) + arrived
            &&& buffered(taken) == left_of(buf)
            &&& framed(taken) == framed(events) + cut_frame(buf)
        }),
{
    let filled = events.push(BufferEvent::Filled(arrived));
    let taken = filled.push(BufferEvent::Taken);
    assert(filled.drop_last() =~= events);
    assert(taken.drop_last() =~= filled);
    assert(buffered(filled) == buffered(events) + arrived);
    assert(framed(filled) == framed(events));
    assert(delivered(filled) == delivered(events) + arrived);
}

/// What a frame takes from the two buffers and leaves in them.
proof fn lemma_run_buffers<
    T: Copy,
    L: Copy,
    E,
    F: Fn(E, &[T]) -> (E, i32),
    N: Fn(E, &[T]) -> (E, i32, [T; APM_FRAME_SIZE]),
    R: Fn(&[T]) -> L,
    C: Fn(L, L) -> bool,
    Q: Fn(T) -> i32,
>(
    fresh: CaptureLoop<T, L, E>,
    runs: Seq<FrameRun<T, L, E>>,
    silence: L,
    far: F,
    near: N,
    rms: R,
    close: C,
    quantise: Q,
    k: int,
)
    requires
        is_capture(fresh, runs, silence, far, near, rms, close, quantise),
        0 <= k < runs.len(),
    ensures
        has_frame(mic_left_before(runs, k) + runs[k].mic_arrived),
        runs[k].taken.scratch.mic_frame@ == cut_frame(
            mic_left_before(runs, k) + runs[k].mic_arrived,
        ),
        runs[k].mic_left == left_of(mic_left_before(runs, k) + runs[k].mic_arrived),
        runs[k].paired.scratch.mic_frame@ == runs[k].taken.scratch.mic_frame@,
        loop_before(fresh, runs, k).has_loopback ==> {
            &&& runs[k].paired.scratch.lp_frame@ == cut_frame(
                lp_left_before(runs, k) + runs[k].lp_arrived,
            )
            &&& runs[k].lp_left == left_of(lp_left_before(runs, k) + runs[k].lp_arrived)
        },
        !loop_before(fresh, runs, k).has_loopback ==> runs[k].paired.scratch.lp_frame@.len() == 0,
{
    assert(is_run(
        loop_before(fresh, runs, k),
        mic_left_before(runs, k),
        lp_left_before(runs, k),
        runs[k],
        silence,
        far,
        near,
        rms,
        close,
        quantise,
    ));
    reveal(is_run);
}

/// What a frame keeps, and how it counts.
proof fn lemma_run_state<
    T: Copy,
    L: Copy,
    E,
    F: Fn(E, &[T]) -> (E, i32),
    N: Fn(E, &[T]) -> (E, i32, [T; APM_FRAME_SIZE]),
    R: Fn(&[T]) -> L,
    C: Fn(L, L) -> bool,
    Q: Fn(T) -> i32,
>(
    fresh: CaptureLoop<T, L, E>,
    runs: Seq<FrameRun<T, L, E>>,
    silence: L,
    far: F,
    near: N,
    rms: R,
    close: C,
    quantise: Q,
    k: int,
)
    requires
        is_capture(fresh, runs, silence, far, near, rms, close, quantise),
        0 <= k < runs.len(),
    ensures
        runs[k].paired.options == loop_before(fresh, runs, k).options,
        runs[k].paired.has_loopback == loop_before(fresh, runs, k).has_loopback,
        runs[k].paired.apm == loop_before(fresh, runs, k).apm,
        runs[k].paired.throttle == loop_before(fresh, runs, k).throttle,
        runs[k].paired.scratch.seq == loop_before(fresh, runs, k).scratch.seq,
        runs[k].done.options == runs[k].paired.options,
        runs[k].done.has_loopback == runs[k].paired.has_loopback,
        runs[k].done.scratch.seq == (runs[k].paired.scratch.seq + 1) % 0x1_0000_0000_0000_0000,
{
    assert(is_run(
        loop_before(fresh, runs, k),
        mic_left_before(runs, k),
        lp_left_before(runs, k),
        runs[k],
        silence,
        far,
        near,
        rms,
        close,
        quantise,
    ));
    reveal(is_run);
}

/// What a frame is made into.
proof fn lemma_run_events<
    T: Copy,
    L: Copy,
    E,
    F: Fn(E, &[T]) -> (E, i32),
    N: Fn(E, &[T]) -> (E, i32, [T; APM_FRAME_SIZE]),
    R: Fn(&[T]) -> L,
    C: Fn(L, L) -> bool,
    Q: Fn(T) -> i32,
>(
    fresh: CaptureLoop<T, L, E>,
    runs: Seq<FrameRun<T, L, E>>,
    silence: L,
    far: F,
    near: N,
    rms: R,
    close: C,
    quantise: Q,
    k: int,
)
    requires
        is_capture(fresh, runs, silence, far, near, rms, close, quantise),
        0 <= k < runs.len(),
    ensures
        runs[k].paired.is_cleaned(far, near, runs[k].done.apm, runs[k].done.scratch.mic_frame@),
        runs[k].paired.are_events(
            runs[k].done.scratch.mic_frame@,
            runs[k].now_ms,
            silence,
            rms,
            close,
            quantise,
            runs[k].done.throttle,
            runs[k].events,
        ),
{
    assert(is_run(
        loop_before(fresh, runs, k),
        mic_left_before(runs, k),
        lp_left_before(runs, k),
        runs[k],
        silence,
        far,
        near,
        rms,
        close,
        quantise,
    ));
    reveal(is_run);
}

/// Piece `k` of a row of `n` pieces of `size` samples, in a longer row.
proof fn lemma_piece<T>(pieces: Seq<T>, more: Seq<T>, size: nat, n: nat, k: int)
    requires
        pieces.len() == n * size,
        0 <= k < n,
    ensures
        0 <= k * size,
        k * size + size <= n * size,
        (pieces + more).subrange(k * size, k * size + size) == pieces.subrange(
            k * size,
            k * size + size,
        ),
{
    assert(0 <= k * size && k * size + size <= n * size) by (nonlinear_arith)
        requires
            0 <= k < n,
    ;
    assert((pieces + more).subrange(k * size, k * size + size) =~= pieces.subrange(
        k * size,
        k * size + size,
    ));
}

/// What a capture keeps of its loop: the options and the streams it has; and
/// its frames have the length of a frame.
proof fn lemma_loop_keeps_options<
    T: Copy,
    L: Copy,
    E,
    F: Fn(E, &[T]) -> (E, i32),
    N: Fn(E, &[T]) -> (E, i32, [T; APM_FRAME_SIZE]),
    R: Fn(&[T]) -> L,
    C: Fn(L, L) -> bool,
    Q: Fn(T) -> i32,
>(
    fresh: CaptureLoop<T, L, E>,
    runs: Seq<FrameRun<T, L, E>>,
    silence: L,
    far: F,
    near: N,
    rms: R,
    close: C,
    quantise: Q,
    k: int,
)
    requires
        is_capture(fresh, runs, silence, far, near, rms, close, quantise),
        0 <= k < runs.len(),
    ensures
        runs[k].paired.options == fresh.options,
        runs[k].paired.has_loopback == fresh.has_loopback,
        runs[k].done.options == fresh.options,
        runs[k].done.has_loopback == fresh.has_loopback,
        runs[k].paired.apm is None <==> fresh.apm is None,
        runs[k].done.apm is None <==> fresh.apm is None,
        runs[k].taken.scratch.mic_frame@.len() == FRAME_SAMPLES,
        runs[k].paired.scratch.mic_frame@ == runs[k].taken.scratch.mic_frame@,
        runs[k].done.scratch.mic_frame@.len() == FRAME_SAMPLES,
        fresh.apm is None ==> runs[k].done.scratch.mic_frame@ == runs[k].taken.scratch.mic_frame@,
    decreases k,
{
    lemma_run_buffers(fresh, runs, silence, far, near, rms, close, quantise, k);
    lemma_run_state(fresh, runs, silence, far, near, rms, close, quantise, k);
    lemma_run_events(fresh, runs, silence, far, near, rms, close, quantise, k);
    let run = runs[k];
    if k > 0 {
        lemma_loop_keeps_options(
            fresh,
            runs,
            silence,
            far,
            near,
            rms,
            close,
            quantise,
            k - 1,
        );
    }
    assert(run.paired.is_cleaned(far, near, run.done.apm, run.done.scratch.mic_frame@));
    if let Some(module) = run.paired.apm {
        let (fed, cleaned, near_code) = choose|fed: Apm<E>, cleaned: Apm<E>, near_code: i32|
            {
                &&& run.paired.is_fed(far, module, fed)
                &&& #[trigger] Apm::is_near(
                    fed,
                    run.paired.scratch.mic_frame@,
                    near,
                    cleaned,
                    run.done.scratch.mic_frame@,
                    near_code,
                )
                &&& run.done.apm == Some(cleaned)
            };
    }
}

/// Frame `k` has the number `k`, on a counter of 64 bits that starts at 0 and
/// wraps; so have its PCM events.
pub proof fn law_frames_are_numbered<
    T: Copy,
    L: Copy,
    E,
    F: Fn(E, &[T]) -> (E, i32),
    N: Fn(E, &[T]) -> (E, i32, [T; APM_FRAME_SIZE]),
    R: Fn(&[T]) -> L,
    C: Fn(L, L) -> bool,
    Q: Fn(T) -> i32,
>(
    fresh: CaptureLoop<T, L, E>,
    runs: Seq<FrameRun<T, L, E>>,
    silence: L,
    far: F,
    near: N,
    rms: R,
    close: C,
    quantise: Q,
    k: int,
)
    requires
        is_capture(fresh, runs, silence, far, near, rms, close, quantise),
        fresh.scratch.seq == 0,
        0 <= k < runs.len(),
    ensures
        runs[k].paired.scratch.seq == k % 0x1_0000_0000_0000_0000,
        forall|i: int|
            0 <= i < runs[k].events.len() && (#[trigger] runs[k].events[i]) is Pcm
                ==> runs[k].events[i]->seq == k % 0x1_0000_0000_0000_0000,
    decreases k,
{
    lemma_run_state(fresh, runs, silence, far, near, rms, close, quantise, k);
    lemma_run_events(fresh, runs, silence, far, near, rms, close, quantise, k);
    let run = runs[k];
    if k > 0 {
        law_frames_are_numbered(
            fresh,
            runs,
            silence,
            far,
            near,
            rms,
            close,
            quantise,
            k - 1,
        );
    }
    if k > 0 {
        lemma_run_state(fresh, runs, silence, far, near, rms, close, quantise, k - 1);
        let wrapped = (k - 1) % 0x1_0000_0000_0000_0000;
        assert((wrapped + 1) % 0x1_0000_0000_0000_0000 == k % 0x1_0000_0000_0000_0000);
    }
    let mic = run.done.scratch.mic_frame@;
    let (pcm, mic_rms, lp_rms, level) = run.paired.lemma_parts(
        mic,
        run.now_ms,
        silence,
        rms,
        close,
        quantise,
        run.done.throttle,
        run.events,
    );
    assert forall|i: int|
        0 <= i < run.events.len() && (#[trigger] run.events[i]) is Pcm implies run.events[i]->seq
        == k % 0x1_0000_0000_0000_0000 by {
        assert(i < pcm.len());
        assert(run.events[i] == pcm[i]);
        let source = run.paired.sources()[i];
        let samples = run.paired.frame_of(mic, source);
        assert(is_pcm_event_of(pcm[i], run.paired.scratch.seq, source, samples, quantise));
        let quantised = choose|quantised: Seq<i32>|
            #[trigger] is_quantised(quantise, samples, quantised) && is_pcm_event(
                pcm[i],
                run.paired.scratch.seq,
                source,
                quantised,
            );
    }
}

/// The microphone frames of a capture are its stream, cut: frame `k` is the
/// `k`-th piece of `FRAME_SAMPLES` samples of what the microphone delivered,
/// and the rest is still in the buffer.
pub proof fn law_frames_are_the_stream<
    T: Copy,
    L: Copy,
    E,
    F: Fn(E, &[T]) -> (E, i32),
    N: Fn(E, &[T]) -> (E, i32, [T; APM_FRAME_SIZE]),
    R: Fn(&[T]) -> L,
    C: Fn(L, L) -> bool,
    Q: Fn(T) -> i32,
>(
    fresh: CaptureLoop<T, L, E>,
    runs: Seq<FrameRun<T, L, E>>,
    silence: L,
    far: F,
    near: N,
    rms: R,
    close: C,
    quantise: Q,
    n: int,
)
    requires
        is_capture(fresh, runs, silence, far, near, rms, close, quantise),
        0 <= n <= runs.len(),
    ensures
        mic_stream(runs, n).len() == n * FRAME_SAMPLES + mic_left_before(runs, n).len(),
        mic_left_before(runs, n) == mic_stream(runs, n).skip(n * FRAME_SAMPLES),
        forall|k: int|
            0 <= k < n ==> (#[trigger] runs[k]).taken.scratch.mic_frame@ == mic_stream(
                runs,
                n,
            ).subrange(k * FRAME_SAMPLES, k * FRAME_SAMPLES + FRAME_SAMPLES),
{
    lemma_mic_buffer(fresh, runs, silence, far, near, rms, close, quantise, n);
    law_frames_tile_the_stream(mic_events(runs, n));
    let stream = mic_stream(runs, n);
    let frames = framed(mic_events(runs, n));
    assert(stream.skip(n * FRAME_SAMPLES) =~= mic_left_before(runs, n));
    assert forall|k: int| 0 <= k < n implies (#[trigger] runs[k]).taken.scratch.mic_frame@
        == stream.subrange(k * FRAME_SAMPLES, k * FRAME_SAMPLES + FRAME_SAMPLES) by {
        lemma_piece(frames, mic_left_before(runs, n), FRAME_SAMPLES as nat, n as nat, k);
    }
}

/// The microphone buffer goes through the events of `mic_events`.
proof fn lemma_mic_buffer<
    T: Copy,
    L: Copy,
    E,
    F: Fn(E, &[T]) -> (E, i32),
    N: Fn(E, &[T]) -> (E, i32, [T; APM_FRAME_SIZE]),
    R: Fn(&[T]) -> L,
    C: Fn(L, L) -> bool,
    Q: Fn(T) -> i32,
>(
    fresh: CaptureLoop<T, L, E>,
    runs: Seq<FrameRun<T, L, E>>,
    silence: L,
    far: F,
    near: N,
    rms: R,
    close: C,
    quantise: Q,
    n: int,
)
    requires
        is_capture(fresh, runs, silence, far, near, rms, close, quantise),
        0 <= n <= runs.len(),
    ensures
        buffered(mic_events(runs, n)) == mic_left_before(runs, n),
        framed(mic_events(runs, n)).len() == n * FRAME_SAMPLES,
        forall|k: int|
            0 <= k < n ==> (#[trigger] runs[k]).taken.scratch.mic_frame@ == framed(
                mic_events(runs, n),
            ).subrange(k * FRAME_SAMPLES, k * FRAME_SAMPLES + FRAME_SAMPLES),
    decreases n,
{
    if n > 0 {
        lemma_mic_buffer(fresh, runs, silence, far, near, rms, close, quantise, n - 1);
        lemma_run_buffers(fresh, runs, silence, far, near, rms, close, quantise, n - 1);
        let run = runs[n - 1];
        lemma_filled_and_taken(mic_events(runs, n - 1), run.mic_arrived);
        let before = framed(mic_events(runs, n - 1));
        let frames = framed(mic_events(runs, n));
        assert(frames == before + run.taken.scratch.mic_frame@);
        assert forall|k: int| 0 <= k < n implies (#[trigger] runs[k]).taken.scratch.mic_frame@
            == frames.subrange(k * FRAME_SAMPLES, k * FRAME_SAMPLES + FRAME_SAMPLES) by {
            if k < n - 1 {
                lemma_piece(
                    before,
                    run.taken.scratch.mic_frame@,
                    FRAME_SAMPLES as nat,
                    (n - 1) as nat,
                    k,
                );
            } else {
                assert(frames.subrange(k * FRAME_SAMPLES, k * FRAME_SAMPLES + FRAME_SAMPLES)
                    =~= run.taken.scratch.mic_frame@);
            }
        }
    }
}

/// Where there is a loopback stream, its frames are the stream, cut, as far
/// as it was asked for: nothing is lost, doubled or moved. A frame has a
/// loopback frame beside it just where a whole one was there.
pub proof fn law_loopback_frames_are_the_stream<
    T: Copy,
    L: Copy,
    E,
    F: Fn(E, &[T]) -> (E, i32),
    N: Fn(E, &[T]) -> (E, i32, [T; APM_FRAME_SIZE]),
    R: Fn(&[T]) -> L,
    C: Fn(L, L) -> bool,
    Q: Fn(T) -> i32,
>(
    fresh: CaptureLoop<T, L, E>,
    runs: Seq<FrameRun<T, L, E>>,
    silence: L,
    far: F,
    near: N,
    rms: R,
    close: C,
    quantise: Q,
    n: int,
)
    requires
        is_capture(fresh, runs, silence, far, near, rms, close, quantise),
        0 <= n <= runs.len(),
    ensures
        fresh.has_loopback ==> lp_frames(runs, n) + lp_left_before(runs, n) == delivered(
            lp_events(runs, n),
        ),
        forall|k: int|
            0 <= k < n ==> ((#[trigger] runs[k]).paired.has_lp_frame() <==> fresh.has_loopback
                && has_frame(lp_left_before(runs, k) + runs[k].lp_arrived)),
{
    if fresh.has_loopback {
        lemma_lp_frames(fresh, runs, silence, far, near, rms, close, quantise, n);
    }
    assert forall|k: int| 0 <= k < n implies ((#[trigger] runs[k]).paired.has_lp_frame()
        <==> fresh.has_loopback && has_frame(
        lp_left_before(runs, k) + runs[k].lp_arrived,
    )) by {
        lemma_loop_keeps_options(fresh, runs, silence, far, near, rms, close, quantise, k);
        lemma_run_state(fresh, runs, silence, far, near, rms, close, quantise, k);
        lemma_run_buffers(fresh, runs, silence, far, near, rms, close, quantise, k);
    }
}

/// The loopback frames so far, and what is left of their stream.
proof fn lemma_lp_frames<
    T: Copy,
    L: Copy,
    E,
    F: Fn(E, &[T]) -> (E, i32),
    N: Fn(E, &[T]) -> (E, i32, [T; APM_FRAME_SIZE]),
    R: Fn(&[T]) -> L,
    C: Fn(L, L) -> bool,
    Q: Fn(T) -> i32,
>(
    fresh: CaptureLoop<T, L, E>,
    runs: Seq<FrameRun<T, L, E>>,
    silence: L,
    far: F,
    near: N,
    rms: R,
    close: C,
    quantise: Q,
    n: int,
)
    requires
        is_capture(fresh, runs, silence, far, near, rms, close, quantise),
        fresh.has_loopback,
        0 <= n <= runs.len(),
    ensures
        lp_frames(runs, n) + lp_left_before(runs, n) == delivered(lp_events(runs, n)),
    decreases n,
{
    if n == 0 {
        assert(lp_frames(runs, n) + lp_left_before(runs, n) =~= delivered(lp_events(runs, n)));
    } else {
        lemma_lp_frames(fresh, runs, silence, far, near, rms, close, quantise, n - 1);
        lemma_loop_keeps_options(fresh, runs, silence, far, near, rms, close, quantise, n - 1);
        lemma_run_state(fresh, runs, silence, far, near, rms, close, quantise, n - 1);
        lemma_run_buffers(fresh, runs, silence, far, near, rms, close, quantise, n - 1);
        lemma_filled_and_taken(lp_events(runs, n - 1), runs[n - 1].lp_arrived);
        lemma_cut_is_lossless(
            lp_frames(runs, n - 1),
            lp_left_before(runs, n - 1),
            runs[n - 1].lp_arrived,
        );
    }
}

/// Cutting a frame from what was left and what has arrived loses nothing.
proof fn lemma_cut_is_lossless<T>(frames: Seq<T>, left: Seq<T>, arrived: Seq<T>)
    ensures
        (frames + cut_frame(left + arrived)) + left_of(left + arrived) == (frames + left) + arrived,
{
    assert((frames + cut_frame(left + arrived)) + left_of(left + arrived) =~= (frames + left)
        + arrived);
}

/// What a listener decodes of the microphone, frame behind frame, is the
/// stream as the processing module has left it, quantised and clipped; and
/// without a module it is what the microphone delivered. No sample is lost,
/// doubled or moved on the way.
pub proof fn law_listener_hears_the_stream<
    T: Copy,
    L: Copy,
    E,
    F: Fn(E, &[T]) -> (E, i32),
    N: Fn(E, &[T]) -> (E, i32, [T; APM_FRAME_SIZE]),
    R: Fn(&[T]) -> L,
    C: Fn(L, L) -> bool,
    Q: Fn(T) -> i32,
>(
    fresh: CaptureLoop<T, L, E>,
    runs: Seq<FrameRun<T, L, E>>,
    silence: L,
    far: F,
    near: N,
    rms: R,
    close: C,
    quantise: Q,
    n: int,
)
    requires
        is_capture(fresh, runs, silence, far, near, rms, close, quantise),
        !fresh.options.level_only,
        0 <= n <= runs.len(),
    ensures
        heard_stream(runs, n).len() == n * FRAME_SAMPLES,
        cleaned_stream(runs, n).len() == n * FRAME_SAMPLES,
        forall|t: int|
            0 <= t < n * FRAME_SAMPLES ==> is_wire_sample(
                quantise,
                cleaned_stream(runs, n)[t],
                #[trigger] heard_stream(runs, n)[t],
            ),
        fresh.apm is None ==> cleaned_stream(runs, n) == mic_stream(runs, n).take(
            n * FRAME_SAMPLES,
        ),
{
    lemma_heard(fresh, runs, silence, far, near, rms, close, quantise, n);
    law_frames_are_the_stream(fresh, runs, silence, far, near, rms, close, quantise, n);
    lemma_mic_buffer(fresh, runs, silence, far, near, rms, close, quantise, n);
    law_frames_tile_the_stream(mic_events(runs, n));
    if fresh.apm is None {
        assert(cleaned_stream(runs, n) =~= mic_stream(runs, n).take(n * FRAME_SAMPLES));
    }
}

/// What is heard of the frames so far.
proof fn lemma_heard<
    T: Copy,
    L: Copy,
    E,
    F: Fn(E, &[T]) -> (E, i32),
    N: Fn(E, &[T]) -> (E, i32, [T; APM_FRAME_SIZE]),
    R: Fn(&[T]) -> L,
    C: Fn(L, L) -> bool,
    Q: Fn(T) -> i32,
>(
    fresh: CaptureLoop<T, L, E>,
    runs: Seq<FrameRun<T, L, E>>,
    silence: L,
    far: F,
    near: N,
    rms: R,
    close: C,
    quantise: Q,
    n: int,
)
    requires
        is_capture(fresh, runs, silence, far, near, rms, close, quantise),
        !fresh.options.level_only,
        0 <= n <= runs.len(),
    ensures
        heard_stream(runs, n).len() == n * FRAME_SAMPLES,
        cleaned_stream(runs, n).len() == n * FRAME_SAMPLES,
        forall|t: int|
            0 <= t < n * FRAME_SAMPLES ==> is_wire_sample(
                quantise,
                cleaned_stream(runs, n)[t],
                #[trigger] heard_stream(runs, n)[t],
            ),
        fresh.apm is None ==> cleaned_stream(runs, n) == framed(mic_events(runs, n)),
    decreases n,
{
    if n > 0 {
        lemma_heard(fresh, runs, silence, far, near, rms, close, quantise, n - 1);
        lemma_run_buffers(fresh, runs, silence, far, near, rms, close, quantise, n - 1);
        lemma_run_events(fresh, runs, silence, far, near, rms, close, quantise, n - 1);
        let run = runs[n - 1];
        lemma_loop_keeps_options(
            fresh,
            runs,
            silence,
            far,
            near,
            rms,
            close,
            quantise,
            n - 1,
        );
        lemma_mic_buffer(fresh, runs, silence, far, near, rms, close, quantise, n - 1);
        lemma_filled_and_taken(mic_events(runs, n - 1), run.mic_arrived);
        let frame = run.done.scratch.mic_frame@;
        run.paired.law_streams_are_kept_apart(
            frame,
            run.now_ms,
            silence,
            rms,
            close,
            quantise,
            run.done.throttle,
            run.events,
        );
        law_listener_gets_the_samples(
            run.events[0],
            run.paired.scratch.seq,
            PcmSource::Mic,
            frame,
            quantise,
        );
        let decoded = heard(run.events[0]);
        let before = heard_stream(runs, n - 1);
        assert forall|t: int| 0 <= t < n * FRAME_SAMPLES implies is_wire_sample(
            quantise,
            cleaned_stream(runs, n)[t],
            #[trigger] heard_stream(runs, n)[t],
        ) by {
            if t < (n - 1) * FRAME_SAMPLES {
                assert(heard_stream(runs, n)[t] == before[t]);
                assert(cleaned_stream(runs, n)[t] == cleaned_stream(runs, n - 1)[t]);
            } else {
                let i = t - (n - 1) * FRAME_SAMPLES;
                assert(heard_stream(runs, n)[t] == decoded[i]);
                assert(cleaned_stream(runs, n)[t] == frame[i]);
            }
        }
    } else {
        assert(cleaned_stream(runs, n) =~= framed(mic_events(runs, n)));
    }
}

/// What a listener decodes of the loopback stream, frame behind frame, is
/// that stream, quantised and clipped, as far as it was asked for; the
/// processing module does not touch it. No sample is lost, doubled or moved
/// on the way.
pub proof fn law_listener_hears_the_loopback<
    T: Copy,
    L: Copy,
    E,
    F: Fn(E, &[T]) -> (E, i32),
    N: Fn(E, &[T]) -> (E, i32, [T; APM_FRAME_SIZE]),
    R: Fn(&[T]) -> L,
    C: Fn(L, L) -> bool,
    Q: Fn(T) -> i32,
>(
    fresh: CaptureLoop<T, L, E>,
    runs: Seq<FrameRun<T, L, E>>,
    silence: L,
    far: F,
    near: N,
    rms: R,
    close: C,
    quantise: Q,
    n: int,
)
    requires
        is_capture(fresh, runs, silence, far, near, rms, close, quantise),
        !fresh.options.level_only,
        0 <= n <= runs.len(),
    ensures
        heard_loopback(runs, n).len() == lp_frames(runs, n).len(),
        forall|t: int|
            0 <= t < lp_frames(runs, n).len() ==> is_wire_sample(
                quantise,
                lp_frames(runs, n)[t],
                #[trigger] heard_loopback(runs, n)[t],
            ),
        fresh.has_loopback ==> lp_frames(runs, n) + lp_left_before(runs, n) == delivered(
            lp_events(runs, n),
        ),
{
    lemma_heard_loopback(fresh, runs, silence, far, near, rms, close, quantise, n);
    law_loopback_frames_are_the_stream(fresh, runs, silence, far, near, rms, close, quantise, n);
}

/// What is heard of the loopback frames so far.
proof fn lemma_heard_loopback<
    T: Copy,
    L: Copy,
    E,
    F: Fn(E, &[T]) -> (E, i32),
    N: Fn(E, &[T]) -> (E, i32, [T; APM_FRAME_SIZE]),
    R: Fn(&[T]) -> L,
    C: Fn(L, L) -> bool,
    Q: Fn(T) -> i32,
>(
    fresh: CaptureLoop<T, L, E>,
    runs: Seq<FrameRun<T, L, E>>,
    silence: L,
    far: F,
    near: N,
    rms: R,
    close: C,
    quantise: Q,
    n: int,
)
    requires
        is_capture(fresh, runs, silence, far, near, rms, close, quantise),
        !fresh.options.level_only,
        0 <= n <= runs.len(),
    ensures
        heard_loopback(runs, n).len() == lp_frames(runs, n).len(),
        forall|t: int|
            0 <= t < lp_frames(runs, n).len() ==> is_wire_sample(
                quantise,
                lp_frames(runs, n)[t],
                #[trigger] heard_loopback(runs, n)[t],
            ),
    decreases n,
{
    if n > 0 {
        lemma_heard_loopback(fresh, runs, silence, far, near, rms, close, quantise, n - 1);
        lemma_run_buffers(fresh, runs, silence, far, near, rms, close, quantise, n - 1);
        lemma_run_state(fresh, runs, silence, far, near, rms, close, quantise, n - 1);
        lemma_run_events(fresh, runs, silence, far, near, rms, close, quantise, n - 1);
        lemma_loop_keeps_options(fresh, runs, silence, far, near, rms, close, quantise, n - 1);
        let run = runs[n - 1];
        let frame = run.paired.scratch.lp_frame@;
        let before = heard_loopback(runs, n - 1);
        let frames = lp_frames(runs, n - 1);
        if run.paired.has_lp_frame() {
            run.paired.law_streams_are_kept_apart(
                run.done.scratch.mic_frame@,
                run.now_ms,
                silence,
                rms,
                close,
                quantise,
                run.done.throttle,
                run.events,
            );
            law_listener_gets_the_samples(
                run.events[1],
                run.paired.scratch.seq,
                PcmSource::Loopback,
                frame,
                quantise,
            );
            let decoded = heard(run.events[1]);
            assert forall|t: int| 0 <= t < lp_frames(runs, n).len() implies is_wire_sample(
                quantise,
                lp_frames(runs, n)[t],
                #[trigger] heard_loopback(runs, n)[t],
            ) by {
                if t < frames.len() {
                    assert(heard_loopback(runs, n)[t] == before[t]);
                    assert(lp_frames(runs, n)[t] == frames[t]);
                } else {
                    let i = t - frames.len();
                    assert(heard_loopback(runs, n)[t] == decoded[i]);
                    assert(lp_frames(runs, n)[t] == frame[i]);
                }
            }
        } else {
            assert(frames + frame =~= frames);
        }
    }
}

/// The processing module is told the delay once, before the first frame, and
/// is then called for the frames only: the engine that the first frame meets
/// is the one that was told `APM_STREAM_DELAY_MS`, and every later frame
/// meets the one that the frame before has left. What a frame does with it,
/// the far end before the near end, is `law_far_end_is_fed_first` of
/// `CaptureLoop`.
pub proof fn law_delay_is_told_once_before_frames<
    T: Copy,
    L: Copy,
    E,
    D: Fn(E, i32) -> E,
    F: Fn(E, &[T]) -> (E, i32),
    N: Fn(E, &[T]) -> (E, i32, [T; APM_FRAME_SIZE]),
    R: Fn(&[T]) -> L,
    C: Fn(L, L) -> bool,
    Q: Fn(T) -> i32,
>(
    options: CaptureOptions,
    has_loopback: bool,
    opened: Apm<E>,
    set_delay: D,
    fresh: CaptureLoop<T, L, E>,
    runs: Seq<FrameRun<T, L, E>>,
    silence: L,
    far: F,
    near: N,
    rms: R,
    close: C,
    quantise: Q,
)
    requires
        CaptureLoop::is_new(options, has_loopback, Some(opened), set_delay, fresh),
        is_capture(fresh, runs, silence, far, near, rms, close, quantise),
    ensures
        fresh.apm matches Some(seeded) && Apm::is_delayed(
            opened,
            APM_STREAM_DELAY_MS,
            set_delay,
            seeded,
        ),
        runs.len() > 0 ==> runs[0].paired.apm == fresh.apm,
        forall|k: int|
            0 < k < runs.len() ==> (#[trigger] runs[k]).paired.apm == runs[k - 1].done.apm,
        forall|k: int|
            0 <= k < runs.len() ==> (#[trigger] runs[k]).paired.is_cleaned(
                far,
                near,
                runs[k].done.apm,
                runs[k].done.scratch.mic_frame@,
            ),
{
    assert forall|k: int| 0 <= k < runs.len() implies (#[trigger] runs[k]).paired.is_cleaned(
        far,
        near,
        runs[k].done.apm,
        runs[k].done.scratch.mic_frame@,
    ) && runs[k].paired.apm == loop_before(fresh, runs, k).apm by {
        lemma_run_state(fresh, runs, silence, far, near, rms, close, quantise, k);
        lemma_run_events(fresh, runs, silence, far, near, rms, close, quantise, k);
    }
}

/// The levels of a frame were emitted.
pub open spec fn emits_level<T, L, E>(run: FrameRun<T, L, E>) -> bool {
    run.events.len() > 0 && run.events.last() is Level
}

/// An emitted level stays known to the throttle.
proof fn lemma_level_is_remembered<
    T: Copy,
    L: Copy,
    E,
    F: Fn(E, &[T]) -> (E, i32),
    N: Fn(E, &[T]) -> (E, i32, [T; APM_FRAME_SIZE]),
    R: Fn(&[T]) -> L,
    C: Fn(L, L) -> bool,
    Q: Fn(T) -> i32,
>(
    fresh: CaptureLoop<T, L, E>,
    runs: Seq<FrameRun<T, L, E>>,
    silence: L,
    far: F,
    near: N,
    rms: R,
    close: C,
    quantise: Q,
    i: int,
    k: int,
)
    requires
        is_capture(fresh, runs, silence, far, near, rms, close, quantise),
        0 <= i <= k < runs.len(),
        forall|a: int, b: int|
            0 <= a <= b < runs.len() ==> (#[trigger] runs[a]).now_ms <= (#[trigger] runs[b]).now_ms,
        emits_level(runs[i]),
    ensures
        runs[k].done.throttle.last is Some,
        runs[k].done.throttle.last_emit_at_ms >= runs[i].now_ms,
        i < k && emits_level(runs[k]) ==> runs[k].now_ms - runs[i].now_ms >= LEVEL_EMIT_INTERVAL_MS,
    decreases k,
{
    lemma_run_state(fresh, runs, silence, far, near, rms, close, quantise, k);
    lemma_run_events(fresh, runs, silence, far, near, rms, close, quantise, k);
    let run = runs[k];
    let mic = run.done.scratch.mic_frame@;
    let (pcm, mic_rms, lp_rms, level) = run.paired.lemma_parts(
        mic,
        run.now_ms,
        silence,
        rms,
        close,
        quantise,
        run.done.throttle,
        run.events,
    );
    if emits_level(run) && level is None {
        let last = pcm.len() - 1;
        assert(run.events.last() == pcm[last]);
        assert(is_pcm_event_of(
            pcm[last],
            run.paired.scratch.seq,
            run.paired.sources()[last],
            run.paired.frame_of(mic, run.paired.sources()[last]),
            quantise,
        ));
    }
    if i < k {
        lemma_level_is_remembered(
            fresh,
            runs,
            silence,
            far,
            near,
            rms,
            close,
            quantise,
            i,
            k - 1,
        );
        assert(runs[i].now_ms <= runs[k].now_ms);
    }
}

/// A capture emits levels ten times a second at most: two frames that emit
/// them are processed `LEVEL_EMIT_INTERVAL_MS` apart or more, on a clock that
/// does not go back.
pub proof fn law_capture_throttles_levels<
    T: Copy,
    L: Copy,
    E,
    F: Fn(E, &[T]) -> (E, i32),
    N: Fn(E, &[T]) -> (E, i32, [T; APM_FRAME_SIZE]),
    R: Fn(&[T]) -> L,
    C: Fn(L, L) -> bool,
    Q: Fn(T) -> i32,
>(
    fresh: CaptureLoop<T, L, E>,
    runs: Seq<FrameRun<T, L, E>>,
    silence: L,
    far: F,
    near: N,
    rms: R,
    close: C,
    quantise: Q,
    i: int,
    j: int,
)
    requires
        is_capture(fresh, runs, silence, far, near, rms, close, quantise),
        forall|a: int, b: int|
            0 <= a <= b < runs.len() ==> (#[trigger] runs[a]).now_ms <= (#[trigger] runs[b]).now_ms,
        0 <= i < j < runs.len(),
        emits_level(runs[i]),
        emits_level(runs[j]),
    ensures
        runs[j].now_ms - runs[i].now_ms >= LEVEL_EMIT_INTERVAL_MS,
{
    lemma_level_is_remembered(fresh, runs, silence, far, near, rms, close, quantise, i, j);
}

/// Whenever a capture emits levels, they are those of the frame at hand, each
/// of its own stream: the microphone level is what `rms` makes of the
/// microphone frame as the processing module has left it; the loopback level
/// is what `rms` makes of the first 320 samples of the loopback buffer, and
/// silence where there is no loopback stream or fewer are there.
pub proof fn law_capture_meters_each_stream<
    T: Copy,
    L: Copy,
    E,
    F: Fn(E, &[T]) -> (E, i32),
    N: Fn(E, &[T]) -> (E, i32, [T; APM_FRAME_SIZE]),
    R: Fn(&[T]) -> L,
    C: Fn(L, L) -> bool,
    Q: Fn(T) -> i32,
>(
    fresh: CaptureLoop<T, L, E>,
    runs: Seq<FrameRun<T, L, E>>,
    silence: L,
    far: F,
    near: N,
    rms: R,
    close: C,
    quantise: Q,
    k: int,
    i: int,
)
    requires
        is_capture(fresh, runs, silence, far, near, rms, close, quantise),
        0 <= k < runs.len(),
        0 <= i < runs[k].events.len(),
        runs[k].events[i] is Level,
    ensures
        exists|frame: &[T]|
            frame@ == runs[k].done.scratch.mic_frame@ && #[trigger] rms.ensures(
                (frame,),
                runs[k].events[i]->mic_rms,
            ),
        ({
            let buf = lp_left_before(runs, k) + runs[k].lp_arrived;
            &&& fresh.has_loopback && buf.len() >= 320 ==> exists|frame: &[T]|
                frame@ == buf.subrange(0, 320) && #[trigger] rms.ensures(
                    (frame,),
                    runs[k].events[i]->loopback_rms,
                )
            &&& !(fresh.has_loopback && buf.len() >= 320) ==> runs[k].events[i]->loopback_rms
                == silence
        }),
{
    let run = runs[k];
    assert(is_run(
        loop_before(fresh, runs, k),
        mic_left_before(runs, k),
        lp_left_before(runs, k),
        run,
        silence,
        far,
        near,
        rms,
        close,
        quantise,
    ));
    lemma_run_is_frame(
        loop_before(fresh, runs, k),
        mic_left_before(runs, k),
        lp_left_before(runs, k),
        run,
        silence,
        far,
        near,
        rms,
        close,
        quantise,
    );
    CaptureLoop::law_levels_are_of_their_frames(
        run.paired,
        run.now_ms,
        silence,
        far,
        near,
        rms,
        close,
        quantise,
        run.done,
        run.events,
        i,
    );
    lemma_loop_keeps_options(fresh, runs, silence, far, near, rms, close, quantise, k);
    lemma_run_state(fresh, runs, silence, far, near, rms, close, quantise, k);
    lemma_run_buffers(fresh, runs, silence, far, near, rms, close, quantise, k);
    let buf = lp_left_before(runs, k) + run.lp_arrived;
    if buf.len() >= 320 {
        assert(cut_frame(buf) =~= buf.subrange(0, 320));
    }
}

/// A frame of a capture went through `process_frame`.
proof fn lemma_run_is_frame<
    T: Copy,
    L: Copy,
    E,
    F: Fn(E, &[T]) -> (E, i32),
    N: Fn(E, &[T]) -> (E, i32, [T; APM_FRAME_SIZE]),
    R: Fn(&[T]) -> L,
    C: Fn(L, L) -> bool,
    Q: Fn(T) -> i32,
>(
    before: CaptureLoop<T, L, E>,
    mic_left: Seq<T>,
    lp_left: Seq<T>,
    run: FrameRun<T, L, E>,
    silence: L,
    far: F,
    near: N,
    rms: R,
    close: C,
    quantise: Q,
)
    requires
        is_run(before, mic_left, lp_left, run, silence, far, near, rms, close, quantise),
    ensures
        CaptureLoop::is_frame(
            run.paired,
            run.now_ms,
            silence,
            far,
            near,
            rms,
            close,
            quantise,
            run.done,
            run.events,
        ),
{
    reveal(is_run);
}

} // verus!
