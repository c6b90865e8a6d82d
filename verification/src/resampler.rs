//! Mono mixdown, anti-alias filter and linear resampler.
//!
//! The stream logic is here: which samples are mixed, which window of the
//! stream each filter output sees, between which two samples each output of
//! the resampler lies, and what is carried from one call to the next. What a
//! sample is, and how samples are averaged, multiplied and interpolated, is
//! the caller's: `T` is the sample type, and the three operations are handed
//! in as functions. A caller that works in single precision hands in
//!
//! * `average`: the mean of one frame, `frame.iter().sum() * (1 / channels)`;
//! * `mac`: `acc + sample * coefficient`;
//! * `lerp`: `a + (b - a) * fraction`.
use vstd::prelude::*;
use vstd::slice::{slice_subrange, slice_to_vec};
use vstd::arithmetic::power2::lemma_pow2_pos;
use crate::fold::{are_running_sums, is_sum, sum};
use crate::phase::{
    is_double, lemma_advances, lemma_rounded_fixpoint, lemma_rounded_is_double,
    lemma_rounded_monotone, lemma_spacing_range, round, rounded, spacing, Step, POSITION_BOUND,
    SIGNIFICAND,
};

verus! {

/// Taps of the anti-alias filter.
///
/// 129 taps keep the transition band narrow enough on 48 kHz to 16 kHz that
/// fricatives are not smeared; the group delay is 64 samples, 1.3 ms at
/// 48 kHz.
pub const FILTER_TAPS: usize = 129;

/// Samples per frame: devices that report no channel count are mono.
pub open spec fn channel_stride(channels: u16) -> nat {
    if channels <= 1 {
        1
    } else {
        channels as nat
    }
}

/// `r` is what `average` makes of the samples `frame`.
pub open spec fn is_average<T, A: Fn(&[T]) -> T>(average: A, frame: Seq<T>, r: T) -> bool {
    exists|slice: &[T]| slice@ == frame && #[trigger] average.ensures((slice,), r)
}

/// `mono` is the mixdown of the interleaved `input`: one channel passes
/// through, of two the left one is taken, more are averaged. Samples behind
/// the last whole frame are dropped.
pub open spec fn is_mixdown<T, A: Fn(&[T]) -> T>(
    input: Seq<T>,
    channels: u16,
    average: A,
    mono: Seq<T>,
) -> bool {
    let stride = channel_stride(channels);
    &&& mono.len() == input.len() / stride
    &&& channels <= 1 ==> mono == input
    &&& channels == 2 ==> forall|i: int|
        0 <= i < mono.len() ==> #[trigger] mono[i] == input[2 * i]
    &&& channels > 2 ==> forall|i: int|
        0 <= i < mono.len() ==> is_average(
            average,
            input.subrange(i * stride, i * stride + stride),
            #[trigger] mono[i],
        )
}

/// Mixes interleaved frames down to one channel.
///
/// Of two channels the left one is taken: many microphones with a mono
/// element present it as stereo with equal channels.
pub fn mixdown<T: Copy, A: Fn(&[T]) -> T>(input: &[T], channels: u16, average: &A) -> (mono: Vec<T>)
    requires
        forall|frame: &[T]| frame@.len() == channels ==> #[trigger] average.requires((frame,)),
    ensures
        is_mixdown(input@, channels, *average, mono@),
{
    if channels <= 1 {
        return slice_to_vec(input);
    }
    let stride: usize = channels as usize;
    let len: usize = input.len();
    let frames: usize = len / stride;
    let mut mono: Vec<T> = Vec::with_capacity(frames);
    let mut at: usize = 0;
    let mut i: usize = 0;
    while i < frames
        invariant
            channels > 1,
            stride == channels,
            len == input@.len(),
            frames == input@.len() / stride as nat,
            i <= frames,
            at == i * stride,
            mono@.len() == i,
            forall|frame: &[T]|
                frame@.len() == channels ==> #[trigger] average.requires((frame,)),
            channels == 2 ==> forall|j: int| 0 <= j < i ==> #[trigger] mono@[j] == input@[2 * j],
            channels > 2 ==> forall|j: int|
                0 <= j < i ==> is_average(
                    *average,
                    input@.subrange(j * stride, j * stride + stride),
                    #[trigger] mono@[j],
                ),
        decreases frames - i,
    {
        proof {
            assert(i * stride + stride <= input@.len()) by (nonlinear_arith)
                requires
                    i < frames,
                    frames == input@.len() / stride as nat,
                    stride > 0,
            ;
            assert((i + 1) * stride == i * stride + stride) by (nonlinear_arith);
        }
        if channels == 2 {
            mono.push(input[at]);
        } else {
            let frame = slice_subrange(input, at, at + stride);
            let mean = average(frame);
            proof {
                assert(is_average(*average, frame@, mean));
            }
            mono.push(mean);
        }
        at = at + stride;
        i = i + 1;
    }
    mono
}

/// The offset of a tap from the middle one.
pub open spec fn is_offset(offset: i32) -> bool {
    -(FILTER_TAPS / 2) <= offset <= FILTER_TAPS / 2
}

/// `coeffs` are the taps of a filter that runs at `in_rate`, normalised:
/// `tap` gives the tap at each offset from the middle, and `normalise` makes
/// a coefficient of a tap and the sum of all taps, which `plus` has added up
/// from `zero`, first to last.
pub open spec fn is_lpf<
    T,
    C: Fn(u32, u32, i32) -> T,
    P: Fn(T, T) -> T,
    N: Fn(T, T) -> T,
>(
    in_rate: u32,
    out_rate: u32,
    zero: T,
    tap: C,
    plus: P,
    normalise: N,
    coeffs: Seq<T>,
) -> bool {
    exists|taps: Seq<T>, total: T|
        {
            &&& #[trigger] is_sum(plus, zero, taps, total)
            &&& are_coefficients(in_rate, out_rate, tap, normalise, taps, total, coeffs)
        }
}

/// `coeffs` are the coefficients of the taps `taps`, whose sum is `total`.
pub open spec fn are_coefficients<T, C: Fn(u32, u32, i32) -> T, N: Fn(T, T) -> T>(
    in_rate: u32,
    out_rate: u32,
    tap: C,
    normalise: N,
    taps: Seq<T>,
    total: T,
    coeffs: Seq<T>,
) -> bool {
    &&& taps.len() == FILTER_TAPS
    &&& coeffs.len() == FILTER_TAPS
    &&& forall|i: int|
        0 <= i < FILTER_TAPS ==> {
            &&& tap.ensures((in_rate, out_rate, (i - FILTER_TAPS / 2) as i32), taps[i])
            &&& normalise.ensures((taps[i], total), #[trigger] coeffs[i])
        }
}

/// Designs the anti-alias filter for a stream at `in_rate` that is to go out
/// at `out_rate`. The sum of the taps goes into each coefficient, so that a
/// steady input can come out as it went in.
pub fn design_lpf<T: Copy, C: Fn(u32, u32, i32) -> T, P: Fn(T, T) -> T, N: Fn(T, T) -> T>(
    in_rate: u32,
    out_rate: u32,
    zero: T,
    tap: C,
    plus: P,
    normalise: N,
) -> (coeffs: [T; FILTER_TAPS])
    requires
        forall|offset: i32|
            is_offset(offset) ==> #[trigger] tap.requires((in_rate, out_rate, offset)),
        forall|acc: T, t: T| #[trigger] plus.requires((acc, t)),
        forall|t: T, total: T| #[trigger] normalise.requires((t, total)),
    ensures
        is_lpf(in_rate, out_rate, zero, tap, plus, normalise, coeffs@),
{
    let half: i32 = (FILTER_TAPS / 2) as i32;
    let mut coeffs: [T; FILTER_TAPS] = [zero; FILTER_TAPS];
    let mut i: usize = 0;
    while i < FILTER_TAPS
        invariant
            i <= FILTER_TAPS,
            half == FILTER_TAPS / 2,
            coeffs@.len() == FILTER_TAPS,
            forall|offset: i32|
                is_offset(offset) ==> #[trigger] tap.requires((in_rate, out_rate, offset)),
            forall|k: int|
                0 <= k < i ==> tap.ensures(
                    (in_rate, out_rate, (k - FILTER_TAPS / 2) as i32),
                    #[trigger] coeffs@[k],
                ),
        decreases FILTER_TAPS - i,
    {
        coeffs[i] = tap(in_rate, out_rate, i as i32 - half);
        i = i + 1;
    }
    let ghost taps = coeffs@;
    let total: T = sum(&coeffs, zero, &plus);
    let mut j: usize = 0;
    while j < FILTER_TAPS
        invariant
            j <= FILTER_TAPS,
            coeffs@.len() == FILTER_TAPS,
            taps.len() == FILTER_TAPS,
            forall|t: T, total: T| #[trigger] normalise.requires((t, total)),
            forall|k: int| j <= k < FILTER_TAPS ==> #[trigger] coeffs@[k] == taps[k],
            forall|k: int|
                0 <= k < j ==> normalise.ensures((taps[k], total), #[trigger] coeffs@[k]),
        decreases FILTER_TAPS - j,
    {
        coeffs[j] = normalise(coeffs[j], total);
        j = j + 1;
    }
    proof {
        assert(is_sum(plus, zero, taps, total));
    }
    coeffs
}

/// `r` comes of folding `mac` over the samples and the coefficients, first
/// to last, from `zero`.
pub open spec fn is_dot_product<T, M: Fn(T, T, T) -> T>(
    mac: M,
    zero: T,
    samples: Seq<T>,
    coeffs: Seq<T>,
    r: T,
) -> bool
    decreases samples.len(),
{
    if samples.len() == 0 {
        r == zero
    } else {
        exists|acc: T|
            is_dot_product(mac, zero, samples.drop_last(), coeffs.drop_last(), acc)
                && #[trigger] mac.ensures((acc, samples.last(), coeffs.last()), r)
    }
}

/// The last `FILTER_TAPS` samples of the stream once `seen` samples of
/// `samples` have followed the window `window`, oldest first.
pub open spec fn window_after<T>(window: Seq<T>, samples: Seq<T>, seen: int) -> Seq<T> {
    (window + samples).subrange(seen, seen + FILTER_TAPS)
}

/// `out` is `samples` filtered by `coeffs`, one output for each sample, on a
/// stream whose last samples were `window`.
pub open spec fn is_filtered<T, M: Fn(T, T, T) -> T>(
    mac: M,
    zero: T,
    coeffs: Seq<T>,
    window: Seq<T>,
    samples: Seq<T>,
    out: Seq<T>,
) -> bool {
    &&& out.len() == samples.len()
    &&& forall|k: int|
        0 <= k < out.len() ==> is_dot_product(
            mac,
            zero,
            window_after(window, samples, k + 1),
            coeffs,
            #[trigger] out[k],
        )
}

/// The last `FILTER_TAPS` samples of a stream, in a ring.
pub struct History<T> {
    ring: Vec<T>,
    write_idx: usize,
}

impl<T: Copy> History<T> {
    pub closed spec fn wf(&self) -> bool {
        &&& self.ring@.len() == FILTER_TAPS
        &&& self.write_idx < FILTER_TAPS
    }

    /// The samples, oldest first.
    pub closed spec fn view(&self) -> Seq<T> {
        Seq::new(
            FILTER_TAPS as nat,
            |j: int| self.ring@[(self.write_idx + j) % (FILTER_TAPS as int)],
        )
    }

    /// A history holds `FILTER_TAPS` samples.
    pub proof fn lemma_len(&self)
        ensures
            self@.len() == FILTER_TAPS,
    {
    }

    /// A stream of nothing but `zero`.
    pub fn new(zero: T) -> (history: Self)
        ensures
            history.wf(),
            history@ == Seq::new(FILTER_TAPS as nat, |j: int| zero),
    {
        let mut ring: Vec<T> = Vec::with_capacity(FILTER_TAPS);
        let mut i: usize = 0;
        while i < FILTER_TAPS
            invariant
                i <= FILTER_TAPS,
                ring@ == Seq::new(i as nat, |j: int| zero),
            decreases FILTER_TAPS - i,
        {
            ring.push(zero);
            i = i + 1;
        }
        History { ring, write_idx: 0 }
    }

    /// Puts `sample` in the place of the oldest one.
    fn record(&mut self, sample: T)
        requires
            old(self).wf(),
        ensures
            final(self).wf(),
            final(self)@ == old(self)@.drop_first().push(sample),
    {
        let w: usize = self.write_idx;
        self.ring.set(w, sample);
        self.write_idx = (w + 1) % FILTER_TAPS;
        proof {
            assert(self@ =~= old(self)@.drop_first().push(sample));
        }
    }

    /// The dot product of the samples, oldest first, with `coeffs`.
    fn dot_product<M: Fn(T, T, T) -> T>(
        &self,
        zero: T,
        coeffs: &[T; FILTER_TAPS],
        mac: &M,
    ) -> (r: T)
        requires
            self.wf(),
            forall|acc: T, sample: T, c: T| #[trigger] mac.requires((acc, sample, c)),
        ensures
            is_dot_product(*mac, zero, self@, coeffs@, r),
    {
        let mut acc: T = zero;
        let mut idx: usize = self.write_idx;
        let mut j: usize = 0;
        while j < FILTER_TAPS
            invariant
                self.wf(),
                j <= FILTER_TAPS,
                idx == (self.write_idx + j) % (FILTER_TAPS as int),
                coeffs@.len() == FILTER_TAPS,
                forall|acc: T, sample: T, c: T| #[trigger] mac.requires((acc, sample, c)),
                is_dot_product(*mac, zero, self@.take(j as int), coeffs@.take(j as int), acc),
            decreases FILTER_TAPS - j,
        {
            let ghost before = acc;
            acc = mac(acc, self.ring[idx], coeffs[j]);
            proof {
                let s = self@.take(j + 1);
                let c = coeffs@.take(j + 1);
                assert(s.drop_last() == self@.take(j as int));
                assert(c.drop_last() == coeffs@.take(j as int));
                assert(mac.ensures((before, s.last(), c.last()), acc));
            }
            idx = (idx + 1) % FILTER_TAPS;
            j = j + 1;
        }
        proof {
            assert(self@.take(FILTER_TAPS as int) == self@);
            assert(coeffs@.take(FILTER_TAPS as int) == coeffs@);
        }
        acc
    }

    /// Filters `samples` and remembers the last of them.
    pub fn fir_filter<M: Fn(T, T, T) -> T>(
        &mut self,
        zero: T,
        coeffs: &[T; FILTER_TAPS],
        samples: &[T],
        mac: &M,
    ) -> (out: Vec<T>)
        requires
            old(self).wf(),
            forall|acc: T, sample: T, c: T| #[trigger] mac.requires((acc, sample, c)),
        ensures
            final(self).wf(),
            final(self)@ == window_after(old(self)@, samples@, samples@.len() as int),
            is_filtered(*mac, zero, coeffs@, old(self)@, samples@, out@),
    {
        let ghost window = self@;
        let mut out: Vec<T> = Vec::with_capacity(samples.len());
        let mut k: usize = 0;
        proof {
            assert(window_after(window, samples@, 0) =~= window);
        }
        while k < samples.len()
            invariant
                self.wf(),
                k <= samples@.len(),
                window.len() == FILTER_TAPS,
                out@.len() == k,
                self@ == window_after(window, samples@, k as int),
                forall|acc: T, sample: T, c: T| #[trigger] mac.requires((acc, sample, c)),
                forall|i: int|
                    0 <= i < k ==> is_dot_product(
                        *mac,
                        zero,
                        window_after(window, samples@, i + 1),
                        coeffs@,
                        #[trigger] out@[i],
                    ),
            decreases samples@.len() - k,
        {
            self.record(samples[k]);
            proof {
                assert(self@ =~= window_after(window, samples@, k + 1));
            }
            out.push(self.dot_product(zero, coeffs, mac));
            k = k + 1;
        }
        out
    }
}

/// How far an output lies behind the earlier of its two samples:
/// `units / of` of the way to the later one.
#[derive(Clone, Copy)]
pub struct Fraction {
    pub units: u128,
    pub of: u128,
}

/// The distance between two outputs, in input samples.
#[derive(Clone, Copy)]
pub enum Pace {
    /// The input rate is zero: no number of outputs reaches the next sample.
    Halted,
    /// The quotient of the rates.
    Every(Step),
    /// The output rate is zero: one output, then no more.
    Unbounded,
}

/// The position of output `n`, in units, when output 0 lies at `start`: each
/// is the rounded sum of the one before and the step.
pub open spec fn position_at(start: nat, step: nat, n: nat) -> nat
    decreases n,
{
    if n == 0 {
        start
    } else {
        rounded(position_at(start, step, (n - 1) as nat) + step)
    }
}

/// The sample before index `i` of a block that follows the sample `last`.
pub open spec fn sample_before<T>(samples: Seq<T>, last: T, i: int) -> T {
    if i == 0 {
        last
    } else {
        samples[i - 1]
    }
}

/// `position`, which counts units of `1 / scale` samples, lies inside the
/// block, and `r` is what `lerp` makes of the two samples around it.
pub open spec fn is_interpolated<T, L: Fn(T, T, Fraction) -> T>(
    lerp: L,
    samples: Seq<T>,
    last: T,
    position: nat,
    scale: u128,
    r: T,
) -> bool {
    let i = position as int / scale as int;
    let units = (position as int % scale as int) as u128;
    &&& position < samples.len() * scale
    &&& lerp.ensures(
        (sample_before(samples, last, i), samples[i], Fraction { units, of: scale }),
        r,
    )
}

/// `out` is the block `samples`, which follows the sample `last`, read at
/// every position from `start` on, step by step, that lies inside the block.
pub open spec fn is_resampled<T, L: Fn(T, T, Fraction) -> T>(
    lerp: L,
    samples: Seq<T>,
    last: T,
    start: nat,
    step: Step,
    out: Seq<T>,
) -> bool {
    &&& forall|k: int|
        0 <= k < out.len() ==> is_interpolated(
            lerp,
            samples,
            last,
            position_at(start, step.units as nat, k as nat),
            step.scale,
            #[trigger] out[k],
        )
    &&& position_at(start, step.units as nat, out.len()) >= samples.len() * step.scale
}

/// The last sample of a block, or the one before an empty block.
pub open spec fn last_of<T>(block: Seq<T>, before: T) -> T {
    if block.len() > 0 {
        block.last()
    } else {
        before
    }
}

/// The start of the walk in the block after one of `len` samples that
/// `outputs` outputs were read from.
pub open spec fn carried(start: nat, step: Step, outputs: nat, len: nat) -> nat {
    rounded((position_at(start, step.units as nat, outputs) - len * step.scale) as nat)
}

/// Bounds a block so that its end lies below 2^104 units.
proof fn lemma_limit_bound(len: nat, in_rate: u32, out_rate: u32, step: Step)
    requires
        step.wf(),
        step.is_quotient(in_rate as nat, out_rate as nat),
        out_rate > 0,
        len * out_rate <= (SIGNIFICAND / 4) * in_rate,
    ensures
        len * step.scale < POSITION_BOUND,
{
    let scale = step.scale as int;
    let n = in_rate as int;
    let d = out_rate as int;
    let l = len as int;
    lemma_pow2_pos(step.bits as nat);
    assert(l * scale * d <= (SIGNIFICAND / 4) * (n * scale)) by (nonlinear_arith)
        requires
            l * d <= (SIGNIFICAND / 4) * n,
            scale >= 0,
    ;
    assert(l * scale < POSITION_BOUND) by (nonlinear_arith)
        requires
            l * scale * d <= (SIGNIFICAND / 4) * (n * scale),
            n * scale < SIGNIFICAND * d,
            d > 0,
    ;
}

/// What is left of the last position behind the end of the block is small
/// enough to start the next block at.
proof fn lemma_carry_bound(position: nat, step: Step, limit: nat)
    requires
        step.wf(),
        limit < POSITION_BOUND,
        position < limit,
        rounded(position + step.units as nat) >= limit,
    ensures
        rounded((rounded(position + step.units as nat) - limit) as nat) <= 2 * SIGNIFICAND,
{
    let next = rounded(position + step.units as nat);
    let sum = position + step.units as nat;
    lemma_rounded_is_double(sum);
    lemma_spacing_range(sum);
    assert(spacing(sum) <= SIGNIFICAND / 2 + 2) by {
        if spacing(sum) != 1 {
            assert(spacing(sum) <= SIGNIFICAND / 2 + 2) by (nonlinear_arith)
                requires
                    (SIGNIFICAND / 2) * spacing(sum) <= sum,
                    sum <= POSITION_BOUND + SIGNIFICAND,
            ;
        }
    }
    let bound: nat = 2 * SIGNIFICAND as nat;
    assert(is_double(bound)) by {
        assert(spacing(SIGNIFICAND as nat / 2) == 1);
        assert(spacing(SIGNIFICAND as nat) == 2);
        assert(bound / 2 == SIGNIFICAND as nat);
        assert(spacing(bound) == 4);
    }
    lemma_rounded_fixpoint(bound);
    lemma_rounded_monotone((next - limit) as nat, bound);
}

/// Reads a block at the positions of a walk that starts at `start`, and
/// returns what was read with the start of the walk in the next block.
pub fn resample<T: Copy, L: Fn(T, T, Fraction) -> T>(
    samples: &[T],
    last: T,
    start: u128,
    step: Step,
    lerp: &L,
) -> (r: (Vec<T>, u128))
    requires
        step.wf(),
        samples@.len() * step.scale < POSITION_BOUND,
        is_double(start as nat),
        start <= 2 * SIGNIFICAND,
        forall|a: T, b: T, f: Fraction|
            f.units < f.of ==> #[trigger] lerp.requires((a, b, f)),
    ensures
        is_resampled(*lerp, samples@, last, start as nat, step, r.0@),
        r.1 == carried(start as nat, step, r.0@.len(), samples@.len()),
        is_double(r.1 as nat),
        r.1 <= 2 * SIGNIFICAND,
{
    let scale: u128 = step.scale;
    proof {
        lemma_pow2_pos(step.bits as nat);
    }
    let len: usize = samples.len();
    let limit: u128 = len as u128 * scale;
    let mut out: Vec<T> = Vec::new();
    let mut position: u128 = start;
    let ghost mut previous: u128 = start;
    while position < limit
        invariant
            step.wf(),
            scale == step.scale,
            scale > 0,
            len == samples@.len(),
            limit == samples@.len() * scale,
            limit < POSITION_BOUND,
            start <= 2 * SIGNIFICAND,
            is_double(position as nat),
            position == position_at(start as nat, step.units as nat, out@.len()),
            out@.len() == 0 ==> position == start,
            out@.len() > 0 ==> previous < limit && position == rounded(
                previous as nat + step.units as nat,
            ),
            forall|a: T, b: T, f: Fraction|
                f.units < f.of ==> #[trigger] lerp.requires((a, b, f)),
            forall|k: int|
                0 <= k < out@.len() ==> is_interpolated(
                    *lerp,
                    samples@,
                    last,
                    position_at(start as nat, step.units as nat, k as nat),
                    scale,
                    #[trigger] out@[k],
                ),
        decreases (if position < limit { limit - position } else { 0 }),
    {
        proof {
            assert((position as int) / (scale as int) < samples@.len()) by (nonlinear_arith)
                requires
                    position < samples@.len() * scale,
                    scale > 0,
            ;
            lemma_advances(position as nat, step.units as nat);
            lemma_rounded_is_double(position as nat + step.units as nat);
        }
        let i: usize = (position / scale) as usize;
        let units: u128 = position % scale;
        let a: T = if i == 0 {
            last
        } else {
            samples[i - 1]
        };
        let r: T = lerp(a, samples[i], Fraction { units, of: scale });
        proof {
            assert(0 <= (position as int) % (scale as int) < scale) by (nonlinear_arith)
                requires
                    scale > 0,
            ;
            assert(is_interpolated(*lerp, samples@, last, position as nat, scale, r));
            previous = position;
        }
        out.push(r);
        position = round(position + step.units);
    }
    proof {
        lemma_rounded_is_double((position - limit) as nat);
        if out@.len() == 0 {
            lemma_rounded_monotone((position - limit) as nat, position as nat);
            lemma_rounded_fixpoint(position as nat);
        } else {
            lemma_carry_bound(previous as nat, step, limit as nat);
        }
        assert(position - limit <= u128::MAX / 4) by {
            if out@.len() > 0 {
                lemma_rounded_is_double(previous as nat + step.units as nat);
                lemma_spacing_range(previous as nat + step.units as nat);
            }
        }
    }
    let carry: u128 = round(position - limit);
    (out, carry)
}

/// What a `Linear` is and remembers.
pub struct LinearState<T> {
    pub in_rate: u32,
    pub out_rate: u32,
    pub in_channels: u16,
    pub out_channels: u8,
    /// The silent sample.
    pub zero: T,
    pub pace: Pace,
    /// Where the next output lies in the next block, in the units of the
    /// pace; `None` is behind every block.
    pub position: Option<nat>,
    /// The last sample of the block before.
    pub last_sample: T,
    /// The coefficients of the anti-alias filter, if there is one.
    pub coeffs: Option<Seq<T>>,
    /// The last `FILTER_TAPS` samples that went into the filter.
    pub window: Seq<T>,
}

impl<T> LinearState<T> {
    /// The pace belongs to the rates, the window is full, and the position
    /// is one that a walk can start at.
    pub open spec fn wf(self) -> bool {
        &&& self.window.len() == FILTER_TAPS
        &&& match self.pace {
            Pace::Halted => self.in_rate == 0,
            Pace::Every(step) => {
                &&& step.wf()
                &&& self.out_rate > 0
                &&& step.is_quotient(self.in_rate as nat, self.out_rate as nat)
            },
            Pace::Unbounded => self.out_rate == 0,
        }
        &&& self.position matches Some(position) ==> {
            &&& is_double(position)
            &&& position <= 2 * SIGNIFICAND
            &&& self.pace is Unbounded ==> position == 0
        }
    }
}

/// `filtered` is what the anti-alias filter, if there is one, makes of the
/// mono stream, and `window` is what the filter remembers.
pub open spec fn is_anti_aliased<T, M: Fn(T, T, T) -> T>(
    before: LinearState<T>,
    mac: M,
    mono: Seq<T>,
    filtered: Seq<T>,
    window: Seq<T>,
) -> bool {
    match before.coeffs {
        None => filtered == mono && window == before.window,
        Some(coeffs) => {
            &&& is_filtered(mac, before.zero, coeffs, before.window, mono, filtered)
            &&& window == window_after(before.window, mono, mono.len() as int)
        },
    }
}

/// `out` is the filtered stream at the output rate, and the next output lies
/// at `position` of the next block.
pub open spec fn is_paced<T, L: Fn(T, T, Fraction) -> T>(
    before: LinearState<T>,
    lerp: L,
    filtered: Seq<T>,
    out: Seq<T>,
    position: Option<nat>,
) -> bool {
    if before.in_rate == before.out_rate {
        out == filtered && position == before.position
    } else {
        match (before.position, before.pace) {
            (Some(start), Pace::Every(step)) => {
                &&& is_resampled(lerp, filtered, before.last_sample, start, step, out)
                &&& position == Some(carried(start, step, out.len(), filtered.len()))
            },
            (Some(start), Pace::Unbounded) if filtered.len() > 0 => {
                &&& out.len() == 1
                &&& is_interpolated(lerp, filtered, before.last_sample, start, 1, out[0])
                &&& position is None
            },
            _ => out.len() == 0 && position == before.position,
        }
    }
}

/// One call of `Linear::process`: from the state `before` and the block
/// `input` to the outputs `out` and the state `after`.
pub open spec fn is_processed<
    T,
    A: Fn(&[T]) -> T,
    M: Fn(T, T, T) -> T,
    L: Fn(T, T, Fraction) -> T,
>(
    before: LinearState<T>,
    input: Seq<T>,
    average: A,
    mac: M,
    lerp: L,
    out: Seq<T>,
    after: LinearState<T>,
) -> bool {
    exists|mono: Seq<T>, filtered: Seq<T>|
        {
            &&& #[trigger] is_mixdown(input, before.in_channels, average, mono)
            &&& #[trigger] is_anti_aliased(before, mac, mono, filtered, after.window)
            &&& is_paced(before, lerp, filtered, out, after.position)
            &&& after == LinearState {
                position: after.position,
                window: after.window,
                last_sample: last_of(filtered, before.last_sample),
                ..before
            }
        }
}

/// A resampler to one channel at another rate.
pub struct Linear<T> {
    in_rate: u32,
    out_rate: u32,
    in_channels: u16,
    out_channels: u8,
    zero: T,
    pace: Pace,
    in_pos: Option<u128>,
    last_sample: T,
    fir_coeffs: Option<[T; FILTER_TAPS]>,
    fir_history: History<T>,
}

impl<T: Copy> Linear<T> {
    pub closed spec fn view(&self) -> LinearState<T> {
        LinearState {
            in_rate: self.in_rate,
            out_rate: self.out_rate,
            in_channels: self.in_channels,
            out_channels: self.out_channels,
            zero: self.zero,
            pace: self.pace,
            position: match self.in_pos {
                Some(position) => Some(position as nat),
                None => None,
            },
            last_sample: self.last_sample,
            coeffs: match self.fir_coeffs {
                Some(coeffs) => Some(coeffs@),
                None => None,
            },
            window: self.fir_history@,
        }
    }

    /// The state is one that a stream can be in.
    pub closed spec fn wf(&self) -> bool {
        self.fir_history.wf() && self@.wf()
    }

    /// The state of a resampler is well-formed.
    pub proof fn lemma_state_is_wf(&self)
        requires
            self.wf(),
        ensures
            self@.wf(),
            self@.coeffs matches Some(coeffs) ==> coeffs.len() == FILTER_TAPS,
    {
    }

    /// The block of `len` interleaved samples gives at most 2^51 outputs.
    /// From 2^53 on the position would no longer move by a step; and a
    /// stream at rate zero that is to be resampled never ends.
    pub open spec fn accepts(state: LinearState<T>, len: nat) -> bool {
        state.in_rate == state.out_rate || (len / channel_stride(state.in_channels))
            * state.out_rate <= (SIGNIFICAND / 4) * state.in_rate
    }

    /// A resampler for a stream that has been silent so far. The anti-alias
    /// filter, of the coefficients that `design_lpf` gives for the two
    /// rates, is there only where the rate goes down.
    pub fn new<D: Fn(u32, u32) -> [T; FILTER_TAPS]>(
        in_rate: u32,
        out_rate: u32,
        in_channels: u16,
        out_channels: u8,
        zero: T,
        design_lpf: D,
    ) -> (linear: Self)
        requires
            design_lpf.requires((in_rate, out_rate)),
        ensures
            linear.wf(),
            linear@.in_rate == in_rate,
            linear@.out_rate == out_rate,
            linear@.in_channels == in_channels,
            linear@.out_channels == out_channels,
            linear@.zero == zero,
            linear@.last_sample == zero,
            linear@.position == Some(0nat),
            linear@.window == Seq::new(FILTER_TAPS as nat, |j: int| zero),
            in_rate <= out_rate ==> linear@.coeffs is None,
            in_rate > out_rate ==> exists|coeffs: [T; FILTER_TAPS]|
                #[trigger] design_lpf.ensures((in_rate, out_rate), coeffs) && linear@.coeffs
                    == Some(coeffs@),
            match linear@.pace {
                Pace::Halted => in_rate == 0,
                Pace::Every(step) => in_rate > 0 && out_rate > 0 && step.wf() && step.is_quotient(
                    in_rate as nat,
                    out_rate as nat,
                ),
                Pace::Unbounded => in_rate > 0 && out_rate == 0,
            },
    {
        let fir_coeffs: Option<[T; FILTER_TAPS]> = if in_rate > out_rate {
            Some(design_lpf(in_rate, out_rate))
        } else {
            None
        };
        let pace: Pace = if in_rate == 0 {
            Pace::Halted
        } else if out_rate == 0 {
            Pace::Unbounded
        } else {
            Pace::Every(Step::between(in_rate, out_rate))
        };
        proof {
            assert(is_double(0)) by {
                assert(spacing(0) == 1);
            }
        }
        Linear {
            in_rate,
            out_rate,
            in_channels,
            out_channels,
            zero,
            pace,
            in_pos: Some(0),
            last_sample: zero,
            fir_coeffs,
            fir_history: History::new(zero),
        }
    }

    /// Mixes a block down to mono, filters it where the rate goes down, and
    /// reads it at the output rate. Blocks of one stream follow one another:
    /// the filter window, the last sample and the position carry over.
    pub fn process<A: Fn(&[T]) -> T, M: Fn(T, T, T) -> T, L: Fn(T, T, Fraction) -> T>(
        &mut self,
        input: &[T],
        average: A,
        mac: M,
        lerp: L,
    ) -> (out: Vec<T>)
        requires
            old(self).wf(),
            Self::accepts(old(self)@, input@.len()),
            forall|frame: &[T]|
                frame@.len() == old(self)@.in_channels ==> #[trigger] average.requires((frame,)),
            forall|acc: T, sample: T, c: T| #[trigger] mac.requires((acc, sample, c)),
            forall|a: T, b: T, f: Fraction|
                f.units < f.of ==> #[trigger] lerp.requires((a, b, f)),
        ensures
            final(self).wf(),
            is_processed(old(self)@, input@, average, mac, lerp, out@, final(self)@),
    {
        let mono: Vec<T> = mixdown(input, self.in_channels, &average);
        let ghost mono_stream = mono@;
        let filtered: Vec<T> = match self.fir_coeffs {
            Some(coeffs) => self.fir_history.fir_filter(self.zero, &coeffs, &mono, &mac),
            None => mono,
        };
        proof {
            assert(is_mixdown(input@, old(self)@.in_channels, average, mono_stream));
            assert(is_anti_aliased(old(self)@, mac, mono_stream, filtered@, self@.window));
        }
        let last_sample: T = self.last_sample;
        if filtered.len() > 0 {
            self.last_sample = filtered[filtered.len() - 1];
        }
        if self.in_rate == self.out_rate {
            return filtered;
        }
        let mut out: Vec<T> = Vec::new();
        match self.in_pos {
            None => {},
            Some(start) => match self.pace {
                Pace::Halted => {},
                Pace::Unbounded => {
                    if filtered.len() > 0 {
                        out.push(lerp(last_sample, filtered[0], Fraction { units: 0, of: 1 }));
                        self.in_pos = None;
                    }
                },
                Pace::Every(step) => {
                    proof {
                        lemma_limit_bound(filtered@.len(), self.in_rate, self.out_rate, step);
                    }
                    let (resampled, carry) = resample(&filtered, last_sample, start, step, &lerp);
                    out = resampled;
                    self.in_pos = Some(carry);
                },
            },
        }
        out
    }
}

/// The design of a filter, tap by tap: tap `i` is the one at the offset
/// `i - 64` for the two rates, in that order; the taps are added up, each
/// once, first to last, from `zero`; and coefficient `i` is what `normalise`
/// makes of tap `i` and the sum of all. The taps and their running sums are
/// returned.
pub proof fn law_design_tap_by_tap<
    T: Copy,
    C: Fn(u32, u32, i32) -> T,
    P: Fn(T, T) -> T,
    N: Fn(T, T) -> T,
>(
    in_rate: u32,
    out_rate: u32,
    zero: T,
    tap: C,
    plus: P,
    normalise: N,
    coeffs: [T; FILTER_TAPS],
) -> (r: (Seq<T>, Seq<T>))
    requires
        call_ensures(
            design_lpf::<T, C, P, N>,
            (in_rate, out_rate, zero, tap, plus, normalise),
            coeffs,
        ),
    ensures
        coeffs@.len() == 129,
        ({
            let (taps, sums) = r;
            &&& taps.len() == 129
            &&& sums.len() == 130
            &&& sums[0] == zero
            &&& forall|i: int|
                #![trigger taps[i]]
                #![trigger coeffs@[i]]
                0 <= i < 129 ==> {
                    &&& tap.ensures((in_rate, out_rate, (i - 64) as i32), taps[i])
                    &&& plus.ensures((sums[i], taps[i]), sums[i + 1])
                    &&& normalise.ensures((taps[i], sums[129]), coeffs@[i])
                }
        }),
{
    lemma_lpf_parts(in_rate, out_rate, zero, tap, plus, normalise, coeffs@)
}

/// The taps of a filter and their running sums.
proof fn lemma_lpf_parts<
    T,
    C: Fn(u32, u32, i32) -> T,
    P: Fn(T, T) -> T,
    N: Fn(T, T) -> T,
>(
    in_rate: u32,
    out_rate: u32,
    zero: T,
    tap: C,
    plus: P,
    normalise: N,
    coeffs: Seq<T>,
) -> (r: (Seq<T>, Seq<T>))
    requires
        is_lpf(in_rate, out_rate, zero, tap, plus, normalise, coeffs),
    ensures
        coeffs.len() == 129,
        r.0.len() == 129,
        r.1.len() == 130,
        r.1[0] == zero,
        forall|i: int|
            #![trigger r.0[i]]
            #![trigger coeffs[i]]
            0 <= i < 129 ==> {
                &&& tap.ensures((in_rate, out_rate, (i - 64) as i32), r.0[i])
                &&& plus.ensures((r.1[i], r.0[i]), r.1[i + 1])
                &&& normalise.ensures((r.0[i], r.1[129]), coeffs[i])
            },
{
    let (taps, total) = choose|taps: Seq<T>, total: T|
        {
            &&& #[trigger] is_sum(plus, zero, taps, total)
            &&& are_coefficients(in_rate, out_rate, tap, normalise, taps, total, coeffs)
        };
    let sums = choose|sums: Seq<T>| #[trigger]
        are_running_sums(plus, zero, taps, sums) && total == sums.last();
    assert forall|i: int|
        #![trigger taps[i]]
        #![trigger coeffs[i]]
        0 <= i < 129 implies {
        &&& tap.ensures((in_rate, out_rate, (i - 64) as i32), taps[i])
        &&& plus.ensures((sums[i], taps[i]), sums[i + 1])
        &&& normalise.ensures((taps[i], sums[129]), coeffs[i])
    } by {
        assert(normalise.ensures((taps[i], total), coeffs[i]));
    }
    (taps, sums)
}

} // verus!
