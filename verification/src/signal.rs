//! What a resampler does to a signal, written out sample by sample: which
//! samples each value is made of, and in which order.
use vstd::prelude::*;
use vstd::arithmetic::div_mod::lemma_fundamental_div_mod;
use vstd::arithmetic::power2::lemma_pow2_pos;
use crate::phase::rounded;
use crate::resampler::{
    is_average, is_dot_product, is_interpolated, is_mixdown, is_processed, position_at, window_after, Fraction, Linear, LinearState, FILTER_TAPS,
};
use crate::streaming::{lemma_inside, lemma_stages};

verus! {

/// A signal on its way through one call of `Linear::process`.
pub struct Signal<'a, T> {
    /// The frames that were averaged, of a stream of more than two channels.
    pub frames: Seq<&'a [T]>,
    /// The mono stream.
    pub mono: Seq<T>,
    /// For each value of the filtered stream the running sums of its dot
    /// product.
    pub sums: Seq<Seq<T>>,
    /// What the interpolation reads: the filtered stream, or the mono stream
    /// where there is no filter.
    pub filtered: Seq<T>,
}

/// The running sums of a dot product.
proof fn lemma_dot_sums<T, M: Fn(T, T, T) -> T>(
    mac: M,
    zero: T,
    samples: Seq<T>,
    coeffs: Seq<T>,
    r: T,
) -> (sums: Seq<T>)
    requires
        samples.len() == coeffs.len(),
        is_dot_product(mac, zero, samples, coeffs, r),
    ensures
        are_dot_sums(mac, zero, samples, coeffs, r, sums),
    decreases samples.len(),
{
    if samples.len() == 0 {
        seq![zero]
    } else {
        let acc = choose|acc: T|
            is_dot_product(mac, zero, samples.drop_last(), coeffs.drop_last(), acc)
                && #[trigger] mac.ensures((acc, samples.last(), coeffs.last()), r);
        let head = lemma_dot_sums(mac, zero, samples.drop_last(), coeffs.drop_last(), acc);
        let sums = head.push(r);
        assert forall|j: int| 0 <= j < samples.len() implies mac.ensures(
            (sums[j], samples[j], #[trigger] coeffs[j]),
            sums[j + 1],
        ) by {
            if j < samples.len() - 1 {
                assert(coeffs.drop_last()[j] == coeffs[j]);
            }
        }
        sums
    }
}

/// `sums` are the running sums of a dot product.
spec fn are_dot_sums<T, M: Fn(T, T, T) -> T>(
    mac: M,
    zero: T,
    samples: Seq<T>,
    coeffs: Seq<T>,
    r: T,
    sums: Seq<T>,
) -> bool {
    &&& sums.len() == samples.len() + 1
    &&& sums[0] == zero
    &&& forall|j: int|
        0 <= j < samples.len() ==> mac.ensures(
            (sums[j], samples[j], #[trigger] coeffs[j]),
            sums[j + 1],
        )
    &&& sums[samples.len() as int] == r
}

/// The running sums of a dot product, picked.
spec fn dot_sums<T, M: Fn(T, T, T) -> T>(
    mac: M,
    zero: T,
    samples: Seq<T>,
    coeffs: Seq<T>,
    r: T,
) -> Seq<T> {
    choose|sums: Seq<T>| are_dot_sums(mac, zero, samples, coeffs, r, sums)
}

/// The frames of a mixdown of more than two channels.
proof fn lemma_frames<'a, T, A: Fn(&[T]) -> T>(
    input: Seq<T>,
    channels: u16,
    average: A,
    mono: Seq<T>,
) -> (frames: Seq<&'a [T]>) where T: 'a
    requires
        channels > 2,
        is_mixdown(input, channels, average, mono),
    ensures
        frames.len() == mono.len(),
        forall|i: int|
            0 <= i < mono.len() ==> (#[trigger] frames[i])@.len() == channels && average.ensures(
                (frames[i],),
                mono[i],
            ),
        forall|i: int, c: int|
            0 <= i < mono.len() && 0 <= c < channels ==> #[trigger] frames[i]@[c] == input[i
                * channels + c],
{
    let stride = channels as nat;
    let frames: Seq<&'a [T]> = Seq::new(
        mono.len(),
        |i: int|
            choose|slice: &'a [T]|
                slice@ == input.subrange(i * stride, i * stride + stride)
                    && #[trigger] average.ensures((slice,), mono[i]),
    );
    lemma_fundamental_div_mod(input.len() as int, stride as int);
    assert forall|i: int| 0 <= i < mono.len() implies {
        &&& 0 <= i * stride
        &&& i * stride + stride <= input.len()
        &&& (#[trigger] frames[i])@ == input.subrange(i * stride, i * stride + stride)
        &&& average.ensures((frames[i],), mono[i])
    } by {
        assert(is_average(average, input.subrange(i * stride, i * stride + stride), mono[i]));
        assert(0 <= i * stride && i * stride + stride <= input.len()) by (nonlinear_arith)
            requires
                0 <= i < mono.len(),
                input.len() >= stride * mono.len(),
        ;
    }
    assert forall|i: int, c: int| 0 <= i < mono.len() && 0 <= c < channels implies #[trigger] frames[i]@[c]
        == input[i * channels + c] by {
        assert(frames[i]@ == input.subrange(i * stride, i * stride + stride));
    }
    frames
}

/// One call on a resampler, from any state, stage by stage.
///
/// The block is mixed down: one channel, or none, passes through; of two the
/// left sample of each frame is taken; of more the average of all samples of
/// a frame, in order. Samples behind the last whole frame are dropped.
///
/// Where the state has coefficients, each value of the filtered stream is
/// their dot product with the last 129 mono samples, oldest first, which
/// reach back into the samples that the state remembers; those of the block
/// are remembered in turn. Without coefficients the mono stream goes on as it
/// is.
///
/// At equal rates that is the result. Else each output lies between two
/// neighbours of the filtered stream, the last value of the block before in
/// front of the first: position `m` of the walk counts units of `1 / scale`
/// samples, the whole samples in it are the index of the later neighbour, and
/// what is left is the fraction. The outputs end where the block does, and
/// the position goes on in the next.
pub proof fn law_call_stage_by_stage<
    'a,
    T,
    A: Fn(&[T]) -> T,
    M: Fn(T, T, T) -> T,
    L: Fn(T, T, Fraction) -> T,
>(
    before: LinearState<T>,
    input: Seq<T>,
    average: A,
    mac: M,
    lerp: L,
    out: Seq<T>,
    after: LinearState<T>,
) -> (s: Signal<'a, T>) where T: 'a
    requires
        before.wf(),
        before.coeffs matches Some(coeffs) ==> coeffs.len() == 129,
        is_processed(before, input, average, mac, lerp, out, after),
    ensures
        ({
            let seen = before.window + s.mono;
            &&& before.in_channels <= 1 ==> s.mono == input
            &&& before.in_channels == 2 ==> {
                &&& s.mono.len() == input.len() / 2
                &&& forall|i: int|
                    0 <= i < s.mono.len() ==> #[trigger] s.mono[i] == input[2 * i]
            }
            &&& before.in_channels > 2 ==> {
                &&& s.mono.len() == input.len() / before.in_channels as nat
                &&& s.frames.len() == s.mono.len()
                &&& forall|i: int|
                    0 <= i < s.mono.len() ==> (#[trigger] s.frames[i])@.len() == before.in_channels
                        && average.ensures((s.frames[i],), s.mono[i])
                &&& forall|i: int, c: int|
                    0 <= i < s.mono.len() && 0 <= c < before.in_channels ==> #[trigger] s.frames[i]@[c]
                        == input[i * before.in_channels + c]
            }
            &&& s.filtered.len() == s.mono.len()
            &&& before.coeffs is None ==> s.filtered == s.mono && after.window == before.window
            &&& before.coeffs matches Some(coeffs) ==> {
                &&& s.sums.len() == s.mono.len()
                &&& forall|k: int|
                    0 <= k < s.sums.len() ==> {
                        &&& (#[trigger] s.sums[k]).len() == 130
                        &&& s.sums[k][0] == before.zero
                        &&& s.sums[k][129] == s.filtered[k]
                    }
                &&& forall|k: int, j: int|
                    #![trigger s.sums[k], coeffs[j]]
                    0 <= k < s.sums.len() && 0 <= j < 129 ==> mac.ensures(
                        (s.sums[k][j], seen[k + 1 + j], coeffs[j]),
                        s.sums[k][j + 1],
                    )
                &&& after.window.len() == 129
                &&& forall|j: int|
                    0 <= j < 129 ==> #[trigger] after.window[j] == seen[s.mono.len() + j]
            }
            &&& before.in_rate == before.out_rate ==> out == s.filtered && after.position
                == before.position
            &&& before.in_rate != before.out_rate && before.position is None ==> out.len() == 0
                && after.position is None
            &&& before.in_rate == 0 && before.out_rate > 0 ==> out.len() == 0 && after.position
                == before.position
            &&& before.in_rate > 0 && before.out_rate == 0 && before.position is Some
                && s.filtered.len() == 0 ==> out.len() == 0 && after.position == before.position
            &&& before.in_rate > 0 && before.out_rate == 0 && before.position is Some
                && s.filtered.len() > 0 ==> {
                &&& out.len() == 1
                &&& lerp.ensures(
                    (before.last_sample, s.filtered[0], Fraction { units: 0, of: 1 }),
                    out[0],
                )
                &&& after.position is None
            }
            &&& before.in_rate > 0 && before.out_rate > 0 && before.in_rate != before.out_rate
                && before.position is Some ==> {
                let units = before.pace->Every_0.units as nat;
                let scale = before.pace->Every_0.scale;
                let start = before.position->0;
                &&& forall|m: nat|
                    #![trigger out[m as int]]
                    #![trigger position_at(start, units, m)]
                    m < out.len() ==> {
                        let p = position_at(start, units, m);
                        let i = p as int / scale as int;
                        &&& 0 <= i < s.filtered.len()
                        &&& lerp.ensures(
                            (
                                if i == 0 {
                                    before.last_sample
                                } else {
                                    s.filtered[i - 1]
                                },
                                s.filtered[i],
                                Fraction { units: (p as int % scale as int) as u128, of: scale },
                            ),
                            out[m as int],
                        )
                    }
                &&& position_at(start, units, out.len()) >= s.filtered.len() * scale
                &&& after.position == Some(
                    rounded(
                        (position_at(start, units, out.len()) - s.filtered.len() * scale) as nat,
                    ),
                )
            }
            &&& s.filtered.len() > 0 ==> after.last_sample == s.filtered[s.filtered.len() - 1]
            &&& s.filtered.len() == 0 ==> after.last_sample == before.last_sample
            &&& after.in_rate == before.in_rate
            &&& after.out_rate == before.out_rate
            &&& after.in_channels == before.in_channels
            &&& after.zero == before.zero
            &&& after.pace == before.pace
            &&& after.coeffs == before.coeffs
        }),
{
    let (mono, filtered) = lemma_stages(before, input, average, mac, lerp, out, after);
    let frames: Seq<&'a [T]> = if before.in_channels > 2 {
        lemma_frames(input, before.in_channels, average, mono)
    } else {
        Seq::empty()
    };
    let seen = before.window + mono;
    let coeffs = before.coeffs->0;
    let sums = Seq::new(
        mono.len(),
        |k: int|
            dot_sums(
                mac,
                before.zero,
                window_after(before.window, mono, k + 1),
                coeffs,
                filtered[k],
            ),
    );
    if before.coeffs is Some {
        assert forall|k: int| 0 <= k < sums.len() implies are_dot_sums(
            mac,
            before.zero,
            window_after(before.window, mono, k + 1),
            coeffs,
            filtered[k],
            #[trigger] sums[k],
        ) by {
            let window = window_after(before.window, mono, k + 1);
            assert(is_dot_product(mac, before.zero, window, coeffs, filtered[k]));
            let witness = lemma_dot_sums(mac, before.zero, window, coeffs, filtered[k]);
            assert(are_dot_sums(mac, before.zero, window, coeffs, filtered[k], witness));
        }
        assert forall|k: int, j: int|
            #![trigger sums[k], coeffs[j]]
            0 <= k < sums.len() && 0 <= j < 129 implies mac.ensures(
            (sums[k][j], seen[k + 1 + j], coeffs[j]),
            sums[k][j + 1],
        ) by {
            let window = window_after(before.window, mono, k + 1);
            assert(are_dot_sums(mac, before.zero, window, coeffs, filtered[k], sums[k]));
            assert(window[j] == seen[k + 1 + j]);
        }
    }
    let step = before.pace->Every_0;
    let start = before.position->0;
    if before.in_rate > 0 && before.out_rate > 0 && before.in_rate != before.out_rate
        && before.position is Some {
        lemma_pow2_pos(step.bits as nat);
        assert forall|m: nat|
            #![trigger out[m as int]]
            #![trigger position_at(start, step.units as nat, m)]
            m < out.len() implies {
            let p = position_at(start, step.units as nat, m);
            &&& 0 <= p as int / (step.scale as int) < filtered.len()
            &&& is_interpolated(
                lerp,
                filtered,
                before.last_sample,
                p,
                step.scale,
                out[m as int],
            )
        } by {
            let p = position_at(start, step.units as nat, m);
            assert(is_interpolated(
                lerp,
                filtered,
                before.last_sample,
                p,
                step.scale,
                out[m as int],
            ));
            lemma_inside(p, step.scale as nat, filtered.len());
        }
    }
    Signal { frames, mono, sums, filtered }
}

/// A call of `process` is what `law_call_stage_by_stage` speaks of, and leaves
/// a state that the next call can start from.
pub proof fn law_blocks_are_processed_by_calls<
    T: Copy,
    A: Fn(&[T]) -> T,
    M: Fn(T, T, T) -> T,
    L: Fn(T, T, Fraction) -> T,
>(linear: &mut Linear<T>, input: &[T], average: A, mac: M, lerp: L, out: Vec<T>)
    requires
        call_ensures(Linear::<T>::process::<A, M, L>, (linear, input, average, mac, lerp), out),
    ensures
        is_processed(old(linear)@, input@, average, mac, lerp, out@, final(linear)@),
        final(linear)@.wf(),
        final(linear)@.coeffs matches Some(coeffs) ==> coeffs.len() == 129,
{
    final(linear).lemma_state_is_wf();
}

/// A position of a walk is the one before and a step, rounded to a double.
pub proof fn law_positions_go_step_by_step(start: nat, units: nat, n: nat)
    ensures
        position_at(start, units, 0) == start,
        position_at(start, units, n + 1) == rounded(position_at(start, units, n) + units),
{
}

/// A fresh resampler whose rate goes down reads the filtered signal, whatever
/// the two rates are.
///
/// Over `Linear::new` and the first call of `process`: the coefficients are
/// those that `design_lpf` gave for the two rates; value `k` of the filtered
/// stream is their dot product, oldest sample first, with the 129 mono
/// samples that end in sample `k`, silence standing in front of the first;
/// and every output lies between two neighbours of that stream, silence
/// standing in front of its first value. The first output lies on the silence
/// in front; the others follow in steps of the quotient of the rates, up to
/// the end of the block. The coefficients, the signal and, for each output, the
/// later neighbour and the fraction are returned.
pub proof fn law_downsampling_reads_the_filtered_signal<
    'a,
    T: Copy,
    D: Fn(u32, u32) -> [T; FILTER_TAPS],
    A: Fn(&[T]) -> T,
    M: Fn(T, T, T) -> T,
    L: Fn(T, T, Fraction) -> T,
>(
    in_rate: u32,
    out_rate: u32,
    in_channels: u16,
    out_channels: u8,
    zero: T,
    design_lpf: D,
    linear: &mut Linear<T>,
    block: &[T],
    average: A,
    mac: M,
    lerp: L,
    outputs: Vec<T>,
) -> (r: ([T; FILTER_TAPS], Signal<'a, T>, Seq<(int, Fraction)>)) where T: 'a
    requires
        call_ensures(
            Linear::<T>::new::<D>,
            (in_rate, out_rate, in_channels, out_channels, zero, design_lpf),
            *old(linear),
        ),
        call_ensures(
            Linear::<T>::process::<A, M, L>,
            (linear, block, average, mac, lerp),
            outputs,
        ),
        in_rate > out_rate,
    ensures
        ({
            let (coeffs, s, reads) = r;
            let input = block@;
            let out = outputs@;
            &&& design_lpf.ensures((in_rate, out_rate), coeffs)
            &&& in_channels <= 1 ==> s.mono == input
            &&& in_channels == 2 ==> {
                &&& s.mono.len() == input.len() / 2
                &&& forall|i: int|
                    0 <= i < s.mono.len() ==> #[trigger] s.mono[i] == input[2 * i]
            }
            &&& in_channels > 2 ==> {
                &&& s.mono.len() == input.len() / in_channels as nat
                &&& s.frames.len() == s.mono.len()
                &&& forall|i: int|
                    0 <= i < s.mono.len() ==> (#[trigger] s.frames[i])@.len() == in_channels
                        && average.ensures((s.frames[i],), s.mono[i])
                &&& forall|i: int, c: int|
                    0 <= i < s.mono.len() && 0 <= c < in_channels ==> #[trigger] s.frames[i]@[c]
                        == input[i * in_channels + c]
            }
            &&& s.filtered.len() == s.mono.len()
            &&& s.sums.len() == s.mono.len()
            &&& forall|k: int|
                0 <= k < s.sums.len() ==> {
                    &&& (#[trigger] s.sums[k]).len() == 130
                    &&& s.sums[k][0] == zero
                    &&& s.sums[k][129] == s.filtered[k]
                }
            &&& forall|k: int, j: int|
                #![trigger s.sums[k], coeffs@[j]]
                0 <= k < s.sums.len() && 0 <= j < 129 ==> mac.ensures(
                    (
                        s.sums[k][j],
                        if k - 128 + j < 0 {
                            zero
                        } else {
                            s.mono[k - 128 + j]
                        },
                        coeffs@[j],
                    ),
                    s.sums[k][j + 1],
                )
            &&& reads.len() == out.len()
            &&& forall|m: int|
                #![trigger reads[m]]
                #![trigger out[m]]
                0 <= m < out.len() ==> {
                    let (i, f) = reads[m];
                    &&& 0 <= i < s.filtered.len()
                    &&& f.units < f.of
                    &&& lerp.ensures(
                        (
                            if i == 0 {
                                zero
                            } else {
                                s.filtered[i - 1]
                            },
                            s.filtered[i],
                            f,
                        ),
                        out[m],
                    )
                }
            &&& out_rate == 0 ==> out.len() == if s.filtered.len() > 0 {
                1nat
            } else {
                0
            }
            &&& out.len() > 0 ==> reads[0].0 == 0 && reads[0].1.units == 0
            &&& out_rate > 0 ==> {
                let step = old(linear)@.pace->Every_0;
                let units = step.units as nat;
                &&& forall|m: int|
                    #![trigger reads[m]]
                    #![trigger out[m]]
                    0 <= m < out.len() ==> {
                        let (i, f) = reads[m];
                        &&& f.of == step.scale
                        &&& i * step.scale + f.units == position_at(0, units, m as nat)
                    }
                &&& position_at(0, units, out.len()) >= s.filtered.len() * step.scale
                &&& 0x10_0000_0000_0000 * out_rate <= in_rate * step.scale
                &&& in_rate * step.scale < 0x20_0000_0000_0000 * out_rate
                &&& 2 * (units * out_rate - in_rate * step.scale) <= out_rate
                &&& 2 * (in_rate * step.scale - units * out_rate) <= out_rate
            }
        }),
{
    let before = old(linear)@;
    let input = block@;
    let out = outputs@;
    old(linear).lemma_state_is_wf();
    assert(is_processed(before, input, average, mac, lerp, out, final(linear)@));
    let after = choose|after: LinearState<T>| #[trigger]
        is_processed(before, input, average, mac, lerp, out, after);
    let coeffs = choose|coeffs: [T; FILTER_TAPS]|
        #[trigger] design_lpf.ensures((in_rate, out_rate), coeffs) && before.coeffs == Some(
            coeffs@,
        );
    let s = law_call_stage_by_stage(before, input, average, mac, lerp, out, after);
    let seen = before.window + s.mono;
    assert forall|k: int, j: int|
        #![trigger s.sums[k], coeffs@[j]]
        0 <= k < s.sums.len() && 0 <= j < 129 implies mac.ensures(
        (
            s.sums[k][j],
            if k - 128 + j < 0 {
                zero
            } else {
                s.mono[k - 128 + j]
            },
            coeffs@[j],
        ),
        s.sums[k][j + 1],
    ) by {
        assert(mac.ensures((s.sums[k][j], seen[k + 1 + j], coeffs@[j]), s.sums[k][j + 1]));
        assert(seen[k + 1 + j] == (if k - 128 + j < 0 {
            zero
        } else {
            s.mono[k - 128 + j]
        }));
    }
    let scale = before.pace->Every_0.scale;
    let units = before.pace->Every_0.units as nat;
    let reads = Seq::new(
        out.len(),
        |m: int|
            if out_rate == 0 {
                (0, Fraction { units: 0, of: 1 })
            } else {
                (
                    position_at(0, units, m as nat) as int / scale as int,
                    Fraction {
                        units: (position_at(0, units, m as nat) as int % scale as int) as u128,
                        of: scale,
                    },
                )
            },
    );
    if out_rate > 0 {
        lemma_pow2_pos(before.pace->Every_0.bits as nat);
        assert forall|m: int| 0 <= m < out.len() implies (#[trigger] reads[m]).1.units
            < reads[m].1.of && reads[m].0 * scale + reads[m].1.units == position_at(
            0,
            units,
            m as nat,
        ) by {
            let p = position_at(0, units, m as nat) as int;
            assert(p / (scale as int) * scale == scale * (p / scale as int)) by (nonlinear_arith);
            lemma_fundamental_div_mod(position_at(0, units, m as nat) as int, scale as int);
        }
    }
    (coeffs, s, reads)
}

/// A fresh resampler whose rate does not go down has no filter: what is read
/// is the mono stream as it is.
pub proof fn law_no_filter_where_the_rate_does_not_go_down<
    'a,
    T: Copy,
    D: Fn(u32, u32) -> [T; FILTER_TAPS],
    A: Fn(&[T]) -> T,
    M: Fn(T, T, T) -> T,
    L: Fn(T, T, Fraction) -> T,
>(
    in_rate: u32,
    out_rate: u32,
    in_channels: u16,
    out_channels: u8,
    zero: T,
    design_lpf: D,
    linear: &mut Linear<T>,
    block: &[T],
    average: A,
    mac: M,
    lerp: L,
    outputs: Vec<T>,
) -> (r: (Signal<'a, T>, Seq<(int, Fraction)>)) where T: 'a
    requires
        call_ensures(
            Linear::<T>::new::<D>,
            (in_rate, out_rate, in_channels, out_channels, zero, design_lpf),
            *old(linear),
        ),
        call_ensures(
            Linear::<T>::process::<A, M, L>,
            (linear, block, average, mac, lerp),
            outputs,
        ),
        in_rate <= out_rate,
    ensures
        ({
            let (s, reads) = r;
            let input = block@;
            let out = outputs@;
            &&& in_channels <= 1 ==> s.mono == input
            &&& in_channels == 2 ==> {
                &&& s.mono.len() == input.len() / 2
                &&& forall|i: int|
                    0 <= i < s.mono.len() ==> #[trigger] s.mono[i] == input[2 * i]
            }
            &&& in_channels > 2 ==> {
                &&& s.mono.len() == input.len() / in_channels as nat
                &&& s.frames.len() == s.mono.len()
                &&& forall|i: int|
                    0 <= i < s.mono.len() ==> (#[trigger] s.frames[i])@.len() == in_channels
                        && average.ensures((s.frames[i],), s.mono[i])
                &&& forall|i: int, c: int|
                    0 <= i < s.mono.len() && 0 <= c < in_channels ==> #[trigger] s.frames[i]@[c]
                        == input[i * in_channels + c]
            }
            &&& in_rate == out_rate ==> out == s.mono
            &&& in_rate == 0 && out_rate > 0 ==> out.len() == 0
            &&& in_rate < out_rate ==> {
                &&& reads.len() == out.len()
                &&& forall|m: int|
                    #![trigger reads[m]]
                    #![trigger out[m]]
                    0 <= m < out.len() ==> {
                        let (i, f) = reads[m];
                        &&& 0 <= i < s.mono.len()
                        &&& f.units < f.of
                        &&& lerp.ensures(
                            (
                                if i == 0 {
                                    zero
                                } else {
                                    s.mono[i - 1]
                                },
                                s.mono[i],
                                f,
                            ),
                            out[m],
                        )
                    }
                &&& out.len() > 0 ==> reads[0].0 == 0 && reads[0].1.units == 0
                &&& in_rate > 0 ==> {
                    let step = old(linear)@.pace->Every_0;
                    let units = step.units as nat;
                    &&& forall|m: int|
                        #![trigger reads[m]]
                        #![trigger out[m]]
                        0 <= m < out.len() ==> {
                            let (i, f) = reads[m];
                            &&& f.of == step.scale
                            &&& i * step.scale + f.units == position_at(0, units, m as nat)
                        }
                    &&& position_at(0, units, out.len()) >= s.mono.len() * step.scale
                    &&& 0x10_0000_0000_0000 * out_rate <= in_rate * step.scale
                    &&& in_rate * step.scale < 0x20_0000_0000_0000 * out_rate
                    &&& 2 * (units * out_rate - in_rate * step.scale) <= out_rate
                    &&& 2 * (in_rate * step.scale - units * out_rate) <= out_rate
                }
            }
        }),
{
    let before = old(linear)@;
    let input = block@;
    let out = outputs@;
    old(linear).lemma_state_is_wf();
    assert(is_processed(before, input, average, mac, lerp, out, final(linear)@));
    let after = choose|after: LinearState<T>| #[trigger]
        is_processed(before, input, average, mac, lerp, out, after);
    let s = law_call_stage_by_stage(before, input, average, mac, lerp, out, after);
    let scale = before.pace->Every_0.scale;
    let units = before.pace->Every_0.units as nat;
    let reads = Seq::new(
        out.len(),
        |m: int|
            (
                position_at(0, units, m as nat) as int / scale as int,
                Fraction {
                    units: (position_at(0, units, m as nat) as int % scale as int) as u128,
                    of: scale,
                },
            ),
    );
    if in_rate > 0 {
        lemma_pow2_pos(before.pace->Every_0.bits as nat);
        assert forall|m: int| 0 <= m < out.len() implies (#[trigger] reads[m]).1.units
            < reads[m].1.of && reads[m].0 * scale + reads[m].1.units == position_at(
            0,
            units,
            m as nat,
        ) by {
            let p = position_at(0, units, m as nat) as int;
            assert(p / (scale as int) * scale == scale * (p / scale as int)) by (nonlinear_arith);
            lemma_fundamental_div_mod(position_at(0, units, m as nat) as int, scale as int);
        }
    }
    (s, reads)
}

} // verus!
