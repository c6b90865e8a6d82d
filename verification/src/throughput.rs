//! How many samples a resampler gives over a row of calls.
//!
//! The position carries over from block to block, so the outputs are spaced
//! over the stream, not over each block: however a stream is cut, the count
//! of its outputs is that of its frames times the quotient of the rates.
use vstd::prelude::*;
use vstd::arithmetic::div_mod::lemma_fundamental_div_mod_converse;
use vstd::arithmetic::power2::lemma_pow2_pos;
use crate::phase::{
    lemma_rounded_is_double, lemma_spacing_monotone, lemma_spacing_range, spacing, Step, SIGNIFICAND,
};
use crate::resampler::{
    carried, channel_stride, is_interpolated, is_processed, position_at, Fraction, LinearState,
    Pace,
};
use crate::streaming::{
    exact_position, law_walk_strays_little, law_whole_ratio_cuts_cleanly, law_whole_ratio_length,
    lemma_multiple, lemma_stages,
};

verus! {

/// One call of `Linear::process`: its block and what it returned.
pub struct Call<T> {
    pub input: Seq<T>,
    pub out: Seq<T>,
}

/// The calls were made one after the other on a resampler that went through
/// the states `states`.
pub open spec fn is_row<
    T,
    A: Fn(&[T]) -> T,
    M: Fn(T, T, T) -> T,
    L: Fn(T, T, Fraction) -> T,
>(
    states: Seq<LinearState<T>>,
    calls: Seq<Call<T>>,
    average: A,
    mac: M,
    lerp: L,
) -> bool {
    &&& states.len() == calls.len() + 1
    &&& forall|k: int| 0 <= k < states.len() ==> (#[trigger] states[k]).wf()
    &&& forall|k: int|
        0 <= k < calls.len() ==> is_processed(
            states[k],
            (#[trigger] calls[k]).input,
            average,
            mac,
            lerp,
            calls[k].out,
            states[k + 1],
        )
}

/// The whole frames of all blocks.
pub open spec fn frames_in<T>(calls: Seq<Call<T>>, channels: u16) -> nat
    decreases calls.len(),
{
    if calls.len() == 0 {
        0
    } else {
        frames_in(calls.drop_last(), channels) + calls.last().input.len() / channel_stride(channels)
    }
}

/// All outputs.
pub open spec fn outputs_of<T>(calls: Seq<Call<T>>) -> nat
    decreases calls.len(),
{
    if calls.len() == 0 {
        0
    } else {
        outputs_of(calls.drop_last()) + calls.last().out.len()
    }
}

/// A row without its last call is a row.
proof fn lemma_row_prefix<
    T,
    A: Fn(&[T]) -> T,
    M: Fn(T, T, T) -> T,
    L: Fn(T, T, Fraction) -> T,
>(
    states: Seq<LinearState<T>>,
    calls: Seq<Call<T>>,
    average: A,
    mac: M,
    lerp: L,
)
    requires
        is_row(states, calls, average, mac, lerp),
        calls.len() > 0,
    ensures
        is_row(states.drop_last(), calls.drop_last(), average, mac, lerp),
        states.drop_last().last() == states[calls.len() - 1],
        states.last().wf(),
        is_processed(
            states[calls.len() - 1],
            calls.last().input,
            average,
            mac,
            lerp,
            calls.last().out,
            states.last(),
        ),
{
    let n = calls.len() - 1;
    let before = calls.drop_last();
    assert(calls[n] == calls.last());
    assert(states[n + 1] == states.last());
    assert forall|k: int| 0 <= k < before.len() implies is_processed(
        states.drop_last()[k],
        (#[trigger] before[k]).input,
        average,
        mac,
        lerp,
        before[k].out,
        states.drop_last()[k + 1],
    ) by {
        assert(before[k] == calls[k]);
    }
}

/// Calls change no more of a state than the position, the window and the
/// last sample.
proof fn lemma_row_keeps_rates<
    T,
    A: Fn(&[T]) -> T,
    M: Fn(T, T, T) -> T,
    L: Fn(T, T, Fraction) -> T,
>(
    states: Seq<LinearState<T>>,
    calls: Seq<Call<T>>,
    average: A,
    mac: M,
    lerp: L,
)
    requires
        is_row(states, calls, average, mac, lerp),
    ensures
        states.last() == (LinearState {
            position: states.last().position,
            window: states.last().window,
            last_sample: states.last().last_sample,
            ..states[0]
        }),
    decreases calls.len(),
{
    if calls.len() > 0 {
        lemma_row_prefix(states, calls, average, mac, lerp);
        lemma_row_keeps_rates(
            states.drop_last(),
            calls.drop_last(),
            average,
            mac,
            lerp,
        );
    }
}

/// Over any row of calls on a fresh resampler whose input rate is `multiple`
/// times its output rate, `n` frames give `n / multiple` outputs, rounded up;
/// and the next output lies on a sample of the next block. No block reaches
/// 2^53 frames: behind that a position in a block would have to be rounded.
/// How long the stream is does not matter.
pub proof fn law_total_length_at_whole_ratio<
    T,
    A: Fn(&[T]) -> T,
    M: Fn(T, T, T) -> T,
    L: Fn(T, T, Fraction) -> T,
>(
    states: Seq<LinearState<T>>,
    calls: Seq<Call<T>>,
    average: A,
    mac: M,
    lerp: L,
    step: Step,
    multiple: nat,
)
    requires
        is_row(states, calls, average, mac, lerp),
        states[0].position == Some(0nat),
        states[0].pace == Pace::Every(step),
        states[0].out_rate > 0,
        states[0].in_rate == multiple * states[0].out_rate,
        multiple > 0,
        forall|k: int|
            0 <= k < calls.len() ==> (#[trigger] calls[k]).input.len() / channel_stride(
                states[0].in_channels,
            ) + multiple <= SIGNIFICAND,
    ensures
        ({
            let n = frames_in(calls, states[0].in_channels);
            let reached = outputs_of(calls) * multiple;
            &&& n <= reached < n + multiple
            &&& states.last().position == Some(((reached - n) * step.scale) as nat)
        }),
    decreases calls.len(),
{
    let channels = states[0].in_channels;
    let n = frames_in(calls, channels);
    let scale = step.scale as nat;
    if calls.len() == 0 {
        assert(0 * multiple == 0);
        assert(0 * scale == 0);
    } else {
        let prefix = calls.drop_last();
        lemma_row_prefix(states, calls, average, mac, lerp);
        assert forall|k: int| 0 <= k < prefix.len() implies (#[trigger] prefix[k]).input.len()
            / channel_stride(channels) + multiple <= SIGNIFICAND by {
            assert(prefix[k] == calls[k]);
        }
        assert(calls.last() == calls[calls.len() - 1]);
        law_total_length_at_whole_ratio(
            states.drop_last(),
            prefix,
            average,
            mac,
            lerp,
            step,
            multiple,
        );
        lemma_row_keeps_rates(states.drop_last(), prefix, average, mac, lerp);
        let before = states[calls.len() - 1];
        let after = states.last();
        let call = calls.last();
        let (mono, filtered) = lemma_stages(
            before,
            call.input,
            average,
            mac,
            lerp,
            call.out,
            after,
        );
        let given = frames_in(prefix, channels);
        let made = outputs_of(prefix);
        let first = (made * multiple - given) as nat;
        assert(outputs_of(calls) * multiple == made * multiple + call.out.len() * multiple)
            by (nonlinear_arith)
            requires
                outputs_of(calls) == made + call.out.len(),
        ;
        if before.in_rate == before.out_rate {
            let d = before.out_rate as nat;
            assert(multiple == 1) by (nonlinear_arith)
                requires
                    d == multiple * d,
                    d > 0,
            ;
            assert(first == 0);
        } else {
            law_whole_ratio_length(
                lerp,
                filtered,
                before.last_sample,
                before.in_rate as nat,
                before.out_rate as nat,
                multiple,
                step,
                first,
                call.out,
            );
            law_whole_ratio_cuts_cleanly(
                before,
                step,
                multiple,
                first,
                filtered.len(),
                call.out.len(),
                0,
            );
        }
    }
}

/// Over any row of calls on a fresh resampler whose output rate divides its
/// input rate, `n` frames give `n * out_rate / in_rate` outputs, rounded up.
pub proof fn law_total_length_is_rounded_up<
    T,
    A: Fn(&[T]) -> T,
    M: Fn(T, T, T) -> T,
    L: Fn(T, T, Fraction) -> T,
>(
    states: Seq<LinearState<T>>,
    calls: Seq<Call<T>>,
    average: A,
    mac: M,
    lerp: L,
)
    requires
        is_row(states, calls, average, mac, lerp),
        states[0].position == Some(0nat),
        states[0].in_rate > 0,
        states[0].out_rate > 0,
        states[0].in_rate % states[0].out_rate == 0,
        forall|k: int|
            0 <= k < calls.len() ==> (#[trigger] calls[k]).input.len() / channel_stride(
                states[0].in_channels,
            ) + states[0].in_rate / states[0].out_rate <= SIGNIFICAND,
    ensures
        ({
            let n = frames_in(calls, states[0].in_channels);
            let rate = states[0].in_rate as int;
            outputs_of(calls) == (n * states[0].out_rate + rate - 1) / rate
        }),
{
    let rate = states[0].in_rate as int;
    let d = states[0].out_rate as int;
    let multiple = lemma_multiple(rate as nat, d as nat);
    let n = frames_in(calls, states[0].in_channels) as int;
    let o = outputs_of(calls) as int;
    assert(states[0].wf());
    let step = states[0].pace->Every_0;
    law_total_length_at_whole_ratio(states, calls, average, mac, lerp, step, multiple);
    // Both ends of the length law, times the output rate.
    let r = n * d + rate - 1 - o * rate;
    assert(0 <= r < rate) by (nonlinear_arith)
        requires
            n <= o * multiple < n + multiple,
            rate == multiple * d,
            d > 0,
            r == n * d + rate - 1 - o * rate,
    ;
    lemma_fundamental_div_mod_converse(n * d + rate - 1, rate, o, r);
}

/// What one call does to the position, up to rounding: each output takes a
/// step, and the block is left behind.
proof fn lemma_call_strays_little<
    T,
    A: Fn(&[T]) -> T,
    M: Fn(T, T, T) -> T,
    L: Fn(T, T, Fraction) -> T,
>(
    before: LinearState<T>,
    call: Call<T>,
    average: A,
    mac: M,
    lerp: L,
    after: LinearState<T>,
    step: Step,
    start: nat,
    block: nat,
)
    requires
        before.wf(),
        before.in_rate != before.out_rate,
        before.pace == Pace::Every(step),
        before.position == Some(start),
        call.input.len() / channel_stride(before.in_channels) <= block,
        is_processed(before, call.input, average, mac, lerp, call.out, after),
    ensures
        after.position is Some,
        ({
            let frames = call.input.len() / channel_stride(before.in_channels);
            let error = after.position->0 - (start + call.out.len() * step.units - frames
                * step.scale);
            let g = spacing((block * step.scale + 4 * step.units) as nat);
            &&& 2 * error <= (call.out.len() + 1) * g
            &&& -2 * error <= (call.out.len() + 1) * g
        }),
{
    let units = step.units as nat;
    let scale = step.scale as nat;
    let n = call.out.len();
    let (mono, filtered) = lemma_stages(
        before,
        call.input,
        average,
        mac,
        lerp,
        call.out,
        after,
    );
    let frames = filtered.len();
    let limit = block * scale + 4 * units;
    lemma_pow2_pos(step.bits as nat);
    assert(frames * scale <= block * scale) by (nonlinear_arith)
        requires
            frames <= block,
    ;
    assert forall|k: nat| k < n implies #[trigger] position_at(start, units, k) + units
        <= limit by {
        assert(is_interpolated(
            lerp,
            filtered,
            before.last_sample,
            position_at(start, units, k),
            step.scale,
            call.out[k as int],
        ));
    }
    law_walk_strays_little(start, units, n, limit);
    let reached = position_at(start, units, n);
    let left = (reached - frames * scale) as nat;
    assert(left <= limit) by {
        if n > 0 {
            let k = (n - 1) as nat;
            let x = position_at(start, units, k) + units;
            assert(is_interpolated(
                lerp,
                filtered,
                before.last_sample,
                position_at(start, units, k),
                step.scale,
                call.out[k as int],
            ));
            lemma_rounded_is_double(x);
            lemma_spacing_range(x);
            let h = spacing(x);
            assert(h <= x) by (nonlinear_arith)
                requires
                    h == 1 || (SIGNIFICAND / 2) * h <= x,
                    x >= 1,
            ;
        } else {
            assert(frames * scale >= 0) by (nonlinear_arith);
        }
    }
    lemma_rounded_is_double(left);
    lemma_spacing_range(left);
    lemma_spacing_monotone(left, limit);
    let g = spacing(limit);
    assert((n + 1) * g == n * g + g) by (nonlinear_arith);
    assert(exact_position(start, units, n) == start + n * units);
    assert(after.position == Some(carried(start, step, n, frames)));
}

/// Over any row of calls, at any rates, the position strays from where exact
/// arithmetic would have it by half a unit in the last place for each output
/// and each call at most: `o` outputs move it on by `o` steps, `n` frames
/// back by `n` samples. `block` is the length of the longest block.
pub proof fn law_position_strays_little<
    T,
    A: Fn(&[T]) -> T,
    M: Fn(T, T, T) -> T,
    L: Fn(T, T, Fraction) -> T,
>(
    states: Seq<LinearState<T>>,
    calls: Seq<Call<T>>,
    average: A,
    mac: M,
    lerp: L,
    step: Step,
    start: nat,
    block: nat,
)
    requires
        is_row(states, calls, average, mac, lerp),
        states[0].in_rate != states[0].out_rate,
        states[0].pace == Pace::Every(step),
        states[0].position == Some(start),
        forall|k: int|
            0 <= k < calls.len() ==> (#[trigger] calls[k]).input.len() / channel_stride(
                states[0].in_channels,
            ) <= block,
    ensures
        states.last().position is Some,
        ({
            let n = frames_in(calls, states[0].in_channels);
            let o = outputs_of(calls);
            let error = states.last().position->0 - (start + o * step.units - n * step.scale);
            let g = spacing((block * step.scale + 4 * step.units) as nat);
            &&& 2 * error <= (o + calls.len()) * g
            &&& -2 * error <= (o + calls.len()) * g
        }),
    decreases calls.len(),
{
    let channels = states[0].in_channels;
    let units = step.units as nat;
    let scale = step.scale as nat;
    let g = spacing((block * scale + 4 * units) as nat);
    let n = frames_in(calls, channels);
    let o = outputs_of(calls);
    if calls.len() == 0 {
        assert(0 * units == 0 && 0 * scale == 0 && 0 * g == 0) by (nonlinear_arith);
    } else {
        let prefix = calls.drop_last();
        let call = calls.last();
        lemma_row_prefix(states, calls, average, mac, lerp);
        assert forall|k: int| 0 <= k < prefix.len() implies (#[trigger] prefix[k]).input.len()
            / channel_stride(channels) <= block by {
            assert(prefix[k] == calls[k]);
        }
        assert(call == calls[calls.len() - 1]);
        law_position_strays_little(
            states.drop_last(),
            prefix,
            average,
            mac,
            lerp,
            step,
            start,
            block,
        );
        lemma_row_keeps_rates(states.drop_last(), prefix, average, mac, lerp);
        let before = states[calls.len() - 1];
        let between = before.position->0;
        lemma_call_strays_little(
            before,
            call,
            average,
            mac,
            lerp,
            states.last(),
            step,
            between,
            block,
        );
        let frames = call.input.len() / channel_stride(channels);
        let on = outputs_of(prefix);
        let fr = frames_in(prefix, channels);
        let k = call.out.len();
        assert(o * units == on * units + k * units) by (nonlinear_arith)
            requires
                o == on + k,
        ;
        assert(n * scale == fr * scale + frames * scale) by (nonlinear_arith)
            requires
                n == fr + frames,
        ;
        assert((o + calls.len()) * g == (on + prefix.len()) * g + (k + 1) * g) by (nonlinear_arith)
            requires
                o == on + k,
                calls.len() == prefix.len() + 1,
        ;
    }
}

/// Over any row of `m` calls on a fresh resampler, at any rates, `n` frames
/// give `n * out_rate / in_rate` outputs, up to the rounding of
/// `law_position_strays_little`, that of the step itself, and the outputs
/// that lie less than 2^54 units behind the end.
pub proof fn law_total_length_at_any_ratio<
    T,
    A: Fn(&[T]) -> T,
    M: Fn(T, T, T) -> T,
    L: Fn(T, T, Fraction) -> T,
>(
    states: Seq<LinearState<T>>,
    calls: Seq<Call<T>>,
    average: A,
    mac: M,
    lerp: L,
    step: Step,
    block: nat,
)
    requires
        is_row(states, calls, average, mac, lerp),
        states[0].in_rate != states[0].out_rate,
        states[0].pace == Pace::Every(step),
        states[0].position == Some(0nat),
        forall|k: int|
            0 <= k < calls.len() ==> (#[trigger] calls[k]).input.len() / channel_stride(
                states[0].in_channels,
            ) <= block,
    ensures
        ({
            let n = frames_in(calls, states[0].in_channels);
            let o = outputs_of(calls);
            let excess = o * states[0].in_rate - n * states[0].out_rate;
            let g = spacing((block * step.scale + 4 * step.units) as nat);
            let rounding = (o + calls.len()) * g + o;
            &&& 2 * (excess * step.scale) <= states[0].out_rate * (4 * SIGNIFICAND + rounding)
            &&& -2 * (excess * step.scale) <= states[0].out_rate * rounding
        }),
{
    law_position_strays_little(states, calls, average, mac, lerp, step, 0, block);
    let n = frames_in(calls, states[0].in_channels) as int;
    let o = outputs_of(calls) as int;
    let scale = step.scale as int;
    let units = step.units as int;
    let rate = states[0].in_rate as int;
    let d = states[0].out_rate as int;
    let g = spacing((block * step.scale + 4 * step.units) as nat) as int;
    let p = states.last().position->0 as int;
    assert(states[states.len() - 1] == states.last());
    assert(states.last().wf());
    assert(states[0].wf());
    let walked = (o + calls.len()) * g;
    // What the rates make of the outputs, over the step.
    let slack = 2 * (units * d - rate * scale);
    assert(-d <= slack <= d);
    assert(2 * (o * rate * scale) <= 2 * (o * units * d) + o * d) by (nonlinear_arith)
        requires
            -d <= 2 * (units * d - rate * scale),
            o >= 0,
    ;
    assert(2 * (o * units * d) - o * d <= 2 * (o * rate * scale)) by (nonlinear_arith)
        requires
            2 * (units * d - rate * scale) <= d,
            o >= 0,
    ;
    let moved = o * units - n * scale;
    assert(2 * moved <= 2 * p + walked);
    assert(-2 * moved <= walked - 2 * p);
    assert(moved * d == o * units * d - n * scale * d) by (nonlinear_arith)
        requires
            moved == o * units - n * scale,
    ;
    let excess = o * rate - n * d;
    assert(excess * scale == o * rate * scale - n * scale * d) by (nonlinear_arith)
        requires
            excess == o * rate - n * d,
    ;
    assert(2 * (moved * d) <= d * (4 * SIGNIFICAND + walked)) by (nonlinear_arith)
        requires
            2 * moved <= 4 * SIGNIFICAND + walked,
            d >= 0,
    ;
    assert(-2 * (moved * d) <= d * walked) by (nonlinear_arith)
        requires
            -2 * moved <= walked,
            d >= 0,
    ;
    assert(d * (4 * SIGNIFICAND + walked + o) == d * (4 * SIGNIFICAND + walked) + o * d)
        by (nonlinear_arith);
    assert(d * (walked + o) == d * walked + o * d) by (nonlinear_arith);
}

} // verus!
