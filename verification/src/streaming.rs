//! A stream that is processed in pieces comes out as it does at once.
//!
//! Each stage of the resampler carries over what the next block needs. For
//! the mixdown and the filter that holds of all blocks. The walk of the
//! resampler keeps its position as a double: it goes on over the end of a
//! block as long as no sum on the way has to be rounded, as on 48 kHz to
//! 16 kHz. Where sums are rounded, as on 44.1 kHz to 16 kHz, the position
//! may depend in its last bit on where the blocks end.
use vstd::prelude::*;
use vstd::arithmetic::div_mod::{
    lemma_fundamental_div_mod, lemma_fundamental_div_mod_converse, lemma_mod_multiples_basic,
};
use vstd::arithmetic::power2::{lemma2_to64, lemma_pow2_pos, lemma_pow2_unfold, pow2};
use crate::phase::{
    is_double, lemma_doubled_multiple, lemma_rounded_fixpoint, lemma_rounded_is_double,
    lemma_spacing_monotone, lemma_spacing_range, spacing, Step, SIGNIFICAND,
};
use crate::resampler::{
    carried, channel_stride, is_anti_aliased, is_average, is_dot_product, is_filtered, is_interpolated,
    is_mixdown, is_paced, is_processed, is_resampled, last_of, position_at, sample_before, window_after,
    Fraction, Linear, LinearState, Pace, FILTER_TAPS,
};

verus! {

/// The mixdown of whole frames, in pieces and at once.
pub proof fn law_mixdown_in_pieces<T, A: Fn(&[T]) -> T>(
    x: Seq<T>,
    y: Seq<T>,
    channels: u16,
    average: A,
    mono_x: Seq<T>,
    mono_y: Seq<T>,
)
    requires
        x.len() % channel_stride(channels) == 0,
        is_mixdown(x, channels, average, mono_x),
        is_mixdown(y, channels, average, mono_y),
    ensures
        is_mixdown(x + y, channels, average, mono_x + mono_y),
{
    let stride = channel_stride(channels);
    let n = mono_x.len();
    lemma_fundamental_div_mod(x.len() as int, stride as int);
    assert(x.len() == n * stride) by (nonlinear_arith)
        requires
            x.len() == stride * n,
    ;
    lemma_fundamental_div_mod(y.len() as int, stride as int);
    assert((x + y).len() / stride == n + mono_y.len()) by {
        let q = n + mono_y.len();
        let r = y.len() % stride;
        assert(x.len() + y.len() == q * stride + r) by (nonlinear_arith)
            requires
                x.len() == n * stride,
                y.len() == stride * mono_y.len() + r,
                q == n + mono_y.len(),
        ;
        lemma_fundamental_div_mod_converse(
            (x.len() + y.len()) as int,
            stride as int,
            q as int,
            r as int,
        );
    }
    let mono = mono_x + mono_y;
    if channels <= 1 {
        assert(mono =~= x + y);
    } else if channels == 2 {
        assert(stride == 2);
        assert(x.len() == 2 * n && 2 * mono_y.len() <= y.len());
        assert forall|i: int| 0 <= i < mono.len() implies #[trigger] mono[i] == (x + y)[2 * i] by {
            if i < n {
                assert(mono[i] == mono_x[i]);
            } else {
                assert(mono[i] == mono_y[i - n]);
            }
        }
    } else {
        assert forall|i: int| 0 <= i < mono.len() implies is_average(
            average,
            (x + y).subrange(i * stride, i * stride + stride),
            #[trigger] mono[i],
        ) by {
            if i < n {
                assert(0 <= i * stride && i * stride + stride <= x.len()) by (nonlinear_arith)
                    requires
                        0 <= i < n,
                        x.len() == n * stride,
                ;
                assert((x + y).subrange(i * stride, i * stride + stride) =~= x.subrange(
                    i * stride,
                    i * stride + stride,
                ));
                assert(mono[i] == mono_x[i]);
            } else {
                let j = i - n;
                assert(i * stride == x.len() + j * stride) by (nonlinear_arith)
                    requires
                        i == n + j,
                        x.len() == n * stride,
                ;
                assert(0 <= j * stride && j * stride + stride <= y.len()) by (nonlinear_arith)
                    requires
                        0 <= j < mono_y.len(),
                        stride * mono_y.len() <= y.len(),
                ;
                assert((x + y).subrange(i * stride, i * stride + stride) =~= y.subrange(
                    j * stride,
                    j * stride + stride,
                ));
                assert(mono[i] == mono_y[j]);
            }
        }
    }
}

/// The filtered stream, in pieces and at once.
pub proof fn law_filter_in_pieces<T, M: Fn(T, T, T) -> T>(
    mac: M,
    zero: T,
    coeffs: Seq<T>,
    window: Seq<T>,
    x: Seq<T>,
    y: Seq<T>,
    out_x: Seq<T>,
    out_y: Seq<T>,
)
    requires
        window.len() == FILTER_TAPS,
        is_filtered(mac, zero, coeffs, window, x, out_x),
        is_filtered(mac, zero, coeffs, window_after(window, x, x.len() as int), y, out_y),
    ensures
        is_filtered(mac, zero, coeffs, window, x + y, out_x + out_y),
        window_after(window, x + y, (x + y).len() as int) == window_after(
            window_after(window, x, x.len() as int),
            y,
            y.len() as int,
        ),
{
    let carried = window_after(window, x, x.len() as int);
    let out = out_x + out_y;
    assert forall|k: int| 0 <= k < out.len() implies is_dot_product(
        mac,
        zero,
        window_after(window, x + y, k + 1),
        coeffs,
        #[trigger] out[k],
    ) by {
        if k < x.len() {
            assert(window_after(window, x + y, k + 1) =~= window_after(window, x, k + 1));
            assert(out[k] == out_x[k]);
        } else {
            let j = k - x.len();
            assert(window_after(window, x + y, k + 1) =~= window_after(carried, y, j + 1));
            assert(out[k] == out_y[j]);
        }
    }
    assert(window_after(window, x + y, (x + y).len() as int) =~= window_after(
        carried,
        y,
        y.len() as int,
    ));
}

/// The position of output `n` where no sum is rounded.
pub open spec fn exact_position(start: nat, step: nat, n: nat) -> nat {
    start + n * step
}

/// Up to output `n` no sum of the walk has to be rounded.
pub open spec fn walks_exactly(start: nat, step: Step, n: nat) -> bool {
    forall|k: nat|
        k <= n ==> {
            &&& is_double(#[trigger] exact_position(start, step.units as nat, k))
            &&& exact_position(start, step.units as nat, k) < SIGNIFICAND * step.scale
        }
}

/// A walk without rounding is at the sum of its steps.
pub proof fn lemma_exact_walk(start: nat, step: Step, n: nat, k: nat)
    requires
        walks_exactly(start, step, n),
        k <= n,
    ensures
        position_at(start, step.units as nat, k) == exact_position(start, step.units as nat, k),
    decreases k,
{
    let units = step.units as nat;
    assert(is_double(exact_position(start, units, k)));
    if k == 0 {
        assert(0 * units == 0);
    } else {
        let j = (k - 1) as nat;
        lemma_exact_walk(start, step, n, j);
        assert(k * units == j * units + units) by (nonlinear_arith)
            requires
                k == j + 1,
        ;
        lemma_rounded_fixpoint(exact_position(start, units, k));
    }
}

/// The spacing below `2^53 * 2^bits` divides `2^bits`.
proof fn lemma_spacing_divides(x: nat, bits: nat)
    requires
        x < SIGNIFICAND * pow2(bits),
    ensures
        pow2(bits) % spacing(x) == 0,
    decreases bits,
{
    lemma_pow2_pos(bits);
    if x >= SIGNIFICAND {
        if bits == 0 {
            lemma2_to64();
            assert(false);
        } else {
            let b = (bits - 1) as nat;
            lemma_pow2_unfold(bits);
            lemma_spacing_range(x / 2);
            assert(x / 2 < SIGNIFICAND * pow2(b)) by (nonlinear_arith)
                requires
                    x < SIGNIFICAND * (2 * pow2(b)),
            ;
            lemma_spacing_divides(x / 2, b);
            lemma_doubled_multiple(pow2(b), spacing(x / 2));
        }
    }
}

/// A double that whole samples are taken off is a double.
proof fn lemma_double_in_next_block(p: nat, step: Step, samples: nat)
    requires
        step.wf(),
        is_double(p),
        p < SIGNIFICAND * step.scale,
        samples * step.scale <= p,
    ensures
        is_double((p - samples * step.scale) as nat),
{
    let scale = step.scale as nat;
    let g = spacing(p);
    let q = (p - samples * scale) as nat;
    lemma_spacing_range(p);
    lemma_spacing_range(q);
    lemma_spacing_divides(p, step.bits as nat);
    assert(samples * scale >= 0) by (nonlinear_arith);
    lemma_spacing_monotone(q, p);
    let h = spacing(q);
    // p, the scale and g are multiples of h.
    lemma_fundamental_div_mod(p as int, g as int);
    lemma_fundamental_div_mod(scale as int, g as int);
    lemma_fundamental_div_mod(g as int, h as int);
    let a = p / g;
    let b = scale / g;
    let c = g / h;
    let m = a * c - samples * (b * c);
    assert(q == m * h) by (nonlinear_arith)
        requires
            q == p - samples * scale,
            p == g * a,
            scale == g * b,
            g == h * c,
            m == a * c - samples * (b * c),
    ;
    lemma_mod_multiples_basic(m, h as int);
}

/// The position in the next block of a position behind this one.
proof fn lemma_shifted_position(p: nat, scale: u128, samples: nat)
    requires
        scale > 0,
        samples * scale <= p,
    ensures
        ({
            let q = p - samples * scale;
            &&& p as int / scale as int == q / scale as int + samples
            &&& p as int % scale as int == q % scale as int
        }),
{
    let q = p - samples * scale;
    lemma_fundamental_div_mod(q, scale as int);
    let i = q / scale as int;
    let f = q % scale as int;
    assert(p == (i + samples) * scale + f) by (nonlinear_arith)
        requires
            p == q + samples * scale,
            q == scale * i + f,
    ;
    lemma_fundamental_div_mod_converse(p as int, scale as int, i + samples, f);
}

/// After a block of `len` samples and `outputs` outputs the walk goes on in
/// the next block as it would have in this one, for `more` outputs: the
/// position that is carried over lies where the walk over both blocks does.
pub open spec fn walks_on(start: nat, step: Step, outputs: nat, len: nat, more: nat) -> bool {
    let carry = carried(start, step, outputs, len);
    forall|k: nat|
        k <= more ==> #[trigger] position_at(carry, step.units as nat, k) + len * step.scale
            == position_at(start, step.units as nat, outputs + k)
}

/// A walk without rounding goes on over the end of a block.
pub proof fn law_exact_walk_goes_on(start: nat, step: Step, outputs: nat, len: nat, more: nat)
    requires
        step.wf(),
        walks_exactly(start, step, outputs + more),
        position_at(start, step.units as nat, outputs) >= len * step.scale,
    ensures
        walks_on(start, step, outputs, len, more),
{
    let units = step.units as nat;
    let scale = step.scale;
    lemma_pow2_pos(step.bits as nat);
    lemma_exact_walk(start, step, outputs + more, outputs);
    let limit = (len * scale) as nat;
    let p = exact_position(start, units, outputs);
    assert(is_double(p));
    lemma_double_in_next_block(p, step, len);
    let carry = (p - limit) as nat;
    lemma_rounded_fixpoint(carry);
    assert(carried(start, step, outputs, len) == carry);
    assert forall|j: nat| j <= more implies {
        &&& is_double(#[trigger] exact_position(carry, units, j))
        &&& exact_position(carry, units, j) < SIGNIFICAND * scale
        &&& exact_position(carry, units, j) + limit == exact_position(start, units, outputs + j)
    } by {
        let q = exact_position(start, units, outputs + j);
        assert(is_double(q));
        assert((outputs + j) * units == outputs * units + j * units) by (nonlinear_arith);
        assert(j * units >= 0) by (nonlinear_arith);
        lemma_double_in_next_block(q, step, len);
    }
    assert(walks_exactly(carry, step, more));
    assert forall|k: nat| k <= more implies #[trigger] position_at(carry, units, k) + len * scale
        == position_at(start, units, outputs + k) by {
        lemma_exact_walk(carry, step, more, k);
        lemma_exact_walk(start, step, outputs + more, outputs + k);
        assert(exact_position(carry, units, k) + limit == exact_position(
            start,
            units,
            outputs + k,
        ));
    }
}

/// The resampled stream, in pieces and at once, where the walk goes on over
/// the end of the first piece: the same outputs, and the same position for
/// the block after.
pub proof fn law_resample_in_pieces<T, L: Fn(T, T, Fraction) -> T>(
    lerp: L,
    x: Seq<T>,
    y: Seq<T>,
    last: T,
    start: nat,
    step: Step,
    out_x: Seq<T>,
    out_y: Seq<T>,
)
    requires
        step.wf(),
        walks_on(start, step, out_x.len(), x.len(), out_y.len()),
        is_resampled(lerp, x, last, start, step, out_x),
        is_resampled(
            lerp,
            y,
            last_of(x, last),
            carried(start, step, out_x.len(), x.len()),
            step,
            out_y,
        ),
    ensures
        is_resampled(lerp, x + y, last, start, step, out_x + out_y),
        carried(
            carried(start, step, out_x.len(), x.len()),
            step,
            out_y.len(),
            y.len(),
        ) == carried(start, step, out_x.len() + out_y.len(), x.len() + y.len()),
{
    let units = step.units as nat;
    let scale = step.scale;
    let nx = out_x.len();
    let ny = out_y.len();
    let out = out_x + out_y;
    let xy = x + y;
    lemma_pow2_pos(step.bits as nat);
    assert(xy.len() * scale == x.len() * scale + y.len() * scale) by (nonlinear_arith)
        requires
            xy.len() == x.len() + y.len(),
    ;
    assert(y.len() * scale >= 0) by (nonlinear_arith);
    let limit = (x.len() * scale) as nat;
    let carry = carried(start, step, nx, x.len());
    assert forall|k: int| 0 <= k < out.len() implies is_interpolated(
        lerp,
        xy,
        last,
        position_at(start, units, k as nat),
        scale,
        #[trigger] out[k],
    ) by {
        let at = position_at(start, units, k as nat);
        if k < nx {
            assert(out[k] == out_x[k]);
            assert(is_interpolated(lerp, x, last, at, scale, out_x[k]));
            lemma_inside(at, scale as nat, x.len());
        } else {
            let j = (k - nx) as nat;
            assert(out[k] == out_y[j as int]);
            let near = position_at(carry, units, j);
            assert(nx + j == k as nat);
            assert(at == near + limit);
            assert(is_interpolated(lerp, y, last_of(x, last), near, scale, out_y[j as int]));
            lemma_shifted_position(at, scale, x.len());
            lemma_inside(near, scale as nat, y.len());
            let i = near as int / scale as int;
            assert(sample_before(xy, last, i + x.len()) == sample_before(y, last_of(x, last), i));
        }
    }
    assert(position_at(carry, units, ny) + limit == position_at(start, units, nx + ny));
}

/// A whole number of at most 2^53 times a power of two is a double.
proof fn lemma_scaled_is_double(m: nat, bits: nat)
    requires
        m < SIGNIFICAND,
    ensures
        is_double(m * pow2(bits)),
    decreases bits,
{
    if bits == 0 {
        lemma2_to64();
        assert(m * pow2(0) == m) by (nonlinear_arith)
            requires
                pow2(0) == 1,
        ;
        assert(spacing(m) == 1);
    } else {
        let b = (bits - 1) as nat;
        lemma_scaled_is_double(m, b);
        lemma_pow2_unfold(bits);
        let x = m * pow2(b);
        assert(m * pow2(bits) == 2 * x) by (nonlinear_arith)
            requires
                pow2(bits) == 2 * pow2(b),
                x == m * pow2(b),
        ;
        lemma_spacing_range(x);
        if 2 * x >= SIGNIFICAND {
            assert((2 * x) / 2 == x);
            lemma_doubled_multiple(x, spacing(x));
        } else {
            assert(spacing(2 * x) == 1);
        }
    }
}

/// Where the input rate is a multiple of the output rate, the step is that
/// multiple, and a walk that starts on a sample is never rounded: it visits
/// every `multiple`-th sample.
pub proof fn law_whole_ratio_walks_exactly(
    in_rate: nat,
    out_rate: nat,
    multiple: nat,
    step: Step,
    first: nat,
    n: nat,
)
    requires
        step.wf(),
        out_rate > 0,
        step.is_quotient(in_rate, out_rate),
        in_rate == multiple * out_rate,
        first + n * multiple < SIGNIFICAND,
    ensures
        step.units == multiple * step.scale,
        walks_exactly(first * step.scale as nat, step, n),
        forall|k: nat|
            k <= n ==> #[trigger] position_at(first * step.scale as nat, step.units as nat, k) == (
            first + k * multiple) * step.scale,
{
    let units = step.units as nat;
    let scale = step.scale as nat;
    let start = first * scale;
    lemma_pow2_pos(step.bits as nat);
    assert(units == multiple * scale) by (nonlinear_arith)
        requires
            in_rate == multiple * out_rate,
            out_rate > 0,
            -out_rate <= 2 * (units * out_rate - in_rate * scale) <= out_rate,
    ;
    assert forall|k: nat| k <= n implies {
        &&& #[trigger] exact_position(start, units, k) == (first + k * multiple) * scale
        &&& is_double(exact_position(start, units, k))
        &&& exact_position(start, units, k) < SIGNIFICAND * scale
    } by {
        let m = first + k * multiple;
        assert(m < SIGNIFICAND) by (nonlinear_arith)
            requires
                m == first + k * multiple,
                k <= n,
                first + n * multiple < SIGNIFICAND,
        ;
        assert(start + k * units == m * scale) by (nonlinear_arith)
            requires
                start == first * scale,
                units == multiple * scale,
                m == first + k * multiple,
        ;
        lemma_scaled_is_double(m, step.bits as nat);
        assert(m * scale < SIGNIFICAND * scale) by (nonlinear_arith)
            requires
                m < SIGNIFICAND,
                scale > 0,
        ;
    }
    assert forall|k: nat| k <= n implies #[trigger] position_at(start, units, k) == (first + k
        * multiple) * scale by {
        lemma_exact_walk(start, step, n, k);
        assert(exact_position(start, units, k) == (first + k * multiple) * scale);
    }
}

/// Where the input rate is a multiple of the output rate, a block gives one
/// output for every `multiple` samples, rounded up; `first` samples of the
/// block lie in front of the first output.
pub proof fn law_whole_ratio_length<T, L: Fn(T, T, Fraction) -> T>(
    lerp: L,
    samples: Seq<T>,
    last: T,
    in_rate: nat,
    out_rate: nat,
    multiple: nat,
    step: Step,
    first: nat,
    out: Seq<T>,
)
    requires
        step.wf(),
        out_rate > 0,
        step.is_quotient(in_rate, out_rate),
        in_rate == multiple * out_rate,
        first < multiple,
        samples.len() + multiple <= SIGNIFICAND,
        is_resampled(lerp, samples, last, first * step.scale as nat, step, out),
    ensures
        samples.len() <= first + out.len() * multiple < samples.len() + multiple,
{
    let units = step.units as nat;
    let scale = step.scale as nat;
    let start = first * scale;
    lemma_pow2_pos(step.bits as nat);
    // The least number of steps that leaves the block.
    let need = if first < samples.len() {
        samples.len() - first
    } else {
        0
    };
    let n = ((need + multiple - 1) / multiple as int) as nat;
    lemma_fundamental_div_mod((need + multiple - 1) as int, multiple as int);
    let r = (need + multiple - 1) % multiple as int;
    assert(need <= n * multiple < need + multiple) by (nonlinear_arith)
        requires
            need + multiple - 1 == multiple * n + r,
            0 <= r < multiple,
    ;
    if need == 0 {
        assert(n == 0) by (nonlinear_arith)
            requires
                n * multiple < multiple,
        ;
        assert(0 * multiple == 0);
    }
    law_whole_ratio_walks_exactly(in_rate, out_rate, multiple, step, first, n);
    if out.len() > n {
        assert(position_at(start, units, n) == (first + n * multiple) * scale);
        assert(is_interpolated(
            lerp,
            samples,
            last,
            position_at(start, units, n),
            step.scale,
            out[n as int],
        ));
        assert(false) by (nonlinear_arith)
            requires
                (first + n * multiple) * scale < samples.len() * scale,
                samples.len() <= first + n * multiple,
        ;
    } else if out.len() < n {
        let m = out.len();
        assert(position_at(start, units, m) == (first + m * multiple) * scale);
        assert(first + m * multiple < samples.len()) by (nonlinear_arith)
            requires
                m + 1 <= n,
                n * multiple < need + multiple,
                need == samples.len() - first || n * multiple < multiple,
        ;
        assert(false) by (nonlinear_arith)
            requires
                (first + m * multiple) * scale >= samples.len() * scale,
                first + m * multiple < samples.len(),
                scale > 0,
        ;
    }
}

/// A block of `frames` frames and `outputs` outputs can be cut from what
/// follows it, and `more` outputs of that, without a change: the rates are
/// equal, or there is no walk, or the walk goes on over the cut.
pub open spec fn cuts_cleanly<T>(
    state: LinearState<T>,
    frames: nat,
    outputs: nat,
    more: nat,
) -> bool {
    state.in_rate == state.out_rate || match (state.position, state.pace) {
        (Some(start), Pace::Every(step)) => {
            &&& step.wf()
            &&& walks_on(start, step, outputs, frames, more)
        },
        (Some(start), Pace::Unbounded) => start == 0,
        (Some(_), Pace::Halted) => true,
        (None, _) => true,
    }
}

/// Where the input rate is a multiple of the output rate, a stream whose
/// walk lies on a sample can be cut after any block, and the walk lies on a
/// sample again: a capture at 48 kHz comes out at 16 kHz as if it had come in
/// one block, for its first 2^53 samples.
pub proof fn law_whole_ratio_cuts_cleanly<T>(
    state: LinearState<T>,
    step: Step,
    multiple: nat,
    first: nat,
    frames: nat,
    outputs: nat,
    more: nat,
)
    requires
        state.out_rate > 0,
        state.in_rate == multiple * state.out_rate,
        state.pace == Pace::Every(step),
        step.wf(),
        step.is_quotient(state.in_rate as nat, state.out_rate as nat),
        state.position == Some(first * step.scale as nat),
        frames <= first + outputs * multiple,
        first + (outputs + more) * multiple < SIGNIFICAND,
    ensures
        cuts_cleanly(state, frames, outputs, more),
        carried(first * step.scale as nat, step, outputs, frames) == (first + outputs * multiple
            - frames) * step.scale,
{
    let scale = step.scale as nat;
    let units = step.units as nat;
    let start = first * scale;
    law_whole_ratio_walks_exactly(
        state.in_rate as nat,
        state.out_rate as nat,
        multiple,
        step,
        first,
        outputs + more,
    );
    assert(position_at(start, units, outputs) == (first + outputs * multiple) * scale);
    let reached = first + outputs * multiple;
    assert(reached * scale >= frames * scale) by (nonlinear_arith)
        requires
            reached >= frames,
    ;
    law_exact_walk_goes_on(start, step, outputs, frames, more);
    let carry = carried(start, step, outputs, frames);
    assert(position_at(carry, units, 0) + frames * scale == position_at(start, units, outputs + 0));
    assert((reached - frames) * scale == reached * scale - frames * scale) by (nonlinear_arith);
}

/// The stages of a call: its mono stream and the filtered one.
pub proof fn lemma_stages<
    T,
    A: Fn(&[T]) -> T,
    M: Fn(T, T, T) -> T,
    L: Fn(T, T, Fraction) -> T,
>(
    before: LinearState<T>,
    input: Seq<T>,
    average: A,
    mac: M,
    lerp: L,
    out: Seq<T>,
    after: LinearState<T>,
) -> (r: (Seq<T>, Seq<T>))
    requires
        is_processed(before, input, average, mac, lerp, out, after),
    ensures
        is_mixdown(input, before.in_channels, average, r.0),
        is_anti_aliased(before, mac, r.0, r.1, after.window),
        is_paced(before, lerp, r.1, out, after.position),
        after == (LinearState {
            position: after.position,
            window: after.window,
            last_sample: last_of(r.1, before.last_sample),
            ..before
        }),
        r.0.len() == input.len() / channel_stride(before.in_channels),
        r.1.len() == r.0.len(),
{
    let (mono, filtered) = choose|mono: Seq<T>, filtered: Seq<T>|
        {
            &&& #[trigger] is_mixdown(input, before.in_channels, average, mono)
            &&& #[trigger] is_anti_aliased(before, mac, mono, filtered, after.window)
            &&& is_paced(before, lerp, filtered, out, after.position)
            &&& after == LinearState {
                position: after.position,
                window: after.window,
                last_sample: last_of(filtered, before.last_sample),
                ..before
            }
        };
    (mono, filtered)
}

/// The outputs and the state of two calls of `Linear::process` on two blocks
/// are those of one call on both: where the first block is of whole frames
/// and cuts cleanly, a stream may be cut into blocks at will.
pub proof fn law_process_in_pieces<
    T,
    A: Fn(&[T]) -> T,
    M: Fn(T, T, T) -> T,
    L: Fn(T, T, Fraction) -> T,
>(
    before: LinearState<T>,
    between: LinearState<T>,
    after: LinearState<T>,
    x: Seq<T>,
    y: Seq<T>,
    average: A,
    mac: M,
    lerp: L,
    out_x: Seq<T>,
    out_y: Seq<T>,
)
    requires
        before.window.len() == FILTER_TAPS,
        x.len() % channel_stride(before.in_channels) == 0,
        cuts_cleanly(
            before,
            x.len() / channel_stride(before.in_channels),
            out_x.len(),
            out_y.len(),
        ),
        is_processed(before, x, average, mac, lerp, out_x, between),
        is_processed(between, y, average, mac, lerp, out_y, after),
    ensures
        is_processed(before, x + y, average, mac, lerp, out_x + out_y, after),
{
    let (mono_x, filtered_x) = lemma_stages(
        before,
        x,
        average,
        mac,
        lerp,
        out_x,
        between,
    );
    let (mono_y, filtered_y) = lemma_stages(
        between,
        y,
        average,
        mac,
        lerp,
        out_y,
        after,
    );
    let mono = mono_x + mono_y;
    let filtered = filtered_x + filtered_y;
    let out = out_x + out_y;
    law_mixdown_in_pieces(x, y, before.in_channels, average, mono_x, mono_y);
    if let Some(coeffs) = before.coeffs {
        law_filter_in_pieces(
            mac,
            before.zero,
            coeffs,
            before.window,
            mono_x,
            mono_y,
            filtered_x,
            filtered_y,
        );
    }
    assert(is_anti_aliased(before, mac, mono, filtered, after.window));
    assert(last_of(filtered, before.last_sample) == last_of(
        filtered_y,
        last_of(filtered_x, before.last_sample),
    ));
    assert(is_paced(before, lerp, filtered, out, after.position)) by {
        if before.in_rate != before.out_rate {
            match (before.position, before.pace) {
                (Some(start), Pace::Every(step)) => {
                    law_resample_in_pieces(
                        lerp,
                        filtered_x,
                        filtered_y,
                        before.last_sample,
                        start,
                        step,
                        out_x,
                        out_y,
                    );
                },
                (Some(start), Pace::Unbounded) => {
                    if filtered_x.len() > 0 {
                        assert(out =~= out_x);
                        assert(0int / 1 == 0);
                    } else {
                        assert(filtered =~= filtered_y);
                        assert(out =~= out_y);
                    }
                },
                _ => {
                    assert(out.len() == 0);
                },
            }
        }
    }
    assert(is_mixdown(x + y, before.in_channels, average, mono));
}

/// A walk strays from the exact positions by half a unit in the last place
/// for each step at most.
pub proof fn law_walk_strays_little(start: nat, step: nat, n: nat, limit: nat)
    requires
        forall|k: nat| k < n ==> #[trigger] position_at(start, step, k) + step <= limit,
    ensures
        2 * (position_at(start, step, n) - exact_position(start, step, n)) <= n * spacing(limit),
        2 * (exact_position(start, step, n) - position_at(start, step, n)) <= n * spacing(limit),
    decreases n,
{
    if n == 0 {
        assert(0 * step == 0 && 0 * spacing(limit) == 0);
    } else {
        let m = (n - 1) as nat;
        law_walk_strays_little(start, step, m, limit);
        let x = position_at(start, step, m) + step;
        lemma_rounded_is_double(x);
        lemma_spacing_monotone(x, limit);
        lemma_spacing_range(x);
        let g = spacing(limit);
        assert(n * g == m * g + g && n * step == m * step + step) by (nonlinear_arith)
            requires
                n == m + 1,
        ;
    }
}

/// At equal rates one channel, and a device that reports none, pass through.
pub proof fn law_equal_rates_pass_through<
    T,
    A: Fn(&[T]) -> T,
    M: Fn(T, T, T) -> T,
    L: Fn(T, T, Fraction) -> T,
>(
    before: LinearState<T>,
    after: LinearState<T>,
    input: Seq<T>,
    average: A,
    mac: M,
    lerp: L,
    out: Seq<T>,
)
    requires
        before.in_rate == before.out_rate,
        before.in_channels <= 1,
        before.coeffs is None,
        is_processed(before, input, average, mac, lerp, out, after),
    ensures
        out == input,
        after == (LinearState { last_sample: last_of(input, before.last_sample), ..before }),
{
}

/// Two stereo blocks that agree in the left channel have one mixdown.
pub proof fn law_right_channel_is_ignored<T, A: Fn(&[T]) -> T>(
    x: Seq<T>,
    y: Seq<T>,
    average: A,
    mono_x: Seq<T>,
    mono_y: Seq<T>,
)
    requires
        x.len() == y.len(),
        forall|i: int| 0 <= i < x.len() / 2 ==> #[trigger] x[2 * i] == y[2 * i],
        is_mixdown(x, 2, average, mono_x),
        is_mixdown(y, 2, average, mono_y),
    ensures
        mono_x == mono_y,
{
    assert forall|i: int| 0 <= i < mono_x.len() implies mono_x[i] == mono_y[i] by {
        assert(mono_x[i] == x[2 * i] && mono_y[i] == y[2 * i]);
    }
    assert(mono_x =~= mono_y);
}

/// Every sample is `zero`.
pub open spec fn is_silent<T>(samples: Seq<T>, zero: T) -> bool {
    forall|i: int| 0 <= i < samples.len() ==> #[trigger] samples[i] == zero
}

/// The operations make silence of silence, whatever the coefficient and the
/// fraction.
pub open spec fn keep_silence<
    T,
    A: Fn(&[T]) -> T,
    M: Fn(T, T, T) -> T,
    L: Fn(T, T, Fraction) -> T,
>(zero: T, average: A, mac: M, lerp: L) -> bool {
    &&& forall|frame: &[T], r: T|
        #[trigger] average.ensures((frame,), r) && is_silent(frame@, zero) ==> r == zero
    &&& forall|c: T, r: T| #[trigger] mac.ensures((zero, zero, c), r) ==> r == zero
    &&& forall|f: Fraction, r: T| #[trigger] lerp.ensures((zero, zero, f), r) ==> r == zero
}

/// The dot product of silence is silent.
proof fn lemma_silent_dot_product<T, M: Fn(T, T, T) -> T>(
    mac: M,
    zero: T,
    samples: Seq<T>,
    coeffs: Seq<T>,
    r: T,
)
    requires
        forall|c: T, r: T| #[trigger] mac.ensures((zero, zero, c), r) ==> r == zero,
        is_silent(samples, zero),
        is_dot_product(mac, zero, samples, coeffs, r),
    ensures
        r == zero,
    decreases samples.len(),
{
    if samples.len() > 0 {
        let acc = choose|acc: T|
            is_dot_product(mac, zero, samples.drop_last(), coeffs.drop_last(), acc)
                && #[trigger] mac.ensures((acc, samples.last(), coeffs.last()), r);
        lemma_silent_dot_product(mac, zero, samples.drop_last(), coeffs.drop_last(), acc);
        assert(samples.last() == zero);
    }
}

/// Silence in, silence out: a stream that has been silent gives silence for
/// silence and is still silent, at any rates.
pub proof fn law_silence_stays_silent<
    T,
    A: Fn(&[T]) -> T,
    M: Fn(T, T, T) -> T,
    L: Fn(T, T, Fraction) -> T,
>(
    before: LinearState<T>,
    after: LinearState<T>,
    input: Seq<T>,
    average: A,
    mac: M,
    lerp: L,
    out: Seq<T>,
)
    requires
        keep_silence(before.zero, average, mac, lerp),
        before.window.len() == FILTER_TAPS,
        is_silent(before.window, before.zero),
        before.last_sample == before.zero,
        before.pace matches Pace::Every(step) ==> step.wf(),
        is_silent(input, before.zero),
        is_processed(before, input, average, mac, lerp, out, after),
    ensures
        is_silent(out, before.zero),
        is_silent(after.window, before.zero),
        after.last_sample == before.zero,
{
    let zero = before.zero;
    let (mono, filtered) = lemma_stages(before, input, average, mac, lerp, out, after);
    assert(is_silent(mono, zero)) by {
        let stride = channel_stride(before.in_channels);
        assert forall|i: int| 0 <= i < mono.len() implies #[trigger] mono[i] == zero by {
            lemma_fundamental_div_mod(input.len() as int, stride as int);
            assert(0 <= i * stride && i * stride + stride <= input.len()) by (nonlinear_arith)
                requires
                    0 <= i < mono.len(),
                    input.len() >= stride * mono.len(),
            ;
            if before.in_channels > 2 {
                let frame = input.subrange(i * stride, i * stride + stride);
                assert(is_average(average, frame, mono[i]));
                let slice = choose|slice: &[T]|
                    slice@ == frame && #[trigger] average.ensures((slice,), mono[i]);
                assert forall|j: int| 0 <= j < slice@.len() implies #[trigger] slice@[j] == zero by {
                    assert(frame[j] == input[i * stride + j]);
                }
            } else if before.in_channels == 2 {
                assert(i * stride == 2 * i) by (nonlinear_arith)
                    requires
                        stride == 2,
                ;
                assert(mono[i] == input[2 * i]);
            } else {
                assert(mono[i] == input[i]);
            }
        }
    }
    if let Some(coeffs) = before.coeffs {
        let stream = before.window + mono;
        assert(is_silent(stream, zero));
        assert forall|k: int| 0 <= k < filtered.len() implies #[trigger] filtered[k] == zero by {
            let seen = window_after(before.window, mono, k + 1);
            assert(is_silent(seen, zero));
            lemma_silent_dot_product(mac, zero, seen, coeffs, filtered[k]);
        }
        assert(is_silent(after.window, zero));
    }
    assert(is_silent(filtered, zero));
    if before.in_rate != before.out_rate {
        if let (Some(start), Pace::Every(step)) = (before.position, before.pace) {
            lemma_pow2_pos(step.bits as nat);
            assert forall|k: int| 0 <= k < out.len() implies #[trigger] out[k] == zero by {
                let p = position_at(start, step.units as nat, k as nat);
                assert(is_interpolated(lerp, filtered, before.last_sample, p, step.scale, out[k]));
                lemma_inside(p, step.scale as nat, filtered.len());
            }
        }
    }
}

/// A position inside a block lies behind a sample of the block.
pub proof fn lemma_inside(p: nat, scale: nat, len: nat)
    requires
        scale > 0,
        p < len * scale,
    ensures
        0 <= p as int / scale as int,
        (p as int / scale as int) < len,
{
    lemma_fundamental_div_mod(p as int, scale as int);
    let q = p as int / scale as int;
    assert(0 <= q && q < len) by (nonlinear_arith)
        requires
            p == scale * q + p as int % scale as int,
            0 <= p as int % scale as int,
            (p as int % scale as int) < scale,
            p < len * scale,
            scale > 0,
            p >= 0,
    ;
}

/// A block without a whole frame, an empty one among them, gives nothing and
/// changes nothing: later calls return what they would have returned without
/// it.
pub proof fn law_empty_block_changes_nothing<
    T,
    A: Fn(&[T]) -> T,
    M: Fn(T, T, T) -> T,
    L: Fn(T, T, Fraction) -> T,
>(
    before: LinearState<T>,
    after: LinearState<T>,
    input: Seq<T>,
    average: A,
    mac: M,
    lerp: L,
    out: Seq<T>,
)
    requires
        before.wf(),
        input.len() < channel_stride(before.in_channels),
        is_processed(before, input, average, mac, lerp, out, after),
    ensures
        out.len() == 0,
        after == before,
{
    let (mono, filtered) = lemma_stages(before, input, average, mac, lerp, out, after);
    assert(mono.len() == 0) by (nonlinear_arith)
        requires
            mono.len() == input.len() / channel_stride(before.in_channels),
            input.len() < channel_stride(before.in_channels),
    ;
    assert(window_after(before.window, mono, 0) =~= before.window);
    if before.in_rate != before.out_rate {
        if let (Some(start), Pace::Every(step)) = (before.position, before.pace) {
            assert(filtered.len() * step.scale == 0) by (nonlinear_arith)
                requires
                    filtered.len() == 0,
            ;
            if out.len() > 0 {
                assert(is_interpolated(
                    lerp,
                    filtered,
                    before.last_sample,
                    position_at(start, step.units as nat, 0),
                    step.scale,
                    out[0],
                ));
            }
            lemma_rounded_fixpoint(start);
        }
    }
}

/// Blocks of ordinary size are accepted at any rates: of up to 2^19 frames
/// always, of up to 2^51 where the rate does not go up.
pub proof fn law_ordinary_blocks_are_accepted<T: Copy>(state: LinearState<T>, len: nat)
    requires
        state.in_rate > 0,
        len / channel_stride(state.in_channels) <= SIGNIFICAND / 4,
        state.in_rate >= state.out_rate || len / channel_stride(state.in_channels) <= 0x8_0000,
    ensures
        Linear::accepts(state, len),
{
    let frames = len / channel_stride(state.in_channels);
    let n = state.in_rate as nat;
    let d = state.out_rate as nat;
    let bound = SIGNIFICAND as nat / 4;
    if n >= d {
        assert(frames * d <= bound * n) by (nonlinear_arith)
            requires
                frames <= bound,
                d <= n,
        ;
    } else {
        assert(frames * d <= bound * n) by (nonlinear_arith)
            requires
                frames <= 0x8_0000,
                d <= 0xffff_ffff,
                n >= 1,
                bound == 0x8_0000_0000_0000,
        ;
    }
}

/// The three operations give one result for one input, as arithmetic does.
pub open spec fn are_functions<
    T,
    A: Fn(&[T]) -> T,
    M: Fn(T, T, T) -> T,
    L: Fn(T, T, Fraction) -> T,
>(average: A, mac: M, lerp: L) -> bool {
    &&& forall|x: &[T], y: &[T], r: T, q: T| #[trigger]
        average.ensures((x,), r) && #[trigger] average.ensures((y,), q) && x@ == y@ ==> r == q
    &&& forall|acc: T, s: T, c: T, r: T, q: T| #[trigger]
        mac.ensures((acc, s, c), r) && #[trigger] mac.ensures((acc, s, c), q) ==> r == q
    &&& forall|a: T, b: T, f: Fraction, r: T, q: T| #[trigger]
        lerp.ensures((a, b, f), r) && #[trigger] lerp.ensures((a, b, f), q) ==> r == q
}

/// A dot product has one result.
proof fn lemma_one_dot_product<T, M: Fn(T, T, T) -> T>(
    mac: M,
    zero: T,
    samples: Seq<T>,
    coeffs: Seq<T>,
    r: T,
    q: T,
)
    requires
        forall|acc: T, s: T, c: T, r: T, q: T| #[trigger]
            mac.ensures((acc, s, c), r) && #[trigger] mac.ensures((acc, s, c), q) ==> r == q,
        is_dot_product(mac, zero, samples, coeffs, r),
        is_dot_product(mac, zero, samples, coeffs, q),
    ensures
        r == q,
    decreases samples.len(),
{
    if samples.len() > 0 {
        let acc_r = choose|acc: T|
            is_dot_product(mac, zero, samples.drop_last(), coeffs.drop_last(), acc)
                && #[trigger] mac.ensures((acc, samples.last(), coeffs.last()), r);
        let acc_q = choose|acc: T|
            is_dot_product(mac, zero, samples.drop_last(), coeffs.drop_last(), acc)
                && #[trigger] mac.ensures((acc, samples.last(), coeffs.last()), q);
        lemma_one_dot_product(
            mac,
            zero,
            samples.drop_last(),
            coeffs.drop_last(),
            acc_r,
            acc_q,
        );
    }
}

/// A walk over a block has one row of outputs.
proof fn lemma_one_resampling<T, L: Fn(T, T, Fraction) -> T>(
    lerp: L,
    samples: Seq<T>,
    last: T,
    start: nat,
    step: Step,
    r: Seq<T>,
    q: Seq<T>,
)
    requires
        forall|a: T, b: T, f: Fraction, r: T, q: T| #[trigger]
            lerp.ensures((a, b, f), r) && #[trigger] lerp.ensures((a, b, f), q) ==> r == q,
        is_resampled(lerp, samples, last, start, step, r),
        is_resampled(lerp, samples, last, start, step, q),
    ensures
        r == q,
{
    let units = step.units as nat;
    if r.len() < q.len() {
        assert(is_interpolated(
            lerp,
            samples,
            last,
            position_at(start, units, r.len()),
            step.scale,
            q[r.len() as int],
        ));
    }
    if q.len() < r.len() {
        assert(is_interpolated(
            lerp,
            samples,
            last,
            position_at(start, units, q.len()),
            step.scale,
            r[q.len() as int],
        ));
    }
    assert forall|k: int| 0 <= k < r.len() implies r[k] == q[k] by {
        let at = position_at(start, units, k as nat);
        assert(is_interpolated(lerp, samples, last, at, step.scale, r[k]));
        assert(is_interpolated(lerp, samples, last, at, step.scale, q[k]));
    }
    assert(r =~= q);
}

/// Where the operations are functions, what a call returns and leaves behind
/// is settled by the state and the block.
pub proof fn law_process_is_a_function<
    T,
    A: Fn(&[T]) -> T,
    M: Fn(T, T, T) -> T,
    L: Fn(T, T, Fraction) -> T,
>(
    before: LinearState<T>,
    input: Seq<T>,
    average: A,
    mac: M,
    lerp: L,
    out: Seq<T>,
    after: LinearState<T>,
    other_out: Seq<T>,
    other_after: LinearState<T>,
)
    requires
        are_functions(average, mac, lerp),
        is_processed(before, input, average, mac, lerp, out, after),
        is_processed(before, input, average, mac, lerp, other_out, other_after),
    ensures
        out == other_out,
        after == other_after,
{
    let (mono, filtered) = lemma_stages(before, input, average, mac, lerp, out, after);
    let (other_mono, other_filtered) = lemma_stages(
        before,
        input,
        average,
        mac,
        lerp,
        other_out,
        other_after,
    );
    let stride = channel_stride(before.in_channels);
    assert forall|i: int| 0 <= i < mono.len() implies mono[i] == other_mono[i] by {
        if before.in_channels > 2 {
            let frame = input.subrange(i * stride, i * stride + stride);
            assert(is_average(average, frame, mono[i]));
            assert(is_average(average, frame, other_mono[i]));
        } else if before.in_channels == 2 {
            assert(mono[i] == input[2 * i] && other_mono[i] == input[2 * i]);
        }
    }
    assert(mono =~= other_mono);
    if let Some(coeffs) = before.coeffs {
        assert forall|k: int| 0 <= k < filtered.len() implies filtered[k] == other_filtered[k] by {
            let seen = window_after(before.window, mono, k + 1);
            assert(is_dot_product(mac, before.zero, seen, coeffs, filtered[k]));
            assert(is_dot_product(mac, before.zero, seen, coeffs, other_filtered[k]));
            lemma_one_dot_product(mac, before.zero, seen, coeffs, filtered[k], other_filtered[k]);
        }
    }
    assert(filtered =~= other_filtered);
    if before.in_rate != before.out_rate {
        match (before.position, before.pace) {
            (Some(start), Pace::Every(step)) => {
                lemma_one_resampling(
                    lerp,
                    filtered,
                    before.last_sample,
                    start,
                    step,
                    out,
                    other_out,
                );
            },
            _ => {
                assert(out =~= other_out);
            },
        }
    }
}

/// At a whole ratio it does not matter where a stream is cut: what two calls
/// return, one behind the other, and leave behind, is what one call on both
/// blocks returns and leaves behind. The two blocks are of fewer than 2^53
/// frames: behind that a position in a block would have to be rounded.
pub proof fn law_whole_ratio_in_pieces<
    T,
    A: Fn(&[T]) -> T,
    M: Fn(T, T, T) -> T,
    L: Fn(T, T, Fraction) -> T,
>(
    before: LinearState<T>,
    between: LinearState<T>,
    after: LinearState<T>,
    step: Step,
    multiple: nat,
    first: nat,
    x: Seq<T>,
    y: Seq<T>,
    average: A,
    mac: M,
    lerp: L,
    out_x: Seq<T>,
    out_y: Seq<T>,
    out: Seq<T>,
    at_once: LinearState<T>,
)
    requires
        before.wf(),
        before.out_rate > 0,
        before.in_rate == multiple * before.out_rate,
        before.pace == Pace::Every(step),
        first < multiple,
        before.position == Some(first * step.scale as nat),
        x.len() % channel_stride(before.in_channels) == 0,
        (x + y).len() / channel_stride(before.in_channels) + multiple <= SIGNIFICAND,
        is_processed(before, x, average, mac, lerp, out_x, between),
        is_processed(between, y, average, mac, lerp, out_y, after),
        is_processed(before, x + y, average, mac, lerp, out, at_once),
        are_functions(average, mac, lerp),
    ensures
        out == out_x + out_y,
        at_once == after,
{
    let (mono_x, filtered_x) = lemma_stages(before, x, average, mac, lerp, out_x, between);
    let (mono_y, filtered_y) = lemma_stages(between, y, average, mac, lerp, out_y, after);
    law_mixdown_in_pieces(x, y, before.in_channels, average, mono_x, mono_y);
    let n = filtered_x.len();
    let m = filtered_y.len();
    assert(n + m + multiple <= SIGNIFICAND);
    if before.in_rate != before.out_rate {
        let rate = before.in_rate as nat;
        let out_rate = before.out_rate as nat;
        law_whole_ratio_length(
            lerp,
            filtered_x,
            before.last_sample,
            rate,
            out_rate,
            multiple,
            step,
            first,
            out_x,
        );
        let next = (first + out_x.len() * multiple - n) as nat;
        law_whole_ratio_cuts_cleanly(before, step, multiple, first, n, out_x.len(), 0);
        law_whole_ratio_length(
            lerp,
            filtered_y,
            between.last_sample,
            rate,
            out_rate,
            multiple,
            step,
            next,
            out_y,
        );
        assert((out_x.len() + out_y.len()) * multiple == out_x.len() * multiple + out_y.len()
            * multiple) by (nonlinear_arith);
        law_whole_ratio_cuts_cleanly(before, step, multiple, first, n, out_x.len(), out_y.len());
    }
    law_process_in_pieces(
        before,
        between,
        after,
        x,
        y,
        average,
        mac,
        lerp,
        out_x,
        out_y,
    );
    law_process_is_a_function(
        before,
        x + y,
        average,
        mac,
        lerp,
        out,
        at_once,
        out_x + out_y,
        after,
    );
}

/// `law_whole_ratio_in_pieces` for a fresh resampler: where the output rate
/// divides the input rate, two calls in a row and one call on both blocks
/// return the same and leave the same behind.
pub proof fn law_fresh_stream_in_pieces<
    T,
    A: Fn(&[T]) -> T,
    M: Fn(T, T, T) -> T,
    L: Fn(T, T, Fraction) -> T,
>(
    before: LinearState<T>,
    between: LinearState<T>,
    after: LinearState<T>,
    x: Seq<T>,
    y: Seq<T>,
    average: A,
    mac: M,
    lerp: L,
    out_x: Seq<T>,
    out_y: Seq<T>,
    out: Seq<T>,
    at_once: LinearState<T>,
)
    requires
        before.wf(),
        before.in_rate > 0,
        before.out_rate > 0,
        before.in_rate % before.out_rate == 0,
        before.position == Some(0nat),
        x.len() % channel_stride(before.in_channels) == 0,
        (x + y).len() / channel_stride(before.in_channels) + before.in_rate / before.out_rate
            <= SIGNIFICAND,
        is_processed(before, x, average, mac, lerp, out_x, between),
        is_processed(between, y, average, mac, lerp, out_y, after),
        is_processed(before, x + y, average, mac, lerp, out, at_once),
        are_functions(average, mac, lerp),
    ensures
        out == out_x + out_y,
        at_once == after,
{
    let multiple = lemma_multiple(before.in_rate as nat, before.out_rate as nat);
    let step = before.pace->Every_0;
    assert(0 * (step.scale as nat) == 0);
    law_whole_ratio_in_pieces(
        before,
        between,
        after,
        step,
        multiple,
        0,
        x,
        y,
        average,
        mac,
        lerp,
        out_x,
        out_y,
        out,
        at_once,
    );
}

/// How often the output rate goes into an input rate that it divides.
pub proof fn lemma_multiple(in_rate: nat, out_rate: nat) -> (multiple: nat)
    requires
        in_rate > 0,
        out_rate > 0,
        in_rate % out_rate == 0,
    ensures
        in_rate == multiple * out_rate,
        multiple == in_rate / out_rate,
        multiple > 0,
{
    let multiple = in_rate / out_rate;
    lemma_fundamental_div_mod(in_rate as int, out_rate as int);
    assert(in_rate == multiple * out_rate && multiple > 0) by (nonlinear_arith)
        requires
            in_rate == out_rate * multiple,
            in_rate > 0,
            out_rate > 0,
    ;
    multiple
}

} // verus!
