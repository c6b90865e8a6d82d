//! Stream positions with the rounding of IEEE 754 binary64.
//!
//! A resampler walks its input in steps of `in_rate / out_rate` samples and
//! keeps the position as a double. All the doubles of one walk are multiples
//! of the last bit of the step, so a position is held here as a whole number
//! of such units, and each sum or difference is rounded to the 53 significant
//! bits that a double has: to the nearest, and to the even one of two equally
//! near.
use vstd::prelude::*;
use vstd::arithmetic::div_mod::{
    lemma_div_denominator, lemma_div_is_ordered, lemma_fundamental_div_mod,
    lemma_fundamental_div_mod_converse, lemma_mod_multiples_basic,
};
use vstd::arithmetic::mul::{
    lemma_mul_inequality, lemma_mul_is_associative, lemma_mul_is_commutative,
    lemma_mul_is_distributive_add,
};
use vstd::arithmetic::power2::{
    lemma2_to64, lemma2_to64_rest, lemma_pow2_adds, lemma_pow2_pos, lemma_pow2_unfold, pow2,
};

verus! {

/// 2^53: the integers below it are the doubles with unit spacing.
pub const SIGNIFICAND: u128 = 0x20_0000_0000_0000;

/// 2^104: far above any position of a stream that fits in memory.
pub const POSITION_BOUND: u128 = 0x100_0000_0000_0000_0000_0000_0000;

/// The spacing of the doubles around `x`: the smallest power of two `g` with
/// `x < 2^53 * g`.
pub open spec fn spacing(x: nat) -> nat
    decreases x,
{
    if x < SIGNIFICAND {
        1
    } else {
        2 * spacing(x / 2)
    }
}

/// `x` fits in 53 significant bits.
pub open spec fn is_double(x: nat) -> bool {
    x % spacing(x) == 0
}

/// The double nearest to `x`; of two that are equally near, the one with an
/// even significand.
pub open spec fn rounded(x: nat) -> nat {
    let g = spacing(x);
    let q = x / g;
    let r = x % g;
    if 2 * r < g || (2 * r == g && q % 2 == 0) {
        q * g
    } else {
        (q + 1) * g
    }
}

/// The spacing is positive, and `x` lies in the upper half of its range
/// unless the spacing is 1.
pub proof fn lemma_spacing_range(x: nat)
    ensures
        spacing(x) >= 1,
        x < SIGNIFICAND * spacing(x),
        spacing(x) == 1 || (SIGNIFICAND / 2) * spacing(x) <= x,
    decreases x,
{
    if x >= SIGNIFICAND {
        lemma_spacing_range(x / 2);
        let h = spacing(x / 2);
        assert(x < SIGNIFICAND * (2 * h)) by (nonlinear_arith)
            requires
                x / 2 < SIGNIFICAND * h,
        ;
        if h == 1 {
        } else {
            assert((SIGNIFICAND / 2) * (2 * h) <= x) by (nonlinear_arith)
                requires
                    (SIGNIFICAND / 2) * h <= x / 2,
            ;
        }
    }
}

/// Doubling keeps divisibility.
pub proof fn lemma_doubled_multiple(b: nat, a: nat)
    requires
        a >= 1,
        b % a == 0,
    ensures
        (2 * b) % (2 * a) == 0,
{
    lemma_fundamental_div_mod(b as int, a as int);
    let c = b / a;
    assert(2 * b == c * (2 * a)) by (nonlinear_arith)
        requires
            b == a * c,
    ;
    lemma_mod_multiples_basic(c as int, 2 * a as int);
}

/// A larger number has a spacing that is a multiple of the smaller one's.
pub proof fn lemma_spacing_monotone(x: nat, y: nat)
    requires
        x <= y,
    ensures
        spacing(x) == spacing(y) || 2 * spacing(x) <= spacing(y),
        spacing(y) % spacing(x) == 0,
    decreases y,
{
    lemma_spacing_range(x);
    lemma_spacing_range(y);
    if x < SIGNIFICAND {
        assert(spacing(x) == 1);
    } else {
        lemma_spacing_monotone(x / 2, y / 2);
        lemma_spacing_range(x / 2);
        let a = spacing(x / 2);
        let b = spacing(y / 2);
        lemma_doubled_multiple(b, a);
    }
}

/// A whole multiple of `g` that needs no more than 2^53 of them is a double,
/// whenever `g` is the spacing at some `x`.
proof fn lemma_multiple_is_double(x: nat, m: nat)
    requires
        m <= SIGNIFICAND,
    ensures
        is_double(m * spacing(x)),
    decreases x,
{
    let g = spacing(x);
    lemma_spacing_range(x);
    let z = m * g;
    lemma_spacing_range(z);
    if x < SIGNIFICAND {
        assert(z == m) by (nonlinear_arith)
            requires
                z == m * g,
                g == 1,
        ;
        if m == SIGNIFICAND {
            assert(spacing(z) == 2 * spacing((SIGNIFICAND / 2) as nat));
            assert(spacing((SIGNIFICAND / 2) as nat) == 1);
        }
    } else {
        let h = spacing(x / 2);
        lemma_spacing_range(x / 2);
        lemma_multiple_is_double(x / 2, m);
        assert(z == 2 * (m * h)) by (nonlinear_arith)
            requires
                z == m * (2 * h),
        ;
        if z < SIGNIFICAND {
            assert(spacing(z) == 1);
        } else {
            assert(z / 2 == m * h);
            let k = spacing(z / 2);
            lemma_spacing_range(z / 2);
            lemma_doubled_multiple(m * h, k);
        }
    }
}

/// Quotient and remainder by the spacing.
proof fn lemma_split(x: nat)
    ensures
        x == (x / spacing(x)) * spacing(x) + x % spacing(x),
        x % spacing(x) < spacing(x),
        x / spacing(x) < SIGNIFICAND,
        spacing(x) == 1 || x / spacing(x) >= SIGNIFICAND / 2,
{
    let g = spacing(x);
    lemma_spacing_range(x);
    lemma_fundamental_div_mod(x as int, g as int);
    lemma_mul_is_commutative(g as int, (x / g) as int);
    let q = x / g;
    let r = x % g;
    assert(q < SIGNIFICAND) by (nonlinear_arith)
        requires
            x == q * g + r,
            r >= 0,
            x < SIGNIFICAND * g,
            g >= 1,
    ;
    if g != 1 {
        assert(q >= SIGNIFICAND / 2) by (nonlinear_arith)
            requires
                x == q * g + r,
                r < g,
                (SIGNIFICAND / 2) * g <= x,
                g >= 1,
        ;
    }
}

/// Rounding yields a double, within one spacing of the number.
pub proof fn lemma_rounded_is_double(x: nat)
    ensures
        is_double(rounded(x)),
        rounded(x) < x + spacing(x),
        x < rounded(x) + spacing(x),
        2 * (rounded(x) - x) <= spacing(x),
        2 * (x - rounded(x)) <= spacing(x),
        rounded(x) <= SIGNIFICAND * spacing(x),
{
    let g = spacing(x);
    lemma_split(x);
    lemma_spacing_range(x);
    let q = x / g;
    lemma_multiple_is_double(x, q);
    lemma_multiple_is_double(x, (q + 1) as nat);
    lemma_mul_is_distributive_add(g as int, q as int, 1);
    lemma_mul_is_commutative(g as int, q as int);
    lemma_mul_is_commutative(g as int, q as int + 1);
    lemma_mul_inequality(q as int + 1, SIGNIFICAND as int, g as int);
}

/// A double is its own rounding.
pub proof fn lemma_rounded_fixpoint(x: nat)
    requires
        is_double(x),
    ensures
        rounded(x) == x,
{
    lemma_split(x);
    lemma_spacing_range(x);
}

/// Rounding keeps the order of numbers.
pub proof fn lemma_rounded_monotone(x: nat, y: nat)
    requires
        x <= y,
    ensures
        rounded(x) <= rounded(y),
{
    let gx = spacing(x);
    let gy = spacing(y);
    lemma_split(x);
    lemma_split(y);
    lemma_spacing_range(x);
    lemma_spacing_range(y);
    lemma_spacing_monotone(x, y);
    lemma_rounded_is_double(x);
    let qx = x / gx;
    let qy = y / gy;
    lemma_mul_is_distributive_add(gy as int, qy as int, 1);
    lemma_mul_is_commutative(gy as int, qy as int);
    lemma_mul_is_commutative(gy as int, qy as int + 1);
    if gx == gy {
        let g = gx;
        lemma_div_is_ordered(x as int, y as int, g as int);
        if qx < qy {
            lemma_mul_inequality(qx as int + 1, qy as int, g as int);
            lemma_mul_inequality(qx as int, qy as int, g as int);
        }
    } else {
        assert(SIGNIFICAND * gx <= (SIGNIFICAND / 2) * gy) by (nonlinear_arith)
            requires
                2 * gx <= gy,
        ;
        lemma_mul_inequality((SIGNIFICAND / 2) as int, qy as int, gy as int);
    }
}

/// No double lies strictly between the two neighbours of `x`.
proof fn lemma_no_double_between(x: nat, y: nat)
    requires
        is_double(y),
    ensures
        y <= (x / spacing(x)) * spacing(x) || (x / spacing(x) + 1) * spacing(x) <= y,
{
    let g = spacing(x);
    let q = x / g;
    lemma_split(x);
    lemma_spacing_range(x);
    lemma_spacing_range(y);
    if q * g < y && y < (q + 1) * g {
        lemma_mul_inequality(q as int + 1, SIGNIFICAND as int, g as int);
        if x <= y {
            lemma_spacing_monotone(x, y);
            if spacing(y) != g {
                assert((SIGNIFICAND / 2) * spacing(y) >= SIGNIFICAND * g) by (nonlinear_arith)
                    requires
                        2 * g <= spacing(y),
                ;
            }
        } else {
            lemma_spacing_monotone(y, x);
            if spacing(y) != g {
                assert(SIGNIFICAND * spacing(y) <= (SIGNIFICAND / 2) * g) by (nonlinear_arith)
                    requires
                        2 * spacing(y) <= g,
                ;
                lemma_mul_inequality((SIGNIFICAND / 2) as int, q as int, g as int);
            }
        }
        lemma_split(y);
        let p = y / g;
        assert(q < p && p < q + 1) by (nonlinear_arith)
            requires
                y == p * g,
                q * g < y,
                y < (q + 1) * g,
                g >= 1,
        ;
    }
}

/// No double lies nearer to `x` than `rounded(x)`.
pub proof fn law_rounded_is_nearest(x: nat, y: nat)
    requires
        is_double(y),
    ensures
        x <= y ==> rounded(x) - x <= y - x && x - rounded(x) <= y - x,
        y <= x ==> rounded(x) - x <= x - y && x - rounded(x) <= x - y,
{
    lemma_split(x);
    lemma_spacing_range(x);
    let g = spacing(x);
    let q = x / g;
    lemma_mul_is_distributive_add(g as int, q as int, 1);
    lemma_mul_is_commutative(g as int, q as int);
    lemma_mul_is_commutative(g as int, q as int + 1);
    lemma_no_double_between(x, y);
}

/// Adding a step of full width to a position below 2^104 moves it on.
pub proof fn lemma_advances(p: nat, step: nat)
    requires
        is_double(p),
        p < POSITION_BOUND,
        step >= SIGNIFICAND / 2,
    ensures
        rounded(p + step) > p,
{
    let g = spacing(p);
    lemma_split(p);
    lemma_spacing_range(p);
    let q = p / g;
    assert(g <= SIGNIFICAND / 2) by {
        if g != 1 {
            assert(g < SIGNIFICAND / 2) by (nonlinear_arith)
                requires
                    (SIGNIFICAND / 2) * g <= p,
                    p < POSITION_BOUND,
            ;
        }
    }
    lemma_mul_is_distributive_add(g as int, q as int, 1);
    lemma_mul_is_commutative(g as int, q as int);
    lemma_mul_is_commutative(g as int, q as int + 1);
    lemma_multiple_is_double(p, (q + 1) as nat);
    lemma_rounded_fixpoint((q + 1) * g);
    lemma_rounded_monotone((q + 1) * g, p + step);
}

/// Rounds to 53 significant bits.
pub fn round(x: u128) -> (r: u128)
    requires
        x <= u128::MAX / 4,
    ensures
        r == rounded(x as nat),
{
    let mut q: u128 = x;
    let mut g: u128 = 1;
    proof {
        lemma_spacing_range(x as nat);
    }
    while q >= SIGNIFICAND
        invariant
            x <= u128::MAX / 4,
            g >= 1,
            q == x / g,
            spacing(x as nat) == g * spacing(q as nat),
            spacing(x as nat) == 1 || (SIGNIFICAND / 2) * spacing(x as nat) <= x,
        decreases q,
    {
        proof {
            lemma_div_denominator(x as int, g as int, 2);
            lemma_mul_is_associative(g as int, 2, spacing(q as nat / 2) as int);
            lemma_spacing_range(q as nat);
            assert(g <= u128::MAX / 4) by (nonlinear_arith)
                requires
                    spacing(x as nat) == g * spacing(q as nat),
                    spacing(q as nat) >= 1,
                    g >= 1,
                    spacing(x as nat) == 1 || (SIGNIFICAND / 2) * spacing(x as nat) <= x,
                    x <= u128::MAX / 4,
            ;
        }
        q = q / 2;
        g = g * 2;
    }
    proof {
        lemma_split(x as nat);
        lemma_mul_is_distributive_add(g as int, q as int, 1);
        lemma_mul_is_commutative(g as int, q as int);
        lemma_mul_is_commutative(g as int, q as int + 1);
    }
    let r: u128 = x - q * g;
    if 2 * r < g || (2 * r == g && q % 2 == 0) {
        q * g
    } else {
        (q + 1) * g
    }
}

/// A step of `units / scale` samples, where `scale` is `2^bits`.
#[derive(Clone, Copy)]
pub struct Step {
    pub units: u128,
    pub scale: u128,
    pub bits: u32,
}

impl Step {
    /// The step is `in_rate / out_rate` as a double: the significand has its
    /// full 53 bits, and no other is nearer to the quotient (of two equally
    /// near the even one).
    pub open spec fn is_quotient(self, in_rate: nat, out_rate: nat) -> bool {
        let scaled = in_rate * self.scale;
        let error = 2 * (self.units * out_rate - scaled);
        &&& (SIGNIFICAND / 2) * out_rate <= scaled < SIGNIFICAND * out_rate
        &&& -out_rate <= error <= out_rate
        &&& (error == out_rate || error == -out_rate) ==> self.units % 2 == 0
    }

    /// The significand and the exponent have the ranges of a step between
    /// two rates.
    pub open spec fn wf(self) -> bool {
        &&& SIGNIFICAND / 2 <= self.units <= SIGNIFICAND
        &&& self.bits <= 84
        &&& self.scale == pow2(self.bits as nat)
    }

    /// Divides the rates, rounding as a double does.
    pub fn between(in_rate: u32, out_rate: u32) -> (step: Step)
        requires
            in_rate > 0,
            out_rate > 0,
        ensures
            step.wf(),
            step.is_quotient(in_rate as nat, out_rate as nat),
    {
        let d: u128 = out_rate as u128;
        let low: u128 = (SIGNIFICAND / 2) * d;
        let mut n: u128 = in_rate as u128;
        let mut scale: u128 = 1;
        let mut bits: u32 = 0;
        proof {
            lemma2_to64();
            lemma2_to64_rest();
        }
        while n < low
            invariant
                in_rate > 0,
                out_rate > 0,
                d == out_rate,
                low == (SIGNIFICAND / 2) * d,
                n == in_rate * scale,
                scale == pow2(bits as nat),
                n < 2 * low,
                low <= 0x10_0000_0000_0000u128 * 0xffff_ffffu128,
                bits <= 84,
                pow2(64) == 0x10000000000000000,
            decreases 84 - bits,
        {
            proof {
                lemma_pow2_unfold((bits + 1) as nat);
                lemma_pow2_pos(bits as nat);
                assert(in_rate * (scale * 2) == n * 2) by (nonlinear_arith)
                    requires
                        n == in_rate * scale,
                ;
                assert(n >= scale) by (nonlinear_arith)
                    requires
                        n == in_rate * scale,
                        in_rate >= 1,
                ;
                if bits >= 84 {
                    lemma_pow2_adds(64, 20);
                    lemma2_to64();
                    assert(pow2(84) == 0x10_0000_0000_0000u128 * 0x1_0000_0000u128);
                    assert(false);
                }
            }
            n = n * 2;
            scale = scale * 2;
            bits = bits + 1;
        }
        let q: u128 = n / d;
        let r: u128 = n % d;
        proof {
            lemma_fundamental_div_mod(n as int, d as int);
            lemma_mul_is_commutative(d as int, q as int);
            lemma_mul_is_distributive_add(d as int, q as int, 1);
            lemma_mul_is_commutative(d as int, q as int + 1);
            assert(SIGNIFICAND / 2 <= q && q < SIGNIFICAND) by (nonlinear_arith)
                requires
                    n == q * d + r,
                    r < d,
                    (SIGNIFICAND / 2) * d <= n,
                    n < SIGNIFICAND * d,
                    d >= 1,
            ;
        }
        if 2 * r > d || (2 * r == d && q % 2 == 1) {
            Step { units: q + 1, scale, bits }
        } else {
            Step { units: q, scale, bits }
        }
    }
}

/// The spacing of the numbers of 53 bits with `k` more behind them.
proof fn lemma_spacing_is_power(x: nat, k: nat)
    requires
        0x10_0000_0000_0000 * pow2(k) <= x < 0x20_0000_0000_0000 * pow2(k),
    ensures
        spacing(x) == pow2(k),
    decreases k,
{
    lemma2_to64();
    lemma_pow2_pos(k);
    if k > 0 {
        let b = (k - 1) as nat;
        lemma_pow2_unfold(k);
        lemma_pow2_pos(b);
        assert(0x10_0000_0000_0000 * pow2(b) <= x / 2 && x / 2 < 0x20_0000_0000_0000 * pow2(b)
            && x >= 0x20_0000_0000_0000) by (nonlinear_arith)
            requires
                0x10_0000_0000_0000 * (2 * pow2(b)) <= x,
                x < 0x20_0000_0000_0000 * (2 * pow2(b)),
                pow2(b) >= 1,
        ;
        lemma_spacing_is_power(x / 2, b);
    }
}

/// Rounding, bit by bit: of a number of 53 bits `q` with `k` more bits `rest`
/// behind them, the `k` are dropped where they are less than a half, and `q`
/// counts one up where they are more; at a half it becomes the even one. A
/// number of no more than 53 bits stays as it is.
pub proof fn law_rounding_bit_by_bit(q: nat, k: nat, rest: nat)
    requires
        0x10_0000_0000_0000 <= q < 0x20_0000_0000_0000,
        rest < pow2(k),
    ensures
        2 * rest < pow2(k) ==> rounded(q * pow2(k) + rest) == q * pow2(k),
        2 * rest > pow2(k) ==> rounded(q * pow2(k) + rest) == (q + 1) * pow2(k),
        2 * rest == pow2(k) && q % 2 == 0 ==> rounded(q * pow2(k) + rest) == q * pow2(k),
        2 * rest == pow2(k) && q % 2 == 1 ==> rounded(q * pow2(k) + rest) == (q + 1) * pow2(k),
        forall|small: nat| small < 0x20_0000_0000_0000 ==> #[trigger] rounded(small) == small,
{
    let g = pow2(k);
    let x = q * g + rest;
    lemma_pow2_pos(k);
    assert(0x10_0000_0000_0000 * g <= x && x < 0x20_0000_0000_0000 * g) by (nonlinear_arith)
        requires
            0x10_0000_0000_0000 <= q,
            q + 1 <= 0x20_0000_0000_0000,
            rest < g,
            x == q * g + rest,
    ;
    lemma_spacing_is_power(x, k);
    lemma_fundamental_div_mod_converse(x as int, g as int, q as int, rest as int);
    assert forall|small: nat| small < 0x20_0000_0000_0000 implies #[trigger] rounded(small)
        == small by {
        lemma_rounded_fixpoint(small);
    }
}

/// Rounding moves a number by one part in 2^53 at most.
pub proof fn law_rounding_is_small(x: nat)
    ensures
        0x20_0000_0000_0000 * (rounded(x) - x) <= x,
        0x20_0000_0000_0000 * (x - rounded(x)) <= x,
{
    lemma_rounded_is_double(x);
    lemma_spacing_range(x);
    let g = spacing(x);
    let up = rounded(x) - x;
    if g != 1 {
        assert(0x20_0000_0000_0000 * up <= x && 0x20_0000_0000_0000 * (-up) <= x)
            by (nonlinear_arith)
            requires
                0x10_0000_0000_0000 * g <= x,
                2 * up <= g,
                -2 * up <= g,
        ;
    } else {
        assert(up == 0);
    }
}

/// `round` rounds, and `Step::between` divides, as doubles do: the step is
/// `units / 2^bits`, with `units` of 53 bits, no more than half a unit off
/// the quotient of the rates, and even where it is just half a unit off.
pub proof fn law_doubles_are_computed(
    x: u128,
    r: u128,
    in_rate: u32,
    out_rate: u32,
    step: Step,
)
    requires
        call_ensures(round, (x,), r),
        call_ensures(Step::between, (in_rate, out_rate), step),
    ensures
        r == rounded(x as nat),
        step.scale == pow2(step.bits as nat),
        0x10_0000_0000_0000 <= step.units <= 0x20_0000_0000_0000,
        0x10_0000_0000_0000 * out_rate <= in_rate * step.scale,
        in_rate * step.scale < 0x20_0000_0000_0000 * out_rate,
        2 * (step.units * out_rate - in_rate * step.scale) <= out_rate,
        2 * (in_rate * step.scale - step.units * out_rate) <= out_rate,
        2 * (step.units * out_rate - in_rate * step.scale) == out_rate ==> step.units % 2 == 0,
        2 * (in_rate * step.scale - step.units * out_rate) == out_rate ==> step.units % 2 == 0,
{
}

} // verus!
