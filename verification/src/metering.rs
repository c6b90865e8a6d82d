//! The level meter: how often, and over what, a listener hears of the levels.
use vstd::prelude::*;
use crate::fold::{are_running_sums, is_sum, sum};
use crate::FrameEvent;

verus! {

/// A meter needs ten levels a second, the loop ticks a hundred times.
pub const LEVEL_EMIT_INTERVAL_MS: u128 = 100;

/// A level has moved when it differs by this many thousandths from the one
/// last emitted.
pub const RMS_DEDUPE_THOUSANDTHS: u32 = 5;

/// `r` is the RMS level of the samples, where `add_square` adds the square
/// of a sample to a sum and `root_mean` makes a level of the sum of `n`
/// squares. No samples are silent.
pub open spec fn is_rms<T, S, L, A: Fn(S, T) -> S, M: Fn(S, usize) -> L>(
    samples: Seq<T>,
    zero: S,
    silence: L,
    add_square: A,
    root_mean: M,
    r: L,
) -> bool {
    if samples.len() == 0 {
        r == silence
    } else {
        exists|squares: S| #[trigger]
            is_sum(add_square, zero, samples, squares) && root_mean.ensures(
                (squares, samples.len() as usize),
                r,
            )
    }
}

/// Measures the RMS level of some samples.
pub fn rms<T: Copy, S: Copy, L, A: Fn(S, T) -> S, M: Fn(S, usize) -> L>(
    samples: &[T],
    zero: S,
    silence: L,
    add_square: A,
    root_mean: M,
) -> (r: L)
    requires
        forall|acc: S, sample: T| #[trigger] add_square.requires((acc, sample)),
        forall|squares: S, n: usize| n > 0 ==> #[trigger] root_mean.requires((squares, n)),
    ensures
        is_rms(samples@, zero, silence, add_square, root_mean, r),
{
    let len: usize = samples.len();
    if len == 0 {
        return silence;
    }
    let squares: S = sum(samples, zero, &add_square);
    root_mean(squares, len)
}

/// `level` is what `rms` makes of the samples `frame`.
pub open spec fn is_level<T, L, R: Fn(&[T]) -> L>(rms: R, frame: Seq<T>, level: L) -> bool {
    exists|slice: &[T]| slice@ == frame && #[trigger] rms.ensures((slice,), level)
}

/// The throttle of the level events: ten a second at most, and none that tells
/// nothing new.
pub struct LevelThrottle<L> {
    /// The levels that were emitted last, microphone and loopback.
    pub last: Option<(L, L)>,
    /// When they were emitted.
    pub last_emit_at_ms: u128,
}

impl<L: Copy> LevelThrottle<L> {
    /// A throttle that has let nothing through yet.
    pub fn new() -> (throttle: Self)
        ensures
            throttle.last is None,
            throttle.last_emit_at_ms == 0,
    {
        LevelThrottle { last: None, last_emit_at_ms: 0 }
    }

    /// One offer: what becomes of the throttle, and what it lets through.
    pub open spec fn is_offer<C: Fn(L, L) -> bool>(
        before: Self,
        now_ms: u128,
        mic: L,
        lp: L,
        close: C,
        after: Self,
        r: Option<FrameEvent<L>>,
    ) -> bool {
        &&& match r {
            Some(event) => {
                &&& event == (FrameEvent::Level { mic_rms: mic, loopback_rms: lp })
                &&& after.last == Some((mic, lp))
                &&& after.last_emit_at_ms == now_ms
            },
            None => after == before,
        }
        &&& match before.last {
            None => r is Some,
            Some(last) => {
                &&& now_ms - before.last_emit_at_ms < LEVEL_EMIT_INTERVAL_MS ==> r is None
                &&& now_ms - before.last_emit_at_ms >= LEVEL_EMIT_INTERVAL_MS
                    ==> Self::is_comparison(close, mic, lp, last, r is None)
            },
        }
    }

    /// `close` finds no difference between the new levels and the last ones:
    /// `same` is what it says of the two microphone levels and, where those
    /// are close, of the two loopback levels.
    pub open spec fn is_comparison<C: Fn(L, L) -> bool>(
        close: C,
        mic: L,
        lp: L,
        last: (L, L),
        same: bool,
    ) -> bool {
        ||| !same && close.ensures((mic, last.0), false)
        ||| close.ensures((mic, last.0), true) && close.ensures((lp, last.1), same)
    }

    /// Offers the levels of a frame. The first are always let through, so
    /// that a meter gets a reading at once. After that they are let through
    /// where `LEVEL_EMIT_INTERVAL_MS` has passed since the last ones and one
    /// of the two has moved; `close` tells whether a level is too near to
    /// the one before to count as moved.
    pub fn offer<C: Fn(L, L) -> bool>(&mut self, now_ms: u128, mic: L, lp: L, close: C) -> (r:
        Option<FrameEvent<L>>)
        requires
            old(self).last_emit_at_ms <= now_ms,
            forall|current: L, previous: L| #[trigger] close.requires((current, previous)),
        ensures
            Self::is_offer(*old(self), now_ms, mic, lp, close, *final(self), r),
    {
        if let Some(last) = self.last {
            if now_ms - self.last_emit_at_ms < LEVEL_EMIT_INTERVAL_MS {
                return None;
            }
            if close(mic, last.0) && close(lp, last.1) {
                return None;
            }
        }
        self.last = Some((mic, lp));
        self.last_emit_at_ms = now_ms;
        Some(FrameEvent::Level { mic_rms: mic, loopback_rms: lp })
    }
}

/// The levels of one frame, when they were offered and what came of it.
pub struct Offer<L> {
    pub now_ms: u128,
    pub mic: L,
    pub lp: L,
    pub event: Option<FrameEvent<L>>,
}

/// The offers were made one after the other, the clock never going back, to
/// a throttle that went through the states `throttles`, the first of them fresh.
pub open spec fn is_metering<L: Copy, C: Fn(L, L) -> bool>(
    close: C,
    offers: Seq<Offer<L>>,
    throttles: Seq<LevelThrottle<L>>,
) -> bool {
    &&& throttles.len() == offers.len() + 1
    &&& throttles[0].last is None
    &&& forall|i: int, j: int|
        0 <= i <= j < offers.len() ==> (#[trigger] offers[i]).now_ms <= (#[trigger] offers[j]).now_ms
    &&& forall|i: int|
        0 <= i < offers.len() ==> LevelThrottle::is_offer(
            throttles[i],
            (#[trigger] offers[i]).now_ms,
            offers[i].mic,
            offers[i].lp,
            close,
            throttles[i + 1],
            offers[i].event,
        )
}

/// What the throttle remembers is its latest emission.
proof fn lemma_throttle_remembers<L: Copy, C: Fn(L, L) -> bool>(
    close: C,
    offers: Seq<Offer<L>>,
    throttles: Seq<LevelThrottle<L>>,
    i: int,
    n: int,
)
    requires
        is_metering(close, offers, throttles),
        0 <= i < n <= offers.len(),
        offers[i].event is Some,
    ensures
        throttles[n].last is Some,
        throttles[n].last_emit_at_ms >= offers[i].now_ms,
        (forall|k: int| i < k < n ==> (#[trigger] offers[k]).event is None) ==> throttles[n].last == Some(
            (offers[i].mic, offers[i].lp),
        ) && throttles[n].last_emit_at_ms == offers[i].now_ms,
    decreases n,
{
    let m = n - 1;
    assert(LevelThrottle::is_offer(
        throttles[m],
        offers[m].now_ms,
        offers[m].mic,
        offers[m].lp,
        close,
        throttles[m + 1],
        offers[m].event,
    ));
    if i < m {
        lemma_throttle_remembers(close, offers, throttles, i, m);
        assert(offers[i].now_ms <= offers[m].now_ms);
    }
}

/// A listener hears of the levels ten times a second at most: two emissions
/// are `LEVEL_EMIT_INTERVAL_MS` apart or more.
pub proof fn law_levels_are_throttled<L: Copy, C: Fn(L, L) -> bool>(
    close: C,
    offers: Seq<Offer<L>>,
    throttles: Seq<LevelThrottle<L>>,
    i: int,
    j: int,
)
    requires
        is_metering(close, offers, throttles),
        0 <= i < j < offers.len(),
        offers[i].event is Some,
        offers[j].event is Some,
    ensures
        offers[j].now_ms - offers[i].now_ms >= LEVEL_EMIT_INTERVAL_MS,
{
    lemma_throttle_remembers(close, offers, throttles, i, j);
    assert(LevelThrottle::is_offer(
        throttles[j],
        offers[j].now_ms,
        offers[j].mic,
        offers[j].lp,
        close,
        throttles[j + 1],
        offers[j].event,
    ));
}

/// The first levels of a capture are always emitted, so that a meter gets a
/// reading at once.
pub proof fn law_first_levels_are_emitted<L: Copy, C: Fn(L, L) -> bool>(
    close: C,
    offers: Seq<Offer<L>>,
    throttles: Seq<LevelThrottle<L>>,
)
    requires
        is_metering(close, offers, throttles),
        offers.len() > 0,
    ensures
        offers[0].event == Some(
            FrameEvent::Level { mic_rms: offers[0].mic, loopback_rms: offers[0].lp },
        ),
{
    assert(offers[0].now_ms <= offers[0].now_ms);
}

/// Levels that have not moved are not emitted twice: of two emissions with
/// none between, `close` has told a level of the later from that of the
/// earlier.
pub proof fn law_emitted_levels_have_moved<L: Copy, C: Fn(L, L) -> bool>(
    close: C,
    offers: Seq<Offer<L>>,
    throttles: Seq<LevelThrottle<L>>,
    i: int,
    j: int,
)
    requires
        is_metering(close, offers, throttles),
        0 <= i < j < offers.len(),
        offers[i].event is Some,
        offers[j].event is Some,
        forall|k: int| i < k < j ==> (#[trigger] offers[k]).event is None,
    ensures
        close.ensures((offers[j].mic, offers[i].mic), false) || close.ensures(
            (offers[j].lp, offers[i].lp),
            false,
        ),
{
    lemma_throttle_remembers(close, offers, throttles, i, j);
    law_levels_are_throttled(close, offers, throttles, i, j);
    assert(LevelThrottle::is_offer(
        throttles[j],
        offers[j].now_ms,
        offers[j].mic,
        offers[j].lp,
        close,
        throttles[j + 1],
        offers[j].event,
    ));
}

/// Levels that have moved are not kept back for longer than the interval:
/// where `LEVEL_EMIT_INTERVAL_MS` has passed since the last emission and
/// `close` tells one of them from what was emitted, they are emitted.
pub proof fn law_moved_levels_are_emitted<L: Copy, C: Fn(L, L) -> bool>(
    close: C,
    offers: Seq<Offer<L>>,
    throttles: Seq<LevelThrottle<L>>,
    i: int,
    j: int,
)
    requires
        is_metering(close, offers, throttles),
        0 <= i < j < offers.len(),
        offers[i].event is Some,
        forall|k: int| i < k < j ==> (#[trigger] offers[k]).event is None,
        offers[j].now_ms - offers[i].now_ms >= LEVEL_EMIT_INTERVAL_MS,
        !close.ensures((offers[j].mic, offers[i].mic), true) || !close.ensures(
            (offers[j].lp, offers[i].lp),
            true,
        ),
    ensures
        offers[j].event == Some(
            FrameEvent::Level { mic_rms: offers[j].mic, loopback_rms: offers[j].lp },
        ),
{
    lemma_throttle_remembers(close, offers, throttles, i, j);
    assert(LevelThrottle::is_offer(
        throttles[j],
        offers[j].now_ms,
        offers[j].mic,
        offers[j].lp,
        close,
        throttles[j + 1],
        offers[j].event,
    ));
}

/// What the throttle does with the levels of a frame, in full: `close` is
/// asked of the loopback level only where the microphone level has not moved.
/// The levels are emitted, and remembered with their time, if they are the first, or if
/// 100 ms have passed since the last emission and one of them has moved;
/// else nothing is emitted and nothing changes.
pub proof fn law_offer_in_full<L: Copy, C: Fn(L, L) -> bool>(
    before: LevelThrottle<L>,
    now_ms: u128,
    mic: L,
    lp: L,
    close: C,
    after: LevelThrottle<L>,
    r: Option<FrameEvent<L>>,
)
    requires
        LevelThrottle::is_offer(before, now_ms, mic, lp, close, after, r),
    ensures
        before.last is None ==> r is Some,
        before.last is Some && now_ms < before.last_emit_at_ms + 100 ==> r is None,
        before.last is Some && now_ms >= before.last_emit_at_ms + 100 && r is None
            ==> close.ensures((mic, (before.last->0).0), true) && close.ensures(
            (lp, (before.last->0).1),
            true,
        ),
        before.last is Some && now_ms >= before.last_emit_at_ms + 100 && r is Some
            ==> close.ensures((mic, (before.last->0).0), false) || (close.ensures(
            (mic, (before.last->0).0),
            true,
        ) && close.ensures((lp, (before.last->0).1), false)),
        r is None ==> after == before,
        r matches Some(event) ==> {
            &&& event matches FrameEvent::Level { mic_rms, loopback_rms } && mic_rms == mic
                && loopback_rms == lp
            &&& after.last is Some
            &&& (after.last->0).0 == mic
            &&& (after.last->0).1 == lp
            &&& after.last_emit_at_ms == now_ms
        },
{
}

/// The RMS level, written out: the squares are added one after the other,
/// first to last, each sample once, from `zero`; the level is what
/// `root_mean` makes of their sum and of their number.
pub proof fn law_rms_in_full<T, S, L, A: Fn(S, T) -> S, M: Fn(S, usize) -> L>(
    samples: Seq<T>,
    zero: S,
    silence: L,
    add_square: A,
    root_mean: M,
    r: L,
)
    requires
        is_rms(samples, zero, silence, add_square, root_mean, r),
        samples.len() <= usize::MAX,
    ensures
        samples.len() == 0 ==> r == silence,
        samples.len() > 0 ==> exists|sums: Seq<S>|
            {
                &&& #[trigger] sums.len() == samples.len() + 1
                &&& sums[0] == zero
                &&& forall|i: int|
                    0 <= i < samples.len() ==> add_square.ensures(
                        (sums[i], #[trigger] samples[i]),
                        sums[i + 1],
                    )
                &&& root_mean.ensures((sums[samples.len() as int], samples.len() as usize), r)
            },
{
    if samples.len() > 0 {
        let squares = choose|squares: S| #[trigger]
            is_sum(add_square, zero, samples, squares) && root_mean.ensures(
                (squares, samples.len() as usize),
                r,
            );
        let sums = choose|sums: Seq<S>| #[trigger]
            are_running_sums(add_square, zero, samples, sums) && squares == sums.last();
        assert(sums.len() == samples.len() + 1);
    }
}

/// `rms` measures the level that `law_rms_in_full` speaks of, and a fresh
/// throttle has let nothing through.
pub proof fn law_rms_is_measured<
    T: Copy,
    S: Copy,
    L: Copy,
    A: Fn(S, T) -> S,
    M: Fn(S, usize) -> L,
>(
    samples: &[T],
    zero: S,
    silence: L,
    add_square: A,
    root_mean: M,
    r: L,
    throttle: LevelThrottle<L>,
)
    requires
        call_ensures(
            rms::<T, S, L, A, M>,
            (samples, zero, silence, add_square, root_mean),
            r,
        ),
        call_ensures(LevelThrottle::<L>::new, (), throttle),
    ensures
        is_rms(samples@, zero, silence, add_square, root_mean, r),
        throttle.last is None,
        throttle.last_emit_at_ms == 0,
{
}

/// A call of `offer` is what `law_offer_in_full` speaks of.
pub proof fn law_levels_are_offered_by_calls<L: Copy, C: Fn(L, L) -> bool>(
    throttle: &mut LevelThrottle<L>,
    now_ms: u128,
    mic: L,
    lp: L,
    close: C,
    r: Option<FrameEvent<L>>,
)
    requires
        call_ensures(LevelThrottle::<L>::offer::<C>, (throttle, now_ms, mic, lp, close), r),
    ensures
        LevelThrottle::is_offer(*old(throttle), now_ms, mic, lp, close, *final(throttle), r),
{
}

} // verus!
