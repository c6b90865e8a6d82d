//! Sums in order: with rounded arithmetic the order of a sum is part of its
//! result.
use vstd::prelude::*;

verus! {

/// `sums` are the running sums of the items, first to last, from `zero`:
/// each is what `plus` makes of the one before and an item.
pub open spec fn are_running_sums<S, T, P: Fn(S, T) -> S>(
    plus: P,
    zero: S,
    items: Seq<T>,
    sums: Seq<S>,
) -> bool {
    &&& sums.len() == items.len() + 1
    &&& sums[0] == zero
    &&& forall|i: int|
        0 <= i < items.len() ==> plus.ensures((sums[i], #[trigger] items[i]), sums[i + 1])
}

/// `r` is the sum of the items, first to last, from `zero`.
pub open spec fn is_sum<S, T, P: Fn(S, T) -> S>(plus: P, zero: S, items: Seq<T>, r: S) -> bool {
    exists|sums: Seq<S>| #[trigger] are_running_sums(plus, zero, items, sums) && r == sums.last()
}

/// Sums the items, first to last.
pub fn sum<S: Copy, T: Copy, P: Fn(S, T) -> S>(items: &[T], zero: S, plus: &P) -> (r: S)
    requires
        forall|acc: S, item: T| #[trigger] plus.requires((acc, item)),
    ensures
        is_sum(*plus, zero, items@, r),
{
    let len: usize = items.len();
    let ghost mut sums: Seq<S> = seq![zero];
    let mut acc: S = zero;
    let mut i: usize = 0;
    while i < len
        invariant
            i <= len,
            len == items@.len(),
            sums.len() == i + 1,
            sums[0] == zero,
            sums.last() == acc,
            forall|acc: S, item: T| #[trigger] plus.requires((acc, item)),
            forall|k: int|
                0 <= k < i ==> plus.ensures((sums[k], #[trigger] items@[k]), sums[k + 1]),
        decreases len - i,
    {
        let ghost before = sums;
        acc = plus(acc, items[i]);
        proof {
            sums = sums.push(acc);
            assert forall|k: int| 0 <= k < i + 1 implies plus.ensures(
                (sums[k], #[trigger] items@[k]),
                sums[k + 1],
            ) by {
                if k < i {
                    assert(sums[k + 1] == before[k + 1]);
                }
            }
        }
        i = i + 1;
    }
    proof {
        assert(are_running_sums(*plus, zero, items@, sums));
    }
    acc
}

/// A sum, item by item: each item is added once, first to last, from `zero`.
/// The running sums are returned.
pub proof fn law_sum_item_by_item<S: Copy, T: Copy, P: Fn(S, T) -> S>(
    items: &[T],
    zero: S,
    plus: &P,
    r: S,
) -> (sums: Seq<S>)
    requires
        call_ensures(sum::<S, T, P>, (items, zero, plus), r),
    ensures
        sums.len() == items@.len() + 1,
        sums[0] == zero,
        forall|i: int|
            0 <= i < items@.len() ==> plus.ensures((sums[i], #[trigger] items@[i]), sums[i + 1]),
        sums[items@.len() as int] == r,
{
    choose|sums: Seq<S>| #[trigger]
        are_running_sums(*plus, zero, items@, sums) && r == sums.last()
}

} // verus!
