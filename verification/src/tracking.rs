//! The filter's state over all lanes at once, and the facts that let each
//! of its operations go ahead.

use crate::kernel::{blurred, weight_mass};
use crate::stream::{
    lane_bounded, lemma_advance, lemma_consume, lemma_sum_cutoff,
    lemma_tracked_within, tracks, within,
};
use crate::value::{
    all_within, bounded, divided, filtered, lane, minus, plus, roomy, scaled, StackBlurrable,
};
use vstd::prelude::*;

verus! {

/// In every lane, `sum`, `rate` and `ring` are the running state `center`
/// outputs into `items`, of which `upto` have been read.
pub(crate) open spec fn all_track<T: StackBlurrable>(
    items: Seq<T>,
    radius: nat,
    center: int,
    upto: nat,
    sum: Seq<int>,
    rate: Seq<int>,
    ring: Seq<T>,
) -> bool {
    forall|k: int|
        0 <= k < T::lane_count() ==> tracks(
            #[trigger] lane(items, k),
            radius,
            center,
            upto,
            sum[k],
            rate[k],
            lane(ring, k),
        )
}

pub(crate) proof fn lemma_lane_bounded<T: StackBlurrable>(items: Seq<T>, k: int, bound: nat)
    requires
        bounded(items, bound),
        0 <= k < T::lane_count(),
    ensures
        lane_bounded(lane(items, k), bound),
{
    assert forall|j: int| 0 <= j < lane(items, k).len() implies -bound <= #[trigger] lane(
        items,
        k,
    )[j] <= bound by {
        assert(lane(items, k)[j] == items[j].lanes()[k]);
    }
}

/// A ring of zeros and zero sums are the state before anything is read.
pub(crate) proof fn lemma_start_tracks<T: StackBlurrable>(
    items: Seq<T>,
    radius: nat,
    sum: T,
    rate: T,
    ring: Seq<T>,
)
    requires
        sum.lanes() == Seq::new(T::lane_count(), |k: int| 0int),
        rate.lanes() == Seq::new(T::lane_count(), |k: int| 0int),
        ring.len() == 2 * radius + 2,
        forall|m: int|
            0 <= m < ring.len() ==> (#[trigger] ring[m]).lanes() == Seq::new(
                T::lane_count(),
                |k: int| 0int,
            ),
    ensures
        all_track(items, radius, 0, 0, sum.lanes(), rate.lanes(), ring),
{
}

/// Taking the oldest correction into the rate, and the rate into the sum,
/// keeps every lane in range.
pub(crate) proof fn lemma_shift_fits<T: StackBlurrable>(
    items: Seq<T>,
    radius: nat,
    center: int,
    upto: nat,
    bound: nat,
    sum: T,
    rate: T,
    ring: Seq<T>,
)
    requires
        all_track(items, radius, center, upto, sum.lanes(), rate.lanes(), ring),
        bounded(items, bound),
        roomy(items.len(), radius, bound, T::limit()),
        0 <= center < items.len(),
        upto <= items.len(),
        upto <= center + radius + 1,
        ring.len() == 2 * radius + 2,
    ensures
        all_within(plus(rate.lanes(), ring[0].lanes()), T::limit()),
        all_within(plus(sum.lanes(), plus(rate.lanes(), ring[0].lanes())), T::limit()),
{
    sum.lemma_lane_count();
    rate.lemma_lane_count();
    ring[0].lemma_lane_count();
    let next_rate = plus(rate.lanes(), ring[0].lanes());
    let next_sum = plus(sum.lanes(), next_rate);
    assert forall|k: int| 0 <= k < T::lane_count() implies within(
        #[trigger] next_rate[k],
        T::limit(),
    ) && within(next_sum[k], T::limit()) by {
        let l = lane(items, k);
        let old_ring = lane(ring, k);
        assert(old_ring[0] == ring[0].lanes()[k]);
        lemma_lane_bounded(items, k, bound);
        lemma_advance(l, radius, center, upto, sum.lanes()[k], rate.lanes()[k], old_ring);
        lemma_tracked_within(
            l,
            radius,
            center + 1,
            upto,
            bound,
            T::limit(),
            sum.lanes()[k] + (rate.lanes()[k] + old_ring[0]),
            rate.lanes()[k] + old_ring[0],
            old_ring.subrange(1, old_ring.len() as int).push(0),
        );
    }
    assert forall|k: int| 0 <= k < next_sum.len() implies -T::limit() <= #[trigger] next_sum[k]
        <= T::limit() by {
        assert(within(next_rate[k], T::limit()));
    }
}

/// After that step the state is that of the next centre.
pub(crate) proof fn lemma_shift_tracks<T: StackBlurrable>(
    items: Seq<T>,
    radius: nat,
    center: int,
    upto: nat,
    sum: T,
    rate: T,
    ring: Seq<T>,
    next_sum: T,
    next_rate: T,
    next_ring: Seq<T>,
)
    requires
        all_track(items, radius, center, upto, sum.lanes(), rate.lanes(), ring),
        upto <= center + radius + 1,
        ring.len() == 2 * radius + 2,
        next_rate.lanes() == plus(rate.lanes(), ring[0].lanes()),
        next_sum.lanes() == plus(sum.lanes(), next_rate.lanes()),
        next_ring.len() == ring.len(),
        forall|m: int| 0 <= m < ring.len() - 1 ==> next_ring[m] == ring[m + 1],
        next_ring[ring.len() - 1].lanes() == Seq::new(T::lane_count(), |k: int| 0int),
    ensures
        all_track(items, radius, center + 1, upto, next_sum.lanes(), next_rate.lanes(), next_ring),
{
    sum.lemma_lane_count();
    rate.lemma_lane_count();
    ring[0].lemma_lane_count();
    assert forall|k: int| 0 <= k < T::lane_count() implies tracks(
        #[trigger] lane(items, k),
        radius,
        center + 1,
        upto,
        next_sum.lanes()[k],
        next_rate.lanes()[k],
        lane(next_ring, k),
    ) by {
        let l = lane(items, k);
        let old_ring = lane(ring, k);
        assert(old_ring[0] == ring[0].lanes()[k]);
        lemma_advance(l, radius, center, upto, sum.lanes()[k], rate.lanes()[k], old_ring);
        assert(lane(next_ring, k) =~= old_ring.subrange(1, old_ring.len() as int).push(0));
    }
}

/// Folding the next item into the state keeps every lane in range, at each
/// of the operations that it takes.
pub(crate) proof fn lemma_take_fits<T: StackBlurrable>(
    items: Seq<T>,
    radius: nat,
    center: int,
    upto: nat,
    bound: nat,
    sum: T,
    rate: T,
    ring: Seq<T>,
)
    requires
        all_track(items, radius, center, upto, sum.lanes(), rate.lanes(), ring),
        bounded(items, bound),
        bound >= 1,
        roomy(items.len(), radius, bound, T::limit()),
        0 <= center,
        0 <= upto - center <= radius,
        upto < items.len(),
        ring.len() == 2 * radius + 2,
    ensures
        2 <= T::limit(),
        radius + 1 - (upto - center) <= T::limit(),
        all_within(scaled(items[upto as int].lanes(), radius + 1 - (upto - center)), T::limit()),
        all_within(
            plus(sum.lanes(), scaled(items[upto as int].lanes(), radius + 1 - (upto - center))),
            T::limit(),
        ),
        all_within(plus(rate.lanes(), items[upto as int].lanes()), T::limit()),
        all_within(scaled(items[upto as int].lanes(), 2), T::limit()),
        all_within(
            minus(ring[upto - center].lanes(), scaled(items[upto as int].lanes(), 2)),
            T::limit(),
        ),
        all_within(
            plus(ring[upto - center + radius + 1].lanes(), items[upto as int].lanes()),
            T::limit(),
        ),
{
    let x = items[upto as int];
    let e = upto - center;
    let w = radius + 1 - e;
    let b = bound as int;
    let cap = T::limit();
    sum.lemma_lane_count();
    rate.lemma_lane_count();
    x.lemma_lane_count();
    ring[e].lemma_lane_count();
    ring[e + radius + 1].lemma_lane_count();
    assert(w <= b * (radius + 1) && b * w <= b * (radius + 1)) by (nonlinear_arith)
        requires
            b >= 1,
            0 <= w <= radius + 1,
    ;
    let weighted = scaled(x.lanes(), w);
    let doubled = scaled(x.lanes(), 2);
    let next_sum = plus(sum.lanes(), weighted);
    let next_rate = plus(rate.lanes(), x.lanes());
    let behind = minus(ring[e].lanes(), doubled);
    let ahead = plus(ring[e + radius + 1].lanes(), x.lanes());
    assert forall|k: int| 0 <= k < T::lane_count() implies within(#[trigger] weighted[k], cap)
        && within(next_sum[k], cap) && within(next_rate[k], cap) && within(doubled[k], cap)
        && within(behind[k], cap) && within(ahead[k], cap) by {
        let l = lane(items, k);
        let old_ring = lane(ring, k);
        let v = x.lanes()[k];
        assert(l[upto as int] == v);
        assert(-b <= v <= b);
        assert(-(b * w) <= v * w <= b * w) by (nonlinear_arith)
            requires
                -b <= v <= b,
                0 <= w,
        ;
        assert(old_ring[e] == ring[e].lanes()[k]);
        assert(old_ring[e + radius + 1] == ring[e + radius + 1].lanes()[k]);
        lemma_lane_bounded(items, k, bound);
        lemma_consume(l, radius, center, upto, sum.lanes()[k], rate.lanes()[k], old_ring);
        let new_ring = old_ring.update(e, old_ring[e] - 2 * v).update(
            e + radius + 1,
            old_ring[e + radius + 1] + v,
        );
        lemma_tracked_within(
            l,
            radius,
            center,
            upto + 1,
            bound,
            cap,
            sum.lanes()[k] + v * w,
            rate.lanes()[k] + v,
            new_ring,
        );
        assert(new_ring[e] == old_ring[e] - 2 * v);
        assert(new_ring[e + radius + 1] == old_ring[e + radius + 1] + v);
    }
    assert forall|k: int| 0 <= k < next_sum.len() implies -cap <= #[trigger] next_sum[k]
        <= cap by {
        assert(within(weighted[k], cap));
    }
    assert forall|k: int| 0 <= k < next_rate.len() implies -cap <= #[trigger] next_rate[k]
        <= cap by {
        assert(within(weighted[k], cap));
    }
    assert forall|k: int| 0 <= k < doubled.len() implies -cap <= #[trigger] doubled[k] <= cap by {
        assert(within(weighted[k], cap));
    }
    assert forall|k: int| 0 <= k < behind.len() implies -cap <= #[trigger] behind[k] <= cap by {
        assert(within(weighted[k], cap));
    }
    assert forall|k: int| 0 <= k < ahead.len() implies -cap <= #[trigger] ahead[k] <= cap by {
        assert(within(weighted[k], cap));
    }
}

/// After the item is folded in, the state is that of one more item read.
pub(crate) proof fn lemma_take_tracks<T: StackBlurrable>(
    items: Seq<T>,
    radius: nat,
    center: int,
    upto: nat,
    sum: T,
    rate: T,
    ring: Seq<T>,
    next_sum: T,
    next_rate: T,
    next_ring: Seq<T>,
)
    requires
        all_track(items, radius, center, upto, sum.lanes(), rate.lanes(), ring),
        0 <= upto - center <= radius,
        upto < items.len(),
        ring.len() == 2 * radius + 2,
        next_sum.lanes() == plus(
            sum.lanes(),
            scaled(items[upto as int].lanes(), radius + 1 - (upto - center)),
        ),
        next_rate.lanes() == plus(rate.lanes(), items[upto as int].lanes()),
        next_ring.len() == ring.len(),
        next_ring[upto - center].lanes() == minus(
            ring[upto - center].lanes(),
            scaled(items[upto as int].lanes(), 2),
        ),
        next_ring[upto - center + radius + 1].lanes() == plus(
            ring[upto - center + radius + 1].lanes(),
            items[upto as int].lanes(),
        ),
        forall|m: int|
            0 <= m < ring.len() && m != upto - center && m != upto - center + radius + 1
                ==> next_ring[m] == ring[m],
    ensures
        all_track(items, radius, center, upto + 1, next_sum.lanes(), next_rate.lanes(), next_ring),
{
    let x = items[upto as int];
    let e = upto - center;
    sum.lemma_lane_count();
    rate.lemma_lane_count();
    x.lemma_lane_count();
    ring[e].lemma_lane_count();
    ring[e + radius + 1].lemma_lane_count();
    assert forall|k: int| 0 <= k < T::lane_count() implies tracks(
        #[trigger] lane(items, k),
        radius,
        center,
        upto + 1,
        next_sum.lanes()[k],
        next_rate.lanes()[k],
        lane(next_ring, k),
    ) by {
        let l = lane(items, k);
        let old_ring = lane(ring, k);
        let v = x.lanes()[k];
        assert(l[upto as int] == v);
        assert(old_ring[e] == ring[e].lanes()[k]);
        assert(old_ring[e + radius + 1] == ring[e + radius + 1].lanes()[k]);
        lemma_consume(l, radius, center, upto, sum.lanes()[k], rate.lanes()[k], old_ring);
        let new_ring = old_ring.update(e, old_ring[e] - 2 * v).update(
            e + radius + 1,
            old_ring[e + radius + 1] + v,
        );
        assert(lane(next_ring, k) =~= new_ring) by {
            assert forall|m: int| 0 <= m < new_ring.len() implies lane(next_ring, k)[m]
                == new_ring[m] by {
                if m != e && m != e + radius + 1 {
                    assert(next_ring[m] == ring[m]);
                    assert(old_ring[m] == ring[m].lanes()[k]);
                }
            }
        }
    }
}

/// Dividing the sum by the weight inside the sequence gives the blurred
/// value at the centre, once everything within `radius` of it is read.
pub(crate) proof fn lemma_output<T: StackBlurrable>(
    items: Seq<T>,
    radius: nat,
    center: int,
    upto: nat,
    sum: T,
    rate: T,
    ring: Seq<T>,
    dnom: nat,
    out: T,
)
    requires
        all_track(items, radius, center, upto, sum.lanes(), rate.lanes(), ring),
        0 <= center < items.len(),
        upto <= items.len(),
        upto == items.len() || center + radius + 1 <= upto,
        dnom == weight_mass(items.len(), radius, center),
        out.lanes() == divided(sum.lanes(), dnom as int),
    ensures
        out.lanes() == filtered(items, radius, center),
{
    sum.lemma_lane_count();
    assert forall|k: int| 0 <= k < T::lane_count() implies out.lanes()[k] == blurred(
        lane(items, k),
        radius,
        center,
    ) by {
        let l = lane(items, k);
        if upto < items.len() {
            lemma_sum_cutoff(l, radius, center, upto, items.len());
        }
    }
    assert(out.lanes() =~= filtered(items, radius, center));
}

} // verus!
