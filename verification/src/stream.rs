//! The running sums that the streaming filter keeps, and how they move when
//! the window advances or a sample enters it.

use crate::kernel::{lemma_weight_mass_steady, weight, weight_mass, weighted_sum};
use crate::mass::{
    lemma_mass_inside, lemma_mass_monotone, lemma_mass_past_end, lemma_ramp_at_least,
};
use crate::value::roomy;
use vstd::prelude::*;

verus! {

/// How much the weight of a sample at `offset` changes when the centre moves
/// one position toward it: `weight(offset) - weight(offset + 1)`.
pub(crate) open spec fn slope(radius: nat, offset: int) -> int {
    if 0 <= offset <= radius {
        1
    } else if -radius - 1 <= offset < 0 {
        -1
    } else {
        0
    }
}

/// Sum of `slope(radius, j - center) * lane[j]` over the first `upto`
/// samples.
pub(crate) open spec fn slope_sum(lane: Seq<int>, radius: nat, center: int, upto: nat) -> int
    decreases upto,
{
    if upto == 0 {
        0
    } else {
        slope_sum(lane, radius, center, (upto - 1) as nat) + slope(radius, upto - 1 - center)
            * lane[upto - 1]
    }
}

/// The sample at `index` if it is among the first `upto`, else zero.
pub(crate) open spec fn entry(lane: Seq<int>, index: int, upto: nat) -> int {
    if 0 <= index < upto {
        lane[index]
    } else {
        0
    }
}

/// The pending change of the slope sum `ahead` steps from now, as far as the
/// first `upto` samples determine it.
pub(crate) open spec fn correction(lane: Seq<int>, radius: nat, center: int, ahead: int, upto: nat) -> int {
    entry(lane, center + ahead - radius - 1, upto) - 2 * entry(lane, center + ahead, upto)
}

/// Every sample of the lane lies in `[-bound, bound]`.
pub(crate) open spec fn lane_bounded(lane: Seq<int>, bound: nat) -> bool {
    forall|j: int| 0 <= j < lane.len() ==> -bound <= #[trigger] lane[j] <= bound
}

pub(crate) proof fn lemma_sum_advance(lane: Seq<int>, radius: nat, center: int, upto: nat)
    ensures
        weighted_sum(lane, radius, center + 1, upto) == weighted_sum(lane, radius, center, upto)
            + slope_sum(lane, radius, center + 1, upto),
    decreases upto,
{
    if upto > 0 {
        lemma_sum_advance(lane, radius, center, (upto - 1) as nat);
        let x = lane[upto - 1];
        let before = weight(radius, upto - 1 - center) as int;
        let after = weight(radius, upto - 1 - (center + 1)) as int;
        let step = slope(radius, upto - 1 - (center + 1));
        assert(after == before + step);
        assert(after * x == before * x + step * x) by (nonlinear_arith)
            requires
                after == before + step,
        ;
    }
}

pub(crate) proof fn lemma_slope_advance(lane: Seq<int>, radius: nat, center: int, upto: nat)
    ensures
        slope_sum(lane, radius, center + 1, upto) == slope_sum(lane, radius, center, upto)
            + correction(lane, radius, center, 0, upto) + entry(lane, center + radius + 1, upto),
    decreases upto,
{
    if upto > 0 {
        lemma_slope_advance(lane, radius, center, (upto - 1) as nat);
        let j = upto - 1;
        let x = lane[j];
        let before = slope(radius, j - center);
        let after = slope(radius, j - (center + 1));
        let change = after - before;
        assert(after * x == before * x + change * x) by (nonlinear_arith)
            requires
                change == after - before,
        ;
        assert(change == if j == center {
            -2int
        } else if j == center - radius - 1 || j == center + radius + 1 {
            1int
        } else {
            0int
        });
    }
}

/// Samples more than `radius` past the centre carry no weight.
pub(crate) proof fn lemma_sum_cutoff(lane: Seq<int>, radius: nat, center: int, upto: nat, more: nat)
    requires
        center + radius + 1 <= upto <= more,
    ensures
        weighted_sum(lane, radius, center, more) == weighted_sum(lane, radius, center, upto),
    decreases more,
{
    if upto < more {
        lemma_sum_cutoff(lane, radius, center, upto, (more - 1) as nat);
        assert(weight(radius, more - 1 - center) == 0);
        assert(weight(radius, more - 1 - center) * lane[more - 1] == 0) by (nonlinear_arith)
            requires
                weight(radius, more - 1 - center) == 0,
        ;
    }
}

pub(crate) proof fn lemma_mass_cutoff(radius: nat, center: int, upto: nat, more: nat)
    requires
        center + radius + 1 <= upto <= more,
    ensures
        weight_mass(more, radius, center) == weight_mass(upto, radius, center),
    decreases more,
{
    if upto < more {
        lemma_mass_cutoff(radius, center, upto, (more - 1) as nat);
    }
}

/// `value` lies in `[-cap, cap]`.
pub(crate) open spec fn within(value: int, cap: nat) -> bool {
    -cap <= value <= cap
}

/// A weighted sum is no larger than the largest sample times the weight
/// that went into it.
pub(crate) proof fn lemma_sum_bounded(lane: Seq<int>, radius: nat, center: int, upto: nat, bound: nat)
    requires
        lane_bounded(lane, bound),
        upto <= lane.len(),
    ensures
        within(
            weighted_sum(lane, radius, center, upto),
            bound * weight_mass(upto, radius, center),
        ),
    decreases upto,
{
    let b = bound as int;
    let m = weight_mass(upto, radius, center) as int;
    if upto == 0 {
        assert(b * m == 0) by (nonlinear_arith)
            requires
                m == 0,
        ;
    } else {
        lemma_sum_bounded(lane, radius, center, (upto - 1) as nat, bound);
        let x = lane[upto - 1];
        let w = weight(radius, upto - 1 - center) as int;
        let m0 = weight_mass((upto - 1) as nat, radius, center) as int;
        assert(-(b * w) <= w * x <= b * w) by (nonlinear_arith)
            requires
                -b <= x <= b,
                0 <= w,
        ;
        assert(b * m == b * m0 + b * w) by (nonlinear_arith)
            requires
                m == m0 + w,
        ;
    }
}

/// Number of samples among the first `upto` whose slope at `center` is not
/// zero, at most.
pub(crate) open spec fn slope_reach(radius: nat, center: int, upto: nat) -> nat {
    let first = if center - radius - 1 < 0 {
        0
    } else {
        center - radius - 1
    };
    let seen = upto - first;
    if seen < 0 {
        0
    } else if seen > 2 * radius + 2 {
        2 * radius + 2
    } else {
        seen as nat
    }
}

pub(crate) proof fn lemma_slope_bounded(lane: Seq<int>, radius: nat, center: int, upto: nat, bound: nat)
    requires
        lane_bounded(lane, bound),
        upto <= lane.len(),
    ensures
        within(slope_sum(lane, radius, center, upto), bound * slope_reach(radius, center, upto)),
        slope_reach(radius, center, upto) <= upto,
        slope_reach(radius, center, upto) <= 2 * radius + 2,
    decreases upto,
{
    let b = bound as int;
    let n = slope_reach(radius, center, upto) as int;
    if upto == 0 {
        assert(b * n >= 0) by (nonlinear_arith)
            requires
                0 <= b,
                0 <= n,
        ;
    } else {
        lemma_slope_bounded(lane, radius, center, (upto - 1) as nat, bound);
        let x = lane[upto - 1];
        let n0 = slope_reach(radius, center, (upto - 1) as nat) as int;
        let s = slope(radius, upto - 1 - center);
        assert(b * n == b * n0 + b * (n - n0)) by (nonlinear_arith);
        if s == 0 {
            assert(b * (n - n0) >= 0) by (nonlinear_arith)
                requires
                    0 <= b,
                    0 <= n - n0,
            ;
        } else {
            assert(n - n0 == 1);
            assert(b * (n - n0) == b) by (nonlinear_arith)
                requires
                    n - n0 == 1,
            ;
        }
    }
}

/// The filter's running state for one lane, `center` outputs into a
/// sequence of which `upto` samples have been read: the weighted sum, its
/// rate of change, and the ring of corrections that the rate still has to
/// absorb, step by step.
pub(crate) open spec fn tracks(
    lane: Seq<int>,
    radius: nat,
    center: int,
    upto: nat,
    sum: int,
    rate: int,
    ring: Seq<int>,
) -> bool {
    &&& sum == weighted_sum(lane, radius, center, upto)
    &&& rate == slope_sum(lane, radius, center, upto)
    &&& ring.len() == 2 * radius + 2
    &&& forall|ahead: int|
        0 <= ahead < ring.len() ==> #[trigger] ring[ahead] == correction(
            lane,
            radius,
            center,
            ahead,
            upto,
        )
}

/// Reading the next sample, which lies `upto - center` positions ahead of
/// the centre, adds it to the sum with its weight and to the rate once, and
/// leaves two corrections in the ring: the sample doubled and negated where
/// the centre will reach it, and the sample itself where it will leave the
/// window.
pub(crate) proof fn lemma_consume(
    lane: Seq<int>,
    radius: nat,
    center: int,
    upto: nat,
    sum: int,
    rate: int,
    ring: Seq<int>,
)
    requires
        tracks(lane, radius, center, upto, sum, rate, ring),
        0 <= upto - center <= radius,
        upto < lane.len(),
    ensures
        tracks(
            lane,
            radius,
            center,
            upto + 1,
            sum + lane[upto as int] * (radius + 1 - (upto - center)),
            rate + lane[upto as int],
            ring.update(upto - center, ring[upto - center] - 2 * lane[upto as int]).update(
                upto - center + radius + 1,
                ring[upto - center + radius + 1] + lane[upto as int],
            ),
        ),
{
    let x = lane[upto as int];
    let w = weight(radius, upto - center) as int;
    assert(w * x == x * (radius + 1 - (upto - center))) by (nonlinear_arith)
        requires
            w == radius + 1 - (upto - center),
    ;
    assert(slope(radius, upto - center) * x == x);
}

/// Moving the centre one position on, with no sample beyond the window yet
/// read, takes the oldest correction into the rate and the rate into the
/// sum; the ring moves up by one and ends in a zero.
pub(crate) proof fn lemma_advance(
    lane: Seq<int>,
    radius: nat,
    center: int,
    upto: nat,
    sum: int,
    rate: int,
    ring: Seq<int>,
)
    requires
        tracks(lane, radius, center, upto, sum, rate, ring),
        upto <= center + radius + 1,
    ensures
        tracks(
            lane,
            radius,
            center + 1,
            upto,
            sum + (rate + ring[0]),
            rate + ring[0],
            ring.subrange(1, ring.len() as int).push(0),
        ),
{
    lemma_slope_advance(lane, radius, center, upto);
    lemma_sum_advance(lane, radius, center, upto);
    let moved = ring.subrange(1, ring.len() as int).push(0);
    assert forall|ahead: int| 0 <= ahead < moved.len() implies #[trigger] moved[ahead]
        == correction(lane, radius, center + 1, ahead, upto) by {
        if ahead < moved.len() - 1 {
            assert(moved[ahead] == ring[ahead + 1]);
        }
    }
}

/// Where sums over a sequence fit, so does a term for each sample that the
/// slope sum can hold at once.
pub(crate) proof fn lemma_reach_fits(len: nat, radius: nat, bound: nat, limit: nat)
    requires
        roomy(len, radius, bound, limit),
    ensures
        len <= 2 * radius + 2 ==> bound * len <= limit,
        len > 2 * radius + 2 ==> bound * (2 * radius + 2) <= limit,
{
    let b = bound as int;
    let r = radius as int;
    let n = len as int;
    if len == 0 {
        assert(b * n == 0) by (nonlinear_arith)
            requires
                n == 0,
        ;
    } else if radius == 0 {
        assert(b * (2 * r + 2) <= 3 * b && (n <= 2 ==> b * n <= 3 * b)) by (nonlinear_arith)
            requires
                0 <= b,
                0 <= n,
                r == 0,
        ;
    } else if len >= 2 * radius + 1 {
        lemma_weight_mass_steady(len, radius, r);
        let m = weight_mass(len, radius, r) as int;
        assert(m >= 2 * r + 2) by (nonlinear_arith)
            requires
                m == (r + 1) * (r + 1),
                r >= 1,
        ;
        assert(b * (2 * r + 2) <= b * m && (n <= 2 * r + 2 ==> b * n <= b * m))
            by (nonlinear_arith)
            requires
                0 <= b,
                0 <= n,
                m >= 2 * r + 2,
        ;
    } else {
        lemma_mass_inside(len, radius, 0);
        let m = weight_mass(len, radius, 0) as int;
        if len - 1 < radius {
            lemma_ramp_at_least(radius, (len - 1) as nat);
        } else {
            lemma_ramp_at_least(radius, radius);
        }
        assert(m >= n);
        assert(b * n <= b * m) by (nonlinear_arith)
            requires
                0 <= b,
                n <= m,
        ;
    }
}

/// With samples of magnitude at most `bound`, and room for the sums over
/// the whole sequence, nothing the filter keeps for a lane leaves the
/// range.
pub(crate) proof fn lemma_tracked_within(
    lane: Seq<int>,
    radius: nat,
    center: int,
    upto: nat,
    bound: nat,
    limit: nat,
    sum: int,
    rate: int,
    ring: Seq<int>,
)
    requires
        tracks(lane, radius, center, upto, sum, rate, ring),
        lane_bounded(lane, bound),
        upto <= lane.len(),
        0 <= center <= lane.len(),
        roomy(lane.len(), radius, bound, limit),
    ensures
        within(sum, limit),
        within(rate, limit),
        forall|ahead: int| 0 <= ahead < ring.len() ==> within(#[trigger] ring[ahead], limit),
{
    let b = bound as int;
    let len = lane.len();
    lemma_sum_bounded(lane, radius, center, upto, bound);
    lemma_slope_bounded(lane, radius, center, upto, bound);
    lemma_reach_fits(len, radius, bound, limit);
    let m = weight_mass(upto, radius, center) as int;
    if len == 0 {
        assert(b * m == 0) by (nonlinear_arith)
            requires
                m == 0,
        ;
    } else {
        let inside: int = if center < len {
            center
        } else {
            len - 1
        };
        let most = weight_mass(len, radius, inside) as int;
        lemma_mass_monotone(upto, len, radius, center);
        if center == len {
            lemma_mass_past_end(len, radius);
        }
        assert(b * m <= b * most) by (nonlinear_arith)
            requires
                0 <= b,
                m <= most,
        ;
    }
    let n = slope_reach(radius, center, upto) as int;
    let widest: int = if len <= 2 * radius + 2 {
        len as int
    } else {
        2 * (radius as int) + 2
    };
    assert(b * n <= b * widest) by (nonlinear_arith)
        requires
            0 <= b,
            n <= widest,
    ;
    assert forall|ahead: int| 0 <= ahead < ring.len() implies within(
        #[trigger] ring[ahead],
        limit,
    ) by {
        assert(ring[ahead] == correction(lane, radius, center, ahead, upto));
    }
}

} // verus!
