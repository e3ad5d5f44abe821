//! The triangular kernel and the averages it defines, as mathematics.

use crate::mass::{lemma_cumulative_at_most, lemma_mass_closed, lemma_mass_inside, lemma_ramp_closed};
use vstd::prelude::*;

verus! {

/// Triangular weight of a sample `offset` positions away from the centre:
/// `radius + 1` at the centre, falling by one per position, zero beyond
/// `radius`.
pub open spec fn weight(radius: nat, offset: int) -> nat {
    if 0 <= offset <= radius {
        (radius + 1 - offset) as nat
    } else if -radius <= offset < 0 {
        (radius + 1 + offset) as nat
    } else {
        0
    }
}

/// Sum of `weight(radius, j - center) * lane[j]` over the first `upto`
/// samples of `lane`.
pub open spec fn weighted_sum(lane: Seq<int>, radius: nat, center: int, upto: nat) -> int
    decreases upto,
{
    if upto == 0 {
        0
    } else {
        weighted_sum(lane, radius, center, (upto - 1) as nat) + weight(
            radius,
            upto - 1 - center,
        ) * lane[upto - 1]
    }
}

/// Sum of `weight(radius, j - center)` over `0 <= j < count`: the weight that
/// actually falls inside a sequence of `count` samples.
pub open spec fn weight_mass(count: nat, radius: nat, center: int) -> nat
    decreases count,
{
    if count == 0 {
        0
    } else {
        weight_mass((count - 1) as nat, radius, center) + weight(radius, count - 1 - center)
    }
}

/// Quotient rounded toward zero, as machine integers divide.
pub open spec fn quotient(value: int, divisor: int) -> int {
    if value >= 0 {
        value / divisor
    } else {
        -((-value) / divisor)
    }
}

/// The blurred sample at `index`: the triangular average of the samples
/// within `radius` of it, where weights that fall outside the sequence are
/// dropped from both the sum and the divisor.
pub open spec fn blurred(lane: Seq<int>, radius: nat, index: int) -> int {
    quotient(
        weighted_sum(lane, radius, index, lane.len()),
        weight_mass(lane.len(), radius, index) as int,
    )
}

/// The divisor of every output is positive and never exceeds the kernel's
/// full weight `(radius + 1)^2`.
pub proof fn lemma_weight_mass_bounds(count: nat, radius: nat, index: int)
    requires
        0 <= index < count,
    ensures
        0 < weight_mass(count, radius, index) <= (radius + 1) * (radius + 1),
{
    lemma_mass_inside(count, radius, index);
    lemma_mass_closed(count, radius, index);
    lemma_cumulative_at_most(radius, count - 1 - index);
}

/// Away from both ends of the sequence the divisor is exactly the kernel's
/// full weight `(radius + 1)^2`.
pub proof fn lemma_weight_mass_steady(count: nat, radius: nat, index: int)
    requires
        radius <= index,
        index + radius < count,
    ensures
        weight_mass(count, radius, index) == (radius + 1) * (radius + 1),
{
    let r = radius as int;
    lemma_mass_inside(count, radius, index);
    lemma_ramp_closed(radius, radius);
    assert(r + 1 + r * (2 * r + 1 - r) == (r + 1) * (r + 1)) by (nonlinear_arith);
}

proof fn lemma_sum_radius_zero(lane: Seq<int>, center: int, upto: nat)
    ensures
        weighted_sum(lane, 0, center, upto) == if 0 <= center < upto {
            lane[center]
        } else {
            0
        },
    decreases upto,
{
    if upto > 0 {
        lemma_sum_radius_zero(lane, center, (upto - 1) as nat);
        let w = weight(0, upto - 1 - center) as int;
        let x = lane[upto - 1];
        assert(w * x == if upto - 1 == center {
            x
        } else {
            0
        }) by (nonlinear_arith)
            requires
                w == if upto - 1 == center {
                    1int
                } else {
                    0int
                },
        ;
    }
}

proof fn lemma_sum_constant(lane: Seq<int>, radius: nat, center: int, upto: nat, value: int)
    requires
        upto <= lane.len(),
        forall|j: int| 0 <= j < upto ==> lane[j] == value,
    ensures
        weighted_sum(lane, radius, center, upto) == value * weight_mass(upto, radius, center),
    decreases upto,
{
    if upto == 0 {
        assert(value * 0 == 0) by (nonlinear_arith);
    } else {
        lemma_sum_constant(lane, radius, center, (upto - 1) as nat, value);
        let before = weight_mass((upto - 1) as nat, radius, center) as int;
        let w = weight(radius, upto - 1 - center) as int;
        assert(value * before + w * value == value * (before + w)) by (nonlinear_arith);
    }
}

/// A whole multiple of the divisor divides back exactly, whatever its sign.
pub proof fn lemma_quotient_of_multiple(value: int, divisor: int)
    requires
        divisor > 0,
    ensures
        quotient(value * divisor, divisor) == value,
{
    if value >= 0 {
        assert(value * divisor >= 0) by (nonlinear_arith)
            requires
                value >= 0,
                divisor > 0,
        ;
        vstd::arithmetic::div_mod::lemma_div_multiples_vanish(value, divisor);
        assert(value * divisor == divisor * value) by (nonlinear_arith);
    } else {
        assert(value * divisor < 0 && -(value * divisor) == divisor * (-value)) by (nonlinear_arith)
            requires
                value < 0,
                divisor > 0,
        ;
        vstd::arithmetic::div_mod::lemma_div_multiples_vanish(-value, divisor);
    }
}

/// With radius 0 every sample is its own average: the filter changes
/// nothing.
pub proof fn lemma_radius_zero_is_identity(lane: Seq<int>, index: int)
    requires
        0 <= index < lane.len(),
    ensures
        blurred(lane, 0, index) == lane[index],
{
    lemma_sum_radius_zero(lane, index, lane.len());
    lemma_mass_inside(lane.len(), 0, index);
    assert(weight_mass(lane.len(), 0, index) == 1);
    let x = lane[index];
    assert(quotient(x, 1) == x);
}

/// Where all samples are equal, the average at every position is that same
/// value: dropping weights at the ends changes the sum and the divisor
/// alike.
pub proof fn lemma_constant_is_fixed(lane: Seq<int>, radius: nat, index: int, value: int)
    requires
        0 <= index < lane.len(),
        forall|j: int| 0 <= j < lane.len() ==> lane[j] == value,
    ensures
        blurred(lane, radius, index) == value,
{
    lemma_sum_constant(lane, radius, index, lane.len(), value);
    lemma_weight_mass_bounds(lane.len(), radius, index);
    lemma_quotient_of_multiple(value, weight_mass(lane.len(), radius, index) as int);
}

proof fn lemma_sum_is_local(a: Seq<int>, b: Seq<int>, radius: nat, center: int, upto: nat)
    requires
        upto <= a.len(),
        upto <= b.len(),
        forall|j: int| 0 <= j < upto && center - radius <= j <= center + radius ==> a[j] == b[j],
    ensures
        weighted_sum(a, radius, center, upto) == weighted_sum(b, radius, center, upto),
    decreases upto,
{
    if upto > 0 {
        lemma_sum_is_local(a, b, radius, center, (upto - 1) as nat);
        let w = weight(radius, upto - 1 - center) as int;
        if w == 0 {
            assert(w * a[upto - 1] == w * b[upto - 1]) by (nonlinear_arith)
                requires
                    w == 0,
            ;
        }
    }
}

/// An output depends on no sample further than `radius` from it.
pub proof fn lemma_blurred_is_local(a: Seq<int>, b: Seq<int>, radius: nat, index: int)
    requires
        a.len() == b.len(),
        forall|j: int|
            0 <= j < a.len() && index - radius <= j <= index + radius ==> a[j] == b[j],
    ensures
        blurred(a, radius, index) == blurred(b, radius, index),
{
    lemma_sum_is_local(a, b, radius, index, a.len());
}

} // verus!
