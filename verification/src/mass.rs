//! Closed forms for the weight that falls inside a sequence.

use crate::kernel::{weight, weight_mass};
use vstd::prelude::*;

verus! {

/// Sum of the first `steps` weights on one side of the centre:
/// `radius + (radius - 1) + ...`, `steps` terms.
pub(crate) open spec fn ramp(radius: nat, steps: nat) -> nat
    decreases steps,
{
    if steps == 0 || steps > radius {
        0
    } else {
        (ramp(radius, (steps - 1) as nat) + radius + 1 - steps) as nat
    }
}

/// Sum of `weight(radius, d)` over all offsets `d <= offset`.
pub(crate) open spec fn cumulative(radius: nat, offset: int) -> nat {
    if offset < -radius {
        0
    } else if offset < 0 {
        (ramp(radius, radius) - ramp(radius, (-offset - 1) as nat)) as nat
    } else if offset <= radius {
        radius + 1 + ramp(radius, radius) + ramp(radius, offset as nat)
    } else {
        radius + 1 + ramp(radius, radius) + ramp(radius, radius)
    }
}

pub(crate) proof fn lemma_ramp_closed(radius: nat, steps: nat)
    requires
        steps <= radius,
    ensures
        2 * ramp(radius, steps) == steps * (2 * radius + 1 - steps),
    decreases steps,
{
    let s = steps as int;
    let r = radius as int;
    if steps == 0 {
        assert(s * (2 * r + 1 - s) == 0) by (nonlinear_arith)
            requires
                s == 0,
        ;
    } else {
        lemma_ramp_closed(radius, (steps - 1) as nat);
        assert((s - 1) * (2 * r + 1 - (s - 1)) + 2 * (r + 1 - s) == s * (2 * r + 1 - s))
            by (nonlinear_arith);
    }
}

pub(crate) proof fn lemma_ramp_monotone(radius: nat, fewer: nat, more: nat)
    requires
        fewer <= more <= radius,
    ensures
        ramp(radius, fewer) <= ramp(radius, more),
    decreases more,
{
    if fewer < more {
        lemma_ramp_monotone(radius, fewer, (more - 1) as nat);
    }
}

proof fn lemma_cumulative_step(radius: nat, offset: int)
    ensures
        cumulative(radius, offset) == cumulative(radius, offset - 1) + weight(radius, offset),
{
    if -radius <= offset < 0 {
        lemma_ramp_monotone(radius, (-offset - 1) as nat, radius);
        lemma_ramp_monotone(radius, (-offset) as nat, radius);
    }
}


pub(crate) proof fn lemma_cumulative_at_most(radius: nat, offset: int)
    ensures
        cumulative(radius, offset) <= (radius + 1) * (radius + 1),
        cumulative(radius, offset) <= radius + 1 + 2 * ramp(radius, radius),
{
    let r = radius as int;
    lemma_ramp_closed(radius, radius);
    assert(r + 1 + r * (2 * r + 1 - r) == (r + 1) * (r + 1)) by (nonlinear_arith);
    if -radius <= offset < 0 {
        lemma_ramp_monotone(radius, (-offset - 1) as nat, radius);
    } else if 0 <= offset <= radius {
        lemma_ramp_monotone(radius, offset as nat, radius);
    }
}

/// The weight inside a sequence is the kernel's cumulative weight between
/// the offsets of its first and last sample.
pub(crate) proof fn lemma_mass_closed(count: nat, radius: nat, center: int)
    ensures
        weight_mass(count, radius, center) == cumulative(radius, count - 1 - center) - cumulative(
            radius,
            -1 - center,
        ),
    decreases count,
{
    if count > 0 {
        lemma_mass_closed((count - 1) as nat, radius, center);
        lemma_cumulative_step(radius, count - 1 - center);
    }
}

/// With the centre inside the sequence, the weight is that of the centre
/// plus one ramp toward each end, each cut off where the sequence ends.
pub(crate) proof fn lemma_mass_inside(count: nat, radius: nat, center: int)
    requires
        0 <= center < count,
    ensures
        weight_mass(count, radius, center) == radius + 1 + ramp(
            radius,
            if center < radius {
                center as nat
            } else {
                radius
            },
        ) + ramp(
            radius,
            if count - 1 - center < radius {
                (count - 1 - center) as nat
            } else {
                radius
            },
        ),
{
    lemma_mass_closed(count, radius, center);
    if center < radius {
        lemma_ramp_monotone(radius, center as nat, radius);
    }
}

/// How the weight inside the sequence changes when the centre moves on by
/// one: it gains the new sample on the near side until the near ramp is
/// full, and, once the far end of the window has passed the end of the
/// sequence, loses the weight of the sample that the window no longer
/// reaches.
pub(crate) proof fn lemma_mass_step(count: nat, radius: nat, center: int)
    requires
        0 <= center < count,
    ensures
        ({
            let gained = if center < radius {
                radius - center
            } else {
                0
            };
            let grown = weight_mass(count, radius, center) + gained;
            let ahead = count - 1 - center;
            &&& grown <= (radius + 1) * (radius + 1)
            &&& ahead > radius ==> weight_mass(count, radius, center + 1) == grown
            &&& 0 < ahead <= radius ==> grown >= radius + 1 - ahead && weight_mass(
                count,
                radius,
                center + 1,
            ) == grown - (radius + 1 - ahead)
        }),
{
    let r = radius as int;
    let ahead = count - 1 - center;
    lemma_mass_inside(count, radius, center);
    lemma_ramp_closed(radius, radius);
    assert(r + 1 + r * (2 * r + 1 - r) == (r + 1) * (r + 1)) by (nonlinear_arith);
    if center < radius {
        lemma_ramp_monotone(radius, (center + 1) as nat, radius);
    }
    if ahead < radius {
        lemma_ramp_monotone(radius, ahead as nat, radius);
    }
    if ahead > 0 {
        lemma_mass_inside(count, radius, center + 1);
    }
}

/// More samples carry no less weight.
pub(crate) proof fn lemma_mass_monotone(fewer: nat, more: nat, radius: nat, center: int)
    requires
        fewer <= more,
    ensures
        weight_mass(fewer, radius, center) <= weight_mass(more, radius, center),
    decreases more,
{
    if fewer < more {
        lemma_mass_monotone(fewer, (more - 1) as nat, radius, center);
    }
}

/// A centre one past the last sample sees less weight than the last sample
/// itself does.
pub(crate) proof fn lemma_mass_past_end(count: nat, radius: nat)
    requires
        count >= 1,
    ensures
        weight_mass(count, radius, count as int) <= weight_mass(count, radius, count - 1),
{
    lemma_mass_closed(count, radius, count as int);
    lemma_mass_closed(count, radius, count - 1);
    lemma_cumulative_step(radius, 0);
    lemma_cumulative_step(radius, -(count as int));
}

/// Each step of a ramp adds at least one.
pub(crate) proof fn lemma_ramp_at_least(radius: nat, steps: nat)
    requires
        steps <= radius,
    ensures
        ramp(radius, steps) >= steps,
    decreases steps,
{
    if steps > 0 {
        lemma_ramp_at_least(radius, (steps - 1) as nat);
    }
}

} // verus!
