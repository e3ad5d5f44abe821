//! The values that the filter averages: fixed-width vectors of integer
//! lanes, combined lane by lane.

use crate::kernel::{
    blurred, lemma_constant_is_fixed, lemma_radius_zero_is_identity, quotient, weight_mass,
};
use vstd::prelude::*;

verus! {

/// Lane-wise sum.
pub open spec fn plus(left: Seq<int>, right: Seq<int>) -> Seq<int> {
    Seq::new(left.len(), |k: int| left[k] + right[k])
}

/// Lane-wise difference.
pub open spec fn minus(left: Seq<int>, right: Seq<int>) -> Seq<int> {
    Seq::new(left.len(), |k: int| left[k] - right[k])
}

/// Every lane multiplied by `factor`.
pub open spec fn scaled(lanes: Seq<int>, factor: int) -> Seq<int> {
    Seq::new(lanes.len(), |k: int| lanes[k] * factor)
}

/// Every lane divided by `divisor`, rounding toward zero.
pub open spec fn divided(lanes: Seq<int>, divisor: int) -> Seq<int> {
    Seq::new(lanes.len(), |k: int| quotient(lanes[k], divisor))
}

/// Every lane lies in `[-cap, cap]`.
pub open spec fn all_within(lanes: Seq<int>, cap: nat) -> bool {
    forall|k: int| 0 <= k < lanes.len() ==> -cap <= #[trigger] lanes[k] <= cap
}

/// A value the stack blur can average: a vector of independent integer
/// lanes with a zero, lane-wise addition and subtraction, and multiplication
/// and division by a scalar. No operation mixes lanes.
///
/// Lanes are exact as long as results stay within `[-limit(), limit()]`;
/// callers keep them there.
pub trait StackBlurrable: Sized {
    /// How many lanes every value of the type has.
    spec fn lane_count() -> nat;

    /// The lanes of this value.
    spec fn lanes(&self) -> Seq<int>;

    /// The largest magnitude a lane, or a scalar operand, may take.
    spec fn limit() -> nat;

    /// Every value has `lane_count()` lanes.
    proof fn lemma_lane_count(&self)
        ensures
            self.lanes().len() == Self::lane_count(),
    ;

    /// The value whose lanes are all zero.
    fn zero() -> (out: Self)
        ensures
            out.lanes() == Seq::new(Self::lane_count(), |k: int| 0int),
    ;

    /// The lane-wise sum of two values.
    fn add(&self, rhs: &Self) -> (out: Self)
        requires
            all_within(plus(self.lanes(), rhs.lanes()), Self::limit()),
        ensures
            out.lanes() == plus(self.lanes(), rhs.lanes()),
    ;

    /// The lane-wise difference of two values.
    fn sub(&self, rhs: &Self) -> (out: Self)
        requires
            all_within(minus(self.lanes(), rhs.lanes()), Self::limit()),
        ensures
            out.lanes() == minus(self.lanes(), rhs.lanes()),
    ;

    /// This value with every lane multiplied by `factor`.
    fn mul(&self, factor: usize) -> (out: Self)
        requires
            factor <= Self::limit(),
            all_within(scaled(self.lanes(), factor as int), Self::limit()),
        ensures
            out.lanes() == scaled(self.lanes(), factor as int),
    ;

    /// This value with every lane divided by `divisor`, rounding toward
    /// zero.
    fn div(&self, divisor: usize) -> (out: Self)
        requires
            0 < divisor <= Self::limit(),
        ensures
            out.lanes() == divided(self.lanes(), divisor as int),
    ;
}

/// Lane `k` of every item, as one scalar sequence.
pub open spec fn lane<T: StackBlurrable>(items: Seq<T>, k: int) -> Seq<int> {
    Seq::new(items.len(), |j: int| items[j].lanes()[k])
}

/// The lanes of the blurred value at `index`: each lane of the items is
/// blurred on its own.
pub open spec fn filtered<T: StackBlurrable>(items: Seq<T>, radius: nat, index: int) -> Seq<int> {
    Seq::new(T::lane_count(), |k: int| blurred(lane(items, k), radius, index))
}

/// Every lane of every item lies in `[-bound, bound]`.
pub open spec fn bounded<T: StackBlurrable>(items: Seq<T>, bound: nat) -> bool {
    forall|j: int, k: int|
        0 <= j < items.len() && 0 <= k < T::lane_count() ==> -bound <= #[trigger] items[j].lanes()[k]
            <= bound
}

/// Lanes of magnitude up to `limit` can hold everything the filter forms
/// over a sequence of `len` samples of magnitude up to `bound`: a sample
/// times its weight, a pending correction (at most three samples), and a
/// weighted sum, which is largest where the most weight falls inside the
/// sequence.
pub open spec fn roomy(len: nat, radius: nat, bound: nat, limit: nat) -> bool {
    &&& 3 * bound <= limit
    &&& bound * (radius + 1) <= limit
    &&& forall|center: int|
        0 <= center < len ==> bound * #[trigger] weight_mass(len, radius, center) <= limit
}

/// The filter's counters fit the machine word over a sequence of `len`
/// samples: the ring's length, and the divisor while it is being moved from
/// one output to the next.
pub open spec fn countable(len: nat, radius: nat) -> bool {
    &&& 2 * radius + 2 <= usize::MAX
    &&& forall|center: int|
        0 <= center < len ==> #[trigger] weight_mass(len, radius, center) + radius
            <= usize::MAX
}

/// The filter can run over `items` at this radius without any lane or
/// counter leaving its range.
pub open spec fn admissible<T: StackBlurrable>(items: Seq<T>, radius: nat) -> bool {
    &&& countable(items.len(), radius)
    &&& exists|bound: nat|
        bound >= 1 && #[trigger] bounded(items, bound) && roomy(
            items.len(),
            radius,
            bound,
            T::limit(),
        )
}

/// With radius 0 the filter gives every item back as it is.
pub proof fn lemma_filtered_radius_zero<T: StackBlurrable>(items: Seq<T>, index: int)
    requires
        0 <= index < items.len(),
    ensures
        filtered(items, 0, index) == items[index].lanes(),
{
    items[index].lemma_lane_count();
    assert forall|k: int| 0 <= k < T::lane_count() implies filtered(items, 0, index)[k]
        == items[index].lanes()[k] by {
        lemma_radius_zero_is_identity(lane(items, k), index);
    }
    assert(filtered(items, 0, index) =~= items[index].lanes());
}

/// A sequence of equal items is blurred to itself, at every radius.
pub proof fn lemma_filtered_constant<T: StackBlurrable>(
    items: Seq<T>,
    radius: nat,
    index: int,
    value: Seq<int>,
)
    requires
        0 <= index < items.len(),
        forall|j: int| 0 <= j < items.len() ==> (#[trigger] items[j]).lanes() == value,
    ensures
        filtered(items, radius, index) == value,
{
    items[index].lemma_lane_count();
    assert forall|k: int| 0 <= k < T::lane_count() implies filtered(items, radius, index)[k]
        == value[k] by {
        let l = lane(items, k);
        assert forall|j: int| 0 <= j < l.len() implies l[j] == value[k] by {
            assert(items[j].lanes() == value);
        }
        lemma_constant_is_fixed(l, radius, index, value[k]);
    }
    assert(filtered(items, radius, index) =~= value);
}

/// A lane of the output depends on the same lane of the items and on no
/// other.
pub proof fn lemma_lanes_are_independent<T: StackBlurrable>(
    left: Seq<T>,
    right: Seq<T>,
    radius: nat,
    index: int,
    k: int,
)
    requires
        0 <= k < T::lane_count(),
        lane(left, k) == lane(right, k),
    ensures
        filtered(left, radius, index)[k] == filtered(right, radius, index)[k],
{
}

} // verus!
