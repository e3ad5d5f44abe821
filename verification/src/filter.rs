//! The streaming triangular filter.

use crate::kernel::{lemma_weight_mass_bounds, weight_mass};
use crate::mass::lemma_mass_step;
use crate::ring::ring_put;
use crate::mass::lemma_mass_monotone;
use crate::stream::lemma_mass_cutoff;
use crate::tracking::{
    all_track, lemma_output, lemma_shift_fits, lemma_shift_tracks, lemma_start_tracks,
    lemma_take_fits, lemma_take_tracks,
};
use crate::value::{admissible, bounded, countable, filtered, roomy, scaled, StackBlurrable};
use std::collections::VecDeque;
use vstd::prelude::*;

verus! {

/// A triangular moving average over a sequence of items, produced one
/// output at a time. Each output costs a constant number of operations
/// whatever the radius: the filter keeps the weighted sum of the window, the
/// rate at which that sum changes, and a ring of corrections to the rate.
pub struct StackBlur<'a, T: StackBlurrable> {
    items: &'a [T],
    taken: usize,
    radius: usize,
    sum: T,
    rate: T,
    dnom: usize,
    ops: VecDeque<T>,
    leading: usize,
    trailing: usize,
    done: bool,
    emitted: Ghost<nat>,
    bound: Ghost<nat>,
}

impl<'a, T: StackBlurrable> StackBlur<'a, T> {
    /// The items being filtered.
    pub closed spec fn source(&self) -> Seq<T> {
        self.items@
    }

    /// The half-width of the kernel.
    pub closed spec fn reach(&self) -> nat {
        self.radius as nat
    }

    /// How many outputs have been produced.
    pub closed spec fn position(&self) -> nat {
        self.emitted@
    }

    /// How many items have been read from the source.
    pub closed spec fn consumed(&self) -> nat {
        self.taken as nat
    }

    /// The correction ring as it stands.
    pub closed spec fn ring(&self) -> Seq<T> {
        self.ops@
    }

    /// Whether the running sums are those of `position()` outputs into the
    /// source.
    closed spec fn running(&self) -> bool {
        let len = self.items@.len();
        let r = self.radius as nat;
        let t = self.emitted@ as int;
        &&& t < len
        &&& self.taken == if t + r + 1 < len {
            t + r + 1
        } else {
            len as int
        }
        &&& self.leading == if t < r {
            t
        } else {
            r as int
        }
        &&& self.trailing == if len - 1 - t < r {
            len - 1 - t
        } else {
            r as int
        }
        &&& self.dnom == weight_mass(len, r, t)
        &&& self.ops@.len() == 2 * r + 2
        &&& all_track(
            self.items@,
            r,
            t,
            self.taken as nat,
            self.sum.lanes(),
            self.rate.lanes(),
            self.ops@,
        )
    }

    /// The invariant of the filter.
    pub closed spec fn wf(&self) -> bool {
        let len = self.items@.len();
        &&& countable(len, self.radius as nat)
        &&& self.bound@ >= 1
        &&& bounded(self.items@, self.bound@)
        &&& roomy(len, self.radius as nat, self.bound@, T::limit())
        &&& if self.done {
            ||| self.emitted@ == 0 && self.taken == 0
            ||| self.emitted@ == len && self.taken == len
        } else {
            self.running()
        }
    }

    /// A filter over `items` with the given radius. `ops` is storage for the
    /// correction ring; what it holds is discarded at the first call of
    /// `next`.
    ///
    /// The items must leave room for the sums the filter forms over a
    /// sequence of this length: see `admissible`.
    pub fn new(items: &'a [T], radius: usize, ops: VecDeque<T>) -> (filter: Self)
        requires
            admissible(items@, radius as nat),
        ensures
            filter.wf(),
            filter.source() == items@,
            filter.reach() == radius,
            filter.position() == 0,
            filter.consumed() == 0,
            filter.ring() == ops@,
    {
        let ghost bound = choose|bound: nat|
            bound >= 1 && #[trigger] bounded(items@, bound) && roomy(
                items@.len(),
                radius as nat,
                bound,
                T::limit(),
            );
        Self {
            items,
            taken: 0,
            radius,
            sum: T::zero(),
            rate: T::zero(),
            dnom: 0,
            ops,
            leading: 0,
            trailing: 0,
            done: true,
            emitted: Ghost(0),
            bound: Ghost(bound),
        }
    }

    /// Starts on the source: clears the running sums and the ring, then
    /// reads up to `radius + 1` items, the part of the first window that
    /// lies inside the sequence. When the source has nothing left it stops
    /// after the reset, with zero sums and counters and a ring of zeros.
    fn init(&mut self)
        requires
            old(self).wf(),
            old(self).done,
        ensures
            final(self).wf(),
            final(self).items == old(self).items,
            final(self).radius == old(self).radius,
            final(self).emitted == old(self).emitted,
            final(self).bound == old(self).bound,
            final(self).done <==> old(self).taken == old(self).items@.len(),
            final(self).done ==> final(self).taken == old(self).taken,
            final(self).ops@.len() == 2 * old(self).radius + 2,
            final(self).done ==> {
                &&& final(self).sum.lanes() == Seq::new(T::lane_count(), |k: int| 0int)
                &&& final(self).rate.lanes() == Seq::new(T::lane_count(), |k: int| 0int)
                &&& final(self).dnom == 0
                &&& final(self).leading == 0
                &&& final(self).trailing == 0
                &&& forall|m: int|
                    0 <= m < final(self).ops@.len() ==> (#[trigger] final(self).ops@[m]).lanes()
                        == Seq::new(T::lane_count(), |k: int| 0int)
            },
    {
        let ghost r = self.radius as nat;
        let ghost b = self.bound@;
        self.done = false;

        self.ops.clear();
        let size = self.radius * 2 + 2;
        while self.ops.len() < size
            invariant
                self.ops@.len() <= size,
                forall|m: int|
                    0 <= m < self.ops@.len() ==> (#[trigger] self.ops@[m]).lanes() == Seq::new(
                        T::lane_count(),
                        |k: int| 0int,
                    ),
                self.items == old(self).items,
                self.taken == old(self).taken,
                self.radius == old(self).radius,
                self.emitted == old(self).emitted,
                self.bound == old(self).bound,
                !self.done,
            decreases size - self.ops@.len(),
        {
            self.ops.push_back(T::zero());
        }

        self.sum = T::zero();
        self.rate = T::zero();
        self.dnom = 0;
        self.leading = 0;
        self.trailing = 0;

        let items = self.items;
        if self.taken >= items.len() {
            self.done = true;
            return ;
        }
        proof {
            lemma_start_tracks(items@, r, self.sum, self.rate, self.ops@);
        }

        let mut sub: usize = 0;
        while sub <= self.radius && self.taken < items.len()
            invariant
                items == old(self).items,
                self.items == old(self).items,
                self.radius == old(self).radius,
                self.emitted == old(self).emitted,
                self.bound == old(self).bound,
                self.emitted@ == 0,
                r == self.radius,
                b == self.bound@,
                countable(items@.len(), r),
                b >= 1,
                bounded(items@, b),
                roomy(items@.len(), r, b, T::limit()),
                !self.done,
                self.taken == sub,
                0 < items@.len(),
                sub <= items@.len(),
                sub <= r + 1,
                self.leading == 0,
                self.trailing == if sub == 0 {
                    0
                } else {
                    sub - 1
                },
                self.dnom == weight_mass(sub as nat, r, 0),
                self.ops@.len() == 2 * r + 2,
                all_track(
                    items@,
                    r,
                    0,
                    sub as nat,
                    self.sum.lanes(),
                    self.rate.lanes(),
                    self.ops@,
                ),
            decreases r + 1 - sub,
        {
            let ghost sum0 = self.sum;
            let ghost rate0 = self.rate;
            let ghost ring0 = self.ops@;
            proof {
                lemma_take_fits(items@, r, 0, sub as nat, b, self.sum, self.rate, self.ops@);
                lemma_mass_monotone((sub + 1) as nat, items@.len(), r, 0);
                if sub > 0 {
                    lemma_weight_mass_bounds(sub as nat, r, 0);
                }
            }
            let item = &items[self.taken];
            self.taken += 1;

            let mul = self.radius + 1 - sub;
            self.sum = self.sum.add(&item.mul(mul));
            self.rate = self.rate.add(item);
            self.dnom += mul;

            if self.dnom > mul {
                self.trailing += 1;
            }

            let behind = self.ops[sub].sub(&item.mul(2));
            ring_put(&mut self.ops, sub, behind);
            let ahead = self.ops[sub + self.radius + 1].add(item);
            ring_put(&mut self.ops, sub + self.radius + 1, ahead);
            proof {
                lemma_take_tracks(
                    items@,
                    r,
                    0,
                    sub as nat,
                    sum0,
                    rate0,
                    ring0,
                    self.sum,
                    self.rate,
                    self.ops@,
                );
            }
            sub += 1;
        }
        proof {
            if sub < items@.len() {
                lemma_mass_cutoff(r, 0, sub as nat, items@.len());
            }
        }
    }

    /// The next output: the blurred value at `position()`, or `None` once
    /// every item has had its output.
    ///
    /// An output is produced as soon as the items within `radius` of it
    /// have been read, so the filter never reads more than `radius + 1`
    /// items past the last output, and has always read the item whose
    /// output it gives. When `None` comes back the ring holds nothing but
    /// zeros.
    pub fn next(&mut self) -> (out: Option<T>)
        requires
            old(self).wf(),
        ensures
            final(self).wf(),
            final(self).source() == old(self).source(),
            final(self).reach() == old(self).reach(),
            old(self).position() <= old(self).source().len(),
            out is Some <==> old(self).position() < old(self).source().len(),
            out matches Some(value) ==> value.lanes() == filtered(
                old(self).source(),
                old(self).reach(),
                old(self).position() as int,
            ),
            final(self).position() == old(self).position() + if out is Some {
                1nat
            } else {
                0nat
            },
            final(self).consumed() == if final(self).position() + final(self).reach() + 1
                < final(self).source().len() {
                final(self).position() + final(self).reach() + 1
            } else {
                final(self).source().len()
            },
            final(self).ring().len() == 2 * final(self).reach() + 2,
            out is None ==> forall|m: int|
                0 <= m < final(self).ring().len() ==> (#[trigger] final(self).ring()[m]).lanes()
                    == Seq::new(T::lane_count(), |k: int| 0int),
    {
        if self.done {
            self.init();

            if self.done {
                return None;
            }
        }
        let items = self.items;
        let ghost r = self.radius as nat;
        let ghost b = self.bound@;
        let ghost t = self.emitted@ as int;
        let ghost c = self.taken as nat;
        let ghost len = items@.len();
        let ghost sum0 = self.sum;
        let ghost rate0 = self.rate;
        let ghost ring0 = self.ops@;
        proof {
            lemma_weight_mass_bounds(len, r, t);
            lemma_mass_step(len, r, t);
            let m = weight_mass(len, r, t) as int;
            assert(m <= b * m) by (nonlinear_arith)
                requires
                    b >= 1,
                    0 <= m,
            ;
            lemma_shift_fits(items@, r, t, c, b, self.sum, self.rate, self.ops@);
        }

        let result = self.sum.div(self.dnom);
        proof {
            lemma_output(
                items@,
                r,
                t,
                c,
                self.sum,
                self.rate,
                self.ops@,
                self.dnom as nat,
                result,
            );
        }

        let front = self.ops.pop_front().unwrap();
        self.rate = self.rate.add(&front);
        self.sum = self.sum.add(&self.rate);
        self.ops.push_back(T::zero());
        let ghost sum1 = self.sum;
        let ghost rate1 = self.rate;
        let ghost ring1 = self.ops@;
        proof {
            lemma_shift_tracks(items@, r, t, c, sum0, rate0, ring0, sum1, rate1, ring1);
        }

        if self.leading < self.radius {
            self.leading += 1;
            self.dnom += self.radius + 1 - self.leading;
        }

        if self.trailing == self.radius && self.taken < items.len() {
            proof {
                lemma_take_fits(items@, r, t + 1, c, b, self.sum, self.rate, self.ops@);
            }
            let item = &items[self.taken];
            self.taken += 1;
            assert(scaled(item.lanes(), 1) =~= item.lanes());
            self.sum = self.sum.add(item);
            self.rate = self.rate.add(item);
            let behind = self.ops[self.radius].sub(&item.mul(2));
            ring_put(&mut self.ops, self.radius, behind);
            let ahead = self.ops[self.radius * 2 + 1].add(item);
            ring_put(&mut self.ops, self.radius * 2 + 1, ahead);
            proof {
                lemma_take_tracks(
                    items@,
                    r,
                    t + 1,
                    c,
                    sum1,
                    rate1,
                    ring1,
                    self.sum,
                    self.rate,
                    self.ops@,
                );
            }
        } else if self.trailing > 0 {
            self.dnom -= self.radius + 1 - self.trailing;
            self.trailing -= 1;
        } else {
            self.done = true;
        }
        proof {
            self.emitted@ = (t + 1) as nat;
        }

        Some(result)
    }

    /// Gives the ring's storage back, for the next filter to use.
    pub fn into_ops(self) -> (ops: VecDeque<T>)
        ensures
            ops@ == self.ring(),
    {
        self.ops
    }
}

} // verus!
