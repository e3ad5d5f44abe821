//! Packed 32-bit pixels and their four 8-bit channels.

use crate::value::{all_within, divided, minus, plus, scaled, StackBlurrable};
use vstd::prelude::*;

verus! {

/// Channel `k` of a packed pixel, most significant byte first.
pub open spec fn channel(pixel: u32, k: int) -> int {
    if k == 0 {
        pixel as int / 0x100_0000
    } else if k == 1 {
        pixel as int / 0x1_0000 % 256
    } else if k == 2 {
        pixel as int / 0x100 % 256
    } else {
        pixel as int % 256
    }
}

/// The pixel whose four channels are the given lanes, each reduced to its
/// low eight bits.
pub open spec fn packed(lanes: Seq<int>) -> u32 {
    ((lanes[0] % 256) * 0x100_0000 + (lanes[1] % 256) * 0x1_0000 + (lanes[2] % 256) * 0x100
        + lanes[3] % 256) as u32
}

/// The four channels of a pixel, widened so that weighted sums fit.
#[derive(Copy, Clone, Eq, PartialEq, Debug, Default)]
pub struct ARGB(pub [i32; 4]);

impl ARGB {
    /// The pixel unpacked into its channels.
    pub open spec fn unpacked(argb: u32) -> ARGB {
        ARGB(
            [
                channel(argb, 0) as i32,
                channel(argb, 1) as i32,
                channel(argb, 2) as i32,
                channel(argb, 3) as i32,
            ],
        )
    }

    /// Unpacks a pixel into its four channels, most significant byte
    /// first.
    pub fn from_argb(argb: u32) -> (out: Self)
        ensures
            out == Self::unpacked(argb),
            out.lanes() == Seq::new(4, |k: int| channel(argb, k)),
    {
        let a = (argb >> 24) as i32;
        let r = ((argb >> 16) & 0xff) as i32;
        let g = ((argb >> 8) & 0xff) as i32;
        let b = (argb & 0xff) as i32;
        assert(argb >> 24 == argb / 0x100_0000) by (bit_vector);
        assert((argb >> 16) & 0xff == argb / 0x1_0000 % 256) by (bit_vector);
        assert((argb >> 8) & 0xff == argb / 0x100 % 256) by (bit_vector);
        assert(argb & 0xff == argb % 256) by (bit_vector);
        let out = ARGB([a, r, g, b]);
        assert(out.lanes() =~= Seq::new(4, |k: int| channel(argb, k)));
        out
    }

    /// Packs the four lanes into a pixel, keeping the low eight bits of
    /// each.
    pub fn to_argb(self) -> (argb: u32)
        ensures
            argb == packed(self.lanes()),
    {
        let a = low_byte(self.0[0]) as u32;
        let r = low_byte(self.0[1]) as u32;
        let g = low_byte(self.0[2]) as u32;
        let b = low_byte(self.0[3]) as u32;
        assert((a << 24) | (r << 16) | (g << 8) | b == a * 0x100_0000 + r * 0x1_0000 + g * 0x100
            + b) by (bit_vector)
            requires
                a < 256,
                r < 256,
                g < 256,
                b < 256,
        ;
        (a << 24) | (r << 16) | (g << 8) | b
    }
}

/// The low eight bits of a lane.
fn low_byte(lane: i32) -> (byte: u8)
    ensures
        byte == lane as int % 256,
{
    let byte = #[verifier::truncate] (lane as u8);
    assert(byte == lane % 256) by (bit_vector)
        requires
            byte == #[verifier::truncate] (lane as u8),
    ;
    byte
}

impl StackBlurrable for ARGB {
    open spec fn lane_count() -> nat {
        4
    }

    open spec fn lanes(&self) -> Seq<int> {
        Seq::new(4, |k: int| self.0[k] as int)
    }

    open spec fn limit() -> nat {
        0x7fff_ffff
    }

    proof fn lemma_lane_count(&self) {
    }

    fn zero() -> (out: Self) {
        let out = ARGB([0, 0, 0, 0]);
        assert(out.lanes() =~= Seq::new(4, |k: int| 0int));
        out
    }

    fn add(&self, rhs: &Self) -> (out: Self) {
        proof {
            let total = plus(self.lanes(), rhs.lanes());
            assert(total[0] == self.0[0] + rhs.0[0] && total[1] == self.0[1] + rhs.0[1]);
            assert(total[2] == self.0[2] + rhs.0[2] && total[3] == self.0[3] + rhs.0[3]);
        }
        let out = ARGB(
            [
                self.0[0] + rhs.0[0],
                self.0[1] + rhs.0[1],
                self.0[2] + rhs.0[2],
                self.0[3] + rhs.0[3],
            ],
        );
        assert(out.lanes() =~= plus(self.lanes(), rhs.lanes()));
        out
    }

    fn sub(&self, rhs: &Self) -> (out: Self) {
        proof {
            let rest = minus(self.lanes(), rhs.lanes());
            assert(rest[0] == self.0[0] - rhs.0[0] && rest[1] == self.0[1] - rhs.0[1]);
            assert(rest[2] == self.0[2] - rhs.0[2] && rest[3] == self.0[3] - rhs.0[3]);
        }
        let out = ARGB(
            [
                self.0[0] - rhs.0[0],
                self.0[1] - rhs.0[1],
                self.0[2] - rhs.0[2],
                self.0[3] - rhs.0[3],
            ],
        );
        assert(out.lanes() =~= minus(self.lanes(), rhs.lanes()));
        out
    }

    fn mul(&self, factor: usize) -> (out: Self) {
        let f = factor as i32;
        proof {
            let product = scaled(self.lanes(), factor as int);
            assert(product[0] == self.0[0] * f && product[1] == self.0[1] * f);
            assert(product[2] == self.0[2] * f && product[3] == self.0[3] * f);
        }
        let out = ARGB([self.0[0] * f, self.0[1] * f, self.0[2] * f, self.0[3] * f]);
        assert(out.lanes() =~= scaled(self.lanes(), factor as int));
        out
    }

    fn div(&self, divisor: usize) -> (out: Self) {
        let d = divisor as i32;
        let out = ARGB([self.0[0] / d, self.0[1] / d, self.0[2] / d, self.0[3] / d]);
        assert(out.lanes() =~= divided(self.lanes(), divisor as int));
        out
    }
}

} // verus!
