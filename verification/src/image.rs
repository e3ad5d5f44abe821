//! The separable blur of a pixel grid: every row, then every column.

use crate::filter::StackBlur;
use crate::kernel::{lemma_weight_mass_bounds, weight_mass};
use crate::pixel::{channel, packed, ARGB};
use crate::value::{
    admissible, bounded, countable, filtered, lemma_filtered_constant, lemma_filtered_radius_zero,
    roomy, StackBlurrable,
};
use std::collections::VecDeque;
use vstd::pervasive::runtime_assert;
use vstd::prelude::*;

verus! {

/// The largest radius at which no sum of 8-bit channels can leave the range
/// of a 32-bit lane, however long the line.
pub const MAX_RADIUS: usize = 2900;

/// A line of `len` pixels can be blurred at this radius in 32-bit lanes:
/// the largest weighted sum of 8-bit channels that the line can give rise
/// to fits.
pub open spec fn line_fits(len: nat, radius: nat) -> bool {
    roomy(len, radius, 255, 0x7fff_ffff)
}

/// The pixels of `buf` at `start`, `start + stride`, ..., `count` of them.
pub open spec fn strip(buf: Seq<u32>, start: int, stride: int, count: nat) -> Seq<u32> {
    Seq::new(count, |i: int| buf[start + i * stride])
}

/// Every pixel unpacked into its channels.
pub open spec fn unpacked_all(pixels: Seq<u32>) -> Seq<ARGB> {
    Seq::new(pixels.len(), |i: int| ARGB::unpacked(pixels[i]))
}

/// The blurred pixel at `index` of a line of pixels: each channel blurred on
/// its own, then packed again.
pub open spec fn blurred_pixel(pixels: Seq<u32>, radius: nat, index: int) -> u32 {
    packed(filtered(unpacked_all(pixels), radius, index))
}

/// The grid with every row blurred.
pub open spec fn horizontal(buf: Seq<u32>, width: nat, radius: nat) -> Seq<u32> {
    Seq::new(
        buf.len(),
        |i: int|
            blurred_pixel(
                strip(buf, i / (width as int) * width, 1, width),
                radius,
                i % (width as int),
            ),
    )
}

/// The grid with every column blurred.
pub open spec fn vertical(buf: Seq<u32>, width: nat, height: nat, radius: nat) -> Seq<u32> {
    Seq::new(
        buf.len(),
        |i: int|
            blurred_pixel(
                strip(buf, i % (width as int), width as int, height),
                radius,
                i / (width as int),
            ),
    )
}

/// Whether `index` is one of the positions `start`, `start + stride`, ...,
/// `count` of them.
spec fn on_strip(index: int, start: int, stride: int, count: nat) -> bool {
    &&& start <= index
    &&& (index - start) % stride == 0
    &&& (index - start) / stride < count
}

/// The buffer after the first `done` outputs of a blurred strip have been
/// written back over it.
spec fn strip_written(
    before: Seq<u32>,
    start: int,
    stride: int,
    count: nat,
    radius: nat,
    done: nat,
) -> Seq<u32> {
    Seq::new(
        before.len(),
        |j: int|
            if on_strip(j, start, stride, done) {
                blurred_pixel(strip(before, start, stride, count), radius, (j - start) / stride)
            } else {
                before[j]
            },
    )
}

proof fn lemma_strip_position(start: int, stride: int, i: int)
    requires
        stride >= 1,
        0 <= i,
    ensures
        i * stride >= 0,
        (start + i * stride - start) % stride == 0,
        (start + i * stride - start) / stride == i,
{
    assert(i * stride >= 0) by (nonlinear_arith)
        requires
            stride >= 1,
            0 <= i,
    ;
    vstd::arithmetic::div_mod::lemma_fundamental_div_mod_converse(i * stride, stride, i, 0);
}

proof fn lemma_strip_inside(start: int, stride: int, count: int, i: int)
    requires
        stride >= 1,
        0 <= i < count,
    ensures
        0 <= i * stride <= (count - 1) * stride,
{
    assert(0 <= i * stride <= (count - 1) * stride) by (nonlinear_arith)
        requires
            stride >= 1,
            0 <= i <= count - 1,
    ;
}

proof fn lemma_on_strip_is_position(index: int, start: int, stride: int, count: nat)
    requires
        stride >= 1,
        on_strip(index, start, stride, count),
    ensures
        index == start + (index - start) / stride * stride,
        0 <= (index - start) / stride < count,
{
    vstd::arithmetic::div_mod::lemma_fundamental_div_mod(index - start, stride);
    vstd::arithmetic::div_mod::lemma_div_pos_is_pos(index - start, stride);
    assert(stride * ((index - start) / stride) == (index - start) / stride * stride)
        by (nonlinear_arith);
}

/// Unpacked pixels have channels between 0 and 255, so a line that fits
/// can go through the filter.
proof fn lemma_pixels_admissible(pixels: Seq<u32>, radius: nat)
    requires
        line_fits(pixels.len(), radius),
    ensures
        admissible(unpacked_all(pixels), radius),
{
    let items = unpacked_all(pixels);
    assert forall|j: int, k: int| 0 <= j < items.len() && 0 <= k < ARGB::lane_count() implies -255
        <= #[trigger] items[j].lanes()[k] <= 255 by {
        let p = pixels[j];
        assert(items[j] == ARGB::unpacked(p));
        assert(0 <= channel(p, k) <= 255);
    }
    assert(bounded(items, 255));
    assert forall|center: int| 0 <= center < items.len() implies #[trigger] weight_mass(
        items.len(),
        radius,
        center,
    ) + radius <= usize::MAX by {
        assert(255 * weight_mass(pixels.len(), radius, center) <= 0x7fff_ffff);
    }
    assert(countable(items.len(), radius));
}

/// Up to `MAX_RADIUS` a line of any length fits.
pub proof fn lemma_max_radius_fits(len: nat, radius: nat)
    requires
        radius <= MAX_RADIUS,
    ensures
        line_fits(len, radius),
{
    let r = radius as int;
    assert((r + 1) * (r + 1) <= 2901 * 2901) by (nonlinear_arith)
        requires
            0 <= r <= 2900,
    ;
    assert forall|center: int| 0 <= center < len implies 255 * #[trigger] weight_mass(
        len,
        radius,
        center,
    ) <= 0x7fff_ffff by {
        lemma_weight_mass_bounds(len, radius, center);
    }
}

/// A line of one pixel fits as long as the pixel times the centre's weight
/// does.
pub proof fn lemma_one_pixel_fits(radius: nat)
    requires
        255 * (radius + 1) <= 0x7fff_ffff,
    ensures
        line_fits(1, radius),
{
    assert forall|center: int| 0 <= center < 1 implies 255 * #[trigger] weight_mass(
        1,
        radius,
        center,
    ) <= 0x7fff_ffff by {
        assert(weight_mass(0, radius, center) == 0);
        assert(weight_mass(1, radius, center) == radius + 1);
    }
}

/// Blurs the pixels at `start`, `start + stride`, ... in place, `count` of
/// them, and leaves every other pixel as it is. `line` is scratch space for
/// the unpacked strip, `ops` storage for the filter's ring.
fn blur_strip(
    argb: &mut [u32],
    start: usize,
    stride: usize,
    count: usize,
    radius: usize,
    line: &mut Vec<ARGB>,
    ops: VecDeque<ARGB>,
) -> (ring: VecDeque<ARGB>)
    requires
        stride >= 1,
        count == 0 || line_fits(count as nat, radius as nat),
        count == 0 || start + (count - 1) * stride < old(argb)@.len(),
    ensures
        final(argb)@ == strip_written(
            old(argb)@,
            start as int,
            stride as int,
            count as nat,
            radius as nat,
            count as nat,
        ),
{
    let ghost before = argb@;
    let ghost pixels = strip(before, start as int, stride as int, count as nat);
    assert(before.len() == argb.len());
    if count == 0 {
        assert(argb@ =~= strip_written(before, start as int, stride as int, 0, radius as nat, 0));
        return ops;
    }
    line.clear();
    let mut fill: usize = 0;
    while fill < count
        invariant
            stride >= 1,
            fill <= count,
            argb@ == before,
            before.len() <= usize::MAX,
            count == 0 || start + (count - 1) * stride < before.len(),
            pixels == strip(before, start as int, stride as int, count as nat),
            line@ == unpacked_all(pixels).subrange(0, fill as int),
        decreases count - fill,
    {
        proof {
            lemma_strip_inside(start as int, stride as int, count as int, fill as int);
        }
        let pixel = argb[start + fill * stride];
        line.push(ARGB::from_argb(pixel));
        assert(line@ =~= unpacked_all(pixels).subrange(0, fill + 1));
        fill += 1;
    }
    assert(line@ =~= unpacked_all(pixels));
    proof {
        assert(unpacked_all(pixels).len() == count);
        lemma_pixels_admissible(pixels, radius as nat);
    }

    let mut filter = StackBlur::new(line.as_slice(), radius, ops);
    let mut index: usize = 0;
    assert(argb@ =~= strip_written(
        before,
        start as int,
        stride as int,
        count as nat,
        radius as nat,
        0,
    ));
    loop
        invariant
            stride >= 1,
            count == 0 || start + (count - 1) * stride < before.len(),
            pixels == strip(before, start as int, stride as int, count as nat),
            filter.wf(),
            filter.source() == unpacked_all(pixels),
            filter.reach() == radius,
            filter.position() == index,
            index <= count,
            before.len() <= usize::MAX,
            argb@ == strip_written(
                before,
                start as int,
                stride as int,
                count as nat,
                radius as nat,
                index as nat,
            ),
        ensures
            index == count,
        decreases count - index,
    {
        match filter.next() {
            Some(value) => {
                proof {
                    lemma_strip_inside(start as int, stride as int, count as int, index as int);
                    lemma_strip_position(start as int, stride as int, index as int);
                }
                let ghost sofar = argb@;
                let at = start + index * stride;
                argb[at] = value.to_argb();
                proof {
                    let after = strip_written(
                        before,
                        start as int,
                        stride as int,
                        count as nat,
                        radius as nat,
                        (index + 1) as nat,
                    );
                    assert forall|j: int| 0 <= j < after.len() implies argb@[j] == after[j] by {
                        if j != at && on_strip(j, start as int, stride as int, (index + 1) as nat)
                            && !on_strip(j, start as int, stride as int, index as nat) {
                            lemma_on_strip_is_position(
                                j,
                                start as int,
                                stride as int,
                                (index + 1) as nat,
                            );
                        }
                    }
                    assert(argb@ =~= after);
                }
                index += 1;
            },
            None => {
                break ;
            },
        }
    }
    filter.into_ops()
}

proof fn lemma_row_position(index: int, row: int, width: int)
    requires
        width >= 1,
        0 <= row,
        0 <= index,
    ensures
        on_strip(index, row * width, 1, width as nat) <==> row * width <= index < row * width
            + width,
        on_strip(index, row * width, 1, width as nat) ==> index / width == row && index % width
            == index - row * width,
        (row + 1) * width == row * width + width,
        row * width >= 0,
{
    assert((row + 1) * width == row * width + width && row * width >= 0) by (nonlinear_arith)
        requires
            width >= 1,
            0 <= row,
    ;
    if row * width <= index < row * width + width {
        vstd::arithmetic::div_mod::lemma_fundamental_div_mod_converse(
            index,
            width,
            row,
            index - row * width,
        );
    }
}

proof fn lemma_column_position(index: int, column: int, width: int, height: int)
    requires
        0 <= column < width,
        0 <= index < width * height,
    ensures
        on_strip(index, column, width, height as nat) <==> index % width == column,
        on_strip(index, column, width, height as nat) ==> (index - column) / width == index
            / width,
        0 <= index / width < height,
{
    let q = index / width;
    vstd::arithmetic::div_mod::lemma_fundamental_div_mod(index, width);
    vstd::arithmetic::div_mod::lemma_div_pos_is_pos(index, width);
    assert(q < height) by (nonlinear_arith)
        requires
            index < width * height,
            index >= width * q,
            width >= 1,
    ;
    assert(width * q == q * width) by (nonlinear_arith);
    if index % width == column {
        vstd::arithmetic::div_mod::lemma_fundamental_div_mod_converse(index - column, width, q, 0);
    }
    if column <= index && (index - column) % width == 0 {
        let p = (index - column) / width;
        vstd::arithmetic::div_mod::lemma_fundamental_div_mod(index - column, width);
        assert(width * p == p * width) by (nonlinear_arith);
        vstd::arithmetic::div_mod::lemma_fundamental_div_mod_converse(index, width, p, column);
    }
}

/// Whether a buffer of `len` pixels is a `width` by `height` grid.
fn is_grid(len: usize, width: usize, height: usize) -> (ok: bool)
    ensures
        ok <==> len == width * height,
{
    match width.checked_mul(height) {
        Some(cells) => cells == len,
        None => false,
    }
}

/// Blurs every row of a `width` by `height` grid in place.
///
/// The buffer must hold exactly `width * height` pixels. A call from
/// outside verified code that breaks this is stopped before any pixel is
/// touched. The radius may be as large as a row of `width` pixels allows:
/// up to `MAX_RADIUS` for any row, and beyond it for rows shorter than the
/// kernel.
pub fn blur_horiz(argb: &mut [u32], width: usize, height: usize, radius: usize)
    requires
        old(argb)@.len() == width * height,
        old(argb)@.len() > 0 ==> line_fits(width as nat, radius as nat),
    ensures
        final(argb)@ == horizontal(old(argb)@, width as nat, radius as nat),
{
    let ghost before = argb@;
    let ghost goal = horizontal(before, width as nat, radius as nat);
    runtime_assert(is_grid(argb.len(), width, height));
    assert(width == 0 ==> before.len() == 0) by (nonlinear_arith)
        requires
            before.len() == width * height,
    ;
    let mut ops = VecDeque::new();
    let mut line = Vec::new();
    let mut y: usize = 0;
    while y < height
        invariant
            y <= height,
            before.len() > 0 ==> line_fits(width as nat, radius as nat),
            before.len() == width * height,
            before.len() <= usize::MAX,
            width == 0 ==> before.len() == 0,
            argb@.len() == before.len(),
            goal == horizontal(before, width as nat, radius as nat),
            forall|j: int|
                0 <= j < before.len() ==> #[trigger] argb@[j] == if j < y * width {
                    goal[j]
                } else {
                    before[j]
                },
        decreases height - y,
    {
        let ghost current = argb@;
        proof {
            assert(y * width + width <= width * height && y * width >= 0 && (width > 0 ==> width
                * height > 0)) by (nonlinear_arith)
                requires
                    0 <= y < height,
                    0 <= width,
            ;
        }
        let start = y * width;
        ops = blur_strip(argb, start, 1, width, radius, &mut line, ops);
        proof {
            assert(strip(current, start as int, 1, width as nat) =~= strip(
                before,
                start as int,
                1,
                width as nat,
            ));
            assert forall|j: int| 0 <= j < before.len() implies #[trigger] argb@[j] == if j < (y
                + 1) * width {
                goal[j]
            } else {
                before[j]
            } by {
                lemma_row_position(j, y as int, width as int);
            }
        }
        y += 1;
    }
    proof {
        assert(y * width == before.len()) by (nonlinear_arith)
            requires
                y == height,
                before.len() == width * height,
        ;
        assert(argb@ =~= goal);
    }
}

/// Blurs every column of a `width` by `height` grid in place.
///
/// The buffer must hold exactly `width * height` pixels. A call from
/// outside verified code that breaks this is stopped before any pixel is
/// touched. The radius may be as large as a column of `height` pixels
/// allows: up to `MAX_RADIUS` for any column, and beyond it for columns
/// shorter than the kernel.
pub fn blur_vert(argb: &mut [u32], width: usize, height: usize, radius: usize)
    requires
        old(argb)@.len() == width * height,
        old(argb)@.len() > 0 ==> line_fits(height as nat, radius as nat),
    ensures
        final(argb)@ == vertical(old(argb)@, width as nat, height as nat, radius as nat),
{
    let ghost before = argb@;
    let ghost goal = vertical(before, width as nat, height as nat, radius as nat);
    runtime_assert(is_grid(argb.len(), width, height));
    assert(width == 0 ==> before.len() == 0) by (nonlinear_arith)
        requires
            before.len() == width * height,
    ;
    let mut ops = VecDeque::new();
    let mut line = Vec::new();
    let mut x: usize = 0;
    while x < width
        invariant
            x <= width,
            before.len() > 0 ==> line_fits(height as nat, radius as nat),
            before.len() == width * height,
            before.len() <= usize::MAX,
            argb@.len() == before.len(),
            goal == vertical(before, width as nat, height as nat, radius as nat),
            forall|j: int|
                0 <= j < before.len() ==> #[trigger] argb@[j] == if j % (width as int) < x {
                    goal[j]
                } else {
                    before[j]
                },
        decreases width - x,
    {
        let ghost current = argb@;
        proof {
            if height > 0 {
                assert(width * height > 0) by (nonlinear_arith)
                    requires
                        width > 0,
                        height > 0,
                ;
                assert(x + (height - 1) * width < width * height) by (nonlinear_arith)
                    requires
                        0 <= x < width,
                        height >= 1,
                ;
            }
            let here = strip(current, x as int, width as int, height as nat);
            let there = strip(before, x as int, width as int, height as nat);
            assert forall|i: int| 0 <= i < height implies #[trigger] here[i] == there[i] by {
                lemma_strip_inside(x as int, width as int, height as int, i);
                lemma_strip_position(x as int, width as int, i);
                lemma_column_position(x + i * width, x as int, width as int, height as int);
            }
            assert(strip(current, x as int, width as int, height as nat) =~= strip(
                before,
                x as int,
                width as int,
                height as nat,
            ));
        }
        ops = blur_strip(argb, x, width, height, radius, &mut line, ops);
        proof {
            assert forall|j: int| 0 <= j < before.len() implies #[trigger] argb@[j] == if j % (
            width as int) < x + 1 {
                goal[j]
            } else {
                before[j]
            } by {
                lemma_column_position(j, x as int, width as int, height as int);
            }
        }
        x += 1;
    }
    proof {
        assert forall|j: int| 0 <= j < before.len() implies argb@[j] == goal[j] by {
            vstd::arithmetic::div_mod::lemma_mod_pos_bound(j, width as int);
        }
        assert(argb@ =~= goal);
    }
}

/// Blurs the grid in place: every row first, then every column of the
/// result.
pub fn blur(argb: &mut [u32], width: usize, height: usize, radius: usize)
    requires
        old(argb)@.len() == width * height,
        old(argb)@.len() > 0 ==> line_fits(width as nat, radius as nat) && line_fits(
            height as nat,
            radius as nat,
        ),
    ensures
        final(argb)@ == vertical(
            horizontal(old(argb)@, width as nat, radius as nat),
            width as nat,
            height as nat,
            radius as nat,
        ),
{
    blur_horiz(argb, width, height, radius);
    blur_vert(argb, width, height, radius);
}

/// Unpacking a pixel and packing its channels again gives the pixel back.
pub proof fn lemma_pack_unpack(pixel: u32)
    ensures
        packed(ARGB::unpacked(pixel).lanes()) == pixel,
{
    let lanes = ARGB::unpacked(pixel).lanes();
    assert(lanes[0] == channel(pixel, 0) && lanes[1] == channel(pixel, 1));
    assert(lanes[2] == channel(pixel, 2) && lanes[3] == channel(pixel, 3));
    let p = pixel as int;
    assert(p / 0x100_0000 * 0x100_0000 + p / 0x1_0000 % 256 * 0x1_0000 + p / 0x100 % 256 * 0x100
        + p % 256 == p);
}

/// With radius 0 a line of pixels is blurred to itself.
pub proof fn lemma_blurred_pixel_radius_zero(pixels: Seq<u32>, index: int)
    requires
        0 <= index < pixels.len(),
    ensures
        blurred_pixel(pixels, 0, index) == pixels[index],
{
    lemma_filtered_radius_zero(unpacked_all(pixels), index);
    lemma_pack_unpack(pixels[index]);
}

/// A line of equal pixels is blurred to itself, at every radius.
pub proof fn lemma_blurred_pixel_constant(pixels: Seq<u32>, radius: nat, index: int, pixel: u32)
    requires
        0 <= index < pixels.len(),
        forall|j: int| 0 <= j < pixels.len() ==> pixels[j] == pixel,
    ensures
        blurred_pixel(pixels, radius, index) == pixel,
{
    let items = unpacked_all(pixels);
    assert forall|j: int| 0 <= j < items.len() implies (#[trigger] items[j]).lanes()
        == ARGB::unpacked(pixel).lanes() by {
        assert(items[j] == ARGB::unpacked(pixels[j]));
    }
    lemma_filtered_constant(items, radius, index, ARGB::unpacked(pixel).lanes());
    lemma_pack_unpack(pixel);
}

/// With radius 0 neither pass changes the grid.
pub proof fn lemma_radius_zero_is_noop(buf: Seq<u32>, width: nat, height: nat)
    requires
        buf.len() == width * height,
    ensures
        horizontal(buf, width, 0) == buf,
        vertical(buf, width, height, 0) == buf,
{
    let w = width as int;
    assert(width == 0 ==> buf.len() == 0) by (nonlinear_arith)
        requires
            buf.len() == width * height,
    ;
    assert forall|j: int| 0 <= j < buf.len() implies horizontal(buf, width, 0)[j] == buf[j] by {
        let y = j / w;
        vstd::arithmetic::div_mod::lemma_fundamental_div_mod(j, w);
        vstd::arithmetic::div_mod::lemma_mod_pos_bound(j, w);
        assert(w * y == y * w) by (nonlinear_arith);
        let line = strip(buf, y * w, 1, width);
        lemma_blurred_pixel_radius_zero(line, j % w);
    }
    assert(horizontal(buf, width, 0) =~= buf);
    assert forall|j: int| 0 <= j < buf.len() implies vertical(buf, width, height, 0)[j]
        == buf[j] by {
        let x = j % w;
        vstd::arithmetic::div_mod::lemma_fundamental_div_mod(j, w);
        vstd::arithmetic::div_mod::lemma_mod_pos_bound(j, w);
        lemma_column_position(j, x, w, height as int);
        assert(w * (j / w) == j / w * w) by (nonlinear_arith);
        let line = strip(buf, x, w, height);
        lemma_blurred_pixel_radius_zero(line, j / w);
    }
    assert(vertical(buf, width, height, 0) =~= buf);
}

/// A grid of one pixel is left as it is by both passes, at every radius.
pub proof fn lemma_single_pixel_unchanged(pixel: u32, radius: nat)
    ensures
        horizontal(seq![pixel], 1, radius) == seq![pixel],
        vertical(seq![pixel], 1, 1, radius) == seq![pixel],
        vertical(horizontal(seq![pixel], 1, radius), 1, 1, radius) == seq![pixel],
{
    let buf = seq![pixel];
    lemma_blurred_pixel_constant(strip(buf, 0, 1, 1), radius, 0, pixel);
    assert(horizontal(buf, 1, radius) =~= buf);
    assert(vertical(buf, 1, 1, radius) =~= buf);
}

/// Rows of one pixel have no neighbours to the side: the horizontal pass
/// leaves them as they are, at every radius.
pub proof fn lemma_rows_of_one_pixel(buf: Seq<u32>, radius: nat)
    ensures
        horizontal(buf, 1, radius) == buf,
{
    assert forall|j: int| 0 <= j < buf.len() implies horizontal(buf, 1, radius)[j] == buf[j] by {
        let line = strip(buf, j / 1 * 1, 1, 1);
        assert(line[0] == buf[j]);
        lemma_blurred_pixel_constant(line, radius, 0, buf[j]);
    }
    assert(horizontal(buf, 1, radius) =~= buf);
}

/// Columns of one pixel have no neighbours above or below: the vertical
/// pass leaves them as they are, at every radius.
pub proof fn lemma_columns_of_one_pixel(buf: Seq<u32>, width: nat, radius: nat)
    requires
        buf.len() == width,
    ensures
        vertical(buf, width, 1, radius) == buf,
{
    let w = width as int;
    assert forall|j: int| 0 <= j < buf.len() implies vertical(buf, width, 1, radius)[j]
        == buf[j] by {
        vstd::arithmetic::div_mod::lemma_fundamental_div_mod_converse(j, w, 0, j);
        let line = strip(buf, j % w, w, 1);
        assert(0 * w == 0) by (nonlinear_arith);
        assert(line[0] == buf[j]);
        lemma_blurred_pixel_constant(line, radius, 0, buf[j]);
    }
    assert(vertical(buf, width, 1, radius) =~= buf);
}

} // verus!
