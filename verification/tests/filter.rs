use stackblur::{StackBlur, StackBlurrable, ARGB};
use std::collections::VecDeque;

fn splat(values: &[i32]) -> Vec<ARGB> {
    values.iter().map(|&v| ARGB([v, v, v, v])).collect()
}

fn run(items: &[ARGB], radius: usize) -> Vec<ARGB> {
    let mut filter = StackBlur::new(items, radius, VecDeque::new());
    let mut out = Vec::new();
    while let Some(value) = filter.next() {
        out.push(value);
    }
    out
}

fn first_lane(values: &[ARGB]) -> Vec<i32> {
    values.iter().map(|v| v.0[0]).collect()
}

fn truncated(value: i64, divisor: i64) -> i64 {
    if value >= 0 {
        value / divisor
    } else {
        -((-value) / divisor)
    }
}

fn direct(values: &[i32], radius: usize) -> Vec<i32> {
    let n = values.len() as i64;
    let r = radius as i64;
    let mut out = Vec::new();
    for i in 0..n {
        let mut sum = 0i64;
        let mut mass = 0i64;
        for j in 0..n {
            let d = (j - i).abs();
            if d <= r {
                sum += (r + 1 - d) * values[j as usize] as i64;
                mass += r + 1 - d;
            }
        }
        out.push(truncated(sum, mass) as i32);
    }
    out
}

#[test]
fn triangle_of_radius_one() {
    let out = run(&splat(&[10, 20, 30, 20, 10]), 1);
    assert_eq!(first_lane(&out), vec![13, 20, 25, 20, 13]);
}

#[test]
fn boundary_output_divides_by_the_weights_in_range() {
    let out = run(&splat(&[10, 20, 30, 20, 10]), 1);
    assert_eq!(out[0].0[0], (2 * 10 + 20) / 3);
    assert_eq!(out[2].0[0], (20 + 2 * 30 + 20) / 4);
    assert_eq!(out[4].0[0], (20 + 2 * 10) / 3);
}

#[test]
fn radius_zero_returns_the_input() {
    let values = [5, -7, 0, 255, 1000, 3];
    let out = run(&splat(&values), 0);
    assert_eq!(first_lane(&out), values.to_vec());
}

#[test]
fn output_is_as_long_as_the_input() {
    for len in 0..12usize {
        for radius in 0..9usize {
            let values: Vec<i32> = (0..len as i32).map(|v| v * 17 % 23).collect();
            assert_eq!(run(&splat(&values), radius).len(), len);
        }
    }
}

#[test]
fn constant_sequence_is_unchanged() {
    for radius in 0..7usize {
        for len in 1..10usize {
            let values = vec![37; len];
            assert_eq!(first_lane(&run(&splat(&values), radius)), values);
        }
    }
    let negative = vec![-9; 5];
    assert_eq!(first_lane(&run(&splat(&negative), 3)), negative);
}

#[test]
fn empty_input_gives_no_output() {
    let items: Vec<ARGB> = Vec::new();
    let mut filter = StackBlur::new(&items, 3, VecDeque::new());
    assert!(filter.next().is_none());
    assert!(filter.next().is_none());
}

#[test]
fn nothing_follows_the_last_output() {
    let items = splat(&[1, 2, 3]);
    let mut filter = StackBlur::new(&items, 1, VecDeque::new());
    assert!(filter.next().is_some());
    assert!(filter.next().is_some());
    assert!(filter.next().is_some());
    assert!(filter.next().is_none());
    assert!(filter.next().is_none());
}

#[test]
fn single_item_is_unchanged_at_any_radius() {
    for radius in [0usize, 1, 2, 10, 1000] {
        let out = run(&[ARGB([1, 20, 200, 255])], radius);
        assert_eq!(out, vec![ARGB([1, 20, 200, 255])]);
    }
}

#[test]
fn radius_beyond_the_sequence_still_weights_by_distance() {
    let out = run(&splat(&[0, 0, 90]), 5);
    // weights 6 5 4, 5 6 5 and 4 5 6
    assert_eq!(first_lane(&out), vec![4 * 90 / 15, 5 * 90 / 16, 6 * 90 / 15]);
}

#[test]
fn lanes_do_not_mix() {
    let items = vec![
        ARGB([10, 0, 255, -30]),
        ARGB([20, 0, 255, -60]),
        ARGB([30, 0, 255, -90]),
        ARGB([20, 0, 255, -60]),
        ARGB([10, 0, 255, -30]),
    ];
    let out = run(&items, 1);
    for (lane, scale) in [(0usize, 1), (3, -3)] {
        let got: Vec<i32> = out.iter().map(|v| v.0[lane]).collect();
        let input: Vec<i32> = [10, 20, 30, 20, 10].iter().map(|v| v * scale).collect();
        assert_eq!(got, direct(&input, 1));
    }
    assert!(out.iter().all(|v| v.0[1] == 0 && v.0[2] == 255));
}

#[test]
fn negative_sums_round_toward_zero() {
    let out = run(&splat(&[-10, -20]), 1);
    assert_eq!(first_lane(&out), vec![-13, -16]);
}

#[test]
fn agrees_with_the_direct_average() {
    let mut seed = 12345u32;
    for _ in 0..300 {
        seed = seed.wrapping_mul(1664525).wrapping_add(1013904223);
        let len = (seed >> 16) as usize % 14;
        seed = seed.wrapping_mul(1664525).wrapping_add(1013904223);
        let radius = (seed >> 16) as usize % 9;
        let mut values = Vec::new();
        for _ in 0..len {
            seed = seed.wrapping_mul(1664525).wrapping_add(1013904223);
            values.push((seed >> 16) as i32 % 512 - 128);
        }
        assert_eq!(first_lane(&run(&splat(&values), radius)), direct(&values, radius));
    }
}

#[test]
fn known_outputs_at_several_radii() {
    let values = [0, 0, 255, 0, 0, 100, 7];
    assert_eq!(first_lane(&run(&splat(&values), 1)), vec![0, 63, 127, 63, 25, 51, 38]);
    assert_eq!(first_lane(&run(&splat(&values), 2)), vec![42, 63, 85, 67, 51, 39, 36]);
    assert_eq!(first_lane(&run(&splat(&values), 3)), vec![51, 58, 74, 60, 54, 52, 32]);
}

#[test]
fn ring_is_all_zero_after_the_last_output() {
    for (values, radius) in [(vec![10, 20, 30, 20, 10], 1usize), (vec![5], 3), (vec![], 2)] {
        let items = splat(&values);
        let mut stale = VecDeque::new();
        stale.push_back(ARGB([9, 9, 9, 9]));
        let mut filter = StackBlur::new(&items, radius, stale);
        while filter.next().is_some() {}
        let ring = filter.into_ops();
        assert_eq!(ring.len(), 2 * radius + 2);
        assert!(ring.iter().all(|slot| *slot == ARGB([0, 0, 0, 0])));
    }
}

#[test]
fn short_sequences_take_radii_far_beyond_their_length() {
    assert_eq!(first_lane(&run(&splat(&[10, 20, 30]), 10000)), vec![19, 20, 20]);
    assert_eq!(first_lane(&run(&splat(&[0, 0, 90]), 100000)), vec![29, 29, 30]);
    assert_eq!(first_lane(&run(&splat(&[255]), 1_000_000)), vec![255]);
}

#[test]
fn ring_can_be_handed_on() {
    let first = splat(&[10, 20, 30, 20, 10]);
    let mut filter = StackBlur::new(&first, 1, VecDeque::new());
    while filter.next().is_some() {}
    let ring = filter.into_ops();
    assert_eq!(ring.len(), 4);

    let second = splat(&[0, 0, 255, 0, 0, 100, 7]);
    let mut filter = StackBlur::new(&second, 2, ring);
    let mut out = Vec::new();
    while let Some(value) = filter.next() {
        out.push(value.0[0]);
    }
    assert_eq!(out, vec![42, 63, 85, 67, 51, 39, 36]);
    assert_eq!(filter.into_ops().len(), 6);
}

#[test]
fn ring_comes_back_untouched_from_an_unused_filter() {
    let items = splat(&[1, 2, 3]);
    let mut ring = VecDeque::new();
    ring.push_back(ARGB([7, 7, 7, 7]));
    let filter = StackBlur::new(&items, 4, ring);
    let ring = filter.into_ops();
    assert_eq!(ring.len(), 1);
    assert_eq!(ring[0], ARGB([7, 7, 7, 7]));
}

#[test]
fn lane_operations_are_exact() {
    let a = ARGB([1, -2, 300, 40000]);
    let b = ARGB([10, 20, -30, 5]);
    assert_eq!(a.add(&b), ARGB([11, 18, 270, 40005]));
    assert_eq!(a.sub(&b), ARGB([-9, -22, 330, 39995]));
    assert_eq!(a.mul(3), ARGB([3, -6, 900, 120000]));
    assert_eq!(a.div(7), ARGB([0, 0, 42, 5714]));
    assert_eq!(ARGB([-15, 15, -1, -14]).div(7), ARGB([-2, 2, 0, -2]));
    assert_eq!(ARGB::zero(), ARGB([0, 0, 0, 0]));
}
