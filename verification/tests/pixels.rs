use stackblur::{blur, blur_horiz, blur_vert, ARGB, MAX_RADIUS};

const GRID: [u32; 12] = [
    0xff102030, 0x80ff0000, 0x0000ff7f, 0x01020304, 0xffffffff, 0x00000000, 0x7f7f7f7f,
    0x10203040, 0xdeadbeef, 0x12345678, 0x9abcdef0, 0x0badf00d,
];

#[test]
fn unpacking_is_most_significant_byte_first() {
    assert_eq!(ARGB::from_argb(0x11223344), ARGB([0x11, 0x22, 0x33, 0x44]));
    assert_eq!(ARGB::from_argb(0xff000080), ARGB([255, 0, 0, 128]));
    assert_eq!(ARGB::from_argb(0), ARGB([0, 0, 0, 0]));
}

#[test]
fn packing_undoes_unpacking() {
    for pixel in [0u32, 1, 0xff, 0x100, 0xdeadbeef, 0xffffffff, 0x80000000, 0x7f7f7f7f] {
        assert_eq!(ARGB::from_argb(pixel).to_argb(), pixel);
    }
}

#[test]
fn packing_keeps_the_low_byte_of_each_lane() {
    assert_eq!(ARGB([256 + 5, -1, 0x1234, 255]).to_argb(), 0x05ff34ff);
    assert_eq!(ARGB([i32::MIN, i32::MAX, -256, 512]).to_argb(), 0x00ff0000);
}

#[test]
fn rows_are_blurred_each_on_its_own() {
    let mut buf = GRID;
    blur_horiz(&mut buf, 4, 3, 1);
    assert_eq!(
        buf,
        [
            0xd45f1520, 0x7f83472b, 0x20408040, 0x0001572d, 0xaaaaaaaa, 0x5f5f5f5f, 0x43474b4f,
            0x353f4a55, 0x9a849bc7, 0x677492b3, 0x5496c099, 0x3ab2ea58,
        ]
    );
    let mut buf = GRID;
    blur_horiz(&mut buf, 4, 3, 2);
    assert_eq!(
        buf,
        [
            0xaa5d3a2d, 0x6f63482c, 0x40426436, 0x152b562c, 0x94949494, 0x61636567, 0x53575b5f,
            0x323a424a, 0x8e87a0c7, 0x6683a5a6, 0x5c94bc99, 0x3b9dd06a,
        ]
    );
}

#[test]
fn columns_are_blurred_each_on_its_own() {
    let mut buf = GRID;
    blur_vert(&mut buf, 4, 3, 1);
    assert_eq!(
        buf,
        [
            0xff5f6a75, 0x55aa0000, 0x2a2ad47f, 0x060c1218, 0xf6aeb7c7, 0x244c151e, 0x666eb69b,
            0x0b3b5424, 0xe9c8d3f4, 0x0c223950, 0x91a7beca, 0x0c7eb01e,
        ]
    );
    let mut buf = GRID;
    blur_vert(&mut buf, 4, 3, 2);
    assert_eq!(
        buf,
        [
            0xf9798494, 0x43880e14, 0x4449ce91, 0x07283919, 0xf5a3acbf, 0x29571822, 0x626cbe9f,
            0x0a3f5a20, 0xeeaeb9d4, 0x1e442b3c, 0x7788c3b7, 0x0b61881c,
        ]
    );
}

#[test]
fn blur_is_rows_then_columns() {
    for radius in [0usize, 1, 2, 3, 7] {
        let mut whole = GRID;
        blur(&mut whole, 4, 3, radius);
        let mut steps = GRID;
        blur_horiz(&mut steps, 4, 3, radius);
        blur_vert(&mut steps, 4, 3, radius);
        assert_eq!(whole, steps);
    }
    let mut buf = GRID;
    blur(&mut buf, 4, 3, 1);
    assert_eq!(
        buf,
        [
            0xc678464e, 0x74774f3c, 0x2b426e45, 0x1115523a, 0xb08d818e, 0x696d6567, 0x3e59755d,
            0x294c754b, 0x9f90a0bd, 0x646d8197, 0x4e7b9980, 0x388bb457,
        ]
    );
}

#[test]
fn columns_then_rows_is_another_result() {
    let mut forward = [7u32, 3, 10, 1];
    blur(&mut forward, 2, 2, 1);
    assert_eq!(forward, [5, 4, 6, 4]);

    let mut reverse = [7u32, 3, 10, 1];
    blur_vert(&mut reverse, 2, 2, 1);
    blur_horiz(&mut reverse, 2, 2, 1);
    assert_eq!(reverse, [6, 4, 6, 3]);
    assert_ne!(forward, reverse);
}

#[test]
fn a_grid_mirrored_on_its_diagonal_can_differ_between_the_orders() {
    let mut forward = [0u32, 0, 0, 5];
    blur(&mut forward, 2, 2, 1);
    assert_eq!(forward, [0, 1, 0, 2]);
    let mut reverse = [0u32, 0, 0, 5];
    blur_vert(&mut reverse, 2, 2, 1);
    blur_horiz(&mut reverse, 2, 2, 1);
    assert_eq!(reverse, [0, 0, 1, 2]);
}

#[test]
fn both_orders_agree_on_this_grid() {
    let grid = [9u32, 40, 9, 40, 200, 40, 9, 40, 9];
    let mut forward = grid;
    blur(&mut forward, 3, 3, 1);
    let mut reverse = grid;
    blur_vert(&mut reverse, 3, 3, 1);
    blur_horiz(&mut reverse, 3, 3, 1);
    assert_eq!(forward, reverse);
}

#[test]
fn radius_zero_changes_nothing() {
    let mut buf = GRID;
    blur(&mut buf, 4, 3, 0);
    assert_eq!(buf, GRID);
    let mut buf = GRID;
    blur_horiz(&mut buf, 3, 4, 0);
    assert_eq!(buf, GRID);
    let mut buf = GRID;
    blur_vert(&mut buf, 6, 2, 0);
    assert_eq!(buf, GRID);
}

#[test]
fn single_pixel_is_unchanged() {
    for radius in [0usize, 1, 2, 50, MAX_RADIUS] {
        let mut buf = [0xcafebabeu32];
        blur(&mut buf, 1, 1, radius);
        assert_eq!(buf, [0xcafebabe]);
    }
}

#[test]
fn single_pixel_is_unchanged_far_beyond_the_largest_general_radius() {
    for radius in [MAX_RADIUS + 1, 50_000, 1_000_000] {
        let mut buf = [0xcafebabeu32];
        blur(&mut buf, 1, 1, radius);
        assert_eq!(buf, [0xcafebabe]);
        blur_horiz(&mut buf, 1, 1, radius);
        assert_eq!(buf, [0xcafebabe]);
        blur_vert(&mut buf, 1, 1, radius);
        assert_eq!(buf, [0xcafebabe]);
    }
}

#[test]
fn lines_of_one_pixel_are_unchanged_at_any_radius() {
    let grid = [0x01020304u32, 0xfffefdfc, 0x80000010];
    let mut rows = grid;
    blur_horiz(&mut rows, 1, 3, 500_000);
    assert_eq!(rows, grid);
    let mut columns = grid;
    blur_vert(&mut columns, 3, 1, 500_000);
    assert_eq!(columns, grid);
}

#[test]
fn short_lines_take_radii_far_beyond_their_length() {
    let grid = [0x01020304u32, 0xfffefdfc, 0x80000010];
    let mut row = grid;
    blur_horiz(&mut row, 3, 1, 50_000);
    assert_eq!(row, [0x7f55555a, 0x8055555a, 0x8055555a]);
    let mut column = grid;
    blur_vert(&mut column, 1, 3, 50_000);
    assert_eq!(column, [0x7f55555a, 0x8055555a, 0x8055555a]);
    let mut square = [0x01020304u32, 0xfffefdfc, 0x80000010, 0x00ff00ff];
    blur(&mut square, 2, 2, 70_000);
    assert_eq!(square, [0x5f7f3f82, 0x5f7f4083, 0x5f7f3f83, 0x5f7f3f83]);
}

#[test]
fn empty_grids_take_any_radius() {
    let mut none: [u32; 0] = [];
    blur(&mut none, 0, 9, usize::MAX);
    blur_horiz(&mut none, 9, 0, usize::MAX);
    blur_vert(&mut none, 0, 0, usize::MAX);
    assert_eq!(none.len(), 0);
}

#[test]
fn constant_grid_is_unchanged() {
    let mut buf = [0x11223344u32; 6];
    blur(&mut buf, 3, 2, 5);
    assert_eq!(buf, [0x11223344; 6]);
}

#[test]
fn empty_grids_are_accepted() {
    let mut none: [u32; 0] = [];
    blur(&mut none, 0, 0, 3);
    blur(&mut none, 0, 5, 3);
    blur(&mut none, 5, 0, 3);
    blur_horiz(&mut none, 0, 7, 1);
    blur_vert(&mut none, 7, 0, 1);
    assert_eq!(none.len(), 0);
}

#[test]
fn single_row_and_single_column() {
    let line = [10u32, 20, 30, 20, 10];
    let mut row = line;
    blur(&mut row, 5, 1, 1);
    assert_eq!(row, [13, 20, 25, 20, 13]);
    let mut column = line;
    blur(&mut column, 1, 5, 1);
    assert_eq!(column, [13, 20, 25, 20, 13]);
    let mut untouched = line;
    blur_vert(&mut untouched, 5, 1, 1);
    assert_eq!(untouched, line);
}

#[test]
fn largest_radius_fits() {
    let mut buf = [1u32, 2, 3, 4, 5, 6];
    blur_horiz(&mut buf, 6, 1, MAX_RADIUS);
    assert_eq!(buf, [3, 3, 3, 3, 3, 3]);
    let mut bright = [0xffffffffu32; 8];
    blur(&mut bright, 4, 2, MAX_RADIUS);
    assert_eq!(bright, [0xffffffff; 8]);
}

#[test]
fn other_rows_are_left_alone_by_a_row() {
    let mut buf = [0u32, 0, 0, 0xff, 0xff, 0xff, 0, 0, 0];
    blur_horiz(&mut buf, 3, 3, 2);
    assert_eq!(buf, [0, 0, 0, 0xff, 0xff, 0xff, 0, 0, 0]);
}
