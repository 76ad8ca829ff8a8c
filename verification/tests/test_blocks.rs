use arc2020::io::deserialize_image;
use arc2020::operations::{
    apply_block, apply_block_operation, apply_change_color, apply_change_color_unconditionally,
    apply_filter_by, apply_flip_x, apply_flip_y, apply_image_operations, apply_pivot, apply_rotate,
    apply_shift, block_fits_image, commit_block_to_image, extract_block_from_image, BlockError,
    ImageBlock, Operation, Point,
};
use arc2020::types::Image;
use std::collections::BTreeMap;

type Plain = Operation<fn(u8) -> u8, fn(Point, u8) -> bool, fn(Point) -> Point>;

fn picture() -> Image {
    let rows = vec![vec![1, 2, 3], vec![4, 5, 6], vec![7, 8, 9], vec![0, 1, 2]];
    deserialize_image(&rows).unwrap()
}

fn rows_of(img: &Image) -> Vec<Vec<u8>> {
    let mut rows = Vec::new();
    for x in 0..img.nrows() {
        let mut row = Vec::new();
        for y in 0..img.ncols() {
            row.push(img.get(x, y).unwrap());
        }
        rows.push(row);
    }
    rows
}

fn block(cells: &[(Point, u8)], pivot: Point) -> ImageBlock {
    let mut block = BTreeMap::new();
    for (p, c) in cells {
        block.insert(*p, *c);
    }
    ImageBlock { block, pivot }
}

fn cells(blc: &ImageBlock) -> Vec<(Point, u8)> {
    blc.block.iter().map(|(p, c)| (*p, *c)).collect()
}

fn quarter_turn(p: Point) -> Point {
    (p.1, -p.0)
}

#[test]
fn image_shape_and_cells() {
    let img = picture();
    assert_eq!(img.nrows(), 4);
    assert_eq!(img.ncols(), 3);
    assert_eq!(img.get(0, 0), Some(1));
    assert_eq!(img.get(2, 1), Some(8));
    assert_eq!(img.get(3, 2), Some(2));
    assert_eq!(img.get(4, 0), None);
    assert_eq!(img.get(0, 3), None);
}

#[test]
fn image_clone_is_the_same_grid() {
    let img = picture();
    let copy = img.clone();
    assert_eq!(rows_of(&copy), rows_of(&img));
}

#[test]
fn extract_then_commit_gives_the_grid_back() {
    let img = picture();
    let before = rows_of(&img);
    let blc = extract_block_from_image(&img, &(1, 1), 3, 2).unwrap();
    assert_eq!(blc.block.len(), 6);
    assert!(block_fits_image(&img, &blc));
    let after = commit_block_to_image(img, &blc).unwrap();
    assert_eq!(rows_of(&after), before);
}

#[test]
fn extract_of_the_whole_grid_that_is_not_square() {
    let img = picture();
    let blc = extract_block_from_image(&img, &(0, 0), 4, 3).unwrap();
    assert_eq!(blc.block.len(), 12);
    assert_eq!(blc.block.get(&(3, 2)), Some(&2));
    assert_eq!(blc.block.get(&(2, 0)), Some(&7));
}

#[test]
fn extract_of_no_cells() {
    let img = picture();
    let blc = extract_block_from_image(&img, &(4, 3), 0, 0).unwrap();
    assert_eq!(blc.block.len(), 0);
    assert_eq!(blc.pivot, (4, 3));
}

#[test]
fn commit_overwrites_only_the_cells_of_the_block() {
    let img = picture();
    let blc = block(&[((0, 0), 9), ((1, 2), 0)], (2, 0));
    let after = commit_block_to_image(img, &blc).unwrap();
    assert_eq!(
        rows_of(&after),
        vec![vec![1, 2, 3], vec![4, 5, 6], vec![9, 8, 9], vec![0, 1, 0]]
    );
}

#[test]
fn block_outside_the_grid_does_not_fit() {
    let img = picture();
    assert!(block_fits_image(&img, &block(&[((0, 0), 1)], (3, 2))));
    assert!(!block_fits_image(&img, &block(&[((0, 0), 1)], (4, 0))));
    assert!(!block_fits_image(&img, &block(&[((0, 0), 1)], (0, 3))));
    assert!(!block_fits_image(&img, &block(&[((-1, 0), 1)], (0, 0))));
    assert!(block_fits_image(&img, &block(&[], (100, 100))));
}

#[test]
fn pivot_is_the_sum_of_shifts_and_crops() {
    let img = picture();
    let mut blc = extract_block_from_image(&img, &(0, 0), 4, 3).unwrap();
    let ops = vec![
        Plain::Shift((5, -2)),
        Plain::Block((1, 1), (2, 2)),
        Plain::Shift((-7, 4)),
        Plain::Block((1, 0), (1, 1)),
        Plain::FlipX,
        Plain::ChangeColorUnconditionally(3),
    ];
    for op in &ops {
        blc = apply_block_operation(blc, op).unwrap();
    }
    assert_eq!(blc.pivot, (0 + 5 + 1 - 7 + 1, 0 - 2 + 1 + 4 + 0));
    assert_eq!(cells(&blc), vec![((0, 0), 3)]);
}

#[test]
fn crop_keeps_the_place_on_the_grid() {
    let blc = block(&[((0, 0), 1), ((2, 3), 2), ((5, 5), 3)], (10, 20));
    let cut = apply_block(blc, &(1, 2), 4, 4).unwrap();
    assert_eq!(cut.pivot, (11, 22));
    assert_eq!(cells(&cut), vec![((1, 1), 2)]);
}

#[test]
fn crop_with_negative_origin() {
    let blc = block(&[((-3, -3), 1), ((-1, 0), 2), ((0, 0), 3)], (0, 0));
    let cut = apply_block(blc, &(-3, -3), 3, 4).unwrap();
    assert_eq!(cut.pivot, (-3, -3));
    assert_eq!(cells(&cut), vec![((0, 0), 1), ((2, 3), 2)]);
}

#[test]
fn pivot_change_keeps_every_cell() {
    let blc = block(&[((0, 0), 1), ((2, 3), 2)], (1, 1));
    let moved = apply_pivot(blc, &(2, -1)).unwrap();
    assert_eq!(moved.pivot, (3, 0));
    assert_eq!(cells(&moved), vec![((-2, 1), 1), ((0, 4), 2)]);
}

#[test]
fn shift_overflows() {
    let blc = block(&[((0, 0), 1)], (i64::MAX, 0));
    assert_eq!(apply_shift(blc, &(1, 0)).err(), Some(BlockError::Overflow));
    let blc = block(&[((0, 0), 1)], (0, i64::MIN));
    assert_eq!(apply_shift(blc, &(0, -1)).err(), Some(BlockError::Overflow));
    let blc = block(&[((0, 0), 1)], (i64::MAX - 1, 0));
    assert_eq!(apply_shift(blc, &(1, 0)).unwrap().pivot, (i64::MAX, 0));
}

#[test]
fn pivot_change_overflows() {
    let blc = block(&[((i64::MAX, 0), 1)], (0, 0));
    assert_eq!(apply_pivot(blc, &(-1, 0)).err(), Some(BlockError::Overflow));
    let blc = block(&[((0, 0), 1)], (i64::MIN, 0));
    assert_eq!(apply_pivot(blc, &(-1, 0)).err(), Some(BlockError::Overflow));
}

#[test]
fn crop_drops_what_would_overflow_outside_the_rectangle() {
    let blc = block(&[((i64::MAX, 0), 1), ((-1, 0), 2)], (0, 0));
    let cut = apply_block(blc, &(-1, 0), 1, 1).unwrap();
    assert_eq!(cells(&cut), vec![((0, 0), 2)]);
}

#[test]
fn crop_overflows_inside_the_rectangle() {
    let blc = block(&[((i64::MAX, 0), 1)], (0, 0));
    assert_eq!(
        apply_block(blc, &(-1, 0), u64::MAX, 1).err(),
        Some(BlockError::Overflow)
    );
}

#[test]
fn flip_x_twice_gives_the_block_back() {
    let img = picture();
    let blc = extract_block_from_image(&img, &(1, 1), 2, 2).unwrap();
    let before = cells(&blc);
    let once = apply_flip_x(blc).unwrap();
    assert_ne!(cells(&once), before);
    let twice = apply_flip_x(once).unwrap();
    assert_eq!(cells(&twice), before);
    assert_eq!(twice.pivot, (1, 1));
}

#[test]
fn flip_y_twice_gives_the_block_back() {
    let img = picture();
    let blc = extract_block_from_image(&img, &(1, 1), 3, 2).unwrap();
    let before = cells(&blc);
    let twice = apply_flip_y(apply_flip_y(blc).unwrap()).unwrap();
    assert_eq!(cells(&twice), before);
}

#[test]
fn flip_axis_is_the_greatest_coordinate_or_the_pivot() {
    let blc = block(&[((2, 0), 1), ((3, 0), 2)], (0, 0));
    let once = apply_flip_x(blc).unwrap();
    assert_eq!(cells(&once), vec![((0, 0), 2), ((1, 0), 1)]);
    // the axis has moved from 3 to 1: the second flip does not undo the first
    let twice = apply_flip_x(once).unwrap();
    assert_eq!(cells(&twice), vec![((0, 0), 1), ((1, 0), 2)]);

    let blc = block(&[((2, 0), 1), ((3, 0), 2)], (5, 0));
    let once = apply_flip_x(blc).unwrap();
    assert_eq!(cells(&once), vec![((2, 0), 2), ((3, 0), 1)]);
    assert_eq!(once.pivot, (5, 0));
}

#[test]
fn flip_after_crop_uses_the_new_axis() {
    let blc = block(&[((0, 0), 1), ((1, 0), 2), ((2, 0), 3)], (0, 0));
    let once = apply_flip_x(blc).unwrap();
    assert_eq!(cells(&once), vec![((0, 0), 3), ((1, 0), 2), ((2, 0), 1)]);
    let cut = apply_block(once, &(0, 0), 2, 1).unwrap();
    let again = apply_flip_x(cut).unwrap();
    assert_eq!(cells(&again), vec![((0, 0), 2), ((1, 0), 3)]);
}

#[test]
fn flip_overflows() {
    let blc = block(&[((i64::MIN, 0), 1), ((1, 0), 2)], (0, 0));
    assert_eq!(apply_flip_x(blc).err(), Some(BlockError::Overflow));
    let blc = block(&[((0, i64::MIN), 1)], (0, 0));
    assert_eq!(apply_flip_y(blc).err(), Some(BlockError::Overflow));
}

#[test]
fn flip_of_no_cells() {
    let once = apply_flip_x(block(&[], (3, 4))).unwrap();
    assert_eq!(once.block.len(), 0);
    assert_eq!(once.pivot, (3, 4));
}

#[test]
fn recolor_and_paint_keep_the_positions() {
    let blc = block(&[((0, 0), 1), ((2, 3), 2)], (1, 1));
    let new = apply_change_color(blc, |c| c + 10).unwrap();
    assert_eq!(cells(&new), vec![((0, 0), 11), ((2, 3), 12)]);
    assert_eq!(new.pivot, (1, 1));
    let new = apply_change_color_unconditionally(new, 4).unwrap();
    assert_eq!(cells(&new), vec![((0, 0), 4), ((2, 3), 4)]);
    assert_eq!(new.pivot, (1, 1));
}

#[test]
fn filter_sees_position_and_color() {
    let blc = block(&[((0, 0), 1), ((2, 3), 2), ((-1, 5), 2)], (1, 1));
    let new = apply_filter_by(blc, |p, c| c == 2 && p.0 >= 0).unwrap();
    assert_eq!(cells(&new), vec![((2, 3), 2)]);
    assert_eq!(new.pivot, (1, 1));
}

#[test]
fn rotate_moves_each_cell() {
    let blc = block(&[((0, 0), 7), ((0, 1), 8), ((1, 1), 9), ((1, 0), 0)], (1, 1));
    let new = apply_rotate(blc, quarter_turn).unwrap();
    assert_eq!(
        cells(&new),
        vec![((0, -1), 0), ((0, 0), 7), ((1, -1), 9), ((1, 0), 8)]
    );
    assert_eq!(new.pivot, (1, 1));
}

#[test]
fn rotate_onto_one_point_keeps_one_cell() {
    let blc = block(&[((0, 0), 7), ((0, 1), 8)], (1, 1));
    let new = apply_rotate(blc, |_| (5, 5)).unwrap();
    assert_eq!(new.block.len(), 1);
    let color = *new.block.get(&(5, 5)).unwrap();
    assert!(color == 7 || color == 8);
}

#[test]
fn reserved_operation_fails() {
    let blc = block(&[((0, 0), 7)], (1, 1));
    assert_eq!(
        apply_block_operation(blc, &Plain::ExtractObjects).err(),
        Some(BlockError::Unsupported)
    );
}

#[test]
fn pipeline_stops_at_the_first_failure() {
    let ops = vec![Plain::Shift((1, 0)), Plain::ExtractObjects, Plain::Shift((i64::MAX, 0))];
    assert_eq!(
        apply_image_operations(picture(), &ops).err(),
        Some(BlockError::Unsupported)
    );
    let ops = vec![Plain::Shift((i64::MAX, 0)), Plain::Shift((1, 0)), Plain::ExtractObjects];
    assert_eq!(
        apply_image_operations(picture(), &ops).err(),
        Some(BlockError::Overflow)
    );
}

#[test]
fn pipeline_does_not_clip() {
    let ops = vec![Plain::Shift((1, 0))];
    assert_eq!(
        apply_image_operations(picture(), &ops).err(),
        Some(BlockError::OutOfBounds)
    );
}

#[test]
fn pipeline_without_operations_gives_the_grid_back() {
    let ops: Vec<Plain> = Vec::new();
    let res = apply_image_operations(picture(), &ops).unwrap();
    assert_eq!(rows_of(&res), rows_of(&picture()));
}

#[test]
fn pipeline_on_a_grid_that_is_not_square() {
    let ops = vec![Plain::Block((2, 1), (2, 2)), Plain::Shift((-2, -1))];
    let res = apply_image_operations(picture(), &ops).unwrap();
    assert_eq!(
        rows_of(&res),
        vec![vec![8, 9, 3], vec![1, 2, 6], vec![7, 8, 9], vec![0, 1, 2]]
    );
}

#[test]
fn block_errors_in_words() {
    assert_eq!(BlockError::Overflow.message(), "A coordinate does not fit");
    assert_eq!(BlockError::Unsupported.message(), "The operation is not supported");
    assert_eq!(BlockError::OutOfBounds.message(), "The block does not lie on the grid");
}
