use arc2020::algorithm::{extract_objects, get_bounding_box, get_image_block_by_bounding_box};
use arc2020::io::deserialize_image;
use arc2020::types::Image;

fn image(rows: Vec<Vec<u8>>) -> Image {
    deserialize_image(&rows).unwrap()
}

fn four(a: &(usize, usize), b: &(usize, usize)) -> bool {
    let dx = if a.0 > b.0 { a.0 - b.0 } else { b.0 - a.0 };
    let dy = if a.1 > b.1 { a.1 - b.1 } else { b.1 - a.1 };
    dx + dy == 1
}

fn eight(a: &(usize, usize), b: &(usize, usize)) -> bool {
    let dx = if a.0 > b.0 { a.0 - b.0 } else { b.0 - a.0 };
    let dy = if a.1 > b.1 { a.1 - b.1 } else { b.1 - a.1 };
    dx <= 1 && dy <= 1 && dx + dy > 0
}

fn sorted(mut v: Vec<(usize, usize)>) -> Vec<(usize, usize)> {
    v.sort();
    v
}

#[test]
fn single_cell_is_one_object() {
    let img = image(vec![vec![0, 0, 0], vec![0, 5, 0], vec![0, 0, 0]]);
    let objs = extract_objects(&img, 0, four);
    assert_eq!(objs, vec![vec![(1, 1)]]);
}

#[test]
fn background_only_has_no_object() {
    let img = image(vec![vec![0, 0], vec![0, 0]]);
    let objs = extract_objects(&img, 0, four);
    assert_eq!(objs.len(), 0);
}

#[test]
fn diagonal_cells_are_two_objects_by_four_neighbors() {
    let img = image(vec![vec![3, 0], vec![0, 3]]);
    let objs = extract_objects(&img, 0, four);
    assert_eq!(objs, vec![vec![(0, 0)], vec![(1, 1)]]);
}

#[test]
fn diagonal_cells_are_one_object_by_eight_neighbors() {
    let img = image(vec![vec![3, 0], vec![0, 3]]);
    let objs = extract_objects(&img, 0, eight);
    assert_eq!(objs.len(), 1);
    assert_eq!(sorted(objs[0].clone()), vec![(0, 0), (1, 1)]);
}

#[test]
fn colors_are_kept_apart_and_come_in_order() {
    let img = image(vec![vec![2, 1], vec![2, 1]]);
    let objs = extract_objects(&img, 0, four);
    assert_eq!(objs.len(), 2);
    assert_eq!(sorted(objs[0].clone()), vec![(0, 1), (1, 1)]);
    assert_eq!(sorted(objs[1].clone()), vec![(0, 0), (1, 0)]);
}

#[test]
fn other_background_color() {
    let img = image(vec![vec![7, 7], vec![7, 0]]);
    let objs = extract_objects(&img, 7, four);
    assert_eq!(objs, vec![vec![(1, 1)]]);
}

#[test]
fn cell_next_to_one_set_joins_it() {
    // the cell (1, 0) is a neighbor of (0, 0) only
    let img = image(vec![vec![1, 0, 1], vec![1, 0, 0]]);
    let objs = extract_objects(&img, 0, four);
    assert_eq!(objs.len(), 2);
    assert_eq!(objs[0], vec![(0, 0), (1, 0)]);
    assert_eq!(objs[1], vec![(0, 2)]);
}

#[test]
fn cell_next_to_two_sets_joins_the_first_and_the_sets_are_merged() {
    // (1, 2) is a neighbor of (1, 1), in the first set, and of (0, 2), in the second
    let img = image(vec![vec![1, 0, 1], vec![1, 1, 1]]);
    let objs = extract_objects(&img, 0, four);
    assert_eq!(objs.len(), 1);
    assert_eq!(objs[0], vec![(0, 0), (1, 0), (1, 1), (1, 2), (0, 2)]);
}

#[test]
fn sets_that_meet_late_are_merged() {
    // a U shape: the two arms are separate sets until the last row joins them
    let img = image(vec![vec![4, 0, 4], vec![4, 0, 4], vec![4, 4, 4]]);
    let objs = extract_objects(&img, 0, four);
    assert_eq!(objs.len(), 1);
    assert_eq!(
        sorted(objs[0].clone()),
        vec![(0, 0), (0, 2), (1, 0), (1, 2), (2, 0), (2, 1), (2, 2)]
    );
}

#[test]
fn every_cell_is_in_one_object() {
    let img = image(vec![
        vec![1, 0, 2, 2],
        vec![0, 1, 0, 2],
        vec![3, 0, 1, 0],
        vec![3, 3, 0, 1],
    ]);
    let objs = extract_objects(&img, 0, four);
    let mut all: Vec<(usize, usize)> = Vec::new();
    for obj in &objs {
        assert!(obj.len() > 0);
        let color = img.get(obj[0].0, obj[0].1).unwrap();
        for p in obj {
            assert_eq!(img.get(p.0, p.1), Some(color));
            all.push(*p);
        }
    }
    let count = all.len();
    all.sort();
    all.dedup();
    assert_eq!(all.len(), count);
    assert_eq!(count, 10);
    assert_eq!(objs.len(), 6);
}

#[test]
fn bounding_box_spans_from_the_origin() {
    let bb = get_bounding_box(&vec![(2, 5), (4, 1), (3, 3)]);
    assert_eq!(bb, ((0, 0), (4, 5)));
}

#[test]
fn bounding_box_of_nothing() {
    let bb = get_bounding_box(&Vec::new());
    assert_eq!(bb, ((0, 0), (0, 0)));
}

#[test]
fn block_by_bounding_box_leaves_the_greatest_row_and_column_out() {
    let img = image(vec![vec![1, 2, 3], vec![4, 5, 6], vec![7, 8, 9]]);
    let blc = get_image_block_by_bounding_box(&img, &((1, 0), (3, 2))).unwrap();
    assert_eq!(blc.pivot, (1, 0));
    assert_eq!(blc.block.len(), 4);
    assert_eq!(blc.block.get(&(0, 0)), Some(&4));
    assert_eq!(blc.block.get(&(0, 1)), Some(&5));
    assert_eq!(blc.block.get(&(1, 0)), Some(&7));
    assert_eq!(blc.block.get(&(1, 1)), Some(&8));
}

#[test]
fn block_by_the_box_of_one_cell_is_empty() {
    let img = image(vec![vec![1, 2], vec![3, 4]]);
    let bb = get_bounding_box(&vec![(1, 1)]);
    let blc = get_image_block_by_bounding_box(&img, &((1, 1), bb.1)).unwrap();
    assert_eq!(blc.block.len(), 0);
}

fn flood(rows: &Vec<Vec<u8>>, bg: u8, near: fn(&(usize, usize), &(usize, usize)) -> bool) -> Vec<Vec<(usize, usize)>> {
    let mut cells: Vec<(usize, usize)> = Vec::new();
    for x in 0..rows.len() {
        for y in 0..rows[x].len() {
            if rows[x][y] != bg {
                cells.push((x, y));
            }
        }
    }
    let mut seen = vec![false; cells.len()];
    let mut parts: Vec<Vec<(usize, usize)>> = Vec::new();
    for start in 0..cells.len() {
        if seen[start] {
            continue;
        }
        seen[start] = true;
        let mut part = vec![cells[start]];
        let mut next = 0;
        while next < part.len() {
            let p = part[next];
            for other in 0..cells.len() {
                let q = cells[other];
                if !seen[other] && rows[p.0][p.1] == rows[q.0][q.1] && near(&p, &q) {
                    seen[other] = true;
                    part.push(q);
                }
            }
            next += 1;
        }
        part.sort();
        parts.push(part);
    }
    parts.sort();
    parts
}

#[test]
fn objects_are_the_connected_parts_of_each_color() {
    let mut state: u32 = 12345;
    for round in 0..40 {
        let height = 1 + (round % 7);
        let width = 1 + ((round * 3) % 8);
        let mut rows: Vec<Vec<u8>> = Vec::new();
        for _ in 0..height {
            let mut row = Vec::new();
            for _ in 0..width {
                state = state.wrapping_mul(1103515245).wrapping_add(12345);
                row.push(((state >> 16) % 3) as u8);
            }
            rows.push(row);
        }
        let img = image(rows.clone());
        for near in [four as fn(&(usize, usize), &(usize, usize)) -> bool, eight] {
            let found = extract_objects(&img, 0, near);
            for i in 0..found.len() {
                let first = found[i][0];
                assert_eq!(first, *found[i].iter().min().unwrap());
                if i > 0 {
                    let before = found[i - 1][0];
                    let color = rows[first.0][first.1];
                    let color_before = rows[before.0][before.1];
                    assert!(color_before < color || (color_before == color && before < first));
                }
            }
            let mut objs: Vec<Vec<(usize, usize)>> = found.into_iter().map(sorted).collect();
            objs.sort();
            assert_eq!(objs, flood(&rows, 0, near));
        }
    }
}

#[test]
fn objects_of_one_color_come_in_the_order_of_their_first_cells() {
    let img = image(vec![vec![0, 1, 0], vec![1, 0, 1], vec![0, 1, 0]]);
    let objs = extract_objects(&img, 0, four);
    assert_eq!(
        objs,
        vec![vec![(0, 1)], vec![(1, 0)], vec![(1, 2)], vec![(2, 1)]]
    );
}
