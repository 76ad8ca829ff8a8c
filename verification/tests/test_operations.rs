use arc2020::io::deserialize_image;
use arc2020::operations::{
    apply_block_operation, apply_image_operations, commit_block_to_image, extract_block_from_image,
    Operation, Point,
};
use arc2020::types::Image;
use math::round;

type Op = Operation<fn(u8) -> u8, fn(Point, u8) -> bool, Box<dyn Fn(Point) -> Point>>;

// (Y)
//    +---+---+---+---+
//  3 | 0 | 0 | 0 | 3 |
//    +---+---+---+---+
//  2 | 0 | 8 | 9 | 0 |
//    +---+---+---+---+
//  1 | 0 | 7 | 0 | 0 |
//    +---+---+---+---+
//  0 | 0 | 0 | 0 | 0 |
//    +---+---+---+---+
//      0   1   2   3   (X)
fn gen_test_image() -> Image {
    let rows = vec![
        vec![0, 0, 0, 0],
        vec![0, 7, 8, 0],
        vec![0, 0, 9, 0],
        vec![0, 0, 0, 3],
    ];
    deserialize_image(&rows).unwrap()
}

fn rotation(angle: f64) -> Box<dyn Fn(Point) -> Point> {
    let c = angle.cos();
    let s = angle.sin();
    Box::new(move |(x, y): Point| {
        let x_new = c * (x as f64) + s * (y as f64);
        let y_new = -s * (x as f64) + c * (y as f64);
        (round::half_up(x_new, 0) as i64, round::half_up(y_new, 0) as i64)
    })
}

#[test]
fn test_image_block() {
    let img = gen_test_image();
    let blc = extract_block_from_image(&img, &(1, 1), 2, 2).unwrap();
    assert_eq!(blc.pivot, (1, 1));

    let blc_data = blc.block;
    assert_eq!(blc_data.get(&(0, 0)).unwrap(), &(7 as u8));
    assert_eq!(blc_data.get(&(0, 1)).unwrap(), &(8 as u8));
    assert_eq!(blc_data.get(&(1, 1)).unwrap(), &(9 as u8));
    assert_eq!(blc_data.get(&(1, 0)).unwrap(), &(0 as u8));
    assert_eq!(blc_data.get(&(2, 2)), None);
}

#[test]
fn test_block_block() {
    let img = gen_test_image();

    {
        let blc = extract_block_from_image(&img, &(1, 1), 2, 2).unwrap();
        let blc_pvt = blc.pivot;
        let sub = apply_block_operation(blc, &Op::Block((1, 0), (1, 2))).unwrap();
        let blc_data = sub.block;
        assert_eq!(blc_data.get(&(0, 0)).unwrap(), &(0 as u8));
        assert_eq!(blc_data.get(&(0, 1)).unwrap(), &(9 as u8));
        assert_eq!(blc_data.get(&(1, 1)), None);
        assert_eq!(sub.pivot.0, blc_pvt.0 + 1);
        assert_eq!(sub.pivot.1, blc_pvt.1 + 0);
    }

    {
        let blc = extract_block_from_image(&img, &(1, 1), 2, 2).unwrap();
        let blc_pvt = blc.pivot;
        let sub = apply_block_operation(blc, &Op::Block((0, 1), (2, 1))).unwrap();
        let blc_data = sub.block;
        assert_eq!(blc_data.get(&(0, 0)).unwrap(), &(8 as u8));
        assert_eq!(blc_data.get(&(1, 0)).unwrap(), &(9 as u8));
        assert_eq!(blc_data.get(&(1, 1)), None);
        assert_eq!(sub.pivot.0, blc_pvt.0 + 0);
        assert_eq!(sub.pivot.1, blc_pvt.1 + 1);
    }

    {
        let blc = extract_block_from_image(&img, &(1, 1), 2, 2).unwrap();
        let blc_pvt = blc.pivot;
        let sub = apply_block_operation(blc, &Op::Block((0, 1), (4, 4))).unwrap();
        let blc_data = sub.block;
        assert_eq!(blc_data.get(&(0, 0)).unwrap(), &(8 as u8));
        assert_eq!(blc_data.get(&(1, 0)).unwrap(), &(9 as u8));
        assert_eq!(blc_data.get(&(1, 1)), None);
        assert_eq!(sub.pivot.0, blc_pvt.0 + 0);
        assert_eq!(sub.pivot.1, blc_pvt.1 + 1);
    }

    {
        let blc = extract_block_from_image(&img, &(1, 1), 2, 2).unwrap();
        let blc_pvt = blc.pivot;
        let sub = apply_block_operation(blc, &Op::Block((0, 0), (1, 1))).unwrap();
        let blc_data = sub.block;
        assert_eq!(blc_data.get(&(0, 0)).unwrap(), &(7 as u8));
        assert_eq!(blc_data.get(&(1, 1)), None);
        assert_eq!(sub.pivot.0, blc_pvt.0);
        assert_eq!(sub.pivot.1, blc_pvt.1);
    }
}

#[test]
fn test_block_pivot() {
    let img = gen_test_image();
    {
        let blc = extract_block_from_image(&img, &(1, 1), 2, 2).unwrap();
        let blc_pvt = blc.pivot;
        let new = apply_block_operation(blc, &Op::Pivot((1, 1))).unwrap();
        assert_eq!(new.pivot.0, blc_pvt.0 + 1);
        assert_eq!(new.pivot.1, blc_pvt.1 + 1);
        let blc_data = new.block;
        assert_eq!(blc_data.get(&(-1, -1)).unwrap(), &(7 as u8));
        assert_eq!(blc_data.get(&(-1, 0)).unwrap(), &(8 as u8));
        assert_eq!(blc_data.get(&(0, 0)).unwrap(), &(9 as u8));
        assert_eq!(blc_data.get(&(0, -1)).unwrap(), &(0 as u8));
        assert_eq!(blc_data.get(&(2, 2)), None);
    }
}

#[test]
fn test_block_shift() {
    let img = gen_test_image();
    {
        let blc = extract_block_from_image(&img, &(1, 1), 2, 2).unwrap();
        let blc_pvt = blc.pivot;

        let new = apply_block_operation(blc, &Op::Shift((1, 1))).unwrap();
        assert_eq!(new.pivot.0, blc_pvt.0 + 1);
        assert_eq!(new.pivot.1, blc_pvt.1 + 1);

        let blc_data = new.block;
        assert_eq!(blc_data.get(&(0, 0)).unwrap(), &(7 as u8));
        assert_eq!(blc_data.get(&(0, 1)).unwrap(), &(8 as u8));
        assert_eq!(blc_data.get(&(1, 1)).unwrap(), &(9 as u8));
        assert_eq!(blc_data.get(&(1, 0)).unwrap(), &(0 as u8));
        assert_eq!(blc_data.get(&(2, 2)), None);
    }
    {
        let blc = extract_block_from_image(&img, &(1, 1), 2, 2).unwrap();
        let blc_pvt = blc.pivot;

        let new = apply_block_operation(blc, &Op::Shift((-1, -1))).unwrap();
        assert_eq!(new.pivot.0, blc_pvt.0 - 1);
        assert_eq!(new.pivot.1, blc_pvt.1 - 1);

        let blc_data = new.block;
        assert_eq!(blc_data.get(&(0, 0)).unwrap(), &(7 as u8));
        assert_eq!(blc_data.get(&(0, 1)).unwrap(), &(8 as u8));
        assert_eq!(blc_data.get(&(1, 1)).unwrap(), &(9 as u8));
        assert_eq!(blc_data.get(&(1, 0)).unwrap(), &(0 as u8));
        assert_eq!(blc_data.get(&(2, 2)), None);
    }
}

#[test]
fn test_block_rotate() {
    let img = gen_test_image();
    {
        let blc = extract_block_from_image(&img, &(1, 1), 2, 2).unwrap();
        let blc_pvt = blc.pivot;

        let new = apply_block_operation(blc, &Op::Rotate(rotation(90.0_f64.to_radians()))).unwrap();
        assert_eq!(new.pivot.0, blc_pvt.0);
        assert_eq!(new.pivot.1, blc_pvt.1);

        let blc_data = new.block;
        assert_eq!(blc_data.get(&(0, 0)).unwrap(), &(7 as u8));
        assert_eq!(blc_data.get(&(1, 0)).unwrap(), &(8 as u8));
        assert_eq!(blc_data.get(&(1, -1)).unwrap(), &(9 as u8));
        assert_eq!(blc_data.get(&(0, -1)).unwrap(), &(0 as u8));
        assert_eq!(blc_data.get(&(2, 2)), None);
    }
    {
        let blc = extract_block_from_image(&img, &(1, 1), 2, 2).unwrap();
        let blc_pvt = blc.pivot;

        let new = apply_block_operation(blc, &Op::Rotate(rotation(-90.0_f64.to_radians()))).unwrap();
        assert_eq!(new.pivot.0, blc_pvt.0);
        assert_eq!(new.pivot.1, blc_pvt.1);

        let blc_data = new.block;
        assert_eq!(blc_data.get(&(0, 0)).unwrap(), &(7 as u8));
        assert_eq!(blc_data.get(&(0, 1)).unwrap(), &(0 as u8));
        assert_eq!(blc_data.get(&(-1, 0)).unwrap(), &(8 as u8));
        assert_eq!(blc_data.get(&(-1, 1)).unwrap(), &(9 as u8));
        assert_eq!(blc_data.get(&(2, 2)), None);
    }
    {
        let blc = extract_block_from_image(&img, &(1, 1), 2, 2).unwrap();
        let blc_pvt = blc.pivot;

        let new = apply_block_operation(blc, &Op::Rotate(rotation(45.0_f64.to_radians()))).unwrap();
        assert_eq!(new.pivot.0, blc_pvt.0);
        assert_eq!(new.pivot.1, blc_pvt.1);

        let blc_data = new.block;
        assert_eq!(blc_data.get(&(0, 0)).unwrap(), &(7 as u8));
        assert_eq!(blc_data.get(&(1, 1)).unwrap(), &(8 as u8));
        assert_eq!(blc_data.get(&(1, 0)).unwrap(), &(9 as u8));
        assert_eq!(blc_data.get(&(1, -1)).unwrap(), &(0 as u8));
        assert_eq!(blc_data.get(&(2, 2)), None);
    }
}

#[test]
fn test_block_change_color() {
    let img = gen_test_image();
    {
        let blc = extract_block_from_image(&img, &(1, 1), 2, 2).unwrap();
        let new = apply_block_operation(blc, &Op::ChangeColorUnconditionally(5)).unwrap();
        let blc_data = new.block;
        assert_eq!(blc_data.get(&(0, 0)).unwrap(), &(5 as u8));
        assert_eq!(blc_data.get(&(0, 1)).unwrap(), &(5 as u8));
        assert_eq!(blc_data.get(&(1, 0)).unwrap(), &(5 as u8));
        assert_eq!(blc_data.get(&(1, 1)).unwrap(), &(5 as u8));
        assert_eq!(blc_data.get(&(2, 2)), None);
    }
    {
        let blc = extract_block_from_image(&img, &(1, 1), 2, 2).unwrap();
        let new = apply_block_operation(
            blc,
            &Op::ChangeColor(|x| match x {
                0 => 4,
                9 => 5,
                _ => x,
            }),
        )
        .unwrap();
        let blc_data = new.block;
        assert_eq!(blc_data.get(&(0, 0)).unwrap(), &(7 as u8));
        assert_eq!(blc_data.get(&(0, 1)).unwrap(), &(8 as u8));
        assert_eq!(blc_data.get(&(1, 0)).unwrap(), &(4 as u8));
        assert_eq!(blc_data.get(&(1, 1)).unwrap(), &(5 as u8));
        assert_eq!(blc_data.get(&(2, 2)), None);
    }
}

#[test]
fn test_block_flip() {
    let img = gen_test_image();
    {
        let blc = extract_block_from_image(&img, &(1, 1), 2, 2).unwrap();
        let blc_pvt = blc.pivot;

        let new = apply_block_operation(blc, &Op::FlipX).unwrap();
        assert_eq!(new.pivot.0, blc_pvt.0);
        assert_eq!(new.pivot.1, blc_pvt.1);
        let blc_data = new.block;
        assert_eq!(blc_data.get(&(0, 0)).unwrap(), &(0 as u8));
        assert_eq!(blc_data.get(&(0, 1)).unwrap(), &(9 as u8));
        assert_eq!(blc_data.get(&(1, 0)).unwrap(), &(7 as u8));
        assert_eq!(blc_data.get(&(1, 1)).unwrap(), &(8 as u8));
        assert_eq!(blc_data.get(&(2, 2)), None);
    }
    {
        let blc = extract_block_from_image(&img, &(1, 1), 2, 2).unwrap();
        let blc_pvt = blc.pivot;

        let new = apply_block_operation(blc, &Op::FlipY).unwrap();
        assert_eq!(new.pivot.0, blc_pvt.0);
        assert_eq!(new.pivot.1, blc_pvt.1);
        let blc_data = new.block;
        assert_eq!(blc_data.get(&(0, 0)).unwrap(), &(8 as u8));
        assert_eq!(blc_data.get(&(0, 1)).unwrap(), &(7 as u8));
        assert_eq!(blc_data.get(&(1, 0)).unwrap(), &(9 as u8));
        assert_eq!(blc_data.get(&(1, 1)).unwrap(), &(0 as u8));
        assert_eq!(blc_data.get(&(2, 2)), None);
    }
}

#[test]
fn test_block_filter_by() {
    let img = gen_test_image();
    {
        let blc = extract_block_from_image(&img, &(1, 1), 2, 2).unwrap();
        let blc_pvt = blc.pivot;

        let new = apply_block_operation(blc, &Op::FilterBy(|_, c| c != 0)).unwrap();
        assert_eq!(new.pivot.0, blc_pvt.0);
        assert_eq!(new.pivot.1, blc_pvt.1);
        let blc_data = new.block;
        assert_eq!(blc_data.get(&(0, 0)).unwrap(), &(7 as u8));
        assert_eq!(blc_data.get(&(0, 1)).unwrap(), &(8 as u8));
        assert_eq!(blc_data.get(&(1, 1)).unwrap(), &(9 as u8));
        assert_eq!(blc_data.get(&(1, 0)), None);
    }
    {
        let blc = extract_block_from_image(&img, &(1, 1), 2, 2).unwrap();
        let blc_pvt = blc.pivot;

        let new = apply_block_operation(blc, &Op::FilterBy(|_, c| c == 3)).unwrap();
        assert_eq!(new.pivot.0, blc_pvt.0);
        assert_eq!(new.pivot.1, blc_pvt.1);
        let blc_data = new.block;
        assert_eq!(blc_data.get(&(0, 0)), None);
    }
}

#[test]
fn test_commit_block_to_image() {
    {
        let img = gen_test_image();

        let mut blc = extract_block_from_image(&img, &(1, 1), 2, 2).unwrap();
        blc = apply_block_operation(blc, &Op::Shift((1, 1))).unwrap();
        let _img = commit_block_to_image(img, &blc).unwrap();

        assert_eq!(_img.get(1, 1).unwrap(), 7 as u8);
        assert_eq!(_img.get(1, 2).unwrap(), 8 as u8);
        assert_eq!(_img.get(2, 2).unwrap(), 7 as u8);
        assert_eq!(_img.get(2, 3).unwrap(), 8 as u8);
        assert_eq!(_img.get(3, 3).unwrap(), 9 as u8);
        assert_eq!(_img.get(3, 2).unwrap(), 0 as u8);
        assert_eq!(_img.get(2, 1).unwrap(), 0 as u8);
    }
}

#[test]
fn test_perform_multiple_operations_on_image() {
    let img = gen_test_image();

    let mut ops: Vec<Op> = Vec::new();
    ops.push(Op::Block((1, 1), (2, 2)));
    ops.push(Op::FilterBy(|_, x| x != 0));
    ops.push(Op::Rotate(rotation(180_f64.to_radians())));
    ops.push(Op::Shift((1, 0)));

    let res = apply_image_operations(img, &ops).unwrap();

    assert_eq!(res.get(1, 1).unwrap(), 7 as u8);
    assert_eq!(res.get(1, 2).unwrap(), 8 as u8);
    assert_eq!(res.get(2, 2).unwrap(), 9 as u8);
    assert_eq!(res.get(2, 1).unwrap(), 7 as u8);
    assert_eq!(res.get(2, 0).unwrap(), 8 as u8);
    assert_eq!(res.get(1, 0).unwrap(), 9 as u8);
    assert_eq!(res.get(3, 3).unwrap(), 3 as u8);
}
