//! A sparse, pivot-relative overlay of a grid region, and the operations on it.
//!
//! A block maps points, relative to its pivot, to colors. The pivot is the absolute
//! position of the relative origin: the cell at relative `p` lies on the grid at
//! `pivot + p`. A point `(x, y)` indexes a grid by `x` on the first axis and `y` on the
//! second.

use vstd::prelude::*;
use std::collections::BTreeMap;
use vstd::std_specs::iter::IteratorSpec;
use crate::types::{Grid, Image};

verus! {

broadcast use {vstd::laws_cmp::group_laws_cmp, vstd::std_specs::btree::group_btree_axioms};

/// A position, absolute on a grid or relative to a pivot.
pub type Point = (i64, i64);

/// A displacement.
pub type Vector = (i64, i64);

/// A block: the colors of its populated cells by relative position, and its pivot.
#[derive(Debug)]
pub struct ImageBlock {
    pub block: BTreeMap<Point, u8>,
    pub pivot: Point,
}

/// The mathematical value of an [`ImageBlock`].
pub ghost struct BlockModel {
    pub cells: Map<Point, u8>,
    pub pivot: Point,
}

impl View for ImageBlock {
    type V = BlockModel;

    open spec fn view(&self) -> BlockModel {
        BlockModel { cells: self.block@, pivot: self.pivot }
    }
}

/// Why an operation gave no block.
#[derive(Clone, Copy, Debug, PartialEq, Eq, Structural)]
pub enum BlockError {
    /// A coordinate of the result does not fit a machine integer.
    Overflow,
    /// The operation is reserved and has no meaning yet.
    Unsupported,
    /// A cell of the block lies outside the grid that it is committed to.
    OutOfBounds,
}

impl BlockError {
    /// What went wrong, in words.
    pub fn message(&self) -> (text: String)
        ensures
            text@ == (match *self {
                BlockError::Overflow => "A coordinate does not fit"@,
                BlockError::Unsupported => "The operation is not supported"@,
                BlockError::OutOfBounds => "The block does not lie on the grid"@,
            }),
    {
        match self {
            BlockError::Overflow => "A coordinate does not fit".to_owned(),
            BlockError::Unsupported => "The operation is not supported".to_owned(),
            BlockError::OutOfBounds => "The block does not lie on the grid".to_owned(),
        }
    }
}

/// `v` is a value of `i64`.
pub open spec fn in_i64(v: int) -> bool {
    i64::MIN <= v <= i64::MAX
}

/// Both coordinates of `p + v` are values of `i64`.
pub open spec fn sum_fits(p: Point, v: Vector) -> bool {
    in_i64(p.0 + v.0) && in_i64(p.1 + v.1)
}

/// Both coordinates of `p - v` are values of `i64`.
pub open spec fn difference_fits(p: Point, v: Vector) -> bool {
    in_i64(p.0 - v.0) && in_i64(p.1 - v.1)
}

/// `p + v`, where it fits.
pub open spec fn plus(p: Point, v: Vector) -> Point
    recommends
        sum_fits(p, v),
{
    ((p.0 + v.0) as i64, (p.1 + v.1) as i64)
}

/// `p` lies in the rectangle of `w` by `h` points whose least corner is `origin`.
pub open spec fn in_rect(p: Point, origin: Point, w: u64, h: u64) -> bool {
    origin.0 <= p.0 < origin.0 + w && origin.1 <= p.1 < origin.1 + h
}

/// The entries of a map, each key once.
spec fn lists_map(v: Seq<(Point, u8)>, m: Map<Point, u8>) -> bool {
    &&& forall|i: int| 0 <= i < v.len() ==> m.contains_key(#[trigger] v[i].0) && m[v[i].0] == v[i].1
    &&& forall|k: Point| m.contains_key(k) ==> exists|i: int| 0 <= i < v.len() && #[trigger] v[i].0 == k
    &&& forall|i: int, j: int| 0 <= i < j < v.len() ==> #[trigger] v[i].0 != #[trigger] v[j].0
}

/// The cells of a block as a list, in the order of their positions.
fn entries(m: &BTreeMap<Point, u8>) -> (r: Vec<(Point, u8)>)
    ensures
        lists_map(r@, m@),
{
    let mut r: Vec<(Point, u8)> = Vec::new();
    for kv in it: m.iter()
        invariant
            it.seq() == m.iter().remaining(),
            it.seq().no_duplicates(),
            r@.len() == it.index(),
            forall|i: int|
                0 <= i < it.index() ==> (#[trigger] r@[i]).0 == *it.seq()[i].0 && r@[i].1
                    == *it.seq()[i].1,
    {
        let (k, v) = kv;
        r.push((*k, *v));
    }
    proof {
        let s = m.iter().remaining();
        assert forall|k: Point| m@.contains_key(k) implies exists|i: int|
            0 <= i < r@.len() && #[trigger] r@[i].0 == k by {
            assert(s.contains((&k, &m@[k])));
            let i = choose|i: int| 0 <= i < s.len() && s[i] == (&k, &m@[k]);
            assert(r@[i].0 == k);
        }
        assert forall|i: int, j: int| 0 <= i < j < r@.len() implies #[trigger] r@[i].0
            != #[trigger] r@[j].0 by {
            if r@[i].0 == r@[j].0 {
                assert(m@.contains_key(*s[i].0));
                assert(m@.contains_key(*s[j].0));
                assert(m@[*s[i].0] == *s[i].1);
                assert(m@[*s[j].0] == *s[j].1);
                assert(s[i] == s[j]);
            }
        }
    }
    r
}

/// `a + b`, unless it does not fit.
fn checked_sum(a: i64, b: i64) -> (r: Option<i64>)
    ensures
        r == (if in_i64(a + b) { Some((a + b) as i64) } else { None::<i64> }),
{
    a.checked_add(b)
}

/// `a - b`, unless it does not fit.
fn checked_difference(a: i64, b: i64) -> (r: Option<i64>)
    ensures
        r == (if in_i64(a - b) { Some((a - b) as i64) } else { None::<i64> }),
{
    a.checked_sub(b)
}

/// The cells of `b` moved by `-origin`; with a rectangle, those inside it only.
pub open spec fn rebased_cells(cells: Map<Point, u8>, origin: Point, clip: Option<(u64, u64)>) -> Map<Point, u8> {
    Map::new(
        |q: Point|
            sum_fits(q, origin) && cells.contains_key(plus(q, origin)) && (clip matches Some(
                (w, h),
            ) ==> in_rect(plus(q, origin), origin, w, h)),
        |q: Point| cells[plus(q, origin)],
    )
}

/// Every cell that `rebased_cells` keeps has a position that fits after the move.
pub open spec fn rebased_cells_fit(cells: Map<Point, u8>, origin: Point, clip: Option<(u64, u64)>) -> bool {
    forall|p: Point|
        #![trigger cells.contains_key(p)]
        cells.contains_key(p) && (clip matches Some((w, h)) ==> in_rect(p, origin, w, h))
            ==> difference_fits(p, origin)
}

/// The block can be given `origin` as its relative origin: the new pivot fits, and so
/// does the new position of every cell that is kept.
pub open spec fn rebase_fits(b: BlockModel, origin: Point, clip: Option<(u64, u64)>) -> bool {
    sum_fits(b.pivot, origin) && rebased_cells_fit(b.cells, origin, clip)
}

/// The block cut to the rectangle of `w` by `h` points at `origin`, with `origin` as
/// the new relative origin.
pub open spec fn cropped(b: BlockModel, origin: Point, w: u64, h: u64) -> BlockModel {
    BlockModel {
        cells: rebased_cells(b.cells, origin, Some((w, h))),
        pivot: plus(b.pivot, origin),
    }
}

/// The block with `origin` as the new relative origin.
pub open spec fn repivoted(b: BlockModel, origin: Point) -> BlockModel {
    BlockModel { cells: rebased_cells(b.cells, origin, None), pivot: plus(b.pivot, origin) }
}

/// The block moved by `v` on the grid.
pub open spec fn shifted(b: BlockModel, v: Vector) -> BlockModel {
    BlockModel { cells: b.cells, pivot: plus(b.pivot, v) }
}

/// Moves every cell by `-origin`, dropping those outside the rectangle if one is given.
/// `None` where a kept cell's new position does not fit.
fn rebase(block: &BTreeMap<Point, u8>, origin: &Point, clip: Option<(u64, u64)>) -> (r: Option<BTreeMap<Point, u8>>)
    ensures
        r is Some <==> rebased_cells_fit(block@, *origin, clip),
        r matches Some(m) ==> m@ == rebased_cells(block@, *origin, clip),
{
    let items = entries(block);
    let mut out: BTreeMap<Point, u8> = BTreeMap::new();
    let mut i: usize = 0;
    while i < items.len()
        invariant
            0 <= i <= items.len(),
            lists_map(items@, block@),
            forall|j: int|
                #![trigger items@[j]]
                0 <= j < i && (clip matches Some((w, h)) ==> in_rect(items@[j].0, *origin, w, h))
                    ==> difference_fits(items@[j].0, *origin) && out@.contains_key(
                    ((items@[j].0.0 - origin.0) as i64, (items@[j].0.1 - origin.1) as i64),
                ) && out@[((items@[j].0.0 - origin.0) as i64, (items@[j].0.1 - origin.1) as i64)]
                    == items@[j].1,
            forall|q: Point|
                #![trigger out@.contains_key(q)]
                out@.contains_key(q) ==> exists|j: int|
                    0 <= j < i && (clip matches Some((w, h)) ==> in_rect(
                        (#[trigger] items@[j]).0,
                        *origin,
                        w,
                        h,
                    )) && q.0 == items@[j].0.0 - origin.0 && q.1 == items@[j].0.1 - origin.1,
        decreases items.len() - i,
    {
        let (p, color) = items[i];
        let inside = match clip {
            Some((w, h)) => {
                p.0 >= origin.0 && (p.0 as i128) < (origin.0 as i128) + (w as i128) && p.1
                    >= origin.1 && (p.1 as i128) < (origin.1 as i128) + (h as i128)
            },
            None => true,
        };
        if inside {
            let x = checked_difference(p.0, origin.0);
            let y = checked_difference(p.1, origin.1);
            if x.is_none() || y.is_none() {
                proof {
                    assert(block@.contains_key(items@[i as int].0));
                }
                return None;
            }
            let ghost before = out@;
            out.insert((x.unwrap(), y.unwrap()), color);
            proof {
                assert forall|q: Point| out@.contains_key(q) implies exists|j: int|
                    0 <= j < i + 1 && (clip matches Some((w, h)) ==> in_rect(
                        (#[trigger] items@[j]).0,
                        *origin,
                        w,
                        h,
                    )) && q.0 == items@[j].0.0 - origin.0 && q.1 == items@[j].0.1 - origin.1 by {
                    if before.contains_key(q) {
                        let j = choose|j: int|
                            0 <= j < i && (clip matches Some((w, h)) ==> in_rect(
                                (#[trigger] items@[j]).0,
                                *origin,
                                w,
                                h,
                            )) && q.0 == items@[j].0.0 - origin.0 && q.1 == items@[j].0.1
                                - origin.1;
                        assert(0 <= j < i + 1);
                    } else {
                        assert(items@[i as int].0 == p);
                    }
                }
            }
        }
        i = i + 1;
    }
    proof {
        let want = rebased_cells(block@, *origin, clip);
        assert forall|p: Point|
            #![trigger block@.contains_key(p)]
            block@.contains_key(p) && (clip matches Some((w, h)) ==> in_rect(p, *origin, w, h))
                implies difference_fits(p, *origin) by {
            let j = choose|j: int| 0 <= j < items@.len() && #[trigger] items@[j].0 == p;
            assert(difference_fits(items@[j].0, *origin));
        }
        assert forall|q: Point| out@.contains_key(q) <==> want.contains_key(q) by {
            if out@.contains_key(q) {
                let j = choose|j: int|
                    0 <= j < i && (clip matches Some((w, h)) ==> in_rect(
                        (#[trigger] items@[j]).0,
                        *origin,
                        w,
                        h,
                    )) && q.0 == items@[j].0.0 - origin.0 && q.1 == items@[j].0.1 - origin.1;
                assert(block@.contains_key(items@[j].0));
                assert(plus(q, *origin) == items@[j].0);
            }
            if want.contains_key(q) {
                let p = plus(q, *origin);
                let j = choose|j: int| 0 <= j < items@.len() && #[trigger] items@[j].0 == p;
                assert(difference_fits(items@[j].0, *origin));
            }
        }
        assert forall|q: Point| out@.contains_key(q) implies out@[q] == want[q] by {
            let p = plus(q, *origin);
            assert(want.contains_key(q));
            let j = choose|j: int| 0 <= j < items@.len() && #[trigger] items@[j].0 == p;
            assert(difference_fits(items@[j].0, *origin));
        }
        assert(out@ =~= want);
    }
    Some(out)
}

/// Cuts the block to the rectangle of `w` by `h` points whose least corner is `pivot`,
/// given in the block's relative space, and makes that corner the new relative origin:
/// the cells outside are dropped, the others keep their place on the grid.
pub fn apply_block(blc: ImageBlock, pivot: &Point, w: u64, h: u64) -> (r: Result<ImageBlock, BlockError>)
    ensures
        r is Ok <==> rebase_fits(blc@, *pivot, Some((w, h))),
        r matches Ok(b) ==> b@ == cropped(blc@, *pivot, w, h),
        r matches Err(e) ==> e == BlockError::Overflow,
{
    let px = checked_sum(blc.pivot.0, pivot.0);
    let py = checked_sum(blc.pivot.1, pivot.1);
    if px.is_none() || py.is_none() {
        return Err(BlockError::Overflow);
    }
    match rebase(&blc.block, pivot, Some((w, h))) {
        Some(block) => Ok(ImageBlock { block, pivot: (px.unwrap(), py.unwrap()) }),
        None => Err(BlockError::Overflow),
    }
}

/// Makes `pivot`, given in the block's relative space, the new relative origin: every
/// cell keeps its place on the grid.
pub fn apply_pivot(blc: ImageBlock, pivot: &Point) -> (r: Result<ImageBlock, BlockError>)
    ensures
        r is Ok <==> rebase_fits(blc@, *pivot, None),
        r matches Ok(b) ==> b@ == repivoted(blc@, *pivot),
        r matches Err(e) ==> e == BlockError::Overflow,
{
    let px = checked_sum(blc.pivot.0, pivot.0);
    let py = checked_sum(blc.pivot.1, pivot.1);
    if px.is_none() || py.is_none() {
        return Err(BlockError::Overflow);
    }
    match rebase(&blc.block, pivot, None) {
        Some(block) => Ok(ImageBlock { block, pivot: (px.unwrap(), py.unwrap()) }),
        None => Err(BlockError::Overflow),
    }
}

/// Moves the block by `v` on the grid: the pivot moves, the relative positions stay.
pub fn apply_shift(blc: ImageBlock, v: &Vector) -> (r: Result<ImageBlock, BlockError>)
    ensures
        r is Ok <==> sum_fits(blc@.pivot, *v),
        r matches Ok(b) ==> b@ == shifted(blc@, *v),
        r matches Err(e) ==> e == BlockError::Overflow,
{
    let px = checked_sum(blc.pivot.0, v.0);
    let py = checked_sum(blc.pivot.1, v.1);
    if px.is_none() || py.is_none() {
        return Err(BlockError::Overflow);
    }
    Ok(ImageBlock { block: blc.block, pivot: (px.unwrap(), py.unwrap()) })
}

/// The block after `func` has been applied to the color of each cell: the same cells,
/// each with a color that `func` gives for its old one.
pub open spec fn recolored<C: Fn(u8) -> u8>(b: BlockModel, func: C, a: BlockModel) -> bool {
    &&& a.pivot == b.pivot
    &&& a.cells.dom() == b.cells.dom()
    &&& forall|p: Point|
        #![trigger a.cells[p]]
        b.cells.contains_key(p) ==> call_ensures(func, (b.cells[p],), a.cells[p])
}

/// The block with every cell in the one color.
pub open spec fn painted(b: BlockModel, color: u8) -> BlockModel {
    BlockModel { cells: Map::new(|p: Point| b.cells.contains_key(p), |p: Point| color), pivot: b.pivot }
}

/// The block after the cells for which `pred` gave `false` have been removed: each cell
/// that is left was there before, with its color, and `pred` gave `true` for it; for
/// each cell that is gone `pred` gave `false`.
pub open spec fn filtered<P: Fn(Point, u8) -> bool>(b: BlockModel, pred: P, a: BlockModel) -> bool {
    &&& a.pivot == b.pivot
    &&& forall|p: Point|
        #![trigger a.cells.contains_key(p)]
        a.cells.contains_key(p) ==> b.cells.contains_key(p) && a.cells[p] == b.cells[p]
    &&& forall|p: Point|
        #![trigger b.cells.contains_key(p)]
        b.cells.contains_key(p) ==> call_ensures(pred, (p, b.cells[p]), a.cells.contains_key(p))
}

/// The block after each cell has been moved to the point that `turn` gave for its
/// position. `image` is what `turn` gave. Where `turn` sends several cells to one point,
/// one of them is there.
pub open spec fn turned_by<R: Fn(Point) -> Point>(
    b: BlockModel,
    turn: R,
    image: Map<Point, Point>,
    a: BlockModel,
) -> bool {
    &&& a.pivot == b.pivot
    &&& image.dom() == b.cells.dom()
    &&& forall|p: Point|
        #![trigger image[p]]
        b.cells.contains_key(p) ==> call_ensures(turn, (p,), image[p]) && a.cells.contains_key(
            image[p],
        )
    &&& forall|q: Point|
        #![trigger a.cells.contains_key(q)]
        a.cells.contains_key(q) ==> exists|p: Point|
            #![trigger image[p]]
            b.cells.contains_key(p) && image[p] == q && a.cells[q] == b.cells[p]
}

/// The block after each cell has been moved to a point that `turn` gave for its
/// position.
pub open spec fn turned<R: Fn(Point) -> Point>(b: BlockModel, turn: R, a: BlockModel) -> bool {
    exists|image: Map<Point, Point>| turned_by(b, turn, image, a)
}

/// The coordinate of `p` that a flip changes: the first for a horizontal flip, the
/// second for a vertical one.
pub open spec fn flip_coord(p: Point, horizontal: bool) -> i64 {
    if horizontal {
        p.0
    } else {
        p.1
    }
}

/// `m` is the greatest of the pivot's coordinate and the coordinates of the cells.
pub open spec fn is_flip_axis(b: BlockModel, horizontal: bool, m: int) -> bool {
    &&& flip_coord(b.pivot, horizontal) <= m
    &&& forall|p: Point|
        #![trigger b.cells.contains_key(p)]
        b.cells.contains_key(p) ==> flip_coord(p, horizontal) <= m
    &&& (m == flip_coord(b.pivot, horizontal) || exists|p: Point|
        #![trigger b.cells.contains_key(p)]
        b.cells.contains_key(p) && flip_coord(p, horizontal) == m)
}

/// The axis of a flip: the greatest coordinate among the cells, or the pivot's where
/// that is greater or there is no cell.
pub open spec fn flip_axis(b: BlockModel, horizontal: bool) -> int {
    choose|m: int| is_flip_axis(b, horizontal, m)
}

/// The reflection of `p` about `m`: the changed coordinate `c` becomes `m - c`.
pub open spec fn mirrored(p: Point, horizontal: bool, m: int) -> Point
    recommends
        in_i64(m - flip_coord(p, horizontal)),
{
    if horizontal {
        ((m - p.0) as i64, p.1)
    } else {
        (p.0, (m - p.1) as i64)
    }
}

/// The reflection of every cell about the flip's axis fits.
pub open spec fn flip_fits(b: BlockModel, horizontal: bool) -> bool {
    forall|p: Point|
        #![trigger b.cells.contains_key(p)]
        b.cells.contains_key(p) ==> in_i64(flip_axis(b, horizontal) - flip_coord(p, horizontal))
}

/// The cells reflected about `m`.
pub open spec fn mirrored_cells(cells: Map<Point, u8>, horizontal: bool, m: int) -> Map<Point, u8> {
    Map::new(
        |q: Point|
            in_i64(m - flip_coord(q, horizontal)) && cells.contains_key(mirrored(q, horizontal, m)),
        |q: Point| cells[mirrored(q, horizontal, m)],
    )
}

/// The block reflected about its flip axis.
pub open spec fn flipped(b: BlockModel, horizontal: bool) -> BlockModel {
    BlockModel { cells: mirrored_cells(b.cells, horizontal, flip_axis(b, horizontal)), pivot: b.pivot }
}

/// A block has at most one flip axis.
pub proof fn lemma_flip_axis_unique(b: BlockModel, horizontal: bool, m: int)
    requires
        is_flip_axis(b, horizontal, m),
    ensures
        flip_axis(b, horizontal) == m,
{
    let n = flip_axis(b, horizontal);
    assert(is_flip_axis(b, horizontal, n));
}

/// Flipping twice gives the block back wherever the first flip leaves the axis where it
/// was, and the reflections fit.
pub proof fn lemma_flip_twice(b: BlockModel, horizontal: bool)
    requires
        flip_fits(b, horizontal),
        flip_axis(flipped(b, horizontal), horizontal) == flip_axis(b, horizontal),
    ensures
        flipped(flipped(b, horizontal), horizontal) == b,
        flip_fits(flipped(b, horizontal), horizontal),
{
    let m = flip_axis(b, horizontal);
    let once = flipped(b, horizontal);
    let twice = flipped(once, horizontal);
    assert forall|q: Point| twice.cells.contains_key(q) <==> b.cells.contains_key(q) by {
        if b.cells.contains_key(q) {
            let r = mirrored(q, horizontal, m);
            assert(mirrored(r, horizontal, m) == q);
            assert(once.cells.contains_key(r));
        }
        if twice.cells.contains_key(q) {
            let r = mirrored(q, horizontal, m);
            assert(once.cells.contains_key(r));
            assert(mirrored(r, horizontal, m) == q);
        }
    }
    assert forall|q: Point| twice.cells.contains_key(q) implies twice.cells[q] == b.cells[q] by {
        let r = mirrored(q, horizontal, m);
        assert(mirrored(r, horizontal, m) == q);
    }
    assert(twice.cells =~= b.cells);
    assert forall|p: Point|
        #![trigger once.cells.contains_key(p)]
        once.cells.contains_key(p) implies in_i64(m - flip_coord(p, horizontal)) by {}
}

/// The first flip leaves the axis where it was wherever no cell has a negative
/// coordinate, and a cell has the coordinate 0 or the axis is the pivot's coordinate: so
/// it is for a block as it was extracted or cropped.
pub proof fn lemma_flip_keeps_axis(b: BlockModel, horizontal: bool, m: int)
    requires
        is_flip_axis(b, horizontal, m),
        flip_fits(b, horizontal),
        forall|p: Point|
            #![trigger b.cells.contains_key(p)]
            b.cells.contains_key(p) ==> flip_coord(p, horizontal) >= 0,
        m == flip_coord(b.pivot, horizontal) || exists|p: Point|
            #![trigger b.cells.contains_key(p)]
            b.cells.contains_key(p) && flip_coord(p, horizontal) == 0,
    ensures
        flip_axis(flipped(b, horizontal), horizontal) == flip_axis(b, horizontal),
{
    lemma_flip_axis_unique(b, horizontal, m);
    let once = flipped(b, horizontal);
    assert forall|q: Point|
        #![trigger once.cells.contains_key(q)]
        once.cells.contains_key(q) implies flip_coord(q, horizontal) <= m by {
        assert(b.cells.contains_key(mirrored(q, horizontal, m)));
    }
    if m != flip_coord(b.pivot, horizontal) {
        let p = choose|p: Point|
            #![trigger b.cells.contains_key(p)]
            b.cells.contains_key(p) && flip_coord(p, horizontal) == 0;
        let q = mirrored(p, horizontal, m);
        assert(mirrored(q, horizontal, m) == p);
        assert(once.cells.contains_key(q) && flip_coord(q, horizontal) == m);
    }
    assert(is_flip_axis(once, horizontal, m));
    lemma_flip_axis_unique(once, horizontal, m);
}

/// One color through `func`.
fn recolor_one<C: Fn(u8) -> u8>(func: &C, color: u8) -> (c: u8)
    requires
        call_requires(*func, (color,)),
    ensures
        call_ensures(*func, (color,), c),
{
    func(color)
}

/// Applies `func` to the color of each cell.
fn recolor<C: Fn(u8) -> u8>(blc: ImageBlock, func: &C) -> (a: ImageBlock)
    requires
        forall|p: Point|
            #![trigger blc@.cells.contains_key(p)]
            blc@.cells.contains_key(p) ==> call_requires(*func, (blc@.cells[p],)),
    ensures
        recolored(blc@, *func, a@),
{
    let items = entries(&blc.block);
    let mut out: BTreeMap<Point, u8> = BTreeMap::new();
    let mut i: usize = 0;
    while i < items.len()
        invariant
            0 <= i <= items.len(),
            lists_map(items@, blc.block@),
            forall|p: Point|
                #![trigger blc@.cells.contains_key(p)]
                blc@.cells.contains_key(p) ==> call_requires(*func, (blc@.cells[p],)),
            forall|j: int|
                #![trigger items@[j]]
                0 <= j < i ==> out@.contains_key(items@[j].0) && call_ensures(
                    *func,
                    (items@[j].1,),
                    out@[items@[j].0],
                ),
            forall|q: Point|
                #![trigger out@.contains_key(q)]
                out@.contains_key(q) ==> exists|j: int| 0 <= j < i && (#[trigger] items@[j]).0 == q,
        decreases items.len() - i,
    {
        let (p, color) = items[i];
        proof {
            assert(blc@.cells.contains_key(items@[i as int].0));
        }
        let c = recolor_one(func, color);
        let ghost before = out@;
        out.insert(p, c);
        proof {
            assert forall|q: Point| out@.contains_key(q) implies exists|j: int|
                0 <= j < i + 1 && (#[trigger] items@[j]).0 == q by {
                if before.contains_key(q) {
                    let j = choose|j: int| 0 <= j < i && (#[trigger] items@[j]).0 == q;
                    assert(0 <= j < i + 1);
                } else {
                    assert(items@[i as int].0 == q);
                }
            }
        }
        i = i + 1;
    }
    let a = ImageBlock { block: out, pivot: blc.pivot };
    proof {
        assert forall|p: Point| a@.cells.contains_key(p) <==> blc@.cells.contains_key(p) by {
            if a@.cells.contains_key(p) {
                let j = choose|j: int| 0 <= j < i && (#[trigger] items@[j]).0 == p;
                assert(blc@.cells.contains_key(items@[j].0));
            }
            if blc@.cells.contains_key(p) {
                let j = choose|j: int| 0 <= j < items@.len() && #[trigger] items@[j].0 == p;
                assert(out@.contains_key(items@[j].0));
            }
        }
        assert(a@.cells.dom() =~= blc@.cells.dom());
        assert forall|p: Point|
            #![trigger a@.cells[p]]
            blc@.cells.contains_key(p) implies call_ensures(*func, (blc@.cells[p],), a@.cells[p]) by {
            let j = choose|j: int| 0 <= j < items@.len() && #[trigger] items@[j].0 == p;
            assert(out@.contains_key(items@[j].0));
        }
    }
    a
}

/// Replaces the color of each cell by what `func` gives for it. The populated
/// positions stay.
pub fn apply_change_color<C: Fn(u8) -> u8>(blc: ImageBlock, func: C) -> (r: Result<ImageBlock, BlockError>)
    requires
        forall|p: Point|
            #![trigger blc@.cells.contains_key(p)]
            blc@.cells.contains_key(p) ==> call_requires(func, (blc@.cells[p],)),
    ensures
        r matches Ok(a) && recolored(blc@, func, a@),
{
    Ok(recolor(blc, &func))
}

/// Gives every cell the color `color`. The populated positions stay.
pub fn apply_change_color_unconditionally(blc: ImageBlock, color: u8) -> (r: Result<ImageBlock, BlockError>)
    ensures
        r matches Ok(a) && a@ == painted(blc@, color),
{
    let items = entries(&blc.block);
    let mut out: BTreeMap<Point, u8> = BTreeMap::new();
    let mut i: usize = 0;
    while i < items.len()
        invariant
            0 <= i <= items.len(),
            lists_map(items@, blc.block@),
            forall|j: int|
                #![trigger items@[j]]
                0 <= j < i ==> out@.contains_key(items@[j].0),
            forall|q: Point|
                #![trigger out@.contains_key(q)]
                out@.contains_key(q) ==> out@[q] == color && exists|j: int|
                    0 <= j < i && (#[trigger] items@[j]).0 == q,
        decreases items.len() - i,
    {
        let (p, _) = items[i];
        let ghost before = out@;
        out.insert(p, color);
        proof {
            assert forall|q: Point| out@.contains_key(q) implies out@[q] == color && exists|j: int|
                0 <= j < i + 1 && (#[trigger] items@[j]).0 == q by {
                if before.contains_key(q) {
                    let j = choose|j: int| 0 <= j < i && (#[trigger] items@[j]).0 == q;
                    assert(0 <= j < i + 1);
                } else {
                    assert(items@[i as int].0 == q);
                }
            }
        }
        i = i + 1;
    }
    let a = ImageBlock { block: out, pivot: blc.pivot };
    proof {
        let want = painted(blc@, color);
        assert forall|p: Point| a@.cells.contains_key(p) <==> want.cells.contains_key(p) by {
            if a@.cells.contains_key(p) {
                let j = choose|j: int| 0 <= j < i && (#[trigger] items@[j]).0 == p;
                assert(blc@.cells.contains_key(items@[j].0));
            }
            if blc@.cells.contains_key(p) {
                let j = choose|j: int| 0 <= j < items@.len() && #[trigger] items@[j].0 == p;
                assert(out@.contains_key(items@[j].0));
            }
        }
        assert(a@.cells =~= want.cells);
    }
    Ok(a)
}

/// The verdict of `pred` on one cell.
fn keeps<P: Fn(Point, u8) -> bool>(pred: &P, p: Point, color: u8) -> (b: bool)
    requires
        call_requires(*pred, (p, color)),
    ensures
        call_ensures(*pred, (p, color), b),
{
    pred(p, color)
}

/// Removes the cells for which `pred` gives `false`.
fn retain<P: Fn(Point, u8) -> bool>(blc: ImageBlock, pred: &P) -> (a: ImageBlock)
    requires
        forall|p: Point|
            #![trigger blc@.cells.contains_key(p)]
            blc@.cells.contains_key(p) ==> call_requires(*pred, (p, blc@.cells[p])),
    ensures
        filtered(blc@, *pred, a@),
{
    let items = entries(&blc.block);
    let mut out: BTreeMap<Point, u8> = BTreeMap::new();
    let mut i: usize = 0;
    while i < items.len()
        invariant
            0 <= i <= items.len(),
            lists_map(items@, blc.block@),
            forall|p: Point|
                #![trigger blc@.cells.contains_key(p)]
                blc@.cells.contains_key(p) ==> call_requires(*pred, (p, blc@.cells[p])),
            forall|j: int|
                #![trigger items@[j]]
                0 <= j < i ==> call_ensures(
                    *pred,
                    (items@[j].0, items@[j].1),
                    out@.contains_key(items@[j].0),
                ),
            forall|q: Point|
                #![trigger out@.contains_key(q)]
                out@.contains_key(q) ==> exists|j: int|
                    0 <= j < i && (#[trigger] items@[j]).0 == q && out@[q] == items@[j].1,
        decreases items.len() - i,
    {
        let (p, color) = items[i];
        proof {
            assert(blc@.cells.contains_key(items@[i as int].0));
        }
        let ghost before = out@;
        if keeps(pred, p, color) {
            out.insert(p, color);
        }
        proof {
            assert(!before.contains_key(p)) by {
                if before.contains_key(p) {
                    let j = choose|j: int|
                        0 <= j < i && (#[trigger] items@[j]).0 == p && before[p] == items@[j].1;
                    assert(items@[j].0 != items@[i as int].0);
                }
            }
            assert forall|q: Point| out@.contains_key(q) implies exists|j: int|
                0 <= j < i + 1 && (#[trigger] items@[j]).0 == q && out@[q] == items@[j].1 by {
                if before.contains_key(q) {
                    let j = choose|j: int|
                        0 <= j < i && (#[trigger] items@[j]).0 == q && before[q] == items@[j].1;
                    assert(0 <= j < i + 1);
                } else {
                    assert(items@[i as int].0 == q);
                }
            }
            assert forall|j: int|
                #![trigger items@[j]]
                0 <= j < i + 1 implies call_ensures(
                *pred,
                (items@[j].0, items@[j].1),
                out@.contains_key(items@[j].0),
            ) by {
                if j < i {
                    assert(items@[j].0 != items@[i as int].0);
                }
            }
        }
        i = i + 1;
    }
    let a = ImageBlock { block: out, pivot: blc.pivot };
    proof {
        assert forall|p: Point|
            #![trigger a@.cells.contains_key(p)]
            a@.cells.contains_key(p) implies blc@.cells.contains_key(p) && a@.cells[p]
            == blc@.cells[p] by {
            let j = choose|j: int|
                0 <= j < i && (#[trigger] items@[j]).0 == p && out@[p] == items@[j].1;
            assert(blc@.cells.contains_key(items@[j].0));
        }
        assert forall|p: Point|
            #![trigger blc@.cells.contains_key(p)]
            blc@.cells.contains_key(p) implies call_ensures(
            *pred,
            (p, blc@.cells[p]),
            a@.cells.contains_key(p),
        ) by {
            let j = choose|j: int| 0 <= j < items@.len() && #[trigger] items@[j].0 == p;
            assert(blc@.cells[items@[j].0] == items@[j].1);
        }
    }
    a
}

/// Removes the cells for which `pred`, given the relative position and the color,
/// answers `false`. No cell is added or changed.
pub fn apply_filter_by<P: Fn(Point, u8) -> bool>(blc: ImageBlock, pred: P) -> (r: Result<ImageBlock, BlockError>)
    requires
        forall|p: Point|
            #![trigger blc@.cells.contains_key(p)]
            blc@.cells.contains_key(p) ==> call_requires(pred, (p, blc@.cells[p])),
    ensures
        r matches Ok(a) && filtered(blc@, pred, a@),
{
    Ok(retain(blc, &pred))
}

/// The greater of two coordinates.
fn larger(a: i64, b: i64) -> (m: i64)
    ensures
        m == (if a >= b { a } else { b }),
{
    if a >= b {
        a
    } else {
        b
    }
}

/// Reflects the block about its flip axis.
fn reflect(blc: ImageBlock, horizontal: bool) -> (r: Result<ImageBlock, BlockError>)
    ensures
        r is Ok <==> flip_fits(blc@, horizontal),
        r matches Ok(a) ==> a@ == flipped(blc@, horizontal),
        r matches Err(e) ==> e == BlockError::Overflow,
{
    let items = entries(&blc.block);
    let mut m: i64 = if horizontal {
        blc.pivot.0
    } else {
        blc.pivot.1
    };
    let mut i: usize = 0;
    while i < items.len()
        invariant
            0 <= i <= items.len(),
            flip_coord(blc.pivot, horizontal) <= m,
            forall|j: int| 0 <= j < i ==> flip_coord((#[trigger] items@[j]).0, horizontal) <= m,
            m == flip_coord(blc.pivot, horizontal) || exists|j: int|
                0 <= j < i && flip_coord((#[trigger] items@[j]).0, horizontal) == m,
        decreases items.len() - i,
    {
        let (p, _) = items[i];
        let c = if horizontal {
            p.0
        } else {
            p.1
        };
        m = larger(m, c);
        i = i + 1;
    }
    proof {
        assert forall|p: Point|
            #![trigger blc@.cells.contains_key(p)]
            blc@.cells.contains_key(p) implies flip_coord(p, horizontal) <= m by {
            let j = choose|j: int| 0 <= j < items@.len() && #[trigger] items@[j].0 == p;
            assert(flip_coord(items@[j].0, horizontal) <= m);
        }
        if m != flip_coord(blc.pivot, horizontal) {
            let j = choose|j: int|
                0 <= j < i && flip_coord((#[trigger] items@[j]).0, horizontal) == m;
            assert(blc@.cells.contains_key(items@[j].0));
        }
        lemma_flip_axis_unique(blc@, horizontal, m as int);
    }
    let mut out: BTreeMap<Point, u8> = BTreeMap::new();
    let mut k: usize = 0;
    while k < items.len()
        invariant
            0 <= k <= items.len(),
            lists_map(items@, blc.block@),
            flip_axis(blc@, horizontal) == m,
            forall|j: int|
                #![trigger items@[j]]
                0 <= j < k ==> in_i64(m - flip_coord(items@[j].0, horizontal)) && out@.contains_key(
                    mirrored(items@[j].0, horizontal, m as int),
                ) && out@[mirrored(items@[j].0, horizontal, m as int)] == items@[j].1,
            forall|q: Point|
                #![trigger out@.contains_key(q)]
                out@.contains_key(q) ==> exists|j: int|
                    0 <= j < k && mirrored((#[trigger] items@[j]).0, horizontal, m as int) == q,
        decreases items.len() - k,
    {
        let (p, color) = items[k];
        let q = if horizontal {
            match checked_difference(m, p.0) {
                Some(x) => Some((x, p.1)),
                None => None,
            }
        } else {
            match checked_difference(m, p.1) {
                Some(y) => Some((p.0, y)),
                None => None,
            }
        };
        match q {
            None => {
                proof {
                    assert(blc@.cells.contains_key(items@[k as int].0));
                }
                return Err(BlockError::Overflow);
            },
            Some(q) => {
                let ghost before = out@;
                out.insert(q, color);
                proof {
                    assert forall|t: Point|
                        #![trigger out@.contains_key(t)]
                        out@.contains_key(t) implies exists|j: int|
                        0 <= j < k + 1 && mirrored((#[trigger] items@[j]).0, horizontal, m as int)
                            == t by {
                        if before.contains_key(t) {
                            let j = choose|j: int|
                                0 <= j < k && mirrored(
                                    (#[trigger] items@[j]).0,
                                    horizontal,
                                    m as int,
                                ) == t;
                            assert(0 <= j < k + 1);
                        } else {
                            assert(mirrored(items@[k as int].0, horizontal, m as int) == t);
                        }
                    }
                }
            },
        }
        k = k + 1;
    }
    let a = ImageBlock { block: out, pivot: blc.pivot };
    proof {
        let want = flipped(blc@, horizontal);
        assert forall|p: Point|
            #![trigger blc@.cells.contains_key(p)]
            blc@.cells.contains_key(p) implies in_i64(m - flip_coord(p, horizontal)) by {
            let j = choose|j: int| 0 <= j < items@.len() && #[trigger] items@[j].0 == p;
            assert(in_i64(m - flip_coord(items@[j].0, horizontal)));
        }
        assert forall|q: Point| a@.cells.contains_key(q) <==> want.cells.contains_key(q) by {
            if a@.cells.contains_key(q) {
                let j = choose|j: int|
                    0 <= j < k && mirrored((#[trigger] items@[j]).0, horizontal, m as int) == q;
                assert(blc@.cells.contains_key(items@[j].0));
                assert(in_i64(m - flip_coord(items@[j].0, horizontal)));
                assert(mirrored(q, horizontal, m as int) == items@[j].0);
            }
            if want.cells.contains_key(q) {
                let p = mirrored(q, horizontal, m as int);
                let j = choose|j: int| 0 <= j < items@.len() && #[trigger] items@[j].0 == p;
                assert(mirrored(items@[j].0, horizontal, m as int) == q);
            }
        }
        assert forall|q: Point| a@.cells.contains_key(q) implies a@.cells[q] == want.cells[q] by {
            let p = mirrored(q, horizontal, m as int);
            assert(want.cells.contains_key(q));
            let j = choose|j: int| 0 <= j < items@.len() && #[trigger] items@[j].0 == p;
            assert(mirrored(items@[j].0, horizontal, m as int) == q);
        }
        assert(a@.cells =~= want.cells);
    }
    Ok(a)
}

/// Reflects the first coordinate of every cell about the flip axis: the greatest first
/// coordinate among the cells, or the pivot's where that is greater.
pub fn apply_flip_x(blc: ImageBlock) -> (r: Result<ImageBlock, BlockError>)
    ensures
        r is Ok <==> flip_fits(blc@, true),
        r matches Ok(a) ==> a@ == flipped(blc@, true),
        r matches Err(e) ==> e == BlockError::Overflow,
{
    reflect(blc, true)
}

/// Reflects the second coordinate of every cell about the flip axis: the greatest
/// second coordinate among the cells, or the pivot's where that is greater.
pub fn apply_flip_y(blc: ImageBlock) -> (r: Result<ImageBlock, BlockError>)
    ensures
        r is Ok <==> flip_fits(blc@, false),
        r matches Ok(a) ==> a@ == flipped(blc@, false),
        r matches Err(e) ==> e == BlockError::Overflow,
{
    reflect(blc, false)
}

/// Where `turn` sends one point.
fn turn_one<R: Fn(Point) -> Point>(turn: &R, p: Point) -> (q: Point)
    requires
        call_requires(*turn, (p,)),
    ensures
        call_ensures(*turn, (p,), q),
{
    turn(p)
}

/// Moves each cell to the point that `turn` gives for its position.
fn turn_cells<R: Fn(Point) -> Point>(blc: ImageBlock, turn: &R) -> (a: ImageBlock)
    requires
        forall|p: Point|
            #![trigger blc@.cells.contains_key(p)]
            blc@.cells.contains_key(p) ==> call_requires(*turn, (p,)),
    ensures
        turned(blc@, *turn, a@),
{
    let items = entries(&blc.block);
    let mut out: BTreeMap<Point, u8> = BTreeMap::new();
    let ghost mut image: Map<Point, Point> = Map::empty();
    let mut i: usize = 0;
    while i < items.len()
        invariant
            0 <= i <= items.len(),
            lists_map(items@, blc.block@),
            forall|p: Point|
                #![trigger blc@.cells.contains_key(p)]
                blc@.cells.contains_key(p) ==> call_requires(*turn, (p,)),
            forall|p: Point|
                #![trigger image.contains_key(p)]
                image.contains_key(p) <==> exists|j: int| 0 <= j < i && (#[trigger] items@[j]).0 == p,
            forall|p: Point|
                #![trigger image[p]]
                image.contains_key(p) ==> call_ensures(*turn, (p,), image[p]) && out@.contains_key(
                    image[p],
                ),
            forall|q: Point|
                #![trigger out@.contains_key(q)]
                out@.contains_key(q) ==> exists|j: int|
                    0 <= j < i && image[(#[trigger] items@[j]).0] == q && out@[q] == items@[j].1,
        decreases items.len() - i,
    {
        let (p, color) = items[i];
        proof {
            assert(blc@.cells.contains_key(items@[i as int].0));
        }
        let q = turn_one(turn, p);
        let ghost before = out@;
        let ghost image_before = image;
        out.insert(q, color);
        proof {
            assert(!image_before.contains_key(p)) by {
                if image_before.contains_key(p) {
                    let j = choose|j: int| 0 <= j < i && (#[trigger] items@[j]).0 == p;
                    assert(items@[j].0 != items@[i as int].0);
                }
            }
            image = image_before.insert(p, q);
            assert forall|t: Point|
                #![trigger image.contains_key(t)]
                image.contains_key(t) <==> exists|j: int|
                    0 <= j < i + 1 && (#[trigger] items@[j]).0 == t by {
                if image.contains_key(t) {
                    if t == p {
                        assert(items@[i as int].0 == t);
                    } else {
                        let j = choose|j: int| 0 <= j < i && (#[trigger] items@[j]).0 == t;
                        assert(0 <= j < i + 1);
                    }
                }
                if exists|j: int| 0 <= j < i + 1 && (#[trigger] items@[j]).0 == t {
                    let j = choose|j: int| 0 <= j < i + 1 && (#[trigger] items@[j]).0 == t;
                    if j < i {
                        assert(image_before.contains_key(t));
                    }
                }
            }
            assert forall|t: Point|
                #![trigger out@.contains_key(t)]
                out@.contains_key(t) implies exists|j: int|
                0 <= j < i + 1 && image[(#[trigger] items@[j]).0] == t && out@[t] == items@[j].1 by {
                if t == q {
                    assert(image[items@[i as int].0] == t);
                } else {
                    let j = choose|j: int|
                        0 <= j < i && image_before[(#[trigger] items@[j]).0] == t && before[t]
                            == items@[j].1;
                    assert(items@[j].0 != items@[i as int].0);
                    assert(0 <= j < i + 1 && image[items@[j].0] == t);
                }
            }
        }
        i = i + 1;
    }
    let a = ImageBlock { block: out, pivot: blc.pivot };
    proof {
        assert forall|p: Point| image.contains_key(p) <==> blc@.cells.contains_key(p) by {
            if image.contains_key(p) {
                let j = choose|j: int| 0 <= j < i && (#[trigger] items@[j]).0 == p;
                assert(blc@.cells.contains_key(items@[j].0));
            }
            if blc@.cells.contains_key(p) {
                let j = choose|j: int| 0 <= j < items@.len() && #[trigger] items@[j].0 == p;
                assert(0 <= j < i);
            }
        }
        assert(image.dom() =~= blc@.cells.dom());
        assert forall|q: Point|
            #![trigger a@.cells.contains_key(q)]
            a@.cells.contains_key(q) implies exists|p: Point|
            #![trigger image[p]]
            blc@.cells.contains_key(p) && image[p] == q && a@.cells[q] == blc@.cells[p] by {
            let j = choose|j: int|
                0 <= j < i && image[(#[trigger] items@[j]).0] == q && out@[q] == items@[j].1;
            let p = items@[j].0;
            assert(blc@.cells.contains_key(items@[j].0));
            assert(blc@.cells.contains_key(p) && image[p] == q && a@.cells[q] == blc@.cells[p]);
        }
        assert(turned_by(blc@, *turn, image, a@));
    }
    a
}

/// Moves each cell to the point that `turn` gives for its relative position; the pivot
/// stays. `turn` is the rotation, as a function on relative points: for an angle in
/// radians, counterclockwise, it takes `(x, y)` to `(cos * x + sin * y, -sin * x +
/// cos * y)`, each rounded to the nearest integer, halves upwards.
pub fn apply_rotate<R: Fn(Point) -> Point>(blc: ImageBlock, turn: R) -> (r: Result<ImageBlock, BlockError>)
    requires
        forall|p: Point|
            #![trigger blc@.cells.contains_key(p)]
            blc@.cells.contains_key(p) ==> call_requires(turn, (p,)),
    ensures
        r matches Ok(a) && turned(blc@, turn, a@),
{
    Ok(turn_cells(blc, &turn))
}

/// The rectangle of `w` by `h` points whose least corner is `origin` lies on the grid.
pub open spec fn rect_in_grid(g: Grid, origin: Point, w: u64, h: u64) -> bool {
    0 <= origin.0 && origin.0 + w <= g.rows.len() && 0 <= origin.1 && origin.1 + h <= g.width
}

/// The block that holds the grid's cells in the rectangle of `w` by `h` points at
/// `origin`, by their position relative to `origin`.
pub open spec fn extracted(g: Grid, origin: Point, w: u64, h: u64) -> BlockModel {
    BlockModel {
        cells: Map::new(
            |q: Point| 0 <= q.0 < w && 0 <= q.1 < h,
            |q: Point| g.rows[q.0 + origin.0][q.1 + origin.1],
        ),
        pivot: origin,
    }
}

/// The block that holds every cell of the grid, with the pivot at the grid's origin.
pub open spec fn whole(g: Grid) -> BlockModel {
    extracted(g, (0, 0), g.rows.len() as u64, g.width as u64)
}

/// Every cell of the block lies on the grid.
pub open spec fn block_fits(b: BlockModel, g: Grid) -> bool {
    forall|p: Point|
        #![trigger b.cells.contains_key(p)]
        b.cells.contains_key(p) ==> g.has(p.0 + b.pivot.0, p.1 + b.pivot.1)
}

/// The color at `(x, y)` once the cells have been written onto the grid: that of the
/// cell that lies there, or the grid's own where none does.
pub open spec fn committed_cell(g: Grid, cells: Map<Point, u8>, pivot: Point, x: int, y: int) -> u8 {
    if in_i64(x - pivot.0) && in_i64(y - pivot.1) && cells.contains_key(
        ((x - pivot.0) as i64, (y - pivot.1) as i64),
    ) {
        cells[((x - pivot.0) as i64, (y - pivot.1) as i64)]
    } else {
        g.rows[x][y]
    }
}

/// The grid with the cells written onto it, each at its position plus `pivot`.
pub open spec fn committed_cells(g: Grid, cells: Map<Point, u8>, pivot: Point) -> Grid {
    Grid {
        rows: Seq::new(
            g.rows.len(),
            |x: int| Seq::new(g.width, |y: int| committed_cell(g, cells, pivot, x, y)),
        ),
        width: g.width,
    }
}

/// The grid with the block written onto it.
pub open spec fn committed(g: Grid, b: BlockModel) -> Grid {
    committed_cells(g, b.cells, b.pivot)
}

/// A block taken from a grid and written back at once leaves the grid as it was.
pub proof fn lemma_extract_commit(g: Grid, origin: Point, w: u64, h: u64)
    requires
        g.wf(),
        rect_in_grid(g, origin, w, h),
    ensures
        block_fits(extracted(g, origin, w, h), g),
        committed(g, extracted(g, origin, w, h)) == g,
{
    let b = extracted(g, origin, w, h);
    let c = committed(g, b);
    assert forall|x: int| 0 <= x < g.rows.len() implies #[trigger] c.rows[x] == g.rows[x] by {
        assert(g.rows[x].len() == g.width);
        assert forall|y: int| 0 <= y < g.width implies #[trigger] c.rows[x][y] == g.rows[x][y] by {
            assert(c.rows[x][y] == committed_cell(g, b.cells, b.pivot, x, y));
        }
        assert(c.rows[x] =~= g.rows[x]);
    }
    assert(c.rows =~= g.rows);
}

/// Reads the grid's cells in the rectangle of `w` by `h` points whose least corner is
/// `pivot` into a block, by their position relative to `pivot`, which becomes the
/// block's pivot.
pub fn extract_block_from_image(src: &Image, pivot: &Point, w: u64, h: u64) -> (r: Result<ImageBlock, BlockError>)
    requires
        rect_in_grid(src@, *pivot, w, h),
    ensures
        r matches Ok(b) && b@ == extracted(src@, *pivot, w, h),
{
    let d = src.shape();
    let mut out: BTreeMap<Point, u8> = BTreeMap::new();
    let mut dx: u64 = 0;
    while dx < w
        invariant
            0 <= dx <= w,
            rect_in_grid(src@, *pivot, w, h),
            d.0 == src@.rows.len(),
            d.1 == src@.width,
            d.0 <= isize::MAX,
            d.1 <= isize::MAX,
            src@.wf(),
            forall|q: Point|
                #![trigger out@.contains_key(q)]
                out@.contains_key(q) <==> 0 <= q.0 < dx && 0 <= q.1 < h,
            forall|q: Point|
                #![trigger out@[q]]
                out@.contains_key(q) ==> out@[q] == src@.rows[q.0 + pivot.0][q.1 + pivot.1],
        decreases w - dx,
    {
        let mut dy: u64 = 0;
        while dy < h
            invariant
                0 <= dx < w,
                0 <= dy <= h,
                rect_in_grid(src@, *pivot, w, h),
                d.0 == src@.rows.len(),
                d.1 == src@.width,
                d.0 <= isize::MAX,
                d.1 <= isize::MAX,
                src@.wf(),
                forall|q: Point|
                    #![trigger out@.contains_key(q)]
                    out@.contains_key(q) <==> (0 <= q.0 < dx && 0 <= q.1 < h) || (q.0 == dx && 0
                        <= q.1 < dy),
                forall|q: Point|
                    #![trigger out@[q]]
                    out@.contains_key(q) ==> out@[q] == src@.rows[q.0 + pivot.0][q.1 + pivot.1],
            decreases h - dy,
        {
            let x: i64 = pivot.0 + (dx as i64);
            let y: i64 = pivot.1 + (dy as i64);
            let color = src.at(x as usize, y as usize);
            out.insert((dx as i64, dy as i64), color);
            dy = dy + 1;
        }
        dx = dx + 1;
    }
    let b = ImageBlock { block: out, pivot: *pivot };
    proof {
        assert(b@.cells =~= extracted(src@, *pivot, w, h).cells);
    }
    Ok(b)
}

/// Whether every cell of the block lies on the grid.
pub fn block_fits_image(img: &Image, blc: &ImageBlock) -> (b: bool)
    ensures
        b == block_fits(blc@, img@),
{
    let d = img.shape();
    let items = entries(&blc.block);
    let mut i: usize = 0;
    while i < items.len()
        invariant
            0 <= i <= items.len(),
            lists_map(items@, blc.block@),
            d.0 == img@.rows.len(),
            d.1 == img@.width,
            forall|j: int|
                #![trigger items@[j]]
                0 <= j < i ==> img@.has(items@[j].0.0 + blc.pivot.0, items@[j].0.1 + blc.pivot.1),
        decreases items.len() - i,
    {
        let (p, _) = items[i];
        let x: i128 = (p.0 as i128) + (blc.pivot.0 as i128);
        let y: i128 = (p.1 as i128) + (blc.pivot.1 as i128);
        if x < 0 || x >= (d.0 as i128) || y < 0 || y >= (d.1 as i128) {
            proof {
                assert(blc@.cells.contains_key(items@[i as int].0));
            }
            return false;
        }
        i = i + 1;
    }
    proof {
        assert forall|p: Point|
            #![trigger blc@.cells.contains_key(p)]
            blc@.cells.contains_key(p) implies img@.has(p.0 + blc@.pivot.0, p.1 + blc@.pivot.1) by {
            let j = choose|j: int| 0 <= j < items@.len() && #[trigger] items@[j].0 == p;
            assert(img@.has(items@[j].0.0 + blc.pivot.0, items@[j].0.1 + blc.pivot.1));
        }
    }
    true
}

/// Writing one more cell onto a grid that holds the others.
proof fn lemma_commit_one(g: Grid, cells: Map<Point, u8>, pivot: Point, p: Point, color: u8)
    requires
        g.wf(),
        !cells.contains_key(p),
        g.has(p.0 + pivot.0, p.1 + pivot.1),
    ensures
        committed_cells(g, cells.insert(p, color), pivot) == committed_cells(g, cells, pivot).put(
            p.0 + pivot.0,
            p.1 + pivot.1,
            color,
        ),
{
    let x0 = p.0 + pivot.0;
    let y0 = p.1 + pivot.1;
    let a = committed_cells(g, cells.insert(p, color), pivot);
    let c = committed_cells(g, cells, pivot);
    let b = c.put(x0, y0, color);
    assert forall|x: int| 0 <= x < g.rows.len() implies #[trigger] a.rows[x] == b.rows[x] by {
        assert forall|y: int| 0 <= y < g.width implies #[trigger] a.rows[x][y] == b.rows[x][y] by {
            assert(a.rows[x][y] == committed_cell(g, cells.insert(p, color), pivot, x, y));
            assert(c.rows[x][y] == committed_cell(g, cells, pivot, x, y));
        }
        assert(a.rows[x] =~= b.rows[x]);
    }
    assert(a.rows =~= b.rows);
}

/// Writing no cell leaves the grid as it is.
proof fn lemma_commit_none(g: Grid, pivot: Point)
    requires
        g.wf(),
    ensures
        committed_cells(g, Map::empty(), pivot) == g,
{
    let c = committed_cells(g, Map::empty(), pivot);
    assert forall|x: int| 0 <= x < g.rows.len() implies #[trigger] c.rows[x] == g.rows[x] by {
        assert(g.rows[x].len() == g.width);
        assert forall|y: int| 0 <= y < g.width implies #[trigger] c.rows[x][y] == g.rows[x][y] by {
            assert(c.rows[x][y] == committed_cell(g, Map::empty(), pivot, x, y));
        }
        assert(c.rows[x] =~= g.rows[x]);
    }
    assert(c.rows =~= g.rows);
}

/// Writes each cell of the block onto the grid at its position plus the pivot. The
/// other cells of the grid stay. A cell outside the grid is not clipped: the block must
/// lie on the grid.
pub fn commit_block_to_image(img: Image, blc: &ImageBlock) -> (r: Result<Image, BlockError>)
    requires
        block_fits(blc@, img@),
    ensures
        r matches Ok(out) && out@ == committed(img@, blc@),
{
    let mut img = img;
    let ghost g = img@;
    let d = img.shape();
    let items = entries(&blc.block);
    let ghost mut done: Map<Point, u8> = Map::empty();
    proof {
        lemma_commit_none(g, blc.pivot);
    }
    let mut i: usize = 0;
    while i < items.len()
        invariant
            0 <= i <= items.len(),
            lists_map(items@, blc.block@),
            block_fits(blc@, g),
            g.wf(),
            d.0 == g.rows.len(),
            d.1 == g.width,
            img@ == committed_cells(g, done, blc.pivot),
            forall|p: Point|
                #![trigger done.contains_key(p)]
                done.contains_key(p) <==> exists|j: int| 0 <= j < i && (#[trigger] items@[j]).0 == p,
            forall|p: Point|
                #![trigger done[p]]
                done.contains_key(p) ==> done[p] == blc.block@[p],
        decreases items.len() - i,
    {
        let (p, color) = items[i];
        proof {
            assert(blc@.cells.contains_key(items@[i as int].0));
            assert(!done.contains_key(p)) by {
                if done.contains_key(p) {
                    let j = choose|j: int| 0 <= j < i && (#[trigger] items@[j]).0 == p;
                    assert(items@[j].0 != items@[i as int].0);
                }
            }
            lemma_commit_one(g, done, blc.pivot, p, color);
        }
        let x: i128 = (p.0 as i128) + (blc.pivot.0 as i128);
        let y: i128 = (p.1 as i128) + (blc.pivot.1 as i128);
        img.put(x as usize, y as usize, color);
        proof {
            let before = done;
            done = done.insert(p, color);
            assert forall|t: Point|
                #![trigger done.contains_key(t)]
                done.contains_key(t) <==> exists|j: int|
                    0 <= j < i + 1 && (#[trigger] items@[j]).0 == t by {
                if done.contains_key(t) {
                    if t == p {
                        assert(items@[i as int].0 == t);
                    } else {
                        let j = choose|j: int| 0 <= j < i && (#[trigger] items@[j]).0 == t;
                        assert(0 <= j < i + 1);
                    }
                }
                if exists|j: int| 0 <= j < i + 1 && (#[trigger] items@[j]).0 == t {
                    let j = choose|j: int| 0 <= j < i + 1 && (#[trigger] items@[j]).0 == t;
                    if j < i {
                        assert(before.contains_key(t));
                    }
                }
            }
        }
        i = i + 1;
    }
    proof {
        assert forall|p: Point| done.contains_key(p) <==> blc.block@.contains_key(p) by {
            if done.contains_key(p) {
                let j = choose|j: int| 0 <= j < i && (#[trigger] items@[j]).0 == p;
                assert(blc.block@.contains_key(items@[j].0));
            }
            if blc.block@.contains_key(p) {
                let j = choose|j: int| 0 <= j < items@.len() && #[trigger] items@[j].0 == p;
                assert(0 <= j < i);
            }
        }
        assert(done =~= blc.block@);
    }
    Ok(img)
}

/// An operation on a block. `C`, `P` and `R` are the types of the functions that
/// recolor, filter and rotate.
pub enum Operation<C, P, R> {
    /// Cut to the rectangle with the given least corner, and width and height.
    Block(Point, (u64, u64)),
    /// Make the given relative point the relative origin.
    Pivot(Point),
    /// Move the block on the grid.
    Shift(Vector),
    /// Rotate the cells about the pivot, by the given function on relative points.
    Rotate(R),
    /// Replace each color by what the function gives for it.
    ChangeColor(C),
    /// Give every cell the one color.
    ChangeColorUnconditionally(u8),
    /// Keep the cells for which the predicate holds.
    FilterBy(P),
    /// Reflect the first coordinate.
    FlipX,
    /// Reflect the second coordinate.
    FlipY,
    /// Reserved: it is never carried out.
    ExtractObjects,
}

impl<C: Fn(u8) -> u8, P: Fn(Point, u8) -> bool, R: Fn(Point) -> Point> Operation<C, P, R> {
    /// The function that the operation holds, if any, can be called on every input.
    pub open spec fn callable(self) -> bool {
        match self {
            Operation::Rotate(turn) => forall|p: Point| call_requires(turn, (p,)),
            Operation::ChangeColor(func) => forall|c: u8| call_requires(func, (c,)),
            Operation::FilterBy(pred) => forall|p: Point, c: u8| call_requires(pred, (p, c)),
            _ => true,
        }
    }

    /// What the operation adds to the pivot.
    pub open spec fn pivot_move(self) -> Vector {
        match self {
            Operation::Block(origin, _) => origin,
            Operation::Pivot(origin) => origin,
            Operation::Shift(v) => v,
            _ => (0, 0),
        }
    }

    /// `r` is an outcome of the operation on `b`.
    pub open spec fn yields(self, b: BlockModel, r: Result<BlockModel, BlockError>) -> bool {
        match self {
            Operation::Block(origin, (w, h)) => r == (if rebase_fits(b, origin, Some((w, h))) {
                Ok::<BlockModel, BlockError>(cropped(b, origin, w, h))
            } else {
                Err(BlockError::Overflow)
            }),
            Operation::Pivot(origin) => r == (if rebase_fits(b, origin, None) {
                Ok::<BlockModel, BlockError>(repivoted(b, origin))
            } else {
                Err(BlockError::Overflow)
            }),
            Operation::Shift(v) => r == (if sum_fits(b.pivot, v) {
                Ok::<BlockModel, BlockError>(shifted(b, v))
            } else {
                Err(BlockError::Overflow)
            }),
            Operation::Rotate(turn) => r matches Ok(a) && turned(b, turn, a),
            Operation::ChangeColor(func) => r matches Ok(a) && recolored(b, func, a),
            Operation::ChangeColorUnconditionally(color) => r == Ok::<BlockModel, BlockError>(
                painted(b, color),
            ),
            Operation::FilterBy(pred) => r matches Ok(a) && filtered(b, pred, a),
            Operation::FlipX => r == (if flip_fits(b, true) {
                Ok::<BlockModel, BlockError>(flipped(b, true))
            } else {
                Err(BlockError::Overflow)
            }),
            Operation::FlipY => r == (if flip_fits(b, false) {
                Ok::<BlockModel, BlockError>(flipped(b, false))
            } else {
                Err(BlockError::Overflow)
            }),
            Operation::ExtractObjects => r == Err::<BlockModel, BlockError>(BlockError::Unsupported),
        }
    }
}

/// What a block or an error is in the model.
pub open spec fn outcome(r: Result<ImageBlock, BlockError>) -> Result<BlockModel, BlockError> {
    match r {
        Ok(b) => Ok(b@),
        Err(e) => Err(e),
    }
}

/// `trace` holds the blocks of a run of the operations on `b`: `b` first, then the
/// block after each operation, up to the block on which an operation failed or to the
/// last; `r` is that error or last block.
pub open spec fn follows<C: Fn(u8) -> u8, P: Fn(Point, u8) -> bool, R: Fn(Point) -> Point>(
    ops: Seq<Operation<C, P, R>>,
    trace: Seq<BlockModel>,
    b: BlockModel,
    r: Result<BlockModel, BlockError>,
) -> bool {
    &&& 1 <= trace.len() <= ops.len() + 1
    &&& trace[0] == b
    &&& forall|i: int|
        #![trigger trace[i]]
        0 <= i < trace.len() - 1 ==> ops[i].yields(trace[i], Ok(trace[i + 1]))
    &&& match r {
        Ok(a) => trace.len() == ops.len() + 1 && trace.last() == a,
        Err(e) => trace.len() <= ops.len() && ops[trace.len() - 1].yields(trace.last(), Err(e)),
    }
}

/// `r` is an outcome of the operations, carried out in turn on `b` up to the first that
/// fails.
pub open spec fn folds<C: Fn(u8) -> u8, P: Fn(Point, u8) -> bool, R: Fn(Point) -> Point>(
    ops: Seq<Operation<C, P, R>>,
    b: BlockModel,
    r: Result<BlockModel, BlockError>,
) -> bool {
    exists|trace: Seq<BlockModel>| follows(ops, trace, b, r)
}

/// The sum of what the operations add to the pivot.
pub open spec fn pivot_moves<C: Fn(u8) -> u8, P: Fn(Point, u8) -> bool, R: Fn(Point) -> Point>(
    ops: Seq<Operation<C, P, R>>,
) -> (int, int)
    decreases ops.len(),
{
    if ops.len() == 0 {
        (0, 0)
    } else {
        let rest = pivot_moves(ops.drop_last());
        (rest.0 + ops.last().pivot_move().0, rest.1 + ops.last().pivot_move().1)
    }
}

/// Along a run, the pivot after `i` operations is the first pivot plus what those
/// operations add to it.
proof fn lemma_pivot_along<C: Fn(u8) -> u8, P: Fn(Point, u8) -> bool, R: Fn(Point) -> Point>(
    ops: Seq<Operation<C, P, R>>,
    trace: Seq<BlockModel>,
    i: int,
)
    requires
        1 <= trace.len() <= ops.len() + 1,
        forall|k: int|
            #![trigger trace[k]]
            0 <= k < trace.len() - 1 ==> ops[k].yields(trace[k], Ok(trace[k + 1])),
        0 <= i < trace.len(),
    ensures
        trace[i].pivot.0 == trace[0].pivot.0 + pivot_moves(ops.take(i)).0,
        trace[i].pivot.1 == trace[0].pivot.1 + pivot_moves(ops.take(i)).1,
    decreases i,
{
    if i > 0 {
        lemma_pivot_along(ops, trace, i - 1);
        assert(ops.take(i).drop_last() =~= ops.take(i - 1));
        assert(ops.take(i).last() == ops[i - 1]);
        assert(ops[i - 1].yields(trace[i - 1], Ok(trace[i])));
    } else {
        assert(ops.take(0).len() == 0);
    }
}

/// After a sequence of operations that succeeds, the pivot is the first pivot plus the
/// origins of the crops and pivot changes and the vectors of the shifts among them; the
/// other operations leave it alone.
pub proof fn lemma_pivot_is_sum<C: Fn(u8) -> u8, P: Fn(Point, u8) -> bool, R: Fn(Point) -> Point>(
    ops: Seq<Operation<C, P, R>>,
    b: BlockModel,
    a: BlockModel,
)
    requires
        folds(ops, b, Ok(a)),
    ensures
        a.pivot.0 == b.pivot.0 + pivot_moves(ops).0,
        a.pivot.1 == b.pivot.1 + pivot_moves(ops).1,
{
    let trace = choose|trace: Seq<BlockModel>| follows(ops, trace, b, Ok(a));
    lemma_pivot_along(ops, trace, ops.len() as int);
    assert(ops.take(ops.len() as int) =~= ops);
}

/// Carries out one operation on the block.
pub fn apply_block_operation<C: Fn(u8) -> u8, P: Fn(Point, u8) -> bool, R: Fn(Point) -> Point>(
    blc: ImageBlock,
    op: &Operation<C, P, R>,
) -> (r: Result<ImageBlock, BlockError>)
    requires
        op.callable(),
    ensures
        op.yields(blc@, outcome(r)),
{
    match op {
        Operation::Block(p, (w, h)) => apply_block(blc, p, *w, *h),
        Operation::Pivot(p) => apply_pivot(blc, p),
        Operation::Shift(v) => apply_shift(blc, v),
        Operation::Rotate(turn) => Ok(turn_cells(blc, turn)),
        Operation::ChangeColor(func) => Ok(recolor(blc, func)),
        Operation::ChangeColorUnconditionally(color) => apply_change_color_unconditionally(
            blc,
            *color,
        ),
        Operation::FilterBy(pred) => Ok(retain(blc, pred)),
        Operation::FlipX => apply_flip_x(blc),
        Operation::FlipY => apply_flip_y(blc),
        Operation::ExtractObjects => Err(BlockError::Unsupported),
    }
}

/// `r` is an outcome of taking the whole grid as a block, carrying out the operations
/// on it in turn, and writing the block that results onto the grid: the first error
/// among the operations, or `OutOfBounds` where a cell of that block lies outside the
/// grid.
pub open spec fn pipeline<C: Fn(u8) -> u8, P: Fn(Point, u8) -> bool, R: Fn(Point) -> Point>(
    g: Grid,
    ops: Seq<Operation<C, P, R>>,
    r: Result<Grid, BlockError>,
) -> bool {
    exists|end: Result<BlockModel, BlockError>|
        #![trigger folds(ops, whole(g), end)]
        folds(ops, whole(g), end) && r == (match end {
            Ok(b) => if block_fits(b, g) {
                Ok::<Grid, BlockError>(committed(g, b))
            } else {
                Err(BlockError::OutOfBounds)
            },
            Err(e) => Err(e),
        })
}

/// What a grid or an error is in the model.
pub open spec fn grid_outcome(r: Result<Image, BlockError>) -> Result<Grid, BlockError> {
    match r {
        Ok(img) => Ok(img@),
        Err(e) => Err(e),
    }
}

/// Takes the whole grid as a block, carries out the operations on it from first to
/// last, and writes the block that results onto the grid. The first operation that
/// fails ends the run with its error.
pub fn apply_image_operations<C: Fn(u8) -> u8, P: Fn(Point, u8) -> bool, R: Fn(Point) -> Point>(
    img: Image,
    ops: &Vec<Operation<C, P, R>>,
) -> (r: Result<Image, BlockError>)
    requires
        forall|i: int| 0 <= i < ops.len() ==> (#[trigger] ops[i]).callable(),
    ensures
        pipeline(img@, ops@, grid_outcome(r)),
{
    let d = img.shape();
    let origin: Point = (0, 0);
    let first = extract_block_from_image(&img, &origin, d.0 as u64, d.1 as u64);
    let mut cur = match first {
        Ok(b) => b,
        Err(e) => { return Err(e); },
    };
    let ghost mut trace: Seq<BlockModel> = seq![cur@];
    let mut i: usize = 0;
    while i < ops.len()
        invariant
            0 <= i <= ops.len(),
            forall|k: int| 0 <= k < ops.len() ==> (#[trigger] ops[k]).callable(),
            trace.len() == i + 1,
            trace[0] == whole(img@),
            trace.last() == cur@,
            forall|k: int|
                #![trigger trace[k]]
                0 <= k < i ==> ops@[k].yields(trace[k], Ok(trace[k + 1])),
        decreases ops.len() - i,
    {
        let next = apply_block_operation(cur, &ops[i]);
        match next {
            Ok(b) => {
                cur = b;
                proof {
                    trace = trace.push(cur@);
                }
            },
            Err(e) => {
                proof {
                    assert(follows(ops@, trace, whole(img@), Err(e)));
                    assert(folds(ops@, whole(img@), Err(e)));
                }
                return Err(e);
            },
        }
        i = i + 1;
    }
    proof {
        assert(follows(ops@, trace, whole(img@), Ok(cur@)));
        assert(folds(ops@, whole(img@), Ok(cur@)));
    }
    if block_fits_image(&img, &cur) {
        commit_block_to_image(img, &cur)
    } else {
        Err(BlockError::OutOfBounds)
    }
}

} // verus!
