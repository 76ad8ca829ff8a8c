//! The segmentation of a grid into objects: connected sets of cells of one color.
//!
//! Which cells are neighbors is for the caller to say, by a function on two cells.
//! The grid is scanned row by row, each row from its first cell. A cell joins the first
//! partial set of its color that holds a cell which the function accepts as its
//! neighbor, and starts a new set where there is none; the partial sets of a color
//! are then merged as long as a cell of one is a neighbor of a cell of another. The
//! objects come out by color, from the least, and within a color in the order of
//! their first cells in the scan; the first cell of an object is listed first.

use vstd::prelude::*;
use crate::types::{Grid, Image};
use crate::operations::{extract_block_from_image, extracted, BlockError, ImageBlock};

verus! {

/// The least and the greatest corner of a box of cells.
pub type BoundingBox = ((usize, usize), (usize, usize));

/// `p` is a cell of the grid.
pub open spec fn on_grid(g: Grid, p: (usize, usize)) -> bool {
    g.has(p.0 as int, p.1 as int)
}

/// The color of the cell `p`.
pub open spec fn color_at(g: Grid, p: (usize, usize)) -> u8
    recommends
        on_grid(g, p),
{
    g.rows[p.0 as int][p.1 as int]
}

/// `f`, asked whether `a` is a neighbor of `b`, may answer `v`.
pub open spec fn answers<F: Fn(&(usize, usize), &(usize, usize)) -> bool>(
    f: F,
    a: (usize, usize),
    b: (usize, usize),
    v: bool,
) -> bool {
    call_ensures(f, (&a, &b), v)
}

/// `f` may accept `a` as a neighbor of `b`, or `b` as one of `a`.
pub open spec fn linked<F: Fn(&(usize, usize), &(usize, usize)) -> bool>(
    f: F,
    a: (usize, usize),
    b: (usize, usize),
) -> bool {
    answers(f, a, b, true) || answers(f, b, a, true)
}

/// `path` runs through cells of `pts`, each linked to the next.
pub open spec fn is_path<F: Fn(&(usize, usize), &(usize, usize)) -> bool>(
    f: F,
    pts: Seq<(usize, usize)>,
    path: Seq<(usize, usize)>,
) -> bool {
    &&& path.len() > 0
    &&& forall|k: int| 0 <= k < path.len() ==> pts.contains(#[trigger] path[k])
    &&& forall|k: int| 0 <= k < path.len() - 1 ==> linked(f, #[trigger] path[k], path[k + 1])
}

/// A path through `pts` leads from `a` to `b`.
pub open spec fn joined<F: Fn(&(usize, usize), &(usize, usize)) -> bool>(
    f: F,
    pts: Seq<(usize, usize)>,
    a: (usize, usize),
    b: (usize, usize),
) -> bool {
    exists|path: Seq<(usize, usize)>|
        #![trigger is_path(f, pts, path)]
        is_path(f, pts, path) && path[0] == a && path.last() == b
}

/// From every cell of `pts` a path through `pts` leads to every other.
pub open spec fn connected<F: Fn(&(usize, usize), &(usize, usize)) -> bool>(
    f: F,
    pts: Seq<(usize, usize)>,
) -> bool {
    forall|i: int, j: int|
        0 <= i < pts.len() && 0 <= j < pts.len() ==> joined(f, pts, #[trigger] pts[i], #[trigger] pts[j])
}

/// `f` has denied every cell of `later` as a neighbor of every cell of `earlier`.
pub open spec fn apart<F: Fn(&(usize, usize), &(usize, usize)) -> bool>(
    f: F,
    later: Seq<(usize, usize)>,
    earlier: Seq<(usize, usize)>,
) -> bool {
    forall|i: int, j: int|
        0 <= i < later.len() && 0 <= j < earlier.len() ==> answers(
            f,
            #[trigger] later[i],
            #[trigger] earlier[j],
            false,
        )
}

/// A path through some cells is a path through more cells.
proof fn lemma_joined_among_more<F: Fn(&(usize, usize), &(usize, usize)) -> bool>(
    f: F,
    pts: Seq<(usize, usize)>,
    more: Seq<(usize, usize)>,
    a: (usize, usize),
    b: (usize, usize),
)
    requires
        joined(f, pts, a, b),
        forall|q: (usize, usize)| pts.contains(q) ==> more.contains(q),
    ensures
        joined(f, more, a, b),
{
    let path = choose|path: Seq<(usize, usize)>|
        #![trigger is_path(f, pts, path)]
        is_path(f, pts, path) && path[0] == a && path.last() == b;
    assert(is_path(f, more, path));
}

/// Two linked cells are joined.
proof fn lemma_joined_by_link<F: Fn(&(usize, usize), &(usize, usize)) -> bool>(
    f: F,
    pts: Seq<(usize, usize)>,
    a: (usize, usize),
    b: (usize, usize),
)
    requires
        pts.contains(a),
        pts.contains(b),
        linked(f, a, b),
    ensures
        joined(f, pts, a, b),
{
    let path = seq![a, b];
    assert(is_path(f, pts, path));
    assert(path[0] == a && path.last() == b);
}

/// A path to `b` and a path from `b` make a path.
proof fn lemma_joined_through<F: Fn(&(usize, usize), &(usize, usize)) -> bool>(
    f: F,
    pts: Seq<(usize, usize)>,
    a: (usize, usize),
    b: (usize, usize),
    c: (usize, usize),
)
    requires
        joined(f, pts, a, b),
        joined(f, pts, b, c),
    ensures
        joined(f, pts, a, c),
{
    let head = choose|path: Seq<(usize, usize)>|
        #![trigger is_path(f, pts, path)]
        is_path(f, pts, path) && path[0] == a && path.last() == b;
    let tail = choose|path: Seq<(usize, usize)>|
        #![trigger is_path(f, pts, path)]
        is_path(f, pts, path) && path[0] == b && path.last() == c;
    let path = head + tail.drop_first();
    let n = head.len() as int;
    assert forall|k: int| 0 <= k < path.len() implies pts.contains(#[trigger] path[k]) by {
        if k < n {
            assert(path[k] == head[k]);
        } else {
            assert(path[k] == tail[k - n + 1]);
        }
    }
    assert forall|k: int| 0 <= k < path.len() - 1 implies linked(f, #[trigger] path[k], path[k + 1]) by {
        if k < n - 1 {
            assert(path[k] == head[k] && path[k + 1] == head[k + 1]);
        } else if k == n - 1 {
            assert(path[k] == head[k]);
            assert(head[k] == tail[0]);
            assert(path[k + 1] == tail[1]);
            assert(linked(f, tail[0int], tail[0int + 1]));
        } else {
            assert(path[k] == tail[k - n + 1] && path[k + 1] == tail[k - n + 1 + 1]);
        }
    }
    assert(is_path(f, pts, path));
    assert(path[0] == a);
    if tail.len() == 1 {
        assert(path =~= head);
    } else {
        assert(path.last() == tail.last());
    }
}

/// One cell is connected.
proof fn lemma_connected_one<F: Fn(&(usize, usize), &(usize, usize)) -> bool>(f: F, p: (usize, usize))
    ensures
        connected(f, seq![p]),
{
    let pts = seq![p];
    let path = seq![p];
    assert(pts[0] == p);
    assert(is_path(f, pts, path));
    assert(path[0] == p && path.last() == p);
    assert(joined(f, pts, p, p));
}

/// Two connected sets with a link between them are connected together.
proof fn lemma_connected_union<F: Fn(&(usize, usize), &(usize, usize)) -> bool>(
    f: F,
    s1: Seq<(usize, usize)>,
    s2: Seq<(usize, usize)>,
    a: int,
    b: int,
)
    requires
        connected(f, s1),
        connected(f, s2),
        0 <= a < s1.len(),
        0 <= b < s2.len(),
        linked(f, s1[a], s2[b]),
    ensures
        connected(f, s1 + s2),
{
    let u = s1 + s2;
    let n = s1.len() as int;
    assert forall|q: (usize, usize)| s1.contains(q) implies u.contains(q) by {
        let i = choose|i: int| 0 <= i < s1.len() && s1[i] == q;
        assert(u[i] == q);
    }
    assert forall|q: (usize, usize)| s2.contains(q) implies u.contains(q) by {
        let i = choose|i: int| 0 <= i < s2.len() && s2[i] == q;
        assert(u[n + i] == q);
    }
    assert(s1.contains(s1[a]));
    assert(s2.contains(s2[b]));
    lemma_joined_by_link(f, u, s1[a], s2[b]);
    lemma_joined_by_link(f, u, s2[b], s1[a]);
    assert forall|i: int, j: int| 0 <= i < u.len() && 0 <= j < u.len() implies joined(
        f,
        u,
        #[trigger] u[i],
        #[trigger] u[j],
    ) by {
        if i < n && j < n {
            assert(u[i] == s1[i] && u[j] == s1[j]);
            lemma_joined_among_more(f, s1, u, s1[i], s1[j]);
        } else if i >= n && j >= n {
            assert(u[i] == s2[i - n] && u[j] == s2[j - n]);
            lemma_joined_among_more(f, s2, u, s2[i - n], s2[j - n]);
        } else if i < n {
            assert(u[i] == s1[i] && u[j] == s2[j - n]);
            lemma_joined_among_more(f, s1, u, s1[i], s1[a]);
            lemma_joined_among_more(f, s2, u, s2[b], s2[j - n]);
            lemma_joined_through(f, u, s1[i], s1[a], s2[b]);
            lemma_joined_through(f, u, s1[i], s2[b], s2[j - n]);
        } else {
            assert(u[i] == s2[i - n] && u[j] == s1[j]);
            lemma_joined_among_more(f, s2, u, s2[i - n], s2[b]);
            lemma_joined_among_more(f, s1, u, s1[a], s1[j]);
            lemma_joined_through(f, u, s2[i - n], s2[b], s1[a]);
            lemma_joined_through(f, u, s2[i - n], s1[a], s1[j]);
        }
    }
}

/// `(k, j)` is the place of a cell in a list of sets.
pub open spec fn is_cell(sets: Seq<Seq<(usize, usize)>>, k: int, j: int) -> bool {
    0 <= k < sets.len() && 0 <= j < sets[k].len()
}

/// The cell at place `(k, j)`.
pub open spec fn cell(sets: Seq<Seq<(usize, usize)>>, k: int, j: int) -> (usize, usize)
    recommends
        is_cell(sets, k, j),
{
    sets[k][j]
}

/// `p` is in one of the sets.
pub open spec fn placed(sets: Seq<Seq<(usize, usize)>>, p: (usize, usize)) -> bool {
    exists|k: int, j: int| is_cell(sets, k, j) && #[trigger] cell(sets, k, j) == p
}

/// No cell is in two sets, or twice in one.
pub open spec fn distinct(sets: Seq<Seq<(usize, usize)>>) -> bool {
    forall|k: int, j: int, k2: int, j2: int|
        is_cell(sets, k, j) && is_cell(sets, k2, j2) && #[trigger] cell(sets, k, j) == #[trigger] cell(
            sets,
            k2,
            j2,
        ) ==> k == k2 && j == j2
}

/// `a` comes before `b` in the scan of a grid: in an earlier row, or earlier in the
/// same row.
pub open spec fn earlier(a: (usize, usize), b: (usize, usize)) -> bool {
    a.0 < b.0 || (a.0 == b.0 && a.1 < b.1)
}

/// In each set the first cell comes before every other in the scan, and the first
/// cells of the sets come in the order of the scan.
pub open spec fn led_in_order(sets: Seq<Seq<(usize, usize)>>) -> bool {
    &&& forall|k: int, j: int|
        is_cell(sets, k, j) && j > 0 ==> earlier(sets[k][0], #[trigger] cell(sets, k, j))
    &&& forall|k: int, k2: int|
        0 <= k < k2 < sets.len() && sets[k].len() > 0 && sets[k2].len() > 0 ==> earlier(
            (#[trigger] sets[k])[0],
            (#[trigger] sets[k2])[0],
        )
}

/// The cells of each vector as a sequence.
pub open spec fn lists(v: Seq<Vec<(usize, usize)>>) -> Seq<Seq<(usize, usize)>> {
    Seq::new(v.len(), |i: int| v[i]@)
}

/// `f` can be asked about every two cells.
pub open spec fn always_answers<F: Fn(&(usize, usize), &(usize, usize)) -> bool>(f: F) -> bool {
    forall|a: (usize, usize), b: (usize, usize)| call_requires(f, (&a, &b))
}

/// `p` comes before `(x, y)` in the scan: in an earlier row, or earlier in row `x`.
spec fn before(p: (usize, usize), x: int, y: int) -> bool {
    p.0 < x || (p.0 == x && p.1 < y)
}

/// The partial sets of one color when the scan stands at `(x, y)`: each is connected,
/// and together they hold, once each, the cells of that color before `(x, y)`.
spec fn partial_sets<F: Fn(&(usize, usize), &(usize, usize)) -> bool>(
    g: Grid,
    f: F,
    color: u8,
    sets: Seq<Seq<(usize, usize)>>,
    x: int,
    y: int,
) -> bool {
    &&& forall|k: int| 0 <= k < sets.len() ==> (#[trigger] sets[k]).len() > 0 && connected(f, sets[k])
    &&& forall|k: int, j: int|
        is_cell(sets, k, j) ==> on_grid(g, #[trigger] cell(sets, k, j)) && color_at(
            g,
            cell(sets, k, j),
        ) == color && before(cell(sets, k, j), x, y)
    &&& forall|p: (usize, usize)|
        on_grid(g, p) && color_at(g, p) == color && before(p, x, y) ==> #[trigger] placed(sets, p)
    &&& distinct(sets)
}

/// The scan moves past a cell of another color.
proof fn lemma_scan_skips<F: Fn(&(usize, usize), &(usize, usize)) -> bool>(
    g: Grid,
    f: F,
    color: u8,
    sets: Seq<Seq<(usize, usize)>>,
    x: usize,
    y: usize,
)
    requires
        partial_sets(g, f, color, sets, x as int, y as int),
        color_at(g, (x, y)) != color,
    ensures
        partial_sets(g, f, color, sets, x as int, y + 1),
{
    assert forall|p: (usize, usize)|
        on_grid(g, p) && color_at(g, p) == color && before(p, x as int, y + 1) implies #[trigger] placed(
        sets,
        p,
    ) by {
        assert(p != (x, y));
        assert(before(p, x as int, y as int));
    }
}

/// The scan moves to the next row.
proof fn lemma_scan_next_row<F: Fn(&(usize, usize), &(usize, usize)) -> bool>(
    g: Grid,
    f: F,
    color: u8,
    sets: Seq<Seq<(usize, usize)>>,
    x: int,
)
    requires
        partial_sets(g, f, color, sets, x, g.width as int),
    ensures
        partial_sets(g, f, color, sets, x + 1, 0),
{
    assert forall|p: (usize, usize)|
        on_grid(g, p) && color_at(g, p) == color && before(p, x + 1, 0) implies #[trigger] placed(
        sets,
        p,
    ) by {
        assert(before(p, x, g.width as int));
    }
}

/// The cell under the scan joins a set that holds a neighbor of it.
proof fn lemma_scan_joins<F: Fn(&(usize, usize), &(usize, usize)) -> bool>(
    g: Grid,
    f: F,
    color: u8,
    sets: Seq<Seq<(usize, usize)>>,
    x: usize,
    y: usize,
    k: int,
    j: int,
)
    requires
        partial_sets(g, f, color, sets, x as int, y as int),
        on_grid(g, (x, y)),
        color_at(g, (x, y)) == color,
        is_cell(sets, k, j),
        answers(f, (x, y), sets[k][j], true),
    ensures
        partial_sets(g, f, color, sets.update(k, sets[k].push((x, y))), x as int, y + 1),
{
    let p = (x, y);
    let next = sets.update(k, sets[k].push(p));
    let n = sets[k].len() as int;
    assert forall|k2: int| 0 <= k2 < next.len() implies (#[trigger] next[k2]).len() > 0 && connected(
        f,
        next[k2],
    ) by {
        if k2 == k {
            lemma_connected_one(f, p);
            assert(seq![p][0] == p);
            lemma_connected_union(f, sets[k], seq![p], j, 0);
            assert(next[k] =~= sets[k] + seq![p]);
        } else {
            assert(next[k2] == sets[k2]);
        }
    }
    assert forall|k2: int, j2: int| is_cell(next, k2, j2) implies on_grid(
        g,
        #[trigger] cell(next, k2, j2),
    ) && color_at(g, cell(next, k2, j2)) == color && before(cell(next, k2, j2), x as int, y + 1) by {
        if k2 == k && j2 == n {
        } else {
            assert(is_cell(sets, k2, j2));
            assert(cell(next, k2, j2) == cell(sets, k2, j2));
        }
    }
    assert forall|q: (usize, usize)|
        on_grid(g, q) && color_at(g, q) == color && before(q, x as int, y + 1) implies #[trigger] placed(
        next,
        q,
    ) by {
        if q == p {
            assert(is_cell(next, k, n) && cell(next, k, n) == q);
        } else {
            assert(before(q, x as int, y as int));
            assert(placed(sets, q));
            let (k2, j2) = choose|k2: int, j2: int|
                is_cell(sets, k2, j2) && #[trigger] cell(sets, k2, j2) == q;
            assert(is_cell(next, k2, j2) && cell(next, k2, j2) == q);
        }
    }
    assert forall|k1: int, j1: int, k2: int, j2: int|
        is_cell(next, k1, j1) && is_cell(next, k2, j2) && #[trigger] cell(next, k1, j1)
            == #[trigger] cell(next, k2, j2) implies k1 == k2 && j1 == j2 by {
        let new1 = k1 == k && j1 == n;
        let new2 = k2 == k && j2 == n;
        if !new1 {
            assert(is_cell(sets, k1, j1) && cell(next, k1, j1) == cell(sets, k1, j1));
            assert(before(cell(sets, k1, j1), x as int, y as int));
        }
        if !new2 {
            assert(is_cell(sets, k2, j2) && cell(next, k2, j2) == cell(sets, k2, j2));
            assert(before(cell(sets, k2, j2), x as int, y as int));
        }
    }
}

/// The cell under the scan starts a set of its own.
proof fn lemma_scan_starts<F: Fn(&(usize, usize), &(usize, usize)) -> bool>(
    g: Grid,
    f: F,
    color: u8,
    sets: Seq<Seq<(usize, usize)>>,
    x: usize,
    y: usize,
)
    requires
        partial_sets(g, f, color, sets, x as int, y as int),
        on_grid(g, (x, y)),
        color_at(g, (x, y)) == color,
    ensures
        partial_sets(g, f, color, sets.push(seq![(x, y)]), x as int, y + 1),
{
    let p = (x, y);
    let next = sets.push(seq![p]);
    let n = sets.len() as int;
    assert(seq![p][0] == p);
    assert forall|k2: int| 0 <= k2 < next.len() implies (#[trigger] next[k2]).len() > 0 && connected(
        f,
        next[k2],
    ) by {
        if k2 == n {
            lemma_connected_one(f, p);
        } else {
            assert(next[k2] == sets[k2]);
        }
    }
    assert forall|k2: int, j2: int| is_cell(next, k2, j2) implies on_grid(
        g,
        #[trigger] cell(next, k2, j2),
    ) && color_at(g, cell(next, k2, j2)) == color && before(cell(next, k2, j2), x as int, y + 1) by {
        if k2 == n {
        } else {
            assert(is_cell(sets, k2, j2));
            assert(cell(next, k2, j2) == cell(sets, k2, j2));
        }
    }
    assert forall|q: (usize, usize)|
        on_grid(g, q) && color_at(g, q) == color && before(q, x as int, y + 1) implies #[trigger] placed(
        next,
        q,
    ) by {
        if q == p {
            assert(is_cell(next, n, 0) && cell(next, n, 0) == q);
        } else {
            assert(before(q, x as int, y as int));
            assert(placed(sets, q));
            let (k2, j2) = choose|k2: int, j2: int|
                is_cell(sets, k2, j2) && #[trigger] cell(sets, k2, j2) == q;
            assert(is_cell(next, k2, j2) && cell(next, k2, j2) == q);
        }
    }
    assert forall|k1: int, j1: int, k2: int, j2: int|
        is_cell(next, k1, j1) && is_cell(next, k2, j2) && #[trigger] cell(next, k1, j1)
            == #[trigger] cell(next, k2, j2) implies k1 == k2 && j1 == j2 by {
        if k1 != n {
            assert(is_cell(sets, k1, j1) && cell(next, k1, j1) == cell(sets, k1, j1));
            assert(before(cell(sets, k1, j1), x as int, y as int));
        }
        if k2 != n {
            assert(is_cell(sets, k2, j2) && cell(next, k2, j2) == cell(sets, k2, j2));
            assert(before(cell(sets, k2, j2), x as int, y as int));
        }
    }
}

/// The order of the sets is kept where the cell under the scan joins a set.
proof fn lemma_order_joins<F: Fn(&(usize, usize), &(usize, usize)) -> bool>(
    g: Grid,
    f: F,
    color: u8,
    sets: Seq<Seq<(usize, usize)>>,
    x: usize,
    y: usize,
    k: int,
)
    requires
        partial_sets(g, f, color, sets, x as int, y as int),
        led_in_order(sets),
        0 <= k < sets.len(),
    ensures
        led_in_order(sets.update(k, sets[k].push((x, y)))),
{
    let p = (x, y);
    let next = sets.update(k, sets[k].push(p));
    let n = sets[k].len() as int;
    assert forall|k2: int| 0 <= k2 < next.len() implies (#[trigger] next[k2])[0] == sets[k2][0] by {
        assert(sets[k2].len() > 0);
    }
    assert forall|k2: int, j2: int| is_cell(next, k2, j2) && j2 > 0 implies earlier(
        next[k2][0],
        #[trigger] cell(next, k2, j2),
    ) by {
        assert(next[k2][0] == sets[k2][0]);
        if k2 == k && j2 == n {
            assert(is_cell(sets, k, 0) && cell(sets, k, 0) == sets[k][0]);
        } else {
            assert(is_cell(sets, k2, j2) && cell(sets, k2, j2) == cell(next, k2, j2));
        }
    }
    assert forall|k1: int, k2: int|
        0 <= k1 < k2 < next.len() && next[k1].len() > 0 && next[k2].len() > 0 implies earlier(
        (#[trigger] next[k1])[0],
        (#[trigger] next[k2])[0],
    ) by {
        assert(next[k1][0] == sets[k1][0] && next[k2][0] == sets[k2][0]);
        assert(sets[k1].len() > 0 && sets[k2].len() > 0);
    }
}

/// The order of the sets is kept where the cell under the scan starts a set.
proof fn lemma_order_starts<F: Fn(&(usize, usize), &(usize, usize)) -> bool>(
    g: Grid,
    f: F,
    color: u8,
    sets: Seq<Seq<(usize, usize)>>,
    x: usize,
    y: usize,
)
    requires
        partial_sets(g, f, color, sets, x as int, y as int),
        led_in_order(sets),
    ensures
        led_in_order(sets.push(seq![(x, y)])),
{
    let p = (x, y);
    let next = sets.push(seq![p]);
    let n = sets.len() as int;
    assert(seq![p][0] == p);
    assert forall|k2: int, j2: int| is_cell(next, k2, j2) && j2 > 0 implies earlier(
        next[k2][0],
        #[trigger] cell(next, k2, j2),
    ) by {
        assert(k2 < n);
        assert(is_cell(sets, k2, j2) && cell(sets, k2, j2) == cell(next, k2, j2));
    }
    assert forall|k1: int, k2: int|
        0 <= k1 < k2 < next.len() && next[k1].len() > 0 && next[k2].len() > 0 implies earlier(
        (#[trigger] next[k1])[0],
        (#[trigger] next[k2])[0],
    ) by {
        assert(next[k1] == sets[k1]);
        if k2 == n {
            assert(is_cell(sets, k1, 0) && cell(sets, k1, 0) == sets[k1][0]);
        } else {
            assert(next[k2] == sets[k2]);
        }
    }
}

/// What `f` answers when asked whether `a` is a neighbor of `b`.
fn ask<F: Fn(&(usize, usize), &(usize, usize)) -> bool>(f: &F, a: &(usize, usize), b: &(usize, usize)) -> (v: bool)
    requires
        call_requires(*f, (a, b)),
    ensures
        answers(*f, *a, *b, v),
{
    f(a, b)
}

/// `f` has denied `p` as a neighbor of every cell of the sets that stands before the
/// place `(k, j)`: in a set before the set `k`, or in the set `k` before its cell `j`.
spec fn denied_before<F: Fn(&(usize, usize), &(usize, usize)) -> bool>(
    f: F,
    sets: Seq<Seq<(usize, usize)>>,
    p: (usize, usize),
    k: int,
    j: int,
) -> bool {
    forall|k2: int, j2: int|
        is_cell(sets, k2, j2) && (k2 < k || (k2 == k && j2 < j)) ==> answers(
            f,
            p,
            #[trigger] cell(sets, k2, j2),
            false,
        )
}

/// The first place, set by set and in each set from its first cell, of a cell which
/// `f` accepts `p` as a neighbor of; `None` where `f` denies `p` as a neighbor of every
/// cell of the sets.
fn find_set<F: Fn(&(usize, usize), &(usize, usize)) -> bool>(
    sets: &Vec<Vec<(usize, usize)>>,
    p: &(usize, usize),
    f: &F,
) -> (r: Option<(usize, usize)>)
    requires
        always_answers(*f),
    ensures
        match r {
            Some((k, j)) => is_cell(lists(sets@), k as int, j as int) && answers(
                *f,
                *p,
                sets@[k as int]@[j as int],
                true,
            ) && denied_before(*f, lists(sets@), *p, k as int, j as int),
            None => denied_before(*f, lists(sets@), *p, sets@.len() as int, 0),
        },
{
    let mut k: usize = 0;
    while k < sets.len()
        invariant
            0 <= k <= sets.len(),
            always_answers(*f),
            denied_before(*f, lists(sets@), *p, k as int, 0),
        decreases sets.len() - k,
    {
        let mut j: usize = 0;
        while j < sets[k].len()
            invariant
                0 <= k < sets.len(),
                0 <= j <= sets@[k as int]@.len(),
                always_answers(*f),
                denied_before(*f, lists(sets@), *p, k as int, j as int),
            decreases sets@[k as int]@.len() - j,
        {
            if ask(f, p, &sets[k][j]) {
                return Some((k, j));
            }
            proof {
                assert(cell(lists(sets@), k as int, j as int) == sets@[k as int]@[j as int]);
            }
            j = j + 1;
        }
        k = k + 1;
    }
    None
}

/// The first pass for one color: its cells, in the order of the scan, each put into
/// the first partial set that holds a neighbor of it, or into a new one.
fn partial_objects<F: Fn(&(usize, usize), &(usize, usize)) -> bool>(
    img: &Image,
    color: u8,
    f: &F,
) -> (sets: Vec<Vec<(usize, usize)>>)
    requires
        always_answers(*f),
    ensures
        partial_sets(img@, *f, color, lists(sets@), img@.rows.len() as int, 0),
        led_in_order(lists(sets@)),
{
    let d = img.shape();
    let mut sets: Vec<Vec<(usize, usize)>> = Vec::new();
    let mut x: usize = 0;
    proof {
        assert(lists(sets@) =~= Seq::<Seq<(usize, usize)>>::empty());
    }
    while x < d.0
        invariant
            0 <= x <= d.0,
            d.0 == img@.rows.len(),
            d.1 == img@.width,
            img@.wf(),
            always_answers(*f),
            partial_sets(img@, *f, color, lists(sets@), x as int, 0),
            led_in_order(lists(sets@)),
        decreases d.0 - x,
    {
        let mut y: usize = 0;
        while y < d.1
            invariant
                0 <= x < d.0,
                0 <= y <= d.1,
                d.0 == img@.rows.len(),
                d.1 == img@.width,
                img@.wf(),
                always_answers(*f),
                partial_sets(img@, *f, color, lists(sets@), x as int, y as int),
                led_in_order(lists(sets@)),
            decreases d.1 - y,
        {
            let ghost before_sets = lists(sets@);
            if img.at(x, y) == color {
                let p = (x, y);
                match find_set(&sets, &p, f) {
                    Some((k, j)) => {
                        sets[k].push(p);
                        proof {
                            lemma_scan_joins(img@, *f, color, before_sets, x, y, k as int, j as int);
                            lemma_order_joins(img@, *f, color, before_sets, x, y, k as int);
                            assert(lists(sets@) =~= before_sets.update(
                                k as int,
                                before_sets[k as int].push(p),
                            ));
                        }
                    },
                    None => {
                        let mut fresh: Vec<(usize, usize)> = Vec::new();
                        fresh.push(p);
                        sets.push(fresh);
                        proof {
                            lemma_scan_starts(img@, *f, color, before_sets, x, y);
                            lemma_order_starts(img@, *f, color, before_sets, x, y);
                            assert(fresh@ =~= seq![p]);
                            assert(lists(sets@) =~= before_sets.push(seq![p]));
                        }
                    },
                }
            } else {
                proof {
                    lemma_scan_skips(img@, *f, color, before_sets, x, y);
                }
            }
            y = y + 1;
        }
        proof {
            lemma_scan_next_row(img@, *f, color, lists(sets@), x as int);
        }
        x = x + 1;
    }
    sets
}

/// `p` is a cell of a set that has been taken.
spec fn from_taken(sets: Seq<Seq<(usize, usize)>>, taken: Seq<bool>, p: (usize, usize)) -> bool {
    exists|k: int, j: int| is_cell(sets, k, j) && taken[k] && #[trigger] cell(sets, k, j) == p
}

/// The partial sets that the second pass starts from: each connected, no cell twice.
spec fn mergeable<F: Fn(&(usize, usize), &(usize, usize)) -> bool>(
    f: F,
    sets: Seq<Seq<(usize, usize)>>,
) -> bool {
    &&& forall|k: int| 0 <= k < sets.len() ==> (#[trigger] sets[k]).len() > 0 && connected(f, sets[k])
    &&& distinct(sets)
    &&& led_in_order(sets)
}

/// The order in the state of the second pass: the objects that are complete and the
/// one that is growing are led in order, and the first cell of each comes before the
/// first cell of every set that is left.
spec fn merging_in_order(
    sets: Seq<Seq<(usize, usize)>>,
    taken: Seq<bool>,
    objs: Seq<Seq<(usize, usize)>>,
    cur: Seq<(usize, usize)>,
) -> bool {
    &&& led_in_order(objs.push(cur))
    &&& forall|k: int, i: int|
        0 <= k < sets.len() && !taken[k] && 0 <= i <= objs.len() && objs.push(cur)[i].len() > 0
            ==> earlier((#[trigger] objs.push(cur)[i])[0], (#[trigger] sets[k])[0])
}

/// The state of the second pass: the sets marked in `taken` make up the objects that
/// are complete and the one that is growing, `cur`.
spec fn merging<F: Fn(&(usize, usize), &(usize, usize)) -> bool>(
    f: F,
    sets: Seq<Seq<(usize, usize)>>,
    taken: Seq<bool>,
    objs: Seq<Seq<(usize, usize)>>,
    cur: Seq<(usize, usize)>,
) -> bool {
    &&& taken.len() == sets.len()
    &&& forall|j: int| 0 <= j < cur.len() ==> from_taken(sets, taken, #[trigger] cur[j])
    &&& forall|i: int, j: int| is_cell(objs, i, j) ==> from_taken(sets, taken, #[trigger] cell(objs, i, j))
    &&& forall|k: int, j: int|
        is_cell(sets, k, j) && taken[k] ==> cur.contains(#[trigger] cell(sets, k, j)) || placed(
            objs,
            cell(sets, k, j),
        )
    &&& distinct(objs.push(cur))
    &&& forall|i: int| 0 <= i < objs.len() ==> (#[trigger] objs[i]).len() > 0 && connected(f, objs[i])
    &&& connected(f, cur)
    &&& forall|i: int, i2: int|
        0 <= i < i2 < objs.len() ==> apart(f, #[trigger] objs[i2], #[trigger] objs[i])
    &&& forall|i: int| 0 <= i < objs.len() ==> apart(f, cur, #[trigger] objs[i])
    &&& forall|k: int, i: int|
        0 <= k < sets.len() && !taken[k] && 0 <= i < objs.len() ==> apart(
            f,
            #[trigger] sets[k],
            #[trigger] objs[i],
        )
}

/// What the second pass makes of the partial sets: objects that are connected, hold
/// the cells of the sets once each, and of which each has been denied as a neighbor of
/// those before it.
spec fn merged<F: Fn(&(usize, usize), &(usize, usize)) -> bool>(
    f: F,
    sets: Seq<Seq<(usize, usize)>>,
    objs: Seq<Seq<(usize, usize)>>,
) -> bool {
    &&& forall|i: int| 0 <= i < objs.len() ==> (#[trigger] objs[i]).len() > 0 && connected(f, objs[i])
    &&& forall|i: int, j: int| is_cell(objs, i, j) ==> placed(sets, #[trigger] cell(objs, i, j))
    &&& forall|k: int, j: int| is_cell(sets, k, j) ==> placed(objs, #[trigger] cell(sets, k, j))
    &&& distinct(objs)
    &&& forall|i: int, i2: int|
        0 <= i < i2 < objs.len() ==> apart(f, #[trigger] objs[i2], #[trigger] objs[i])
    &&& led_in_order(objs)
}

/// The number of sets not taken yet.
spec fn untaken(taken: Seq<bool>) -> nat
    decreases taken.len(),
{
    if taken.len() == 0 {
        0
    } else {
        untaken(taken.drop_last()) + (if taken.last() {
            0nat
        } else {
            1nat
        })
    }
}

/// Taking a set leaves one fewer.
proof fn lemma_untaken_less(taken: Seq<bool>, k: int)
    requires
        0 <= k < taken.len(),
        !taken[k],
    ensures
        untaken(taken.update(k, true)) + 1 == untaken(taken),
    decreases taken.len(),
{
    let next = taken.update(k, true);
    if k == taken.len() - 1 {
        assert(next.drop_last() =~= taken.drop_last());
    } else {
        lemma_untaken_less(taken.drop_last(), k);
        assert(next.drop_last() =~= taken.drop_last().update(k, true));
    }
}

/// The second pass starts with nothing taken.
proof fn lemma_merge_begins<F: Fn(&(usize, usize), &(usize, usize)) -> bool>(
    f: F,
    sets: Seq<Seq<(usize, usize)>>,
    taken: Seq<bool>,
)
    requires
        taken.len() == sets.len(),
        forall|k: int| 0 <= k < taken.len() ==> !#[trigger] taken[k],
    ensures
        merging(f, sets, taken, Seq::empty(), Seq::empty()),
{
    let objs = Seq::<Seq<(usize, usize)>>::empty();
    let cur = Seq::<(usize, usize)>::empty();
    assert forall|k: int, j: int, k2: int, j2: int|
        is_cell(objs.push(cur), k, j) && is_cell(objs.push(cur), k2, j2) && #[trigger] cell(
            objs.push(cur),
            k,
            j,
        ) == #[trigger] cell(objs.push(cur), k2, j2) implies k == k2 && j == j2 by {}
}

/// A set that is not taken yet joins the growing object: as its first set, or because
/// one of its cells is a neighbor of a cell of the object.
proof fn lemma_merge_takes<F: Fn(&(usize, usize), &(usize, usize)) -> bool>(
    f: F,
    sets: Seq<Seq<(usize, usize)>>,
    taken: Seq<bool>,
    objs: Seq<Seq<(usize, usize)>>,
    cur: Seq<(usize, usize)>,
    k: int,
    a: int,
    b: int,
)
    requires
        mergeable(f, sets),
        merging(f, sets, taken, objs, cur),
        0 <= k < sets.len(),
        !taken[k],
        cur.len() == 0 || (0 <= a < sets[k].len() && 0 <= b < cur.len() && answers(
            f,
            sets[k][a],
            cur[b],
            true,
        )),
    ensures
        merging(f, sets, taken.update(k, true), objs, cur + sets[k]),
{
    let taken2 = taken.update(k, true);
    let cur2 = cur + sets[k];
    let n = cur.len() as int;
    let all = objs.push(cur);
    let all2 = objs.push(cur2);
    let m = objs.len() as int;
    assert forall|j: int| 0 <= j < cur2.len() implies from_taken(sets, taken2, #[trigger] cur2[j]) by {
        if j < n {
            assert(cur2[j] == cur[j]);
            assert(from_taken(sets, taken, cur[j]));
            let (k1, j1) = choose|k1: int, j1: int|
                is_cell(sets, k1, j1) && taken[k1] && #[trigger] cell(sets, k1, j1) == cur[j];
            assert(is_cell(sets, k1, j1) && taken2[k1] && cell(sets, k1, j1) == cur2[j]);
        } else {
            assert(is_cell(sets, k, j - n) && taken2[k] && cell(sets, k, j - n) == cur2[j]);
        }
    }
    assert forall|i: int, j: int| is_cell(objs, i, j) implies from_taken(
        sets,
        taken2,
        #[trigger] cell(objs, i, j),
    ) by {
        assert(from_taken(sets, taken, cell(objs, i, j)));
        let (k1, j1) = choose|k1: int, j1: int|
            is_cell(sets, k1, j1) && taken[k1] && #[trigger] cell(sets, k1, j1) == cell(objs, i, j);
        assert(is_cell(sets, k1, j1) && taken2[k1] && cell(sets, k1, j1) == cell(objs, i, j));
    }
    assert forall|k1: int, j1: int| is_cell(sets, k1, j1) && taken2[k1] implies cur2.contains(
        #[trigger] cell(sets, k1, j1),
    ) || placed(objs, cell(sets, k1, j1)) by {
        if k1 == k {
            assert(cur2[n + j1] == cell(sets, k1, j1));
        } else {
            if cur.contains(cell(sets, k1, j1)) {
                let j = choose|j: int| 0 <= j < cur.len() && cur[j] == cell(sets, k1, j1);
                assert(cur2[j] == cell(sets, k1, j1));
            }
        }
    }
    assert forall|i1: int, j1: int, i2: int, j2: int|
        is_cell(all2, i1, j1) && is_cell(all2, i2, j2) && #[trigger] cell(all2, i1, j1)
            == #[trigger] cell(all2, i2, j2) implies i1 == i2 && j1 == j2 by {
        let new1 = i1 == m && j1 >= n;
        let new2 = i2 == m && j2 >= n;
        if !new1 {
            assert(is_cell(all, i1, j1) && cell(all, i1, j1) == cell(all2, i1, j1));
            if i1 < m {
                assert(is_cell(objs, i1, j1) && cell(objs, i1, j1) == cell(all, i1, j1));
                assert(from_taken(sets, taken, cell(objs, i1, j1)));
            } else {
                assert(cur[j1] == cell(all, i1, j1));
                assert(from_taken(sets, taken, cur[j1]));
            }
        } else {
            assert(is_cell(sets, k, j1 - n) && cell(sets, k, j1 - n) == cell(all2, i1, j1));
        }
        if !new2 {
            assert(is_cell(all, i2, j2) && cell(all, i2, j2) == cell(all2, i2, j2));
            if i2 < m {
                assert(is_cell(objs, i2, j2) && cell(objs, i2, j2) == cell(all, i2, j2));
                assert(from_taken(sets, taken, cell(objs, i2, j2)));
            } else {
                assert(cur[j2] == cell(all, i2, j2));
                assert(from_taken(sets, taken, cur[j2]));
            }
        } else {
            assert(is_cell(sets, k, j2 - n) && cell(sets, k, j2 - n) == cell(all2, i2, j2));
        }
        if new1 != new2 {
            let q = cell(all2, i1, j1);
            let (k1, j3) = choose|k1: int, j3: int|
                is_cell(sets, k1, j3) && taken[k1] && #[trigger] cell(sets, k1, j3) == q;
            assert(k1 != k);
        }
    }
    assert(connected(f, cur2)) by {
        if n == 0 {
            assert(cur2 =~= sets[k]);
        } else {
            lemma_connected_union(f, cur, sets[k], b, a);
        }
    }
    assert forall|i: int| 0 <= i < objs.len() implies apart(f, cur2, #[trigger] objs[i]) by {
        assert(apart(f, cur, objs[i]));
        assert(apart(f, sets[k], objs[i]));
        assert forall|i1: int, j1: int| 0 <= i1 < cur2.len() && 0 <= j1 < objs[i].len() implies answers(
            f,
            #[trigger] cur2[i1],
            #[trigger] objs[i][j1],
            false,
        ) by {
            if i1 < n {
                assert(cur2[i1] == cur[i1]);
            } else {
                assert(cur2[i1] == sets[k][i1 - n]);
            }
        }
    }
}

/// The growing object is complete: every set that is left has been denied as its
/// neighbor.
proof fn lemma_merge_emits<F: Fn(&(usize, usize), &(usize, usize)) -> bool>(
    f: F,
    sets: Seq<Seq<(usize, usize)>>,
    taken: Seq<bool>,
    objs: Seq<Seq<(usize, usize)>>,
    cur: Seq<(usize, usize)>,
)
    requires
        merging(f, sets, taken, objs, cur),
        cur.len() > 0,
        forall|k: int| 0 <= k < sets.len() && !taken[k] ==> apart(f, #[trigger] sets[k], cur),
    ensures
        merging(f, sets, taken, objs.push(cur), Seq::empty()),
{
    let objs2 = objs.push(cur);
    let none = Seq::<(usize, usize)>::empty();
    let all = objs.push(cur);
    let all2 = objs2.push(none);
    let m = objs.len() as int;
    assert forall|i: int, j: int| is_cell(objs2, i, j) implies from_taken(
        sets,
        taken,
        #[trigger] cell(objs2, i, j),
    ) by {
        if i < m {
            assert(is_cell(objs, i, j) && cell(objs, i, j) == cell(objs2, i, j));
        } else {
            assert(cur[j] == cell(objs2, i, j));
        }
    }
    assert forall|k1: int, j1: int| is_cell(sets, k1, j1) && taken[k1] implies none.contains(
        #[trigger] cell(sets, k1, j1),
    ) || placed(objs2, cell(sets, k1, j1)) by {
        let q = cell(sets, k1, j1);
        if cur.contains(q) {
            let j = choose|j: int| 0 <= j < cur.len() && cur[j] == q;
            assert(is_cell(objs2, m, j) && cell(objs2, m, j) == q);
        } else {
            assert(placed(objs, q));
            let (i, j) = choose|i: int, j: int| is_cell(objs, i, j) && #[trigger] cell(objs, i, j) == q;
            assert(is_cell(objs2, i, j) && cell(objs2, i, j) == q);
        }
    }
    assert forall|i1: int, j1: int, i2: int, j2: int|
        is_cell(all2, i1, j1) && is_cell(all2, i2, j2) && #[trigger] cell(all2, i1, j1)
            == #[trigger] cell(all2, i2, j2) implies i1 == i2 && j1 == j2 by {
        assert(is_cell(all, i1, j1) && cell(all, i1, j1) == cell(all2, i1, j1));
        assert(is_cell(all, i2, j2) && cell(all, i2, j2) == cell(all2, i2, j2));
    }
    assert forall|i: int| 0 <= i < objs2.len() implies (#[trigger] objs2[i]).len() > 0 && connected(
        f,
        objs2[i],
    ) by {
        if i < m {
            assert(objs2[i] == objs[i]);
        }
    }
    assert forall|i: int, i2: int| 0 <= i < i2 < objs2.len() implies apart(
        f,
        #[trigger] objs2[i2],
        #[trigger] objs2[i],
    ) by {
        assert(objs2[i] == objs[i]);
        if i2 < m {
            assert(objs2[i2] == objs[i2]);
        } else {
            assert(apart(f, cur, objs[i]));
        }
    }
    assert forall|k: int, i: int| 0 <= k < sets.len() && !taken[k] && 0 <= i < objs2.len() implies apart(
        f,
        #[trigger] sets[k],
        #[trigger] objs2[i],
    ) by {
        if i < m {
            assert(objs2[i] == objs[i]);
        }
    }
}

/// Once every set is taken and no object is growing, the objects are those of the sets.
proof fn lemma_merge_ends<F: Fn(&(usize, usize), &(usize, usize)) -> bool>(
    f: F,
    sets: Seq<Seq<(usize, usize)>>,
    taken: Seq<bool>,
    objs: Seq<Seq<(usize, usize)>>,
)
    requires
        merging(f, sets, taken, objs, Seq::empty()),
        merging_in_order(sets, taken, objs, Seq::empty()),
        forall|k: int| 0 <= k < taken.len() ==> #[trigger] taken[k],
    ensures
        merged(f, sets, objs),
{
    let none = Seq::<(usize, usize)>::empty();
    let all = objs.push(none);
    assert forall|i: int, j: int| is_cell(objs, i, j) && j > 0 implies earlier(
        objs[i][0],
        #[trigger] cell(objs, i, j),
    ) by {
        assert(is_cell(all, i, j) && cell(all, i, j) == cell(objs, i, j));
        assert(all[i] == objs[i]);
    }
    assert forall|i: int, i2: int|
        0 <= i < i2 < objs.len() && objs[i].len() > 0 && objs[i2].len() > 0 implies earlier(
        (#[trigger] objs[i])[0],
        (#[trigger] objs[i2])[0],
    ) by {
        assert(all[i] == objs[i] && all[i2] == objs[i2]);
    }
    assert forall|i: int, j: int| is_cell(objs, i, j) implies placed(sets, #[trigger] cell(objs, i, j)) by {
        assert(from_taken(sets, taken, cell(objs, i, j)));
        let (k1, j1) = choose|k1: int, j1: int|
            is_cell(sets, k1, j1) && taken[k1] && #[trigger] cell(sets, k1, j1) == cell(objs, i, j);
        assert(is_cell(sets, k1, j1) && cell(sets, k1, j1) == cell(objs, i, j));
    }
    assert forall|k: int, j: int| is_cell(sets, k, j) implies placed(objs, #[trigger] cell(sets, k, j)) by {
        assert(taken[k]);
        assert(!none.contains(cell(sets, k, j)));
    }
    assert forall|i1: int, j1: int, i2: int, j2: int|
        is_cell(objs, i1, j1) && is_cell(objs, i2, j2) && #[trigger] cell(objs, i1, j1)
            == #[trigger] cell(objs, i2, j2) implies i1 == i2 && j1 == j2 by {
        assert(is_cell(all, i1, j1) && cell(all, i1, j1) == cell(objs, i1, j1));
        assert(is_cell(all, i2, j2) && cell(all, i2, j2) == cell(objs, i2, j2));
    }
}

/// The order at the start of the second pass.
proof fn lemma_order_begins(sets: Seq<Seq<(usize, usize)>>, taken: Seq<bool>)
    ensures
        merging_in_order(sets, taken, Seq::empty(), Seq::empty()),
{
    let objs = Seq::<Seq<(usize, usize)>>::empty();
    let cur = Seq::<(usize, usize)>::empty();
    let all = objs.push(cur);
    assert(all.len() == 1 && all[0].len() == 0);
}

/// The order is kept where a set joins the growing object; a set that starts an object
/// is the first that is left.
proof fn lemma_order_takes(
    sets: Seq<Seq<(usize, usize)>>,
    taken: Seq<bool>,
    objs: Seq<Seq<(usize, usize)>>,
    cur: Seq<(usize, usize)>,
    k: int,
)
    requires
        led_in_order(sets),
        forall|k1: int| 0 <= k1 < sets.len() ==> (#[trigger] sets[k1]).len() > 0,
        taken.len() == sets.len(),
        merging_in_order(sets, taken, objs, cur),
        0 <= k < sets.len(),
        !taken[k],
        cur.len() == 0 ==> forall|k1: int| 0 <= k1 < k ==> #[trigger] taken[k1],
    ensures
        merging_in_order(sets, taken.update(k, true), objs, cur + sets[k]),
{
    let taken2 = taken.update(k, true);
    let cur2 = cur + sets[k];
    let n = cur.len() as int;
    let m = objs.len() as int;
    let all = objs.push(cur);
    let all2 = objs.push(cur2);
    assert(sets[k].len() > 0);
    assert(all[m] == cur && all2[m] == cur2);
    assert(cur2[0] == (if n > 0 {
        cur[0]
    } else {
        sets[k][0]
    }));
    if n > 0 {
        assert(earlier(all[m][0], sets[k][0]));
    }
    assert forall|i: int, j: int| is_cell(all2, i, j) && j > 0 implies earlier(
        all2[i][0],
        #[trigger] cell(all2, i, j),
    ) by {
        if i < m {
            assert(all2[i] == all[i]);
            assert(is_cell(all, i, j) && cell(all, i, j) == cell(all2, i, j));
        } else if j < n {
            assert(is_cell(all, m, j) && cell(all, m, j) == cell(all2, i, j));
        } else {
            assert(cell(all2, i, j) == sets[k][j - n]);
            if j - n > 0 {
                assert(is_cell(sets, k, j - n) && cell(sets, k, j - n) == sets[k][j - n]);
            }
        }
    }
    assert forall|i: int, i2: int|
        0 <= i < i2 < all2.len() && all2[i].len() > 0 && all2[i2].len() > 0 implies earlier(
        (#[trigger] all2[i])[0],
        (#[trigger] all2[i2])[0],
    ) by {
        assert(all2[i] == all[i]);
        if i2 < m {
            assert(all2[i2] == all[i2]);
        } else if n > 0 {
            assert(earlier(all[i][0], all[m][0]));
        } else {
            assert(earlier(all[i][0], sets[k][0]));
        }
    }
    assert forall|k1: int, i: int|
        0 <= k1 < sets.len() && !taken2[k1] && 0 <= i <= objs.len() && all2[i].len() > 0 implies earlier(
        (#[trigger] all2[i])[0],
        (#[trigger] sets[k1])[0],
    ) by {
        assert(!taken[k1] && k1 != k);
        if i < m {
            assert(all2[i] == all[i]);
        } else if n > 0 {
            assert(earlier(all[m][0], sets[k1][0]));
        } else {
            assert(k < k1) by {
                if k1 < k {
                    assert(taken[k1]);
                }
            }
            assert(sets[k1].len() > 0);
        }
    }
}

/// The order is kept where the growing object is complete.
proof fn lemma_order_emits(
    sets: Seq<Seq<(usize, usize)>>,
    taken: Seq<bool>,
    objs: Seq<Seq<(usize, usize)>>,
    cur: Seq<(usize, usize)>,
)
    requires
        merging_in_order(sets, taken, objs, cur),
    ensures
        merging_in_order(sets, taken, objs.push(cur), Seq::empty()),
{
    let none = Seq::<(usize, usize)>::empty();
    let all = objs.push(cur);
    let all2 = all.push(none);
    let m = objs.len() as int;
    assert forall|i: int, j: int| is_cell(all2, i, j) && j > 0 implies earlier(
        all2[i][0],
        #[trigger] cell(all2, i, j),
    ) by {
        assert(all2[i] == all[i]);
        assert(is_cell(all, i, j) && cell(all, i, j) == cell(all2, i, j));
    }
    assert forall|i: int, i2: int|
        0 <= i < i2 < all2.len() && all2[i].len() > 0 && all2[i2].len() > 0 implies earlier(
        (#[trigger] all2[i])[0],
        (#[trigger] all2[i2])[0],
    ) by {
        assert(all2[i] == all[i] && all2[i2] == all[i2]);
    }
    assert forall|k1: int, i: int|
        0 <= k1 < sets.len() && !taken[k1] && 0 <= i <= all.len() && all2[i].len() > 0 implies earlier(
        (#[trigger] all2[i])[0],
        (#[trigger] sets[k1])[0],
    ) by {
        assert(all2[i] == all[i]);
    }
}

/// Whether `f` accepts a cell of `set` as a neighbor of a cell of `cur`; if so, the
/// places of the two cells.
fn crosses<F: Fn(&(usize, usize), &(usize, usize)) -> bool>(
    set: &Vec<(usize, usize)>,
    cur: &Vec<(usize, usize)>,
    f: &F,
) -> (r: Option<(usize, usize)>)
    requires
        always_answers(*f),
    ensures
        match r {
            Some((a, b)) => a < set@.len() && b < cur@.len() && answers(
                *f,
                set@[a as int],
                cur@[b as int],
                true,
            ),
            None => apart(*f, set@, cur@),
        },
{
    let mut a: usize = 0;
    while a < set.len()
        invariant
            0 <= a <= set.len(),
            always_answers(*f),
            forall|i: int, j: int|
                0 <= i < a && 0 <= j < cur@.len() ==> answers(
                    *f,
                    #[trigger] set@[i],
                    #[trigger] cur@[j],
                    false,
                ),
        decreases set.len() - a,
    {
        let mut b: usize = 0;
        while b < cur.len()
            invariant
                0 <= a < set.len(),
                0 <= b <= cur.len(),
                always_answers(*f),
                forall|i: int, j: int|
                    0 <= i < a && 0 <= j < cur@.len() ==> answers(
                        *f,
                        #[trigger] set@[i],
                        #[trigger] cur@[j],
                        false,
                    ),
                forall|j: int| 0 <= j < b ==> answers(*f, set@[a as int], #[trigger] cur@[j], false),
            decreases cur.len() - b,
        {
            if ask(f, &set[a], &cur[b]) {
                return Some((a, b));
            }
            b = b + 1;
        }
        a = a + 1;
    }
    None
}

/// The second pass for one color: the partial sets are merged into objects. An object
/// starts from the first set that is left, takes in every set of which a cell is a
/// neighbor of one of its own, and is complete once a round over the sets adds none.
fn merge_sets<F: Fn(&(usize, usize), &(usize, usize)) -> bool>(
    sets: &Vec<Vec<(usize, usize)>>,
    f: &F,
) -> (objs: Vec<Vec<(usize, usize)>>)
    requires
        always_answers(*f),
        mergeable(*f, lists(sets@)),
    ensures
        merged(*f, lists(sets@), lists(objs@)),
{
    let n = sets.len();
    let mut taken: Vec<bool> = Vec::new();
    let mut t: usize = 0;
    while t < n
        invariant
            0 <= t <= n,
            taken@.len() == t,
            forall|k: int| 0 <= k < t ==> !#[trigger] taken@[k],
        decreases n - t,
    {
        taken.push(false);
        t = t + 1;
    }
    let mut objs: Vec<Vec<(usize, usize)>> = Vec::new();
    let mut cur: Vec<(usize, usize)> = Vec::new();
    let mut prev_len: usize = 0;
    let mut done = false;
    proof {
        assert(lists(objs@) =~= Seq::<Seq<(usize, usize)>>::empty());
        assert(cur@ =~= Seq::<(usize, usize)>::empty());
        lemma_merge_begins(*f, lists(sets@), taken@);
        lemma_order_begins(lists(sets@), taken@);
    }
    while !done
        invariant
            n == sets.len(),
            always_answers(*f),
            mergeable(*f, lists(sets@)),
            merging(*f, lists(sets@), taken@, lists(objs@), cur@),
            merging_in_order(lists(sets@), taken@, lists(objs@), cur@),
            prev_len == cur@.len(),
            done ==> cur@.len() == 0 && forall|k: int| 0 <= k < taken@.len() ==> #[trigger] taken@[k],
        decreases
                (if done {
                    0
                } else {
                    2 + 2 * untaken(taken@) + (if cur@.len() > 0 {
                        1int
                    } else {
                        0int
                    })
                }),
    {
        let ghost start = cur@;
        let ghost left = untaken(taken@);
        let mut k: usize = 0;
        while k < n
            invariant
                0 <= k <= n,
                n == sets.len(),
                always_answers(*f),
                mergeable(*f, lists(sets@)),
                merging(*f, lists(sets@), taken@, lists(objs@), cur@),
                merging_in_order(lists(sets@), taken@, lists(objs@), cur@),
                cur@.len() >= start.len(),
                cur@.len() == start.len() ==> cur@ == start && untaken(taken@) == left,
                cur@.len() > start.len() ==> untaken(taken@) < left,
                cur@.len() == start.len() ==> forall|k1: int|
                    0 <= k1 < k && !taken@[k1] ==> apart(*f, #[trigger] lists(sets@)[k1], cur@),
                cur@.len() == 0 ==> forall|k1: int| 0 <= k1 < k ==> #[trigger] taken@[k1],
            decreases n - k,
        {
            if !taken[k] {
                let found = if cur.len() == 0 {
                    Some((0usize, 0usize))
                } else {
                    crosses(&sets[k], &cur, f)
                };
                match found {
                    Some((a, b)) => {
                        proof {
                            assert(lists(sets@)[k as int] == sets@[k as int]@);
                            lemma_merge_takes(
                                *f,
                                lists(sets@),
                                taken@,
                                lists(objs@),
                                cur@,
                                k as int,
                                a as int,
                                b as int,
                            );
                            lemma_order_takes(lists(sets@), taken@, lists(objs@), cur@, k as int);
                            lemma_untaken_less(taken@, k as int);
                        }
                        let ghost cur_before = cur@;
                        let mut j: usize = 0;
                        while j < sets[k].len()
                            invariant
                                0 <= k < sets.len(),
                                0 <= j <= sets@[k as int]@.len(),
                                cur@ == cur_before + sets@[k as int]@.subrange(0, j as int),
                            decreases sets@[k as int]@.len() - j,
                        {
                            cur.push(sets[k][j]);
                            proof {
                                assert(cur@ =~= cur_before + sets@[k as int]@.subrange(0, j + 1));
                            }
                            j = j + 1;
                        }
                        proof {
                            assert(sets@[k as int]@.subrange(0, j as int) =~= sets@[k as int]@);
                        }
                        taken.set(k, true);
                    },
                    None => {
                        proof {
                            assert(lists(sets@)[k as int] == sets@[k as int]@);
                        }
                    },
                }
            }
            k = k + 1;
        }
        if cur.len() != 0 {
            if cur.len() == prev_len {
                proof {
                    lemma_merge_emits(*f, lists(sets@), taken@, lists(objs@), cur@);
                    lemma_order_emits(lists(sets@), taken@, lists(objs@), cur@);
                    assert(lists(objs@.push(cur)) =~= lists(objs@).push(cur@));
                }
                objs.push(cur);
                cur = Vec::new();
                proof {
                    assert(cur@ =~= Seq::<(usize, usize)>::empty());
                }
            }
            prev_len = cur.len();
        } else {
            done = true;
        }
    }
    proof {
        assert(cur@ =~= Seq::<(usize, usize)>::empty());
        lemma_merge_ends(*f, lists(sets@), taken@, lists(objs@));
    }
    objs
}

/// The objects of a grid: every cell that has not the background color is in one
/// object, once; an object is of one color and connected, and its first cell is the
/// one that comes first in the scan; the objects are in the order of their colors, and
/// those of one color in the order of their first cells; and of two objects of one
/// color, every cell of the later one has been denied as a neighbor of every cell of
/// the earlier one.
pub open spec fn objects_of<F: Fn(&(usize, usize), &(usize, usize)) -> bool>(
    g: Grid,
    bg: u8,
    f: F,
    objs: Seq<Seq<(usize, usize)>>,
) -> bool {
    &&& forall|i: int| 0 <= i < objs.len() ==> (#[trigger] objs[i]).len() > 0 && connected(f, objs[i])
    &&& forall|i: int, j: int|
        is_cell(objs, i, j) ==> on_grid(g, #[trigger] cell(objs, i, j)) && color_at(
            g,
            cell(objs, i, j),
        ) != bg && color_at(g, cell(objs, i, j)) == color_at(g, objs[i][0])
    &&& forall|p: (usize, usize)| on_grid(g, p) && color_at(g, p) != bg ==> #[trigger] placed(objs, p)
    &&& distinct(objs)
    &&& forall|i: int, j: int|
        is_cell(objs, i, j) && j > 0 ==> earlier(objs[i][0], #[trigger] cell(objs, i, j))
    &&& forall|i: int, i2: int|
        0 <= i < i2 < objs.len() ==> color_at(g, (#[trigger] objs[i])[0]) < color_at(
            g,
            (#[trigger] objs[i2])[0],
        ) || (color_at(g, objs[i][0]) == color_at(g, objs[i2][0]) && earlier(
            objs[i][0],
            objs[i2][0],
        ))
    &&& forall|i: int, i2: int|
        0 <= i < i2 < objs.len() && color_at(g, objs[i][0]) == color_at(g, objs[i2][0]) ==> apart(
            f,
            #[trigger] objs[i2],
            #[trigger] objs[i],
        )
}

/// The objects of the colors below `c`.
spec fn objects_below<F: Fn(&(usize, usize), &(usize, usize)) -> bool>(
    g: Grid,
    bg: u8,
    f: F,
    objs: Seq<Seq<(usize, usize)>>,
    c: int,
) -> bool {
    &&& forall|i: int| 0 <= i < objs.len() ==> (#[trigger] objs[i]).len() > 0 && connected(f, objs[i])
    &&& forall|i: int, j: int|
        is_cell(objs, i, j) ==> on_grid(g, #[trigger] cell(objs, i, j)) && color_at(
            g,
            cell(objs, i, j),
        ) != bg && color_at(g, cell(objs, i, j)) == color_at(g, objs[i][0]) && color_at(
            g,
            cell(objs, i, j),
        ) < c
    &&& forall|p: (usize, usize)|
        on_grid(g, p) && color_at(g, p) != bg && color_at(g, p) < c ==> #[trigger] placed(objs, p)
    &&& distinct(objs)
    &&& forall|i: int, j: int|
        is_cell(objs, i, j) && j > 0 ==> earlier(objs[i][0], #[trigger] cell(objs, i, j))
    &&& forall|i: int, i2: int|
        0 <= i < i2 < objs.len() ==> color_at(g, (#[trigger] objs[i])[0]) < color_at(
            g,
            (#[trigger] objs[i2])[0],
        ) || (color_at(g, objs[i][0]) == color_at(g, objs[i2][0]) && earlier(
            objs[i][0],
            objs[i2][0],
        ))
    &&& forall|i: int, i2: int|
        0 <= i < i2 < objs.len() && color_at(g, objs[i][0]) == color_at(g, objs[i2][0]) ==> apart(
            f,
            #[trigger] objs[i2],
            #[trigger] objs[i],
        )
}

/// The objects of one more color come behind those of the colors below it.
proof fn lemma_objects_grow<F: Fn(&(usize, usize), &(usize, usize)) -> bool>(
    g: Grid,
    bg: u8,
    f: F,
    objs: Seq<Seq<(usize, usize)>>,
    color: u8,
    sets: Seq<Seq<(usize, usize)>>,
    part: Seq<Seq<(usize, usize)>>,
)
    requires
        g.wf(),
        color != bg,
        objects_below(g, bg, f, objs, color as int),
        partial_sets(g, f, color, sets, g.rows.len() as int, 0),
        merged(f, sets, part),
    ensures
        objects_below(g, bg, f, objs + part, color + 1),
{
    let all = objs + part;
    let m = objs.len() as int;
    assert forall|i: int, j: int| is_cell(part, i, j) implies on_grid(g, #[trigger] cell(part, i, j))
        && color_at(g, cell(part, i, j)) == color by {
        assert(placed(sets, cell(part, i, j)));
        let (k1, j1) = choose|k1: int, j1: int|
            is_cell(sets, k1, j1) && #[trigger] cell(sets, k1, j1) == cell(part, i, j);
        assert(on_grid(g, cell(sets, k1, j1)));
    }
    assert forall|i: int| 0 <= i < all.len() implies (#[trigger] all[i]).len() > 0 && connected(
        f,
        all[i],
    ) by {
        if i < m {
            assert(all[i] == objs[i]);
        } else {
            assert(all[i] == part[i - m]);
        }
    }
    assert forall|i: int| 0 <= i < all.len() implies on_grid(g, (#[trigger] all[i])[0]) && (if i < m {
        color_at(g, all[i][0]) < color
    } else {
        color_at(g, all[i][0]) == color
    }) by {
        if i < m {
            assert(all[i] == objs[i]);
            assert(is_cell(objs, i, 0) && cell(objs, i, 0) == all[i][0]);
        } else {
            assert(all[i] == part[i - m]);
            assert(is_cell(part, i - m, 0) && cell(part, i - m, 0) == all[i][0]);
        }
    }
    assert forall|i: int, j: int| is_cell(all, i, j) implies on_grid(g, #[trigger] cell(all, i, j))
        && color_at(g, cell(all, i, j)) != bg && color_at(g, cell(all, i, j)) == color_at(
        g,
        all[i][0],
    ) && color_at(g, cell(all, i, j)) < color + 1 by {
        assert(on_grid(g, all[i][0]));
        if i < m {
            assert(all[i] == objs[i]);
            assert(is_cell(objs, i, j) && cell(objs, i, j) == cell(all, i, j));
        } else {
            assert(all[i] == part[i - m]);
            assert(is_cell(part, i - m, j) && cell(part, i - m, j) == cell(all, i, j));
        }
    }
    assert forall|p: (usize, usize)|
        on_grid(g, p) && color_at(g, p) != bg && color_at(g, p) < color + 1 implies #[trigger] placed(
        all,
        p,
    ) by {
        if color_at(g, p) < color {
            assert(placed(objs, p));
            let (i, j) = choose|i: int, j: int| is_cell(objs, i, j) && #[trigger] cell(objs, i, j) == p;
            assert(is_cell(all, i, j) && cell(all, i, j) == p);
        } else {
            assert(before(p, g.rows.len() as int, 0));
            assert(placed(sets, p));
            let (k1, j1) = choose|k1: int, j1: int|
                is_cell(sets, k1, j1) && #[trigger] cell(sets, k1, j1) == p;
            assert(placed(part, cell(sets, k1, j1)));
            let (i, j) = choose|i: int, j: int| is_cell(part, i, j) && #[trigger] cell(part, i, j) == p;
            assert(is_cell(all, m + i, j) && cell(all, m + i, j) == p);
        }
    }
    assert forall|i1: int, j1: int, i2: int, j2: int|
        is_cell(all, i1, j1) && is_cell(all, i2, j2) && #[trigger] cell(all, i1, j1)
            == #[trigger] cell(all, i2, j2) implies i1 == i2 && j1 == j2 by {
        assert(on_grid(g, all[i1][0]) && on_grid(g, all[i2][0]));
        if i1 < m {
            assert(is_cell(objs, i1, j1) && cell(objs, i1, j1) == cell(all, i1, j1));
        } else {
            assert(is_cell(part, i1 - m, j1) && cell(part, i1 - m, j1) == cell(all, i1, j1));
        }
        if i2 < m {
            assert(is_cell(objs, i2, j2) && cell(objs, i2, j2) == cell(all, i2, j2));
        } else {
            assert(is_cell(part, i2 - m, j2) && cell(part, i2 - m, j2) == cell(all, i2, j2));
        }
    }
    assert forall|i: int, j: int| is_cell(all, i, j) && j > 0 implies earlier(
        all[i][0],
        #[trigger] cell(all, i, j),
    ) by {
        if i < m {
            assert(all[i] == objs[i]);
            assert(is_cell(objs, i, j) && cell(objs, i, j) == cell(all, i, j));
        } else {
            assert(all[i] == part[i - m]);
            assert(is_cell(part, i - m, j) && cell(part, i - m, j) == cell(all, i, j));
        }
    }
    assert forall|i: int, i2: int| 0 <= i < i2 < all.len() implies color_at(
        g,
        (#[trigger] all[i])[0],
    ) < color_at(g, (#[trigger] all[i2])[0]) || (color_at(g, all[i][0]) == color_at(g, all[i2][0])
        && earlier(all[i][0], all[i2][0])) by {
        assert(on_grid(g, all[i][0]) && on_grid(g, all[i2][0]));
        if i2 < m {
            assert(all[i] == objs[i] && all[i2] == objs[i2]);
        } else if i >= m {
            assert(all[i] == part[i - m] && all[i2] == part[i2 - m]);
            assert(part[i - m].len() > 0 && part[i2 - m].len() > 0);
        }
    }
    assert forall|i: int, i2: int|
        0 <= i < i2 < all.len() && color_at(g, all[i][0]) == color_at(g, all[i2][0]) implies apart(
        f,
        #[trigger] all[i2],
        #[trigger] all[i],
    ) by {
        assert(on_grid(g, all[i][0]) && on_grid(g, all[i2][0]));
        if i2 < m {
            assert(all[i] == objs[i] && all[i2] == objs[i2]);
        } else if i >= m {
            assert(all[i] == part[i - m] && all[i2] == part[i2 - m]);
        }
    }
}

/// Of two cells of one color that `f` never denies as neighbors, whichever is asked
/// first, both are in the same object.
pub proof fn lemma_neighbors_in_one_object<F: Fn(&(usize, usize), &(usize, usize)) -> bool>(
    g: Grid,
    bg: u8,
    f: F,
    objs: Seq<Seq<(usize, usize)>>,
    i: int,
    j: int,
    i2: int,
    j2: int,
)
    requires
        objects_of(g, bg, f, objs),
        is_cell(objs, i, j),
        is_cell(objs, i2, j2),
        color_at(g, objs[i][j]) == color_at(g, objs[i2][j2]),
        !answers(f, objs[i][j], objs[i2][j2], false),
        !answers(f, objs[i2][j2], objs[i][j], false),
    ensures
        i == i2,
{
    assert(cell(objs, i, j) == objs[i][j] && cell(objs, i2, j2) == objs[i2][j2]);
    if i < i2 {
        assert(apart(f, objs[i2], objs[i]));
    }
    if i2 < i {
        assert(apart(f, objs[i], objs[i2]));
    }
}

/// Groups the cells of the grid that have not the color `bg_color` into objects:
/// sets of cells of one color that hang together by `pred_neigh`, which says of two
/// cells whether the first is a neighbor of the second.
pub fn extract_objects<F: Fn(&(usize, usize), &(usize, usize)) -> bool>(
    img: &Image,
    bg_color: u8,
    pred_neigh: F,
) -> (objs: Vec<Vec<(usize, usize)>>)
    requires
        always_answers(pred_neigh),
    ensures
        objects_of(img@, bg_color, pred_neigh, lists(objs@)),
{
    let _ = img.shape();
    let mut objs: Vec<Vec<(usize, usize)>> = Vec::new();
    let mut c: u16 = 0;
    proof {
        assert(lists(objs@) =~= Seq::<Seq<(usize, usize)>>::empty());
    }
    while c < 256
        invariant
            0 <= c <= 256,
            img@.wf(),
            always_answers(pred_neigh),
            objects_below(img@, bg_color, pred_neigh, lists(objs@), c as int),
        decreases 256 - c,
    {
        let color = c as u8;
        if color != bg_color {
            let sets = partial_objects(img, color, &pred_neigh);
            let mut part = merge_sets(&sets, &pred_neigh);
            proof {
                lemma_objects_grow(
                    img@,
                    bg_color,
                    pred_neigh,
                    lists(objs@),
                    color,
                    lists(sets@),
                    lists(part@),
                );
                assert(lists(objs@ + part@) =~= lists(objs@) + lists(part@));
            }
            objs.append(&mut part);
        }
        c = c + 1;
    }
    objs
}

/// The box from the grid's origin to the greatest coordinates among the cells: its
/// least corner is `(0, 0)`, and each coordinate of its greatest corner is the greatest
/// that a cell has, or 0 where there is no cell.
pub fn get_bounding_box(obj: &Vec<(usize, usize)>) -> (bb: BoundingBox)
    ensures
        bb.0 == (0usize, 0usize),
        forall|i: int| 0 <= i < obj@.len() ==> (#[trigger] obj@[i]).0 <= bb.1.0 && obj@[i].1 <= bb.1.1,
        bb.1.0 == 0 || exists|i: int| 0 <= i < obj@.len() && (#[trigger] obj@[i]).0 == bb.1.0,
        bb.1.1 == 0 || exists|i: int| 0 <= i < obj@.len() && (#[trigger] obj@[i]).1 == bb.1.1,
{
    let mut x_max: usize = 0;
    let mut y_max: usize = 0;
    let mut i: usize = 0;
    while i < obj.len()
        invariant
            0 <= i <= obj.len(),
            forall|k: int| 0 <= k < i ==> (#[trigger] obj@[k]).0 <= x_max && obj@[k].1 <= y_max,
            x_max == 0 || exists|k: int| 0 <= k < i && (#[trigger] obj@[k]).0 == x_max,
            y_max == 0 || exists|k: int| 0 <= k < i && (#[trigger] obj@[k]).1 == y_max,
        decreases obj.len() - i,
    {
        let pt = obj[i];
        if pt.0 > x_max {
            x_max = pt.0;
        }
        if pt.1 > y_max {
            y_max = pt.1;
        }
        i = i + 1;
    }
    ((0, 0), (x_max, y_max))
}

/// The block of the grid's cells from the least corner of the box up to, and without,
/// the row and the column of its greatest corner.
pub fn get_image_block_by_bounding_box(img: &Image, bb: &BoundingBox) -> (r: Result<ImageBlock, BlockError>)
    requires
        bb.0.0 <= bb.1.0 <= img@.rows.len(),
        bb.0.1 <= bb.1.1 <= img@.width,
    ensures
        r matches Ok(b) && b@ == extracted(
            img@,
            (bb.0.0 as i64, bb.0.1 as i64),
            (bb.1.0 - bb.0.0) as u64,
            (bb.1.1 - bb.0.1) as u64,
        ),
{
    let _ = img.shape();
    let origin = (bb.0.0 as i64, bb.0.1 as i64);
    extract_block_from_image(img, &origin, (bb.1.0 - bb.0.0) as u64, (bb.1.1 - bb.0.1) as u64)
}

} // verus!
