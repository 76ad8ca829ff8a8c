//! The catalogue of operations that a search draws from.

pub mod geometry;
pub mod noop;
pub mod types;

use vstd::prelude::*;
use crate::types::{Grid, Image, Task};
use crate::solver::operation::types::{seen, Operation};

verus! {

/// The values of the grids.
pub open spec fn grids(images: Seq<Image>) -> Seq<Grid> {
    Seq::new(images.len(), |i: int| images[i]@)
}

/// The values of the grids of each pair.
pub open spec fn pairs_seen(pairs: Seq<(&Image, &Image)>) -> Seq<(Grid, Grid)> {
    Seq::new(pairs.len(), |i: int| ((*pairs[i].0)@, (*pairs[i].1)@))
}

/// The expected results of a task's training pairs.
pub open spec fn expected(task: Task) -> Seq<Grid> {
    Seq::new(task.train@.len(), |i: int| task.train@[i].output@)
}

/// The inputs of a task's training pairs.
pub open spec fn inputs(task: Task) -> Seq<Grid> {
    Seq::new(task.train@.len(), |i: int| task.train@[i].input@)
}

/// Each grid with the result that is expected of it, as far as both go.
pub open spec fn pairs_of(images: Seq<Grid>, wanted: Seq<Grid>) -> Seq<(Grid, Grid)> {
    Seq::new(
        if images.len() <= wanted.len() {
            images.len()
        } else {
            wanted.len()
        },
        |i: int| (images[i], wanted[i]),
    )
}

/// Pairs of a grid and the grid that is expected of it, as values.
pub type GridPairs = Seq<(Grid, Grid)>;

/// An operation that is found by looking at pairs of a grid and the grid that is
/// expected of it, handed out behind a pointer.
pub trait LearnableOperationBox {
    /// Whether these pairs yield an operation.
    spec fn learns(&self, pairs: GridPairs) -> bool;

    /// What the operation that these pairs yield makes of a grid.
    spec fn learnt(&self, pairs: GridPairs, img: Grid) -> Option<Grid>;

    /// The operation that the pairs yield, if any.
    fn learn_box(&self, pairs: &Vec<(&Image, &Image)>) -> (r: Option<Box<dyn Operation>>)
        ensures
            r is Some == self.learns(pairs_seen(pairs@)),
            r matches Some(op) ==> forall|g: Grid|
                #![trigger op.outcome(g)]
                op.outcome(g) == self.learnt(pairs_seen(pairs@), g),
    ;
}

/// The operations that a search may use: those that are fixed, and those that are
/// learnt from the training pairs. Their order decides between equal scores.
pub struct Operations<'a> {
    pub simple: Vec<&'a dyn Operation>,
    pub learnable: Vec<&'a dyn LearnableOperationBox>,
}

impl<'a> Operations<'a> {
    /// The number of entries: the learnable operations come first, then the fixed.
    pub open spec fn entries(self) -> int {
        (self.learnable@.len() + self.simple@.len()) as int
    }

    /// Whether entry `e` yields an operation for these pairs; a fixed one always does.
    pub open spec fn offers(self, e: int, pairs: Seq<(Grid, Grid)>) -> bool {
        if e < self.learnable@.len() {
            self.learnable@[e].learns(pairs)
        } else {
            true
        }
    }

    /// What the operation of entry `e` makes of a grid.
    pub open spec fn outcome(self, e: int, pairs: Seq<(Grid, Grid)>, g: Grid) -> Option<Grid> {
        if e < self.learnable@.len() {
            self.learnable@[e].learnt(pairs, g)
        } else {
            self.simple@[e - self.learnable@.len()].outcome(g)
        }
    }

    /// The operation of entry `e` gives a result for every one of the grids.
    pub open spec fn succeeds(self, e: int, pairs: Seq<(Grid, Grid)>, images: Seq<Grid>) -> bool {
        forall|i: int| 0 <= i < images.len() ==> self.outcome(e, pairs, #[trigger] images[i]) is Some
    }

    /// What the operation of entry `e` makes of the grids: its result on each, where
    /// the entry yields an operation and that succeeds on every grid.
    pub open spec fn applied(self, e: int, pairs: Seq<(Grid, Grid)>, images: Seq<Grid>) -> Option<Seq<Grid>> {
        if self.offers(e, pairs) && self.succeeds(e, pairs, images) {
            Some(Seq::new(images.len(), |i: int| self.outcome(e, pairs, images[i])->0))
        } else {
            None
        }
    }
}

/// An operation of the catalogue, or one that was learnt.
pub enum Held<S, L> {
    Simple(S),
    Learnt(L),
}

/// An operation that a search has picked: one of the catalogue's fixed operations, or
/// one that was learnt for it.
pub type OperationBox<'a> = Held<&'a dyn Operation, Box<dyn Operation>>;

/// What a picked operation makes of a grid.
pub open spec fn box_outcome<'a>(b: OperationBox<'a>, g: Grid) -> Option<Grid> {
    match b {
        Held::Simple(op) => op.outcome(g),
        Held::Learnt(op) => op.outcome(g),
    }
}

impl<'a, T: Operation + ?Sized> Held<&'a T, Box<T>> {
    /// The operation that is held: the one of the catalogue, or the one in the box.
    pub open spec fn held(&self) -> &T {
        match self {
            Held::Simple(op) => *op,
            Held::Learnt(op) => &**op,
        }
    }

    /// The operation itself.
    pub fn op(&'a self) -> (r: &'a T)
        ensures
            r == self.held(),
    {
        match self {
            Held::Simple(op) => *op,
            Held::Learnt(op) => &**op,
        }
    }
}

impl<'a> Held<&'a dyn Operation, Box<dyn Operation>> {
    /// Carries the operation out on a grid.
    pub fn apply(&self, img: &Image) -> (r: Option<Image>)
        ensures
            seen(r) == box_outcome(*self, img@),
    {
        match self {
            Held::Simple(op) => op.apply(img),
            Held::Learnt(op) => op.apply(img),
        }
    }
}

/// Carries one operation out on each grid, up to the first on which it fails.
fn apply_to_all<T: Operation + ?Sized>(op: &T, images: &Vec<Image>) -> (r: Option<Vec<Image>>)
    ensures
        r is Some <==> forall|i: int|
            0 <= i < images@.len() ==> op.outcome(#[trigger] grids(images@)[i]) is Some,
        r matches Some(v) ==> v@.len() == images@.len() && forall|i: int|
            0 <= i < images@.len() ==> op.outcome(#[trigger] grids(images@)[i]) == Some(v@[i]@),
{
    let mut out: Vec<Image> = Vec::new();
    let mut i: usize = 0;
    while i < images.len()
        invariant
            0 <= i <= images.len(),
            out@.len() == i,
            forall|k: int| 0 <= k < i ==> op.outcome(#[trigger] grids(images@)[k]) == Some(out@[k]@),
        decreases images.len() - i,
    {
        match op.apply(&images[i]) {
            Some(img) => {
                out.push(img);
            },
            None => {
                proof {
                    assert(grids(images@)[i as int] == images@[i as int]@);
                }
                return None;
            },
        }
        proof {
            assert(grids(images@)[i as int] == images@[i as int]@);
        }
        i = i + 1;
    }
    Some(out)
}

/// A candidate: a picked operation with the grids that it made.
pub type Candidate<'a> = (OperationBox<'a>, Vec<Image>);

/// `cand` is what entry `e` gives: its operation, and what that makes of the grids.
pub open spec fn is_candidate<'a>(
    ops: Operations<'a>,
    pairs: Seq<(Grid, Grid)>,
    images: Seq<Grid>,
    e: int,
    cand: Candidate<'a>,
) -> bool {
    &&& 0 <= e < ops.entries()
    &&& ops.applied(e, pairs, images) == Some(grids(cand.1@))
    &&& forall|g: Grid|
        #![trigger box_outcome(cand.0, g)]
        box_outcome(cand.0, g) == ops.outcome(e, pairs, g)
}

/// `cands` are the candidates of the entries below `upto`, in the order of the entries,
/// and `idx` names the entry of each: every entry that yields an operation which
/// succeeds on every grid has one, and no other.
pub open spec fn candidates<'a>(
    ops: Operations<'a>,
    pairs: Seq<(Grid, Grid)>,
    images: Seq<Grid>,
    upto: int,
    cands: Seq<Candidate<'a>>,
    idx: Seq<int>,
) -> bool {
    &&& idx.len() == cands.len()
    &&& forall|c: int|
        0 <= c < cands.len() ==> (#[trigger] idx[c]) < upto && is_candidate(
            ops,
            pairs,
            images,
            idx[c],
            cands[c],
        )
    &&& forall|c1: int, c2: int| 0 <= c1 < c2 < idx.len() ==> #[trigger] idx[c1] < #[trigger] idx[c2]
    &&& forall|e: int|
        0 <= e < upto && (#[trigger] ops.applied(e, pairs, images)) is Some ==> idx.contains(e)
}

/// The candidates of the catalogue on the grids, with the entry of each.
pub(crate) fn gather<'a>(task: &Task, images: &Vec<Image>, operations: &Operations<'a>) -> (r: (
    Vec<Candidate<'a>>,
    Ghost<Seq<int>>,
))
    ensures
        candidates(
            *operations,
            pairs_of(grids(images@), expected(*task)),
            grids(images@),
            operations.entries(),
            r.0@,
            r.1@,
        ),
{
    let ghost shown = grids(images@);
    let ghost wanted = pairs_of(shown, expected(*task));
    let mut pairs: Vec<(&Image, &Image)> = Vec::new();
    let mut i: usize = 0;
    while i < images.len() && i < task.train.len()
        invariant
            0 <= i <= images.len(),
            i <= task.train.len(),
            pairs@.len() == i,
            forall|k: int|
                0 <= k < i ==> *(#[trigger] pairs@[k]).0 == images@[k] && *pairs@[k].1
                    == task.train@[k].output,
        decreases images.len() - i,
    {
        pairs.push((&images[i], &task.train[i].output));
        i = i + 1;
    }
    proof {
        assert(pairs_seen(pairs@) =~= wanted);
    }
    let mut out = Vec::new();
    let ghost mut idx: Seq<int> = Seq::empty();
    let count = operations.learnable.len();
    let mut l: usize = 0;
    while l < count
        invariant
            0 <= l <= count,
            count == operations.learnable@.len(),
            shown == grids(images@),
            pairs_seen(pairs@) == wanted,
            candidates(*operations, wanted, shown, l as int, out@, idx),
        decreases count - l,
    {
        let lop = operations.learnable[l];
        let ghost before = out@;
        let ghost idx_before = idx;
        match lop.learn_box(&pairs) {
            Some(op) => {
                let applied = apply_to_all(&*op, images);
                proof {
                    assert forall|g: Grid| op.outcome(g) == operations.outcome(l as int, wanted, g) by {}
                }
                match applied {
                    Some(made) => {
                        proof {
                            assert(operations.succeeds(l as int, wanted, shown));
                            assert(operations.applied(l as int, wanted, shown)->0 =~= grids(made@));
                        }
                        let held = Held::Learnt(op);
                        let cand = (held, made);
                        out.push(cand);
                        proof {
                            idx = idx.push(l as int);
                            assert(out@.drop_last() =~= before);
                        }
                    },
                    None => {
                        proof {
                            assert(!operations.succeeds(l as int, wanted, shown));
                        }
                    },
                }
            },
            None => {},
        }
        proof {
            lemma_candidates_grow(*operations, wanted, shown, l as int, before, idx_before, out@, idx);
        }
        l = l + 1;
    }
    let fixed = operations.simple.len();
    let mut s: usize = 0;
    while s < fixed
        invariant
            0 <= s <= fixed,
            fixed == operations.simple@.len(),
            count == operations.learnable@.len(),
            shown == grids(images@),
            candidates(*operations, wanted, shown, count + s, out@, idx),
        decreases fixed - s,
    {
        let op = operations.simple[s];
        let ghost before = out@;
        let ghost idx_before = idx;
        let applied = apply_to_all(op, images);
        proof {
            assert forall|g: Grid| op.outcome(g) == operations.outcome(count + s, wanted, g) by {}
        }
        match applied {
            Some(made) => {
                proof {
                    assert(operations.succeeds(count + s, wanted, shown));
                    assert(operations.applied(count + s, wanted, shown)->0 =~= grids(made@));
                }
                let held = Held::Simple(op);
                let cand = (held, made);
                out.push(cand);
                proof {
                    idx = idx.push(count + s);
                    assert(out@.drop_last() =~= before);
                }
            },
            None => {
                proof {
                    assert(!operations.succeeds(count + s, wanted, shown));
                }
            },
        }
        proof {
            lemma_candidates_grow(*operations, wanted, shown, count + s, before, idx_before, out@, idx);
        }
        s = s + 1;
    }
    (out, Ghost(idx))
}

/// The candidates of one more entry: the same where the entry gives none, and one
/// more where it gives one.
proof fn lemma_candidates_grow<'a>(
    ops: Operations<'a>,
    pairs: Seq<(Grid, Grid)>,
    images: Seq<Grid>,
    e: int,
    cands: Seq<Candidate<'a>>,
    idx: Seq<int>,
    cands2: Seq<Candidate<'a>>,
    idx2: Seq<int>,
)
    requires
        0 <= e < ops.entries(),
        candidates(ops, pairs, images, e, cands, idx),
        ops.applied(e, pairs, images) is None ==> cands2 == cands && idx2 == idx,
        ops.applied(e, pairs, images) is Some ==> cands2.len() == cands.len() + 1
            && cands2.drop_last() == cands && idx2 == idx.push(e) && is_candidate(
            ops,
            pairs,
            images,
            e,
            cands2.last(),
        ),
    ensures
        candidates(ops, pairs, images, e + 1, cands2, idx2),
{
    if ops.applied(e, pairs, images) is Some {
        assert forall|c: int| 0 <= c < cands2.len() implies (#[trigger] idx2[c]) < e + 1 && is_candidate(
            ops,
            pairs,
            images,
            idx2[c],
            cands2[c],
        ) by {
            if c < cands.len() {
                assert(idx2[c] == idx[c]);
                assert(cands2[c] == cands2.drop_last()[c]);
            }
        }
        assert forall|c1: int, c2: int| 0 <= c1 < c2 < idx2.len() implies #[trigger] idx2[c1]
            < #[trigger] idx2[c2] by {
            assert(idx2[c1] == idx[c1]);
            if c2 < idx.len() {
                assert(idx2[c2] == idx[c2]);
            }
        }
        assert forall|e2: int|
            0 <= e2 < e + 1 && (#[trigger] ops.applied(e2, pairs, images)) is Some implies idx2.contains(
            e2,
        ) by {
            if e2 == e {
                assert(idx2[idx.len() as int] == e);
            } else {
                assert(idx.contains(e2));
                let c = choose|c: int| 0 <= c < idx.len() && idx[c] == e2;
                assert(idx2[c] == e2);
            }
        }
    }
}

/// Carries out every operation of the catalogue on the grids: first those that are
/// learnt from the grids and the results that the task expects of them, then the fixed
/// ones, each kind in the catalogue's order. An entry that yields no operation, or whose
/// operation fails on one of the grids, gives no candidate.
pub fn apply_operations<'a>(task: &Task, images: &Vec<Image>, operations: &Operations<'a>) -> (r: Vec<
    Candidate<'a>,
>)
    ensures
        exists|idx: Seq<int>|
            candidates(
                *operations,
                pairs_of(grids(images@), expected(*task)),
                grids(images@),
                operations.entries(),
                r@,
                idx,
            ),
{
    let (out, idx) = gather(task, images, operations);
    out
}

} // verus!
