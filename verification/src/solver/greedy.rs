//! The greedy search: at each depth the operation that brings the grids closest to
//! the expected results is taken, and never given up again.

use vstd::prelude::*;
use crate::types::{Grid, Image, Task};
use crate::solver::operation::{
    box_outcome,
    expected,
    gather,
    grids,
    inputs,
    is_candidate,
    pairs_of,
    OperationBox,
    Operations,
};
use crate::solver::operations_solver::OperationsSolver;
use crate::solver::score::Metric;

verus! {

/// The greedy search, to a depth of `max_depth` operations at most, by `metric`.
pub struct GreedySolver<M: Metric> {
    max_depth: u32,
    metric: M,
}

impl<M: Metric> GreedySolver<M> {
    /// The greatest number of operations in a sequence that the search finds.
    pub closed spec fn depth_limit(self) -> u32 {
        self.max_depth
    }

    /// The measure by which the search scores.
    pub closed spec fn measure(self) -> M {
        self.metric
    }

    /// A search to the depth `max_depth` by `metric`.
    pub fn new(max_depth: u32, metric: M) -> (s: GreedySolver<M>)
        ensures
            s.depth_limit() == max_depth,
            s.measure() == metric,
    {
        GreedySolver { max_depth: max_depth, metric: metric }
    }

    /// The greatest number of operations in a sequence that the search finds.
    pub fn max_depth(&self) -> (d: u32)
        ensures
            d == self.depth_limit(),
    {
        self.max_depth
    }

    /// The measure by which the search scores.
    pub fn metric(&self) -> (m: &M)
        ensures
            *m == self.measure(),
    {
        &self.metric
    }
}

/// The sum of the distances of the first `n` grids from the results expected of them.
pub open spec fn total_upto<M: Metric>(metric: M, made: Seq<Grid>, wanted: Seq<Grid>, n: nat) -> int
    decreases n,
{
    if n == 0 {
        0
    } else {
        total_upto(metric, made, wanted, (n - 1) as nat) + metric.distance(made[n - 1], wanted[n - 1])
    }
}

/// The score of the grids: the sum of the distances of each from the result expected of
/// it, as far as both go.
pub open spec fn total<M: Metric>(metric: M, made: Seq<Grid>, wanted: Seq<Grid>) -> int {
    total_upto(
        metric,
        made,
        wanted,
        if made.len() <= wanted.len() {
            made.len()
        } else {
            wanted.len()
        },
    )
}

/// The score of what entry `e` makes of the grids.
pub open spec fn entry_score<'a, M: Metric>(
    ops: Operations<'a>,
    metric: M,
    wanted: Seq<Grid>,
    images: Seq<Grid>,
    e: int,
) -> int
    recommends
        ops.applied(e, pairs_of(images, wanted), images) is Some,
{
    total(metric, ops.applied(e, pairs_of(images, wanted), images)->0, wanted)
}

/// Entry `e` is the one that the search takes on these grids: it gives a candidate, no
/// candidate scores lower, and none before it scores the same.
pub open spec fn is_best<'a, M: Metric>(
    ops: Operations<'a>,
    metric: M,
    wanted: Seq<Grid>,
    images: Seq<Grid>,
    e: int,
) -> bool {
    &&& 0 <= e < ops.entries()
    &&& ops.applied(e, pairs_of(images, wanted), images) is Some
    &&& forall|e2: int|
        0 <= e2 < ops.entries() && (#[trigger] ops.applied(e2, pairs_of(images, wanted), images))
            is Some ==> entry_score(ops, metric, wanted, images, e) < entry_score(
            ops,
            metric,
            wanted,
            images,
            e2,
        ) || (entry_score(ops, metric, wanted, images, e) == entry_score(
            ops,
            metric,
            wanted,
            images,
            e2,
        ) && e <= e2)
}

/// One step of a search: the entry that was taken, and the grids that it was taken on.
pub ghost struct Pick {
    pub entry: int,
    pub images: Seq<Grid>,
}

/// What the operation of a step makes of a grid.
pub open spec fn picked<'a>(ops: Operations<'a>, wanted: Seq<Grid>, p: Pick, g: Grid) -> Option<Grid> {
    ops.outcome(p.entry, pairs_of(p.images, wanted), g)
}

/// The steps of the greedy search from `depth` on, on the grids that the steps before
/// have made: none at the depth limit or where no entry gives a candidate; else the best
/// entry, alone where it scores 0, and followed by the steps of the search on what it
/// makes of the grids where it does not.
pub open spec fn plan<'a, M: Metric>(
    ops: Operations<'a>,
    metric: M,
    wanted: Seq<Grid>,
    max_depth: int,
    depth: int,
    images: Seq<Grid>,
) -> Option<Seq<Pick>>
    decreases max_depth - depth,
{
    if depth >= max_depth {
        None
    } else if !(exists|e: int| is_best(ops, metric, wanted, images, e)) {
        None
    } else {
        let e = choose|e: int| is_best(ops, metric, wanted, images, e);
        let made = ops.applied(e, pairs_of(images, wanted), images)->0;
        let first = Pick { entry: e, images: images };
        if total(metric, made, wanted) == 0 {
            Some(seq![first])
        } else {
            match plan(ops, metric, wanted, max_depth, depth + 1, made) {
                Some(rest) => Some(seq![first] + rest),
                None => None,
            }
        }
    }
}

/// The operations are those of the steps: as many, and each makes of every grid what
/// the operation of the step in its place makes of it.
pub open spec fn carries_out<'a>(
    r: Option<Vec<OperationBox<'a>>>,
    steps: Option<Seq<Pick>>,
    ops: Operations<'a>,
    wanted: Seq<Grid>,
) -> bool {
    match steps {
        Some(picks) => r matches Some(v) && v@.len() == picks.len() && forall|k: int, g: Grid|
            0 <= k < picks.len() ==> #[trigger] box_outcome(v@[k], g) == picked(ops, wanted, picks[k], g),
        None => r is None,
    }
}

/// There is one best entry at most.
pub proof fn lemma_best_is_one<'a, M: Metric>(
    ops: Operations<'a>,
    metric: M,
    wanted: Seq<Grid>,
    images: Seq<Grid>,
    e1: int,
    e2: int,
)
    requires
        is_best(ops, metric, wanted, images, e1),
        is_best(ops, metric, wanted, images, e2),
    ensures
        e1 == e2,
{
}

/// The score of the grids against the results that the task expects.
fn score_of<M: Metric>(metric: &M, made: &Vec<Image>, task: &Task) -> (s: u128)
    ensures
        s == total(*metric, grids(made@), expected(*task)),
{
    let mut s: u128 = 0;
    let mut i: usize = 0;
    while i < made.len() && i < task.train.len()
        invariant
            0 <= i <= made.len(),
            i <= task.train.len(),
            s == total_upto(*metric, grids(made@), expected(*task), i as nat),
            s <= i * 0xffff_ffff,
        decreases made.len() - i,
    {
        let d = metric.score(&made[i], &task.train[i].output);
        s = s + (d as u128);
        i = i + 1;
    }
    s
}

/// The place of the least score, the first of them where several are least.
fn first_least(scores: &Vec<u128>) -> (b: usize)
    requires
        scores@.len() > 0,
    ensures
        b < scores@.len(),
        forall|k: int| 0 <= k < scores@.len() ==> scores@[b as int] <= #[trigger] scores@[k],
        forall|k: int| 0 <= k < b ==> scores@[b as int] < #[trigger] scores@[k],
{
    let mut b: usize = 0;
    let mut i: usize = 1;
    while i < scores.len()
        invariant
            1 <= i <= scores.len(),
            b < i,
            forall|k: int| 0 <= k < i ==> scores@[b as int] <= #[trigger] scores@[k],
            forall|k: int| 0 <= k < b ==> scores@[b as int] < #[trigger] scores@[k],
        decreases scores.len() - i,
    {
        if scores[i] < scores[b] {
            b = i;
        }
        i = i + 1;
    }
    b
}

/// One depth of the search and those below it.
fn solve_step<'a, M: Metric>(
    solver: &GreedySolver<M>,
    operations: &Operations<'a>,
    task: &Task,
    depth: u32,
    current: Vec<Image>,
) -> (r: Option<Vec<OperationBox<'a>>>)
    ensures
        carries_out(
            r,
            plan(
                *operations,
                solver.measure(),
                expected(*task),
                solver.depth_limit() as int,
                depth as int,
                grids(current@),
            ),
            *operations,
            expected(*task),
        ),
    decreases solver.depth_limit() - depth,
{
    if depth >= solver.max_depth() {
        return None;
    }
    let ghost ops = *operations;
    let ghost metric = solver.measure();
    let ghost wanted = expected(*task);
    let ghost images = grids(current@);
    let ghost pairs = pairs_of(images, wanted);
    let (mut cands, Ghost(idx)) = gather(task, &current, operations);
    if cands.len() == 0 {
        proof {
            assert forall|e: int| !is_best(ops, metric, wanted, images, e) by {
                if is_best(ops, metric, wanted, images, e) {
                    assert(idx.contains(e));
                }
            }
        }
        return None;
    }
    let mut scores: Vec<u128> = Vec::new();
    let mut c: usize = 0;
    while c < cands.len()
        invariant
            0 <= c <= cands.len(),
            scores@.len() == c,
            wanted == expected(*task),
            metric == solver.measure(),
            forall|k: int|
                0 <= k < c ==> #[trigger] scores@[k] == total(metric, grids(cands@[k].1@), wanted),
        decreases cands.len() - c,
    {
        let s = score_of(solver.metric(), &cands[c].1, task);
        scores.push(s);
        c = c + 1;
    }
    let b = first_least(&scores);
    let next_score = scores[b];
    let ghost best = idx[b as int];
    let ghost all = cands@;
    proof {
        assert(is_candidate(ops, pairs, images, idx[b as int], all[b as int]));
        assert forall|e2: int|
            0 <= e2 < ops.entries() && (#[trigger] ops.applied(e2, pairs, images)) is Some implies entry_score(
            ops,
            metric,
            wanted,
            images,
            best,
        ) < entry_score(ops, metric, wanted, images, e2) || (entry_score(
            ops,
            metric,
            wanted,
            images,
            best,
        ) == entry_score(ops, metric, wanted, images, e2) && best <= e2) by {
            assert(idx.contains(e2));
            let c2 = choose|c2: int| 0 <= c2 < idx.len() && idx[c2] == e2;
            assert(is_candidate(ops, pairs, images, idx[c2], all[c2]));
            assert(scores@[c2] == total(metric, grids(all[c2].1@), wanted));
            assert(scores@[b as int] <= scores@[c2]);
            if c2 < b {
                assert(scores@[b as int] < scores@[c2]);
            }
        }
        assert(is_best(ops, metric, wanted, images, best));
        let e = choose|e: int| is_best(ops, metric, wanted, images, e);
        lemma_best_is_one(ops, metric, wanted, images, e, best);
    }
    let chosen = cands.remove(b);
    let (next_op, next_result) = chosen;
    if next_score == 0 {
        let mut sequence = Vec::new();
        sequence.push(next_op);
        Some(sequence)
    } else {
        let rest = solve_step(solver, operations, task, depth + 1, next_result);
        match rest {
            Some(mut next) => {
                let ghost tail = next@;
                next.insert(0, next_op);
                proof {
                    let steps = plan(ops, metric, wanted, solver.depth_limit() as int, depth as int, images)->0;
                    let below = plan(
                        ops,
                        metric,
                        wanted,
                        solver.depth_limit() as int,
                        depth + 1,
                        grids(next_result@),
                    )->0;
                    assert(steps =~= seq![Pick { entry: best, images: images }] + below);
                    assert forall|k: int, g: Grid| 0 <= k < steps.len() implies #[trigger] box_outcome(
                        next@[k],
                        g,
                    ) == picked(ops, wanted, steps[k], g) by {
                        if k > 0 {
                            assert(next@[k] == tail[k - 1]);
                            assert(steps[k] == below[k - 1]);
                            assert(box_outcome(tail[k - 1], g) == picked(ops, wanted, below[k - 1], g));
                        }
                    }
                }
                Some(next)
            },
            None => None,
        }
    }
}

impl<M: Metric> OperationsSolver for GreedySolver<M> {
    open spec fn found<'a>(&self, operations: Operations<'a>, task: Task) -> Option<
        Seq<spec_fn(Grid) -> Option<Grid>>,
    > {
        match plan(
            operations,
            self.measure(),
            expected(task),
            self.depth_limit() as int,
            0,
            inputs(task),
        ) {
            Some(picks) => Some(
                Seq::new(
                    picks.len(),
                    |k: int| |g: Grid| picked(operations, expected(task), picks[k], g),
                ),
            ),
            None => None,
        }
    }

    fn solve_operations<'a>(&self, operations: &Operations<'a>, task: &Task) -> (r: Option<
        Vec<OperationBox<'a>>,
    >) {
        let mut input: Vec<Image> = Vec::new();
        let mut i: usize = 0;
        while i < task.train.len()
            invariant
                0 <= i <= task.train.len(),
                input@.len() == i,
                forall|k: int| 0 <= k < i ==> (#[trigger] input@[k])@ == task.train@[k].input@,
            decreases task.train.len() - i,
        {
            input.push(task.train[i].input.clone());
            i = i + 1;
        }
        proof {
            assert(grids(input@) =~= inputs(*task));
        }
        solve_step(self, operations, task, 0, input)
    }
}

/// A score is never below 0.
pub proof fn lemma_total_is_natural<M: Metric>(metric: M, made: Seq<Grid>, wanted: Seq<Grid>, n: nat)
    ensures
        total_upto(metric, made, wanted, n) >= 0,
    decreases n,
{
    if n > 0 {
        lemma_total_is_natural(metric, made, wanted, (n - 1) as nat);
    }
}

/// Grids that are the results expected of them score 0.
pub proof fn lemma_same_scores_nothing<M: Metric>(metric: M, made: Seq<Grid>, n: nat)
    requires
        n <= made.len(),
    ensures
        total_upto(metric, made, made, n) == 0,
    decreases n,
{
    if n > 0 {
        lemma_same_scores_nothing(metric, made, (n - 1) as nat);
        metric.zero_is_same(made[n - 1], made[n - 1]);
    }
}

/// Entry `e` is the best of the entries below `n`.
pub open spec fn is_best_below<'a, M: Metric>(
    ops: Operations<'a>,
    metric: M,
    wanted: Seq<Grid>,
    images: Seq<Grid>,
    n: int,
    e: int,
) -> bool {
    &&& 0 <= e < n
    &&& ops.applied(e, pairs_of(images, wanted), images) is Some
    &&& forall|e2: int|
        0 <= e2 < n && (#[trigger] ops.applied(e2, pairs_of(images, wanted), images)) is Some
            ==> entry_score(ops, metric, wanted, images, e) < entry_score(
            ops,
            metric,
            wanted,
            images,
            e2,
        ) || (entry_score(ops, metric, wanted, images, e) == entry_score(
            ops,
            metric,
            wanted,
            images,
            e2,
        ) && e <= e2)
}

/// Where an entry below `n` gives a candidate, one of them is the best.
pub proof fn lemma_best_below<'a, M: Metric>(
    ops: Operations<'a>,
    metric: M,
    wanted: Seq<Grid>,
    images: Seq<Grid>,
    n: int,
    some: int,
) -> (e: int)
    requires
        0 <= some < n,
        ops.applied(some, pairs_of(images, wanted), images) is Some,
    ensures
        is_best_below(ops, metric, wanted, images, n, e),
    decreases n,
{
    let last = n - 1;
    let pairs = pairs_of(images, wanted);
    if some == last {
        if exists|e0: int| 0 <= e0 < last && ops.applied(e0, pairs, images) is Some {
            let e0 = choose|e0: int| 0 <= e0 < last && ops.applied(e0, pairs, images) is Some;
            let before = lemma_best_below(ops, metric, wanted, images, last, e0);
            if entry_score(ops, metric, wanted, images, last) < entry_score(
                ops,
                metric,
                wanted,
                images,
                before,
            ) {
                last
            } else {
                before
            }
        } else {
            last
        }
    } else {
        let before = lemma_best_below(ops, metric, wanted, images, last, some);
        if ops.applied(last, pairs, images) is Some && entry_score(ops, metric, wanted, images, last)
            < entry_score(ops, metric, wanted, images, before) {
            last
        } else {
            before
        }
    }
}

/// Where the results expected of the training inputs are the inputs themselves, and
/// one of the catalogue's fixed operations gives each of them back as it is, a search of
/// a depth of 1 or more finds a sequence of one operation, and that scores 0.
pub proof fn lemma_identity_solves<'a, M: Metric>(
    ops: Operations<'a>,
    metric: M,
    task: Task,
    max_depth: int,
    s: int,
)
    requires
        max_depth >= 1,
        expected(task) == inputs(task),
        0 <= s < ops.simple@.len(),
        forall|i: int|
            0 <= i < inputs(task).len() ==> ops.simple@[s].outcome(#[trigger] inputs(task)[i]) == Some(
                inputs(task)[i],
            ),
    ensures
        plan(ops, metric, expected(task), max_depth, 0, inputs(task)) matches Some(picks)
            && picks.len() == 1 && entry_score(
            ops,
            metric,
            expected(task),
            inputs(task),
            picks[0].entry,
        ) == 0,
{
    let images = inputs(task);
    let wanted = expected(task);
    let pairs = pairs_of(images, wanted);
    let id = ops.learnable@.len() + s;
    assert(ops.succeeds(id, pairs, images));
    assert(ops.applied(id, pairs, images)->0 =~= images);
    lemma_same_scores_nothing(metric, images, images.len());
    assert(entry_score(ops, metric, wanted, images, id) == 0);
    let e = lemma_best_below(ops, metric, wanted, images, ops.entries(), id);
    assert(is_best(ops, metric, wanted, images, e));
    let chosen = choose|e: int| is_best(ops, metric, wanted, images, e);
    lemma_best_is_one(ops, metric, wanted, images, chosen, e);
    let made = ops.applied(e, pairs, images)->0;
    lemma_total_is_natural(
        metric,
        made,
        wanted,
        if made.len() <= wanted.len() {
            made.len()
        } else {
            wanted.len()
        },
    );
    assert(entry_score(ops, metric, wanted, images, e) <= entry_score(ops, metric, wanted, images, id));
}

/// What the operation of a step makes of the grids that the step was taken on.
pub open spec fn made_by<'a>(ops: Operations<'a>, wanted: Seq<Grid>, p: Pick) -> Seq<Grid>
    recommends
        ops.applied(p.entry, pairs_of(p.images, wanted), p.images) is Some,
{
    ops.applied(p.entry, pairs_of(p.images, wanted), p.images)->0
}

/// The steps lead from `images` to grids that score 0: the first is taken on `images`,
/// each operation succeeds on the grids that its step was taken on, each further step
/// is taken on what the step before it made, and what the last makes scores 0.
pub open spec fn solves<'a, M: Metric>(
    ops: Operations<'a>,
    metric: M,
    wanted: Seq<Grid>,
    images: Seq<Grid>,
    picks: Seq<Pick>,
) -> bool {
    &&& picks.len() >= 1
    &&& picks[0].images == images
    &&& forall|k: int|
        0 <= k < picks.len() ==> ops.applied(
            (#[trigger] picks[k]).entry,
            pairs_of(picks[k].images, wanted),
            picks[k].images,
        ) is Some
    &&& forall|k: int|
        0 <= k < picks.len() - 1 ==> (#[trigger] picks[k + 1]).images == made_by(ops, wanted, picks[k])
    &&& total(metric, made_by(ops, wanted, picks.last()), wanted) == 0
}

/// The steps that the search finds are no more than the depth allows, and lead from
/// the grids that it starts on to grids that score 0.
pub proof fn lemma_plan_solves<'a, M: Metric>(
    ops: Operations<'a>,
    metric: M,
    wanted: Seq<Grid>,
    max_depth: int,
    depth: int,
    images: Seq<Grid>,
)
    requires
        plan(ops, metric, wanted, max_depth, depth, images) is Some,
    ensures
        plan(ops, metric, wanted, max_depth, depth, images)->0.len() <= max_depth - depth,
        solves(ops, metric, wanted, images, plan(ops, metric, wanted, max_depth, depth, images)->0),
    decreases max_depth - depth,
{
    let picks = plan(ops, metric, wanted, max_depth, depth, images)->0;
    let e = choose|e: int| is_best(ops, metric, wanted, images, e);
    let made = ops.applied(e, pairs_of(images, wanted), images)->0;
    let first = Pick { entry: e, images: images };
    if total(metric, made, wanted) == 0 {
        assert(picks =~= seq![first]);
    } else {
        let rest = plan(ops, metric, wanted, max_depth, depth + 1, made)->0;
        lemma_plan_solves(ops, metric, wanted, max_depth, depth + 1, made);
        assert(picks =~= seq![first] + rest);
        assert forall|k: int| 0 <= k < picks.len() implies ops.applied(
            (#[trigger] picks[k]).entry,
            pairs_of(picks[k].images, wanted),
            picks[k].images,
        ) is Some by {
            if k > 0 {
                assert(picks[k] == rest[k - 1]);
            }
        }
        assert forall|k: int| 0 <= k < picks.len() - 1 implies (#[trigger] picks[k + 1]).images
            == made_by(ops, wanted, picks[k]) by {
            assert(picks[k + 1] == rest[k]);
            if k > 0 {
                assert(picks[k] == rest[k - 1]);
                assert(rest[k - 1 + 1].images == made_by(ops, wanted, rest[k - 1]));
            } else {
                assert(picks[0] == first);
                assert(rest[0].images == made);
            }
        }
        assert(picks.last() == rest.last());
    }
}

/// Grids that score 0 are the results expected of them, as far as both go.
pub proof fn lemma_nothing_scored_is_same<M: Metric>(metric: M, made: Seq<Grid>, wanted: Seq<Grid>, n: nat)
    requires
        n <= made.len(),
        n <= wanted.len(),
        total_upto(metric, made, wanted, n) == 0,
    ensures
        forall|i: int| 0 <= i < n ==> made[i] == wanted[i],
    decreases n,
{
    if n > 0 {
        lemma_total_is_natural(metric, made, wanted, (n - 1) as nat);
        lemma_nothing_scored_is_same(metric, made, wanted, (n - 1) as nat);
        metric.zero_is_same(made[n - 1], wanted[n - 1]);
    }
}

} // verus!
