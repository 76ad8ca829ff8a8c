//! Solving a task by a sequence of operations.

use vstd::prelude::*;
use crate::types::{Grid, Image, Task, TaskSolution, TaskTestSolution};
use crate::solver::operation::{box_outcome, grids, OperationBox, Operations};
use crate::solver::types::{solution_seen, Solver};

verus! {

/// What a grid becomes under a sequence of operations, each given by what it makes of
/// a grid: `None` from the first that fails.
pub open spec fn replayed(steps: Seq<spec_fn(Grid) -> Option<Grid>>, g: Grid) -> Option<Grid>
    decreases steps.len(),
{
    if steps.len() == 0 {
        Some(g)
    } else {
        match replayed(steps.drop_last(), g) {
            Some(m) => (steps.last())(m),
            None => None,
        }
    }
}

/// The operations are those that were found: as many, and each makes of every grid
/// what the one found in its place makes of it.
pub open spec fn performs<'a>(
    r: Option<Vec<OperationBox<'a>>>,
    found: Option<Seq<spec_fn(Grid) -> Option<Grid>>>,
) -> bool {
    match found {
        Some(steps) => r matches Some(v) && v@.len() == steps.len() && forall|k: int, g: Grid|
            0 <= k < steps.len() ==> #[trigger] box_outcome(v@[k], g) == (steps[k])(g),
        None => r is None,
    }
}

/// A search for a sequence of operations of a catalogue that turns the training inputs
/// of a task into the results expected of them.
pub trait OperationsSolver {
    /// The sequence that the search finds, each operation given by what it makes of a
    /// grid; `None` where it finds none.
    spec fn found<'a>(&self, operations: Operations<'a>, task: Task) -> Option<
        Seq<spec_fn(Grid) -> Option<Grid>>,
    >;

    /// Searches.
    fn solve_operations<'a>(&self, operations: &Operations<'a>, task: &Task) -> (r: Option<
        Vec<OperationBox<'a>>,
    >)
        ensures
            performs(r, self.found(*operations, *task)),
    ;
}

/// The solver that searches a catalogue with an [`OperationsSolver`] and carries the
/// sequence found out on each test grid.
pub struct OpSolver<'a, S: OperationsSolver>(pub Operations<'a>, pub S);

/// What a sequence of operations that was found, or none, gives for the test cases of a
/// task: for each, the one grid that the sequence makes of the test grid, or nothing
/// where an operation fails on the way or no sequence was found.
pub open spec fn carried_out(found: Option<Seq<spec_fn(Grid) -> Option<Grid>>>, task: Task) -> Seq<
    Seq<Grid>,
> {
    Seq::new(
        task.test@.len(),
        |i: int|
            match found {
                Some(steps) => match replayed(steps, task.test@[i].input@) {
                    Some(g) => seq![g],
                    None => Seq::<Grid>::empty(),
                },
                None => Seq::<Grid>::empty(),
            },
    )
}

/// Carries the operations out on the grid, one after the other, up to the first that
/// fails.
fn replay<'a>(ops: &Vec<OperationBox<'a>>, input: &Image, Ghost(steps): Ghost<
    Seq<spec_fn(Grid) -> Option<Grid>>,
>) -> (r: Option<Image>)
    requires
        ops@.len() == steps.len(),
        forall|k: int, g: Grid|
            0 <= k < steps.len() ==> #[trigger] box_outcome(ops@[k], g) == (steps[k])(g),
    ensures
        crate::solver::operation::types::seen(r) == replayed(steps, input@),
{
    let mut img = input.clone();
    let mut k: usize = 0;
    proof {
        assert(steps.take(0).len() == 0);
    }
    while k < ops.len()
        invariant
            0 <= k <= ops.len(),
            ops@.len() == steps.len(),
            forall|j: int, g: Grid|
                0 <= j < steps.len() ==> #[trigger] box_outcome(ops@[j], g) == (steps[j])(g),
            replayed(steps.take(k as int), input@) == Some(img@),
        decreases ops.len() - k,
    {
        let next = ops[k].apply(&img);
        proof {
            let more = steps.take(k + 1);
            assert(more.drop_last() =~= steps.take(k as int));
            assert(more.last() == steps[k as int]);
            assert(box_outcome(ops@[k as int], img@) == (steps[k as int])(img@));
        }
        match next {
            Some(made) => {
                img = made;
            },
            None => {
                proof {
                    lemma_replay_stops(steps, k + 1, input@);
                }
                return None;
            },
        }
        k = k + 1;
    }
    proof {
        assert(steps.take(k as int) =~= steps);
    }
    Some(img)
}

/// Once an operation has failed, the operations after it change nothing.
proof fn lemma_replay_stops(steps: Seq<spec_fn(Grid) -> Option<Grid>>, n: int, g: Grid)
    requires
        0 <= n <= steps.len(),
        replayed(steps.take(n), g) is None,
    ensures
        replayed(steps, g) is None,
    decreases steps.len() - n,
{
    if n < steps.len() {
        let more = steps.take(n + 1);
        assert(more.drop_last() =~= steps.take(n));
        lemma_replay_stops(steps, n + 1, g);
    } else {
        assert(steps.take(n) =~= steps);
    }
}

impl<'a, S: OperationsSolver> Solver for OpSolver<'a, S> {
    open spec fn answer(&self, task: Task) -> Seq<Seq<Grid>> {
        carried_out(self.1.found(self.0, task), task)
    }

    fn solve(&self, task: &Task) -> (r: TaskSolution) {
        let ghost found = self.1.found(self.0, *task);
        let ops = self.1.solve_operations(&self.0, task);
        let mut test: Vec<TaskTestSolution> = Vec::new();
        let mut i: usize = 0;
        while i < task.test.len()
            invariant
                0 <= i <= task.test.len(),
                test@.len() == i,
                performs(ops, found),
                forall|k: int|
                    0 <= k < i ==> grids((#[trigger] test@[k]).output@) == carried_out(found, *task)[k],
            decreases task.test.len() - i,
        {
            let mut output: Vec<Image> = Vec::new();
            match &ops {
                Some(sequence) => {
                    match replay(sequence, &task.test[i].input, Ghost(found->0)) {
                        Some(solution) => {
                            output.push(solution);
                            proof {
                                assert(grids(output@) =~= seq![solution@]);
                            }
                        },
                        None => {
                            proof {
                                assert(grids(output@) =~= Seq::<Grid>::empty());
                            }
                        },
                    }
                },
                None => {
                    proof {
                        assert(grids(output@) =~= Seq::<Grid>::empty());
                    }
                },
            }
            test.push(TaskTestSolution { output });
            i = i + 1;
        }
        let r = TaskSolution { test };
        proof {
            assert(solution_seen(r) =~= carried_out(found, *task));
        }
        r
    }
}

} // verus!
