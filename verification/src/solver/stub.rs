//! A solver that searches nothing.

use vstd::prelude::*;
use crate::types::{Grid, Image, Task, TaskSolution, TaskTestSolution};
use crate::solver::operation::grids;
use crate::solver::types::{solution_seen, Solver};

verus! {

/// The solver that answers each test case with the results that the task already
/// holds for it, or with the test grid itself where it holds none.
pub struct StubSolver(());

impl StubSolver {
    /// The solver.
    pub fn new() -> (s: StubSolver)
        ensures
            forall|task: Task| #[trigger] s.answer(task) == echo(task),
    {
        StubSolver(())
    }
}

/// For each test case the results that the task holds for it, or the test grid itself
/// where it holds none.
pub open spec fn echo(task: Task) -> Seq<Seq<Grid>> {
    Seq::new(
        task.test@.len(),
        |i: int|
            if task.test@[i].output@.len() > 0 {
                grids(task.test@[i].output@)
            } else {
                seq![task.test@[i].input@]
            },
    )
}

/// A copy of each grid.
fn copy_images(images: &Vec<Image>) -> (r: Vec<Image>)
    ensures
        grids(r@) == grids(images@),
{
    let mut out: Vec<Image> = Vec::new();
    let mut i: usize = 0;
    while i < images.len()
        invariant
            0 <= i <= images.len(),
            out@.len() == i,
            forall|k: int| 0 <= k < i ==> (#[trigger] out@[k])@ == images@[k]@,
        decreases images.len() - i,
    {
        out.push(images[i].clone());
        i = i + 1;
    }
    proof {
        assert(grids(out@) =~= grids(images@));
    }
    out
}

impl Solver for StubSolver {
    open spec fn answer(&self, task: Task) -> Seq<Seq<Grid>> {
        echo(task)
    }

    fn solve(&self, task: &Task) -> (r: TaskSolution) {
        let mut solutions: Vec<TaskTestSolution> = Vec::new();
        let mut i: usize = 0;
        while i < task.test.len()
            invariant
                0 <= i <= task.test.len(),
                solutions@.len() == i,
                forall|k: int|
                    0 <= k < i ==> grids((#[trigger] solutions@[k]).output@) == echo(*task)[k],
            decreases task.test.len() - i,
        {
            let test = &task.test[i];
            if test.output.len() > 0 {
                solutions.push(TaskTestSolution { output: copy_images(&test.output) });
            } else {
                let mut one: Vec<Image> = Vec::new();
                one.push(test.input.clone());
                proof {
                    assert(grids(one@) =~= seq![test.input@]);
                }
                solutions.push(TaskTestSolution { output: one });
            }
            i = i + 1;
        }
        let r = TaskSolution { test: solutions };
        proof {
            assert(solution_seen(r) =~= echo(*task));
        }
        r
    }
}

} // verus!
