//! What a solver is.

use vstd::prelude::*;
use crate::types::{Grid, Task, TaskSolution};
use crate::solver::operation::grids;

verus! {

/// The values of the results that a solution holds for each test case.
pub open spec fn solution_seen(solution: TaskSolution) -> Seq<Seq<Grid>> {
    Seq::new(solution.test@.len(), |i: int| grids(solution.test@[i].output@))
}

/// The results for each test case of a task, as values.
pub type Answers = Seq<Seq<Grid>>;

/// Something that answers a task with candidate results for its test cases.
pub trait Solver {
    /// The results that the solver gives for the task: a list for each test case, as
    /// the solver counts them.
    spec fn answer(&self, task: Task) -> Answers;

    /// Solves the task.
    fn solve(&self, task: &Task) -> (r: TaskSolution)
        ensures
            solution_seen(r) == self.answer(*task),
    ;
}

} // verus!
