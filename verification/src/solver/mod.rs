//! The search for a sequence of operations that solves a task.

pub mod greedy;
pub mod operation;
pub mod operations_solver;
pub mod score;
pub mod stub;
pub mod types;

use vstd::prelude::*;
use crate::types::{Task, TaskSolution};
use crate::solver::types::{solution_seen, Solver};

verus! {

/// Why a batch of tasks gave no solutions.
#[derive(Clone, Copy, Debug, PartialEq, Eq, Structural)]
pub enum SolveError {
    /// A solver answered a task with another number of results than the task has test
    /// cases.
    SolutionSize,
}

impl SolveError {
    /// What went wrong, in words.
    pub fn message(&self) -> (text: String)
        ensures
            text@ == "Solution array size is not equal to test array size"@,
    {
        "Solution array size is not equal to test array size".to_owned()
    }
}

/// Every task of the batch gets from `solver` as many results as it has test cases.
pub open spec fn all_answered<S: Solver>(all_tasks: Seq<(String, Task)>, solver: S) -> bool {
    forall|i: int|
        0 <= i < all_tasks.len() ==> solver.answer((#[trigger] all_tasks[i]).1).len()
            == all_tasks[i].1.test@.len()
}

/// Solves each task of the batch with `solver`, under the task's name and in the order
/// of the batch. A solution with another number of results than the task has test cases
/// fails the batch.
pub fn solve<S: Solver>(all_tasks: &Vec<(String, Task)>, solver: &S) -> (r: Result<
    Vec<(String, TaskSolution)>,
    SolveError,
>)
    ensures
        r is Ok <==> all_answered(all_tasks@, *solver),
        r matches Ok(v) ==> v@.len() == all_tasks@.len() && forall|i: int|
            0 <= i < v@.len() ==> (#[trigger] v@[i]).0@ == all_tasks@[i].0@ && solution_seen(v@[i].1)
                == solver.answer(all_tasks@[i].1),
{
    let mut out: Vec<(String, TaskSolution)> = Vec::new();
    let mut i: usize = 0;
    while i < all_tasks.len()
        invariant
            0 <= i <= all_tasks.len(),
            out@.len() == i,
            forall|k: int|
                0 <= k < i ==> solver.answer((#[trigger] all_tasks@[k]).1).len()
                    == all_tasks@[k].1.test@.len(),
            forall|k: int|
                0 <= k < i ==> (#[trigger] out@[k]).0@ == all_tasks@[k].0@ && solution_seen(out@[k].1)
                    == solver.answer(all_tasks@[k].1),
        decreases all_tasks.len() - i,
    {
        let solution = solver.solve(&all_tasks[i].1);
        if solution.test.len() != all_tasks[i].1.test.len() {
            return Err(SolveError::SolutionSize);
        }
        out.push((all_tasks[i].0.clone(), solution));
        i = i + 1;
    }
    Ok(out)
}

} // verus!
