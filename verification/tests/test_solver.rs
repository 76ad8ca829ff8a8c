use arc2020::io::deserialize_image;
use arc2020::solver::greedy::GreedySolver;
use arc2020::solver::operation::geometry::Transpose;
use arc2020::solver::operation::noop::{LearnableNoop, Noop};
use arc2020::solver::operation::types::{LearnableOperation, NamedOperation, Operation};
use arc2020::solver::operation::{
    apply_operations, GridPairs, LearnableOperationBox, OperationBox, Operations,
};
use arc2020::solver::operations_solver::{OpSolver, OperationsSolver};
use arc2020::solver::score::{Metric, StubMetric};
use arc2020::solver::stub::StubSolver;
use arc2020::solver::types::{Answers, Solver};
use arc2020::solver::{solve, SolveError};
use arc2020::types::{Grid, Image, Task, TaskSolution, TaskTest, TaskTestSolution, TaskTrain};

fn image(rows: Vec<Vec<u8>>) -> Image {
    deserialize_image(&rows).unwrap()
}

fn rows_of(img: &Image) -> Vec<Vec<u8>> {
    let mut rows = Vec::new();
    for x in 0..img.nrows() {
        let mut row = Vec::new();
        for y in 0..img.ncols() {
            row.push(img.get(x, y).unwrap());
        }
        rows.push(row);
    }
    rows
}

fn pair(input: Vec<Vec<u8>>, output: Vec<Vec<u8>>) -> TaskTrain {
    TaskTrain { input: image(input), output: image(output) }
}

fn case(input: Vec<Vec<u8>>) -> TaskTest {
    TaskTest { input: image(input), output: Vec::new() }
}

/// Replaces the one cell of a grid by the table; gives the grid back where the table
/// does not hold its color.
struct Table(Vec<(u8, u8)>);

impl Operation for Table {
    fn outcome(&self, _: Grid) -> Option<Grid> {
        unreachable!()
    }

    fn apply(&self, img: &Image) -> Option<Image> {
        let c = img.get(0, 0)?;
        for (from, to) in &self.0 {
            if *from == c {
                return Some(image(vec![vec![*to]]));
            }
        }
        Some(img.clone())
    }
}

/// Gives a grid back where its first cell is 1, and fails on every other grid.
struct OnlyOnes;

impl Operation for OnlyOnes {
    fn outcome(&self, _: Grid) -> Option<Grid> {
        unreachable!()
    }

    fn apply(&self, img: &Image) -> Option<Image> {
        if img.get(0, 0) == Some(1) {
            Some(img.clone())
        } else {
            None
        }
    }
}

/// Learns the table that takes the first cell of each input to that of its result;
/// learns nothing where two pairs disagree.
struct LearnTable;

impl LearnableOperationBox for LearnTable {
    fn learns(&self, _: GridPairs) -> bool {
        unreachable!()
    }

    fn learnt(&self, _: GridPairs, _: Grid) -> Option<Grid> {
        unreachable!()
    }

    fn learn_box(&self, pairs: &Vec<(&Image, &Image)>) -> Option<Box<dyn Operation>> {
        let mut table: Vec<(u8, u8)> = Vec::new();
        for (input, output) in pairs {
            let from = input.get(0, 0)?;
            let to = output.get(0, 0)?;
            for (f, t) in &table {
                if *f == from && *t != to {
                    return None;
                }
            }
            table.push((from, to));
        }
        Some(Box::new(Table(table)))
    }
}

/// Answers every task with no result for any test case, and one list too many.
struct OneTooMany;

impl Solver for OneTooMany {
    fn answer(&self, _: Task) -> Answers {
        unreachable!()
    }

    fn solve(&self, task: &Task) -> TaskSolution {
        let mut test = Vec::new();
        for _ in 0..task.test.len() + 1 {
            test.push(TaskTestSolution { output: Vec::new() });
        }
        TaskSolution { test }
    }
}

#[test]
fn names_are_what_debug_gives() {
    assert_eq!(Noop::new().name(), "Noop(())");
    assert_eq!(Transpose::new().name(), "Transpose(())");
}

#[test]
fn noop_gives_the_grid_back() {
    let img = image(vec![vec![1, 2, 3], vec![4, 5, 6]]);
    let out = Noop::new().apply(&img).unwrap();
    assert_eq!(rows_of(&out), vec![vec![1, 2, 3], vec![4, 5, 6]]);
}

#[test]
fn transpose_exchanges_the_axes() {
    let img = image(vec![vec![1, 2, 3], vec![4, 5, 6]]);
    let out = Transpose::new().apply(&img).unwrap();
    assert_eq!(out.nrows(), 3);
    assert_eq!(out.ncols(), 2);
    assert_eq!(rows_of(&out), vec![vec![1, 4], vec![2, 5], vec![3, 6]]);
}

#[test]
fn transpose_of_a_grid_without_cells() {
    let img = image(vec![vec![], vec![]]);
    let out = Transpose::new().apply(&img).unwrap();
    assert_eq!(out.nrows(), 0);
    assert_eq!(out.ncols(), 2);
}

#[test]
fn learnable_noop_learns_noop() {
    let a = image(vec![vec![1]]);
    let b = image(vec![vec![2]]);
    let pairs = vec![(&a, &b)];
    let learner = LearnableNoop::new();
    let op = learner.learn(&pairs).unwrap();
    assert_eq!(rows_of(&op.apply(&b).unwrap()), vec![vec![2]]);
    let boxed = learner.learn_box(&pairs).unwrap();
    assert_eq!(rows_of(&boxed.apply(&a).unwrap()), vec![vec![1]]);
    assert!(learner.learn(&Vec::new()).is_some());
}

#[test]
fn stub_metric_is_zero_for_the_same_grid_only() {
    let metric = StubMetric::new();
    let a = image(vec![vec![1, 2], vec![3, 4]]);
    assert_eq!(metric.score(&a, &a.clone()), 0);
    assert_eq!(metric.score(&a, &image(vec![vec![1, 2], vec![3, 4]])), 0);
    assert_eq!(metric.score(&a, &image(vec![vec![1, 2], vec![3, 5]])), 1);
    assert_eq!(metric.score(&a, &image(vec![vec![1, 2, 0], vec![3, 4, 0]])), 1);
    assert_eq!(metric.score(&a, &image(vec![vec![1, 2]])), 1);
    assert_eq!(
        metric.score(&image(vec![vec![], vec![]]), &image(vec![vec![]])),
        1
    );
}

#[test]
fn candidates_come_learnt_first_and_in_the_order_of_the_catalogue() {
    let transpose = Transpose::new();
    let noop = Noop::new();
    let learner = LearnableNoop::new();
    let ops = Operations { simple: vec![&transpose, &noop], learnable: vec![&learner] };
    let task = Task { train: vec![pair(vec![vec![1, 2]], vec![vec![1], vec![2]])], test: vec![] };
    let images = vec![image(vec![vec![1, 2]])];
    let cands = apply_operations(&task, &images, &ops);
    assert_eq!(cands.len(), 3);
    assert!(matches!(cands[0].0, OperationBox::Learnt(_)));
    assert_eq!(rows_of(&cands[0].1[0]), vec![vec![1, 2]]);
    assert!(matches!(cands[1].0, OperationBox::Simple(_)));
    assert_eq!(rows_of(&cands[1].1[0]), vec![vec![1], vec![2]]);
    assert!(matches!(cands[2].0, OperationBox::Simple(_)));
    assert_eq!(rows_of(&cands[2].1[0]), vec![vec![1, 2]]);
}

#[test]
fn an_operation_that_fails_on_a_grid_is_no_candidate() {
    let only = OnlyOnes;
    let noop = Noop::new();
    let learner = LearnTable;
    let ops = Operations { simple: vec![&only, &noop], learnable: vec![&learner] };
    let task = Task {
        train: vec![pair(vec![vec![1]], vec![vec![5]]), pair(vec![vec![1]], vec![vec![6]])],
        test: vec![],
    };
    let images = vec![image(vec![vec![1]]), image(vec![vec![2]])];
    let cands = apply_operations(&task, &images, &ops);
    // the learner sees (1, 5) and (2, 6), and the first operation fails on the second grid
    assert_eq!(cands.len(), 2);
    assert!(matches!(cands[0].0, OperationBox::Learnt(_)));
    assert_eq!(rows_of(&cands[0].1[0]), vec![vec![5]]);
    assert_eq!(rows_of(&cands[0].1[1]), vec![vec![6]]);
    assert!(matches!(cands[1].0, OperationBox::Simple(_)));

    let images = vec![image(vec![vec![1]]), image(vec![vec![1]])];
    let cands = apply_operations(&task, &images, &ops);
    // the learner sees (1, 5) and (1, 6), which disagree
    assert_eq!(cands.len(), 2);
    assert!(matches!(cands[0].0, OperationBox::Simple(_)));
    assert!(matches!(cands[1].0, OperationBox::Simple(_)));
}

#[test]
fn solver_getters() {
    let solver = GreedySolver::new(2, StubMetric::new());
    assert_eq!(solver.max_depth(), 2);
    let a = image(vec![vec![1]]);
    assert_eq!(solver.metric().score(&a, &a), 0);
}

#[test]
fn outputs_equal_to_inputs_are_solved_at_once() {
    let transpose = Transpose::new();
    let noop = Noop::new();
    let learner = LearnableNoop::new();
    let ops = Operations { simple: vec![&transpose, &noop], learnable: vec![&learner] };
    let task = Task {
        train: vec![
            pair(vec![vec![1, 2], vec![3, 4]], vec![vec![1, 2], vec![3, 4]]),
            pair(vec![vec![5, 6, 7]], vec![vec![5, 6, 7]]),
        ],
        test: vec![case(vec![vec![8, 9]])],
    };
    let solver = GreedySolver::new(2, StubMetric::new());
    let found = solver.solve_operations(&ops, &task).unwrap();
    assert_eq!(found.len(), 1);
    assert!(matches!(found[0], OperationBox::Learnt(_)));
    let out = found[0].op().apply(&task.test[0].input).unwrap();
    assert_eq!(rows_of(&out), vec![vec![8, 9]]);
    let out = found[0].apply(&task.test[0].input).unwrap();
    assert_eq!(rows_of(&out), vec![vec![8, 9]]);
}

#[test]
fn identity_among_the_fixed_operations_solves_at_once() {
    let transpose = Transpose::new();
    let noop = Noop::new();
    let ops = Operations { simple: vec![&transpose, &noop], learnable: vec![] };
    let task = Task {
        train: vec![pair(vec![vec![1, 2], vec![3, 4]], vec![vec![1, 2], vec![3, 4]])],
        test: vec![case(vec![vec![8, 9]])],
    };
    let solver = GreedySolver::new(2, StubMetric::new());
    let found = solver.solve_operations(&ops, &task).unwrap();
    assert_eq!(found.len(), 1);
    assert_eq!(
        rows_of(&found[0].apply(&task.test[0].input).unwrap()),
        vec![vec![8, 9]]
    );
    let answer = OpSolver(ops, solver).solve(&task);
    assert_eq!(answer.test.len(), 1);
    assert_eq!(answer.test[0].output.len(), 1);
    assert_eq!(rows_of(&answer.test[0].output[0]), vec![vec![8, 9]]);
}

#[test]
fn transposed_outputs_are_solved_by_transpose() {
    let transpose = Transpose::new();
    let noop = Noop::new();
    let learner = LearnableNoop::new();
    let ops = Operations { simple: vec![&noop, &transpose], learnable: vec![&learner] };
    let task = Task {
        train: vec![pair(vec![vec![1, 2, 3]], vec![vec![1], vec![2], vec![3]])],
        test: vec![case(vec![vec![8, 9]]), case(vec![vec![7], vec![6]])],
    };
    let answer = OpSolver(ops, GreedySolver::new(2, StubMetric::new())).solve(&task);
    assert_eq!(answer.test.len(), 2);
    assert_eq!(answer.test[0].output.len(), 1);
    assert_eq!(rows_of(&answer.test[0].output[0]), vec![vec![8], vec![9]]);
    assert_eq!(answer.test[1].output.len(), 1);
    assert_eq!(rows_of(&answer.test[1].output[0]), vec![vec![7, 6]]);
}

#[test]
fn no_sequence_within_the_depth() {
    let transpose = Transpose::new();
    let noop = Noop::new();
    let ops = Operations { simple: vec![&noop, &transpose], learnable: vec![] };
    let task = Task {
        train: vec![pair(vec![vec![1, 2, 3]], vec![vec![9]])],
        test: vec![case(vec![vec![8, 9]]), case(vec![vec![7]])],
    };
    let solver = GreedySolver::new(2, StubMetric::new());
    assert!(solver.solve_operations(&ops, &task).is_none());
    let answer = OpSolver(ops, solver).solve(&task);
    assert_eq!(answer.test.len(), 2);
    assert_eq!(answer.test[0].output.len(), 0);
    assert_eq!(answer.test[1].output.len(), 0);
}

#[test]
fn no_depth_no_sequence() {
    let noop = Noop::new();
    let ops = Operations { simple: vec![&noop], learnable: vec![] };
    let task = Task { train: vec![pair(vec![vec![1]], vec![vec![1]])], test: vec![] };
    let solver = GreedySolver::new(0, StubMetric::new());
    assert!(solver.solve_operations(&ops, &task).is_none());
}

#[test]
fn no_operation_no_sequence() {
    let ops = Operations { simple: vec![], learnable: vec![] };
    let task = Task { train: vec![pair(vec![vec![1]], vec![vec![1]])], test: vec![] };
    let solver = GreedySolver::new(2, StubMetric::new());
    assert!(solver.solve_operations(&ops, &task).is_none());
}

#[test]
fn a_sequence_of_two_operations() {
    let step = Table(vec![(1, 3), (3, 5)]);
    let ops = Operations { simple: vec![&step], learnable: vec![] };
    let task = Task { train: vec![pair(vec![vec![1]], vec![vec![5]])], test: vec![case(vec![vec![1]])] };
    let solver = GreedySolver::new(2, StubMetric::new());
    let found = solver.solve_operations(&ops, &task).unwrap();
    assert_eq!(found.len(), 2);
    let answer = OpSolver(ops, solver).solve(&task);
    assert_eq!(rows_of(&answer.test[0].output[0]), vec![vec![5]]);
    let ops = Operations { simple: vec![&step], learnable: vec![] };
    assert!(GreedySolver::new(1, StubMetric::new()).solve_operations(&ops, &task).is_none());
}

#[test]
fn of_equal_scores_the_earlier_operation_is_taken() {
    let x = Table(vec![(1, 2), (2, 9)]);
    let y = Table(vec![(1, 3), (3, 5)]);
    let task = Task { train: vec![pair(vec![vec![1]], vec![vec![5]])], test: vec![] };
    let solver = GreedySolver::new(2, StubMetric::new());
    let ops = Operations { simple: vec![&x, &y], learnable: vec![] };
    assert!(solver.solve_operations(&ops, &task).is_none());
    let ops = Operations { simple: vec![&y, &x], learnable: vec![] };
    assert_eq!(solver.solve_operations(&ops, &task).unwrap().len(), 2);
}

#[test]
fn a_learnt_operation_is_replayed_on_the_test_grids() {
    let learner = LearnTable;
    let noop = Noop::new();
    let ops = Operations { simple: vec![&noop], learnable: vec![&learner] };
    let task = Task {
        train: vec![pair(vec![vec![1]], vec![vec![4]]), pair(vec![vec![2]], vec![vec![6]])],
        test: vec![case(vec![vec![2]]), case(vec![vec![3]])],
    };
    let answer = OpSolver(ops, GreedySolver::new(2, StubMetric::new())).solve(&task);
    assert_eq!(rows_of(&answer.test[0].output[0]), vec![vec![6]]);
    assert_eq!(rows_of(&answer.test[1].output[0]), vec![vec![3]]);
}

#[test]
fn a_failure_on_a_test_grid_gives_no_result_for_it() {
    let only = OnlyOnes;
    let ops = Operations { simple: vec![&only], learnable: vec![] };
    let task = Task {
        train: vec![pair(vec![vec![1]], vec![vec![1]])],
        test: vec![case(vec![vec![2]]), case(vec![vec![1, 2]])],
    };
    let answer = OpSolver(ops, GreedySolver::new(2, StubMetric::new())).solve(&task);
    assert_eq!(answer.test.len(), 2);
    assert_eq!(answer.test[0].output.len(), 0);
    assert_eq!(answer.test[1].output.len(), 1);
    assert_eq!(rows_of(&answer.test[1].output[0]), vec![vec![1, 2]]);
}

#[test]
fn stub_solver_echoes() {
    let task = Task {
        train: vec![],
        test: vec![
            TaskTest { input: image(vec![vec![1]]), output: vec![image(vec![vec![2]]), image(vec![vec![3]])] },
            TaskTest { input: image(vec![vec![4]]), output: vec![] },
        ],
    };
    let answer = StubSolver::new().solve(&task);
    assert_eq!(answer.test.len(), 2);
    assert_eq!(answer.test[0].output.len(), 2);
    assert_eq!(rows_of(&answer.test[0].output[0]), vec![vec![2]]);
    assert_eq!(rows_of(&answer.test[0].output[1]), vec![vec![3]]);
    assert_eq!(answer.test[1].output.len(), 1);
    assert_eq!(rows_of(&answer.test[1].output[0]), vec![vec![4]]);
}

#[test]
fn batch_is_solved_under_the_names() {
    let tasks = vec![
        ("b".to_string(), Task { train: vec![], test: vec![case(vec![vec![1]])] }),
        ("a".to_string(), Task { train: vec![], test: vec![] }),
    ];
    let solved = solve(&tasks, &StubSolver::new()).unwrap();
    assert_eq!(solved.len(), 2);
    assert_eq!(solved[0].0, "b");
    assert_eq!(solved[0].1.test.len(), 1);
    assert_eq!(rows_of(&solved[0].1.test[0].output[0]), vec![vec![1]]);
    assert_eq!(solved[1].0, "a");
    assert_eq!(solved[1].1.test.len(), 0);
}

#[test]
fn batch_fails_on_a_solution_of_the_wrong_size() {
    let tasks = vec![("a".to_string(), Task { train: vec![], test: vec![case(vec![vec![1]])] })];
    assert_eq!(solve(&tasks, &OneTooMany).err(), Some(SolveError::SolutionSize));
    let none: Vec<(String, Task)> = Vec::new();
    assert_eq!(solve(&none, &OneTooMany).unwrap().len(), 0);
}

#[test]
fn solve_error_in_words() {
    assert_eq!(
        SolveError::SolutionSize.message(),
        "Solution array size is not equal to test array size"
    );
}
