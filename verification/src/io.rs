//! The plain-value forms of tasks and solutions.
//!
//! A task comes in as nested vectors of color codes and is checked into grids; the
//! solutions go out as text: a header line, then a line for each test case that has a
//! result, with the task's name, the number of the test case and the grids.

use vstd::prelude::*;
use crate::types::{rows_of, Grid, Image, Task, TaskSolution, TaskTest, TaskTrain};
use crate::solver::operation::grids;
use crate::solver::types::solution_seen;

verus! {

/// A grid as rows of color codes.
pub type ImageJson = Vec<Vec<u8>>;

/// A training pair as it comes in.
#[derive(Debug)]
pub struct TaskTrainJson {
    pub input: ImageJson,
    pub output: ImageJson,
}

/// A test case as it comes in.
#[derive(Debug)]
pub struct TaskTestJson {
    pub input: ImageJson,
    pub output: Option<ImageJson>,
}

/// A task as it comes in.
#[derive(Debug)]
pub struct TaskJson {
    pub train: Vec<TaskTrainJson>,
    pub test: Vec<TaskTestJson>,
}

/// Why rows of color codes are no grid.
#[derive(Clone, Copy, Debug, PartialEq, Eq, Structural)]
pub enum ImageError {
    /// There is no row.
    Empty,
    /// A row has another length than the first.
    Ragged,
    /// The number of rows, the length of a row or the number of cells is above
    /// `isize::MAX`.
    TooLarge,
}

impl ImageError {
    /// What is wrong, in words.
    pub fn message(&self) -> (text: String)
        ensures
            text@ == (match *self {
                ImageError::Empty => "Non-empty image is expected"@,
                ImageError::Ragged => "Equally sized image rows are expected"@,
                ImageError::TooLarge => "Image of at most isize::MAX cells is expected"@,
            }),
    {
        match self {
            ImageError::Empty => "Non-empty image is expected".to_owned(),
            ImageError::Ragged => "Equally sized image rows are expected".to_owned(),
            ImageError::TooLarge => "Image of at most isize::MAX cells is expected".to_owned(),
        }
    }
}

/// What is wrong with the rows, if anything: the first that applies of no row, a row
/// of another length than the first, and a size that no grid can have.
pub open spec fn image_fault(rows: Seq<Vec<u8>>) -> Option<ImageError> {
    if rows.len() == 0 {
        Some(ImageError::Empty)
    } else if exists|x: int| 0 <= x < rows.len() && (#[trigger] rows[x])@.len() != rows[0]@.len() {
        Some(ImageError::Ragged)
    } else if rows.len() > isize::MAX || rows[0]@.len() > isize::MAX || rows.len() * rows[0]@.len()
        > isize::MAX {
        Some(ImageError::TooLarge)
    } else {
        None
    }
}

/// The grid that the rows make.
pub open spec fn grid_of(rows: Seq<Vec<u8>>) -> Grid
    recommends
        rows.len() > 0,
{
    Grid { rows: rows_of(rows), width: rows[0]@.len() }
}

/// Checks that the rows make a grid, and makes it: there must be a row, and every row
/// must have the length of the first.
pub fn deserialize_image(img: &Vec<Vec<u8>>) -> (r: Result<Image, ImageError>)
    ensures
        match r {
            Ok(grid) => image_fault(img@) is None && grid@ == grid_of(img@),
            Err(e) => image_fault(img@) == Some(e),
        },
{
    if img.len() == 0 {
        return Err(ImageError::Empty);
    }
    let cols_len = img[0].len();
    let mut x: usize = 0;
    while x < img.len()
        invariant
            0 <= x <= img.len(),
            img@.len() > 0,
            cols_len == img@[0]@.len(),
            forall|k: int| 0 <= k < x ==> (#[trigger] img@[k])@.len() == cols_len,
        decreases img.len() - x,
    {
        if img[x].len() != cols_len {
            return Err(ImageError::Ragged);
        }
        x = x + 1;
    }
    let limit: usize = isize::MAX as usize;
    let fits = match img.len().checked_mul(cols_len) {
        Some(cells) => img.len() <= limit && cols_len <= limit && cells <= limit,
        None => false,
    };
    if !fits {
        return Err(ImageError::TooLarge);
    }
    Ok(Image::from_rows(img, cols_len))
}

/// What is wrong with a training pair: with its input, or else with its output.
pub open spec fn train_fault(task: TaskTrainJson) -> Option<ImageError> {
    match image_fault(task.input@) {
        Some(e) => Some(e),
        None => image_fault(task.output@),
    }
}

/// Checks a training pair into grids.
pub fn deserialize_task_train(task: &TaskTrainJson) -> (r: Result<TaskTrain, ImageError>)
    ensures
        match r {
            Ok(t) => train_fault(*task) is None && t.input@ == grid_of(task.input@) && t.output@
                == grid_of(task.output@),
            Err(e) => train_fault(*task) == Some(e),
        },
{
    let input = match deserialize_image(&task.input) {
        Ok(img) => img,
        Err(e) => { return Err(e); },
    };
    let output = match deserialize_image(&task.output) {
        Ok(img) => img,
        Err(e) => { return Err(e); },
    };
    Ok(TaskTrain { input, output })
}

/// What is wrong with a test case: with its input, or else with its expected result
/// where it has one.
pub open spec fn test_fault(task: TaskTestJson) -> Option<ImageError> {
    match image_fault(task.input@) {
        Some(e) => Some(e),
        None => match task.output {
            Some(rows) => image_fault(rows@),
            None => None,
        },
    }
}

/// The expected results of a test case as grids: one, or none.
pub open spec fn test_results(task: TaskTestJson) -> Seq<Grid> {
    match task.output {
        Some(rows) => seq![grid_of(rows@)],
        None => Seq::<Grid>::empty(),
    }
}

/// Checks a test case into grids.
pub fn deserialize_task_test(task: &TaskTestJson) -> (r: Result<TaskTest, ImageError>)
    ensures
        match r {
            Ok(t) => test_fault(*task) is None && t.input@ == grid_of(task.input@) && grids(t.output@)
                == test_results(*task),
            Err(e) => test_fault(*task) == Some(e),
        },
{
    let input = match deserialize_image(&task.input) {
        Ok(img) => img,
        Err(e) => { return Err(e); },
    };
    let mut output: Vec<Image> = Vec::new();
    match &task.output {
        Some(rows) => {
            match deserialize_image(rows) {
                Ok(img) => {
                    output.push(img);
                },
                Err(e) => { return Err(e); },
            }
        },
        None => {},
    }
    proof {
        assert(grids(output@) =~= test_results(*task));
    }
    Ok(TaskTest { input, output })
}

/// The first of the training pairs below `n` that has something wrong, with what.
pub open spec fn trains_fault(train: Seq<TaskTrainJson>, n: int) -> Option<ImageError>
    decreases n,
{
    if n <= 0 {
        None
    } else {
        match trains_fault(train, n - 1) {
            Some(e) => Some(e),
            None => train_fault(train[n - 1]),
        }
    }
}

/// The first of the test cases below `n` that has something wrong, with what.
pub open spec fn tests_fault(test: Seq<TaskTestJson>, n: int) -> Option<ImageError>
    decreases n,
{
    if n <= 0 {
        None
    } else {
        match tests_fault(test, n - 1) {
            Some(e) => Some(e),
            None => test_fault(test[n - 1]),
        }
    }
}

/// What is wrong with a task: with the first training pair that has something wrong,
/// or else with the first such test case.
pub open spec fn task_fault(task: TaskJson) -> Option<ImageError> {
    match trains_fault(task.train@, task.train@.len() as int) {
        Some(e) => Some(e),
        None => tests_fault(task.test@, task.test@.len() as int),
    }
}

/// The task holds the grids of what came in.
pub open spec fn task_of(task: TaskJson, made: Task) -> bool {
    &&& made.train@.len() == task.train@.len()
    &&& made.test@.len() == task.test@.len()
    &&& forall|i: int|
        0 <= i < made.train@.len() ==> (#[trigger] made.train@[i]).input@ == grid_of(
            task.train@[i].input@,
        ) && made.train@[i].output@ == grid_of(task.train@[i].output@)
    &&& forall|i: int|
        0 <= i < made.test@.len() ==> (#[trigger] made.test@[i]).input@ == grid_of(
            task.test@[i].input@,
        ) && grids(made.test@[i].output@) == test_results(task.test@[i])
}

/// Checks a task into grids: its training pairs, then its test cases, up to the first
/// that has something wrong.
pub fn deserialize_task(task: &TaskJson) -> (r: Result<Task, ImageError>)
    ensures
        match r {
            Ok(made) => task_fault(*task) is None && task_of(*task, made),
            Err(e) => task_fault(*task) == Some(e),
        },
{
    let mut train: Vec<TaskTrain> = Vec::new();
    let mut i: usize = 0;
    while i < task.train.len()
        invariant
            0 <= i <= task.train.len(),
            train@.len() == i,
            trains_fault(task.train@, i as int) is None,
            forall|k: int|
                0 <= k < i ==> (#[trigger] train@[k]).input@ == grid_of(task.train@[k].input@)
                    && train@[k].output@ == grid_of(task.train@[k].output@),
        decreases task.train.len() - i,
    {
        match deserialize_task_train(&task.train[i]) {
            Ok(t) => {
                train.push(t);
            },
            Err(e) => {
                proof {
                    lemma_trains_fault_stays(task.train@, i + 1, task.train@.len() as int);
                }
                return Err(e);
            },
        }
        i = i + 1;
    }
    let mut test: Vec<TaskTest> = Vec::new();
    let mut j: usize = 0;
    while j < task.test.len()
        invariant
            0 <= j <= task.test.len(),
            test@.len() == j,
            trains_fault(task.train@, task.train@.len() as int) is None,
            tests_fault(task.test@, j as int) is None,
            forall|k: int|
                0 <= k < j ==> (#[trigger] test@[k]).input@ == grid_of(task.test@[k].input@) && grids(
                    test@[k].output@,
                ) == test_results(task.test@[k]),
        decreases task.test.len() - j,
    {
        match deserialize_task_test(&task.test[j]) {
            Ok(t) => {
                test.push(t);
            },
            Err(e) => {
                proof {
                    lemma_tests_fault_stays(task.test@, j + 1, task.test@.len() as int);
                }
                return Err(e);
            },
        }
        j = j + 1;
    }
    Ok(Task { train, test })
}

/// The first fault among the training pairs is the first among any more of them.
proof fn lemma_trains_fault_stays(train: Seq<TaskTrainJson>, n: int, m: int)
    requires
        0 <= n <= m,
        trains_fault(train, n) is Some,
    ensures
        trains_fault(train, m) == trains_fault(train, n),
    decreases m - n,
{
    if n < m {
        lemma_trains_fault_stays(train, n, m - 1);
    }
}

/// The first fault among the test cases is the first among any more of them.
proof fn lemma_tests_fault_stays(test: Seq<TaskTestJson>, n: int, m: int)
    requires
        0 <= n <= m,
        tests_fault(test, n) is Some,
    ensures
        tests_fault(test, m) == tests_fault(test, n),
    decreases m - n,
{
    if n < m {
        lemma_tests_fault_stays(test, n, m - 1);
    }
}

/// The decimal digits of a number, as ASCII.
pub open spec fn digits(n: nat) -> Seq<u8>
    decreases n,
{
    if n < 10 {
        seq![(48 + n) as u8]
    } else {
        digits(n / 10).push((48 + n % 10) as u8)
    }
}

/// The color codes of a row in decimal, one after the other.
pub open spec fn row_text(row: Seq<u8>) -> Seq<u8>
    decreases row.len(),
{
    if row.len() == 0 {
        Seq::<u8>::empty()
    } else {
        row_text(row.drop_last()) + digits(row.last() as nat)
    }
}

/// The rows, each followed by a bar.
pub open spec fn rows_text(rows: Seq<Seq<u8>>) -> Seq<u8>
    decreases rows.len(),
{
    if rows.len() == 0 {
        Seq::<u8>::empty()
    } else {
        rows_text(rows.drop_last()) + row_text(rows.last()) + seq![124u8]
    }
}

/// A grid as text: a bar, then each row followed by a bar; two bars for a grid without
/// cells.
pub open spec fn image_text(g: Grid) -> Seq<u8> {
    if g.rows.len() == 0 || g.width == 0 {
        seq![124u8, 124u8]
    } else {
        seq![124u8] + rows_text(g.rows)
    }
}

/// Grids as text, with a space between one and the next.
pub open spec fn images_text(images: Seq<Grid>) -> Seq<u8>
    decreases images.len(),
{
    if images.len() == 0 {
        Seq::<u8>::empty()
    } else if images.len() == 1 {
        image_text(images[0])
    } else {
        images_text(images.drop_last()) + seq![32u8] + image_text(images.last())
    }
}

/// The lines of the first `n` test cases of a task: for each that has a result, the
/// name, an underscore, the number of the test case, a comma, the results and a line
/// feed.
pub open spec fn task_text(name: Seq<char>, results: Seq<Seq<Grid>>, n: int) -> Seq<u8>
    decreases n,
{
    if n <= 0 {
        Seq::<u8>::empty()
    } else {
        task_text(name, results, n - 1) + (if results[n - 1].len() > 0 {
            vstd::utf8::encode_utf8(name) + seq![95u8] + digits((n - 1) as nat) + seq![44u8]
                + images_text(results[n - 1]) + seq![10u8]
        } else {
            Seq::<u8>::empty()
        })
    }
}

/// The lines of the first `n` tasks.
pub open spec fn tasks_text(tasks: Seq<(String, TaskSolution)>, n: int) -> Seq<u8>
    decreases n,
{
    if n <= 0 {
        Seq::<u8>::empty()
    } else {
        tasks_text(tasks, n - 1) + task_text(
            tasks[n - 1].0@,
            solution_seen(tasks[n - 1].1),
            tasks[n - 1].1.test@.len() as int,
        )
    }
}

/// The header line: `output_id,output` and a line feed.
pub open spec fn header_text() -> Seq<u8> {
    seq![
        111u8, 117u8, 116u8, 112u8, 117u8, 116u8, 95u8, 105u8, 100u8, 44u8, 111u8, 117u8, 116u8,
        112u8, 117u8, 116u8, 10u8,
    ]
}

/// Appends a number in decimal.
fn write_number(stream: &mut Vec<u8>, n: usize)
    ensures
        final(stream)@ == old(stream)@ + digits(n as nat),
    decreases n,
{
    if n >= 10 {
        write_number(stream, n / 10);
    }
    let digit: u8 = (n % 10) as u8;
    stream.push(48 + digit);
    proof {
        assert(stream@ =~= old(stream)@ + digits(n as nat));
    }
}

/// Appends the grid as text: a bar, then the color codes of each row in decimal,
/// each row followed by a bar. A grid without cells gives two bars.
pub fn serialize_image(stream: &mut Vec<u8>, img: &Image)
    ensures
        final(stream)@ == old(stream)@ + image_text(img@),
{
    let d = img.shape();
    if d.0 == 0 || d.1 == 0 {
        stream.push(124);
        stream.push(124);
        proof {
            assert(stream@ =~= old(stream)@ + image_text(img@));
        }
    } else {
        stream.push(124);
        let mut x: usize = 0;
        proof {
            assert(img@.rows.take(0).len() == 0);
            assert(stream@ =~= old(stream)@ + seq![124u8] + rows_text(img@.rows.take(0)));
        }
        while x < d.0
            invariant
                0 <= x <= d.0,
                d.0 == img@.rows.len(),
                d.1 == img@.width,
                img@.wf(),
                stream@ == old(stream)@ + seq![124u8] + rows_text(img@.rows.take(x as int)),
            decreases d.0 - x,
        {
            let ghost row = img@.rows[x as int];
            let ghost head = stream@;
            let mut y: usize = 0;
            proof {
                assert(row.take(0).len() == 0);
                assert(stream@ =~= head + row_text(row.take(0)));
            }
            while y < d.1
                invariant
                    0 <= x < d.0,
                    0 <= y <= d.1,
                    d.0 == img@.rows.len(),
                    d.1 == img@.width,
                    img@.wf(),
                    row == img@.rows[x as int],
                    stream@ == head + row_text(row.take(y as int)),
                decreases d.1 - y,
            {
                let c = img.at(x, y);
                write_number(stream, c as usize);
                proof {
                    let more = row.take(y + 1);
                    assert(more.drop_last() =~= row.take(y as int));
                    assert(more.last() == c);
                    assert(stream@ =~= head + row_text(more));
                }
                y = y + 1;
            }
            stream.push(124);
            proof {
                assert(row.take(y as int) =~= row);
                let more = img@.rows.take(x + 1);
                assert(more.drop_last() =~= img@.rows.take(x as int));
                assert(more.last() == row);
                assert(stream@ =~= old(stream)@ + seq![124u8] + rows_text(more));
            }
            x = x + 1;
        }
        proof {
            assert(img@.rows.take(x as int) =~= img@.rows);
            assert(stream@ =~= old(stream)@ + image_text(img@));
        }
    }
}

/// Appends the grids as text, with a space between one and the next.
pub fn serialize_images(stream: &mut Vec<u8>, imgs: &Vec<Image>)
    ensures
        final(stream)@ == old(stream)@ + images_text(grids(imgs@)),
{
    let ghost all = grids(imgs@);
    let mut i: usize = 0;
    proof {
        assert(all.take(0).len() == 0);
        assert(stream@ =~= old(stream)@ + images_text(all.take(0)));
    }
    while i < imgs.len()
        invariant
            0 <= i <= imgs.len(),
            all == grids(imgs@),
            stream@ == old(stream)@ + images_text(all.take(i as int)),
        decreases imgs.len() - i,
    {
        if i > 0 {
            stream.push(32);
        }
        serialize_image(stream, &imgs[i]);
        proof {
            let more = all.take(i + 1);
            assert(more.drop_last() =~= all.take(i as int));
            assert(more.last() == imgs@[i as int]@);
            if i == 0 {
                assert(more[0] == imgs@[0]@);
            }
            assert(stream@ =~= old(stream)@ + images_text(more));
        }
        i = i + 1;
    }
    proof {
        assert(all.take(i as int) =~= all);
    }
}

/// Appends the header line and then, for each task in turn, a line for each of its
/// test cases that has a result: the task's name, an underscore, the number of the
/// test case from 0, a comma, and the results as text.
pub fn serialize_all_tasks(stream: &mut Vec<u8>, tasks: &Vec<(String, TaskSolution)>)
    ensures
        final(stream)@ == old(stream)@ + header_text() + tasks_text(tasks@, tasks@.len() as int),
{
    let header: [u8; 17] = [
        111, 117, 116, 112, 117, 116, 95, 105, 100, 44, 111, 117, 116, 112, 117, 116, 10,
    ];
    let mut h: usize = 0;
    while h < 17
        invariant
            0 <= h <= 17,
            header@ == header_text(),
            stream@ == old(stream)@ + header_text().take(h as int),
        decreases 17 - h,
    {
        stream.push(header[h]);
        proof {
            assert(stream@ =~= old(stream)@ + header_text().take(h + 1));
        }
        h = h + 1;
    }
    proof {
        assert(header_text().take(17) =~= header_text());
    }
    let mut t: usize = 0;
    while t < tasks.len()
        invariant
            0 <= t <= tasks.len(),
            stream@ == old(stream)@ + header_text() + tasks_text(tasks@, t as int),
        decreases tasks.len() - t,
    {
        let name = tasks[t].0.as_str().as_bytes();
        let task = &tasks[t].1;
        let ghost results = solution_seen(*task);
        let ghost head = stream@;
        let mut n: usize = 0;
        while n < task.test.len()
            invariant
                0 <= n <= task.test.len(),
                0 <= t < tasks.len(),
                task == &tasks@[t as int].1,
                results == solution_seen(*task),
                name@ == vstd::utf8::encode_utf8(tasks@[t as int].0@),
                stream@ == head + task_text(tasks@[t as int].0@, results, n as int),
            decreases task.test.len() - n,
        {
            let test = &task.test[n];
            if test.output.len() > 0 {
                let ghost line = stream@;
                let mut c: usize = 0;
                while c < name.len()
                    invariant
                        0 <= c <= name@.len(),
                        stream@ == line + name@.take(c as int),
                    decreases name.len() - c,
                {
                    stream.push(name[c]);
                    proof {
                        assert(stream@ =~= line + name@.take(c + 1));
                    }
                    c = c + 1;
                }
                proof {
                    assert(name@.take(c as int) =~= name@);
                }
                stream.push(95);
                write_number(stream, n);
                stream.push(44);
                serialize_images(stream, &test.output);
                stream.push(10);
                proof {
                    assert(results[n as int] == grids(test.output@));
                    assert(stream@ =~= head + task_text(tasks@[t as int].0@, results, n + 1));
                }
            }
            n = n + 1;
        }
        proof {
            assert(stream@ =~= old(stream)@ + header_text() + tasks_text(tasks@, t + 1));
        }
        t = t + 1;
    }
}

} // verus!
