//! Grids of color codes, and the tasks and solutions made of them.

use vstd::prelude::*;

verus! {

/// A rectangular grid of color codes.
///
/// The cells are held in an `ndarray::Array2<u8>`; Verus sees the grid through
/// [`image_rows`] and [`image_width`] only.
#[verifier::external_body]
#[derive(Debug)]
pub struct Image {
    cells: ndarray::Array2<u8>,
}

/// The rows of a grid, first axis outermost: `image_rows(img)[x][y]` is the element
/// that the array holds at index `(x, y)`.
pub uninterp spec fn image_rows(img: Image) -> Seq<Seq<u8>>;

/// The length of the second axis of a grid, which every row has.
pub uninterp spec fn image_width(img: Image) -> nat;

/// The mathematical value of an [`Image`].
pub ghost struct Grid {
    pub rows: Seq<Seq<u8>>,
    pub width: nat,
}

impl Grid {
    /// Every row has `width` cells.
    pub open spec fn wf(self) -> bool {
        forall|x: int| 0 <= x < self.rows.len() ==> (#[trigger] self.rows[x]).len() == self.width
    }

    /// The number of rows.
    pub open spec fn height(self) -> nat {
        self.rows.len()
    }

    /// `(x, y)` indexes a cell of the grid.
    pub open spec fn has(self, x: int, y: int) -> bool {
        0 <= x < self.rows.len() && 0 <= y < self.width
    }

    /// The color at `(x, y)`.
    pub open spec fn at(self, x: int, y: int) -> u8
        recommends
            self.has(x, y),
    {
        self.rows[x][y]
    }

    /// The grid with the color at `(x, y)` replaced.
    pub open spec fn put(self, x: int, y: int, color: u8) -> Grid
        recommends
            self.has(x, y),
    {
        Grid { rows: self.rows.update(x, self.rows[x].update(y, color)), width: self.width }
    }

    /// The grid with its two axes exchanged.
    pub open spec fn transposed(self) -> Grid {
        Grid {
            rows: Seq::new(self.width, |y: int| Seq::new(self.rows.len(), |x: int| self.rows[x][y])),
            width: self.rows.len(),
        }
    }
}

/// The rows of a nested vector as sequences.
pub open spec fn rows_of(rows: Seq<Vec<u8>>) -> Seq<Seq<u8>> {
    Seq::new(rows.len(), |x: int| rows[x]@)
}

impl View for Image {
    type V = Grid;

    open spec fn view(&self) -> Grid {
        Grid { rows: image_rows(*self), width: image_width(*self) }
    }
}

/// One cell of a nested vector, for building a grid from it.
fn cell_of(rows: &Vec<Vec<u8>>, x: usize, y: usize) -> (c: u8)
    requires
        x < rows.len(),
        y < rows[x as int].len(),
    ensures
        c == rows[x as int][y as int],
{
    rows[x][y]
}

impl Image {
    /// `ndarray::ArrayBase::dim`: the lengths of the two axes. The contract says that
    /// they are the number of rows and the length of each row, and that neither is above
    /// `isize::MAX`: `ndarray` makes no array with a longer axis.
    #[verifier::external_body]
    pub(crate) fn shape(&self) -> (d: (usize, usize))
        ensures
            d.0 == image_rows(*self).len(),
            d.1 == image_width(*self),
            forall|x: int| 0 <= x < d.0 ==> (#[trigger] image_rows(*self)[x]).len() == d.1,
            d.0 <= isize::MAX,
            d.1 <= isize::MAX,
    {
        self.cells.dim()
    }

    /// Indexing an `ndarray` array by a pair, `array[(x, y)]`, which panics outside the
    /// array: the contract asks for an index inside it and says that the element there
    /// comes back.
    #[verifier::external_body]
    pub(crate) fn at(&self, x: usize, y: usize) -> (c: u8)
        requires
            self@.has(x as int, y as int),
        ensures
            c == self@.at(x as int, y as int),
    {
        self.cells[(x, y)]
    }

    /// Assignment through `array[(x, y)]`, which panics outside the array: the contract
    /// asks for an index inside it and says that this one element is replaced.
    #[verifier::external_body]
    pub(crate) fn put(&mut self, x: usize, y: usize, color: u8)
        requires
            old(self)@.has(x as int, y as int),
        ensures
            final(self)@ == old(self)@.put(x as int, y as int, color),
    {
        self.cells[(x, y)] = color;
    }

    /// `ndarray::ArrayBase::from_shape_fn`, which panics where the product of the axis
    /// lengths other than zero overflows `isize`: the contract asks for lengths and a
    /// product below that and says that the array holds at each index what the closure
    /// gives for it, here the cell of `rows`.
    #[verifier::external_body]
    pub(crate) fn from_rows(rows: &Vec<Vec<u8>>, width: usize) -> (img: Image)
        requires
            forall|x: int| 0 <= x < rows.len() ==> (#[trigger] rows[x]).len() == width,
            rows.len() <= isize::MAX,
            width <= isize::MAX,
            rows.len() * width <= isize::MAX,
        ensures
            img@.rows == rows_of(rows@),
            img@.width == width,
    {
        Image { cells: ndarray::Array2::from_shape_fn((rows.len(), width), |(x, y)| cell_of(rows, x, y)) }
    }

    /// `Clone::clone` of an `ndarray` array: the contract says that the copy has the
    /// shape and the elements of the array.
    #[verifier::external_body]
    pub(crate) fn copy(&self) -> (img: Image)
        ensures
            img@ == self@,
    {
        Image { cells: self.cells.clone() }
    }

    /// `==` of two `ndarray` arrays, which holds where the shapes and all elements are
    /// equal: the contract says so.
    #[verifier::external_body]
    pub(crate) fn same(&self, other: &Image) -> (b: bool)
        ensures
            b == (self@ == other@),
    {
        self.cells == other.cells
    }

    /// `ndarray::ArrayBase::reversed_axes` on a copy: the contract says that the result
    /// has the two axis lengths exchanged and at `(y, x)` the element that the array has
    /// at `(x, y)`.
    #[verifier::external_body]
    pub(crate) fn flipped_axes(&self) -> (img: Image)
        ensures
            img@ == self@.transposed(),
    {
        Image { cells: self.cells.to_owned().reversed_axes() }
    }

    /// The number of rows.
    pub fn nrows(&self) -> (n: usize)
        ensures
            n == self@.height(),
    {
        self.shape().0
    }

    /// The number of cells in each row.
    pub fn ncols(&self) -> (n: usize)
        ensures
            n == self@.width,
            self@.wf(),
    {
        self.shape().1
    }

    /// The color at `(x, y)`, or `None` outside the grid.
    pub fn get(&self, x: usize, y: usize) -> (c: Option<u8>)
        ensures
            c == (if self@.has(x as int, y as int) {
                Some(self@.at(x as int, y as int))
            } else {
                None
            }),
    {
        let d = self.shape();
        if x < d.0 && y < d.1 {
            Some(self.at(x, y))
        } else {
            None
        }
    }
}

impl Clone for Image {
    fn clone(&self) -> (img: Image)
        ensures
            img@ == self@,
    {
        self.copy()
    }
}

/// A training pair: a grid and the grid that the sought transformation makes of it.
#[derive(Debug)]
pub struct TaskTrain {
    pub input: Image,
    pub output: Image,
}

/// A test case: a grid, and the expected results where they are known.
#[derive(Debug)]
pub struct TaskTest {
    pub input: Image,
    pub output: Vec<Image>,
}

/// A puzzle: training pairs and test cases.
#[derive(Debug)]
pub struct Task {
    pub train: Vec<TaskTrain>,
    pub test: Vec<TaskTest>,
}

/// The candidate results for one test case; none where no solution was found.
#[derive(Debug)]
pub struct TaskTestSolution {
    pub output: Vec<Image>,
}

/// The candidate results for each test case of a task, in the order of the test cases.
#[derive(Debug)]
pub struct TaskSolution {
    pub test: Vec<TaskTestSolution>,
}

} // verus!
