//! What an operation on grids is to a search.

use vstd::prelude::*;
use crate::types::{Grid, Image};

verus! {

/// The value of a grid that an operation gave, if it gave one.
pub open spec fn seen(r: Option<Image>) -> Option<Grid> {
    match r {
        Some(img) => Some(img@),
        None => None,
    }
}

/// `format!("{:?}", value)` of std: the text that the value's `Debug` gives. Nothing is
/// claimed of the text.
#[verifier::external_body]
fn debug_text<T: std::fmt::Debug>(value: &T) -> String {
    format!("{:?}", value)
}

/// Something that can say what it is called.
pub trait NamedOperation {
    /// The name.
    fn name(&self) -> String;
}

impl<Op: std::fmt::Debug> NamedOperation for Op {
    /// The text that `Debug` gives for the value.
    fn name(&self) -> String {
        debug_text(self)
    }
}

/// A transformation of a grid into a new grid, which may fail.
pub trait Operation {
    /// What the operation makes of a grid; `None` where it fails.
    spec fn outcome(&self, img: Grid) -> Option<Grid>;

    /// Carries the operation out.
    fn apply(&self, img: &Image) -> (r: Option<Image>)
        ensures
            seen(r) == self.outcome(img@),
    ;
}

/// A way to find an operation by looking at pairs of a grid and the grid that is
/// expected of it.
pub trait LearnableOperation {
    /// The kind of operation that is found.
    type Op: Operation;

    /// The operation that the pairs yield, if any.
    spec fn lesson(&self, pairs: Seq<(Grid, Grid)>) -> Option<Self::Op>;

    /// Looks for the operation.
    fn learn(&self, pairs: &Vec<(&Image, &Image)>) -> (r: Option<Self::Op>)
        ensures
            r == self.lesson(crate::solver::operation::pairs_seen(pairs@)),
    ;
}

} // verus!
