//! Operations that move the cells of a grid.

use vstd::prelude::*;
use crate::types::{Grid, Image};
use crate::solver::operation::types::Operation;

verus! {

/// The operation that exchanges the two axes of a grid.
#[derive(Debug)]
pub struct Transpose(());

impl Transpose {
    /// The operation.
    pub fn new() -> (op: Transpose)
        ensures
            forall|g: Grid| #[trigger] op.outcome(g) == Some(g.transposed()),
    {
        Transpose(())
    }
}

impl Operation for Transpose {
    open spec fn outcome(&self, img: Grid) -> Option<Grid> {
        Some(img.transposed())
    }

    fn apply(&self, img: &Image) -> (r: Option<Image>) {
        Some(img.flipped_axes())
    }
}

} // verus!
