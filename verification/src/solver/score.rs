//! How far a grid is from the grid that was expected.

use vstd::prelude::*;
use crate::types::{Grid, Image};

verus! {

/// A measure of how far one grid is from another: 0 where they are the same grid, and
/// more than 0 where they differ in shape or in a cell.
pub trait Metric {
    /// The distance between two grids.
    spec fn distance(&self, a: Grid, b: Grid) -> u32;

    /// The distance is 0 between a grid and itself, and between no other two.
    proof fn zero_is_same(&self, a: Grid, b: Grid)
        ensures
            self.distance(a, b) == 0 <==> a == b,
    ;

    /// Measures the distance.
    fn score(&self, a: &Image, b: &Image) -> (r: u32)
        ensures
            r == self.distance(a@, b@),
            r == 0 <==> a@ == b@,
    ;
}

/// Two grids that differ in one cell are more than 0 apart.
pub proof fn lemma_differing_cell_counts<M: Metric>(metric: &M, a: Grid, b: Grid, x: int, y: int)
    requires
        a.has(x, y),
        a.at(x, y) != b.at(x, y),
    ensures
        metric.distance(a, b) > 0,
{
    metric.zero_is_same(a, b);
}

/// The measure that tells only whether two grids are the same: 0 if so, else 1.
pub struct StubMetric(());

impl StubMetric {
    /// The measure.
    pub fn new() -> (m: StubMetric)
        ensures
            forall|a: Grid, b: Grid|
                #[trigger] m.distance(a, b) == (if a == b {
                    0u32
                } else {
                    1u32
                }),
    {
        StubMetric(())
    }
}

impl Metric for StubMetric {
    open spec fn distance(&self, a: Grid, b: Grid) -> u32 {
        if a == b {
            0
        } else {
            1
        }
    }

    proof fn zero_is_same(&self, a: Grid, b: Grid) {
    }

    fn score(&self, a: &Image, b: &Image) -> (r: u32) {
        if a.same(b) {
            0
        } else {
            1
        }
    }
}

} // verus!
