//! The operation that changes nothing, fixed and learnt.

use vstd::prelude::*;
use crate::types::{Grid, Image};
use crate::solver::operation::types::{LearnableOperation, Operation};
use crate::solver::operation::LearnableOperationBox;

verus! {

/// The operation that gives every grid back as it is.
#[derive(Debug)]
pub struct Noop(());

impl Noop {
    /// The operation.
    pub fn new() -> (op: Noop)
        ensures
            forall|g: Grid| #[trigger] op.outcome(g) == Some(g),
    {
        Noop(())
    }
}

impl Operation for Noop {
    open spec fn outcome(&self, img: Grid) -> Option<Grid> {
        Some(img)
    }

    fn apply(&self, img: &Image) -> (r: Option<Image>) {
        Some(img.clone())
    }
}

/// The learner that finds [`Noop`] whatever the pairs are.
pub struct LearnableNoop(());

impl LearnableNoop {
    /// The learner.
    pub fn new() -> (l: LearnableNoop)
        ensures
            forall|pairs: Seq<(Grid, Grid)>| #[trigger] l.lesson(pairs) is Some,
    {
        LearnableNoop(())
    }
}

impl LearnableOperation for LearnableNoop {
    type Op = Noop;

    closed spec fn lesson(&self, pairs: Seq<(Grid, Grid)>) -> Option<Noop> {
        Some(Noop(()))
    }

    fn learn(&self, _imgs: &Vec<(&Image, &Image)>) -> (r: Option<Noop>) {
        Some(Noop::new())
    }
}

impl LearnableOperationBox for LearnableNoop {
    open spec fn learns(&self, pairs: Seq<(Grid, Grid)>) -> bool {
        self.lesson(pairs) is Some
    }

    open spec fn learnt(&self, pairs: Seq<(Grid, Grid)>, img: Grid) -> Option<Grid> {
        self.lesson(pairs)->0.outcome(img)
    }

    fn learn_box(&self, pairs: &Vec<(&Image, &Image)>) -> (r: Option<Box<dyn Operation>>) {
        match self.learn(pairs) {
            Some(op) => {
                let boxed: Box<dyn Operation> = Box::new(op);
                let r = Some(boxed);
                r
            },
            None => None,
        }
    }
}

} // verus!
