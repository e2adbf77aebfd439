//! Hooks for timing the levels of a recursive algorithm on the tree.
use vstd::prelude::*;

verus! {

/// Used for debugging performance. It is exposed so that the algorithms that operate on
/// this tree may also use this functionality.
pub trait TreeTimerTrait: Sized + Send {
    type Bag: Send + Sized;

    fn combine(a: Self::Bag, b: Self::Bag) -> Self::Bag;

    fn new(height: usize) -> Self;

    fn leaf_finish(self) -> Self::Bag;

    fn start(&mut self);

    fn next(self) -> (Self, Self);
}

/// When we do not use debugging, this version is used.
pub struct TreeTimerEmpty;

/// What an empty timer collects: nothing.
pub struct BagEmpty;

impl TreeTimerTrait for TreeTimerEmpty {
    type Bag = BagEmpty;

    fn combine(a: BagEmpty, b: BagEmpty) -> BagEmpty {
        BagEmpty
    }

    fn new(height: usize) -> TreeTimerEmpty {
        TreeTimerEmpty
    }

    fn leaf_finish(self) -> BagEmpty {
        BagEmpty
    }

    fn start(&mut self) {
    }

    fn next(self) -> (Self, Self) {
        (TreeTimerEmpty, TreeTimerEmpty)
    }
}

} // verus!
