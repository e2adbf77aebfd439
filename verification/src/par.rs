//! Deciding, level by level, whether a recursive algorithm on the tree goes on in
//! parallel or switches to sequential.
use vstd::prelude::*;

verus! {

/// The default depth, counted from the leaves, at which a parallel construction turns
/// sequential.
pub const SWITCH_SEQUENTIAL_DEFAULT: usize = 6;

/// Returns the depth at which a recursive algorithm turns to sequential from parallel:
/// `height - depth`, or 0 when `height <= depth`.
pub fn compute_level_switch_sequential(depth: usize, height: usize) -> (r: Parallel)
    ensures
        (r.0).0 == if height <= depth { 0 } else { height - depth },
{
    let gg = if height <= depth { 0 } else { height - depth };
    Parallel::new(Depth(gg))
}

/// A depth in the tree; the root is at depth 0.
#[derive(Copy, Clone, Debug, PartialEq, Eq)]
pub struct Depth(pub usize);

/// Whether the two children of a node are handled in parallel or sequentially, with the
/// joiner each child goes on with.
pub enum ParResult<X, Y> {
    Parallel([X; 2]),
    Sequential([Y; 2]),
}

/// Decides, at each depth, whether the recursion goes on in parallel.
pub trait Joiner: Sized + Send + Sync + Copy {
    fn next(self, a: Depth) -> ParResult<Self, Sequential>;
}

/// Indicates that an algorithm should run in parallel up until the specified depth.
#[derive(Copy, Clone)]
pub struct Parallel(pub Depth);

impl Parallel {
    /// The depth at which to switch to sequential.
    pub fn new(d: Depth) -> (r: Self)
        ensures
            r.0 == d,
    {
        Parallel(d)
    }
}

impl Joiner for Parallel {
    /// Below the switch depth both children go on in parallel, with the same switch depth;
    /// from the switch depth on both go on sequentially.
    fn next(self, a: Depth) -> (r: ParResult<Self, Sequential>)
        ensures
            a.0 >= (self.0).0 ==> r == ParResult::<Parallel, Sequential>::Sequential([Sequential, Sequential]),
            a.0 < (self.0).0 ==> r == ParResult::<Parallel, Sequential>::Parallel([self, self]),
    {
        if a.0 >= (self.0).0 {
            ParResult::Sequential([Sequential, Sequential])
        } else {
            ParResult::Parallel([self, self])
        }
    }
}

/// Indicates that an algorithm should run sequentially. Once we transition to
/// sequential, we always want to recurse sequentially.
#[derive(Copy, Clone)]
pub struct Sequential;

impl Joiner for Sequential {
    fn next(self, a: Depth) -> (r: ParResult<Self, Sequential>)
        ensures
            r == ParResult::<Sequential, Sequential>::Sequential([Sequential, Sequential]),
    {
        ParResult::Sequential([Sequential, Sequential])
    }
}

} // verus!
