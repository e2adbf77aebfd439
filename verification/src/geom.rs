//! Axis aligned ranges and rectangles, and the axis along which a tree level divides.
use vstd::prelude::*;
use core::cmp::Ordering;

verus! {

/// One of the two axes of the plane.
#[derive(Copy, Clone, Debug, PartialEq, Eq, Structural)]
pub enum Axis {
    X,
    Y,
}

impl Axis {
    /// The axis perpendicular to this one.
    pub open spec fn spec_next(self) -> Axis {
        match self {
            Axis::X => Axis::Y,
            Axis::Y => Axis::X,
        }
    }

    /// The axis perpendicular to this one.
    pub fn next(self) -> (r: Axis)
        ensures
            r == self.spec_next(),
    {
        match self {
            Axis::X => Axis::Y,
            Axis::Y => Axis::X,
        }
    }
}

/// A closed one dimensional range `[left, right]`.
#[derive(Copy, Clone, Debug, PartialEq, Eq, Structural)]
pub struct Range {
    pub left: isize,
    pub right: isize,
}

impl Range {
    /// A point is inside the range if it lies in `[left, right]`.
    pub open spec fn spec_contains(self, pos: isize) -> bool {
        self.left <= pos <= self.right
    }

    /// Whether `other` lies within this range.
    pub open spec fn spec_contains_range(self, other: Range) -> bool {
        self.left <= other.left && other.right <= self.right
    }

    /// Where `pos` lies relative to this range: `Less` if it is to the left of
    /// the range, `Greater` if it is to the right, `Equal` if the range contains it.
    pub fn left_or_right_or_contain(&self, pos: &isize) -> (r: Ordering)
        ensures
            (r == Ordering::Less) <==> *pos < self.left,
            (r == Ordering::Greater) <==> (self.left <= *pos && *pos > self.right),
            (r == Ordering::Equal) <==> self.spec_contains(*pos),
    {
        if *pos < self.left {
            Ordering::Less
        } else if *pos > self.right {
            Ordering::Greater
        } else {
            Ordering::Equal
        }
    }

    /// Whether the range contains `pos`.
    pub fn contains(&self, pos: isize) -> (r: bool)
        ensures
            r == self.spec_contains(pos),
    {
        self.left <= pos && pos <= self.right
    }

    /// Whether `other` lies within this range.
    pub fn contains_range(&self, other: &Range) -> (r: bool)
        ensures
            r == self.spec_contains_range(*other),
    {
        self.left <= other.left && other.right <= self.right
    }
}

/// An axis aligned rectangle, given by its range along each axis.
#[derive(Copy, Clone, Debug, PartialEq, Eq, Structural)]
pub struct Rect {
    pub x: Range,
    pub y: Range,
}

impl Rect {
    /// The rectangle `[xleft, xright] x [yleft, yright]`.
    pub fn new(xleft: isize, xright: isize, yleft: isize, yright: isize) -> (r: Rect)
        ensures
            r.x == (Range { left: xleft, right: xright }),
            r.y == (Range { left: yleft, right: yright }),
    {
        Rect { x: Range { left: xleft, right: xright }, y: Range { left: yleft, right: yright } }
    }

    /// The range of the rectangle along `axis`.
    pub open spec fn spec_range(self, axis: Axis) -> Range {
        match axis {
            Axis::X => self.x,
            Axis::Y => self.y,
        }
    }

    /// The range of the rectangle along `axis`.
    pub fn get_range(&self, axis: Axis) -> (r: &Range)
        ensures
            *r == self.spec_range(axis),
    {
        match axis {
            Axis::X => &self.x,
            Axis::Y => &self.y,
        }
    }
}

} // verus!
