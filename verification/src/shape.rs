//! Shapes of two-dimensional tensors, and the shape rules of the three ways
//! in which the engine combines them.

use vstd::prelude::*;

verus! {

/// Rows and columns of a matrix. A column vector has one column.
#[derive(Clone, Copy, Debug, PartialEq, Eq, Structural)]
pub struct Shape {
    pub rows: usize,
    pub cols: usize,
}

impl Shape {
    /// The shape of a column vector with `len` entries.
    pub open spec fn column_of(len: usize) -> Shape {
        Shape { rows: len, cols: 1 }
    }

    /// The shape of the transposed matrix.
    pub open spec fn flipped(self) -> Shape {
        Shape { rows: self.cols, cols: self.rows }
    }

    /// The shape of the matrix product `self · rhs`, which exists when the
    /// columns of the left factor are as many as the rows of the right one.
    pub open spec fn times(self, rhs: Shape) -> Option<Shape> {
        if self.cols == rhs.rows {
            Some(Shape { rows: self.rows, cols: rhs.cols })
        } else {
            None
        }
    }

    /// The shape of an entry-by-entry combination (sum, difference, Hadamard
    /// product), which exists when both sides have one and the same shape.
    pub open spec fn entrywise(self, rhs: Shape) -> Option<Shape> {
        if self == rhs {
            Some(self)
        } else {
            None
        }
    }

    pub fn column(len: usize) -> (s: Shape)
        ensures
            s == Shape::column_of(len),
    {
        Shape { rows: len, cols: 1 }
    }

    pub fn transposed(self) -> (s: Shape)
        ensures
            s == self.flipped(),
    {
        Shape { rows: self.cols, cols: self.rows }
    }

    pub fn product(self, rhs: Shape) -> (s: Option<Shape>)
        ensures
            s == self.times(rhs),
    {
        if self.cols == rhs.rows {
            Some(Shape { rows: self.rows, cols: rhs.cols })
        } else {
            None
        }
    }

    pub fn combined(self, rhs: Shape) -> (s: Option<Shape>)
        ensures
            s == self.entrywise(rhs),
    {
        if self.rows == rhs.rows && self.cols == rhs.cols {
            Some(self)
        } else {
            None
        }
    }
}

} // verus!
