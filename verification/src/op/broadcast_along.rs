use vstd::prelude::*;

use super::{reads_exactly, unary, Reads};
use crate::shape::Shape;

verus! {

/// The explicit repetition of a payload along one new named axis of
/// `extent`, inserted at `axis`.
///
/// It is the axis-wise form of `Broadcast`, and summation along the axis
/// is its exact adjoint. The axis and extent are recorded parameters, so
/// no shape alignment is ever inferred.
#[derive(Debug, Clone, Copy, PartialEq, Eq, Structural)]
pub struct BroadcastAlong {
    /// Where the new axis is inserted.
    pub axis: usize,
    /// The extent of the new axis.
    pub extent: usize,
}

impl BroadcastAlong {
    /// Returns the arity: one operand.
    pub fn arity(&self) -> (arity: usize)
        ensures
            arity == 1,
    {
        1
    }

    /// Returns the read set of the derivative rule: it reads no
    /// payloads, the cotangent sums back along the axis.
    pub fn reads(&self) -> (reads: Reads)
        ensures
            reads_exactly(reads, false, false, false),
    {
        Reads::nothing()
    }

    /// Infers the shape of the result: the operand's shape with an axis
    /// of `extent` inserted at `axis`.
    pub fn infer_shape(&self, operands: &[Shape]) -> (shape: Shape)
        requires
            operands@.len() == 1,
            self.axis <= operands@[0]@.len(),
            self.extent > 0,
        ensures
            shape@ == operands@[0]@.insert(self.axis as int, self.extent),
    {
        let operand = unary(operands);
        let mut axes = vstd::slice::slice_to_vec(operand.axes());
        axes.insert(self.axis, self.extent);
        Shape::new(axes)
    }
}

} // verus!
