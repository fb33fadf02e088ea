use vstd::prelude::*;

use super::{reads_exactly, unary, Reads};
use crate::shape::Shape;

verus! {

/// The log-sum-exp of a payload along one named axis:
/// `ln(sum(exp(x)))`, the softmax family's normalizer and a smooth
/// maximum; like a sum along the axis, the reduced axis is removed.
///
/// It is a fused primitive because the stable forward shifts by the
/// axis maximum, which no composition of recorded operations can
/// express. The gradient is the softmax, recovered from the operand and
/// the node's own output.
#[derive(Debug, Clone, Copy, PartialEq, Eq, Structural)]
pub struct LogSumExp {
    /// The reduced axis.
    pub axis: usize,
}

impl LogSumExp {
    /// Returns the arity: one operand.
    pub fn arity(&self) -> (arity: usize)
        ensures
            arity == 1,
    {
        1
    }

    /// Returns the read set of the derivative rule: it reads its operand
    /// and its own output to recover the softmax.
    pub fn reads(&self) -> (reads: Reads)
        ensures
            reads_exactly(reads, true, false, true),
    {
        Reads::of(true, false, true)
    }

    /// Infers the shape of the result: the operand's shape with the axis
    /// removed.
    pub fn infer_shape(&self, operands: &[Shape]) -> (shape: Shape)
        requires
            operands@.len() == 1,
            self.axis < operands@[0]@.len(),
        ensures
            shape@ == operands@[0]@.remove(self.axis as int),
    {
        unary(operands).without_axis(self.axis)
    }
}

} // verus!
