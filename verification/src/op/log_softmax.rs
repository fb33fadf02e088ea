use vstd::prelude::*;

use super::{reads_exactly, unary, Reads};
use crate::shape::Shape;

verus! {

/// The log-softmax of a payload along one named axis:
/// `x - ln(sum(exp(x)))`, the logarithm of the softmax probabilities.
///
/// It is a fused primitive because the stable forward shifts by the
/// axis maximum. The gradient is the seed minus the softmax scaled by
/// the seed's sum along the axis, recovered from the node's own output.
#[derive(Debug, Clone, Copy, PartialEq, Eq, Structural)]
pub struct LogSoftmax {
    /// The normalized axis.
    pub axis: usize,
}

impl LogSoftmax {
    /// Returns the arity: one operand.
    pub fn arity(&self) -> (arity: usize)
        ensures
            arity == 1,
    {
        1
    }

    /// Returns the read set of the derivative rule: it reads its own
    /// output to recover the softmax.
    pub fn reads(&self) -> (reads: Reads)
        ensures
            reads_exactly(reads, false, false, true),
    {
        Reads::of(false, false, true)
    }

    /// Infers the shape of the result: the operand's shape, with the
    /// axis checked against its rank.
    pub fn infer_shape(&self, operands: &[Shape]) -> (shape: Shape)
        requires
            operands@.len() == 1,
            self.axis < operands@[0]@.len(),
        ensures
            shape@ == operands@[0]@,
    {
        unary(operands).clone()
    }
}

} // verus!
