use vstd::prelude::*;

use super::{binary, reads_exactly, Reads};
use crate::shape::Shape;

verus! {

/// The Heaviside step of `[operand, threshold]`: the 0/1 indicator of `operand >= threshold`, ties answering one. Both operands are data: the step has no derivative to route.
#[derive(Debug, Clone, Copy, PartialEq, Eq, Structural)]
pub struct Step;

impl Step {
    /// Returns the arity: two operands.
    pub fn arity(&self) -> (arity: usize)
        ensures
            arity == 2,
    {
        2
    }

    /// Returns the read set of the derivative rule: it reads no payloads: both operands are data and receive no cotangent.
    pub fn reads(&self) -> (reads: Reads)
        ensures
            reads_exactly(reads, false, false, false),
    {
        Reads::nothing()
    }

    /// Infers the shape of the result, which both operands must share.
    pub fn infer_shape(&self, operands: &[Shape]) -> (shape: Shape)
        requires
            operands@.len() == 2,
            operands@[0]@ == operands@[1]@,
        ensures
            shape@ == operands@[0]@,
    {
        let (left, _right) = binary(operands);
        left.clone()
    }
}

} // verus!
