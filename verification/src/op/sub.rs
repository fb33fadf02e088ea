use vstd::prelude::*;

use super::{binary, reads_exactly, Reads};
use crate::shape::Shape;

verus! {

/// The difference of two values, with operands `[left, right]`: the left operand receives the gradient, the right its negation.
#[derive(Debug, Clone, Copy, PartialEq, Eq, Structural)]
pub struct Sub;

impl Sub {
    /// Returns the arity: two operands.
    pub fn arity(&self) -> (arity: usize)
        ensures
            arity == 2,
    {
        2
    }

    /// Returns the read set of the derivative rule: it reads no payloads, the cotangents being the gradient and its negation.
    pub fn reads(&self) -> (reads: Reads)
        ensures
            reads_exactly(reads, false, false, false),
    {
        Reads::of(false, false, false)
    }

    /// Infers the shape of the result, which both operands must share.
    pub fn infer_shape(&self, operands: &[Shape]) -> (shape: Shape)
        requires
            operands@.len() == 2,
            operands@[0]@ == operands@[1]@,
        ensures
            shape@ == operands@[0]@,
    {
        let (left, _right) = binary(operands);
        left.clone()
    }
}

} // verus!
