use vstd::prelude::*;

use super::{binary, reads_exactly, Reads};
use crate::shape::Shape;

verus! {

/// The product of two values, with operands `[left, right]`. The derivative with respect to each operand is the other operand.
#[derive(Debug, Clone, Copy, PartialEq, Eq, Structural)]
pub struct Mul;

impl Mul {
    /// Returns the arity: two operands.
    pub fn arity(&self) -> (arity: usize)
        ensures
            arity == 2,
    {
        2
    }

    /// Returns the read set of the derivative rule: it reads both operand payloads, each side's cotangent scaling by the other.
    pub fn reads(&self) -> (reads: Reads)
        ensures
            reads_exactly(reads, true, true, false),
    {
        Reads::of(true, true, false)
    }

    /// Infers the shape of the result, which both operands must share.
    pub fn infer_shape(&self, operands: &[Shape]) -> (shape: Shape)
        requires
            operands@.len() == 2,
            operands@[0]@ == operands@[1]@,
        ensures
            shape@ == operands@[0]@,
    {
        let (left, _right) = binary(operands);
        left.clone()
    }
}

} // verus!
