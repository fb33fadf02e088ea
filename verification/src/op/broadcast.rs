use vstd::prelude::*;

use super::{reads_exactly, unary, Reads};
use crate::shape::{fits, volume_of, Shape};

verus! {

/// The explicit broadcast of a single-value payload across a target
/// shape carried by the operation itself.
///
/// The target shape is a recorded parameter, never an alignment rule
/// and never an operand. Broadcasting and summation are adjoint, so the
/// operand's gradient is the sum of the incoming gradient, restored to
/// the operand's own single-value shape.
#[derive(Debug, Clone, PartialEq, Eq)]
pub struct Broadcast {
    /// The target shape.
    pub shape: Shape,
}

impl Broadcast {
    /// Returns the arity: one operand.
    pub fn arity(&self) -> (arity: usize)
        ensures
            arity == 1,
    {
        1
    }

    /// Returns the read set of the derivative rule: it reads its operand
    /// for shape only, which a placeholder answers.
    pub fn reads(&self) -> (reads: Reads)
        ensures
            reads_exactly(reads, false, false, false),
    {
        Reads::nothing()
    }

    /// Infers the shape of the result: the carried target shape,
    /// reachable only from a single-value operand.
    pub fn infer_shape(&self, operands: &[Shape]) -> (shape: Shape)
        requires
            operands@.len() == 1,
            fits(operands@[0]@),
            volume_of(operands@[0]@) == 1,
        ensures
            shape@ == self.shape@,
    {
        let operand = unary(operands);
        let volume = operand.volume();
        assert(volume == 1);
        self.shape.clone()
    }
}

} // verus!
