use vstd::prelude::*;

use super::{reads_exactly, unary, Reads};
use crate::shape::{fits, volume_of, Shape};

verus! {

/// A reshape of a value to a new shape of the same volume.
///
/// Reshaping preserves logical row-major order, so it is a bijection on
/// elements: the gradient of the operand is the incoming gradient
/// reshaped back to the operand's own shape.
#[derive(Debug, Clone, PartialEq, Eq)]
pub struct Reshape {
    /// The requested shape.
    pub shape: Shape,
}

impl Reshape {
    /// Returns the arity: one operand.
    pub fn arity(&self) -> (arity: usize)
        ensures
            arity == 1,
    {
        1
    }

    /// Returns the read set of the derivative rule: it reads its operand
    /// for shape only, which a placeholder answers.
    pub fn reads(&self) -> (reads: Reads)
        ensures
            reads_exactly(reads, false, false, false),
    {
        Reads::nothing()
    }

    /// Infers the result shape: the requested shape, which must match
    /// the operand's volume.
    pub fn infer_shape(&self, operands: &[Shape]) -> (shape: Shape)
        requires
            operands@.len() == 1,
            fits(operands@[0]@),
            fits(self.shape@),
            volume_of(operands@[0]@) == volume_of(self.shape@),
        ensures
            shape@ == self.shape@,
    {
        let operand = unary(operands);
        let from = operand.volume();
        let to = self.shape.volume();
        assert(from == to);
        self.shape.clone()
    }
}

} // verus!
