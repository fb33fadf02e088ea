use vstd::prelude::*;

use super::{binary, reads_exactly, Reads};
use crate::shape::Shape;

verus! {

/// The elementwise maximum of two values, with operands `[left, right]`: the gradient flows to whichever operand won each position, the left one on a tie.
#[derive(Debug, Clone, Copy, PartialEq, Eq, Structural)]
pub struct Maximum;

impl Maximum {
    /// Returns the arity: two operands.
    pub fn arity(&self) -> (arity: usize)
        ensures
            arity == 2,
    {
        2
    }

    /// Returns the read set of the derivative rule: it reads both operands to mask the winners.
    pub fn reads(&self) -> (reads: Reads)
        ensures
            reads_exactly(reads, true, true, false),
    {
        Reads::of(true, true, false)
    }

    /// Infers the shape of the result, which both operands must share.
    pub fn infer_shape(&self, operands: &[Shape]) -> (shape: Shape)
        requires
            operands@.len() == 2,
            operands@[0]@ == operands@[1]@,
        ensures
            shape@ == operands@[0]@,
    {
        let (left, _right) = binary(operands);
        left.clone()
    }
}

} // verus!
