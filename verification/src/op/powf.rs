use vstd::prelude::*;

use super::{binary, reads_exactly, Reads};
use crate::shape::Shape;

verus! {

/// A value raised to the power of another, elementwise, with operands `[base, exponent]`: the power rule for the base, the exponential rule for the exponent.
#[derive(Debug, Clone, Copy, PartialEq, Eq, Structural)]
pub struct Powf;

impl Powf {
    /// Returns the arity: two operands.
    pub fn arity(&self) -> (arity: usize)
        ensures
            arity == 2,
    {
        2
    }

    /// Returns the read set of the derivative rule: it reads both operands and its own output.
    pub fn reads(&self) -> (reads: Reads)
        ensures
            reads_exactly(reads, true, true, true),
    {
        Reads::of(true, true, true)
    }

    /// Infers the shape of the result, which both operands must share.
    pub fn infer_shape(&self, operands: &[Shape]) -> (shape: Shape)
        requires
            operands@.len() == 2,
            operands@[0]@ == operands@[1]@,
        ensures
            shape@ == operands@[0]@,
    {
        let (left, _right) = binary(operands);
        left.clone()
    }
}

} // verus!
