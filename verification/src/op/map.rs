use vstd::prelude::*;

use super::{reads_exactly, unary, Reads};
use crate::shape::Shape;

verus! {

/// The unary elementwise transcendentals: the vocabulary the IR and the
/// backend map seam share.
#[derive(Debug, Clone, Copy, PartialEq, Eq, Hash, Structural)]
pub enum MapOperation {
    /// `e` raised to the element.
    Exp,
    /// The natural logarithm.
    Ln,
    /// The square root.
    Sqrt,
    /// The hyperbolic tangent.
    Tanh,
    /// The sine.
    Sin,
    /// The cosine.
    Cos,
    /// `ln(1 + x)`, accurate near zero.
    Log1p,
    /// `e^x - 1`, accurate near zero.
    Expm1,
    /// The error function.
    Erf,
    /// The derivative of the error function, `(2/sqrt(pi)) * e^(-x^2)`.
    ErfDerivative,
}

/// A unary elementwise transcendental of a value: one node kind
/// carrying the [`MapOperation`] it applies. A map always keeps its
/// operand's shape.
#[derive(Debug, Clone, Copy, PartialEq, Eq, Structural)]
pub struct ElementMap {
    /// The transcendental applied.
    pub op: MapOperation,
}

/// Whether the derivative rule of `operation` reuses the node's own
/// output: `Exp`, `Sqrt`, `Tanh`, `Expm1`, and `ErfDerivative`.
pub open spec fn reads_own_output(operation: MapOperation) -> bool {
    match operation {
        MapOperation::Exp | MapOperation::Sqrt | MapOperation::Tanh | MapOperation::Expm1
        | MapOperation::ErfDerivative => true,
        _ => false,
    }
}

/// Whether the derivative rule of `operation` reads the operand: `Ln`,
/// `Sin`, `Cos`, `Log1p`, `Erf`, and `ErfDerivative`.
pub open spec fn reads_operand(operation: MapOperation) -> bool {
    match operation {
        MapOperation::Ln | MapOperation::Sin | MapOperation::Cos | MapOperation::Log1p
        | MapOperation::Erf | MapOperation::ErfDerivative => true,
        _ => false,
    }
}

impl ElementMap {
    /// Returns the arity: one operand.
    pub fn arity(&self) -> (arity: usize)
        ensures
            arity == 1,
    {
        1
    }

    /// Returns the read set of the derivative rules, per operation:
    /// `Exp`, `Sqrt`, `Tanh`, and `Expm1` reuse their own output; `Ln`,
    /// `Sin`, `Cos`, `Log1p`, and `Erf` read their operand;
    /// `ErfDerivative` reads both.
    pub fn reads(&self) -> (reads: Reads)
        ensures
            reads_exactly(reads, reads_operand(self.op), false, reads_own_output(self.op)),
    {
        match self.op {
            MapOperation::Exp | MapOperation::Sqrt | MapOperation::Tanh | MapOperation::Expm1 => {
                Reads::of(false, false, true)
            },
            MapOperation::Ln | MapOperation::Sin | MapOperation::Cos | MapOperation::Log1p
            | MapOperation::Erf => Reads::of(true, false, false),
            MapOperation::ErfDerivative => Reads::of(true, false, true),
        }
    }

    /// Infers the shape of the result: the operand's shape.
    pub fn infer_shape(&self, operands: &[Shape]) -> (shape: Shape)
        requires
            operands@.len() == 1,
        ensures
            shape@ == operands@[0]@,
    {
        unary(operands).clone()
    }
}

} // verus!
