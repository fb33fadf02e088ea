use vstd::prelude::*;

use super::{reads_exactly, unary, Reads};
use crate::layout::window_count;
use crate::shape::Shape;

verus! {

/// The `(count, size)` window pair at `axis`, `axis + 1` folded back
/// onto an axis of `extent`: [`Unfold`](super::unfold::Unfold)'s
/// adjoint, each source position summing the window elements read from
/// it. The gradient of the operand is the incoming gradient unfolded by
/// the same parameters.
#[derive(Debug, Clone, Copy, PartialEq, Eq, Structural)]
pub struct Fold {
    /// The axis holding the window count.
    pub axis: usize,
    /// The elements per window.
    pub size: usize,
    /// The distance between window starts.
    pub step: usize,
    /// The distance between a window's elements.
    pub dilation: usize,
    /// The extent the windows fold back onto.
    pub extent: usize,
}

impl Fold {
    /// Returns the arity: one operand.
    pub fn arity(&self) -> (arity: usize)
        ensures
            arity == 1,
    {
        1
    }

    /// Returns the read set of the derivative rule: it reads no
    /// payloads, the cotangent unfolds by the parameters.
    pub fn reads(&self) -> (reads: Reads)
        ensures
            reads_exactly(reads, false, false, false),
    {
        Reads::nothing()
    }

    /// Whether the fold's parameters describe windows that fit
    /// `extent`, and `operand` holds exactly the `(count, size)` pair
    /// unfolding an `extent` axis by them produces.
    pub open spec fn accepts(&self, operand: Seq<usize>) -> bool {
        &&& self.axis + 1 < operand.len()
        &&& self.size > 0
        &&& self.step > 0
        &&& self.dilation > 0
        &&& self.dilation * (self.size - 1) + 1 <= self.extent
        &&& operand[self.axis as int] == window_count(
            self.extent as int, self.size as int, self.step as int, self.dilation as int)
        &&& operand[self.axis + 1] == self.size
    }

    /// Infers the result shape: the `(count, size)` pair at `axis`
    /// replaced by `extent`, requiring the operand pair to be exactly
    /// what unfolding an `extent` axis by these parameters produces.
    pub fn infer_shape(&self, operands: &[Shape]) -> (shape: Shape)
        requires
            operands@.len() == 1,
            self.accepts(operands@[0]@),
        ensures
            shape@ == operands@[0]@.update(self.axis as int, self.extent).remove(self.axis + 1),
    {
        let operand = unary(operands);
        let mut folded = vstd::slice::slice_to_vec(operand.axes());
        let rank = folded.len();
        folded.set(self.axis, self.extent);
        assert(self.axis + 1 < rank);
        folded.remove(self.axis + 1);
        Shape::new(folded)
    }
}

} // verus!
