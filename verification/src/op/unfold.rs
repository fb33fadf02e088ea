use vstd::prelude::*;

use super::{reads_exactly, unary, Reads};
use crate::layout::window_count;
use crate::shape::Shape;

verus! {

/// The sliding windows of a value along one axis: the axis becomes a
/// `(count, size)` pair where window `w` starts at `w * step` and takes
/// every `dilation`-th element.
///
/// The gradient of the operand is the incoming gradient with every
/// window contribution summed back onto its source position: the
/// [`Fold`](super::fold::Fold) of the same parameters.
#[derive(Debug, Clone, Copy, PartialEq, Eq, Structural)]
pub struct Unfold {
    /// The axis the windows slide along.
    pub axis: usize,
    /// The elements per window.
    pub size: usize,
    /// The distance between window starts.
    pub step: usize,
    /// The distance between a window's elements.
    pub dilation: usize,
}

impl Unfold {
    /// Returns the arity: one operand.
    pub fn arity(&self) -> (arity: usize)
        ensures
            arity == 1,
    {
        1
    }

    /// Returns the read set of the derivative rule: it reads its operand
    /// for shape only, which a placeholder answers.
    pub fn reads(&self) -> (reads: Reads)
        ensures
            reads_exactly(reads, false, false, false),
    {
        Reads::nothing()
    }

    /// Whether the windows fit `operand`: an axis in rank, nonzero
    /// parameters, and a dilated window span within the axis extent.
    pub open spec fn accepts(&self, operand: Seq<usize>) -> bool {
        &&& self.axis < operand.len()
        &&& self.size > 0
        &&& self.step > 0
        &&& self.dilation > 0
        &&& self.dilation * (self.size - 1) + 1 <= operand[self.axis as int]
    }

    /// Infers the result shape: `axis` replaced by the `(count, size)`
    /// window pair.
    pub fn infer_shape(&self, operands: &[Shape]) -> (shape: Shape)
        requires
            operands@.len() == 1,
            self.accepts(operands@[0]@),
        ensures
            shape@ == operands@[0]@.update(
                self.axis as int,
                window_count(operands@[0]@[self.axis as int] as int, self.size as int, self.step as int,
                    self.dilation as int) as usize,
            ).insert(self.axis + 1, self.size),
    {
        let operand = unary(operands);
        let extent = operand.extent(self.axis);
        proof {
            vstd::arithmetic::mul::lemma_mul_nonnegative(self.dilation as int, self.size - 1);
            vstd::arithmetic::div_mod::lemma_div_pos_is_pos(
                (extent - self.dilation * (self.size - 1) - 1) as int, self.step as int);
        }
        let span = self.dilation * (self.size - 1) + 1;
        let count = (extent - span) / self.step + 1;
        let mut unfolded = vstd::slice::slice_to_vec(operand.axes());
        let rank = unfolded.len();
        unfolded.set(self.axis, count);
        assert(self.axis + 1 <= rank);
        unfolded.insert(self.axis + 1, self.size);
        Shape::new(unfolded)
    }
}

} // verus!
