use vstd::prelude::*;

use super::{binary, reads_exactly, Reads};
use crate::shape::Shape;

verus! {

/// The matrix product of two values, with operands `[left, right]`.
///
/// Operands of rank above two multiply batched: the trailing two axes
/// contract as the plain product and every leading axis is a batch
/// axis, required identical on both operands. The gradient routes
/// through the transposed operands.
#[derive(Debug, Clone, Copy, PartialEq, Eq, Structural)]
pub struct MatMul;

/// Whether `[b..., m, k] . [b..., k, n]` is a valid product: rank two
/// or higher, equal ranks, equal batch prefixes, and agreeing inner
/// extents.
pub open spec fn multipliable(left: Seq<usize>, right: Seq<usize>) -> bool {
    &&& left.len() >= 2
    &&& left.len() == right.len()
    &&& left.subrange(0, left.len() - 2) == right.subrange(0, right.len() - 2)
    &&& left[left.len() - 1] == right[right.len() - 2]
}

impl MatMul {
    /// Returns the arity: two operands.
    pub fn arity(&self) -> (arity: usize)
        ensures
            arity == 2,
    {
        2
    }

    /// Returns the read set of the derivative rule: it reads both
    /// operand payloads for the transposed products.
    pub fn reads(&self) -> (reads: Reads)
        ensures
            reads_exactly(reads, true, true, false),
    {
        Reads::of(true, true, false)
    }

    /// Infers the shape of a `[b..., m, k] . [b..., k, n]` product:
    /// `[b..., m, n]`, with the batch prefix `b...` (empty for the plain
    /// rank-2 product) required identical on both operands.
    pub fn infer_shape(&self, operands: &[Shape]) -> (shape: Shape)
        requires
            operands@.len() == 2,
            multipliable(operands@[0]@, operands@[1]@),
        ensures
            shape@ == operands@[0]@.subrange(0, operands@[0]@.len() - 1).push(
                operands@[1]@[operands@[1]@.len() - 1],
            ),
    {
        let (left, right) = binary(operands);
        let left_axes = left.axes();
        let right_axes = right.axes();
        let split = left_axes.len() - 2;
        let mut axes = vstd::slice::slice_to_vec(vstd::slice::slice_subrange(left_axes, 0, split + 1));
        axes.push(right_axes[split + 1]);
        Shape::new(axes)
    }
}

/// Returns the axis order that swaps the trailing two axes of a rank
/// `rank` value and keeps the rest: the batched transpose a matmul
/// gradient routes through.
pub fn swapped_order(rank: usize) -> (order: Vec<usize>)
    requires
        rank >= 2,
    ensures
        order@.len() == rank,
        forall|i: int| 0 <= i < rank - 2 ==> #[trigger] order@[i] == i,
        order@[rank - 2] == rank - 1,
        order@[rank - 1] == rank - 2,
{
    let mut order: Vec<usize> = Vec::new();
    let mut axis: usize = 0;
    while axis < rank
        invariant
            axis <= rank,
            order@.len() == axis,
            forall|i: int| 0 <= i < axis ==> #[trigger] order@[i] == i,
        decreases rank - axis,
    {
        order.push(axis);
        axis = axis + 1;
    }
    order.set(rank - 2, rank - 1);
    order.set(rank - 1, rank - 2);
    order
}

} // verus!
