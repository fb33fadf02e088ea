use vstd::prelude::*;

use super::{binary, reads_exactly, Reads};
use crate::shape::Shape;

verus! {

/// An embedding-style row gather with operands `[table, selection]`:
/// `output[i] = table[selection[i]]`, where the selection is a one-hot
/// `[count, vocab]` payload whose vocabulary is the table's first axis.
///
/// The gradient flows only to the table as a scatter-add; the selection
/// is data, not a differentiable value.
#[derive(Debug, Clone, Copy, PartialEq, Eq, Structural)]
pub struct Gather;

impl Gather {
    /// Returns the arity: two operands.
    pub fn arity(&self) -> (arity: usize)
        ensures
            arity == 2,
    {
        2
    }

    /// Returns the read set of the derivative rule: it reads the
    /// selection payload (the scatter needs its indices); the table
    /// contributes nothing.
    pub fn reads(&self) -> (reads: Reads)
        ensures
            reads_exactly(reads, false, true, false),
    {
        Reads::of(false, true, false)
    }

    /// Infers the result shape `[count, ...table.shape[1..]]`, requiring
    /// the selection to be rank 2 and its vocabulary to match the
    /// table's rows.
    pub fn infer_shape(&self, operands: &[Shape]) -> (shape: Shape)
        requires
            operands@.len() == 2,
            operands@[1]@.len() == 2,
            operands@[0]@.len() >= 1,
            operands@[1]@[1] == operands@[0]@[0],
        ensures
            shape@ == seq![operands@[1]@[0]] + operands@[0]@.subrange(1, operands@[0]@.len() as int),
    {
        let (table, selection) = binary(operands);
        let table_axes = table.axes();
        let mut axes: Vec<usize> = Vec::new();
        axes.push(selection.axes()[0]);
        let mut axis: usize = 1;
        assert(axes@ =~= seq![operands@[1]@[0]] + table_axes@.subrange(1, 1));
        while axis < table_axes.len()
            invariant
                table_axes@ == operands@[0]@,
                1 <= axis <= table_axes@.len(),
                axes@ == seq![operands@[1]@[0]] + table_axes@.subrange(1, axis as int),
            decreases table_axes@.len() - axis,
        {
            axes.push(table_axes[axis]);
            axis = axis + 1;
            assert(axes@ =~= seq![operands@[1]@[0]] + table_axes@.subrange(1, axis as int));
        }
        Shape::new(axes)
    }
}

} // verus!
