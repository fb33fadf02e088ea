use vstd::prelude::*;

use crate::op::map::MapOperation;
use crate::shape::Shape;

verus! {

/// The payload-free opcode of a recorded node: what the printable IR
/// shows of an operation, one variant per operation of the vocabulary,
/// each with the parameters the operation was recorded with.
#[derive(Debug)]
pub enum Opcode {
    /// A constant leaf, fixed at recording time.
    Leaf,
    /// A learnable parameter.
    Parameter,
    /// A declared per-run input.
    Input,
    /// The elementwise sum of `[left, right]`.
    Add,
    /// The elementwise difference of `[left, right]`.
    Sub,
    /// The elementwise product of `[left, right]`.
    Mul,
    /// The elementwise quotient of `[left, right]`.
    Div,
    /// The elementwise negation of the operand.
    Neg,
    /// A unary elementwise transcendental.
    ElementMap {
        /// The transcendental applied.
        operation: MapOperation,
    },
    /// The elementwise power of `[base, exponent]`.
    Powf,
    /// The elementwise maximum of `[left, right]`.
    Maximum,
    /// The Heaviside step of `[operand, threshold]`.
    Step,
    /// The matrix product of `[left, right]`.
    MatMul,
    /// The sum of every value of the operand.
    Sum,
    /// The sum of the operand along `axis`, which is removed.
    SumAlong {
        /// The reduced axis.
        axis: usize,
    },
    /// The single-value operand spread across `shape`.
    Broadcast {
        /// The target shape.
        shape: Shape,
    },
    /// The operand repeated along a new axis of `extent` at `axis`.
    BroadcastAlong {
        /// Where the new axis is inserted.
        axis: usize,
        /// The new axis's extent.
        extent: usize,
    },
    /// The operand's elements under a new shape of the same volume.
    Reshape {
        /// The new shape.
        shape: Shape,
    },
    /// The operand's axes reordered.
    Permute {
        /// The operand axis each result axis reads.
        order: Vec<usize>,
    },
    /// A window of `len` elements from `start` along `axis`.
    Narrow {
        /// The narrowed axis.
        axis: usize,
        /// The window's first position.
        start: usize,
        /// The window's length.
        len: usize,
    },
    /// The operand placed at `start` along `axis` inside zeros of
    /// `full_extent`.
    Pad {
        /// The padded axis.
        axis: usize,
        /// Where the operand starts.
        start: usize,
        /// The padded extent.
        full_extent: usize,
    },
    /// The sliding windows of the operand along `axis`.
    Unfold {
        /// The windowed axis.
        axis: usize,
        /// The window size.
        size: usize,
        /// The step between windows.
        step: usize,
        /// The spacing inside a window.
        dilation: usize,
    },
    /// The overlap-add of windows back onto an axis of `extent`.
    Fold {
        /// The window-count axis.
        axis: usize,
        /// The window size.
        size: usize,
        /// The step between windows.
        step: usize,
        /// The spacing inside a window.
        dilation: usize,
        /// The restored extent.
        extent: usize,
    },
    /// The rows of `[table, selection]` picked by the one-hot selection.
    Gather,
    /// The scatter-add of `[gradient, selection]`.
    Scatter,
    /// The log-softmax of the operand along `axis`.
    LogSoftmax {
        /// The normalized axis.
        axis: usize,
    },
    /// The fused log-sum-exp of the operand along `axis`.
    LogSumExp {
        /// The reduced axis.
        axis: usize,
    },
}

/// Whether `opcode` names a source: a node supplied rather than
/// computed.
pub open spec fn is_source_spec(opcode: Opcode) -> bool {
    opcode is Leaf || opcode is Parameter || opcode is Input
}

/// Whether `opcode` reads two operands, `[left, right]`.
pub open spec fn is_binary(opcode: Opcode) -> bool {
    ||| opcode is Add
    ||| opcode is Sub
    ||| opcode is Mul
    ||| opcode is Div
    ||| opcode is Powf
    ||| opcode is Maximum
    ||| opcode is Step
    ||| opcode is MatMul
    ||| opcode is Gather
    ||| opcode is Scatter
}

/// The number of operand links a node of `opcode` carries.
pub open spec fn arity_spec(opcode: Opcode) -> nat {
    if is_source_spec(opcode) {
        0
    } else if is_binary(opcode) {
        2
    } else {
        1
    }
}

impl Opcode {
    /// Returns the number of operand links this opcode expects: none for
    /// a source, two for a binary operation, one otherwise.
    pub fn arity(&self) -> (arity: usize)
        ensures
            arity == arity_spec(*self),
    {
        match self {
            Opcode::Leaf | Opcode::Parameter | Opcode::Input => 0,
            Opcode::Add
            | Opcode::Sub
            | Opcode::Mul
            | Opcode::Div
            | Opcode::Powf
            | Opcode::Maximum
            | Opcode::Step
            | Opcode::MatMul
            | Opcode::Gather
            | Opcode::Scatter => 2,
            _ => 1,
        }
    }

    /// Returns whether this opcode is a source -- `Leaf`, `Parameter` or
    /// `Input` -- whose payload is supplied, not computed. A source is
    /// exactly an opcode of no operands.
    pub fn is_source(&self) -> (source: bool)
        ensures
            source == is_source_spec(*self),
            source <==> arity_spec(*self) == 0,
    {
        match self {
            Opcode::Leaf | Opcode::Parameter | Opcode::Input => true,
            _ => false,
        }
    }
}

} // verus!
