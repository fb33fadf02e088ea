//! The closed set of recorded operations, dispatched by a plain `match`.

use vstd::prelude::*;

use super::broadcast::Broadcast;
use super::broadcast_along::BroadcastAlong;
use super::fold::Fold;
use super::gather::Gather;
use super::input::Input;
use super::log_softmax::LogSoftmax;
use super::log_sum_exp::LogSumExp;
use super::map::{ElementMap, MapOperation};
use super::matmul::MatMul;
use super::maximum::Maximum;
use super::mul::Mul;
use super::parameter::Parameter;
use super::permute::Permute;
use super::powf::Powf;
use super::reshape::Reshape;
use super::slot::SlotId;
use super::step::Step;
use super::sub::Sub;
use super::unfold::Unfold;
use super::matmul::multipliable;
use super::permute::{is_permutation, permuted};
use super::{binary, reads_exactly, unary, Reads};
use super::map::{reads_operand, reads_own_output};
use crate::graph::opcode::{arity_spec, is_source_spec, Opcode};
use crate::inline::Strides;
use crate::layout::window_count;
use crate::shape::{fits, volume_of, Shape};
use crate::tensor::Tensor;

verus! {

/// A constant leaf: the payload fixed at recording time.
#[derive(Debug, Clone)]
pub struct Leaf<Data>(pub Data);

/// The elementwise sum of the `[left, right]` operands.
#[derive(Debug, Clone, Copy)]
pub struct Add;

/// The elementwise quotient of the `[left, right]` operands.
#[derive(Debug, Clone, Copy)]
pub struct Div;

/// The elementwise negation of the single operand.
#[derive(Debug, Clone, Copy)]
pub struct Neg;

/// The sum of every value of the single operand.
#[derive(Debug, Clone, Copy)]
pub struct Sum;

/// The sum of the single operand along `axis`.
#[derive(Debug, Clone, Copy)]
pub struct SumAlong {
    /// The reduced axis.
    pub axis: usize,
}

/// The window of `len` elements from `start` along `axis` of the single
/// operand.
#[derive(Debug, Clone, Copy)]
pub struct Narrow {
    /// The narrowed axis.
    pub axis: usize,
    /// The window's first position.
    pub start: usize,
    /// The window's length.
    pub len: usize,
}

/// The single operand placed at `start` along `axis` inside zeros of
/// `full_extent`.
#[derive(Debug, Clone, Copy)]
pub struct Pad {
    /// The padded axis.
    pub axis: usize,
    /// Where the operand starts.
    pub start: usize,
    /// The padded extent.
    pub full_extent: usize,
}

/// The scatter-add of `[gradient, selection]` into the selection's
/// vocabulary rows.
#[derive(Debug, Clone, Copy)]
pub struct Scatter;

impl Add {
    /// Infers the result shape: both operands must agree, and the sum
    /// keeps their shape.
    pub fn infer_shape(&self, operands: &[Shape]) -> (shape: Shape)
        requires
            operands@.len() == 2,
            operands@[0]@ == operands@[1]@,
        ensures
            shape@ == operands@[0]@,
    {
        let (left, _right) = binary(operands);
        left.clone()
    }
}

impl Div {
    /// Infers the result shape: both operands must agree, and the
    /// quotient keeps their shape.
    pub fn infer_shape(&self, operands: &[Shape]) -> (shape: Shape)
        requires
            operands@.len() == 2,
            operands@[0]@ == operands@[1]@,
        ensures
            shape@ == operands@[0]@,
    {
        let (left, _right) = binary(operands);
        left.clone()
    }
}

impl Neg {
    /// Infers the result shape: the negation keeps the operand's shape.
    pub fn infer_shape(&self, operands: &[Shape]) -> (shape: Shape)
        requires
            operands@.len() == 1,
        ensures
            shape@ == operands@[0]@,
    {
        unary(operands).clone()
    }
}

impl Sum {
    /// Infers the result shape: the sum of every value is a scalar.
    pub fn infer_shape(&self, operands: &[Shape]) -> (shape: Shape)
        requires
            operands@.len() == 1,
        ensures
            shape@ == Seq::<usize>::empty(),
    {
        Shape::scalar()
    }
}

impl SumAlong {
    /// Infers the result shape: the reduced axis, which must be in rank,
    /// is removed.
    pub fn infer_shape(&self, operands: &[Shape]) -> (shape: Shape)
        requires
            operands@.len() == 1,
            self.axis < operands@[0]@.len(),
        ensures
            shape@ == operands@[0]@.remove(self.axis as int),
    {
        unary(operands).without_axis(self.axis)
    }
}

impl Narrow {
    /// Infers the result shape: the axis, which must be in rank, shrinks
    /// to the window's length, which must be positive and end within the
    /// axis.
    pub fn infer_shape(&self, operands: &[Shape]) -> (shape: Shape)
        requires
            operands@.len() == 1,
            self.axis < operands@[0]@.len(),
            self.len > 0,
            self.start + self.len <= operands@[0]@[self.axis as int],
        ensures
            shape@ == operands@[0]@.update(self.axis as int, self.len),
    {
        let mut axes = vstd::slice::slice_to_vec(unary(operands).axes());
        axes.set(self.axis, self.len);
        Shape::new(axes)
    }
}

impl Pad {
    /// Infers the result shape: the axis, which must be in rank, grows to
    /// the full extent, which must hold the operand from `start` on.
    pub fn infer_shape(&self, operands: &[Shape]) -> (shape: Shape)
        requires
            operands@.len() == 1,
            self.axis < operands@[0]@.len(),
            self.start + operands@[0]@[self.axis as int] <= self.full_extent,
        ensures
            shape@ == operands@[0]@.update(self.axis as int, self.full_extent),
    {
        let mut axes = vstd::slice::slice_to_vec(unary(operands).axes());
        axes.set(self.axis, self.full_extent);
        Shape::new(axes)
    }
}

impl Scatter {
    /// Infers the result shape of `[gradient, selection]`: one row per
    /// vocabulary entry of the `[count, vocab]` selection, the gradient
    /// holding one row per selected index.
    pub fn infer_shape(&self, operands: &[Shape]) -> (shape: Shape)
        requires
            operands@.len() == 2,
            operands@[0]@.len() >= 1,
            operands@[1]@.len() == 2,
            operands@[0]@[0] == operands@[1]@[0],
        ensures
            shape@ == operands@[0]@.update(0, operands@[1]@[1]),
    {
        let (gradient, selection) = binary(operands);
        let mut axes = vstd::slice::slice_to_vec(gradient.axes());
        axes.set(0, selection.extent(1));
        Shape::new(axes)
    }
}

/// The differentiable operation that produced a value, together with the
/// operation's parameters.
///
/// It is a statically sized closed set: each variant owns exactly its
/// parameters (a leaf's payload, a parameter's slot, a reduction's
/// axis), while the node's operand links live beside the node on the
/// tape. The enum dispatches to the variants with a plain `match`.
#[derive(Debug)]
pub enum Op<Data> {
    Leaf(Leaf<Data>),
    Parameter(Parameter),
    Input(Input),
    Add(Add),
    Sub(Sub),
    Mul(Mul),
    Div(Div),
    Neg(Neg),
    ElementMap(ElementMap),
    MatMul(MatMul),
    Sum(Sum),
    SumAlong(SumAlong),
    Broadcast(Broadcast),
    BroadcastAlong(BroadcastAlong),
    Reshape(Reshape),
    Permute(Permute),
    Narrow(Narrow),
    Pad(Pad),
    Unfold(Unfold),
    Fold(Fold),
    Gather(Gather),
    Scatter(Scatter),
    LogSoftmax(LogSoftmax),
    LogSumExp(LogSumExp),
    Powf(Powf),
    Maximum(Maximum),
    Step(Step),
}

/// The number of operand links each operation expects: the operation
/// side of the arity table, kept beside the opcode side.
pub open spec fn op_arity<Data>(op: Op<Data>) -> nat {
    match op {
        Op::Leaf(_) | Op::Parameter(_) | Op::Input(_) => 0,
        Op::Add(_) | Op::Sub(_) | Op::Mul(_) | Op::Div(_) => 2,
        Op::Neg(_) | Op::ElementMap(_) => 1,
        Op::MatMul(_) => 2,
        Op::Sum(_) | Op::SumAlong(_) | Op::Broadcast(_) | Op::BroadcastAlong(_) => 1,
        Op::Reshape(_) | Op::Permute(_) | Op::Narrow(_) | Op::Pad(_) | Op::Unfold(_) | Op::Fold(_) => 1,
        Op::Gather(_) | Op::Scatter(_) => 2,
        Op::LogSoftmax(_) | Op::LogSumExp(_) => 1,
        Op::Powf(_) | Op::Maximum(_) | Op::Step(_) => 2,
    }
}

/// Whether `opcode` is the payload-free snapshot of `op`: the same
/// variant with the same parameters.
pub open spec fn snapshot_of<Data>(op: Op<Data>, opcode: Opcode) -> bool {
    match op {
        Op::Leaf(_) => opcode is Leaf,
        Op::Parameter(_) => opcode is Parameter,
        Op::Input(_) => opcode is Input,
        Op::Add(_) => opcode is Add,
        Op::Sub(_) => opcode is Sub,
        Op::Mul(_) => opcode is Mul,
        Op::Div(_) => opcode is Div,
        Op::Neg(_) => opcode is Neg,
        Op::ElementMap(map) => opcode matches Opcode::ElementMap { operation } && operation == map.op,
        Op::MatMul(_) => opcode is MatMul,
        Op::Sum(_) => opcode is Sum,
        Op::SumAlong(sum_along) => opcode matches Opcode::SumAlong { axis } && axis == sum_along.axis,
        Op::Broadcast(broadcast) => opcode matches Opcode::Broadcast { shape } && shape@ == broadcast.shape@,
        Op::BroadcastAlong(broadcast_along) => opcode matches Opcode::BroadcastAlong { axis, extent }
            && axis == broadcast_along.axis && extent == broadcast_along.extent,
        Op::Reshape(reshape) => opcode matches Opcode::Reshape { shape } && shape@ == reshape.shape@,
        Op::Permute(permute) => opcode matches Opcode::Permute { order } && order@ == permute.order@,
        Op::Narrow(narrow) => opcode matches Opcode::Narrow { axis, start, len }
            && axis == narrow.axis && start == narrow.start && len == narrow.len,
        Op::Pad(pad) => opcode matches Opcode::Pad { axis, start, full_extent }
            && axis == pad.axis && start == pad.start && full_extent == pad.full_extent,
        Op::Unfold(unfold) => opcode matches Opcode::Unfold { axis, size, step, dilation }
            && axis == unfold.axis && size == unfold.size && step == unfold.step && dilation == unfold.dilation,
        Op::Fold(fold) => opcode matches Opcode::Fold { axis, size, step, dilation, extent }
            && axis == fold.axis && size == fold.size && step == fold.step && dilation == fold.dilation
            && extent == fold.extent,
        Op::Gather(_) => opcode is Gather,
        Op::Scatter(_) => opcode is Scatter,
        Op::LogSoftmax(log_softmax) => opcode matches Opcode::LogSoftmax { axis } && axis == log_softmax.axis,
        Op::LogSumExp(log_sum_exp) => opcode matches Opcode::LogSumExp { axis } && axis == log_sum_exp.axis,
        Op::Powf(_) => opcode is Powf,
        Op::Maximum(_) => opcode is Maximum,
        Op::Step(_) => opcode is Step,
    }
}

impl<Data> Op<Data> {
    /// Returns the public opcode of this op: the payload-free snapshot the
    /// IR view prints, one variant per variant here.
    pub fn opcode(&self) -> (opcode: Opcode)
        ensures
            snapshot_of(*self, opcode),
    {
        match self {
            Op::Leaf(_) => Opcode::Leaf,
            Op::Parameter(_) => Opcode::Parameter,
            Op::Input(_) => Opcode::Input,
            Op::Add(_) => Opcode::Add,
            Op::Sub(_) => Opcode::Sub,
            Op::Mul(_) => Opcode::Mul,
            Op::Div(_) => Opcode::Div,
            Op::Neg(_) => Opcode::Neg,
            Op::ElementMap(map) => Opcode::ElementMap { operation: map.op },
            Op::MatMul(_) => Opcode::MatMul,
            Op::Sum(_) => Opcode::Sum,
            Op::SumAlong(sum_along) => Opcode::SumAlong { axis: sum_along.axis },
            Op::Broadcast(broadcast) => Opcode::Broadcast { shape: broadcast.shape.clone() },
            Op::BroadcastAlong(broadcast_along) => Opcode::BroadcastAlong {
                axis: broadcast_along.axis,
                extent: broadcast_along.extent,
            },
            Op::Reshape(reshape) => Opcode::Reshape { shape: reshape.shape.clone() },
            Op::Permute(permute) => Opcode::Permute { order: vstd::slice::slice_to_vec(permute.order.as_slice()) },
            Op::Narrow(narrow) => Opcode::Narrow { axis: narrow.axis, start: narrow.start, len: narrow.len },
            Op::Pad(pad) => Opcode::Pad { axis: pad.axis, start: pad.start, full_extent: pad.full_extent },
            Op::Unfold(unfold) => Opcode::Unfold {
                axis: unfold.axis,
                size: unfold.size,
                step: unfold.step,
                dilation: unfold.dilation,
            },
            Op::Fold(fold) => Opcode::Fold {
                axis: fold.axis,
                size: fold.size,
                step: fold.step,
                dilation: fold.dilation,
                extent: fold.extent,
            },
            Op::Gather(_) => Opcode::Gather,
            Op::Scatter(_) => Opcode::Scatter,
            Op::LogSoftmax(log_softmax) => Opcode::LogSoftmax { axis: log_softmax.axis },
            Op::LogSumExp(log_sum_exp) => Opcode::LogSumExp { axis: log_sum_exp.axis },
            Op::Step(_) => Opcode::Step,
            Op::Powf(_) => Opcode::Powf,
            Op::Maximum(_) => Opcode::Maximum,
        }
    }

    /// Returns the number of operand links this op expects. Sources have
    /// none; recording checks every node's operand list against this
    /// count.
    pub fn arity(&self) -> (arity: usize)
        ensures
            arity == op_arity(*self),
    {
        match self {
            Op::Leaf(_) | Op::Parameter(_) | Op::Input(_) => 0,
            Op::Add(_) => 2,
            Op::Sub(sub) => sub.arity(),
            Op::Mul(mul) => mul.arity(),
            Op::Div(_) => 2,
            Op::Neg(_) => 1,
            Op::ElementMap(map) => map.arity(),
            Op::MatMul(matmul) => matmul.arity(),
            Op::Sum(_) => 1,
            Op::SumAlong(_) => 1,
            Op::Broadcast(broadcast) => broadcast.arity(),
            Op::BroadcastAlong(broadcast_along) => broadcast_along.arity(),
            Op::Reshape(reshape) => reshape.arity(),
            Op::Permute(permute) => permute.arity(),
            Op::Narrow(_) => 1,
            Op::Pad(_) => 1,
            Op::Unfold(unfold) => unfold.arity(),
            Op::Gather(gather) => gather.arity(),
            Op::LogSoftmax(log_softmax) => log_softmax.arity(),
            Op::LogSumExp(log_sum_exp) => log_sum_exp.arity(),
            Op::Step(step) => step.arity(),
            Op::Fold(fold) => fold.arity(),
            Op::Scatter(_) => 2,
            Op::Powf(powf) => powf.arity(),
            Op::Maximum(maximum) => maximum.arity(),
        }
    }
}

impl<Data> Op<Data> {
    /// Creates a leaf op holding `data`.
    pub fn leaf(data: Data) -> (op: Op<Data>)
        ensures
            op matches Op::Leaf(leaf) && leaf.0 == data,
    {
        Op::Leaf(Leaf(data))
    }

    /// Creates a parameter op referencing `slot`.
    pub fn parameter(slot: SlotId) -> (op: Op<Data>)
        ensures
            op matches Op::Parameter(parameter) && parameter.0 == slot,
    {
        Op::Parameter(Parameter(slot))
    }

    /// Creates an input op referencing `slot`.
    pub fn input(slot: SlotId) -> (op: Op<Data>)
        ensures
            op matches Op::Input(input) && input.0 == slot,
    {
        Op::Input(Input(slot))
    }

    /// Creates the unary elementwise transcendental `operation` of the
    /// single operand.
    pub fn map(operation: MapOperation) -> (op: Op<Data>)
        ensures
            op matches Op::ElementMap(map) && map.op == operation,
    {
        Op::ElementMap(ElementMap { op: operation })
    }

    /// Creates the sum of the single operand along `axis`.
    pub fn sum_along(axis: usize) -> (op: Op<Data>)
        ensures
            op matches Op::SumAlong(sum_along) && sum_along.axis == axis,
    {
        Op::SumAlong(SumAlong { axis })
    }

    /// Creates the explicit broadcast of the single-value operand across
    /// `shape`.
    pub fn broadcast(shape: Shape) -> (op: Op<Data>)
        ensures
            op matches Op::Broadcast(broadcast) && broadcast.shape@ == shape@,
    {
        Op::Broadcast(Broadcast { shape })
    }

    /// Creates the repetition of the single operand along a new axis of
    /// `extent` inserted at `axis`.
    pub fn broadcast_along(axis: usize, extent: usize) -> (op: Op<Data>)
        ensures
            op matches Op::BroadcastAlong(broadcast_along) && broadcast_along.axis == axis && broadcast_along.extent == extent,
    {
        Op::BroadcastAlong(BroadcastAlong { axis, extent })
    }

    /// Creates the reshape of the single operand to `shape`.
    pub fn reshape(shape: Shape) -> (op: Op<Data>)
        ensures
            op matches Op::Reshape(reshape) && reshape.shape@ == shape@,
    {
        Op::Reshape(Reshape { shape })
    }

    /// Creates the permutation of the single operand's axes by `order`.
    pub fn permute(order: Vec<usize>) -> (op: Op<Data>)
        ensures
            op matches Op::Permute(permute) && permute.order@ == order@,
    {
        Op::Permute(Permute { order: Strides::from_vec(order) })
    }

    /// Creates the window of `len` elements from `start` along `axis` of
    /// the single operand.
    pub fn narrow(axis: usize, start: usize, len: usize) -> (op: Op<Data>)
        ensures
            op matches Op::Narrow(narrow) && narrow.axis == axis && narrow.start == start && narrow.len == len,
    {
        Op::Narrow(Narrow { axis, start, len })
    }

    /// Creates the single operand placed at `start` along `axis` inside
    /// zeros of `full_extent`.
    pub fn pad(axis: usize, start: usize, full_extent: usize) -> (op: Op<Data>)
        ensures
            op matches Op::Pad(pad) && pad.axis == axis && pad.start == start && pad.full_extent == full_extent,
    {
        Op::Pad(Pad { axis, start, full_extent })
    }

    /// Creates the sliding windows of the single operand along `axis`:
    /// `size` elements every `dilation` steps, one window every `step`.
    pub fn unfold(axis: usize, size: usize, step: usize, dilation: usize) -> (op: Op<Data>)
        ensures
            op matches Op::Unfold(unfold) && unfold.axis == axis && unfold.size == size && unfold.step == step
                && unfold.dilation == dilation,
    {
        Op::Unfold(Unfold { axis, size, step, dilation })
    }

    /// Creates the fold of the operand's `(count, size)` pair at `axis`
    /// back onto an axis of `extent`.
    pub fn fold(axis: usize, size: usize, step: usize, dilation: usize, extent: usize) -> (op: Op<Data>)
        ensures
            op matches Op::Fold(fold) && fold.axis == axis && fold.size == size && fold.step == step
                && fold.dilation == dilation && fold.extent == extent,
    {
        Op::Fold(Fold { axis, size, step, dilation, extent })
    }

    /// Creates the log-softmax of the single operand along `axis`.
    pub fn log_softmax(axis: usize) -> (op: Op<Data>)
        ensures
            op matches Op::LogSoftmax(log_softmax) && log_softmax.axis == axis,
    {
        Op::LogSoftmax(LogSoftmax { axis })
    }

    /// Creates the fused log-sum-exp of the operand along `axis`.
    pub fn log_sum_exp(axis: usize) -> (op: Op<Data>)
        ensures
            op matches Op::LogSumExp(log_sum_exp) && log_sum_exp.axis == axis,
    {
        Op::LogSumExp(LogSumExp { axis })
    }
}

/// Whether the operand shapes `operands` suit `op`: the right number of
/// them, each as the operation's own rule demands. Sources read none;
/// parameters and inputs take their shapes from their slots, not from a
/// rule.
pub open spec fn accepts_operands<Element>(op: Op<Tensor<Element>>, operands: Seq<Seq<usize>>) -> bool {
    &&& operands.len() == op_arity(op)
    &&& match op {
        Op::Leaf(_) => true,
        Op::Parameter(_) | Op::Input(_) => false,
        Op::Add(_) | Op::Sub(_) | Op::Mul(_) | Op::Div(_) | Op::Powf(_) | Op::Maximum(_) | Op::Step(_) => operands[0] == operands[1],
        Op::Neg(_) | Op::ElementMap(_) | Op::Sum(_) => true,
        Op::MatMul(_) => multipliable(operands[0], operands[1]),
        Op::SumAlong(sum_along) => sum_along.axis < operands[0].len(),
        Op::Broadcast(_) => fits(operands[0]) && volume_of(operands[0]) == 1,
        Op::BroadcastAlong(broadcast_along) => broadcast_along.axis <= operands[0].len() && broadcast_along.extent > 0,
        Op::Reshape(reshape) => fits(operands[0]) && fits(reshape.shape@) && volume_of(operands[0]) == volume_of(reshape.shape@),
        Op::Permute(permute) => is_permutation(permute.order@, operands[0].len()),
        Op::Narrow(narrow) => narrow.axis < operands[0].len() && narrow.len > 0
            && narrow.start + narrow.len <= operands[0][narrow.axis as int],
        Op::Pad(pad) => pad.axis < operands[0].len() && pad.start + operands[0][pad.axis as int] <= pad.full_extent,
        Op::Unfold(unfold) => unfold.accepts(operands[0]),
        Op::Fold(fold) => fold.accepts(operands[0]),
        Op::Gather(_) => operands[1].len() == 2 && operands[0].len() >= 1 && operands[1][1] == operands[0][0],
        Op::Scatter(_) => operands[0].len() >= 1 && operands[1].len() == 2 && operands[0][0] == operands[1][0],
        Op::LogSoftmax(log_softmax) => log_softmax.axis < operands[0].len(),
        Op::LogSumExp(log_sum_exp) => log_sum_exp.axis < operands[0].len(),
    }
}

/// The shape `op` infers from the operand shapes `operands`: a leaf's own
/// payload shape, and each operation's own rule otherwise.
pub open spec fn inferred_shape<Element>(op: Op<Tensor<Element>>, operands: Seq<Seq<usize>>) -> Seq<usize> {
    match op {
        Op::Leaf(leaf) => leaf.0.shape_spec(),
        Op::Parameter(_) | Op::Input(_) => Seq::empty(),
        Op::Add(_) | Op::Sub(_) | Op::Mul(_) | Op::Div(_) | Op::Powf(_) | Op::Maximum(_) | Op::Step(_) => operands[0],
        Op::Neg(_) | Op::ElementMap(_) | Op::LogSoftmax(_) => operands[0],
        Op::Sum(_) => Seq::empty(),
        Op::MatMul(_) => operands[0].subrange(0, operands[0].len() - 1).push(operands[1][operands[1].len() - 1]),
        Op::SumAlong(sum_along) => operands[0].remove(sum_along.axis as int),
        Op::Broadcast(broadcast) => broadcast.shape@,
        Op::BroadcastAlong(broadcast_along) => operands[0].insert(broadcast_along.axis as int, broadcast_along.extent),
        Op::Reshape(reshape) => reshape.shape@,
        Op::Permute(permute) => permuted(operands[0], permute.order@),
        Op::Narrow(narrow) => operands[0].update(narrow.axis as int, narrow.len),
        Op::Pad(pad) => operands[0].update(pad.axis as int, pad.full_extent),
        Op::Unfold(unfold) => operands[0].update(
            unfold.axis as int,
            window_count(operands[0][unfold.axis as int] as int, unfold.size as int, unfold.step as int, unfold.dilation as int) as usize,
        ).insert(unfold.axis + 1, unfold.size),
        Op::Fold(fold) => operands[0].update(fold.axis as int, fold.extent).remove(fold.axis + 1),
        Op::Gather(_) => seq![operands[1][0]] + operands[0].subrange(1, operands[0].len() as int),
        Op::Scatter(_) => operands[0].update(0, operands[1][1]),
        Op::LogSumExp(log_sum_exp) => operands[0].remove(log_sum_exp.axis as int),
    }
}

impl<Element: Copy> Op<Tensor<Element>> {
    /// Infers the shape of this op's result from its operands' positional
    /// shapes: the shape-level mirror of computing the payload, run once
    /// per node at record time.
    pub fn infer_shape(&self, operands: &[Shape]) -> (shape: Shape)
        requires
            accepts_operands(*self, operands@.map_values(|operand: Shape| operand@)),
        ensures
            shape@ == inferred_shape(*self, operands@.map_values(|operand: Shape| operand@)),
    {
        let ghost views = operands@.map_values(|operand: Shape| operand@);
        proof {
            assert forall|k: int| 0 <= k < operands@.len() implies #[trigger] views[k] == operands@[k]@ by {}
        }
        match self {
            Op::Leaf(leaf) => leaf.0.shape(),
            Op::Parameter(_) | Op::Input(_) => {
                assert(false);
                Shape::scalar()
            },
            Op::Add(add) => add.infer_shape(operands),
            Op::Sub(sub) => sub.infer_shape(operands),
            Op::Mul(mul) => mul.infer_shape(operands),
            Op::Div(div) => div.infer_shape(operands),
            Op::Neg(neg) => neg.infer_shape(operands),
            Op::ElementMap(map) => map.infer_shape(operands),
            Op::MatMul(matmul) => matmul.infer_shape(operands),
            Op::Sum(sum) => sum.infer_shape(operands),
            Op::SumAlong(sum_along) => sum_along.infer_shape(operands),
            Op::Broadcast(broadcast) => broadcast.infer_shape(operands),
            Op::BroadcastAlong(broadcast_along) => broadcast_along.infer_shape(operands),
            Op::Reshape(reshape) => reshape.infer_shape(operands),
            Op::Permute(permute) => permute.infer_shape(operands),
            Op::Narrow(narrow) => narrow.infer_shape(operands),
            Op::Pad(pad) => pad.infer_shape(operands),
            Op::Unfold(unfold) => unfold.infer_shape(operands),
            Op::Gather(gather) => gather.infer_shape(operands),
            Op::LogSoftmax(log_softmax) => log_softmax.infer_shape(operands),
            Op::LogSumExp(log_sum_exp) => log_sum_exp.infer_shape(operands),
            Op::Step(step) => step.infer_shape(operands),
            Op::Fold(fold) => fold.infer_shape(operands),
            Op::Scatter(scatter) => scatter.infer_shape(operands),
            Op::Powf(powf) => powf.infer_shape(operands),
            Op::Maximum(maximum) => maximum.infer_shape(operands),
        }
    }
}

/// The two arity tables agree: every op expects exactly as many operand
/// links as its opcode declares, and exactly the arity-0 operations are
/// sources, supplied rather than computed.
pub proof fn law_arity_tables_agree<Data>(op: Op<Data>, opcode: Opcode)
    requires
        snapshot_of(op, opcode),
    ensures
        op_arity(op) == arity_spec(opcode),
        is_source_spec(opcode) <==> op_arity(op) == 0,
{
}


/// What the derivative rule of `op` reads: the operand at each of the
/// two positions, and the node's own output.
pub open spec fn reads_of<Data>(op: Op<Data>) -> (bool, bool, bool) {
    match op {
        Op::Leaf(_) | Op::Parameter(_) | Op::Input(_) => (false, false, false),
        Op::Add(_) | Op::Sub(_) | Op::Neg(_) | Op::Sum(_) | Op::SumAlong(_) | Op::Step(_) => (false, false, false),
        Op::Broadcast(_) | Op::BroadcastAlong(_) | Op::Reshape(_) | Op::Permute(_) => (false, false, false),
        Op::Narrow(_) | Op::Pad(_) | Op::Unfold(_) | Op::Fold(_) => (false, false, false),
        Op::Mul(_) | Op::MatMul(_) | Op::Maximum(_) => (true, true, false),
        Op::Div(_) => (false, true, true),
        Op::Powf(_) => (true, true, true),
        Op::ElementMap(map) => (reads_operand(map.op), false, reads_own_output(map.op)),
        Op::Gather(_) | Op::Scatter(_) => (false, true, false),
        Op::LogSoftmax(_) => (false, false, true),
        Op::LogSumExp(_) => (true, false, true),
    }
}

impl<Data> Op<Data> {
    /// Returns which payload values this op's derivative rule reads: the
    /// read contract behind training-plan liveness. Sources have no rule
    /// and retain nothing; a quotient's rule reads its divisor and its own
    /// quotient, a scatter's and a gather's their selection.
    pub fn reads(&self) -> (reads: Reads)
        ensures
            reads_exactly(reads, reads_of(*self).0, reads_of(*self).1, reads_of(*self).2),
    {
        match self {
            Op::Leaf(_) | Op::Parameter(_) | Op::Input(_) => Reads::nothing(),
            Op::Add(_) | Op::Neg(_) | Op::Sum(_) | Op::SumAlong(_) | Op::Narrow(_) | Op::Pad(_) => Reads::nothing(),
            Op::Sub(sub) => sub.reads(),
            Op::Mul(mul) => mul.reads(),
            Op::Div(_) => Reads::of(false, true, true),
            Op::ElementMap(map) => map.reads(),
            Op::MatMul(matmul) => matmul.reads(),
            Op::Broadcast(broadcast) => broadcast.reads(),
            Op::BroadcastAlong(broadcast_along) => broadcast_along.reads(),
            Op::Reshape(reshape) => reshape.reads(),
            Op::Permute(permute) => permute.reads(),
            Op::Unfold(unfold) => unfold.reads(),
            Op::Gather(gather) => gather.reads(),
            Op::LogSoftmax(log_softmax) => log_softmax.reads(),
            Op::LogSumExp(log_sum_exp) => log_sum_exp.reads(),
            Op::Step(step) => step.reads(),
            Op::Fold(fold) => fold.reads(),
            Op::Scatter(_) => Reads::of(false, true, false),
            Op::Powf(powf) => powf.reads(),
            Op::Maximum(maximum) => maximum.reads(),
        }
    }
}

/// The read contracts fit the liveness width: no operation has more
/// operands than `Reads` has positions, and none declares a read past its
/// arity.
pub proof fn law_reads_fit_the_arity<Data>(op: Op<Data>)
    ensures
        op_arity(op) <= 2,
        op_arity(op) < 2 ==> !reads_of(op).1,
        op_arity(op) < 1 ==> !reads_of(op).0,
{
}
} // verus!
