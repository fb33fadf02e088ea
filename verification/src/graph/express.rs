//! The recording reading of the printable IR: `express` records one
//! opcode over operand values on a tape, so walking a spec's nodes in
//! allocation order and expressing each computed opcode over its
//! operands' replays re-records the spec.

use vstd::prelude::*;

use super::opcode::{arity_spec, is_source_spec, Opcode};
use super::tape::{Tape, Value};
use super::ValueId;
use crate::layout::window_count;
use crate::op::fold::Fold;
use crate::op::matmul::{multipliable, MatMul};
use crate::op::maximum::Maximum;
use crate::op::mul::Mul;
use crate::op::op::{accepts_operands, inferred_shape, law_arity_tables_agree, snapshot_of, Add, Div, Neg, Op, Scatter, Sum};
use crate::op::permute::{is_permutation, permuted};
use crate::op::gather::Gather;
use crate::op::powf::Powf;
use crate::op::step::Step;
use crate::op::sub::Sub;
use crate::op::unfold::Unfold;
use crate::shape::{fits, volume_of};
use super::vjp::{lemma_rules_extend, link_extents, reversible, rules_hold};
use crate::tensor::Tensor;

verus! {

/// Whether the computed operation `opcode` accepts the operand shapes
/// `operands`: the rule recording checks, read off the opcode.
pub open spec fn expressible(opcode: Opcode, operands: Seq<Seq<usize>>) -> bool {
    &&& operands.len() == arity_spec(opcode)
    &&& match opcode {
        Opcode::Leaf | Opcode::Parameter | Opcode::Input => false,
        Opcode::Add | Opcode::Sub | Opcode::Mul | Opcode::Div | Opcode::Powf | Opcode::Maximum | Opcode::Step => {
            operands[0] == operands[1]
        },
        Opcode::Neg | Opcode::ElementMap { .. } | Opcode::Sum => true,
        Opcode::MatMul => multipliable(operands[0], operands[1]),
        Opcode::SumAlong { axis } => axis < operands[0].len(),
        Opcode::Broadcast { .. } => fits(operands[0]) && volume_of(operands[0]) == 1,
        Opcode::BroadcastAlong { axis, extent } => axis <= operands[0].len() && extent > 0,
        Opcode::Reshape { shape } => fits(operands[0]) && fits(shape@) && volume_of(operands[0]) == volume_of(shape@),
        Opcode::Permute { order } => is_permutation(order@, operands[0].len()),
        Opcode::Narrow { axis, start, len } => axis < operands[0].len() && len > 0 && start + len <= operands[0][axis as int],
        Opcode::Pad { axis, start, full_extent } => axis < operands[0].len() && start + operands[0][axis as int]
            <= full_extent,
        Opcode::Unfold { axis, size, step, dilation } => (Unfold { axis, size, step, dilation }).accepts(operands[0]),
        Opcode::Fold { axis, size, step, dilation, extent } => (Fold { axis, size, step, dilation, extent }).accepts(
            operands[0],
        ),
        Opcode::Gather => operands[1].len() == 2 && operands[0].len() >= 1 && operands[1][1] == operands[0][0],
        Opcode::Scatter => operands[0].len() >= 1 && operands[1].len() == 2 && operands[0][0] == operands[1][0],
        Opcode::LogSoftmax { axis } => axis < operands[0].len(),
        Opcode::LogSumExp { axis } => axis < operands[0].len(),
    }
}

/// The shape the computed operation `opcode` records over the operand
/// shapes `operands`.
pub open spec fn expressed_shape(opcode: Opcode, operands: Seq<Seq<usize>>) -> Seq<usize> {
    match opcode {
        Opcode::Leaf | Opcode::Parameter | Opcode::Input => Seq::empty(),
        Opcode::Add | Opcode::Sub | Opcode::Mul | Opcode::Div | Opcode::Powf | Opcode::Maximum | Opcode::Step => operands[0],
        Opcode::Neg | Opcode::ElementMap { .. } | Opcode::LogSoftmax { .. } => operands[0],
        Opcode::Sum => Seq::empty(),
        Opcode::MatMul => operands[0].subrange(0, operands[0].len() - 1).push(operands[1][operands[1].len() - 1]),
        Opcode::SumAlong { axis } => operands[0].remove(axis as int),
        Opcode::Broadcast { shape } => shape@,
        Opcode::BroadcastAlong { axis, extent } => operands[0].insert(axis as int, extent),
        Opcode::Reshape { shape } => shape@,
        Opcode::Permute { order } => permuted(operands[0], order@),
        Opcode::Narrow { axis, start: _, len } => operands[0].update(axis as int, len),
        Opcode::Pad { axis, start: _, full_extent } => operands[0].update(axis as int, full_extent),
        Opcode::Unfold { axis, size, step, dilation } => operands[0].update(
            axis as int,
            window_count(operands[0][axis as int] as int, size as int, step as int, dilation as int) as usize,
        ).insert(axis + 1, size),
        Opcode::Fold { axis, size: _, step: _, dilation: _, extent } => operands[0].update(axis as int, extent).remove(axis + 1),
        Opcode::Gather => seq![operands[1][0]] + operands[0].subrange(1, operands[0].len() as int),
        Opcode::Scatter => operands[0].update(0, operands[1][1]),
        Opcode::LogSumExp { axis } => operands[0].remove(axis as int),
    }
}

/// Whether `recorded` is the same operation as `opcode`, with the same
/// parameters.
pub open spec fn agrees(recorded: Opcode, opcode: Opcode) -> bool {
    match opcode {
        Opcode::Leaf => recorded is Leaf,
        Opcode::Parameter => recorded is Parameter,
        Opcode::Input => recorded is Input,
        Opcode::Add => recorded is Add,
        Opcode::Sub => recorded is Sub,
        Opcode::Mul => recorded is Mul,
        Opcode::Div => recorded is Div,
        Opcode::Neg => recorded is Neg,
        Opcode::ElementMap { operation } => recorded matches Opcode::ElementMap { operation: other } && other == operation,
        Opcode::Powf => recorded is Powf,
        Opcode::Maximum => recorded is Maximum,
        Opcode::Step => recorded is Step,
        Opcode::MatMul => recorded is MatMul,
        Opcode::Sum => recorded is Sum,
        Opcode::SumAlong { axis } => recorded matches Opcode::SumAlong { axis: other } && other == axis,
        Opcode::Broadcast { shape } => recorded matches Opcode::Broadcast { shape: other } && other@ == shape@,
        Opcode::BroadcastAlong { axis, extent } => recorded matches Opcode::BroadcastAlong { axis: a, extent: e } && a
            == axis && e == extent,
        Opcode::Reshape { shape } => recorded matches Opcode::Reshape { shape: other } && other@ == shape@,
        Opcode::Permute { order } => recorded matches Opcode::Permute { order: other } && other@ == order@,
        Opcode::Narrow { axis, start, len } => recorded matches Opcode::Narrow { axis: a, start: s, len: l } && a == axis
            && s == start && l == len,
        Opcode::Pad { axis, start, full_extent } => recorded matches Opcode::Pad { axis: a, start: s, full_extent: f }
            && a == axis && s == start && f == full_extent,
        Opcode::Unfold { axis, size, step, dilation } => recorded matches Opcode::Unfold {
            axis: a,
            size: z,
            step: s,
            dilation: d,
        } && a == axis && z == size && s == step && d == dilation,
        Opcode::Fold { axis, size, step, dilation, extent } => recorded matches Opcode::Fold {
            axis: a,
            size: z,
            step: s,
            dilation: d,
            extent: e,
        } && a == axis && z == size && s == step && d == dilation && e == extent,
        Opcode::Gather => recorded is Gather,
        Opcode::Scatter => recorded is Scatter,
        Opcode::LogSoftmax { axis } => recorded matches Opcode::LogSoftmax { axis: other } && other == axis,
        Opcode::LogSumExp { axis } => recorded matches Opcode::LogSumExp { axis: other } && other == axis,
    }
}

/// The recorded shapes of `operands` on `tape`, in order.
pub open spec fn operand_extents<E>(tape: Tape<E>, operands: Seq<Value>) -> Seq<Seq<usize>> {
    operands.map_values(|operand: Value| tape.extents(operand))
}

/// An operation's rule and its opcode's rule agree: the opcode carries
/// every parameter the rule reads.
pub(crate) proof fn lemma_rules_agree<E>(op: Op<Tensor<E>>, opcode: Opcode, operands: Seq<Seq<usize>>)
    requires
        snapshot_of(op, opcode),
        !is_source_spec(opcode),
    ensures
        accepts_operands(op, operands) == expressible(opcode, operands),
        inferred_shape(op, operands) == expressed_shape(opcode, operands),
{
    law_arity_tables_agree(op, opcode);
}

/// Two opcodes one operation snapshots to agree.
proof fn lemma_snapshots_agree<E>(op: Op<Tensor<E>>, recorded: Opcode, opcode: Opcode)
    requires
        snapshot_of(op, opcode),
        snapshot_of(op, recorded),
    ensures
        agrees(recorded, opcode),
{
}

/// Agreeing opcodes have the same rule: they accept the same operand
/// shapes and record the same shape.
pub proof fn lemma_agreeing_rules(recorded: Opcode, opcode: Opcode, operands: Seq<Seq<usize>>)
    requires
        agrees(recorded, opcode),
    ensures
        expressible(recorded, operands) == expressible(opcode, operands),
        expressed_shape(recorded, operands) == expressed_shape(opcode, operands),
        is_source_spec(recorded) == is_source_spec(opcode),
        arity_spec(recorded) == arity_spec(opcode),
{
}

impl Opcode {
    /// Returns a copy of this opcode, with the same parameters.
    pub fn duplicate(&self) -> (copy: Opcode)
        ensures
            agrees(copy, *self),
    {
        match self {
            Opcode::Leaf => Opcode::Leaf,
            Opcode::Parameter => Opcode::Parameter,
            Opcode::Input => Opcode::Input,
            Opcode::Add => Opcode::Add,
            Opcode::Sub => Opcode::Sub,
            Opcode::Mul => Opcode::Mul,
            Opcode::Div => Opcode::Div,
            Opcode::Neg => Opcode::Neg,
            Opcode::ElementMap { operation } => Opcode::ElementMap { operation: *operation },
            Opcode::Powf => Opcode::Powf,
            Opcode::Maximum => Opcode::Maximum,
            Opcode::Step => Opcode::Step,
            Opcode::MatMul => Opcode::MatMul,
            Opcode::Sum => Opcode::Sum,
            Opcode::SumAlong { axis } => Opcode::SumAlong { axis: *axis },
            Opcode::Broadcast { shape } => Opcode::Broadcast { shape: shape.clone() },
            Opcode::BroadcastAlong { axis, extent } => Opcode::BroadcastAlong { axis: *axis, extent: *extent },
            Opcode::Reshape { shape } => Opcode::Reshape { shape: shape.clone() },
            Opcode::Permute { order } => Opcode::Permute { order: vstd::slice::slice_to_vec(order.as_slice()) },
            Opcode::Narrow { axis, start, len } => Opcode::Narrow { axis: *axis, start: *start, len: *len },
            Opcode::Pad { axis, start, full_extent } => Opcode::Pad { axis: *axis, start: *start, full_extent: *full_extent },
            Opcode::Unfold { axis, size, step, dilation } => Opcode::Unfold {
                axis: *axis,
                size: *size,
                step: *step,
                dilation: *dilation,
            },
            Opcode::Fold { axis, size, step, dilation, extent } => Opcode::Fold {
                axis: *axis,
                size: *size,
                step: *step,
                dilation: *dilation,
                extent: *extent,
            },
            Opcode::Gather => Opcode::Gather,
            Opcode::Scatter => Opcode::Scatter,
            Opcode::LogSoftmax { axis } => Opcode::LogSoftmax { axis: *axis },
            Opcode::LogSumExp { axis } => Opcode::LogSumExp { axis: *axis },
        }
    }
}

impl Opcode {
    /// Returns the computed operation this opcode names, with the
    /// parameters it carries.
    pub fn operation<E>(&self) -> (op: Op<Tensor<E>>)
        requires
            !is_source_spec(*self),
        ensures
            snapshot_of(op, *self),
    {
        match self {
            Opcode::Leaf | Opcode::Parameter | Opcode::Input => Op::Neg(Neg),
            Opcode::Add => Op::Add(Add),
            Opcode::Sub => Op::Sub(Sub),
            Opcode::Mul => Op::Mul(Mul),
            Opcode::Div => Op::Div(Div),
            Opcode::Neg => Op::Neg(Neg),
            Opcode::ElementMap { operation } => Op::map(*operation),
            Opcode::Powf => Op::Powf(Powf),
            Opcode::Maximum => Op::Maximum(Maximum),
            Opcode::Step => Op::Step(Step),
            Opcode::MatMul => Op::MatMul(MatMul),
            Opcode::Sum => Op::Sum(Sum),
            Opcode::SumAlong { axis } => Op::sum_along(*axis),
            Opcode::Broadcast { shape } => Op::broadcast(shape.clone()),
            Opcode::BroadcastAlong { axis, extent } => Op::broadcast_along(*axis, *extent),
            Opcode::Reshape { shape } => Op::reshape(shape.clone()),
            Opcode::Permute { order } => Op::permute(vstd::slice::slice_to_vec(order.as_slice())),
            Opcode::Narrow { axis, start, len } => Op::narrow(*axis, *start, *len),
            Opcode::Pad { axis, start, full_extent } => Op::pad(*axis, *start, *full_extent),
            Opcode::Unfold { axis, size, step, dilation } => Op::unfold(*axis, *size, *step, *dilation),
            Opcode::Fold { axis, size, step, dilation, extent } => Op::fold(*axis, *size, *step, *dilation, *extent),
            Opcode::Gather => Op::Gather(Gather),
            Opcode::Scatter => Op::Scatter(Scatter),
            Opcode::LogSoftmax { axis } => Op::log_softmax(*axis),
            Opcode::LogSumExp { axis } => Op::log_sum_exp(*axis),
        }
    }

    /// Records this operation over `operands`, position for position, on
    /// `tape` and returns the recorded value: the recording reading of
    /// the printable IR. The result's shape is inferred on the way in by
    /// the same rule recording checks.
    pub fn express<E: Copy>(&self, tape: &mut Tape<E>, operands: &[Value]) -> (out: Value)
        requires
            old(tape).well_formed(),
            forall|k: int| 0 <= k < operands@.len() ==> old(tape).holds(#[trigger] operands@[k]),
            !is_source_spec(*self),
            expressible(*self, operand_extents(*old(tape), operands@)),
        ensures
            final(tape).well_formed(),
            final(tape).appends(old(tape), 1),
            final(tape).names(out, old(tape).len_spec()),
            agrees(final(tape).opcodes_spec()[old(tape).len_spec() as int], *self),
            final(tape).node_is(
                old(tape).len_spec() as int,
                operands@,
                expressed_shape(*self, operand_extents(*old(tape), operands@)),
            ),
            final(tape).counts_spec()[old(tape).len_spec() as int] is None,
            final(tape).payloads_spec()[old(tape).len_spec() as int] is None,
            rules_hold(*old(tape)) && reversible(*self, operand_extents(*old(tape), operands@)) ==> rules_hold(
                *final(tape),
            ),
    {
        let ghost start = *tape;
        let mut ids: Vec<ValueId> = Vec::new();
        let mut position: usize = 0;
        while position < operands.len()
            invariant
                position <= operands@.len(),
                ids@.len() == position,
                forall|k: int| 0 <= k < position ==> #[trigger] ids@[k].0 == operands@[k].index_spec(),
            decreases operands@.len() - position,
        {
            ids.push(operands[position].id());
            position = position + 1;
        }
        let op: Op<Tensor<E>> = self.operation();
        proof {
            assert(start.operand_shapes(ids@) =~= operand_extents(start, operands@));
            lemma_rules_agree(op, *self, operand_extents(start, operands@));
        }
        let out = tape.record_node(op, ids.as_slice());
        proof {
            lemma_snapshots_agree(op, tape.opcodes_spec()[start.len_spec() as int], *self);
            let index = start.len_spec() as int;
            assert(link_extents(*tape, index) =~= operand_extents(start, operands@)) by {
                assert forall|m: int| 0 <= m < operands@.len() implies #[trigger] link_extents(*tape, index)[m]
                    == operand_extents(start, operands@)[m] by {
                    Tape::lemma_appends_keeps(start, *tape, 1, operands@[m].index_spec() as int);
                }
            }
            lemma_agreeing_rules(tape.opcodes_spec()[index], *self, operand_extents(start, operands@));
            if rules_hold(start) && reversible(*self, operand_extents(start, operands@)) {
                lemma_rules_extend(start, *tape);
            }
        }
        out
    }
}

} // verus!
