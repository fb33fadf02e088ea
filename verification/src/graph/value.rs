//! The first tier of the operation surface: each method records exactly
//! one computed node, its shape inferred and validated by the
//! operation's own rule.

use vstd::prelude::*;

use super::opcode::Opcode;
use super::tape::{Tape, Value};
use crate::op::broadcast::Broadcast;
use crate::op::broadcast_along::BroadcastAlong;
use crate::op::log_softmax::LogSoftmax;
use crate::op::maximum::Maximum;
use crate::op::mul::Mul;
use crate::op::map::{ElementMap, MapOperation};
use crate::op::permute::{is_permutation, permuted, Permute};
use crate::op::reshape::Reshape;
use crate::shape::{fits, volume_of, Shape};
use super::express::operand_extents;
use super::vjp::{lemma_rules_record, rules_hold};

verus! {

impl Value {
    /// Records the log-softmax of this value along `axis` and returns a
    /// proxy to it; the shape is unchanged.
    pub fn log_softmax<E>(self, tape: &mut Tape<E>, axis: usize) -> (out: Value)
        requires
            old(tape).well_formed(),
            old(tape).holds(self),
            axis < old(tape).extents(self).len(),
        ensures
            final(tape).well_formed(),
            final(tape).appends(old(tape), 1),
            final(tape).names(out, old(tape).len_spec()),
            final(tape).opcodes_spec()[old(tape).len_spec() as int] == (Opcode::LogSoftmax { axis }),
            final(tape).node_is(old(tape).len_spec() as int, seq![self], old(tape).extents(self)),
            rules_hold(*old(tape)) && old(tape).extents(self)[axis as int] > 0 ==> rules_hold(*final(tape)),
    {
        let operands = [self.shape(tape)];
        let shape = LogSoftmax { axis }.infer_shape(&operands);
        let ghost before = *tape;
        let out = tape.record(Opcode::LogSoftmax { axis }, vec![self.id()], shape);
        proof {
            if rules_hold(before) && before.extents(self)[axis as int] > 0 {
                assert(operand_extents(before, seq![self]) =~= seq![before.extents(self)]);
                lemma_rules_record(before, *tape, seq![self]);
            }
        }
        out
    }

    /// Records the elementwise exponential of this value and returns a
    /// proxy to it.
    pub fn exp<E>(self, tape: &mut Tape<E>) -> (out: Value)
        requires
            old(tape).well_formed(),
            old(tape).holds(self),
        ensures
            final(tape).well_formed(),
            final(tape).appends(old(tape), 1),
            final(tape).names(out, old(tape).len_spec()),
            final(tape).opcodes_spec()[old(tape).len_spec() as int] == (Opcode::ElementMap { operation: MapOperation::Exp }),
            final(tape).node_is(old(tape).len_spec() as int, seq![self], old(tape).extents(self)),
            rules_hold(*old(tape)) ==> rules_hold(*final(tape)),
    {
        let operands = [self.shape(tape)];
        let shape = ElementMap { op: MapOperation::Exp }.infer_shape(&operands);
        let ghost before = *tape;
        let out = tape.record(Opcode::ElementMap { operation: MapOperation::Exp }, vec![self.id()], shape);
        proof {
            if rules_hold(before) {
                assert(operand_extents(before, seq![self]) =~= seq![before.extents(self)]);
                lemma_rules_record(before, *tape, seq![self]);
            }
        }
        out
    }

    /// Records this single-value payload spread across `shape` and
    /// returns a proxy to it.
    pub fn broadcast<E>(self, tape: &mut Tape<E>, shape: Shape) -> (out: Value)
        requires
            old(tape).well_formed(),
            old(tape).holds(self),
            fits(old(tape).extents(self)),
            volume_of(old(tape).extents(self)) == 1,
        ensures
            final(tape).well_formed(),
            final(tape).appends(old(tape), 1),
            final(tape).names(out, old(tape).len_spec()),
            final(tape).opcodes_spec()[old(tape).len_spec() as int] matches Opcode::Broadcast { shape: target } && target@ == shape@,
            final(tape).node_is(old(tape).len_spec() as int, seq![self], shape@),
            rules_hold(*old(tape)) ==> rules_hold(*final(tape)),
    {
        let operands = [self.shape(tape)];
        let rule = Broadcast { shape };
        let inferred = rule.infer_shape(&operands);
        let ghost before = *tape;
        let out = tape.record(Opcode::Broadcast { shape: rule.shape }, vec![self.id()], inferred);
        proof {
            if rules_hold(before) {
                assert(operand_extents(before, seq![self]) =~= seq![before.extents(self)]);
                lemma_rules_record(before, *tape, seq![self]);
            }
        }
        out
    }

    /// Records this value repeated along a new axis of `extent` inserted
    /// at `axis`, and returns a proxy to it.
    pub fn broadcast_along<E>(self, tape: &mut Tape<E>, axis: usize, extent: usize) -> (out: Value)
        requires
            old(tape).well_formed(),
            old(tape).holds(self),
            axis <= old(tape).extents(self).len(),
            extent > 0,
        ensures
            final(tape).well_formed(),
            final(tape).appends(old(tape), 1),
            final(tape).names(out, old(tape).len_spec()),
            final(tape).opcodes_spec()[old(tape).len_spec() as int] == (Opcode::BroadcastAlong { axis, extent }),
            final(tape).node_is(old(tape).len_spec() as int, seq![self], old(tape).extents(self).insert(axis as int, extent)),
            rules_hold(*old(tape)) ==> rules_hold(*final(tape)),
    {
        let operands = [self.shape(tape)];
        let shape = BroadcastAlong { axis, extent }.infer_shape(&operands);
        let ghost before = *tape;
        let out = tape.record(Opcode::BroadcastAlong { axis, extent }, vec![self.id()], shape);
        proof {
            if rules_hold(before) {
                assert(operand_extents(before, seq![self]) =~= seq![before.extents(self)]);
                lemma_rules_record(before, *tape, seq![self]);
            }
        }
        out
    }

    /// Records this value's elements under `shape`, which must hold as
    /// many elements, and returns a proxy to it.
    pub fn reshape<E>(self, tape: &mut Tape<E>, shape: Shape) -> (out: Value)
        requires
            old(tape).well_formed(),
            old(tape).holds(self),
            fits(old(tape).extents(self)),
            fits(shape@),
            volume_of(old(tape).extents(self)) == volume_of(shape@),
        ensures
            final(tape).well_formed(),
            final(tape).appends(old(tape), 1),
            final(tape).names(out, old(tape).len_spec()),
            final(tape).opcodes_spec()[old(tape).len_spec() as int] matches Opcode::Reshape { shape: target } && target@ == shape@,
            final(tape).node_is(old(tape).len_spec() as int, seq![self], shape@),
            rules_hold(*old(tape)) ==> rules_hold(*final(tape)),
    {
        let operands = [self.shape(tape)];
        let rule = Reshape { shape };
        let inferred = rule.infer_shape(&operands);
        let ghost before = *tape;
        let out = tape.record(Opcode::Reshape { shape: rule.shape }, vec![self.id()], inferred);
        proof {
            if rules_hold(before) {
                assert(operand_extents(before, seq![self]) =~= seq![before.extents(self)]);
                lemma_rules_record(before, *tape, seq![self]);
            }
        }
        out
    }

    /// Records this value's axes reordered by `order` -- result axis `i`
    /// reads axis `order[i]` -- and returns a proxy to it.
    pub fn permute<E>(self, tape: &mut Tape<E>, order: Vec<usize>) -> (out: Value)
        requires
            old(tape).well_formed(),
            old(tape).holds(self),
            is_permutation(order@, old(tape).extents(self).len()),
        ensures
            final(tape).well_formed(),
            final(tape).appends(old(tape), 1),
            final(tape).names(out, old(tape).len_spec()),
            final(tape).opcodes_spec()[old(tape).len_spec() as int] matches Opcode::Permute { order: recorded } && recorded@ == order@,
            final(tape).node_is(old(tape).len_spec() as int, seq![self], permuted(old(tape).extents(self), order@)),
            rules_hold(*old(tape)) ==> rules_hold(*final(tape)),
    {
        let operands = [self.shape(tape)];
        let kept = order.clone();
        assert(kept@ =~= order@);
        let shape = Permute::new(order).infer_shape(&operands);
        let ghost before = *tape;
        let out = tape.record(Opcode::Permute { order: kept }, vec![self.id()], shape);
        proof {
            if rules_hold(before) {
                assert(operand_extents(before, seq![self]) =~= seq![before.extents(self)]);
                lemma_rules_record(before, *tape, seq![self]);
            }
        }
        out
    }
}


impl Value {
    /// Records `operation` applied elementwise to this value; the shape is
    /// unchanged.
    pub fn map<E>(self, tape: &mut Tape<E>, operation: MapOperation) -> (out: Value)
        requires
            old(tape).well_formed(),
            old(tape).holds(self),
        ensures
            final(tape).records(old(tape), out, Opcode::ElementMap { operation }, seq![self], old(tape).extents(self)),
            rules_hold(*old(tape)) ==> rules_hold(*final(tape)),
    {
        let operands = [self.shape(tape)];
        let shape = ElementMap { op: operation }.infer_shape(&operands);
        let ghost before = *tape;
        let out = tape.record(Opcode::ElementMap { operation }, vec![self.id()], shape);
        proof {
            if rules_hold(before) {
                assert(operand_extents(before, seq![self]) =~= seq![before.extents(self)]);
                lemma_rules_record(before, *tape, seq![self]);
            }
        }
        out
    }

    /// Records the elementwise negation of this value; the shape is
    /// unchanged.
    pub fn neg<E>(self, tape: &mut Tape<E>) -> (out: Value)
        requires
            old(tape).well_formed(),
            old(tape).holds(self),
        ensures
            final(tape).records(old(tape), out, Opcode::Neg, seq![self], old(tape).extents(self)),
            rules_hold(*old(tape)) ==> rules_hold(*final(tape)),
    {
        let shape = self.shape(tape);
        let ghost before = *tape;
        let out = tape.record(Opcode::Neg, vec![self.id()], shape);
        proof {
            if rules_hold(before) {
                assert(operand_extents(before, seq![self]) =~= seq![before.extents(self)]);
                lemma_rules_record(before, *tape, seq![self]);
            }
        }
        out
    }

    /// Records the elementwise sum of this value and `other`, which must
    /// share its shape: binary elementwise operations never broadcast.
    pub fn add<E>(self, tape: &mut Tape<E>, other: Value) -> (out: Value)
        requires
            old(tape).well_formed(),
            old(tape).holds(self),
            old(tape).holds(other),
            old(tape).extents(self) == old(tape).extents(other),
        ensures
            final(tape).records(old(tape), out, Opcode::Add, seq![self, other], old(tape).extents(self)),
            rules_hold(*old(tape)) ==> rules_hold(*final(tape)),
    {
        let shape = self.shape(tape);
        let ghost before = *tape;
        let out = tape.record(Opcode::Add, vec![self.id(), other.id()], shape);
        proof {
            if rules_hold(before) {
                assert(operand_extents(before, seq![self, other]) =~= seq![before.extents(self), before.extents(other)]);
                lemma_rules_record(before, *tape, seq![self, other]);
            }
        }
        out
    }

    /// Records the elementwise quotient of this value by `other`, which
    /// must share its shape.
    pub fn div<E>(self, tape: &mut Tape<E>, other: Value) -> (out: Value)
        requires
            old(tape).well_formed(),
            old(tape).holds(self),
            old(tape).holds(other),
            old(tape).extents(self) == old(tape).extents(other),
        ensures
            final(tape).records(old(tape), out, Opcode::Div, seq![self, other], old(tape).extents(self)),
            rules_hold(*old(tape)) ==> rules_hold(*final(tape)),
    {
        let shape = self.shape(tape);
        let ghost before = *tape;
        let out = tape.record(Opcode::Div, vec![self.id(), other.id()], shape);
        proof {
            if rules_hold(before) {
                assert(operand_extents(before, seq![self, other]) =~= seq![before.extents(self), before.extents(other)]);
                lemma_rules_record(before, *tape, seq![self, other]);
            }
        }
        out
    }

    /// Records the elementwise product of this value and `other`, which
    /// must share its shape.
    pub fn mul<E>(self, tape: &mut Tape<E>, other: Value) -> (out: Value)
        requires
            old(tape).well_formed(),
            old(tape).holds(self),
            old(tape).holds(other),
            old(tape).extents(self) == old(tape).extents(other),
        ensures
            final(tape).records(old(tape), out, Opcode::Mul, seq![self, other], old(tape).extents(self)),
            rules_hold(*old(tape)) ==> rules_hold(*final(tape)),
    {
        let operands = [self.shape(tape), other.shape(tape)];
        let shape = Mul.infer_shape(&operands);
        let ghost before = *tape;
        let out = tape.record(Opcode::Mul, vec![self.id(), other.id()], shape);
        proof {
            if rules_hold(before) {
                assert(operand_extents(before, seq![self, other]) =~= seq![before.extents(self), before.extents(other)]);
                lemma_rules_record(before, *tape, seq![self, other]);
            }
        }
        out
    }

    /// Records the elementwise maximum of this value and `other`, which
    /// must share its shape; ties take this value.
    pub fn maximum<E>(self, tape: &mut Tape<E>, other: Value) -> (out: Value)
        requires
            old(tape).well_formed(),
            old(tape).holds(self),
            old(tape).holds(other),
            old(tape).extents(self) == old(tape).extents(other),
        ensures
            final(tape).records(old(tape), out, Opcode::Maximum, seq![self, other], old(tape).extents(self)),
            rules_hold(*old(tape)) ==> rules_hold(*final(tape)),
    {
        let operands = [self.shape(tape), other.shape(tape)];
        let shape = Maximum.infer_shape(&operands);
        let ghost before = *tape;
        let out = tape.record(Opcode::Maximum, vec![self.id(), other.id()], shape);
        proof {
            if rules_hold(before) {
                assert(operand_extents(before, seq![self, other]) =~= seq![before.extents(self), before.extents(other)]);
                lemma_rules_record(before, *tape, seq![self, other]);
            }
        }
        out
    }

    /// Records the sum of this value along `axis`; the axis is removed.
    pub fn sum_along<E>(self, tape: &mut Tape<E>, axis: usize) -> (out: Value)
        requires
            old(tape).well_formed(),
            old(tape).holds(self),
            axis < old(tape).extents(self).len(),
        ensures
            final(tape).records(old(tape), out, Opcode::SumAlong { axis }, seq![self],
                old(tape).extents(self).remove(axis as int)),
            rules_hold(*old(tape)) && old(tape).extents(self)[axis as int] > 0 ==> rules_hold(*final(tape)),
    {
        let shape = self.shape(tape).without_axis(axis);
        let ghost before = *tape;
        let out = tape.record(Opcode::SumAlong { axis }, vec![self.id()], shape);
        proof {
            if rules_hold(before) && before.extents(self)[axis as int] > 0 {
                assert(operand_extents(before, seq![self]) =~= seq![before.extents(self)]);
                lemma_rules_record(before, *tape, seq![self]);
            }
        }
        out
    }

    /// Records this value placed at `start ..` along `axis` inside zeros
    /// of `full_extent`: the axis takes the full extent.
    pub fn pad<E>(self, tape: &mut Tape<E>, axis: usize, start: usize, full_extent: usize) -> (out: Value)
        requires
            old(tape).well_formed(),
            old(tape).holds(self),
            axis < old(tape).extents(self).len(),
            start + old(tape).extents(self)[axis as int] <= full_extent,
        ensures
            final(tape).records(old(tape), out, Opcode::Pad { axis, start, full_extent }, seq![self],
                old(tape).extents(self).update(axis as int, full_extent)),
            rules_hold(*old(tape)) && old(tape).extents(self)[axis as int] > 0 ==> rules_hold(*final(tape)),
    {
        let shape = self.shape(tape);
        let mut axes = vstd::slice::slice_to_vec(shape.axes());
        axes.set(axis, full_extent);
        let ghost before = *tape;
        let out = tape.record(Opcode::Pad { axis, start, full_extent }, vec![self.id()], Shape::new(axes));
        proof {
            if rules_hold(before) && before.extents(self)[axis as int] > 0 {
                assert(operand_extents(before, seq![self]) =~= seq![before.extents(self)]);
                lemma_rules_record(before, *tape, seq![self]);
            }
        }
        out
    }
}

} // verus!
