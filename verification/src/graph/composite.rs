//! Composite expressions over values: the second tier of the operation
//! surface. Each method expands to a formula over the first tier's
//! primitives, so once recorded a composite is indistinguishable from
//! hand-written primitives and the tape stays a uniform IR.

use vstd::prelude::*;

use super::opcode::Opcode;
use super::tape::{Tape, Value};
use super::ValueId;
use crate::op::map::MapOperation;
use crate::op::permute::{is_permutation, permuted};
use crate::shape::{fits, lemma_unit_axis, lemma_unit_axis_removed, volume_of, Shape};
use super::vjp::rules_hold;

verus! {

/// The source's axes right-aligned under a target of `rank` axes: the
/// missing leading axes prepended with extent one.
pub open spec fn aligned(source: Seq<usize>, rank: nat) -> Seq<usize> {
    Seq::new((rank - source.len()) as nat, |i: int| 1usize) + source
}

/// Whether `source` broadcasts to `target` under the right-aligned rule:
/// the target's rank is at least the source's, and each source axis
/// either matches its aligned target axis or has extent one.
pub open spec fn broadcastable(source: Seq<usize>, target: Seq<usize>) -> bool {
    &&& source.len() <= target.len()
    &&& forall|axis: int|
        0 <= axis < source.len() ==> #[trigger] source[axis] == target[target.len() - source.len() + axis] || source[axis] == 1
}

/// The shape between the repeat steps of a broadcast: the target's first
/// `axis` extents, then the aligned source's.
pub open spec fn stage(source: Seq<usize>, target: Seq<usize>, axis: int) -> Seq<usize> {
    target.take(axis) + aligned(source, target.len()).skip(axis)
}

/// Whether every repeat step of a broadcast can be recorded: the shape
/// squeezed at each repeated axis has a representable volume, and the
/// extent repeated to is positive.
pub open spec fn repeatable(source: Seq<usize>, target: Seq<usize>) -> bool {
    forall|axis: int|
        0 <= axis < target.len() && #[trigger] aligned(source, target.len())[axis] != target[axis]
            ==> fits(stage(source, target, axis)) && target[axis] > 0
}

/// Whether the node at `index`, recorded past `start`, is a broadcast
/// step: a reshape, a repeat or a spread reading exactly the previous
/// step, the first step reading `source`.
pub open spec fn broadcast_step<E>(tape: Tape<E>, start: nat, source: Value, index: int) -> bool {
    &&& tape.links_spec()[index].len() == 1
    &&& tape.links_spec()[index][0].0 == if index == start { source.index_spec() as int } else { index - 1 }
    &&& (tape.opcodes_spec()[index] is Reshape || tape.opcodes_spec()[index] is BroadcastAlong
        || tape.opcodes_spec()[index] is Broadcast)
}

/// How many of the first `upto` target axes the aligned source repeats
/// along: those whose aligned extent differs from the target's.
pub open spec fn repeats_below(source: Seq<usize>, target: Seq<usize>, upto: int) -> nat
    decreases upto,
{
    if upto <= 0 {
        0
    } else {
        repeats_below(source, target, upto - 1) + if aligned(source, target.len())[upto - 1] != target[upto - 1] {
            1nat
        } else {
            0nat
        }
    }
}

/// One node for the right-aligning reshape when the source has fewer axes
/// than the target, none otherwise.
pub open spec fn lead(source: Seq<usize>, target: Seq<usize>) -> nat {
    if source.len() < target.len() { 1 } else { 0 }
}

/// The position of the squeeze of target axis `k`'s repeat step in a
/// broadcast recorded from `start`.
pub open spec fn repeat_at(start: nat, source: Seq<usize>, target: Seq<usize>, k: int) -> int {
    (start + lead(source, target) + 2 * repeats_below(source, target, k)) as int
}

/// Whether the repeat steps of the target axes below `upto` are recorded
/// from `start` on `tape`: for each axis `k` the aligned source repeats
/// along, in ascending order, a reshape squeezing axis `k` out of the
/// stage shape, then a repeat along `k` to the target extent.
pub open spec fn repeat_steps<E>(tape: Tape<E>, start: nat, source: Seq<usize>, target: Seq<usize>, upto: int) -> bool {
    forall|k: int| 0 <= k < upto && aligned(source, target.len())[k] != target[k] ==> {
        &&& tape.opcodes_spec()[#[trigger] repeat_at(start, source, target, k)]
            matches Opcode::Reshape { shape: squeezed }
        &&& squeezed@ == stage(source, target, k).remove(k)
        &&& tape.opcodes_spec()[repeat_at(start, source, target, k) + 1]
            == (Opcode::BroadcastAlong { axis: k as usize, extent: target[k] })
    }
}

/// Repeat steps survive appending.
proof fn lemma_repeats_kept<E>(
    earlier: Tape<E>,
    later: Tape<E>,
    count: nat,
    start: nat,
    source: Seq<usize>,
    target: Seq<usize>,
    upto: int,
)
    requires
        earlier.well_formed(),
        later.well_formed(),
        later.appends(&earlier, count),
        start + lead(source, target) + 2 * repeats_below(source, target, upto) <= earlier.len_spec(),
        repeat_steps(earlier, start, source, target, upto),
    ensures
        repeat_steps(later, start, source, target, upto),
{
    assert forall|k: int| 0 <= k < upto && aligned(source, target.len())[k] != target[k] implies {
        &&& later.opcodes_spec()[#[trigger] repeat_at(start, source, target, k)]
            matches Opcode::Reshape { shape: squeezed }
        &&& squeezed@ == stage(source, target, k).remove(k)
        &&& later.opcodes_spec()[repeat_at(start, source, target, k) + 1]
            == (Opcode::BroadcastAlong { axis: k as usize, extent: target[k] })
    } by {
        let at = repeat_at(start, source, target, k);
        assert(earlier.opcodes_spec()[at] matches Opcode::Reshape { shape: squeezed } && squeezed@ == stage(
            source, target, k).remove(k));
        lemma_repeats_grow(source, target, k + 1, upto);
        Tape::lemma_appends_keeps(earlier, later, count, at);
        Tape::lemma_appends_keeps(earlier, later, count, at + 1);
    }
}

/// Repeat counts grow with the axes they range over, by one at a repeated
/// axis.
proof fn lemma_repeats_grow(source: Seq<usize>, target: Seq<usize>, lower: int, upper: int)
    requires
        0 <= lower <= upper,
    ensures
        repeats_below(source, target, lower) <= repeats_below(source, target, upper),
        lower >= 1 && aligned(source, target.len())[lower - 1] != target[lower - 1] ==> repeats_below(
            source, target, lower - 1) + 1 <= repeats_below(source, target, upper),
    decreases upper - lower,
{
    if lower < upper {
        lemma_repeats_grow(source, target, lower, upper - 1);
    }
}

/// The axes `0..rank` in descending order: the order a transposition
/// permutes by.
pub open spec fn descending(rank: nat) -> Seq<usize> {
    Seq::new(rank, |i: int| (rank - 1 - i) as usize)
}

impl Value {
    /// Records the softmax probabilities of this value along `axis` as
    /// the composition `self.log_softmax(axis).exp()` and returns a proxy
    /// to it.
    pub fn softmax<E>(self, tape: &mut Tape<E>, axis: usize) -> (out: Value)
        requires
            old(tape).well_formed(),
            old(tape).holds(self),
            axis < old(tape).extents(self).len(),
        ensures
            final(tape).well_formed(),
            final(tape).appends(old(tape), 2),
            final(tape).names(out, old(tape).len_spec() + 1),
            final(tape).opcodes_spec()[old(tape).len_spec() as int] == (Opcode::LogSoftmax { axis }),
            final(tape).node_is(old(tape).len_spec() as int, seq![self], old(tape).extents(self)),
            final(tape).opcodes_spec()[old(tape).len_spec() + 1int] == (Opcode::ElementMap { operation: MapOperation::Exp }),
            final(tape).links_spec()[old(tape).len_spec() + 1int].len() == 1,
            final(tape).links_spec()[old(tape).len_spec() + 1int][0].0 == old(tape).len_spec(),
            final(tape).extents(out) == old(tape).extents(self),
            rules_hold(*old(tape)) && old(tape).extents(self)[axis as int] > 0 ==> rules_hold(*final(tape)),
    {
        let ghost start = *tape;
        let normalized = self.log_softmax(tape, axis);
        let ghost middle = *tape;
        let out = normalized.exp(tape);
        proof {
            Tape::lemma_appends_chain(start, middle, *tape, 1, 1);
            Tape::lemma_appends_keeps(middle, *tape, 1, start.len_spec() as int);
            assert(tape.links_spec()[start.len_spec() + 1int][0].0 == normalized.index_spec());
        }
        out
    }

    /// Records this single-value payload spread across `reference`'s
    /// shape: a broadcast that reads the reference for its shape alone,
    /// one node, no operand edge.
    pub fn broadcast_like<E>(self, tape: &mut Tape<E>, reference: Value) -> (out: Value)
        requires
            old(tape).well_formed(),
            old(tape).holds(self),
            old(tape).holds(reference),
            fits(old(tape).extents(self)),
            volume_of(old(tape).extents(self)) == 1,
        ensures
            final(tape).well_formed(),
            final(tape).appends(old(tape), 1),
            final(tape).names(out, old(tape).len_spec()),
            final(tape).opcodes_spec()[old(tape).len_spec() as int] matches Opcode::Broadcast { shape } && shape@ == old(tape).extents(reference),
            final(tape).node_is(old(tape).len_spec() as int, seq![self], old(tape).extents(reference)),
            rules_hold(*old(tape)) ==> rules_hold(*final(tape)),
    {
        let shape = reference.shape(tape);
        self.broadcast(tape, shape)
    }

    /// Records this value repeated along `axis` to match `reference`'s
    /// shape: a broadcast along the axis that reads the reference for its
    /// extent alone, one node, no operand edge.
    pub fn broadcast_along_like<E>(self, tape: &mut Tape<E>, axis: usize, reference: Value) -> (out: Value)
        requires
            old(tape).well_formed(),
            old(tape).holds(self),
            old(tape).holds(reference),
            axis < old(tape).extents(reference).len(),
            old(tape).extents(self) == old(tape).extents(reference).remove(axis as int),
            old(tape).extents(reference)[axis as int] > 0,
        ensures
            final(tape).well_formed(),
            final(tape).appends(old(tape), 1),
            final(tape).names(out, old(tape).len_spec()),
            final(tape).opcodes_spec()[old(tape).len_spec() as int]
                == (Opcode::BroadcastAlong { axis, extent: old(tape).extents(reference)[axis as int] }),
            final(tape).node_is(old(tape).len_spec() as int, seq![self], old(tape).extents(reference)),
            rules_hold(*old(tape)) ==> rules_hold(*final(tape)),
    {
        let reference_shape = reference.shape(tape);
        let extent = reference_shape.extent(axis);
        proof {
            let full = tape.extents(reference);
            assert(full.remove(axis as int).insert(axis as int, full[axis as int]) =~= full);
        }
        self.broadcast_along(tape, axis, extent)
    }

    /// Records the transposition of this value -- its axes reversed -- as
    /// a permutation by the descending order, and returns a proxy to it.
    pub fn transpose<E>(self, tape: &mut Tape<E>) -> (out: Value)
        requires
            old(tape).well_formed(),
            old(tape).holds(self),
            old(tape).extents(self).len() <= 2,
        ensures
            final(tape).well_formed(),
            final(tape).appends(old(tape), 1),
            final(tape).names(out, old(tape).len_spec()),
            final(tape).opcodes_spec()[old(tape).len_spec() as int] matches Opcode::Permute { order }
                && order@ == descending(old(tape).extents(self).len()),
            final(tape).node_is(old(tape).len_spec() as int, seq![self], old(tape).extents(self).reverse()),
            rules_hold(*old(tape)) ==> rules_hold(*final(tape)),
    {
        let shape = self.shape(tape);
        let rank = shape.rank();
        let mut order: Vec<usize> = Vec::new();
        let mut position: usize = 0;
        while position < rank
            invariant
                position <= rank,
                order@ == descending(rank as nat).take(position as int),
            decreases rank - position,
        {
            order.push(rank - 1 - position);
            position += 1;
            assert(order@ =~= descending(rank as nat).take(position as int));
        }
        proof {
            let axes = tape.extents(self);
            assert(order@ =~= descending(rank as nat));
            assert(is_permutation(order@, axes.len()));
            assert(permuted(axes, order@) =~= axes.reverse());
        }
        self.permute(tape, order)
    }

    /// Records this value with a new extent-one axis inserted at `axis`: a
    /// reshape that leaves the elements unchanged.
    pub fn unsqueeze<E>(self, tape: &mut Tape<E>, axis: usize) -> (out: Value)
        requires
            old(tape).well_formed(),
            old(tape).holds(self),
            axis <= old(tape).extents(self).len(),
            fits(old(tape).extents(self)),
        ensures
            final(tape).well_formed(),
            final(tape).appends(old(tape), 1),
            final(tape).names(out, old(tape).len_spec()),
            final(tape).opcodes_spec()[old(tape).len_spec() as int] matches Opcode::Reshape { shape }
                && shape@ == old(tape).extents(self).insert(axis as int, 1),
            final(tape).node_is(old(tape).len_spec() as int, seq![self], old(tape).extents(self).insert(axis as int, 1)),
            rules_hold(*old(tape)) ==> rules_hold(*final(tape)),
    {
        let shape = self.shape(tape);
        let mut axes = vstd::slice::slice_to_vec(shape.axes());
        axes.insert(axis, 1);
        proof {
            lemma_unit_axis(tape.extents(self), axis as int);
        }
        self.reshape(tape, Shape::new(axes))
    }

    /// Records this value with the extent-one axis at `axis` removed: a
    /// reshape that leaves the elements unchanged.
    pub fn squeeze<E>(self, tape: &mut Tape<E>, axis: usize) -> (out: Value)
        requires
            old(tape).well_formed(),
            old(tape).holds(self),
            axis < old(tape).extents(self).len(),
            old(tape).extents(self)[axis as int] == 1,
            fits(old(tape).extents(self)),
        ensures
            final(tape).well_formed(),
            final(tape).appends(old(tape), 1),
            final(tape).names(out, old(tape).len_spec()),
            final(tape).opcodes_spec()[old(tape).len_spec() as int] matches Opcode::Reshape { shape }
                && shape@ == old(tape).extents(self).remove(axis as int),
            final(tape).node_is(old(tape).len_spec() as int, seq![self], old(tape).extents(self).remove(axis as int)),
            rules_hold(*old(tape)) ==> rules_hold(*final(tape)),
    {
        let shape = self.shape(tape);
        let mut axes = vstd::slice::slice_to_vec(shape.axes());
        axes.remove(axis);
        proof {
            lemma_unit_axis_removed(tape.extents(self), axis as int);
        }
        self.reshape(tape, Shape::new(axes))
    }

    /// Records this value broadcast to `shape` under the right-aligned
    /// rule, and returns a proxy to it.
    ///
    /// The shapes align from the trailing axis: each source axis either
    /// matches its aligned target axis or has extent one, in which case
    /// it is repeated to the target extent. An equal shape records
    /// nothing; a single-element source is spread in one node; otherwise
    /// a right-aligning reshape prepends the missing leading axes, then
    /// each repeated axis is squeezed and repeated along.
    pub fn broadcast_to<E>(self, tape: &mut Tape<E>, shape: Shape) -> (out: Value)
        requires
            old(tape).well_formed(),
            old(tape).holds(self),
            old(tape).extents(self) != shape@ ==> {
                &&& broadcastable(old(tape).extents(self), shape@)
                &&& fits(old(tape).extents(self))
                &&& volume_of(old(tape).extents(self)) != 1 ==> repeatable(old(tape).extents(self), shape@)
            },
        ensures
            final(tape).well_formed(),
            final(tape).len_spec() >= old(tape).len_spec(),
            final(tape).appends(old(tape), (final(tape).len_spec() - old(tape).len_spec()) as nat),
            final(tape).holds(out),
            final(tape).extents(out) == shape@,
            old(tape).extents(self) == shape@ ==> out == self && final(tape).len_spec() == old(tape).len_spec(),
            old(tape).extents(self) != shape@ ==> {
                &&& final(tape).len_spec() > old(tape).len_spec()
                &&& final(tape).names(out, (final(tape).len_spec() - 1) as nat)
                &&& forall|index: int| old(tape).len_spec() <= index < final(tape).len_spec()
                    ==> #[trigger] broadcast_step(*final(tape), old(tape).len_spec(), self, index)
            },
            old(tape).extents(self) != shape@ && volume_of(old(tape).extents(self)) == 1 ==> {
                &&& final(tape).len_spec() == old(tape).len_spec() + 1
                &&& final(tape).opcodes_spec()[old(tape).len_spec() as int] matches Opcode::Broadcast { shape: spread }
                &&& spread@ == shape@
            },
            old(tape).extents(self) != shape@ && volume_of(old(tape).extents(self)) != 1 ==> {
                &&& final(tape).len_spec() == old(tape).len_spec() + lead(old(tape).extents(self), shape@) + 2
                    * repeats_below(old(tape).extents(self), shape@, shape@.len() as int)
                &&& lead(old(tape).extents(self), shape@) == 1 ==> (final(tape).opcodes_spec()[old(tape).len_spec() as int]
                    matches Opcode::Reshape { shape: lined } && lined@ == aligned(old(tape).extents(self), shape@.len()))
                &&& repeat_steps(*final(tape), old(tape).len_spec(), old(tape).extents(self), shape@, shape@.len() as int)
            },
            rules_hold(*old(tape)) ==> rules_hold(*final(tape)),
    {
        let ghost start = *tape;
        let ghost source_axes = tape.extents(self);
        let ghost target_axes = shape@;
        let source = self.shape(tape);
        if source.same_as(&shape) {
            proof {
                Tape::lemma_appends_nothing(start);
            }
            return self;
        }
        if source.volume() == 1 {
            let out = self.broadcast(tape, shape);
            proof {
                assert(broadcast_step(*tape, start.len_spec(), self, start.len_spec() as int));
            }
            return out;
        }
        let rank = shape.rank();
        let offset = rank - source.rank();
        let ghost lined = aligned(source_axes, rank as nat);
        proof {
            lemma_leading_ones(source_axes, offset as nat);
        }
        let mut current = if offset == 0 {
            assert(lined =~= source_axes);
            self
        } else {
            let mut axes: Vec<usize> = Vec::new();
            let mut k: usize = 0;
            while k < offset
                invariant
                    k <= offset,
                    axes@ == Seq::new(k as nat, |i: int| 1usize),
                decreases offset - k,
            {
                axes.push(1);
                k += 1;
                assert(axes@ =~= Seq::new(k as nat, |i: int| 1usize));
            }
            let extents = source.axes();
            let mut k: usize = 0;
            while k < extents.len()
                invariant
                    k <= extents@.len(),
                    axes@ == Seq::new(offset as nat, |i: int| 1usize) + extents@.take(k as int),
                decreases extents@.len() - k,
            {
                axes.push(extents[k]);
                k += 1;
                assert(axes@ =~= Seq::new(offset as nat, |i: int| 1usize) + extents@.take(k as int));
            }
            assert(extents@.take(k as int) =~= extents@);
            assert(axes@ =~= lined);
            let out = self.reshape(tape, Shape::new(axes));
            proof {
                assert(broadcast_step(*tape, start.len_spec(), self, start.len_spec() as int));
            }
            out
        };
        proof {
            assert(stage(source_axes, target_axes, 0) =~= lined);
            if offset == 0 {
                Tape::lemma_appends_nothing(start);
            }
        }
        let mut axis: usize = 0;
        while axis < rank
            invariant
                start.well_formed(),
                start.holds(self),
                source_axes == start.extents(self),
                target_axes == shape@,
                rank == target_axes.len(),
                offset == rank - source_axes.len(),
                lined == aligned(source_axes, rank as nat),
                broadcastable(source_axes, target_axes),
                repeatable(source_axes, target_axes),
                source_axes != target_axes,
                axis <= rank,
                tape.well_formed(),
                tape.len_spec() >= start.len_spec(),
                tape.appends(&start, (tape.len_spec() - start.len_spec()) as nat),
                tape.holds(current),
                tape.extents(current) == stage(source_axes, target_axes, axis as int),
                tape.len_spec() == start.len_spec() ==> current == self,
                tape.len_spec() > start.len_spec() ==> tape.names(current, (tape.len_spec() - 1) as nat),
                forall|index: int| start.len_spec() <= index < tape.len_spec()
                    ==> #[trigger] broadcast_step(*tape, start.len_spec(), self, index),
                tape.len_spec() == start.len_spec() + lead(source_axes, target_axes) + 2 * repeats_below(
                    source_axes, target_axes, axis as int),
                lead(source_axes, target_axes) == 1 ==> (tape.opcodes_spec()[start.len_spec() as int]
                    matches Opcode::Reshape { shape: lined_shape } && lined_shape@ == lined),
                repeat_steps(*tape, start.len_spec(), source_axes, target_axes, axis as int),
                rules_hold(start) ==> rules_hold(*tape),
            decreases rank - axis,
        {
            let current_shape = current.shape(tape);
            let extent = shape.extent(axis as usize);
            let ghost staged = stage(source_axes, target_axes, axis as int);
            assert(staged[axis as int] == lined[axis as int]);
            if current_shape.extent(axis) != extent {
                proof {
                    if axis >= offset {
                        assert(lined[axis as int] == source_axes[axis - offset]);
                    }
                    assert(lined[axis as int] == 1);
                    assert(fits(staged) && extent > 0);
                }
                let ghost before = *tape;
                let squeezed = current.squeeze(tape, axis);
                let ghost middle = *tape;
                let repeated = squeezed.broadcast_along(tape, axis, extent);
                proof {
                    Tape::lemma_appends_chain(before, middle, *tape, 1, 1);
                    Tape::lemma_appends_chain(start, before, *tape, (before.len_spec() - start.len_spec()) as nat, 2);
                    assert(staged.remove(axis as int).insert(axis as int, extent)
                        =~= stage(source_axes, target_axes, axis + 1));
                    lemma_repeats_kept(before, *tape, 2, start.len_spec(), source_axes, target_axes, axis as int);
                    if lead(source_axes, target_axes) == 1 {
                        Tape::lemma_appends_keeps(before, *tape, 2, start.len_spec() as int);
                    }
                    Tape::lemma_appends_keeps(middle, *tape, 1, before.len_spec() as int);
                    assert forall|k: int| 0 <= k < axis + 1 && aligned(source_axes, target_axes.len())[k]
                        != target_axes[k] implies {
                        &&& tape.opcodes_spec()[#[trigger] repeat_at(start.len_spec(), source_axes, target_axes, k)] matches Opcode::Reshape { shape: squeezed }
                        &&& squeezed@ == stage(source_axes, target_axes, k).remove(k)
                        &&& tape.opcodes_spec()[repeat_at(start.len_spec(), source_axes, target_axes, k) + 1] == (Opcode::BroadcastAlong {
                            axis: k as usize,
                            extent: target_axes[k],
                        })
                    } by {
                        if k < axis {
                            assert(repeat_steps(*tape, start.len_spec(), source_axes, target_axes, axis as int));
                        }
                    }
                    assert forall|index: int| start.len_spec() <= index < tape.len_spec()
                        implies #[trigger] broadcast_step(*tape, start.len_spec(), self, index) by {
                        if index < before.len_spec() {
                            assert(broadcast_step(before, start.len_spec(), self, index));
                            Tape::lemma_appends_keeps(before, *tape, 2, index);
                        } else if index == before.len_spec() {
                            Tape::lemma_appends_keeps(middle, *tape, 1, index);
                        }
                    }
                }
                current = repeated;
            } else {
                proof {
                    assert(staged =~= stage(source_axes, target_axes, axis + 1));
                }
            }
            axis += 1;
        }
        proof {
            assert(stage(source_axes, target_axes, rank as int) =~= target_axes);
            if tape.len_spec() == start.len_spec() {
                assert(source_axes =~= lined);
                assert(false);
            }
        }
        current
    }
}

/// Prepending extent-one axes changes neither the volume of a shape nor
/// whether its volume is representable.
proof fn lemma_leading_ones(source: Seq<usize>, count: nat)
    ensures
        volume_of(Seq::new(count, |i: int| 1usize) + source) == volume_of(source),
        fits(Seq::new(count, |i: int| 1usize) + source) == fits(source),
    decreases count,
{
    if count == 0 {
        assert(Seq::new(count, |i: int| 1usize) + source =~= source);
    } else {
        lemma_leading_ones(source, (count - 1) as nat);
        let shorter = Seq::new((count - 1) as nat, |i: int| 1usize) + source;
        assert(Seq::new(count, |i: int| 1usize) + source =~= shorter.insert(0, 1));
        lemma_unit_axis(shorter, 0);
    }
}


/// Whether `later` keeps node `index` of `earlier` as it was.
pub open spec fn kept<E>(earlier: Tape<E>, later: Tape<E>, index: int) -> bool {
    &&& later.opcodes_spec()[index] == earlier.opcodes_spec()[index]
    &&& later.links_spec()[index] == earlier.links_spec()[index]
    &&& later.shapes_spec()[index] == earlier.shapes_spec()[index]
    &&& later.counts_spec()[index] == earlier.counts_spec()[index]
}

/// Every node recorded on `earlier` is kept by a tape that appends to it.
proof fn lemma_kept<E>(earlier: Tape<E>, later: Tape<E>, count: nat, index: nat)
    requires
        earlier.well_formed(),
        later.well_formed(),
        later.appends(&earlier, count),
        index < earlier.len_spec(),
    ensures
        kept(earlier, later, index as int),
{
    Tape::lemma_appends_keeps(earlier, later, count, index as int);
}

impl Value {
    /// Records the absolute value of this value as the composition
    /// `self.maximum(-self)`; the subgradient at zero is one, by
    /// `maximum`'s left-biased tie rule.
    pub fn abs<E>(self, tape: &mut Tape<E>) -> (out: Value)
        requires
            old(tape).well_formed(),
            old(tape).holds(self),
        ensures
            final(tape).well_formed(),
            final(tape).appends(old(tape), 2),
            final(tape).names(out, old(tape).len_spec() + 1),
            final(tape).node_reads(old(tape).len_spec(), Opcode::Neg, seq![self.index_spec()], old(tape).extents(self)),
            final(tape).node_reads(old(tape).len_spec() + 1, Opcode::Maximum,
                seq![self.index_spec(), old(tape).len_spec()], old(tape).extents(self)),
            rules_hold(*old(tape)) ==> rules_hold(*final(tape)),
    {
        let ghost start = *tape;
        let negated = self.neg(tape);
        let ghost middle = *tape;
        let out = self.maximum(tape, negated);
        proof {
            Tape::lemma_appends_chain(start, middle, *tape, 1, 1);
            lemma_kept(middle, *tape, 1, start.len_spec());
        }
        out
    }

    /// Records the rectified linear unit of this value as the composition
    /// `self.maximum(zero)`, where the zero enters the graph as a counted
    /// literal of this value's shape; the subgradient at zero is one.
    pub fn relu<E>(self, tape: &mut Tape<E>) -> (out: Value)
        requires
            old(tape).well_formed(),
            old(tape).holds(self),
        ensures
            final(tape).well_formed(),
            final(tape).appends(old(tape), 2),
            final(tape).names(out, old(tape).len_spec() + 1),
            final(tape).node_reads(old(tape).len_spec(), Opcode::Leaf, seq![], old(tape).extents(self)),
            final(tape).counts_spec()[old(tape).len_spec() as int] == Some(0usize),
            final(tape).node_reads(old(tape).len_spec() + 1, Opcode::Maximum,
                seq![self.index_spec(), old(tape).len_spec()], old(tape).extents(self)),
            rules_hold(*old(tape)) ==> rules_hold(*final(tape)),
    {
        let ghost start = *tape;
        let shape = self.shape(tape);
        let zero = tape.counted(shape, 0);
        let ghost middle = *tape;
        let out = self.maximum(tape, zero);
        proof {
            Tape::lemma_appends_chain(start, middle, *tape, 1, 1);
            lemma_kept(middle, *tape, 1, start.len_spec());
        }
        out
    }

    /// Records the softplus of this value, `ln(1 + e^x)`, as the stable
    /// split `self.relu() + log1p(exp(-|x|))`: finite and accurate over the
    /// whole line.
    pub fn softplus<E>(self, tape: &mut Tape<E>) -> (out: Value)
        requires
            old(tape).well_formed(),
            old(tape).holds(self),
        ensures
            final(tape).well_formed(),
            final(tape).appends(old(tape), 8),
            final(tape).names(out, old(tape).len_spec() + 7),
            final(tape).extents(out) == old(tape).extents(self),
            final(tape).node_reads(old(tape).len_spec(), Opcode::Leaf, seq![], old(tape).extents(self)),
            final(tape).counts_spec()[old(tape).len_spec() as int] == Some(0usize),
            final(tape).node_reads(old(tape).len_spec() + 1, Opcode::Maximum,
                seq![self.index_spec(), old(tape).len_spec()], old(tape).extents(self)),
            final(tape).node_reads(old(tape).len_spec() + 2, Opcode::Neg, seq![self.index_spec()], old(tape).extents(self)),
            final(tape).node_reads(old(tape).len_spec() + 3, Opcode::Maximum,
                seq![self.index_spec(), old(tape).len_spec() + 2], old(tape).extents(self)),
            final(tape).node_reads(old(tape).len_spec() + 4, Opcode::Neg,
                seq![old(tape).len_spec() + 3], old(tape).extents(self)),
            final(tape).node_reads(old(tape).len_spec() + 5, Opcode::ElementMap { operation: MapOperation::Exp },
                seq![old(tape).len_spec() + 4], old(tape).extents(self)),
            final(tape).node_reads(old(tape).len_spec() + 6, Opcode::ElementMap { operation: MapOperation::Log1p },
                seq![old(tape).len_spec() + 5], old(tape).extents(self)),
            final(tape).node_reads(old(tape).len_spec() + 7, Opcode::Add,
                seq![old(tape).len_spec() + 1, old(tape).len_spec() + 6], old(tape).extents(self)),
            rules_hold(*old(tape)) ==> rules_hold(*final(tape)),
    {
        let ghost start = *tape;
        let ghost n = start.len_spec();
        let rectified = self.relu(tape);
        let ghost after_relu = *tape;
        let magnitude = self.abs(tape);
        let ghost after_abs = *tape;
        let negated = magnitude.neg(tape);
        let ghost after_neg = *tape;
        let exponent = negated.map(tape, MapOperation::Exp);
        let ghost after_exp = *tape;
        let tail = exponent.map(tape, MapOperation::Log1p);
        let ghost after_log = *tape;
        let out = rectified.add(tape, tail);
        proof {
            Tape::lemma_appends_chain(start, after_relu, after_abs, 2, 2);
            Tape::lemma_appends_chain(start, after_abs, after_neg, 4, 1);
            Tape::lemma_appends_chain(start, after_neg, after_exp, 5, 1);
            Tape::lemma_appends_chain(start, after_exp, after_log, 6, 1);
            Tape::lemma_appends_chain(start, after_log, *tape, 7, 1);
            Tape::lemma_appends_chain(after_relu, after_abs, after_neg, 2, 1);
            Tape::lemma_appends_chain(after_relu, after_neg, after_exp, 3, 1);
            Tape::lemma_appends_chain(after_relu, after_exp, after_log, 4, 1);
            Tape::lemma_appends_chain(after_relu, after_log, *tape, 5, 1);
            Tape::lemma_appends_chain(after_abs, after_neg, after_exp, 1, 1);
            Tape::lemma_appends_chain(after_abs, after_exp, after_log, 2, 1);
            Tape::lemma_appends_chain(after_abs, after_log, *tape, 3, 1);
            Tape::lemma_appends_chain(after_neg, after_exp, after_log, 1, 1);
            Tape::lemma_appends_chain(after_neg, after_log, *tape, 2, 1);
            Tape::lemma_appends_chain(after_exp, after_log, *tape, 1, 1);
            lemma_kept(after_relu, *tape, 6, n);
            lemma_kept(after_relu, *tape, 6, n + 1);
            lemma_kept(after_abs, *tape, 4, n + 2);
            lemma_kept(after_abs, *tape, 4, n + 3);
            lemma_kept(after_neg, *tape, 3, n + 4);
            lemma_kept(after_exp, *tape, 2, n + 5);
            lemma_kept(after_log, *tape, 1, n + 6);
        }
        out
    }

    /// Records the exact Gaussian error linear unit of this value,
    /// `x * (1 + erf(x / sqrt(2))) / 2`, with the one and the two entering
    /// as counted literals and `sqrt(2)` computed from the counted two.
    pub fn gelu<E>(self, tape: &mut Tape<E>) -> (out: Value)
        requires
            old(tape).well_formed(),
            old(tape).holds(self),
        ensures
            final(tape).well_formed(),
            final(tape).appends(old(tape), 8),
            final(tape).names(out, old(tape).len_spec() + 7),
            final(tape).extents(out) == old(tape).extents(self),
            final(tape).node_reads(old(tape).len_spec(), Opcode::Leaf, seq![], old(tape).extents(self)),
            final(tape).counts_spec()[old(tape).len_spec() as int] == Some(1usize),
            final(tape).node_reads(old(tape).len_spec() + 1, Opcode::Leaf, seq![], old(tape).extents(self)),
            final(tape).counts_spec()[old(tape).len_spec() + 1int] == Some(2usize),
            final(tape).node_reads(old(tape).len_spec() + 2, Opcode::ElementMap { operation: MapOperation::Sqrt },
                seq![old(tape).len_spec() + 1], old(tape).extents(self)),
            final(tape).node_reads(old(tape).len_spec() + 3, Opcode::Div,
                seq![self.index_spec(), old(tape).len_spec() + 2], old(tape).extents(self)),
            final(tape).node_reads(old(tape).len_spec() + 4, Opcode::ElementMap { operation: MapOperation::Erf },
                seq![old(tape).len_spec() + 3], old(tape).extents(self)),
            final(tape).node_reads(old(tape).len_spec() + 5, Opcode::Add,
                seq![old(tape).len_spec(), old(tape).len_spec() + 4], old(tape).extents(self)),
            final(tape).node_reads(old(tape).len_spec() + 6, Opcode::Mul,
                seq![self.index_spec(), old(tape).len_spec() + 5], old(tape).extents(self)),
            final(tape).node_reads(old(tape).len_spec() + 7, Opcode::Div,
                seq![old(tape).len_spec() + 6, old(tape).len_spec() + 1], old(tape).extents(self)),
            rules_hold(*old(tape)) ==> rules_hold(*final(tape)),
    {
        let ghost start = *tape;
        let ghost n = start.len_spec();
        let shape = self.shape(tape);
        let one = tape.counted(shape.clone(), 1);
        let ghost t1 = *tape;
        let two = tape.counted(shape, 2);
        let ghost t2 = *tape;
        let root = two.map(tape, MapOperation::Sqrt);
        let ghost t3 = *tape;
        let scaled = self.div(tape, root);
        let ghost t4 = *tape;
        let error = scaled.map(tape, MapOperation::Erf);
        let ghost t5 = *tape;
        let shifted = one.add(tape, error);
        let ghost t6 = *tape;
        let product = self.mul(tape, shifted);
        let ghost t7 = *tape;
        let out = product.div(tape, two);
        proof {
            Tape::lemma_appends_chain(t6, t7, *tape, 1, 1);
            Tape::lemma_appends_chain(t5, t6, *tape, 1, 2);
            Tape::lemma_appends_chain(t4, t5, *tape, 1, 3);
            Tape::lemma_appends_chain(t3, t4, *tape, 1, 4);
            Tape::lemma_appends_chain(t2, t3, *tape, 1, 5);
            Tape::lemma_appends_chain(t1, t2, *tape, 1, 6);
            Tape::lemma_appends_chain(start, t1, *tape, 1, 7);
            lemma_kept(t1, *tape, 7, n);
            lemma_kept(t2, *tape, 6, n + 1);
            lemma_kept(t3, *tape, 5, n + 2);
            lemma_kept(t4, *tape, 4, n + 3);
            lemma_kept(t5, *tape, 3, n + 4);
            lemma_kept(t6, *tape, 2, n + 5);
            lemma_kept(t7, *tape, 1, n + 6);
        }
        out
    }

    /// Records the mean of this value along `axis` as the composition
    /// `self.sum_along(axis) / extent`, where the reduced axis's extent
    /// enters the graph as a counted literal; the axis is removed.
    pub fn mean_along<E>(self, tape: &mut Tape<E>, axis: usize) -> (out: Value)
        requires
            old(tape).well_formed(),
            old(tape).holds(self),
            axis < old(tape).extents(self).len(),
        ensures
            final(tape).well_formed(),
            final(tape).appends(old(tape), 3),
            final(tape).names(out, old(tape).len_spec() + 2),
            final(tape).node_reads(old(tape).len_spec(), Opcode::SumAlong { axis }, seq![self.index_spec()],
                old(tape).extents(self).remove(axis as int)),
            final(tape).node_reads(old(tape).len_spec() + 1, Opcode::Leaf, seq![], old(tape).extents(self).remove(axis as int)),
            final(tape).counts_spec()[old(tape).len_spec() + 1int] == Some(old(tape).extents(self)[axis as int]),
            final(tape).node_reads(old(tape).len_spec() + 2, Opcode::Div,
                seq![old(tape).len_spec(), old(tape).len_spec() + 1], old(tape).extents(self).remove(axis as int)),
            rules_hold(*old(tape)) && old(tape).extents(self)[axis as int] > 0 ==> rules_hold(*final(tape)),
    {
        let ghost start = *tape;
        let ghost n = start.len_spec();
        let shape = self.shape(tape);
        let extent = shape.extent(axis);
        let total = self.sum_along(tape, axis);
        let ghost t1 = *tape;
        let count = tape.counted(shape.without_axis(axis), extent);
        let ghost t2 = *tape;
        let out = total.div(tape, count);
        proof {
            Tape::lemma_appends_chain(t1, t2, *tape, 1, 1);
            Tape::lemma_appends_chain(start, t1, *tape, 1, 2);
            lemma_kept(t1, *tape, 2, n);
            lemma_kept(t2, *tape, 1, n + 1);
        }
        out
    }
}


/// The sum of the extents along `axis` of the first `count` of `values`.
pub open spec fn extent_total<E>(tape: Tape<E>, values: Seq<Value>, axis: int, count: nat) -> nat
    decreases count,
{
    if count == 0 {
        0
    } else {
        extent_total(tape, values, axis, (count - 1) as nat) + tape.extents(values[count - 1])[axis] as nat
    }
}

/// The position of the pad of operand `i` in a concatenation recorded
/// from `base`: the first operand's pad, then a pad and a sum per operand.
pub open spec fn pad_at(base: nat, i: int) -> int {
    if i == 0 { base as int } else { base + 2 * i - 1 }
}

/// The position of the running sum through operand `i` in a
/// concatenation recorded from `base`: the first pad itself, then the sum
/// that adds operand `i`'s pad.
pub open spec fn sum_at(base: nat, i: int) -> int {
    if i == 0 { base as int } else { base + 2 * i }
}

/// Whether the first `count` operands of a concatenation are recorded from
/// `base` on `tape`: operand `i`, the node `sources[i]` of shape
/// `shapes[i]`, padded along `axis` at `starts[i]` to `full`, and the pads
/// summed left to right.
pub open spec fn concat_nodes<E>(
    tape: Tape<E>,
    base: nat,
    sources: Seq<nat>,
    starts: Seq<nat>,
    axis: usize,
    full: usize,
    shapes: Seq<Seq<usize>>,
    count: int,
) -> bool {
    &&& forall|i: int| 0 <= i < count ==> tape.node_reads(
        #[trigger] pad_at(base, i) as nat,
        Opcode::Pad { axis, start: starts[i] as usize, full_extent: full },
        seq![sources[i]],
        shapes[i].update(axis as int, full),
    )
    &&& forall|i: int| 1 <= i < count ==> tape.node_reads(
        #[trigger] sum_at(base, i) as nat,
        Opcode::Add,
        seq![sum_at(base, i - 1) as nat, pad_at(base, i) as nat],
        shapes[0].update(axis as int, full),
    )
}

/// The node positions of `values`.
pub open spec fn positions(values: Seq<Value>) -> Seq<nat> {
    values.map_values(|value: Value| value.index_spec())
}

/// The running offsets of `values` along `axis`: each operand starts where
/// the ones before it end.
pub open spec fn running_offsets<E>(tape: Tape<E>, values: Seq<Value>, axis: int) -> Seq<nat> {
    Seq::new(values.len(), |i: int| extent_total(tape, values, axis, i as nat))
}

/// The recorded shapes of `values`.
pub open spec fn shapes_of<E>(tape: Tape<E>, values: Seq<Value>) -> Seq<Seq<usize>> {
    values.map_values(|value: Value| tape.extents(value))
}

/// A recorded concatenation survives appending: every node it names is
/// kept.
proof fn lemma_concat_kept<E>(
    earlier: Tape<E>,
    later: Tape<E>,
    count: nat,
    base: nat,
    sources: Seq<nat>,
    starts: Seq<nat>,
    axis: usize,
    full: usize,
    shapes: Seq<Seq<usize>>,
    done: int,
)
    requires
        earlier.well_formed(),
        later.well_formed(),
        later.appends(&earlier, count),
        done >= 1,
        sum_at(base, done - 1) < earlier.len_spec(),
        concat_nodes(earlier, base, sources, starts, axis, full, shapes, done),
    ensures
        concat_nodes(later, base, sources, starts, axis, full, shapes, done),
{
    assert forall|i: int| 0 <= i < done implies later.node_reads(
        #[trigger] pad_at(base, i) as nat,
        Opcode::Pad { axis, start: starts[i] as usize, full_extent: full },
        seq![sources[i]],
        shapes[i].update(axis as int, full),
    ) by {
        assert(earlier.node_reads(pad_at(base, i) as nat, Opcode::Pad { axis, start: starts[i] as usize, full_extent: full },
            seq![sources[i]], shapes[i].update(axis as int, full)));
        Tape::lemma_appends_keeps(earlier, later, count, pad_at(base, i));
    }
    assert forall|i: int| 1 <= i < done implies later.node_reads(
        #[trigger] sum_at(base, i) as nat,
        Opcode::Add,
        seq![sum_at(base, i - 1) as nat, pad_at(base, i) as nat],
        shapes[0].update(axis as int, full),
    ) by {
        assert(earlier.node_reads(sum_at(base, i) as nat, Opcode::Add,
            seq![sum_at(base, i - 1) as nat, pad_at(base, i) as nat], shapes[0].update(axis as int, full)));
        Tape::lemma_appends_keeps(earlier, later, count, sum_at(base, i));
    }
}

/// Recording operand `here`'s pad, and past the first operand the sum
/// that adds it, extends a recorded concatenation by that operand.
#[verifier::spinoff_prover]
#[verifier::rlimit(40)]
proof fn lemma_concat_step<E>(
    start: Tape<E>,
    items: Seq<Value>,
    axis: usize,
    combined: usize,
    here: int,
    before: Tape<E>,
    middle: Tape<E>,
    after: Tape<E>,
    padded: Value,
    total: Option<Value>,
    next: Value,
)
    requires
        concatenable(start, items, axis as int),
        0 <= here < items.len(),
        before.well_formed(),
        middle.well_formed(),
        after.well_formed(),
        before.appends(&start, (before.len_spec() - start.len_spec()) as nat),
        before.len_spec() == pad_at(start.len_spec(), here),
        concat_nodes(before, start.len_spec(), positions(items), running_offsets(start, items, axis as int), axis,
            combined, shapes_of(start, items), here),
        middle.records(&before, padded, Opcode::Pad {
            axis,
            start: extent_total(start, items, axis as int, here as nat) as usize,
            full_extent: combined,
        }, seq![items[here]], start.extents(items[here]).update(axis as int, combined)),
        here == 0 ==> total is None && after == middle && next == padded,
        here > 0 ==> (total matches Some(sum) && before.names(sum, sum_at(start.len_spec(), here - 1) as nat)
            && after.records(&middle, next, Opcode::Add, seq![sum, padded],
                start.extents(items[0]).update(axis as int, combined))),
    ensures
        concat_nodes(after, start.len_spec(), positions(items), running_offsets(start, items, axis as int), axis,
            combined, shapes_of(start, items), here + 1),
{
    let base = start.len_spec();
    let sources = positions(items);
    let starts = running_offsets(start, items, axis as int);
    let shapes = shapes_of(start, items);
    assert(starts[here] == extent_total(start, items, axis as int, here as nat));
    assert(sources[here] == items[here].index_spec());
    assert(shapes[here] == start.extents(items[here]));
    assert(shapes[0] == start.extents(items[0]));
    assert(middle.node_reads(pad_at(base, here) as nat, Opcode::Pad { axis, start: starts[here] as usize, full_extent: combined },
        seq![sources[here]], shapes[here].update(axis as int, combined)));
    if here > 0 {
        Tape::lemma_appends_chain(before, middle, after, 1, 1);
        lemma_concat_kept(before, after, (after.len_spec() - before.len_spec()) as nat, base, sources, starts, axis,
            combined, shapes, here);
        Tape::lemma_appends_keeps(middle, after, 1, pad_at(base, here));
        assert(after.node_reads(sum_at(base, here) as nat, Opcode::Add,
            seq![sum_at(base, here - 1) as nat, pad_at(base, here) as nat], shapes[0].update(axis as int, combined)));
    }
    assert forall|j: int| 0 <= j < here + 1 implies after.node_reads(
        #[trigger] pad_at(base, j) as nat,
        Opcode::Pad { axis, start: starts[j] as usize, full_extent: combined },
        seq![sources[j]],
        shapes[j].update(axis as int, combined),
    ) by {
        if j < here {
            assert(concat_nodes(after, base, sources, starts, axis, combined, shapes, here));
        }
    }
    assert forall|j: int| 1 <= j < here + 1 implies after.node_reads(
        #[trigger] sum_at(base, j) as nat,
        Opcode::Add,
        seq![sum_at(base, j - 1) as nat, pad_at(base, j) as nat],
        shapes[0].update(axis as int, combined),
    ) by {
        if j < here {
            assert(concat_nodes(after, base, sources, starts, axis, combined, shapes, here));
        }
    }
}

/// The windows of a concatenation tile the combined axis: operand `i`
/// starts where operand `i - 1` ends, the first at zero, and the last ends
/// at the combined extent.
pub proof fn law_concat_windows_tile<E>(tape: Tape<E>, values: Seq<Value>, axis: int, i: int)
    requires
        0 <= i < values.len(),
    ensures
        running_offsets(tape, values, axis)[0] == 0,
        running_offsets(tape, values, axis)[i] + tape.extents(values[i])[axis] == if i + 1 < values.len() {
            running_offsets(tape, values, axis)[i + 1] as int
        } else {
            extent_total(tape, values, axis, values.len()) as int
        },
{
}

/// Whether `values` concatenate along `axis` on `tape`: at least one
/// value, all recorded there, `axis` in rank for each, the shapes equal
/// off the axis, and a representable combined extent.
pub open spec fn concatenable<E>(tape: Tape<E>, values: Seq<Value>, axis: int) -> bool {
    &&& values.len() > 0
    &&& forall|i: int| 0 <= i < values.len() ==> #[trigger] tape.holds(values[i])
    &&& forall|i: int| 0 <= i < values.len() ==> axis < (#[trigger] tape.extents(values[i])).len()
    &&& 0 <= axis
    &&& forall|i: int| 0 <= i < values.len()
        ==> (#[trigger] tape.extents(values[i])).remove(axis) == tape.extents(values[0]).remove(axis)
    &&& extent_total(tape, values, axis, values.len()) <= usize::MAX
}

/// Shapes equal off `axis` are equal once that axis is set alike.
proof fn lemma_equal_off_axis(left: Seq<usize>, right: Seq<usize>, axis: int, extent: usize)
    requires
        0 <= axis < left.len(),
        axis < right.len(),
        left.remove(axis) == right.remove(axis),
    ensures
        left.update(axis, extent) == right.update(axis, extent),
{
    assert(left.remove(axis).len() == left.len() - 1);
    assert(right.remove(axis).len() == right.len() - 1);
    assert(left.len() == right.len());
    assert forall|k: int| 0 <= k < left.len() implies #[trigger] left.update(axis, extent)[k] == right.update(axis, extent)[k] by {
        if k < axis {
            assert(left.remove(axis)[k] == left[k]);
            assert(right.remove(axis)[k] == right[k]);
            assert(left.remove(axis)[k] == right.remove(axis)[k]);
        } else if k > axis {
            assert(left.remove(axis)[k - 1] == left[k]);
            assert(right.remove(axis)[k - 1] == right[k]);
            assert(left.remove(axis)[k - 1] == right.remove(axis)[k - 1]);
        }
    }
    assert(left.update(axis, extent) =~= right.update(axis, extent));
}

/// Values recorded on `earlier` stay recorded, with their shapes, on a
/// tape that appends to it.
proof fn lemma_values_kept<E>(earlier: Tape<E>, later: Tape<E>, count: nat, values: Seq<Value>)
    requires
        earlier.well_formed(),
        later.well_formed(),
        later.appends(&earlier, count),
        forall|j: int| 0 <= j < values.len() ==> #[trigger] earlier.holds(values[j]),
    ensures
        forall|j: int| 0 <= j < values.len() ==> #[trigger] later.holds(values[j]),
        forall|j: int| 0 <= j < values.len() ==> #[trigger] later.extents(values[j]) == earlier.extents(values[j]),
{
    assert forall|j: int| 0 <= j < values.len() implies #[trigger] later.extents(values[j]) == earlier.extents(values[j]) by {
        assert(earlier.holds(values[j]));
        Tape::lemma_appends_keeps(earlier, later, count, values[j].index_spec() as int);
    }
    assert forall|j: int| 0 <= j < values.len() implies #[trigger] later.holds(values[j]) by {
        assert(earlier.holds(values[j]));
    }
}

/// Running extent totals grow with the count.
proof fn lemma_total_grows<E>(tape: Tape<E>, values: Seq<Value>, axis: int, count: nat, more: nat)
    requires
        count <= more,
    ensures
        extent_total(tape, values, axis, count) <= extent_total(tape, values, axis, more),
    decreases more - count,
{
    if count < more {
        lemma_total_grows(tape, values, axis, count, (more - 1) as nat);
    }
}

/// Totals read only the extents, which a tape that appends keeps.
proof fn lemma_total_kept<E>(earlier: Tape<E>, later: Tape<E>, values: Seq<Value>, axis: int, count: nat)
    requires
        count <= values.len(),
        forall|i: int| 0 <= i < values.len() ==> #[trigger] later.extents(values[i]) == earlier.extents(values[i]),
    ensures
        extent_total(later, values, axis, count) == extent_total(earlier, values, axis, count),
    decreases count,
{
    if count > 0 {
        lemma_total_kept(earlier, later, values, axis, (count - 1) as nat);
    }
}

/// Records the concatenation of `values` along `axis` and returns a proxy
/// to it: each value is padded with zeros to the combined extent at its
/// running offset, and the pads are summed. A single value is returned as
/// it is.
pub fn concat<E>(tape: &mut Tape<E>, values: &[Value], axis: usize) -> (out: Value)
    requires
        old(tape).well_formed(),
        concatenable(*old(tape), values@, axis as int),
    ensures
        final(tape).well_formed(),
        final(tape).len_spec() >= old(tape).len_spec(),
        final(tape).appends(old(tape), (final(tape).len_spec() - old(tape).len_spec()) as nat),
        final(tape).holds(out),
        final(tape).extents(out) == old(tape).extents(values@[0]).update(
            axis as int, extent_total(*old(tape), values@, axis as int, values@.len()) as usize),
        values@.len() == 1 ==> out == values@[0] && final(tape).len_spec() == old(tape).len_spec(),
        values@.len() > 1 ==> {
            &&& final(tape).len_spec() == old(tape).len_spec() + 2 * values@.len() - 1
            &&& final(tape).names(out, (final(tape).len_spec() - 1) as nat)
            &&& concat_nodes(
                *final(tape),
                old(tape).len_spec(),
                positions(values@),
                running_offsets(*old(tape), values@, axis as int),
                axis,
                extent_total(*old(tape), values@, axis as int, values@.len()) as usize,
                shapes_of(*old(tape), values@),
                values@.len() as int,
            )
        },
        rules_hold(*old(tape)) && (forall|j: int| 0 <= j < values@.len() ==> #[trigger] old(tape).extents(values@[j])[axis as int]
            > 0) ==> rules_hold(*final(tape)),
{
    let ghost start = *tape;
    let ghost items = values@;
    let ghost total_extent = extent_total(start, items, axis as int, items.len());
    let first = values[0];
    let reference = first.shape(tape);
    proof {
        assert(start.holds(items[0]));
        assert(start.extents(items[0]).remove(axis as int) == start.extents(items[0]).remove(axis as int));
    }
    if values.len() == 1 {
        proof {
            Tape::lemma_appends_nothing(start);
            assert(extent_total(start, items, axis as int, 0) == 0);
            assert(extent_total(start, items, axis as int, 1) == start.extents(items[0])[axis as int]);
            assert(start.extents(items[0]).update(axis as int, start.extents(items[0])[axis as int]) =~= start.extents(items[0]));
        }
        return first;
    }
    let mut combined: usize = 0;
    let mut i: usize = 0;
    while i < values.len()
        invariant
            items == values@,
            concatenable(start, items, axis as int),
            start.well_formed(),
            *tape == start,
            i <= items.len(),
            combined == extent_total(start, items, axis as int, i as nat),
        decreases items.len() - i,
    {
        proof {
            assert(start.holds(items[i as int]));
            assert(axis < start.extents(items[i as int]).len());
            lemma_total_grows(start, items, axis as int, (i + 1) as nat, items.len());
        }
        let extent = values[i].shape(tape).extent(axis);
        combined = combined + extent;
        i += 1;
    }
    let mut offset: usize = 0;
    let mut total: Option<Value> = None;
    let mut i: usize = 0;
    proof {
        Tape::lemma_appends_nothing(start);
    }
    while i < values.len()
        invariant
            items == values@,
            items.len() > 1,
            concatenable(start, items, axis as int),
            combined == total_extent,
            total_extent == extent_total(start, items, axis as int, items.len()),
            reference@ == start.extents(items[0]),
            start.well_formed(),
            tape.well_formed(),
            tape.len_spec() >= start.len_spec(),
            tape.appends(&start, (tape.len_spec() - start.len_spec()) as nat),
            forall|j: int| 0 <= j < items.len() ==> #[trigger] tape.holds(items[j]),
            forall|j: int| 0 <= j < items.len() ==> #[trigger] tape.extents(items[j]) == start.extents(items[j]),
            i <= items.len(),
            offset == extent_total(start, items, axis as int, i as nat),
            i == 0 ==> total is None && tape.len_spec() == start.len_spec(),
            i > 0 ==> (total matches Some(sum) && {
                &&& tape.holds(sum)
                &&& tape.names(sum, (tape.len_spec() - 1) as nat)
                &&& tape.extents(sum) == start.extents(items[0]).update(axis as int, combined)
                &&& tape.len_spec() == start.len_spec() + 2 * i - 1
            }),
            concat_nodes(*tape, start.len_spec(), positions(items), running_offsets(start, items, axis as int), axis,
                combined, shapes_of(start, items), i as int),
            rules_hold(start) && (forall|j: int| 0 <= j < items.len() ==> #[trigger] start.extents(items[j])[axis as int] > 0)
                ==> rules_hold(*tape),
        decreases items.len() - i,
    {
        let value = values[i];
        let ghost before = *tape;
        let extent = value.shape(tape).extent(axis);
        proof {
            if rules_hold(start) && (forall|j: int| 0 <= j < items.len() ==> #[trigger] start.extents(items[j])[axis as int] > 0) {
                assert(start.extents(items[i as int])[axis as int] > 0);
            }
            lemma_total_grows(start, items, axis as int, (i + 1) as nat, items.len());
            assert(offset + extent == extent_total(start, items, axis as int, (i + 1) as nat));
            lemma_equal_off_axis(start.extents(items[i as int]), start.extents(items[0]), axis as int, combined);
        }
        let padded = value.pad(tape, axis, offset, combined);
        let ghost middle = *tape;
        proof {
            Tape::lemma_appends_chain(start, before, middle, (before.len_spec() - start.len_spec()) as nat, 1);
            lemma_values_kept(before, middle, 1, items);
        }
        offset = offset + extent;
        let next = match total {
            Some(sum) => {
                proof {
                    Tape::lemma_appends_keeps(before, middle, 1, sum.index_spec() as int);
                }
                let added = sum.add(tape, padded);
                proof {
                    Tape::lemma_appends_chain(start, middle, *tape, (middle.len_spec() - start.len_spec()) as nat, 1);
                    Tape::lemma_appends_chain(before, middle, *tape, 1, 1);
                    lemma_values_kept(middle, *tape, 1, items);
                }
                added
            },
            None => {
                proof {
                    assert(tape.appends(&before, 1));
                }
                padded
            },
        };
        proof {
            lemma_concat_step(start, items, axis, combined, i as int, before, middle, *tape, padded, total, next);
        }
        total = Some(next);
        i += 1;
    }
    proof {
        assert(combined == total_extent);
    }
    match total {
        Some(sum) => sum,
        None => {
            assert(false);
            first
        },
    }
}

/// Whether the first `count` of `values` are lifted from `base` on `tape`:
/// node `base + j` reshapes `values[j]` to `shape` with an extent-one axis
/// inserted at `axis`.
pub open spec fn lifted_nodes<E>(tape: Tape<E>, base: nat, values: Seq<Value>, axis: usize, shape: Seq<usize>, count: int) -> bool {
    forall|j: int| 0 <= j < count ==> {
        &&& tape.opcodes_spec()[#[trigger] (base + j)] matches Opcode::Reshape { shape: lifted }
        &&& lifted@ == shape.insert(axis as int, 1)
        &&& tape.links_spec()[base + j].len() == 1
        &&& tape.links_spec()[base + j][0].0 == values[j].index_spec()
        &&& tape.shapes_spec()[base + j] == shape.insert(axis as int, 1)
    }
}

/// Lifted nodes survive appending.
proof fn lemma_lifted_kept<E>(
    earlier: Tape<E>,
    later: Tape<E>,
    count: nat,
    base: nat,
    values: Seq<Value>,
    axis: usize,
    shape: Seq<usize>,
    done: int,
)
    requires
        earlier.well_formed(),
        later.well_formed(),
        later.appends(&earlier, count),
        base + done <= earlier.len_spec(),
        lifted_nodes(earlier, base, values, axis, shape, done),
    ensures
        lifted_nodes(later, base, values, axis, shape, done),
{
    assert forall|j: int| 0 <= j < done implies {
        &&& later.opcodes_spec()[#[trigger] (base + j)] matches Opcode::Reshape { shape: lifted }
        &&& lifted@ == shape.insert(axis as int, 1)
        &&& later.links_spec()[base + j].len() == 1
        &&& later.links_spec()[base + j][0].0 == values[j].index_spec()
        &&& later.shapes_spec()[base + j] == shape.insert(axis as int, 1)
    } by {
        assert(earlier.opcodes_spec()[base + j] matches Opcode::Reshape { shape: lifted } && lifted@ == shape.insert(
            axis as int, 1));
        Tape::lemma_appends_keeps(earlier, later, count, base + j);
    }
}

/// Records the stacking of `values` along a new axis at `axis`: each
/// value gains an extent-one axis there and the lifted values
/// concatenate.
pub fn stack<E>(tape: &mut Tape<E>, values: &[Value], axis: usize) -> (out: Value)
    requires
        old(tape).well_formed(),
        values@.len() > 0,
        forall|i: int| 0 <= i < values@.len() ==> #[trigger] old(tape).holds(values@[i]),
        forall|i: int| 0 <= i < values@.len() ==> #[trigger] old(tape).extents(values@[i]) == old(tape).extents(values@[0]),
        axis <= old(tape).extents(values@[0]).len(),
        fits(old(tape).extents(values@[0])),
    ensures
        final(tape).well_formed(),
        final(tape).len_spec() >= old(tape).len_spec(),
        final(tape).appends(old(tape), (final(tape).len_spec() - old(tape).len_spec()) as nat),
        final(tape).holds(out),
        final(tape).extents(out) == old(tape).extents(values@[0]).insert(axis as int, values@.len() as usize),
        lifted_nodes(*final(tape), old(tape).len_spec(), values@, axis, old(tape).extents(values@[0]), values@.len() as int),
        values@.len() == 1 ==> final(tape).len_spec() == old(tape).len_spec() + 1
            && final(tape).names(out, old(tape).len_spec()),
        values@.len() > 1 ==> {
            &&& final(tape).len_spec() == old(tape).len_spec() + 3 * values@.len() - 1
            &&& final(tape).names(out, (final(tape).len_spec() - 1) as nat)
            &&& concat_nodes(
                *final(tape),
                old(tape).len_spec() + values@.len(),
                Seq::new(values@.len(), |j: int| (old(tape).len_spec() + j) as nat),
                Seq::new(values@.len(), |j: int| j as nat),
                axis,
                values@.len() as usize,
                Seq::new(values@.len(), |j: int| old(tape).extents(values@[0]).insert(axis as int, 1)),
                values@.len() as int,
            )
        },
        rules_hold(*old(tape)) ==> rules_hold(*final(tape)),
{
    let ghost start = *tape;
    let ghost items = values@;
    let ghost shape = start.extents(items[0]);
    let mut lifted: Vec<Value> = Vec::new();
    let mut i: usize = 0;
    proof {
        Tape::lemma_appends_nothing(start);
    }
    while i < values.len()
        invariant
            items == values@,
            items.len() > 0,
            forall|j: int| 0 <= j < items.len() ==> #[trigger] start.holds(items[j]),
            forall|j: int| 0 <= j < items.len() ==> #[trigger] start.extents(items[j]) == shape,
            axis <= shape.len(),
            fits(shape),
            start.well_formed(),
            tape.well_formed(),
            tape.len_spec() >= start.len_spec(),
            tape.appends(&start, (tape.len_spec() - start.len_spec()) as nat),
            i <= items.len(),
            lifted@.len() == i,
            forall|j: int| 0 <= j < i ==> #[trigger] tape.holds(lifted@[j]),
            forall|j: int| 0 <= j < i ==> #[trigger] tape.extents(lifted@[j]) == shape.insert(axis as int, 1),
            forall|j: int| 0 <= j < i ==> (#[trigger] lifted@[j]).index_spec() == start.len_spec() + j,
            tape.len_spec() == start.len_spec() + i,
            i > 0 ==> tape.names(lifted@[i - 1], (tape.len_spec() - 1) as nat),
            lifted_nodes(*tape, start.len_spec(), items, axis, shape, i as int),
            rules_hold(start) ==> rules_hold(*tape),
        decreases items.len() - i,
    {
        let ghost before = *tape;
        proof {
            lemma_values_kept(start, before, (before.len_spec() - start.len_spec()) as nat, items);
            assert(before.extents(items[i as int]) == shape);
        }
        let one = values[i].unsqueeze(tape, axis);
        proof {
            Tape::lemma_appends_chain(start, before, *tape, (before.len_spec() - start.len_spec()) as nat, 1);
            lemma_values_kept(before, *tape, 1, lifted@);
            lemma_lifted_kept(before, *tape, 1, start.len_spec(), items, axis, shape, i as int);
            assert forall|j: int| 0 <= j < i + 1 implies {
                &&& tape.opcodes_spec()[#[trigger] (start.len_spec() + j)] matches Opcode::Reshape { shape: lifted }
                &&& lifted@ == shape.insert(axis as int, 1)
                &&& tape.links_spec()[start.len_spec() + j].len() == 1
                &&& tape.links_spec()[start.len_spec() + j][0].0 == items[j].index_spec()
                &&& tape.shapes_spec()[start.len_spec() + j] == shape.insert(axis as int, 1)
            } by {
                if j < i {
                    assert(lifted_nodes(*tape, start.len_spec(), items, axis, shape, i as int));
                }
            }
        }
        let ghost earlier_rows = lifted@;
        lifted.push(one);
        proof {
            assert forall|j: int| 0 <= j < i + 1 implies #[trigger] tape.holds(lifted@[j])
                && tape.extents(lifted@[j]) == shape.insert(axis as int, 1) by {
                if j < i {
                    assert(lifted@[j] == earlier_rows[j]);
                }
            }
        }
        i += 1;
    }
    let ghost middle = *tape;
    proof {
        assert(lifted@.len() == items.len());
        let rows = lifted@;
        assert forall|j: int| 0 <= j < rows.len() implies (#[trigger] middle.extents(rows[j])).remove(axis as int)
            == middle.extents(rows[0]).remove(axis as int) by {
            assert(shape.insert(axis as int, 1).remove(axis as int) =~= shape);
        }
        lemma_unit_totals(middle, rows, axis as int, shape, rows.len());
        assert forall|j: int| 0 <= j < rows.len() implies #[trigger] middle.extents(rows[j])[axis as int] > 0 by {
            assert(shape.insert(axis as int, 1)[axis as int] == 1);
        }
        assert(shape.insert(axis as int, 1).update(axis as int, rows.len() as usize) =~= shape.insert(axis as int, rows.len() as usize));
    }
    let out = concat(tape, lifted.as_slice(), axis);
    proof {
        Tape::lemma_appends_chain(start, middle, *tape, (middle.len_spec() - start.len_spec()) as nat,
            (tape.len_spec() - middle.len_spec()) as nat);
        lemma_lifted_kept(middle, *tape, (tape.len_spec() - middle.len_spec()) as nat, start.len_spec(), items, axis,
            shape, items.len() as int);
        let rows = lifted@;
        let n = items.len();
        if n > 1 {
            assert(positions(rows) =~= Seq::new(n, |j: int| (start.len_spec() + j) as nat));
            assert forall|j: int| 0 <= j < n implies #[trigger] running_offsets(middle, rows, axis as int)[j]
                == Seq::new(n, |k: int| k as nat)[j] by {
                lemma_unit_totals(middle, rows, axis as int, shape, j as nat);
            }
            assert(running_offsets(middle, rows, axis as int) =~= Seq::new(n, |j: int| j as nat));
            assert(shapes_of(middle, rows) =~= Seq::new(n, |j: int| shape.insert(axis as int, 1)));
        }
    }
    out
}

/// Values lifted to an extent-one axis total their count along it.
proof fn lemma_unit_totals<E>(tape: Tape<E>, values: Seq<Value>, axis: int, shape: Seq<usize>, count: nat)
    requires
        count <= values.len(),
        0 <= axis <= shape.len(),
        forall|j: int| 0 <= j < values.len() ==> #[trigger] tape.extents(values[j]) == shape.insert(axis, 1),
    ensures
        extent_total(tape, values, axis, count) == count,
    decreases count,
{
    if count > 0 {
        lemma_unit_totals(tape, values, axis, shape, (count - 1) as nat);
        assert(tape.extents(values[count - 1]) == shape.insert(axis, 1));
    }
}


/// Squeezing the axis an unsqueeze inserted restores the recorded
/// shape: the two composites are inverse on shapes.
pub proof fn law_squeeze_undoes_unsqueeze(axes: Seq<usize>, axis: int)
    requires
        0 <= axis <= axes.len(),
    ensures
        axes.insert(axis, 1).remove(axis) == axes,
        axes.insert(axis, 1)[axis] == 1,
{
    assert(axes.insert(axis, 1).remove(axis) =~= axes);
}

/// Transposing twice restores the recorded shape.
pub proof fn law_transpose_restores_the_shape(axes: Seq<usize>)
    ensures
        axes.reverse().reverse() == axes,
{
    assert(axes.reverse().reverse() =~= axes);
}

} // verus!
