//! The recording reading of the derivative rules: `Opcode::vjp` records,
//! on the tape, the cotangent each operand of one node receives from the
//! node's incoming gradient.

use vstd::prelude::*;

use super::express::{agrees, expressed_shape, expressible, lemma_agreeing_rules, operand_extents};
use super::opcode::{arity_spec, is_source_spec, Opcode};
use super::symbol::Symbol;
use super::tape::{Tape, Value};
use super::ValueId;
use crate::inline::Strides;
use crate::layout::window_count;
use crate::op::map::MapOperation;
use crate::op::matmul::multipliable;
use crate::op::permute::{is_permutation, law_inverse_restores_the_axes, law_inverse_undoes_the_order, permuted, Permute};
use crate::shape::{fits, volume_of, Shape};

verus! {

/// Whether `later` is `earlier` with nodes appended: the same family, and
/// every node of `earlier` kept as it was.
pub open spec fn extends<E>(later: Tape<E>, earlier: Tape<E>) -> bool {
    &&& later.origin_spec() == earlier.origin_spec()
    &&& later.len_spec() >= earlier.len_spec()
    &&& forall|i: int|
        #![trigger later.opcodes_spec()[i]]
        #![trigger later.shapes_spec()[i]]
        #![trigger later.links_spec()[i]]
        0 <= i < earlier.len_spec() ==> {
            &&& later.opcodes_spec()[i] == earlier.opcodes_spec()[i]
            &&& later.links_spec()[i] == earlier.links_spec()[i]
            &&& later.shapes_spec()[i] == earlier.shapes_spec()[i]
            &&& later.counts_spec()[i] == earlier.counts_spec()[i]
            &&& later.payloads_spec()[i] == earlier.payloads_spec()[i]
        }
}

/// Whether every value `earlier` holds is still held by `later`, with its
/// shape.
pub open spec fn keeps_values<E>(earlier: Tape<E>, later: Tape<E>) -> bool {
    forall|value: Value|
        #![trigger later.holds(value)]
        #![trigger later.extents(value)]
        earlier.holds(value) ==> later.holds(value) && later.extents(value) == earlier.extents(value)
}

/// A tape that appends extends, and keeps every value.
proof fn lemma_appends_extends<E>(earlier: Tape<E>, later: Tape<E>, count: nat)
    requires
        earlier.well_formed(),
        later.well_formed(),
        later.appends(&earlier, count),
    ensures
        extends(later, earlier),
        keeps_values(earlier, later),
{
    assert forall|i: int| 0 <= i < earlier.len_spec() implies {
        &&& #[trigger] later.opcodes_spec()[i] == earlier.opcodes_spec()[i]
        &&& later.links_spec()[i] == earlier.links_spec()[i]
        &&& later.shapes_spec()[i] == earlier.shapes_spec()[i]
        &&& later.counts_spec()[i] == earlier.counts_spec()[i]
        &&& later.payloads_spec()[i] == earlier.payloads_spec()[i]
    } by {
        Tape::lemma_appends_keeps(earlier, later, count, i);
    }
}

/// Extending is transitive.
proof fn lemma_extends_chain<E>(first: Tape<E>, second: Tape<E>, third: Tape<E>)
    requires
        extends(second, first),
        extends(third, second),
    ensures
        extends(third, first),
{
    assert forall|i: int| 0 <= i < first.len_spec() implies {
        &&& #[trigger] third.opcodes_spec()[i] == first.opcodes_spec()[i]
        &&& third.links_spec()[i] == first.links_spec()[i]
        &&& third.shapes_spec()[i] == first.shapes_spec()[i]
        &&& third.counts_spec()[i] == first.counts_spec()[i]
        &&& third.payloads_spec()[i] == first.payloads_spec()[i]
    } by {
        assert(second.opcodes_spec()[i] == first.opcodes_spec()[i]);
        assert(third.opcodes_spec()[i] == second.opcodes_spec()[i]);
    }
}

/// Every tape extends itself.
proof fn lemma_extends_reflexive<E>(tape: Tape<E>)
    ensures
        extends(tape, tape),
{
}

/// An extension keeps every value.
proof fn lemma_extends_keeps<E>(earlier: Tape<E>, later: Tape<E>)
    requires
        extends(later, earlier),
    ensures
        keeps_values(earlier, later),
{
    assert forall|value: Value| earlier.holds(value) implies #[trigger] later.holds(value) && later.extents(value)
        == earlier.extents(value) by {
        assert(later.shapes_spec()[value.index_spec() as int] == earlier.shapes_spec()[value.index_spec() as int]);
    }
}

/// An extension appends the nodes past the earlier length.
proof fn lemma_extends_appends<E>(earlier: Tape<E>, later: Tape<E>)
    requires
        earlier.well_formed(),
        later.well_formed(),
        extends(later, earlier),
    ensures
        later.appends(&earlier, (later.len_spec() - earlier.len_spec()) as nat),
{
    let n = earlier.len_spec() as int;
    assert forall|i: int| 0 <= i < n implies #[trigger] later.opcodes_spec().subrange(0, n)[i] == earlier.opcodes_spec()[i] by {
        assert(later.opcodes_spec()[i] == earlier.opcodes_spec()[i]);
    }
    assert forall|i: int| 0 <= i < n implies #[trigger] later.links_spec().subrange(0, n)[i] == earlier.links_spec()[i] by {
        assert(later.opcodes_spec()[i] == earlier.opcodes_spec()[i]);
    }
    assert forall|i: int| 0 <= i < n implies #[trigger] later.shapes_spec().subrange(0, n)[i] == earlier.shapes_spec()[i] by {
        assert(later.opcodes_spec()[i] == earlier.opcodes_spec()[i]);
    }
    assert forall|i: int| 0 <= i < n implies #[trigger] later.counts_spec().subrange(0, n)[i] == earlier.counts_spec()[i] by {
        assert(later.opcodes_spec()[i] == earlier.opcodes_spec()[i]);
    }
    assert forall|i: int| 0 <= i < n implies #[trigger] later.payloads_spec().subrange(0, n)[i] == earlier.payloads_spec()[i] by {
        assert(later.opcodes_spec()[i] == earlier.opcodes_spec()[i]);
    }
    assert(later.opcodes_spec().subrange(0, n) =~= earlier.opcodes_spec());
    assert(later.links_spec().subrange(0, n) =~= earlier.links_spec());
    assert(later.shapes_spec().subrange(0, n) =~= earlier.shapes_spec());
    assert(later.counts_spec().subrange(0, n) =~= earlier.counts_spec());
    assert(later.payloads_spec().subrange(0, n) =~= earlier.payloads_spec());
}

/// Whether operand `k` of `opcode` is data rather than a differentiable
/// dependency: a gather's or scatter's selection, and both operands of a
/// step.
pub open spec fn data_operand(opcode: Opcode, k: int) -> bool {
    ||| opcode is Step
    ||| (opcode is Gather && k == 1)
    ||| (opcode is Scatter && k == 1)
}

/// The last two axes of `rank` exchanged: the order that transposes a
/// matrix operand of a product.
pub open spec fn swap_order(rank: nat) -> Seq<usize> {
    Seq::new(rank, |i: int| if i == rank - 2 { (rank - 1) as usize } else if i == rank - 1 { (rank - 2) as usize } else { i as usize })
}

/// The position of the `k`-th node that node `index` reads.
pub open spec fn link<E>(tape: Tape<E>, index: int, k: int) -> int {
    tape.links_spec()[index][k].0 as int
}

/// Whether node `index` reads exactly the nodes at `reads`, in order.
pub open spec fn reads_at<E>(tape: Tape<E>, index: int, reads: Seq<int>) -> bool {
    &&& tape.links_spec()[index].len() == reads.len()
    &&& forall|k: int| 0 <= k < reads.len() ==> #[trigger] tape.links_spec()[index][k].0 == reads[k]
}

/// Whether node `index` computes `opcode`, with its parameters, over
/// exactly the nodes at `reads`.
pub open spec fn op_at<E>(tape: Tape<E>, index: int, opcode: Opcode, reads: Seq<int>) -> bool {
    agrees(tape.opcodes_spec()[index], opcode) && reads_at(tape, index, reads)
}

/// Whether node `index` is a counted literal of `shape` holding `count`
/// at every position.
pub open spec fn literal_at<E>(tape: Tape<E>, index: int, count: usize, shape: Seq<usize>) -> bool {
    &&& tape.opcodes_spec()[index] is Leaf
    &&& tape.counts_spec()[index] == Some(count)
    &&& tape.links_spec()[index].len() == 0
    &&& tape.shapes_spec()[index] == shape
}

/// Whether node `index` exchanges the last two axes of the node at
/// `operand`, of rank `rank`.
pub open spec fn swap_at<E>(tape: Tape<E>, index: int, operand: int, rank: nat) -> bool {
    &&& (tape.opcodes_spec()[index] matches Opcode::Permute { order } && order@ == swap_order(rank))
    &&& reads_at(tape, index, seq![operand])
}

/// The positions of `values`, in order.
pub open spec fn positions(values: Seq<Value>) -> Seq<int> {
    values.map_values(|value: Value| value.index_spec() as int)
}

/// Records `opcode` over `operands` and returns the recorded value.
fn emit<E: Copy>(tape: &mut Tape<E>, base: Ghost<Tape<E>>, opcode: Opcode, operands: &[Value]) -> (out: Value)
    requires
        base@.well_formed(),
        extends(*old(tape), base@),
        old(tape).well_formed(),
        forall|k: int| 0 <= k < operands@.len() ==> old(tape).holds(#[trigger] operands@[k]),
        !is_source_spec(opcode),
        expressible(opcode, operand_extents(*old(tape), operands@)),
    ensures
        extends(*final(tape), base@),
        keeps_values(base@, *final(tape)),
        final(tape).well_formed(),
        extends(*final(tape), *old(tape)),
        forall|earlier: Tape<E>| #[trigger] extends(*old(tape), earlier) ==> extends(*final(tape), earlier),
        rules_hold(*old(tape)) && reversible(opcode, operand_extents(*old(tape), operands@)) ==> rules_hold(*final(tape)),
        keeps_values(*old(tape), *final(tape)),
        final(tape).holds(out),
        final(tape).extents(out) == expressed_shape(opcode, operand_extents(*old(tape), operands@)),
        op_at(*final(tape), out.index_spec() as int, opcode, positions(operands@)),
{
    let ghost start = *tape;
    let out = opcode.express(tape, operands);
    proof {
        assert forall|k: int| 0 <= k < operands@.len() implies #[trigger] tape.links_spec()[out.index_spec() as int][k].0
            == positions(operands@)[k] by {}
        lemma_appends_extends(start, *tape, 1);
        lemma_extends_chain(base@, start, *tape);
        lemma_extends_keeps(base@, *tape);
        assert forall|earlier: Tape<E>| #[trigger] extends(start, earlier) implies extends(*tape, earlier) by {
            lemma_extends_chain(earlier, start, *tape);
        }
    }
    out
}

/// Records the unary `opcode` over `operand`.
fn unary<E: Copy>(tape: &mut Tape<E>, base: Ghost<Tape<E>>, opcode: Opcode, operand: Value) -> (out: Value)
    requires
        base@.well_formed(),
        extends(*old(tape), base@),
        old(tape).well_formed(),
        old(tape).holds(operand),
        !is_source_spec(opcode),
        expressible(opcode, seq![old(tape).extents(operand)]),
    ensures
        extends(*final(tape), base@),
        keeps_values(base@, *final(tape)),
        final(tape).well_formed(),
        extends(*final(tape), *old(tape)),
        forall|earlier: Tape<E>| #[trigger] extends(*old(tape), earlier) ==> extends(*final(tape), earlier),
        rules_hold(*old(tape)) && reversible(opcode, seq![old(tape).extents(operand)]) ==> rules_hold(*final(tape)),
        keeps_values(*old(tape), *final(tape)),
        final(tape).holds(out),
        final(tape).extents(out) == expressed_shape(opcode, seq![old(tape).extents(operand)]),
        op_at(*final(tape), out.index_spec() as int, opcode, seq![operand.index_spec() as int]),
{
    let operands = [operand];
    proof {
        assert(operand_extents(*tape, operands@) =~= seq![tape.extents(operand)]);
        assert(operands@ =~= seq![operand]);
        assert(positions(operands@) =~= seq![operand.index_spec() as int]);
    }
    emit(tape, base, opcode, &operands)
}

/// Records the binary `opcode` over `left` and `right`.
fn binary<E: Copy>(tape: &mut Tape<E>, base: Ghost<Tape<E>>, opcode: Opcode, left: Value, right: Value) -> (out: Value)
    requires
        base@.well_formed(),
        extends(*old(tape), base@),
        old(tape).well_formed(),
        old(tape).holds(left),
        old(tape).holds(right),
        !is_source_spec(opcode),
        expressible(opcode, seq![old(tape).extents(left), old(tape).extents(right)]),
    ensures
        extends(*final(tape), base@),
        keeps_values(base@, *final(tape)),
        final(tape).well_formed(),
        extends(*final(tape), *old(tape)),
        forall|earlier: Tape<E>| #[trigger] extends(*old(tape), earlier) ==> extends(*final(tape), earlier),
        rules_hold(*old(tape)) && reversible(opcode, seq![old(tape).extents(left), old(tape).extents(right)]) ==> rules_hold(*final(tape)),
        keeps_values(*old(tape), *final(tape)),
        final(tape).holds(out),
        final(tape).extents(out) == expressed_shape(opcode, seq![old(tape).extents(left), old(tape).extents(right)]),
        op_at(*final(tape), out.index_spec() as int, opcode, seq![left.index_spec() as int, right.index_spec() as int]),
{
    let operands = [left, right];
    proof {
        assert(operand_extents(*tape, operands@) =~= seq![tape.extents(left), tape.extents(right)]);
        assert(operands@ =~= seq![left, right]);
        assert(positions(operands@) =~= seq![left.index_spec() as int, right.index_spec() as int]);
    }
    emit(tape, base, opcode, &operands)
}

/// Records the elementwise `opcode` over two values of one shape.
fn elementwise<E: Copy>(tape: &mut Tape<E>, base: Ghost<Tape<E>>, opcode: Opcode, left: Value, right: Value) -> (out: Value)
    requires
        base@.well_formed(),
        extends(*old(tape), base@),
        old(tape).well_formed(),
        old(tape).holds(left),
        old(tape).holds(right),
        old(tape).extents(left) == old(tape).extents(right),
        opcode is Add || opcode is Sub || opcode is Mul || opcode is Div || opcode is Powf || opcode is Maximum
            || opcode is Step,
    ensures
        extends(*final(tape), base@),
        keeps_values(base@, *final(tape)),
        final(tape).well_formed(),
        extends(*final(tape), *old(tape)),
        forall|earlier: Tape<E>| #[trigger] extends(*old(tape), earlier) ==> extends(*final(tape), earlier),
        rules_hold(*old(tape)) ==> rules_hold(*final(tape)),
        keeps_values(*old(tape), *final(tape)),
        final(tape).holds(out),
        final(tape).extents(out) == old(tape).extents(left),
        op_at(*final(tape), out.index_spec() as int, opcode, seq![left.index_spec() as int, right.index_spec() as int]),
{
    binary(tape, base, opcode, left, right)
}

/// Records the elementwise `operation` of `operand`.
fn mapped<E: Copy>(tape: &mut Tape<E>, base: Ghost<Tape<E>>, operation: MapOperation, operand: Value) -> (out: Value)
    requires
        base@.well_formed(),
        extends(*old(tape), base@),
        old(tape).well_formed(),
        old(tape).holds(operand),
    ensures
        extends(*final(tape), base@),
        keeps_values(base@, *final(tape)),
        final(tape).well_formed(),
        extends(*final(tape), *old(tape)),
        forall|earlier: Tape<E>| #[trigger] extends(*old(tape), earlier) ==> extends(*final(tape), earlier),
        rules_hold(*old(tape)) ==> rules_hold(*final(tape)),
        keeps_values(*old(tape), *final(tape)),
        final(tape).holds(out),
        final(tape).extents(out) == old(tape).extents(operand),
        op_at(*final(tape), out.index_spec() as int, Opcode::ElementMap { operation }, seq![operand.index_spec() as int]),
{
    unary(tape, base, Opcode::ElementMap { operation }, operand)
}

/// Records the negation of `operand`.
fn negated<E: Copy>(tape: &mut Tape<E>, base: Ghost<Tape<E>>, operand: Value) -> (out: Value)
    requires
        base@.well_formed(),
        extends(*old(tape), base@),
        old(tape).well_formed(),
        old(tape).holds(operand),
    ensures
        extends(*final(tape), base@),
        keeps_values(base@, *final(tape)),
        final(tape).well_formed(),
        extends(*final(tape), *old(tape)),
        forall|earlier: Tape<E>| #[trigger] extends(*old(tape), earlier) ==> extends(*final(tape), earlier),
        rules_hold(*old(tape)) ==> rules_hold(*final(tape)),
        keeps_values(*old(tape), *final(tape)),
        final(tape).holds(out),
        final(tape).extents(out) == old(tape).extents(operand),
        op_at(*final(tape), out.index_spec() as int, Opcode::Neg, seq![operand.index_spec() as int]),
{
    unary(tape, base, Opcode::Neg, operand)
}

/// Records the counted literal one shaped like `like`.
fn one_like<E: Copy>(tape: &mut Tape<E>, base: Ghost<Tape<E>>, like: Value) -> (out: Value)
    requires
        base@.well_formed(),
        extends(*old(tape), base@),
        old(tape).well_formed(),
        old(tape).holds(like),
    ensures
        extends(*final(tape), base@),
        keeps_values(base@, *final(tape)),
        final(tape).well_formed(),
        extends(*final(tape), *old(tape)),
        forall|earlier: Tape<E>| #[trigger] extends(*old(tape), earlier) ==> extends(*final(tape), earlier),
        rules_hold(*old(tape)) ==> rules_hold(*final(tape)),
        keeps_values(*old(tape), *final(tape)),
        final(tape).holds(out),
        final(tape).extents(out) == old(tape).extents(like),
        literal_at(*final(tape), out.index_spec() as int, 1, old(tape).extents(like)),
{
    let ghost start = *tape;
    let shape = like.shape(tape);
    let out = tape.counted(shape, 1);
    proof {
        lemma_appends_extends(start, *tape, 1);
        lemma_extends_chain(base@, start, *tape);
        lemma_extends_keeps(base@, *tape);
        assert forall|earlier: Tape<E>| #[trigger] extends(start, earlier) implies extends(*tape, earlier) by {
            lemma_extends_chain(earlier, start, *tape);
        }
    }
    out
}

/// Records `operand` with its last two axes exchanged.
fn swapped<E: Copy>(tape: &mut Tape<E>, base: Ghost<Tape<E>>, operand: Value) -> (out: Value)
    requires
        base@.well_formed(),
        extends(*old(tape), base@),
        old(tape).well_formed(),
        old(tape).holds(operand),
        old(tape).extents(operand).len() >= 2,
    ensures
        extends(*final(tape), base@),
        keeps_values(base@, *final(tape)),
        final(tape).well_formed(),
        extends(*final(tape), *old(tape)),
        forall|earlier: Tape<E>| #[trigger] extends(*old(tape), earlier) ==> extends(*final(tape), earlier),
        rules_hold(*old(tape)) ==> rules_hold(*final(tape)),
        keeps_values(*old(tape), *final(tape)),
        final(tape).holds(out),
        final(tape).extents(out) == permuted(old(tape).extents(operand), swap_order(old(tape).extents(operand).len())),
        old(tape).extents(operand).len() <= usize::MAX,
        swap_at(*final(tape), out.index_spec() as int, operand.index_spec() as int, old(tape).extents(operand).len()),
{
    let rank = operand.shape(tape).rank();
    let mut order: Vec<usize> = Vec::new();
    let mut i: usize = 0;
    while i < rank
        invariant
            rank >= 2,
            i <= rank,
            order@ == swap_order(rank as nat).take(i as int),
        decreases rank - i,
    {
        let axis = if i == rank - 2 { rank - 1 } else if i == rank - 1 { rank - 2 } else { i };
        order.push(axis);
        i += 1;
        assert(order@ =~= swap_order(rank as nat).take(i as int));
    }
    proof {
        assert(order@ =~= swap_order(rank as nat));
        assert forall|a: int, b: int| 0 <= a < b < order@.len() implies order@[a] != order@[b] by {}
    }
    unary(tape, base, Opcode::Permute { order }, operand)
}

/// The inverse of the permutation `order`.
fn inverse_order(order: &Vec<usize>) -> (inverse: Vec<usize>)
    requires
        is_permutation(order@, order@.len()),
    ensures
        inverse@.len() == order@.len(),
        forall|i: int| 0 <= i < order@.len() ==> #[trigger] inverse@[order@[i] as int] == i,
{
    let permute = Permute { order: Strides::from_vec(vstd::slice::slice_to_vec(order.as_slice())) };
    permute.inverse()
}


/// The cotangent of a map's operand: the seed times the map's derivative,
/// read off the node's own operand and output where it can be.
#[verifier::spinoff_prover]
fn map_rule<E: Copy>(tape: &mut Tape<E>, operation: MapOperation, operand: Value, output: Value, seed: Value) -> (out: Value)
    requires
        old(tape).well_formed(),
        old(tape).holds(operand),
        old(tape).holds(output),
        old(tape).holds(seed),
        old(tape).extents(output) == old(tape).extents(operand),
        old(tape).extents(seed) == old(tape).extents(operand),
    ensures
        final(tape).well_formed(),
        extends(*final(tape), *old(tape)),
        keeps_values(*old(tape), *final(tape)),
        rules_hold(*old(tape)) ==> rules_hold(*final(tape)),
        final(tape).holds(out),
        final(tape).extents(out) == old(tape).extents(operand),
        map_entry(*final(tape), operation, operand.index_spec() as int, output.index_spec() as int, seed.index_spec() as int, out.index_spec() as int, old(tape).extents(operand)),
{
    let ghost start = *tape;
    proof {
        lemma_extends_reflexive(start);
    }
    let out = match operation {
        MapOperation::Exp => elementwise(tape, Ghost(start), Opcode::Mul, seed, output),
        MapOperation::Ln => elementwise(tape, Ghost(start), Opcode::Div, seed, operand),
        MapOperation::Sqrt => {
            let doubled = elementwise(tape, Ghost(start), Opcode::Add, output, output);
            let out = elementwise(tape, Ghost(start), Opcode::Div, seed, doubled);
            proof {
                assert(link(*tape, out.index_spec() as int, 1) == doubled.index_spec());
            }
            out
        },
        MapOperation::Tanh => {
            let one = one_like(tape, Ghost(start), output);
            let square = elementwise(tape, Ghost(start), Opcode::Mul, output, output);
            let slope = elementwise(tape, Ghost(start), Opcode::Sub, one, square);
            let out = elementwise(tape, Ghost(start), Opcode::Mul, seed, slope);
            proof {
                assert(link(*tape, out.index_spec() as int, 1) == slope.index_spec());
                assert(link(*tape, slope.index_spec() as int, 0) == one.index_spec());
                assert(link(*tape, slope.index_spec() as int, 1) == square.index_spec());
            }
            out
        },
        MapOperation::Sin => {
            let slope = mapped(tape, Ghost(start), MapOperation::Cos, operand);
            let out = elementwise(tape, Ghost(start), Opcode::Mul, seed, slope);
            proof {
                assert(link(*tape, out.index_spec() as int, 1) == slope.index_spec());
            }
            out
        },
        MapOperation::Cos => {
            let sine = mapped(tape, Ghost(start), MapOperation::Sin, operand);
            let scaled = elementwise(tape, Ghost(start), Opcode::Mul, seed, sine);
            let out = negated(tape, Ghost(start), scaled);
            proof {
                assert(link(*tape, out.index_spec() as int, 0) == scaled.index_spec());
                assert(link(*tape, scaled.index_spec() as int, 1) == sine.index_spec());
            }
            out
        },
        MapOperation::Log1p => {
            let one = one_like(tape, Ghost(start), operand);
            let shifted = elementwise(tape, Ghost(start), Opcode::Add, one, operand);
            let out = elementwise(tape, Ghost(start), Opcode::Div, seed, shifted);
            proof {
                assert(link(*tape, out.index_spec() as int, 1) == shifted.index_spec());
                assert(link(*tape, shifted.index_spec() as int, 0) == one.index_spec());
            }
            out
        },
        MapOperation::Expm1 => {
            let one = one_like(tape, Ghost(start), output);
            let slope = elementwise(tape, Ghost(start), Opcode::Add, output, one);
            let out = elementwise(tape, Ghost(start), Opcode::Mul, seed, slope);
            proof {
                assert(link(*tape, out.index_spec() as int, 1) == slope.index_spec());
                assert(link(*tape, slope.index_spec() as int, 1) == one.index_spec());
            }
            out
        },
        MapOperation::Erf => {
            let slope = mapped(tape, Ghost(start), MapOperation::ErfDerivative, operand);
            let out = elementwise(tape, Ghost(start), Opcode::Mul, seed, slope);
            proof {
                assert(link(*tape, out.index_spec() as int, 1) == slope.index_spec());
            }
            out
        },
        MapOperation::ErfDerivative => {
            let doubled = elementwise(tape, Ghost(start), Opcode::Add, operand, operand);
            let scaled = elementwise(tape, Ghost(start), Opcode::Mul, seed, doubled);
            let slope = elementwise(tape, Ghost(start), Opcode::Mul, scaled, output);
            let out = negated(tape, Ghost(start), slope);
            proof {
                assert(link(*tape, out.index_spec() as int, 0) == slope.index_spec());
                assert(link(*tape, slope.index_spec() as int, 0) == scaled.index_spec());
                assert(link(*tape, scaled.index_spec() as int, 1) == doubled.index_spec());
            }
            out
        },
    };
    proof {
        lemma_extends_keeps(start, *tape);
    }
    out
}

/// The cotangents of a power's base and exponent.
#[verifier::spinoff_prover]
fn powf_rule<E: Copy>(tape: &mut Tape<E>, base: Value, exponent: Value, output: Value, seed: Value) -> (out: (Value, Value))
    requires
        old(tape).well_formed(),
        old(tape).holds(base),
        old(tape).holds(exponent),
        old(tape).holds(output),
        old(tape).holds(seed),
        old(tape).extents(exponent) == old(tape).extents(base),
        old(tape).extents(output) == old(tape).extents(base),
        old(tape).extents(seed) == old(tape).extents(base),
    ensures
        final(tape).well_formed(),
        extends(*final(tape), *old(tape)),
        keeps_values(*old(tape), *final(tape)),
        rules_hold(*old(tape)) ==> rules_hold(*final(tape)),
        final(tape).holds(out.0),
        final(tape).holds(out.1),
        final(tape).extents(out.0) == old(tape).extents(base),
        final(tape).extents(out.1) == old(tape).extents(base),
        rule_entry(*final(tape), Opcode::Powf, seq![base.index_spec() as int, exponent.index_spec() as int], output.index_spec() as int, seed.index_spec() as int, 0, out.0.index_spec() as int,
            seq![old(tape).extents(base), old(tape).extents(exponent)]),
        rule_entry(*final(tape), Opcode::Powf, seq![base.index_spec() as int, exponent.index_spec() as int], output.index_spec() as int, seed.index_spec() as int, 1, out.1.index_spec() as int,
            seq![old(tape).extents(base), old(tape).extents(exponent)]),
{
    let ghost start = *tape;
    proof {
        lemma_extends_reflexive(start);
    }
    let one = one_like(tape, Ghost(start), exponent);
    let lowered = elementwise(tape, Ghost(start), Opcode::Sub, exponent, one);
    let power = elementwise(tape, Ghost(start), Opcode::Powf, base, lowered);
    let scaled = elementwise(tape, Ghost(start), Opcode::Mul, seed, exponent);
    let base_cotangent = elementwise(tape, Ghost(start), Opcode::Mul, scaled, power);
    let logarithm = mapped(tape, Ghost(start), MapOperation::Ln, base);
    let reused = elementwise(tape, Ghost(start), Opcode::Mul, seed, output);
    let exponent_cotangent = elementwise(tape, Ghost(start), Opcode::Mul, reused, logarithm);
    proof {
        lemma_extends_keeps(start, *tape);
        assert(link(*tape, base_cotangent.index_spec() as int, 0) == scaled.index_spec());
        assert(link(*tape, base_cotangent.index_spec() as int, 1) == power.index_spec());
        assert(link(*tape, power.index_spec() as int, 1) == lowered.index_spec());
        assert(link(*tape, lowered.index_spec() as int, 1) == one.index_spec());
        assert(link(*tape, exponent_cotangent.index_spec() as int, 0) == reused.index_spec());
        assert(link(*tape, exponent_cotangent.index_spec() as int, 1) == logarithm.index_spec());
    }
    (base_cotangent, exponent_cotangent)
}

/// The cotangents of a maximum's operands: the seed routed by the
/// left-biased step indicator.
#[verifier::spinoff_prover]
fn maximum_rule<E: Copy>(tape: &mut Tape<E>, left: Value, right: Value, seed: Value) -> (out: (Value, Value))
    requires
        old(tape).well_formed(),
        old(tape).holds(left),
        old(tape).holds(right),
        old(tape).holds(seed),
        old(tape).extents(right) == old(tape).extents(left),
        old(tape).extents(seed) == old(tape).extents(left),
    ensures
        final(tape).well_formed(),
        extends(*final(tape), *old(tape)),
        keeps_values(*old(tape), *final(tape)),
        rules_hold(*old(tape)) ==> rules_hold(*final(tape)),
        final(tape).holds(out.0),
        final(tape).holds(out.1),
        final(tape).extents(out.0) == old(tape).extents(left),
        final(tape).extents(out.1) == old(tape).extents(left),
        rule_entry(*final(tape), Opcode::Maximum, seq![left.index_spec() as int, right.index_spec() as int], 0, seed.index_spec() as int, 0, out.0.index_spec() as int,
            seq![old(tape).extents(left), old(tape).extents(right)]),
        rule_entry(*final(tape), Opcode::Maximum, seq![left.index_spec() as int, right.index_spec() as int], 0, seed.index_spec() as int, 1, out.1.index_spec() as int,
            seq![old(tape).extents(left), old(tape).extents(right)]),
{
    let ghost start = *tape;
    proof {
        lemma_extends_reflexive(start);
    }
    let winners = elementwise(tape, Ghost(start), Opcode::Step, left, right);
    let left_cotangent = elementwise(tape, Ghost(start), Opcode::Mul, seed, winners);
    let one = one_like(tape, Ghost(start), winners);
    let losers = elementwise(tape, Ghost(start), Opcode::Sub, one, winners);
    let right_cotangent = elementwise(tape, Ghost(start), Opcode::Mul, seed, losers);
    proof {
        lemma_extends_keeps(start, *tape);
        assert(link(*tape, left_cotangent.index_spec() as int, 1) == winners.index_spec());
        assert(link(*tape, right_cotangent.index_spec() as int, 1) == losers.index_spec());
        assert(link(*tape, losers.index_spec() as int, 0) == one.index_spec());
        assert(link(*tape, losers.index_spec() as int, 1) == winners.index_spec());
    }
    (left_cotangent, right_cotangent)
}

/// The cotangent of a quotient's divisor: minus the seed times the
/// quotient over the divisor.
#[verifier::spinoff_prover]
fn divisor_rule<E: Copy>(tape: &mut Tape<E>, divisor: Value, output: Value, seed: Value) -> (out: Value)
    requires
        old(tape).well_formed(),
        old(tape).holds(divisor),
        old(tape).holds(output),
        old(tape).holds(seed),
        old(tape).extents(output) == old(tape).extents(divisor),
        old(tape).extents(seed) == old(tape).extents(divisor),
    ensures
        final(tape).well_formed(),
        extends(*final(tape), *old(tape)),
        keeps_values(*old(tape), *final(tape)),
        rules_hold(*old(tape)) ==> rules_hold(*final(tape)),
        final(tape).holds(out),
        final(tape).extents(out) == old(tape).extents(divisor),
        op_at(*final(tape), out.index_spec() as int, Opcode::Neg, seq![link(*final(tape), out.index_spec() as int, 0)]),
        op_at(*final(tape), link(*final(tape), out.index_spec() as int, 0), Opcode::Div, seq![
            link(*final(tape), link(*final(tape), out.index_spec() as int, 0), 0), divisor.index_spec() as int]),
        op_at(*final(tape), link(*final(tape), link(*final(tape), out.index_spec() as int, 0), 0), Opcode::Mul, seq![
            seed.index_spec() as int, output.index_spec() as int]),
{
    let ghost start = *tape;
    proof {
        lemma_extends_reflexive(start);
    }
    let scaled = elementwise(tape, Ghost(start), Opcode::Mul, seed, output);
    let quotient = elementwise(tape, Ghost(start), Opcode::Div, scaled, divisor);
    let out = negated(tape, Ghost(start), quotient);
    proof {
        lemma_extends_keeps(start, *tape);
        assert(link(*tape, out.index_spec() as int, 0) == quotient.index_spec());
        assert(op_at(*tape, quotient.index_spec() as int, Opcode::Div, seq![scaled.index_spec() as int, divisor.index_spec() as int]));
        assert(link(*tape, quotient.index_spec() as int, 0) == scaled.index_spec());
    }
    out
}

/// The cotangent of a log-softmax's operand: the seed minus the softmax
/// times the seed's sum along the axis.
#[verifier::spinoff_prover]
fn log_softmax_rule<E: Copy>(tape: &mut Tape<E>, axis: usize, operand: Value, output: Value, seed: Value) -> (out: Value)
    requires
        old(tape).well_formed(),
        old(tape).holds(operand),
        old(tape).holds(output),
        old(tape).holds(seed),
        axis < old(tape).extents(operand).len(),
        old(tape).extents(operand)[axis as int] > 0,
        old(tape).extents(output) == old(tape).extents(operand),
        old(tape).extents(seed) == old(tape).extents(operand),
    ensures
        final(tape).well_formed(),
        extends(*final(tape), *old(tape)),
        keeps_values(*old(tape), *final(tape)),
        rules_hold(*old(tape)) ==> rules_hold(*final(tape)),
        final(tape).holds(out),
        final(tape).extents(out) == old(tape).extents(operand),
        rule_entry(*final(tape), Opcode::LogSoftmax { axis }, seq![operand.index_spec() as int], output.index_spec() as int, seed.index_spec() as int, 0, out.index_spec() as int,
            seq![old(tape).extents(operand)]),
{
    let ghost start = *tape;
    proof {
        lemma_extends_reflexive(start);
    }
    let ghost axes = start.extents(operand);
    let extent = operand.shape(tape).extent(axis);
    let probabilities = mapped(tape, Ghost(start), MapOperation::Exp, output);
    let total = unary(tape, Ghost(start), Opcode::SumAlong { axis }, seed);
    proof {
        assert(axes[axis as int] > 0);
        assert(axes.remove(axis as int).insert(axis as int, extent) =~= axes);
    }
    let spread = unary(tape, Ghost(start), Opcode::BroadcastAlong { axis, extent }, total);
    let scaled = elementwise(tape, Ghost(start), Opcode::Mul, probabilities, spread);
    let out = elementwise(tape, Ghost(start), Opcode::Sub, seed, scaled);
    proof {
        lemma_extends_keeps(start, *tape);
        assert(link(*tape, out.index_spec() as int, 1) == scaled.index_spec());
        assert(link(*tape, scaled.index_spec() as int, 0) == probabilities.index_spec());
        assert(link(*tape, scaled.index_spec() as int, 1) == spread.index_spec());
        assert(link(*tape, spread.index_spec() as int, 0) == total.index_spec());
    }
    out
}

/// The cotangent of a log-sum-exp's operand: the seed spread back along
/// the axis times the softmax, `exp(operand - output)`.
#[verifier::spinoff_prover]
fn log_sum_exp_rule<E: Copy>(tape: &mut Tape<E>, axis: usize, operand: Value, output: Value, seed: Value) -> (out: Value)
    requires
        old(tape).well_formed(),
        old(tape).holds(operand),
        old(tape).holds(output),
        old(tape).holds(seed),
        axis < old(tape).extents(operand).len(),
        old(tape).extents(operand)[axis as int] > 0,
        old(tape).extents(output) == old(tape).extents(operand).remove(axis as int),
        old(tape).extents(seed) == old(tape).extents(output),
    ensures
        final(tape).well_formed(),
        extends(*final(tape), *old(tape)),
        keeps_values(*old(tape), *final(tape)),
        rules_hold(*old(tape)) ==> rules_hold(*final(tape)),
        final(tape).holds(out),
        final(tape).extents(out) == old(tape).extents(operand),
        rule_entry(*final(tape), Opcode::LogSumExp { axis }, seq![operand.index_spec() as int], output.index_spec() as int, seed.index_spec() as int, 0, out.index_spec() as int,
            seq![old(tape).extents(operand)]),
{
    let ghost start = *tape;
    proof {
        lemma_extends_reflexive(start);
    }
    let ghost axes = start.extents(operand);
    let extent = operand.shape(tape).extent(axis);
    proof {
        assert(axes[axis as int] > 0);
        assert(axes.remove(axis as int).insert(axis as int, extent) =~= axes);
    }
    let spread_output = unary(tape, Ghost(start), Opcode::BroadcastAlong { axis, extent }, output);
    let shifted = elementwise(tape, Ghost(start), Opcode::Sub, operand, spread_output);
    let probabilities = mapped(tape, Ghost(start), MapOperation::Exp, shifted);
    let spread_seed = unary(tape, Ghost(start), Opcode::BroadcastAlong { axis, extent }, seed);
    let out = elementwise(tape, Ghost(start), Opcode::Mul, spread_seed, probabilities);
    proof {
        lemma_extends_keeps(start, *tape);
        assert(link(*tape, out.index_spec() as int, 0) == spread_seed.index_spec());
        assert(link(*tape, out.index_spec() as int, 1) == probabilities.index_spec());
        assert(link(*tape, probabilities.index_spec() as int, 0) == shifted.index_spec());
        assert(link(*tape, shifted.index_spec() as int, 1) == spread_output.index_spec());
    }
    out
}

/// The cotangents of a matrix product's operands: the seed times the
/// transposed right operand, and the transposed left operand times the
/// seed.
#[verifier::spinoff_prover]
fn matmul_rule<E: Copy>(tape: &mut Tape<E>, left: Value, right: Value, seed: Value) -> (out: (Value, Value))
    requires
        old(tape).well_formed(),
        old(tape).holds(left),
        old(tape).holds(right),
        old(tape).holds(seed),
        multipliable(old(tape).extents(left), old(tape).extents(right)),
        old(tape).extents(seed) == expressed_shape(Opcode::MatMul, seq![old(tape).extents(left), old(tape).extents(right)]),
    ensures
        final(tape).well_formed(),
        extends(*final(tape), *old(tape)),
        keeps_values(*old(tape), *final(tape)),
        rules_hold(*old(tape)) ==> rules_hold(*final(tape)),
        final(tape).holds(out.0),
        final(tape).holds(out.1),
        final(tape).extents(out.0) == old(tape).extents(left),
        final(tape).extents(out.1) == old(tape).extents(right),
        rule_entry(*final(tape), Opcode::MatMul, seq![left.index_spec() as int, right.index_spec() as int], 0, seed.index_spec() as int, 0, out.0.index_spec() as int,
            seq![old(tape).extents(left), old(tape).extents(right)]),
        rule_entry(*final(tape), Opcode::MatMul, seq![left.index_spec() as int, right.index_spec() as int], 0, seed.index_spec() as int, 1, out.1.index_spec() as int,
            seq![old(tape).extents(left), old(tape).extents(right)]),
{
    let ghost start = *tape;
    proof {
        lemma_extends_reflexive(start);
    }
    let ghost a = start.extents(left);
    let ghost b = start.extents(right);
    let ghost g = start.extents(seed);
    let ghost r = a.len();
    let right_t = swapped(tape, Ghost(start), right);
    let ghost bt = permuted(b, swap_order(r));
    proof {
        assert(r >= 2);
        assert(g =~= a.subrange(0, r - 1).push(b[r - 1]));
        assert(g.len() == r);
        assert(bt.len() == r);
        assert forall|i: int| 0 <= i < r - 2 implies #[trigger] g[i] == bt[i] by {
            assert(a.subrange(0, r - 2)[i] == b.subrange(0, r - 2)[i]);
            assert(swap_order(r)[i] == i as usize);
        }
        assert(g.subrange(0, r - 2) =~= bt.subrange(0, r - 2));
        assert(swap_order(r)[r - 2] == (r - 1) as usize);
        assert(swap_order(r)[r - 1] == (r - 2) as usize);
        assert(g[r - 1] == bt[r - 2]);
        assert(multipliable(g, bt));
        assert(g.subrange(0, g.len() - 1).push(bt[bt.len() - 1]) =~= a);
    }
    let left_cotangent = binary(tape, Ghost(start), Opcode::MatMul, seed, right_t);
    let left_t = swapped(tape, Ghost(start), left);
    let ghost at = permuted(a, swap_order(r));
    proof {
        assert forall|i: int| 0 <= i < r - 2 implies #[trigger] at[i] == g[i] by {
            assert(swap_order(r)[i] == i as usize);
        }
        assert(at.subrange(0, r - 2) =~= g.subrange(0, r - 2));
        assert(swap_order(r)[r - 2] == (r - 1) as usize);
        assert(swap_order(r)[r - 1] == (r - 2) as usize);
        assert(multipliable(at, g));
        assert forall|i: int| 0 <= i < r - 2 implies #[trigger] b[i] == at[i] by {
            assert(a.subrange(0, r - 2)[i] == b.subrange(0, r - 2)[i]);
            assert(swap_order(r)[i] == i as usize);
        }
        assert(at.subrange(0, at.len() - 1).push(g[g.len() - 1]) =~= b);
    }
    let right_cotangent = binary(tape, Ghost(start), Opcode::MatMul, left_t, seed);
    proof {
        lemma_extends_keeps(start, *tape);
    }
    (left_cotangent, right_cotangent)
}

/// Whether node `c` is the cotangent an elementwise map's rule records
/// for the map's operand at `x`, whose output is at `out`, from the seed
/// at `seed`: the seed times the map's derivative -- `out` for `exp`,
/// `1 / x` for `ln`, `1 / (2 out)` for `sqrt`, `1 - out^2` for `tanh`,
/// `cos x` for `sin`, `-sin x` for `cos`, `1 / (1 + x)` for `log1p`,
/// `out + 1` for `expm1`, the recorded derivative map for `erf`, and
/// `-2 x out` for that derivative. A literal one takes the operand's
/// `shape`.
pub open spec fn map_entry<E>(
    tape: Tape<E>,
    operation: MapOperation,
    x: int,
    out: int,
    seed: int,
    c: int,
    shape: Seq<usize>,
) -> bool {
    match operation {
        MapOperation::Exp => op_at(tape, c, Opcode::Mul, seq![seed, out]),
        MapOperation::Ln => op_at(tape, c, Opcode::Div, seq![seed, x]),
        MapOperation::Sqrt => {
            let doubled = link(tape, c, 1);
            &&& op_at(tape, c, Opcode::Div, seq![seed, doubled])
            &&& op_at(tape, doubled, Opcode::Add, seq![out, out])
        },
        MapOperation::Tanh => {
            let slope = link(tape, c, 1);
            let one = link(tape, slope, 0);
            let square = link(tape, slope, 1);
            &&& op_at(tape, c, Opcode::Mul, seq![seed, slope])
            &&& op_at(tape, slope, Opcode::Sub, seq![one, square])
            &&& literal_at(tape, one, 1, shape)
            &&& op_at(tape, square, Opcode::Mul, seq![out, out])
        },
        MapOperation::Sin => {
            let slope = link(tape, c, 1);
            &&& op_at(tape, c, Opcode::Mul, seq![seed, slope])
            &&& op_at(tape, slope, Opcode::ElementMap { operation: MapOperation::Cos }, seq![x])
        },
        MapOperation::Cos => {
            let scaled = link(tape, c, 0);
            let sine = link(tape, scaled, 1);
            &&& op_at(tape, c, Opcode::Neg, seq![scaled])
            &&& op_at(tape, scaled, Opcode::Mul, seq![seed, sine])
            &&& op_at(tape, sine, Opcode::ElementMap { operation: MapOperation::Sin }, seq![x])
        },
        MapOperation::Log1p => {
            let shifted = link(tape, c, 1);
            let one = link(tape, shifted, 0);
            &&& op_at(tape, c, Opcode::Div, seq![seed, shifted])
            &&& op_at(tape, shifted, Opcode::Add, seq![one, x])
            &&& literal_at(tape, one, 1, shape)
        },
        MapOperation::Expm1 => {
            let slope = link(tape, c, 1);
            let one = link(tape, slope, 1);
            &&& op_at(tape, c, Opcode::Mul, seq![seed, slope])
            &&& op_at(tape, slope, Opcode::Add, seq![out, one])
            &&& literal_at(tape, one, 1, shape)
        },
        MapOperation::Erf => {
            let slope = link(tape, c, 1);
            &&& op_at(tape, c, Opcode::Mul, seq![seed, slope])
            &&& op_at(tape, slope, Opcode::ElementMap { operation: MapOperation::ErfDerivative }, seq![x])
        },
        MapOperation::ErfDerivative => {
            let slope = link(tape, c, 0);
            let scaled = link(tape, slope, 0);
            let doubled = link(tape, scaled, 1);
            &&& op_at(tape, c, Opcode::Neg, seq![slope])
            &&& op_at(tape, slope, Opcode::Mul, seq![scaled, out])
            &&& op_at(tape, scaled, Opcode::Mul, seq![seed, doubled])
            &&& op_at(tape, doubled, Opcode::Add, seq![x, x])
        },
    }
}

/// Whether node `c` is the cotangent the rule of `opcode` records for
/// operand `k` of a node that reads the nodes at `reads`, of shapes
/// `shapes`, and whose output is at `output`, from the seed at `seed`.
///
/// Addition hands the seed to both operands; a difference the seed and
/// its negation; a product the seed times the other operand; a quotient
/// the seed over the divisor, and minus the seed times the quotient over
/// the divisor; a negation the negated seed; a map the seed times its
/// derivative; a power `seed * b * a^(b - 1)` to the base and
/// `seed * out * ln a` to the exponent; a maximum the seed times the
/// left-biased step indicator to the left and times its complement to the
/// right; a matrix product the seed times the transposed right operand,
/// and the transposed left operand times the seed. Each shape operation
/// applies its adjoint to the seed: a reduction spreads back, a spread
/// reduces, a reshape restores the operand's shape, a permutation applies
/// the inverse order, a narrow pads back into place, a pad narrows out its
/// window, windows fold back and a fold unfolds, a gather scatters the
/// seed by the selection and a scatter gathers it. A log-softmax gives the
/// seed minus the softmax times the seed's sum along the axis, and a
/// log-sum-exp the seed spread back along the axis times
/// `exp(operand - output)`.
pub open spec fn rule_entry<E>(
    tape: Tape<E>,
    opcode: Opcode,
    reads: Seq<int>,
    output: int,
    seed: int,
    k: int,
    c: int,
    shapes: Seq<Seq<usize>>,
) -> bool {
    match opcode {
        Opcode::Leaf | Opcode::Parameter | Opcode::Input | Opcode::Step => false,
        Opcode::Add => c == seed,
        Opcode::Sub => if k == 0 {
            c == seed
        } else {
            op_at(tape, c, Opcode::Neg, seq![seed])
        },
        Opcode::Mul => op_at(tape, c, Opcode::Mul, seq![seed, reads[1 - k]]),
        Opcode::Div => if k == 0 {
            op_at(tape, c, Opcode::Div, seq![seed, reads[1]])
        } else {
            let quotient = link(tape, c, 0);
            let scaled = link(tape, quotient, 0);
            &&& op_at(tape, c, Opcode::Neg, seq![quotient])
            &&& op_at(tape, quotient, Opcode::Div, seq![scaled, reads[1]])
            &&& op_at(tape, scaled, Opcode::Mul, seq![seed, output])
        },
        Opcode::Neg => op_at(tape, c, Opcode::Neg, seq![seed]),
        Opcode::ElementMap { operation } => map_entry(tape, operation, reads[0], output, seed, c, shapes[0]),
        Opcode::Powf => if k == 0 {
            let scaled = link(tape, c, 0);
            let power = link(tape, c, 1);
            let lowered = link(tape, power, 1);
            let one = link(tape, lowered, 1);
            &&& op_at(tape, c, Opcode::Mul, seq![scaled, power])
            &&& op_at(tape, scaled, Opcode::Mul, seq![seed, reads[1]])
            &&& op_at(tape, power, Opcode::Powf, seq![reads[0], lowered])
            &&& op_at(tape, lowered, Opcode::Sub, seq![reads[1], one])
            &&& literal_at(tape, one, 1, shapes[0])
        } else {
            let reused = link(tape, c, 0);
            let logarithm = link(tape, c, 1);
            &&& op_at(tape, c, Opcode::Mul, seq![reused, logarithm])
            &&& op_at(tape, reused, Opcode::Mul, seq![seed, output])
            &&& op_at(tape, logarithm, Opcode::ElementMap { operation: MapOperation::Ln }, seq![reads[0]])
        },
        Opcode::Maximum => if k == 0 {
            let winners = link(tape, c, 1);
            &&& op_at(tape, c, Opcode::Mul, seq![seed, winners])
            &&& op_at(tape, winners, Opcode::Step, seq![reads[0], reads[1]])
        } else {
            let losers = link(tape, c, 1);
            let one = link(tape, losers, 0);
            let winners = link(tape, losers, 1);
            &&& op_at(tape, c, Opcode::Mul, seq![seed, losers])
            &&& op_at(tape, losers, Opcode::Sub, seq![one, winners])
            &&& literal_at(tape, one, 1, shapes[0])
            &&& op_at(tape, winners, Opcode::Step, seq![reads[0], reads[1]])
        },
        Opcode::MatMul => if k == 0 {
            let transposed = link(tape, c, 1);
            &&& op_at(tape, c, Opcode::MatMul, seq![seed, transposed])
            &&& swap_at(tape, transposed, reads[1], shapes[1].len())
        } else {
            let transposed = link(tape, c, 0);
            &&& op_at(tape, c, Opcode::MatMul, seq![transposed, seed])
            &&& swap_at(tape, transposed, reads[0], shapes[0].len())
        },
        Opcode::Sum => (tape.opcodes_spec()[c] matches Opcode::Broadcast { shape } && shape@ == shapes[0]) && reads_at(
            tape, c, seq![seed]),
        Opcode::SumAlong { axis } => op_at(tape, c, Opcode::BroadcastAlong { axis, extent: shapes[0][axis as int] }, seq![seed]),
        Opcode::Broadcast { .. } => {
            let total = link(tape, c, 0);
            &&& (tape.opcodes_spec()[c] matches Opcode::Broadcast { shape } && shape@ == shapes[0])
            &&& reads_at(tape, c, seq![total])
            &&& op_at(tape, total, Opcode::Sum, seq![seed])
        },
        Opcode::BroadcastAlong { axis, extent: _ } => op_at(tape, c, Opcode::SumAlong { axis }, seq![seed]),
        Opcode::Reshape { .. } => (tape.opcodes_spec()[c] matches Opcode::Reshape { shape } && shape@ == shapes[0])
            && reads_at(tape, c, seq![seed]),
        Opcode::Permute { order } => (tape.opcodes_spec()[c] matches Opcode::Permute { order: inverse } && inverse@.len()
            == order@.len() && forall|i: int| 0 <= i < order@.len() ==> #[trigger] inverse@[order@[i] as int] == i)
            && reads_at(tape, c, seq![seed]),
        Opcode::Narrow { axis, start, len: _ } => op_at(tape, c, Opcode::Pad {
            axis,
            start,
            full_extent: shapes[0][axis as int],
        }, seq![seed]),
        Opcode::Pad { axis, start, full_extent: _ } => op_at(tape, c, Opcode::Narrow {
            axis,
            start,
            len: shapes[0][axis as int],
        }, seq![seed]),
        Opcode::Unfold { axis, size, step, dilation } => op_at(tape, c, Opcode::Fold {
            axis,
            size,
            step,
            dilation,
            extent: shapes[0][axis as int],
        }, seq![seed]),
        Opcode::Fold { axis, size, step, dilation, extent: _ } => op_at(tape, c, Opcode::Unfold {
            axis,
            size,
            step,
            dilation,
        }, seq![seed]),
        Opcode::Gather => op_at(tape, c, Opcode::Scatter, seq![seed, reads[1]]),
        Opcode::Scatter => op_at(tape, c, Opcode::Gather, seq![seed, reads[1]]),
        Opcode::LogSoftmax { axis } => {
            let scaled = link(tape, c, 1);
            let probabilities = link(tape, scaled, 0);
            let spread = link(tape, scaled, 1);
            let total = link(tape, spread, 0);
            &&& op_at(tape, c, Opcode::Sub, seq![seed, scaled])
            &&& op_at(tape, scaled, Opcode::Mul, seq![probabilities, spread])
            &&& op_at(tape, probabilities, Opcode::ElementMap { operation: MapOperation::Exp }, seq![output])
            &&& op_at(tape, spread, Opcode::BroadcastAlong { axis, extent: shapes[0][axis as int] }, seq![total])
            &&& op_at(tape, total, Opcode::SumAlong { axis }, seq![seed])
        },
        Opcode::LogSumExp { axis } => {
            let spread_seed = link(tape, c, 0);
            let probabilities = link(tape, c, 1);
            let shifted = link(tape, probabilities, 0);
            let spread_output = link(tape, shifted, 1);
            &&& op_at(tape, c, Opcode::Mul, seq![spread_seed, probabilities])
            &&& op_at(tape, spread_seed, Opcode::BroadcastAlong { axis, extent: shapes[0][axis as int] }, seq![seed])
            &&& op_at(tape, probabilities, Opcode::ElementMap { operation: MapOperation::Exp }, seq![shifted])
            &&& op_at(tape, shifted, Opcode::Sub, seq![reads[0], spread_output])
            &&& op_at(tape, spread_output, Opcode::BroadcastAlong { axis, extent: shapes[0][axis as int] }, seq![output])
        },
    }
}

/// Whether every cotangent in `cotangents` is the node the rule of
/// `opcode` records for its operand position, over a node reading
/// `operands`, of shapes `shapes`, with output `output` and seed `seed`.
pub open spec fn rule_table<E>(
    tape: Tape<E>,
    opcode: Opcode,
    operands: Seq<Value>,
    output: Value,
    seed: Value,
    cotangents: Seq<Option<Value>>,
    shapes: Seq<Seq<usize>>,
) -> bool {
    forall|k: int|
        0 <= k < cotangents.len() ==> ((#[trigger] cotangents[k]) matches Some(c) ==> rule_entry(
            tape,
            opcode,
            positions(operands),
            output.index_spec() as int,
            seed.index_spec() as int,
            k,
            c.index_spec() as int,
            shapes,
        ))
}

/// A symbolic reading of what a recorded node computes: a source node by
/// its position, a counted literal by its count, and a computed node as
/// its operation applied to what its operands compute.
pub enum Term {
    /// The source node at this position: a leaf, parameter or input.
    Source(usize),
    /// A counted literal holding this count everywhere.
    Count(usize),
    /// A one-operand operation over what its operand computes.
    Unary(Opcode, Box<Term>),
    /// A two-operand operation over what its operands compute.
    Binary(Opcode, Box<Term>, Box<Term>),
}

/// What node `index` of `tape` computes, read through its operand links
/// down to the sources.
pub open spec fn meaning<E>(tape: Tape<E>, index: int) -> Term
    decreases index,
{
    let opcode = tape.opcodes_spec()[index];
    let links = tape.links_spec()[index];
    if index < 0 || is_source_spec(opcode) {
        match tape.counts_spec()[index] {
            Some(count) => Term::Count(count),
            None => Term::Source(index as usize),
        }
    } else if links.len() == 1 && 0 <= links[0].0 < index {
        Term::Unary(opcode, Box::new(meaning(tape, links[0].0 as int)))
    } else if links.len() == 2 && 0 <= links[0].0 < index && 0 <= links[1].0 < index {
        Term::Binary(opcode, Box::new(meaning(tape, links[0].0 as int)), Box::new(meaning(tape, links[1].0 as int)))
    } else {
        Term::Source(index as usize)
    }
}

/// The product of two terms.
pub open spec fn times(left: Term, right: Term) -> Term {
    Term::Binary(Opcode::Mul, Box::new(left), Box::new(right))
}

/// The exponential of a term.
pub open spec fn exp_of(term: Term) -> Term {
    Term::Unary(Opcode::ElementMap { operation: MapOperation::Exp }, Box::new(term))
}

/// One operation applied to a term.
pub open spec fn apply(opcode: Opcode, term: Term) -> Term {
    Term::Unary(opcode, Box::new(term))
}

/// One two-operand operation applied to two terms.
pub open spec fn combine(opcode: Opcode, left: Term, right: Term) -> Term {
    Term::Binary(opcode, Box::new(left), Box::new(right))
}

/// A map applied to a term.
pub open spec fn mapped_term(operation: MapOperation, term: Term) -> Term {
    apply(Opcode::ElementMap { operation }, term)
}

/// The calculus of the elementwise operations: the seed `s` times the
/// partial derivative of `opcode` over `x` (and `y`) with respect to its
/// operand `k`, as a term over what the operands compute. The derivative
/// of `exp` is `exp`, of `ln` the reciprocal, of `sqrt` one over twice
/// the root, of `tanh` one minus its square, of `sin` the cosine, of
/// `cos` minus the sine, of `log1p` one over one plus the operand, of
/// `expm1` itself plus one, of `erf` its recorded derivative map, and of
/// that map minus twice the operand times itself; a sum passes the seed,
/// a difference negates it for the subtrahend, a product scales it by the
/// other factor, a quotient by the reciprocal divisor and, for the
/// divisor, by minus the quotient over the divisor; a power by
/// `y x^(y - 1)` for the base and by `x^y ln x` for the exponent; and a
/// left-biased maximum routes it by the step indicator `x >= y` and its
/// complement.
pub open spec fn derivative(opcode: Opcode, x: Term, y: Term, s: Term, k: int) -> Term {
    let one = Term::Count(1);
    match opcode {
        Opcode::Add => s,
        Opcode::Sub => if k == 0 {
            s
        } else {
            apply(Opcode::Neg, s)
        },
        Opcode::Mul => if k == 0 {
            times(s, y)
        } else {
            times(s, x)
        },
        Opcode::Div => if k == 0 {
            combine(Opcode::Div, s, y)
        } else {
            apply(Opcode::Neg, combine(Opcode::Div, times(s, combine(Opcode::Div, x, y)), y))
        },
        Opcode::Neg => apply(Opcode::Neg, s),
        Opcode::Powf => if k == 0 {
            times(times(s, y), combine(Opcode::Powf, x, combine(Opcode::Sub, y, one)))
        } else {
            times(times(s, combine(Opcode::Powf, x, y)), mapped_term(MapOperation::Ln, x))
        },
        Opcode::Maximum => if k == 0 {
            times(s, combine(Opcode::Step, x, y))
        } else {
            times(s, combine(Opcode::Sub, one, combine(Opcode::Step, x, y)))
        },
        Opcode::ElementMap { operation } => match operation {
            MapOperation::Exp => times(s, exp_of(x)),
            MapOperation::Ln => combine(Opcode::Div, s, x),
            MapOperation::Sqrt => combine(
                Opcode::Div,
                s,
                combine(Opcode::Add, mapped_term(MapOperation::Sqrt, x), mapped_term(MapOperation::Sqrt, x)),
            ),
            MapOperation::Tanh => times(
                s,
                combine(
                    Opcode::Sub,
                    one,
                    times(mapped_term(MapOperation::Tanh, x), mapped_term(MapOperation::Tanh, x)),
                ),
            ),
            MapOperation::Sin => times(s, mapped_term(MapOperation::Cos, x)),
            MapOperation::Cos => apply(Opcode::Neg, times(s, mapped_term(MapOperation::Sin, x))),
            MapOperation::Log1p => combine(Opcode::Div, s, combine(Opcode::Add, one, x)),
            MapOperation::Expm1 => times(s, combine(Opcode::Add, mapped_term(MapOperation::Expm1, x), one)),
            MapOperation::Erf => times(s, mapped_term(MapOperation::ErfDerivative, x)),
            MapOperation::ErfDerivative => apply(
                Opcode::Neg,
                times(times(s, combine(Opcode::Add, x, x)), mapped_term(MapOperation::ErfDerivative, x)),
            ),
        },
        _ => s,
    }
}

/// Whether `opcode` is an elementwise operation with a derivative in
/// [`derivative`].
pub open spec fn differentiable_elementwise(opcode: Opcode) -> bool {
    ||| opcode is Add
    ||| opcode is Sub
    ||| opcode is Mul
    ||| opcode is Div
    ||| opcode is Neg
    ||| opcode is Powf
    ||| opcode is Maximum
    ||| opcode is ElementMap
}

/// The derivative of `exp` is `exp` itself: whenever a node computes
/// `exp(x)`, the cotangent its rule records for `x` from a seed computes
/// the seed times `exp(x)`, whatever `x` and the seed compute.
pub proof fn law_exp_cotangent<E>(
    tape: Tape<E>,
    output: int,
    x: int,
    seed: int,
    c: int,
    shapes: Seq<Seq<usize>>,
)
    requires
        tape.well_formed(),
        0 <= output < tape.len_spec(),
        0 <= c < tape.len_spec(),
        op_at(tape, output, Opcode::ElementMap { operation: MapOperation::Exp }, seq![x]),
        rule_entry(tape, Opcode::ElementMap { operation: MapOperation::Exp }, seq![x], output, seed, 0, c, shapes),
    ensures
        meaning(tape, c) == times(meaning(tape, seed), exp_of(meaning(tape, x))),
{
    assert(tape.links_spec()[c][0].0 == seed);
    assert(tape.links_spec()[c][1].0 == output);
    assert(tape.links_spec()[output][0].0 == x);
    assert(tape.opcodes_spec()[c] == Opcode::Mul);
    assert(tape.opcodes_spec()[output] == Opcode::ElementMap { operation: MapOperation::Exp });
    assert(meaning(tape, output) == exp_of(meaning(tape, x)));
}

/// The product rule: whenever a node computes `a * b`, the cotangent its
/// rule records for `a` from a seed computes the seed times `b`, and the
/// one for `b` the seed times `a`, whatever `a`, `b` and the seed compute.
pub proof fn law_product_cotangents<E>(
    tape: Tape<E>,
    output: int,
    a: int,
    b: int,
    seed: int,
    left: int,
    right: int,
    shapes: Seq<Seq<usize>>,
)
    requires
        tape.well_formed(),
        0 <= output < tape.len_spec(),
        0 <= left < tape.len_spec(),
        0 <= right < tape.len_spec(),
        op_at(tape, output, Opcode::Mul, seq![a, b]),
        rule_entry(tape, Opcode::Mul, seq![a, b], output, seed, 0, left, shapes),
        rule_entry(tape, Opcode::Mul, seq![a, b], output, seed, 1, right, shapes),
    ensures
        meaning(tape, left) == times(meaning(tape, seed), meaning(tape, b)),
        meaning(tape, right) == times(meaning(tape, seed), meaning(tape, a)),
{
    assert(tape.links_spec()[left][0].0 == seed);
    assert(tape.links_spec()[left][1].0 == b);
    assert(tape.links_spec()[right][0].0 == seed);
    assert(tape.links_spec()[right][1].0 == a);
    assert(tape.opcodes_spec()[left] == Opcode::Mul);
    assert(tape.opcodes_spec()[right] == Opcode::Mul);
}

/// Whether `opcode` is a plain elementwise operation: one a recorded
/// opcode agrees with exactly when it equals it.
pub open spec fn plain(opcode: Opcode) -> bool {
    differentiable_elementwise(opcode) || opcode is Step || reshaping(opcode) || opcode is MatMul || opcode is Sum
}

/// Whether `opcode` is a shape operation or normalization whose rule
/// records its adjoint: a reduction or spread along an axis, a narrow
/// or pad, an unfold or fold, a gather or scatter, a log-softmax or a
/// log-sum-exp.
pub open spec fn reshaping(opcode: Opcode) -> bool {
    ||| opcode is SumAlong
    ||| opcode is BroadcastAlong
    ||| opcode is Narrow
    ||| opcode is Pad
    ||| opcode is Unfold
    ||| opcode is Fold
    ||| opcode is Gather
    ||| opcode is Scatter
    ||| opcode is LogSoftmax
    ||| opcode is LogSumExp
}

/// The adjoint each shape operation applies to the seed `s`, over an
/// operand `x` of shape `shape` (and a selection `y`): a reduction
/// along an axis spreads back to the axis's extent and a spread reduces
/// along it; a narrow pads back into its place in the full extent and a
/// pad narrows out its window; windows fold back onto the extent and a
/// fold unfolds; a gather scatters the seed by the selection and a
/// scatter gathers it. A log-softmax gives the seed minus the softmax
/// times the seed's sum along the axis, and a log-sum-exp the seed
/// spread along the axis times `exp(x - logsumexp(x))`.
pub open spec fn adjoint(opcode: Opcode, x: Term, y: Term, s: Term, shape: Seq<usize>) -> Term {
    match opcode {
        Opcode::SumAlong { axis } => apply(Opcode::BroadcastAlong { axis, extent: shape[axis as int] }, s),
        Opcode::BroadcastAlong { axis, extent: _ } => apply(Opcode::SumAlong { axis }, s),
        Opcode::Narrow { axis, start, len: _ } => apply(Opcode::Pad { axis, start, full_extent: shape[axis as int] }, s),
        Opcode::Pad { axis, start, full_extent: _ } => apply(Opcode::Narrow { axis, start, len: shape[axis as int] }, s),
        Opcode::Unfold { axis, size, step, dilation } => apply(
            Opcode::Fold { axis, size, step, dilation, extent: shape[axis as int] },
            s,
        ),
        Opcode::Fold { axis, size, step, dilation, extent: _ } => apply(Opcode::Unfold { axis, size, step, dilation }, s),
        Opcode::Gather => combine(Opcode::Scatter, s, y),
        Opcode::Scatter => combine(Opcode::Gather, s, y),
        Opcode::LogSoftmax { axis } => combine(
            Opcode::Sub,
            s,
            times(
                exp_of(apply(Opcode::LogSoftmax { axis }, x)),
                apply(Opcode::BroadcastAlong { axis, extent: shape[axis as int] }, apply(Opcode::SumAlong { axis }, s)),
            ),
        ),
        Opcode::LogSumExp { axis } => times(
            apply(Opcode::BroadcastAlong { axis, extent: shape[axis as int] }, s),
            exp_of(
                combine(
                    Opcode::Sub,
                    x,
                    apply(Opcode::BroadcastAlong { axis, extent: shape[axis as int] }, apply(Opcode::LogSumExp { axis }, x)),
                ),
            ),
        ),
        _ => s,
    }
}

/// A computed one-operand node means its operation over its operand.
proof fn lemma_meaning_unary<E>(tape: Tape<E>, index: int, opcode: Opcode, operand: int)
    requires
        tape.well_formed(),
        0 <= index < tape.len_spec(),
        plain(opcode),
        op_at(tape, index, opcode, seq![operand]),
    ensures
        meaning(tape, index) == apply(opcode, meaning(tape, operand)),
{
    assert(tape.links_spec()[index][0].0 == operand);
    assert(tape.opcodes_spec()[index] == opcode);
}

/// A computed two-operand node means its operation over its operands.
proof fn lemma_meaning_binary<E>(tape: Tape<E>, index: int, opcode: Opcode, left: int, right: int)
    requires
        tape.well_formed(),
        0 <= index < tape.len_spec(),
        plain(opcode),
        op_at(tape, index, opcode, seq![left, right]),
    ensures
        meaning(tape, index) == combine(opcode, meaning(tape, left), meaning(tape, right)),
{
    assert(tape.links_spec()[index][0].0 == left);
    assert(tape.links_spec()[index][1].0 == right);
    assert(tape.opcodes_spec()[index] == opcode);
}

/// A counted literal of one means one.
proof fn lemma_meaning_one<E>(tape: Tape<E>, index: int, shape: Seq<usize>)
    requires
        0 <= index < tape.len_spec(),
        literal_at(tape, index, 1, shape),
    ensures
        meaning(tape, index) == Term::Count(1),
{
}

/// The chain rule for the elementwise maps: whenever a node computes a map
/// of `x`, the cotangent its rule records for `x` from a seed computes the
/// seed times the map's derivative at `x`.
proof fn lemma_map_derivative<E>(
    tape: Tape<E>,
    operation: MapOperation,
    x: int,
    output: int,
    seed: int,
    c: int,
    shape: Seq<usize>,
)
    requires
        tape.well_formed(),
        0 <= output < tape.len_spec(),
        0 <= c < tape.len_spec(),
        op_at(tape, output, Opcode::ElementMap { operation }, seq![x]),
        map_entry(tape, operation, x, output, seed, c, shape),
    ensures
        meaning(tape, c) == derivative(Opcode::ElementMap { operation }, meaning(tape, x), meaning(tape, x), meaning(tape, seed), 0),
{
    let op = Opcode::ElementMap { operation };
    lemma_meaning_unary(tape, output, op, x);
    let mx = meaning(tape, x);
    let ms = meaning(tape, seed);
    match operation {
        MapOperation::Exp => {
            lemma_meaning_binary(tape, c, Opcode::Mul, seed, output);
        },
        MapOperation::Ln => {
            lemma_meaning_binary(tape, c, Opcode::Div, seed, x);
        },
        MapOperation::Sqrt => {
            let doubled = link(tape, c, 1);
            lemma_meaning_binary(tape, c, Opcode::Div, seed, doubled);
            lemma_meaning_binary(tape, doubled, Opcode::Add, output, output);
        },
        MapOperation::Tanh => {
            let slope = link(tape, c, 1);
            let one = link(tape, slope, 0);
            let square = link(tape, slope, 1);
            lemma_meaning_binary(tape, c, Opcode::Mul, seed, slope);
            lemma_meaning_binary(tape, slope, Opcode::Sub, one, square);
            lemma_meaning_one(tape, one, shape);
            lemma_meaning_binary(tape, square, Opcode::Mul, output, output);
        },
        MapOperation::Sin => {
            let slope = link(tape, c, 1);
            lemma_meaning_binary(tape, c, Opcode::Mul, seed, slope);
            lemma_meaning_unary(tape, slope, Opcode::ElementMap { operation: MapOperation::Cos }, x);
        },
        MapOperation::Cos => {
            let scaled = link(tape, c, 0);
            let sine = link(tape, scaled, 1);
            lemma_meaning_unary(tape, c, Opcode::Neg, scaled);
            lemma_meaning_binary(tape, scaled, Opcode::Mul, seed, sine);
            lemma_meaning_unary(tape, sine, Opcode::ElementMap { operation: MapOperation::Sin }, x);
        },
        MapOperation::Log1p => {
            let shifted = link(tape, c, 1);
            let one = link(tape, shifted, 0);
            lemma_meaning_binary(tape, c, Opcode::Div, seed, shifted);
            lemma_meaning_binary(tape, shifted, Opcode::Add, one, x);
            lemma_meaning_one(tape, one, shape);
        },
        MapOperation::Expm1 => {
            let slope = link(tape, c, 1);
            let one = link(tape, slope, 1);
            lemma_meaning_binary(tape, c, Opcode::Mul, seed, slope);
            lemma_meaning_binary(tape, slope, Opcode::Add, output, one);
            lemma_meaning_one(tape, one, shape);
        },
        MapOperation::Erf => {
            let slope = link(tape, c, 1);
            lemma_meaning_binary(tape, c, Opcode::Mul, seed, slope);
            lemma_meaning_unary(tape, slope, Opcode::ElementMap { operation: MapOperation::ErfDerivative }, x);
        },
        MapOperation::ErfDerivative => {
            let slope = link(tape, c, 0);
            let scaled = link(tape, slope, 0);
            let doubled = link(tape, scaled, 1);
            lemma_meaning_unary(tape, c, Opcode::Neg, slope);
            lemma_meaning_binary(tape, slope, Opcode::Mul, scaled, output);
            lemma_meaning_binary(tape, scaled, Opcode::Mul, seed, doubled);
            lemma_meaning_binary(tape, doubled, Opcode::Add, x, x);
        },
    }
}

/// The chain rule, elementwise: whenever a node computes an elementwise
/// operation of its operands, the cotangent its rule records for operand
/// `k` from a seed computes the seed times the operation's partial
/// derivative with respect to that operand, read over what the operands
/// compute.
pub proof fn law_elementwise_cotangents_are_derivatives<E>(
    tape: Tape<E>,
    opcode: Opcode,
    reads: Seq<int>,
    output: int,
    seed: int,
    k: int,
    c: int,
    shapes: Seq<Seq<usize>>,
)
    requires
        tape.well_formed(),
        differentiable_elementwise(opcode),
        reads.len() == arity_spec(opcode),
        0 <= output < tape.len_spec(),
        0 <= c < tape.len_spec(),
        0 <= k < reads.len(),
        op_at(tape, output, opcode, reads),
        rule_entry(tape, opcode, reads, output, seed, k, c, shapes),
    ensures
        meaning(tape, c) == derivative(
            opcode,
            meaning(tape, reads[0]),
            meaning(tape, reads[reads.len() - 1]),
            meaning(tape, seed),
            k,
        ),
{
    match opcode {
        Opcode::ElementMap { operation } => {
            assert(reads =~= seq![reads[0]]);
            lemma_map_derivative(tape, operation, reads[0], output, seed, c, shapes[0]);
        },
        Opcode::Add => {},
        Opcode::Neg => {
            lemma_meaning_unary(tape, c, Opcode::Neg, seed);
        },
        Opcode::Sub => {
            if k == 1 {
                lemma_meaning_unary(tape, c, Opcode::Neg, seed);
            }
        },
        Opcode::Mul => {
            lemma_meaning_binary(tape, c, Opcode::Mul, seed, reads[1 - k]);
        },
        Opcode::Div => {
            if k == 0 {
                lemma_meaning_binary(tape, c, Opcode::Div, seed, reads[1]);
            } else {
                let quotient = link(tape, c, 0);
                let scaled = link(tape, quotient, 0);
                assert(reads =~= seq![reads[0], reads[1]]);
                lemma_meaning_binary(tape, output, Opcode::Div, reads[0], reads[1]);
                lemma_meaning_unary(tape, c, Opcode::Neg, quotient);
                lemma_meaning_binary(tape, quotient, Opcode::Div, scaled, reads[1]);
                lemma_meaning_binary(tape, scaled, Opcode::Mul, seed, output);
            }
        },
        Opcode::Powf => {
            assert(reads =~= seq![reads[0], reads[1]]);
            if k == 0 {
                let scaled = link(tape, c, 0);
                let power = link(tape, c, 1);
                let lowered = link(tape, power, 1);
                let one = link(tape, lowered, 1);
                lemma_meaning_binary(tape, c, Opcode::Mul, scaled, power);
                lemma_meaning_binary(tape, scaled, Opcode::Mul, seed, reads[1]);
                lemma_meaning_binary(tape, power, Opcode::Powf, reads[0], lowered);
                lemma_meaning_binary(tape, lowered, Opcode::Sub, reads[1], one);
                lemma_meaning_one(tape, one, shapes[0]);
            } else {
                let reused = link(tape, c, 0);
                let logarithm = link(tape, c, 1);
                lemma_meaning_binary(tape, output, Opcode::Powf, reads[0], reads[1]);
                lemma_meaning_binary(tape, c, Opcode::Mul, reused, logarithm);
                lemma_meaning_binary(tape, reused, Opcode::Mul, seed, output);
                lemma_meaning_unary(tape, logarithm, Opcode::ElementMap { operation: MapOperation::Ln }, reads[0]);
            }
        },
        Opcode::Maximum => {
            if k == 0 {
                let winners = link(tape, c, 1);
                lemma_meaning_binary(tape, c, Opcode::Mul, seed, winners);
                lemma_meaning_binary(tape, winners, Opcode::Step, reads[0], reads[1]);
            } else {
                let losers = link(tape, c, 1);
                let one = link(tape, losers, 0);
                let winners = link(tape, losers, 1);
                lemma_meaning_binary(tape, c, Opcode::Mul, seed, losers);
                lemma_meaning_binary(tape, losers, Opcode::Sub, one, winners);
                lemma_meaning_one(tape, one, shapes[0]);
                lemma_meaning_binary(tape, winners, Opcode::Step, reads[0], reads[1]);
            }
        },
        _ => {},
    }
}

/// The chain rule for the shape operations: whenever a node computes a
/// shape operation, log-softmax or log-sum-exp of its operand, the
/// cotangent its rule records for that operand from a seed computes the
/// operation's adjoint applied to the seed.
pub proof fn law_shape_cotangents_are_adjoints<E>(
    tape: Tape<E>,
    opcode: Opcode,
    reads: Seq<int>,
    output: int,
    seed: int,
    c: int,
    shapes: Seq<Seq<usize>>,
)
    requires
        tape.well_formed(),
        reshaping(opcode),
        reads.len() == arity_spec(opcode),
        0 <= output < tape.len_spec(),
        0 <= c < tape.len_spec(),
        op_at(tape, output, opcode, reads),
        rule_entry(tape, opcode, reads, output, seed, 0, c, shapes),
    ensures
        meaning(tape, c) == adjoint(
            opcode,
            meaning(tape, reads[0]),
            meaning(tape, reads[reads.len() - 1]),
            meaning(tape, seed),
            shapes[0],
        ),
{
    match opcode {
        Opcode::SumAlong { axis } => {
            lemma_meaning_unary(tape, c, Opcode::BroadcastAlong { axis, extent: shapes[0][axis as int] }, seed);
        },
        Opcode::BroadcastAlong { axis, extent: _ } => {
            lemma_meaning_unary(tape, c, Opcode::SumAlong { axis }, seed);
        },
        Opcode::Narrow { axis, start, len: _ } => {
            lemma_meaning_unary(tape, c, Opcode::Pad { axis, start, full_extent: shapes[0][axis as int] }, seed);
        },
        Opcode::Pad { axis, start, full_extent: _ } => {
            lemma_meaning_unary(tape, c, Opcode::Narrow { axis, start, len: shapes[0][axis as int] }, seed);
        },
        Opcode::Unfold { axis, size, step, dilation } => {
            lemma_meaning_unary(tape, c, Opcode::Fold { axis, size, step, dilation, extent: shapes[0][axis as int] }, seed);
        },
        Opcode::Fold { axis, size, step, dilation, extent: _ } => {
            lemma_meaning_unary(tape, c, Opcode::Unfold { axis, size, step, dilation }, seed);
        },
        Opcode::Gather => {
            lemma_meaning_binary(tape, c, Opcode::Scatter, seed, reads[1]);
        },
        Opcode::Scatter => {
            lemma_meaning_binary(tape, c, Opcode::Gather, seed, reads[1]);
        },
        Opcode::LogSoftmax { axis } => {
            assert(reads =~= seq![reads[0]]);
            let scaled = link(tape, c, 1);
            let probabilities = link(tape, scaled, 0);
            let spread = link(tape, scaled, 1);
            let total = link(tape, spread, 0);
            lemma_meaning_unary(tape, output, opcode, reads[0]);
            lemma_meaning_binary(tape, c, Opcode::Sub, seed, scaled);
            lemma_meaning_binary(tape, scaled, Opcode::Mul, probabilities, spread);
            lemma_meaning_unary(tape, probabilities, Opcode::ElementMap { operation: MapOperation::Exp }, output);
            lemma_meaning_unary(tape, spread, Opcode::BroadcastAlong { axis, extent: shapes[0][axis as int] }, total);
            lemma_meaning_unary(tape, total, Opcode::SumAlong { axis }, seed);
        },
        Opcode::LogSumExp { axis } => {
            assert(reads =~= seq![reads[0]]);
            let spread_seed = link(tape, c, 0);
            let probabilities = link(tape, c, 1);
            let shifted = link(tape, probabilities, 0);
            let spread_output = link(tape, shifted, 1);
            let spread = Opcode::BroadcastAlong { axis, extent: shapes[0][axis as int] };
            lemma_meaning_unary(tape, output, opcode, reads[0]);
            lemma_meaning_binary(tape, c, Opcode::Mul, spread_seed, probabilities);
            lemma_meaning_unary(tape, spread_seed, spread, seed);
            lemma_meaning_unary(tape, probabilities, Opcode::ElementMap { operation: MapOperation::Exp }, shifted);
            lemma_meaning_binary(tape, shifted, Opcode::Sub, reads[0], spread_output);
            lemma_meaning_unary(tape, spread_output, spread, output);
        },
        _ => {},
    }
}

/// The product rule for matrix products: whenever a node computes the
/// product `a b` of matrices, the cotangent its rule records for `a`
/// from a seed computes the seed times `b` with its last two axes
/// exchanged, and the one for `b` the exchanged `a` times the seed.
pub proof fn law_matrix_product_cotangents<E>(
    tape: Tape<E>,
    output: int,
    a: int,
    b: int,
    seed: int,
    left: int,
    right: int,
    shapes: Seq<Seq<usize>>,
)
    requires
        tape.well_formed(),
        0 <= output < tape.len_spec(),
        0 <= left < tape.len_spec(),
        0 <= right < tape.len_spec(),
        op_at(tape, output, Opcode::MatMul, seq![a, b]),
        rule_entry(tape, Opcode::MatMul, seq![a, b], output, seed, 0, left, shapes),
        rule_entry(tape, Opcode::MatMul, seq![a, b], output, seed, 1, right, shapes),
    ensures
        meaning(tape, left) matches Term::Binary(Opcode::MatMul, by_seed, by_right) && *by_seed == meaning(tape, seed)
            && (*by_right matches Term::Unary(Opcode::Permute { order }, transposed) && order@ == swap_order(shapes[1].len())
            && *transposed == meaning(tape, b)),
        meaning(tape, right) matches Term::Binary(Opcode::MatMul, by_left, by_seed) && *by_seed == meaning(tape, seed)
            && (*by_left matches Term::Unary(Opcode::Permute { order }, transposed) && order@ == swap_order(shapes[0].len())
            && *transposed == meaning(tape, a)),
{
    let right_t = link(tape, left, 1);
    let left_t = link(tape, right, 0);
    lemma_meaning_binary(tape, left, Opcode::MatMul, seed, right_t);
    lemma_meaning_binary(tape, right, Opcode::MatMul, left_t, seed);
    assert(tape.links_spec()[right_t][0].0 == b);
    assert(tape.links_spec()[left_t][0].0 == a);
}

/// Whether the reverse rule of `opcode` can record its adjoint over
/// operands of shapes `operands`: a reduction, a log-softmax or a
/// log-sum-exp along an axis spreads the seed back along that axis, and a
/// pad narrows the seed back to the operand's extent there, so that axis
/// of the operand must be non-empty. Every other rule records over any
/// shapes its forward rule accepts.
pub open spec fn reversible(opcode: Opcode, operands: Seq<Seq<usize>>) -> bool {
    match opcode {
        Opcode::SumAlong { axis } => operands[0][axis as int] > 0,
        Opcode::LogSoftmax { axis } => operands[0][axis as int] > 0,
        Opcode::LogSumExp { axis } => operands[0][axis as int] > 0,
        Opcode::Pad { axis, start: _, full_extent: _ } => operands[0][axis as int] > 0,
        _ => true,
    }
}

/// Whether `cotangents` answer a node of `opcode` over operands of shapes
/// `operands` on `tape`: one entry per operand, `None` exactly for a data
/// operand, and every other entry a recorded value of its operand's
/// shape.
pub open spec fn cotangents_fit<E>(tape: Tape<E>, opcode: Opcode, operands: Seq<Seq<usize>>, cotangents: Seq<Option<Value>>) -> bool {
    &&& cotangents.len() == arity_spec(opcode)
    &&& forall|k: int| 0 <= k < cotangents.len() ==> ((#[trigger] cotangents[k]) is None <==> data_operand(opcode, k))
    &&& forall|k: int|
        0 <= k < cotangents.len() ==> ((#[trigger] cotangents[k]) matches Some(cotangent) ==> tape.holds(cotangent)
            && tape.extents(cotangent) == operands[k])
}

/// A window count of a window that fits its axis is positive and at most
/// the axis extent.
proof fn lemma_window_count_bounds(extent: int, size: int, step: int, dilation: int)
    requires
        size > 0,
        step > 0,
        dilation > 0,
        dilation * (size - 1) + 1 <= extent,
    ensures
        1 <= window_count(extent, size, step, dilation) <= extent,
{
    let span = extent - dilation * (size - 1) - 1;
    assert(span >= 0);
    assert(span / step <= span) by (nonlinear_arith)
        requires span >= 0, step > 0;
    assert(span / step >= 0) by (nonlinear_arith)
        requires span >= 0, step > 0;
    assert(dilation * (size - 1) >= 0) by (nonlinear_arith)
        requires dilation > 0, size > 0;
}

impl Opcode {
    /// Applies this operation's reverse-mode rule on `tape`: records the
    /// cotangent each operand receives from the incoming `seed`, given the
    /// node's `operands` and forward `output`, and returns them position
    /// for position. `None` marks an operand that is data rather than a
    /// differentiable dependency: a gather's or a scatter's selection and
    /// both operands of a step.
    pub fn vjp<E: Copy>(&self, tape: &mut Tape<E>, operands: &[Value], output: Value, seed: Value) -> (cotangents: Vec<
        Option<Value>,
    >)
        requires
            old(tape).well_formed(),
            !is_source_spec(*self),
            forall|k: int| 0 <= k < operands@.len() ==> old(tape).holds(#[trigger] operands@[k]),
            old(tape).holds(output),
            old(tape).holds(seed),
            expressible(*self, operand_extents(*old(tape), operands@)),
            reversible(*self, operand_extents(*old(tape), operands@)),
            old(tape).extents(output) == expressed_shape(*self, operand_extents(*old(tape), operands@)),
            old(tape).extents(seed) == old(tape).extents(output),
        ensures
            final(tape).well_formed(),
            final(tape).len_spec() >= old(tape).len_spec(),
            final(tape).appends(old(tape), (final(tape).len_spec() - old(tape).len_spec()) as nat),
            cotangents_fit(*final(tape), *self, operand_extents(*old(tape), operands@), cotangents@),
            rule_table(*final(tape), *self, operands@, output, seed, cotangents@, operand_extents(*old(tape), operands@)),
            (*self is Add || *self is Step) ==> final(tape).len_spec() == old(tape).len_spec(),
            rules_hold(*old(tape)) ==> rules_hold(*final(tape)),
    {
        let ghost start = *tape;
        let ghost shapes = operand_extents(start, operands@);
        proof {
            lemma_extends_reflexive(start);
            assert(operands@.len() == arity_spec(*self));
            if operands@.len() > 0 {
                assert(shapes[0] == start.extents(operands@[0]));
                assert(start.holds(operands@[0]));
            }
            if operands@.len() > 1 {
                assert(shapes[1] == start.extents(operands@[1]));
                assert(start.holds(operands@[1]));
            }
        }
        let cotangents: Vec<Option<Value>> = match self {
            Opcode::Leaf | Opcode::Parameter | Opcode::Input => Vec::new(),
            Opcode::Add => vec![Some(seed), Some(seed)],
            Opcode::Sub => {
                let negative = negated(tape, Ghost(start), seed);
                vec![Some(seed), Some(negative)]
            },
            Opcode::Mul => {
                let left = elementwise(tape, Ghost(start), Opcode::Mul, seed, operands[1]);
                let right = elementwise(tape, Ghost(start), Opcode::Mul, seed, operands[0]);
                vec![Some(left), Some(right)]
            },
            Opcode::Div => {
                let left = elementwise(tape, Ghost(start), Opcode::Div, seed, operands[1]);
                let right = divisor_rule(tape, operands[1], output, seed);
                vec![Some(left), Some(right)]
            },
            Opcode::Neg => {
                let cotangent = negated(tape, Ghost(start), seed);
                vec![Some(cotangent)]
            },
            Opcode::ElementMap { operation } => {
                let cotangent = map_rule(tape, *operation, operands[0], output, seed);
                vec![Some(cotangent)]
            },
            Opcode::Powf => {
                let (left, right) = powf_rule(tape, operands[0], operands[1], output, seed);
                vec![Some(left), Some(right)]
            },
            Opcode::Maximum => {
                let (left, right) = maximum_rule(tape, operands[0], operands[1], seed);
                vec![Some(left), Some(right)]
            },
            Opcode::Step => vec![None, None],
            Opcode::MatMul => {
                let (left, right) = matmul_rule(tape, operands[0], operands[1], seed);
                vec![Some(left), Some(right)]
            },
            Opcode::Sum => {
                let shape = operands[0].shape(tape);
                proof {
                    assert(fits(Seq::<usize>::empty()) && volume_of(Seq::<usize>::empty()) == 1);
                }
                {
                let cotangent = unary(tape, Ghost(start), Opcode::Broadcast { shape }, seed);
                vec![Some(cotangent)]
            }
            },
            Opcode::SumAlong { axis } => {
                let extent = operands[0].shape(tape).extent(*axis);
                proof {
                    assert(shapes[0].remove(*axis as int).insert(*axis as int, extent) =~= shapes[0]);
                }
                {
                let cotangent = unary(tape, Ghost(start), Opcode::BroadcastAlong { axis: *axis, extent }, seed);
                vec![Some(cotangent)]
            }
            },
            Opcode::Broadcast { .. } => {
                let total = unary(tape, Ghost(start), Opcode::Sum, seed);
                let shape = operands[0].shape(tape);
                proof {
                    assert(fits(Seq::<usize>::empty()) && volume_of(Seq::<usize>::empty()) == 1);
                }
                {
                let cotangent = unary(tape, Ghost(start), Opcode::Broadcast { shape }, total);
                vec![Some(cotangent)]
            }
            },
            Opcode::BroadcastAlong { axis, extent } => {
                proof {
                    assert(shapes[0].insert(*axis as int, *extent).remove(*axis as int) =~= shapes[0]);
                }
                {
                let cotangent = unary(tape, Ghost(start), Opcode::SumAlong { axis: *axis }, seed);
                vec![Some(cotangent)]
            }
            },
            Opcode::Reshape { .. } => {
                let shape = operands[0].shape(tape);
                {
                let cotangent = unary(tape, Ghost(start), Opcode::Reshape { shape }, seed);
                vec![Some(cotangent)]
            }
            },
            Opcode::Permute { order } => {
                let inverse = inverse_order(order);
                proof {
                    law_inverse_undoes_the_order(order@, inverse@);
                    law_inverse_restores_the_axes(shapes[0], order@, inverse@);
                }
                {
                let cotangent = unary(tape, Ghost(start), Opcode::Permute { order: inverse }, seed);
                vec![Some(cotangent)]
            }
            },
            Opcode::Narrow { axis, start: first, len } => {
                let extent = operands[0].shape(tape).extent(*axis);
                proof {
                    assert(shapes[0].update(*axis as int, *len).update(*axis as int, extent) =~= shapes[0]);
                }
                {
                let cotangent = unary(tape, Ghost(start), Opcode::Pad { axis: *axis, start: *first, full_extent: extent }, seed);
                vec![Some(cotangent)]
            }
            },
            Opcode::Pad { axis, start: first, full_extent } => {
                let extent = operands[0].shape(tape).extent(*axis);
                proof {
                    assert(shapes[0][*axis as int] > 0);
                    assert(shapes[0].update(*axis as int, *full_extent).update(*axis as int, extent) =~= shapes[0]);
                }
                {
                let cotangent = unary(tape, Ghost(start), Opcode::Narrow { axis: *axis, start: *first, len: extent }, seed);
                vec![Some(cotangent)]
            }
            },
            Opcode::Unfold { axis, size, step, dilation } => {
                let extent = operands[0].shape(tape).extent(*axis);
                proof {
                    lemma_window_count_bounds(extent as int, *size as int, *step as int, *dilation as int);
                    let count = window_count(extent as int, *size as int, *step as int, *dilation as int);
                    let windows = shapes[0].update(*axis as int, count as usize).insert(*axis + 1, *size);
                    assert(windows[*axis as int] == count);
                    assert(windows[*axis + 1] == *size);
                    assert(windows.update(*axis as int, extent).remove(*axis + 1) =~= shapes[0]);
                }
                {
                let cotangent = unary(tape, Ghost(start), Opcode::Fold {
                    axis: *axis,
                    size: *size,
                    step: *step,
                    dilation: *dilation,
                    extent,
                }, seed);
                vec![Some(cotangent)]
            }
            },
            Opcode::Fold { axis, size, step, dilation, extent } => {
                proof {
                    let folded = shapes[0].update(*axis as int, *extent).remove(*axis + 1);
                    assert(folded[*axis as int] == *extent);
                    assert(folded.update(*axis as int, window_count(*extent as int, *size as int, *step as int,
                        *dilation as int) as usize).insert(*axis + 1, *size) =~= shapes[0]);
                }
                {
                let cotangent = unary(tape, Ghost(start), Opcode::Unfold {
                    axis: *axis,
                    size: *size,
                    step: *step,
                    dilation: *dilation,
                }, seed);
                vec![Some(cotangent)]
            }
            },
            Opcode::Gather => {
                proof {
                    let gathered = seq![shapes[1][0]] + shapes[0].subrange(1, shapes[0].len() as int);
                    assert(gathered.update(0, shapes[1][1]) =~= shapes[0]);
                }
                let scattered = binary(tape, Ghost(start), Opcode::Scatter, seed, operands[1]);
                vec![Some(scattered), None]
            },
            Opcode::Scatter => {
                proof {
                    let scattered = shapes[0].update(0, shapes[1][1]);
                    assert(seq![shapes[1][0]] + scattered.subrange(1, scattered.len() as int) =~= shapes[0]);
                }
                let gathered = binary(tape, Ghost(start), Opcode::Gather, seed, operands[1]);
                vec![Some(gathered), None]
            },
            Opcode::LogSoftmax { axis } => {
                let cotangent = log_softmax_rule(tape, *axis, operands[0], output, seed);
                vec![Some(cotangent)]
            },
            Opcode::LogSumExp { axis } => {
                let cotangent = log_sum_exp_rule(tape, *axis, operands[0], output, seed);
                vec![Some(cotangent)]
            },
        };
        proof {
            lemma_extends_appends(start, *tape);
        }
        cotangents
    }
}

/// The recorded shapes of the operands of node `index`, in order.
pub open spec fn link_extents<E>(tape: Tape<E>, index: int) -> Seq<Seq<usize>> {
    tape.links_spec()[index].map_values(|id: ValueId| tape.shapes_spec()[id.0 as int])
}

/// Whether every computed node of `tape` was recorded by its operation's
/// rule: the shapes its operands carry are accepted, its own shape is the
/// one the rule infers, and its reverse rule can record over them.
pub closed spec fn rules_hold<E>(tape: Tape<E>) -> bool {
    forall|index: int|
        0 <= index < tape.len_spec() && !is_source_spec(#[trigger] tape.opcodes_spec()[index]) ==> {
            &&& expressible(tape.opcodes_spec()[index], link_extents(tape, index))
            &&& tape.shapes_spec()[index] == expressed_shape(tape.opcodes_spec()[index], link_extents(tape, index))
            &&& reversible(tape.opcodes_spec()[index], link_extents(tape, index))
        }
}

/// Whether node `index` of `tape` is a source, or was recorded by its
/// operation's rule over operand shapes its reverse rule can record
/// over.
pub open spec fn obeys_rule<E>(tape: Tape<E>, index: int) -> bool {
    !is_source_spec(tape.opcodes_spec()[index]) ==> {
        &&& expressible(tape.opcodes_spec()[index], link_extents(tape, index))
        &&& tape.shapes_spec()[index] == expressed_shape(tape.opcodes_spec()[index], link_extents(tape, index))
        &&& reversible(tape.opcodes_spec()[index], link_extents(tape, index))
    }
}

/// An empty tape obeys the rules.
pub proof fn lemma_rules_hold_empty<E>(tape: Tape<E>)
    requires
        tape.len_spec() == 0,
    ensures
        rules_hold(tape),
{
}

/// Appending a node that obeys its rule keeps a tape obeying the rules:
/// every earlier node keeps its operands and their shapes.
pub proof fn lemma_rules_extend<E>(earlier: Tape<E>, later: Tape<E>)
    requires
        earlier.well_formed(),
        later.well_formed(),
        later.appends(&earlier, 1),
        rules_hold(earlier),
        obeys_rule(later, earlier.len_spec() as int),
    ensures
        rules_hold(later),
{
    assert forall|index: int| 0 <= index < later.len_spec() && !is_source_spec(#[trigger] later.opcodes_spec()[index]) implies {
        &&& expressible(later.opcodes_spec()[index], link_extents(later, index))
        &&& later.shapes_spec()[index] == expressed_shape(later.opcodes_spec()[index], link_extents(later, index))
        &&& reversible(later.opcodes_spec()[index], link_extents(later, index))
    } by {
        if index < earlier.len_spec() {
            Tape::lemma_appends_keeps(earlier, later, 1, index);
            assert forall|m: int| 0 <= m < link_extents(earlier, index).len() implies #[trigger] link_extents(later, index)[m]
                == link_extents(earlier, index)[m] by {
                assert(earlier.links_spec()[index][m].0 < index);
                Tape::lemma_appends_keeps(earlier, later, 1, earlier.links_spec()[index][m].0 as int);
            }
            assert(link_extents(later, index) =~= link_extents(earlier, index));
            assert(earlier.opcodes_spec()[index] == later.opcodes_spec()[index]);
        }
    }
}

/// Appending a node recorded with its rule's shape, over operands of
/// positive shapes that the rule accepts, keeps a tape obeying the rules.
pub proof fn lemma_rules_record<E>(earlier: Tape<E>, later: Tape<E>, operands: Seq<Value>)
    requires
        earlier.well_formed(),
        later.well_formed(),
        later.appends(&earlier, 1),
        rules_hold(earlier),
        forall|k: int| 0 <= k < operands.len() ==> earlier.holds(#[trigger] operands[k]),
        reversible(later.opcodes_spec()[earlier.len_spec() as int], operand_extents(earlier, operands)),
        expressible(later.opcodes_spec()[earlier.len_spec() as int], operand_extents(earlier, operands)),
        later.node_is(
            earlier.len_spec() as int,
            operands,
            expressed_shape(later.opcodes_spec()[earlier.len_spec() as int], operand_extents(earlier, operands)),
        ),
    ensures
        rules_hold(later),
{
    let index = earlier.len_spec() as int;
    assert forall|m: int| 0 <= m < operands.len() implies #[trigger] link_extents(later, index)[m] == operand_extents(earlier, operands)[m] by {
        Tape::lemma_appends_keeps(earlier, later, 1, operands[m].index_spec() as int);
    }
    assert(link_extents(later, index) =~= operand_extents(earlier, operands));
    lemma_rules_extend(earlier, later);
}

/// The nodes a reverse scan from `target` has reached once it has
/// processed `done` nodes, from the target downward: the target, and every
/// differentiable operand of a reached computed node processed so far.
pub open spec fn reach_after<E>(tape: Tape<E>, target: nat, done: nat) -> Seq<bool>
    decreases done,
{
    if done == 0 {
        Seq::new(target + 1, |j: int| j == target)
    } else {
        let before = reach_after(tape, target, (done - 1) as nat);
        let index = target - (done - 1);
        if index < 0 || !before[index] || is_source_spec(tape.opcodes_spec()[index]) {
            before
        } else {
            Seq::new(target + 1, |j: int| before[j] || feeds(tape, index, j, tape.links_spec()[index].len() as int))
        }
    }
}

/// Whether one of the first `count` operands of node `index` reads node
/// `j` as a differentiable dependency.
pub open spec fn feeds<E>(tape: Tape<E>, index: int, j: int, count: int) -> bool {
    exists|k: int| 0 <= k < count && #[trigger] tape.links_spec()[index][k].0 == j && !data_operand(tape.opcodes_spec()[index], k)
}

/// Whether node `j` is an ancestor of `target` through differentiable
/// dependencies: the reverse scan from `target` reaches it.
pub open spec fn reached<E>(tape: Tape<E>, target: nat, j: int) -> bool {
    0 <= j <= target && reach_after(tape, target, target + 1)[j]
}

/// The positions of the nodes node `index` reads, in order.
pub open spec fn link_positions<E>(tape: Tape<E>, index: int) -> Seq<int> {
    tape.links_spec()[index].map_values(|id: ValueId| id.0 as int)
}

/// The operand positions `(index, k)`, among the first `count` of node
/// `index`, through which it reads node `j` as a differentiable
/// dependency, in order.
pub open spec fn taps<E>(tape: Tape<E>, index: int, j: int, count: nat) -> Seq<(int, int)>
    decreases count,
{
    if count == 0 {
        Seq::empty()
    } else {
        let rest = taps(tape, index, j, (count - 1) as nat);
        let k = count - 1;
        if tape.links_spec()[index][k].0 == j && !data_operand(tape.opcodes_spec()[index], k) {
            rest.push((index, k))
        } else {
            rest
        }
    }
}

/// The operand positions through which a reverse scan from `target` has
/// sent a contribution to node `j` once it has processed `done` nodes, in
/// the order it sent them: the reached computed nodes from the target
/// down, and each one's operands in order.
pub open spec fn inflow<E>(tape: Tape<E>, target: nat, j: int, done: nat) -> Seq<(int, int)>
    decreases done,
{
    if done == 0 {
        Seq::empty()
    } else {
        let before = inflow(tape, target, j, (done - 1) as nat);
        let index = target - (done - 1);
        if index < 0 || !reach_after(tape, target, (done - 1) as nat)[index] || is_source_spec(tape.opcodes_spec()[index]) {
            before
        } else {
            before + taps(tape, index, j, tape.links_spec()[index].len())
        }
    }
}

/// Whether node `g` of `tape` sums, onto a recorded zero of the shape
/// node `j` has on `start`, the cotangent each of `entries` sent to `j`,
/// in order: one addition per entry, reading the sum so far and the
/// cotangent the consumer's rule recorded from the consumer's gradient in
/// `grads`.
pub open spec fn accumulates<E>(
    tape: Tape<E>,
    start: Tape<E>,
    g: int,
    j: int,
    entries: Seq<(int, int)>,
    grads: Seq<Option<Value>>,
) -> bool
    decreases entries.len(),
{
    if entries.len() == 0 {
        literal_at(tape, g, 0, start.shapes_spec()[j])
    } else {
        let consumer = entries.last().0;
        let k = entries.last().1;
        let previous = link(tape, g, 0);
        let cotangent = link(tape, g, 1);
        &&& op_at(tape, g, Opcode::Add, seq![previous, cotangent])
        &&& accumulates(tape, start, previous, j, entries.drop_last(), grads)
        &&& 0 <= consumer < grads.len()
        &&& grads[consumer] matches Some(gradient) && rule_entry(
            tape,
            start.opcodes_spec()[consumer],
            link_positions(start, consumer),
            consumer,
            gradient.index_spec() as int,
            k,
            cotangent,
            link_extents(start, consumer),
        )
    }
}

/// Whether `grads` holds, for the nodes through `target`, the gradients a
/// reverse scan of `start` from `target`, seeded with the node at `seed`,
/// records on `tape`: the seed at the target, and below it, exactly at
/// each node the scan reaches, the sum of the cotangents its consumers'
/// rules recorded from their own gradients, in scan order.
pub open spec fn gradients<E>(tape: Tape<E>, start: Tape<E>, target: nat, seed: int, grads: Seq<Option<Value>>) -> bool {
    &&& grads.len() == target + 1
    &&& (grads[target as int] matches Some(planted) && planted.index_spec() == seed)
    &&& forall|j: int| 0 <= j <= target ==> ((#[trigger] grads[j]) is Some <==> reached(start, target, j))
    &&& forall|j: int|
        0 <= j < target ==> ((#[trigger] grads[j]) matches Some(g) ==> tape.holds(g) && accumulates(
            tape,
            start,
            g.index_spec() as int,
            j,
            inflow(start, target, j, target + 1),
            grads,
        ))
}

/// Every operand position in `taps` belongs to node `index`.
proof fn lemma_taps_belong<E>(tape: Tape<E>, index: int, j: int, count: nat)
    ensures
        forall|m: int| 0 <= m < taps(tape, index, j, count).len() ==> (#[trigger] taps(tape, index, j, count)[m]).0 == index,
    decreases count,
{
    if count > 0 {
        let rest = taps(tape, index, j, (count - 1) as nat);
        lemma_taps_belong(tape, index, j, (count - 1) as nat);
        assert forall|m: int| 0 <= m < taps(tape, index, j, count).len() implies (#[trigger] taps(tape, index, j, count)[
            m]).0 == index by {
            if m < rest.len() {
                assert(taps(tape, index, j, count)[m] == rest[m]);
            }
        }
    }
}

/// Every consumer that has sent node `j` a contribution by step `done`
/// lies in the processed range, above `target - done`.
proof fn lemma_inflow_above<E>(tape: Tape<E>, target: nat, j: int, done: nat)
    ensures
        forall|m: int| 0 <= m < inflow(tape, target, j, done).len() ==> (#[trigger] inflow(tape, target, j, done)[m]).0
            > target - done && inflow(tape, target, j, done)[m].0 <= target,
    decreases done,
{
    if done > 0 {
        lemma_inflow_above(tape, target, j, (done - 1) as nat);
        let index = target - (done - 1);
        let before = inflow(tape, target, j, (done - 1) as nat);
        if !(index < 0 || !reach_after(tape, target, (done - 1) as nat)[index] || is_source_spec(tape.opcodes_spec()[index])) {
            let more = taps(tape, index, j, tape.links_spec()[index].len());
            lemma_taps_belong(tape, index, j, tape.links_spec()[index].len());
            assert forall|m: int| 0 <= m < inflow(tape, target, j, done).len() implies (#[trigger] inflow(
                tape,
                target,
                j,
                done,
            )[m]).0 > target - done && inflow(tape, target, j, done)[m].0 <= target by {
                if m < before.len() {
                    assert(inflow(tape, target, j, done)[m] == before[m]);
                } else {
                    assert(inflow(tape, target, j, done)[m] == more[m - before.len()]);
                }
            }
        }
    }
}

/// Agreeing opcodes have the same rule entries.
proof fn lemma_agreeing_entries<E>(
    tape: Tape<E>,
    recorded: Opcode,
    opcode: Opcode,
    reads: Seq<int>,
    output: int,
    seed: int,
    k: int,
    c: int,
    shapes: Seq<Seq<usize>>,
)
    requires
        agrees(recorded, opcode),
    ensures
        rule_entry(tape, recorded, reads, output, seed, k, c, shapes) == rule_entry(tape, opcode, reads, output, seed, k, c, shapes),
{
}

/// A rule entry recorded on `earlier` holds on every extension of it.
proof fn lemma_entry_kept<E>(
    earlier: Tape<E>,
    later: Tape<E>,
    opcode: Opcode,
    reads: Seq<int>,
    output: int,
    seed: int,
    k: int,
    c: int,
    shapes: Seq<Seq<usize>>,
)
    requires
        earlier.well_formed(),
        extends(later, earlier),
        0 <= c < earlier.len_spec(),
        rule_entry(earlier, opcode, reads, output, seed, k, c, shapes),
    ensures
        rule_entry(later, opcode, reads, output, seed, k, c, shapes),
{
}

/// An accumulation recorded on `earlier` holds on every extension of it.
proof fn lemma_accumulates_kept<E>(
    earlier: Tape<E>,
    later: Tape<E>,
    start: Tape<E>,
    g: int,
    j: int,
    entries: Seq<(int, int)>,
    grads: Seq<Option<Value>>,
)
    requires
        earlier.well_formed(),
        extends(later, earlier),
        0 <= g < earlier.len_spec(),
        accumulates(earlier, start, g, j, entries, grads),
    ensures
        accumulates(later, start, g, j, entries, grads),
    decreases entries.len(),
{
    if entries.len() > 0 {
        let previous = link(earlier, g, 0);
        let cotangent = link(earlier, g, 1);
        assert(later.links_spec()[g] == earlier.links_spec()[g]);
        lemma_accumulates_kept(earlier, later, start, previous, j, entries.drop_last(), grads);
        let consumer = entries.last().0;
        if let Some(gradient) = grads[consumer] {
            lemma_entry_kept(
                earlier,
                later,
                start.opcodes_spec()[consumer],
                link_positions(start, consumer),
                consumer,
                gradient.index_spec() as int,
                entries.last().1,
                cotangent,
                link_extents(start, consumer),
            );
        }
    }
}

/// An accumulation reads only the gradients of its own consumers.
proof fn lemma_accumulates_reads<E>(
    tape: Tape<E>,
    start: Tape<E>,
    g: int,
    j: int,
    entries: Seq<(int, int)>,
    grads: Seq<Option<Value>>,
    other: Seq<Option<Value>>,
)
    requires
        accumulates(tape, start, g, j, entries, grads),
        other.len() == grads.len(),
        forall|m: int| 0 <= m < entries.len() ==> other[(#[trigger] entries[m]).0] == grads[entries[m].0],
    ensures
        accumulates(tape, start, g, j, entries, other),
    decreases entries.len(),
{
    if entries.len() > 0 {
        let rest = entries.drop_last();
        assert forall|m: int| 0 <= m < rest.len() implies other[(#[trigger] rest[m]).0] == grads[rest[m].0] by {
            assert(rest[m] == entries[m]);
        }
        lemma_accumulates_reads(tape, start, link(tape, g, 0), j, rest, grads, other);
        assert(other[entries[entries.len() - 1].0] == grads[entries[entries.len() - 1].0]);
    }
}

/// One accumulation step of the reverse scan: operand `k` of node `index`
/// reads node `slot`, and the sum so far, `seeded` (the slot's previous
/// gradient, or a fresh zero where it had none), plus the cotangent the
/// rule sent through that operand, is recorded as `accumulated` and
/// becomes the slot's gradient. Every slot's gradient then sums exactly
/// the contributions sent through the first `k + 1` operands.
proof fn lemma_accumulate_step<E>(
    previous: Tape<E>,
    after: Tape<E>,
    start: Tape<E>,
    target: nat,
    done: nat,
    index: int,
    k: int,
    gradient: Value,
    contribution: Value,
    seeded: Value,
    accumulated: Value,
    grads: Seq<Option<Value>>,
)
    requires
        previous.well_formed(),
        after.well_formed(),
        extends(after, previous),
        index == target - done,
        0 <= index <= target,
        0 <= k < start.links_spec()[index].len(),
        0 <= start.links_spec()[index][k].0 < index,
        !data_operand(start.opcodes_spec()[index], k),
        grads.len() == target + 1,
        grads[index] == Some(gradient),
        forall|j: int| 0 <= j <= target ==> ((#[trigger] grads[j]) matches Some(g) ==> previous.holds(g)),
        forall|j: int| 0 <= j < target ==> ((#[trigger] grads[j]) matches Some(g) ==> accumulates(previous, start,
            g.index_spec() as int, j, inflow(start, target, j, done) + taps(start, index, j, k as nat), grads)),
        forall|j: int| 0 <= j < target ==> ((#[trigger] grads[j]) is None ==> (inflow(start, target, j, done) + taps(start,
            index, j, k as nat)).len() == 0),
        previous.holds(contribution),
        rule_entry(previous, start.opcodes_spec()[index], link_positions(start, index), index, gradient.index_spec() as int, k,
            contribution.index_spec() as int, link_extents(start, index)),
        grads[start.links_spec()[index][k].0 as int] matches Some(existing) ==> seeded == existing,
        grads[start.links_spec()[index][k].0 as int] is None ==> literal_at(after, seeded.index_spec() as int, 0,
            start.shapes_spec()[start.links_spec()[index][k].0 as int]),
        op_at(after, accumulated.index_spec() as int, Opcode::Add, seq![seeded.index_spec() as int, contribution.index_spec() as int]),
    ensures
        ({
            let updated = grads.update(start.links_spec()[index][k].0 as int, Some(accumulated));
            &&& forall|j: int| 0 <= j < target ==> ((#[trigger] updated[j]) matches Some(g) ==> accumulates(after, start,
                g.index_spec() as int, j, inflow(start, target, j, done) + taps(start, index, j, (k + 1) as nat), updated))
            &&& forall|j: int| 0 <= j < target ==> ((#[trigger] updated[j]) is None ==> (inflow(start, target, j, done) + taps(
                start, index, j, (k + 1) as nat)).len() == 0)
        }),
{
    let slot = start.links_spec()[index][k].0 as int;
    let updated = grads.update(slot, Some(accumulated));
    assert forall|j: int| 0 <= j < target implies ((#[trigger] updated[j]) matches Some(g) ==> accumulates(after, start,
        g.index_spec() as int, j, inflow(start, target, j, done) + taps(start, index, j, (k + 1) as nat), updated)) by {
        let flow = inflow(start, target, j, done) + taps(start, index, j, k as nat);
        lemma_inflow_above(start, target, j, done);
        lemma_taps_belong(start, index, j, k as nat);
        assert forall|m: int| 0 <= m < flow.len() implies updated[(#[trigger] flow[m]).0] == grads[flow[m].0] by {
            let before = inflow(start, target, j, done);
            if m < before.len() {
                assert(flow[m] == before[m]);
            } else {
                assert(flow[m] == taps(start, index, j, k as nat)[m - before.len()]);
            }
        }
        if j != slot {
            assert(taps(start, index, j, (k + 1) as nat) == taps(start, index, j, k as nat));
            if let Some(g) = grads[j] {
                lemma_accumulates_kept(previous, after, start, g.index_spec() as int, j, flow, grads);
                lemma_accumulates_reads(after, start, g.index_spec() as int, j, flow, grads, updated);
            }
        } else {
            let next = inflow(start, target, j, done) + taps(start, index, j, (k + 1) as nat);
            assert(taps(start, index, j, (k + 1) as nat) == taps(start, index, j, k as nat).push((index, k)));
            assert(next =~= flow.push((index, k)));
            assert(next.drop_last() =~= flow);
            assert(link(after, accumulated.index_spec() as int, 0) == seeded.index_spec());
            assert(link(after, accumulated.index_spec() as int, 1) == contribution.index_spec());
            match grads[slot] {
                Some(existing) => {
                    lemma_accumulates_kept(previous, after, start, existing.index_spec() as int, j, flow, grads);
                    lemma_accumulates_reads(after, start, existing.index_spec() as int, j, flow, grads, updated);
                },
                None => {
                    assert(flow.len() == 0);
                    assert(accumulates(after, start, seeded.index_spec() as int, j, flow, updated));
                },
            }
            assert(accumulates(after, start, link(after, accumulated.index_spec() as int, 0), j, next.drop_last(), updated));
            lemma_entry_kept(previous, after, start.opcodes_spec()[index], link_positions(start, index), index,
                gradient.index_spec() as int, k, contribution.index_spec() as int, link_extents(start, index));
            assert(updated[index] == Some(gradient));
        }
    }
    assert forall|j: int| 0 <= j < target implies ((#[trigger] updated[j]) is None ==> (inflow(start, target, j, done) + taps(
        start, index, j, (k + 1) as nat)).len() == 0) by {
        if j != slot {
            assert(taps(start, index, j, (k + 1) as nat) == taps(start, index, j, k as nat));
        }
    }
}

/// A gradient record on `earlier` holds on every extension of it.
proof fn lemma_gradients_kept<E>(
    earlier: Tape<E>,
    later: Tape<E>,
    start: Tape<E>,
    target: nat,
    seed: int,
    grads: Seq<Option<Value>>,
)
    requires
        earlier.well_formed(),
        extends(later, earlier),
        gradients(earlier, start, target, seed, grads),
    ensures
        gradients(later, start, target, seed, grads),
{
    assert forall|j: int| 0 <= j < target implies ((#[trigger] grads[j]) matches Some(g) ==> later.holds(g) && accumulates(
        later,
        start,
        g.index_spec() as int,
        j,
        inflow(start, target, j, target + 1),
        grads,
    )) by {
        if let Some(g) = grads[j] {
            lemma_accumulates_kept(earlier, later, start, g.index_spec() as int, j, inflow(start, target, j, target + 1), grads);
        }
    }
}

/// The operand positions reading a node are read off the node's own
/// record, which an extension keeps.
proof fn lemma_taps_prefix<E>(earlier: Tape<E>, later: Tape<E>, index: int, j: int, count: nat)
    requires
        extends(later, earlier),
        0 <= index < earlier.len_spec(),
    ensures
        taps(earlier, index, j, count) == taps(later, index, j, count),
    decreases count,
{
    assert(later.links_spec()[index] == earlier.links_spec()[index]);
    if count > 0 {
        lemma_taps_prefix(earlier, later, index, j, (count - 1) as nat);
    }
}

/// A reverse scan from `target` reads only the nodes through `target`:
/// an extension reaches the same nodes and sends the same contributions.
proof fn lemma_scan_prefix<E>(earlier: Tape<E>, later: Tape<E>, target: nat, done: nat)
    requires
        extends(later, earlier),
        target < earlier.len_spec(),
    ensures
        reach_after(earlier, target, done) == reach_after(later, target, done),
        forall|j: int| #[trigger] inflow(earlier, target, j, done) == inflow(later, target, j, done),
    decreases done,
{
    if done > 0 {
        lemma_scan_prefix(earlier, later, target, (done - 1) as nat);
        let index = target - (done - 1);
        if index >= 0 {
            assert(later.links_spec()[index] == earlier.links_spec()[index]);
            assert(later.opcodes_spec()[index] == earlier.opcodes_spec()[index]);
            assert forall|j: int| #[trigger] inflow(earlier, target, j, done) == inflow(later, target, j, done) by {
                assert(inflow(earlier, target, j, (done - 1) as nat) == inflow(later, target, j, (done - 1) as nat));
                lemma_taps_prefix(earlier, later, index, j, earlier.links_spec()[index].len());
            }
            assert forall|j: int| 0 <= j < target + 1 implies #[trigger] feeds(earlier, index, j, earlier.links_spec()[index].len() as int)
                == feeds(later, index, j, later.links_spec()[index].len() as int) by {
                if feeds(earlier, index, j, earlier.links_spec()[index].len() as int) {
                    let k = choose|k: int| 0 <= k < earlier.links_spec()[index].len() && #[trigger] earlier.links_spec()[index][k].0 == j
                        && !data_operand(earlier.opcodes_spec()[index], k);
                    assert(later.links_spec()[index][k].0 == j);
                }
                if feeds(later, index, j, later.links_spec()[index].len() as int) {
                    let k = choose|k: int| 0 <= k < later.links_spec()[index].len() && #[trigger] later.links_spec()[index][k].0 == j
                        && !data_operand(later.opcodes_spec()[index], k);
                    assert(earlier.links_spec()[index][k].0 == j);
                }
            }
            assert(reach_after(earlier, target, done) =~= reach_after(later, target, done));
        } else {
            assert forall|j: int| #[trigger] inflow(earlier, target, j, done) == inflow(later, target, j, done) by {
                assert(inflow(earlier, target, j, (done - 1) as nat) == inflow(later, target, j, (done - 1) as nat));
            }
        }
    }
}

/// An accumulation whose consumers and node lie in `earlier` reads the
/// same on every extension of it.
proof fn lemma_accumulates_prefix<E>(
    tape: Tape<E>,
    earlier: Tape<E>,
    later: Tape<E>,
    g: int,
    j: int,
    entries: Seq<(int, int)>,
    grads: Seq<Option<Value>>,
)
    requires
        earlier.well_formed(),
        extends(later, earlier),
        0 <= j < earlier.len_spec(),
        forall|m: int| 0 <= m < entries.len() ==> 0 <= (#[trigger] entries[m]).0 < earlier.len_spec(),
        accumulates(tape, later, g, j, entries, grads),
    ensures
        accumulates(tape, earlier, g, j, entries, grads),
    decreases entries.len(),
{
    assert(later.shapes_spec()[j] == earlier.shapes_spec()[j]);
    if entries.len() > 0 {
        let rest = entries.drop_last();
        assert forall|m: int| 0 <= m < rest.len() implies 0 <= (#[trigger] rest[m]).0 < earlier.len_spec() by {
            assert(rest[m] == entries[m]);
        }
        lemma_accumulates_prefix(tape, earlier, later, link(tape, g, 0), j, rest, grads);
        let consumer = entries[entries.len() - 1].0;
        assert(later.links_spec()[consumer] == earlier.links_spec()[consumer]);
        assert(later.opcodes_spec()[consumer] == earlier.opcodes_spec()[consumer]);
        assert(link_positions(later, consumer) =~= link_positions(earlier, consumer));
        assert forall|m: int| 0 <= m < link_extents(earlier, consumer).len() implies #[trigger] link_extents(later, consumer)[m]
            == link_extents(earlier, consumer)[m] by {
            assert(earlier.links_spec()[consumer][m].0 < consumer);
            assert(later.shapes_spec()[earlier.links_spec()[consumer][m].0 as int] == earlier.shapes_spec()[
                earlier.links_spec()[consumer][m].0 as int]);
        }
        assert(link_extents(later, consumer) =~= link_extents(earlier, consumer));
    }
}

/// A gradient record read off an extension of `earlier` through a target
/// of `earlier` reads the same off `earlier`.
proof fn lemma_gradients_prefix<E>(
    tape: Tape<E>,
    earlier: Tape<E>,
    later: Tape<E>,
    target: nat,
    seed: int,
    grads: Seq<Option<Value>>,
)
    requires
        earlier.well_formed(),
        extends(later, earlier),
        target < earlier.len_spec(),
        gradients(tape, later, target, seed, grads),
    ensures
        gradients(tape, earlier, target, seed, grads),
        forall|j: int| #[trigger] reached(earlier, target, j) == reached(later, target, j),
{
    lemma_scan_prefix(earlier, later, target, target + 1);
    assert forall|j: int| 0 <= j < target implies ((#[trigger] grads[j]) matches Some(g) ==> tape.holds(g) && accumulates(
        tape,
        earlier,
        g.index_spec() as int,
        j,
        inflow(earlier, target, j, target + 1),
        grads,
    )) by {
        if let Some(g) = grads[j] {
            lemma_inflow_above(earlier, target, j, target + 1);
            lemma_accumulates_prefix(tape, earlier, later, g.index_spec() as int, j, inflow(earlier, target, j, target + 1), grads);
        }
    }
}

/// A recorded vector-Jacobian product: the target, and each `wrt` entry
/// paired, in order, with its recorded gradient.
#[derive(Debug, Clone, PartialEq, Eq)]
pub struct Adjoints {
    /// The value the product was taken of.
    pub target: Symbol,
    /// Each `wrt` entry with its gradient.
    pub pairs: Vec<(Symbol, Symbol)>,
}

/// Whether `cotangents` hold, for the nodes through `target`, a recorded
/// value of the node's own shape exactly where `reach` marks the node: the
/// seed at the target, and below it an accumulated sum.
pub open spec fn scan_state<E>(
    tape: Tape<E>,
    start: Tape<E>,
    target: nat,
    seed: Value,
    reach: Seq<bool>,
    cotangents: Seq<Option<Value>>,
) -> bool {
    &&& cotangents.len() == target + 1
    &&& reach.len() == target + 1
    &&& cotangents[target as int] == Some(seed)
    &&& forall|j: int|
        0 <= j <= target ==> ((#[trigger] cotangents[j]) is Some <==> reach[j])
    &&& forall|j: int|
        0 <= j <= target ==> ((#[trigger] cotangents[j]) matches Some(value) ==> tape.holds(value)
            && tape.extents(value) == start.shapes_spec()[j])
    &&& forall|j: int|
        0 <= j < target ==> ((#[trigger] cotangents[j]) matches Some(value) ==> tape.opcodes_spec()[
            value.index_spec() as int] is Add && value.index_spec() >= start.len_spec())
}

/// A scan state survives appending.
proof fn lemma_scan_kept<E>(
    earlier: Tape<E>,
    later: Tape<E>,
    start: Tape<E>,
    target: nat,
    seed: Value,
    reach: Seq<bool>,
    cotangents: Seq<Option<Value>>,
)
    requires
        extends(later, earlier),
        scan_state(earlier, start, target, seed, reach, cotangents),
    ensures
        scan_state(later, start, target, seed, reach, cotangents),
{
    lemma_extends_keeps(earlier, later);
    assert forall|j: int| 0 <= j <= target implies ((#[trigger] cotangents[j]) matches Some(value) ==> later.holds(value)
        && later.extents(value) == start.shapes_spec()[j]) by {
        if let Some(value) = cotangents[j] {
            assert(earlier.holds(value));
        }
    }
    assert forall|j: int| 0 <= j < target implies ((#[trigger] cotangents[j]) matches Some(value)
        ==> later.opcodes_spec()[value.index_spec() as int] is Add && value.index_spec() >= start.len_spec()) by {
        if let Some(value) = cotangents[j] {
            assert(earlier.holds(value));
            assert(later.opcodes_spec()[value.index_spec() as int] == earlier.opcodes_spec()[value.index_spec() as int]);
        }
    }
}

impl<E: Copy> Tape<E> {
    /// Records the vector-Jacobian product of `target` with respect to
    /// each `wrt` entry, with `seed` planted at the target, and returns
    /// the adjoints pairing each entry with its gradient.
    ///
    /// The reverse scan visits the nodes from the target down, applies
    /// each reached computed node's rule ([`Opcode::vjp`]) to its
    /// cotangent, and accumulates every contribution onto a recorded zero
    /// of the operand's shape, `existing + contribution`, in scan order. A
    /// `wrt` entry the scan never reaches answers a fresh recorded zero of
    /// its own shape. Recording only appends.
    ///
    /// The tape must obey its rules (`rules_hold`), which every recorder
    /// keeps, this scan included, so gradients can be differentiated in
    /// turn; the one limit is a reduction, log-softmax, log-sum-exp or pad
    /// over an empty axis, whose adjoint would spread or narrow back to a
    /// zero extent.
    #[verifier::rlimit(100)]
    pub fn vjp(&mut self, target: Symbol, seed: Symbol, wrt: Vec<Symbol>) -> (adjoints: Adjoints)
        requires
            old(self).well_formed(),
            rules_hold(*old(self)),
            target.origin == old(self).origin_spec(),
            target.id.0 < old(self).len_spec(),
            seed.origin == old(self).origin_spec(),
            seed.id.0 < old(self).len_spec(),
            old(self).shapes_spec()[seed.id.0 as int] == old(self).shapes_spec()[target.id.0 as int],
            forall|k: int| 0 <= k < wrt@.len() ==> (#[trigger] wrt@[k]).origin == old(self).origin_spec()
                && wrt@[k].id.0 < old(self).len_spec(),
        ensures
            final(self).well_formed(),
            final(self).len_spec() >= old(self).len_spec(),
            final(self).appends(old(self), (final(self).len_spec() - old(self).len_spec()) as nat),
            rules_hold(*final(self)),
            adjoints.target == target,
            adjoints.pairs@.len() == wrt@.len(),
            forall|k: int| 0 <= k < wrt@.len() ==> {
                &&& (#[trigger] adjoints.pairs@[k]).0 == wrt@[k]
                &&& adjoints.pairs@[k].1.origin == old(self).origin_spec()
                &&& adjoints.pairs@[k].1.id.0 < final(self).len_spec()
                &&& final(self).shapes_spec()[adjoints.pairs@[k].1.id.0 as int] == old(self).shapes_spec()[wrt@[k].id.0 as int]
                &&& !reached(*old(self), target.id.0 as nat, wrt@[k].id.0 as int) ==> {
                    &&& adjoints.pairs@[k].1.id.0 >= old(self).len_spec()
                    &&& final(self).opcodes_spec()[adjoints.pairs@[k].1.id.0 as int] is Leaf
                    &&& final(self).counts_spec()[adjoints.pairs@[k].1.id.0 as int] == Some(0usize)
                }
                &&& wrt@[k].id == target.id ==> adjoints.pairs@[k].1 == seed
                &&& reached(*old(self), target.id.0 as nat, wrt@[k].id.0 as int) && wrt@[k].id.0 < target.id.0 ==> {
                    &&& adjoints.pairs@[k].1.id.0 >= old(self).len_spec()
                    &&& final(self).opcodes_spec()[adjoints.pairs@[k].1.id.0 as int] is Add
                }
            },
            exists|grads: Seq<Option<Value>>|
                #[trigger] gradients(*final(self), *old(self), target.id.0 as nat, seed.id.0 as int, grads) && forall|k: int|
                    0 <= k < wrt@.len() && reached(*old(self), target.id.0 as nat, (#[trigger] wrt@[k]).id.0 as int) ==> (
                    grads[wrt@[k].id.0 as int] matches Some(gradient) && adjoints.pairs@[k].1.id.0 == gradient.index_spec()),
    {
        let ghost start = *self;
        let origin = self.origin();
        let output_index = target.id.0;
        let count = self.len();
        let seed_value = self.resolve(seed);
        let mut cotangents: Vec<Option<Value>> = Vec::new();
        let mut position: usize = 0;
        while position <= output_index
            invariant
                output_index < start.len_spec(),
                start.len_spec() == count,
                position <= output_index + 1,
                cotangents@.len() == position,
                forall|j: int| 0 <= j < position ==> #[trigger] cotangents@[j] == if j == output_index {
                    Some(seed_value)
                } else {
                    None::<Value>
                },
            decreases output_index + 1 - position,
        {
            if position == output_index {
                cotangents.push(Some(seed_value));
            } else {
                cotangents.push(None);
            }
            position = position + 1;
        }
        proof {
            lemma_extends_reflexive(start);
            assert(reach_after(start, output_index as nat, 0) =~= Seq::new((output_index + 1) as nat, |j: int| j == output_index));
        }
        let mut remaining: usize = output_index + 1;
        while remaining > 0
            invariant
                start.well_formed(),
                rules_hold(start),
                self.well_formed(),
                extends(*self, start),
                rules_hold(*self),
                origin == start.origin_spec(),
                output_index < start.len_spec(),
                remaining <= output_index + 1,
                scan_state(*self, start, output_index as nat, seed_value, reach_after(start, output_index as nat, (output_index + 1
                    - remaining) as nat), cotangents@),
                forall|j: int| 0 <= j < output_index ==> ((#[trigger] cotangents@[j]) matches Some(g) ==> accumulates(
                    *self, start, g.index_spec() as int, j, inflow(start, output_index as nat, j, (output_index + 1 - remaining) as nat),
                    cotangents@)),
                forall|j: int| 0 <= j < output_index ==> ((#[trigger] cotangents@[j]) is None ==> inflow(start, output_index as nat,
                    j, (output_index + 1 - remaining) as nat).len() == 0),
            decreases remaining,
        {
            remaining = remaining - 1;
            let index = remaining;
            let ghost done = (output_index - index) as nat;
            let ghost before = reach_after(start, output_index as nat, done);
            proof {
                assert(index == output_index - done);
            }
            let gradient = match cotangents[index] {
                Some(gradient) => gradient,
                None => {
                    proof {
                        assert(reach_after(start, output_index as nat, done + 1) == before);
                        assert forall|j: int| #![trigger inflow(start, output_index as nat, j, done + 1)]
                            inflow(start, output_index as nat, j, done + 1) == inflow(start, output_index as nat, j, done) by {}
                    }
                    continue;
                },
            };
            let node = self.resolve(Symbol::new(origin, ValueId(index)));
            let opcode = self.opcode(node).duplicate();
            if opcode.is_source() {
                proof {
                    assert(reach_after(start, output_index as nat, done + 1) == before);
                    assert forall|j: int| #![trigger inflow(start, output_index as nat, j, done + 1)]
                        inflow(start, output_index as nat, j, done + 1) == inflow(start, output_index as nat, j, done) by {}
                }
                continue;
            }
            proof {
                assert(self.opcodes_spec()[index as int] == start.opcodes_spec()[index as int]);
                lemma_agreeing_rules(opcode, start.opcodes_spec()[index as int], link_extents(start, index as int));
            }
            let links = vstd::slice::slice_to_vec(self.operands(node));
            let mut operands: Vec<Value> = Vec::new();
            let mut k: usize = 0;
            while k < links.len()
                invariant
                    start.well_formed(),
                    self.well_formed(),
                    extends(*self, start),
                    rules_hold(*self),
                rules_hold(*self),
                    origin == start.origin_spec(),
                    index < start.len_spec(),
                    links@ == start.links_spec()[index as int],
                    k <= links@.len(),
                    operands@.len() == k,
                    forall|m: int| 0 <= m < k ==> self.holds(#[trigger] operands@[m]) && operands@[m].index_spec()
                        == links@[m].0,
                decreases links@.len() - k,
            {
                proof {
                    assert(links@[k as int].0 < index);
                }
                operands.push(self.resolve(Symbol::new(origin, links[k])));
                k = k + 1;
            }
            let ghost prior = *self;
            proof {
                assert(self.links_spec()[index as int] == start.links_spec()[index as int]);
                assert(operand_extents(prior, operands@) =~= link_extents(start, index as int)) by {
                    assert forall|m: int| 0 <= m < operands@.len() implies #[trigger] operand_extents(prior, operands@)[m]
                        == link_extents(start, index as int)[m] by {
                        assert(links@[m].0 < index);
                        assert(prior.shapes_spec()[links@[m].0 as int] == start.shapes_spec()[links@[m].0 as int]);
                    }
                }
                assert(prior.shapes_spec()[index as int] == start.shapes_spec()[index as int]);
            }
            proof {
                assert(reversible(opcode, operand_extents(prior, operands@)));
            }
            let contributions = opcode.vjp(self, operands.as_slice(), node, gradient);
            proof {
                lemma_appends_extends(prior, *self, (self.len_spec() - prior.len_spec()) as nat);
                lemma_extends_chain(start, prior, *self);
                lemma_scan_kept(prior, *self, start, output_index as nat, seed_value, before, cotangents@);
                assert forall|j: int| 0 <= j < output_index implies ((#[trigger] cotangents@[j]) matches Some(g) ==> accumulates(
                    *self, start, g.index_spec() as int, j, inflow(start, output_index as nat, j, done) + taps(start, index as int, j,
                    0), cotangents@)) by {
                    assert(inflow(start, output_index as nat, j, done) + taps(start, index as int, j, 0) =~= inflow(start,
                        output_index as nat, j, done));
                    if let Some(g) = cotangents@[j] {
                        lemma_accumulates_kept(prior, *self, start, g.index_spec() as int, j, inflow(start, output_index as nat, j,
                            done), cotangents@);
                    }
                }
                assert forall|j: int| 0 <= j < output_index implies ((#[trigger] cotangents@[j]) is None ==> (inflow(start,
                    output_index as nat, j, done) + taps(start, index as int, j, 0)).len() == 0) by {}
                assert(positions(operands@) =~= link_positions(start, index as int));
                assert forall|m: int| 0 <= m < contributions@.len() implies ((#[trigger] contributions@[m]) matches Some(c)
                    ==> rule_entry(*self, start.opcodes_spec()[index as int], link_positions(start, index as int), index as int,
                    gradient.index_spec() as int, m, c.index_spec() as int, link_extents(start, index as int))) by {
                    if let Some(c) = contributions@[m] {
                        lemma_agreeing_entries(*self, start.opcodes_spec()[index as int], opcode, link_positions(start, index as int),
                            index as int, gradient.index_spec() as int, m, c.index_spec() as int, link_extents(start, index as int));
                    }
                }
            }
            let mut k: usize = 0;
            while k < contributions.len()
                invariant
                    start.well_formed(),
                    self.well_formed(),
                    extends(*self, start),
                    rules_hold(*self),
                rules_hold(*self),
                    origin == start.origin_spec(),
                    index <= output_index,
                    output_index < start.len_spec(),
                    links@ == start.links_spec()[index as int],
                    contributions@.len() == links@.len(),
                    forall|m: int| 0 <= m < contributions@.len() ==> ((#[trigger] contributions@[m]) is None
                        <==> data_operand(start.opcodes_spec()[index as int], m)),
                    forall|m: int| 0 <= m < contributions@.len() ==> ((#[trigger] contributions@[m]) matches Some(c)
                        ==> self.holds(c) && self.extents(c) == start.shapes_spec()[links@[m].0 as int]),
                    k <= contributions@.len(),
                    scan_state(*self, start, output_index as nat, seed_value, Seq::new((output_index + 1) as nat, |j: int| before[j]
                        || feeds(start, index as int, j, k as int)), cotangents@),
                    done == output_index - index,
                    cotangents@[index as int] == Some(gradient),
                    forall|j: int| 0 <= j < output_index ==> ((#[trigger] cotangents@[j]) matches Some(g) ==> accumulates(
                        *self, start, g.index_spec() as int, j, inflow(start, output_index as nat, j, done) + taps(start, index as int, j,
                        k as nat), cotangents@)),
                    forall|j: int| 0 <= j < output_index ==> ((#[trigger] cotangents@[j]) is None ==> (inflow(start,
                        output_index as nat, j, done) + taps(start, index as int, j, k as nat)).len() == 0),
                    forall|m: int| 0 <= m < contributions@.len() ==> ((#[trigger] contributions@[m]) matches Some(c)
                        ==> rule_entry(*self, start.opcodes_spec()[index as int], link_positions(start, index as int), index as int,
                        gradient.index_spec() as int, m, c.index_spec() as int, link_extents(start, index as int))),
                decreases contributions@.len() - k,
            {
                let ghost partial = Seq::new((output_index + 1) as nat, |j: int| before[j] || feeds(start, index as int, j, k as int));
                let ghost next = Seq::new((output_index + 1) as nat, |j: int| before[j] || feeds(start, index as int, j, k + 1));
                match contributions[k] {
                    Some(contribution) => {
                        let slot = links[k].0;
                        proof {
                            assert(slot < index);
                        }
                        let ghost previous = *self;
                        let seeded = match cotangents[slot] {
                            Some(existing) => existing,
                            None => {
                                let shape = self.shape_at(slot).clone();
                                let zero = self.counted(shape, 0);
                                proof {
                                    lemma_appends_extends(previous, *self, 1);
                                    lemma_extends_chain(start, previous, *self);
                                    assert(literal_at(*self, zero.index_spec() as int, 0, start.shapes_spec()[slot as int]));
                                }
                                zero
                            },
                        };
                        let ghost middle = *self;
                        proof {
                            lemma_extends_keeps(previous, middle);
                        }
                        let accumulated = seeded.add(self, contribution);
                        proof {
                            lemma_appends_extends(middle, *self, 1);
                            lemma_extends_chain(start, middle, *self);
                            lemma_extends_chain(previous, middle, *self);
                            lemma_extends_keeps(previous, *self);
                            lemma_scan_kept(previous, *self, start, output_index as nat, seed_value, partial, cotangents@);
                            assert forall|m: int| 0 <= m < 2 implies #[trigger] self.links_spec()[accumulated.index_spec() as int][m].0
                                == seq![seeded.index_spec() as int, contribution.index_spec() as int][m] by {}
                            if cotangents@[slot as int] is None {
                                assert(literal_at(*self, seeded.index_spec() as int, 0, start.shapes_spec()[slot as int]));
                            }
                            lemma_accumulate_step(previous, *self, start, output_index as nat, done, index as int, k as int,
                                gradient, contribution, seeded, accumulated, cotangents@);
                            assert forall|m: int| 0 <= m < contributions@.len() implies ((#[trigger] contributions@[m]) matches Some(c)
                                ==> rule_entry(*self, start.opcodes_spec()[index as int], link_positions(start, index as int),
                                index as int, gradient.index_spec() as int, m, c.index_spec() as int, link_extents(start, index as int))) by {
                                if let Some(c) = contributions@[m] {
                                    lemma_entry_kept(previous, *self, start.opcodes_spec()[index as int], link_positions(start,
                                        index as int), index as int, gradient.index_spec() as int, m, c.index_spec() as int, link_extents(start, index as int));
                                }
                            }
                        }
                        cotangents.set(slot, Some(accumulated));
                        proof {
                            assert forall|j: int| 0 <= j <= output_index implies (#[trigger] cotangents@[j] is Some
                                <==> next[j]) by {
                                if feeds(start, index as int, j, k + 1) && !feeds(start, index as int, j, k as int) {
                                    assert(j == slot);
                                }
                                if j == slot {
                                    assert(start.links_spec()[index as int][k as int].0 == j);
                                }
                            }
                        }
                    },
                    None => {
                        proof {
                            assert forall|j: int| 0 <= j < output_index implies ((#[trigger] cotangents@[j]) matches Some(g)
                                ==> accumulates(*self, start, g.index_spec() as int, j, inflow(start, output_index as nat, j, done) + taps(start,
                                index as int, j, (k + 1) as nat), cotangents@)) by {
                                assert(taps(start, index as int, j, (k + 1) as nat) == taps(start, index as int, j, k as nat));
                            }
                            assert forall|j: int| 0 <= j < output_index implies ((#[trigger] cotangents@[j]) is None ==> (inflow(
                                start, output_index as nat, j, done) + taps(start, index as int, j, (k + 1) as nat)).len() == 0) by {
                                assert(taps(start, index as int, j, (k + 1) as nat) == taps(start, index as int, j, k as nat));
                            }
                            assert forall|j: int| 0 <= j <= output_index implies (#[trigger] cotangents@[j] is Some
                                <==> next[j]) by {
                                if feeds(start, index as int, j, k + 1) {
                                    let m = choose|m: int| 0 <= m < k + 1 && #[trigger] start.links_spec()[index as int][m].0
                                        == j && !data_operand(start.opcodes_spec()[index as int], m);
                                    if m == k {
                                        assert(data_operand(start.opcodes_spec()[index as int], k as int));
                                    }
                                }
                            }
                        }
                    },
                }
                k = k + 1;
            }
            proof {
                assert(reach_after(start, output_index as nat, done + 1) =~= Seq::new((output_index + 1) as nat, |j: int|
                    before[j] || feeds(start, index as int, j, links@.len() as int)));
                assert forall|j: int| 0 <= j < output_index implies ((#[trigger] cotangents@[j]) matches Some(g) ==> accumulates(
                    *self, start, g.index_spec() as int, j, inflow(start, output_index as nat, j, done + 1), cotangents@)) by {
                    assert(inflow(start, output_index as nat, j, done + 1) == inflow(start, output_index as nat, j, done) + taps(
                        start, index as int, j, k as nat));
                }
                assert forall|j: int| 0 <= j < output_index implies ((#[trigger] cotangents@[j]) is None ==> inflow(start,
                    output_index as nat, j, done + 1).len() == 0) by {
                    assert(inflow(start, output_index as nat, j, done + 1) == inflow(start, output_index as nat, j, done) + taps(
                        start, index as int, j, k as nat));
                }
            }
        }
        proof {
            assert(gradients(*self, start, output_index as nat, seed.id.0 as int, cotangents@));
        }
        let mut pairs: Vec<(Symbol, Symbol)> = Vec::new();
        let mut k: usize = 0;
        while k < wrt.len()
            invariant
                gradients(*self, start, output_index as nat, seed.id.0 as int, cotangents@),
                forall|m: int| 0 <= m < k && reached(start, output_index as nat, (#[trigger] wrt@[m]).id.0 as int) ==> (
                    cotangents@[wrt@[m].id.0 as int] matches Some(gradient) && pairs@[m].1.id.0 == gradient.index_spec()),
                start.well_formed(),
                self.well_formed(),
                extends(*self, start),
                rules_hold(*self),
                origin == start.origin_spec(),
                output_index < start.len_spec(),
                scan_state(*self, start, output_index as nat, seed_value, reach_after(start, output_index as nat, (output_index + 1)
                    as nat), cotangents@),
                forall|m: int| 0 <= m < wrt@.len() ==> (#[trigger] wrt@[m]).origin == start.origin_spec()
                    && wrt@[m].id.0 < start.len_spec(),
                k <= wrt@.len(),
                pairs@.len() == k,
                forall|m: int| 0 <= m < k ==> {
                    &&& (#[trigger] pairs@[m]).0 == wrt@[m]
                    &&& pairs@[m].1.origin == start.origin_spec()
                    &&& pairs@[m].1.id.0 < self.len_spec()
                    &&& self.shapes_spec()[pairs@[m].1.id.0 as int] == start.shapes_spec()[wrt@[m].id.0 as int]
                    &&& !reached(start, output_index as nat, wrt@[m].id.0 as int) ==> {
                        &&& pairs@[m].1.id.0 >= start.len_spec()
                        &&& self.opcodes_spec()[pairs@[m].1.id.0 as int] is Leaf
                        &&& self.counts_spec()[pairs@[m].1.id.0 as int] == Some(0usize)
                    }
                    &&& wrt@[m].id == target.id ==> pairs@[m].1 == seed
                    &&& reached(start, output_index as nat, wrt@[m].id.0 as int) && wrt@[m].id.0 < target.id.0 ==> {
                        &&& pairs@[m].1.id.0 >= start.len_spec()
                        &&& self.opcodes_spec()[pairs@[m].1.id.0 as int] is Add
                    }
                },
                output_index == target.id.0,
                seed_value.origin_spec() == seed.origin,
                seed_value.index_spec() == seed.id.0,
            decreases wrt@.len() - k,
        {
            let entry = wrt[k];
            let slot = entry.id.0;
            let found = if slot <= output_index {
                cotangents[slot]
            } else {
                None
            };
            let ghost previous = *self;
            let gradient = match found {
                Some(gradient) => gradient.symbol(),
                None => {
                    let shape = self.shape_at(slot).clone();
                    let zero = self.counted(shape, 0);
                    proof {
                        lemma_appends_extends(previous, *self, 1);
                        lemma_extends_chain(start, previous, *self);
                        lemma_scan_kept(previous, *self, start, output_index as nat, seed_value, reach_after(start,
                            output_index as nat, (output_index + 1) as nat), cotangents@);
                        lemma_gradients_kept(previous, *self, start, output_index as nat, seed.id.0 as int, cotangents@);
                    }
                    zero.symbol()
                },
            };
            proof {
                assert forall|m: int| 0 <= m < k implies {
                    &&& #[trigger] self.shapes_spec()[pairs@[m].1.id.0 as int] == start.shapes_spec()[wrt@[m].id.0 as int]
                    &&& self.opcodes_spec()[pairs@[m].1.id.0 as int] == previous.opcodes_spec()[pairs@[m].1.id.0 as int]
                    &&& self.counts_spec()[pairs@[m].1.id.0 as int] == previous.counts_spec()[pairs@[m].1.id.0 as int]
                } by {
                    assert(previous.shapes_spec()[pairs@[m].1.id.0 as int] == start.shapes_spec()[wrt@[m].id.0 as int]);
                }
                if let Some(value) = found {
                    assert(self.holds(value));
                }
            }
            pairs.push((entry, gradient));
            k = k + 1;
        }
        proof {
            lemma_extends_appends(start, *self);
        }
        Adjoints { target, pairs }
    }

    /// Records the gradient of the single-value `loss` with respect to
    /// each `wrt` entry: the vector-Jacobian product with a recorded
    /// counted one as its seed.
    pub fn differentiate(&mut self, loss: Symbol, wrt: Vec<Symbol>) -> (adjoints: Adjoints)
        requires
            old(self).well_formed(),
            rules_hold(*old(self)),
            loss.origin == old(self).origin_spec(),
            loss.id.0 < old(self).len_spec(),
            old(self).shapes_spec()[loss.id.0 as int].len() == 0,
            forall|k: int| 0 <= k < wrt@.len() ==> (#[trigger] wrt@[k]).origin == old(self).origin_spec()
                && wrt@[k].id.0 < old(self).len_spec(),
        ensures
            final(self).well_formed(),
            final(self).len_spec() >= old(self).len_spec(),
            final(self).appends(old(self), (final(self).len_spec() - old(self).len_spec()) as nat),
            rules_hold(*final(self)),
            adjoints.target == loss,
            literal_at(*final(self), old(self).len_spec() as int, 1, old(self).shapes_spec()[loss.id.0 as int]),
            adjoints.pairs@.len() == wrt@.len(),
            forall|k: int| 0 <= k < wrt@.len() ==> {
                &&& (#[trigger] adjoints.pairs@[k]).0 == wrt@[k]
                &&& adjoints.pairs@[k].1.origin == old(self).origin_spec()
                &&& adjoints.pairs@[k].1.id.0 < final(self).len_spec()
                &&& final(self).shapes_spec()[adjoints.pairs@[k].1.id.0 as int] == old(self).shapes_spec()[wrt@[k].id.0 as int]
                &&& !reached(*old(self), loss.id.0 as nat, wrt@[k].id.0 as int) ==> {
                    &&& adjoints.pairs@[k].1.id.0 > old(self).len_spec()
                    &&& final(self).opcodes_spec()[adjoints.pairs@[k].1.id.0 as int] is Leaf
                    &&& final(self).counts_spec()[adjoints.pairs@[k].1.id.0 as int] == Some(0usize)
                }
                &&& wrt@[k].id == loss.id ==> adjoints.pairs@[k].1.id.0 == old(self).len_spec()
                &&& reached(*old(self), loss.id.0 as nat, wrt@[k].id.0 as int) && wrt@[k].id.0 < loss.id.0 ==> {
                    &&& adjoints.pairs@[k].1.id.0 > old(self).len_spec()
                    &&& final(self).opcodes_spec()[adjoints.pairs@[k].1.id.0 as int] is Add
                }
            },
            exists|grads: Seq<Option<Value>>|
                #[trigger] gradients(*final(self), *old(self), loss.id.0 as nat, old(self).len_spec() as int, grads) && forall|
                    k: int,
                |
                    0 <= k < wrt@.len() && reached(*old(self), loss.id.0 as nat, (#[trigger] wrt@[k]).id.0 as int) ==> (
                    grads[wrt@[k].id.0 as int] matches Some(gradient) && adjoints.pairs@[k].1.id.0 == gradient.index_spec()),
    {
        let ghost start = *self;
        let shape = self.shape_at(loss.id.0).clone();
        let one = self.counted(shape, 1);
        let ghost seeded = *self;
        proof {
            lemma_appends_extends(start, seeded, 1);
            assert(rules_hold(seeded)) by {
                assert forall|index: int| 0 <= index < seeded.len_spec() && !is_source_spec(
                    #[trigger] seeded.opcodes_spec()[index]) implies {
                    &&& expressible(seeded.opcodes_spec()[index], link_extents(seeded, index))
                    &&& seeded.shapes_spec()[index] == expressed_shape(seeded.opcodes_spec()[index], link_extents(
                        seeded, index))
                    &&& reversible(seeded.opcodes_spec()[index], link_extents(seeded, index))
                } by {
                    assert(seeded.opcodes_spec()[index] == start.opcodes_spec()[index]);
                    assert(link_extents(seeded, index) =~= link_extents(start, index)) by {
                        assert forall|m: int| 0 <= m < link_extents(start, index).len() implies
                            #[trigger] link_extents(seeded, index)[m] == link_extents(start, index)[m] by {
                            assert(start.links_spec()[index][m].0 < index);
                            assert(seeded.shapes_spec()[start.links_spec()[index][m].0 as int]
                                == start.shapes_spec()[start.links_spec()[index][m].0 as int]);
                        }
                    }
                }
            }
        }
        let adjoints = self.vjp(loss, one.symbol(), wrt);
        proof {
            lemma_appends_extends(seeded, *self, (self.len_spec() - seeded.len_spec()) as nat);
            lemma_extends_chain(start, seeded, *self);
            lemma_extends_appends(start, *self);
            assert forall|k: int| 0 <= k < wrt@.len() implies
                #[trigger] seeded.shapes_spec()[wrt@[k].id.0 as int] == start.shapes_spec()[wrt@[k].id.0 as int] by {}
            let grads = choose|grads: Seq<Option<Value>>|
                #[trigger] gradients(*self, seeded, loss.id.0 as nat, start.len_spec() as int, grads) && forall|k: int|
                    0 <= k < wrt@.len() && reached(seeded, loss.id.0 as nat, (#[trigger] wrt@[k]).id.0 as int) ==> (
                    grads[wrt@[k].id.0 as int] matches Some(gradient) && adjoints.pairs@[k].1.id.0 == gradient.index_spec());
            lemma_gradients_prefix(*self, start, seeded, loss.id.0 as nat, start.len_spec() as int, grads);
            assert(self.opcodes_spec()[start.len_spec() as int] == seeded.opcodes_spec()[start.len_spec() as int]);
            assert(gradients(*self, start, loss.id.0 as nat, start.len_spec() as int, grads));
        }
        adjoints
    }
}
} // verus!
