use vstd::prelude::*;

use super::opcode::Opcode;
use crate::op::op::{accepts_operands, inferred_shape, snapshot_of, Op};
use crate::tensor::Tensor;
use super::origin::Origin;
use super::symbol::Symbol;
use super::ValueId;
use super::operands::Operands;
use super::express::lemma_rules_agree;
use super::vjp::{lemma_rules_extend, lemma_rules_hold_empty, link_extents, reversible, rules_hold};
use crate::shape::Shape;

verus! {

/// The construction phase of a network: an append-only record of every
/// node of one computation graph -- its opcode, its positional operand
/// links, and its shape, inferred and validated at record time.
///
/// Beside the structure it keeps the payload of every source node: a
/// leaf's constant, a parameter's record-site initial, an input's
/// default. Recorded nodes are never mutated or removed and
/// linear extension never moves one, so a [`Symbol`] stays valid for
/// the life of the family.
#[derive(Debug)]
pub struct Tape<E> {
    origin: Origin,
    opcodes: Vec<Opcode>,
    operands: Vec<Operands>,
    shapes: Vec<Shape>,
    counts: Vec<Option<usize>>,
    payloads: Vec<Option<Tensor<E>>>,
}

/// The payload a recorded `op` embeds: a leaf's constant, nothing for
/// any other operation.
pub open spec fn leaf_payload<Data>(op: Op<Data>) -> Option<Data> {
    match op {
        Op::Leaf(leaf) => Some(leaf.0),
        _ => None,
    }
}

/// A proxy to one recorded value: the handle every recording method
/// takes and returns. It names its node by family and position.
#[derive(Debug, Clone, Copy, PartialEq, Eq, Structural)]
pub struct Value {
    origin: Origin,
    id: ValueId,
}

impl Value {
    /// The family the value was recorded in.
    pub closed spec fn origin_spec(self) -> Origin {
        self.origin
    }

    /// The value's position on its tape.
    pub closed spec fn index_spec(self) -> nat {
        self.id.0 as nat
    }

    /// Returns the position of the value's node on its tape.
    pub fn id(self) -> (id: ValueId)
        ensures
            id.0 == self.index_spec(),
    {
        self.id
    }

    /// Returns the detached name of this value, valid in every later
    /// phase of its family.
    pub fn symbol(self) -> (symbol: Symbol)
        ensures
            symbol.origin == self.origin_spec(),
            symbol.id.0 == self.index_spec(),
    {
        Symbol::new(self.origin, self.id)
    }

    /// Returns the shape this value was recorded with.
    pub fn shape<E>(self, tape: &Tape<E>) -> (shape: Shape)
        requires
            tape.well_formed(),
            tape.holds(self),
        ensures
            shape@ == tape.extents(self),
    {
        tape.shape_of(self.id)
    }
}

impl Value {
    /// Returns a copy of the payload this value's node stores: a leaf's
    /// constant, a parameter's record-site initial or an input's default,
    /// and `None` for a computed node.
    pub fn payload<E: Copy>(self, tape: &Tape<E>) -> (payload: Option<Tensor<E>>)
        requires
            tape.well_formed(),
            tape.holds(self),
        ensures
            tape.stored_as(self.index_spec() as int, payload),
    {
        tape.payload_of(self.id)
    }
}

impl<E> Tape<E> {
    /// The family token every value of this tape carries.
    pub closed spec fn origin_spec(&self) -> Origin {
        self.origin
    }

    /// The opcode of every node, in allocation order.
    pub closed spec fn opcodes_spec(&self) -> Seq<Opcode> {
        self.opcodes@
    }

    /// The operand links of every node, in allocation order.
    pub closed spec fn links_spec(&self) -> Seq<Seq<ValueId>> {
        self.operands@.map_values(|links: Operands| links@)
    }

    /// The recorded shape of every node, in allocation order.
    pub closed spec fn shapes_spec(&self) -> Seq<Seq<usize>> {
        self.shapes@.map_values(|shape: Shape| shape@)
    }

    /// For every node, the count a counted literal leaf holds at every
    /// position, and `None` for any other node.
    pub closed spec fn counts_spec(&self) -> Seq<Option<usize>> {
        self.counts@
    }

    /// The stored payload of every node, in allocation order: the data a
    /// source node was recorded with, `None` for a computed node.
    pub closed spec fn payloads_spec(&self) -> Seq<Option<Tensor<E>>> {
        self.payloads@
    }

    /// Whether `payload` copies what node `index` stores: nothing for a
    /// node without a payload, the same shape and elements otherwise.
    pub open spec fn stored_as(&self, index: int, payload: Option<Tensor<E>>) -> bool {
        match self.payloads_spec()[index] {
            None => payload is None,
            Some(stored) => payload matches Some(copy) && copy.shape_spec() == stored.shape_spec()
                && copy.elements() == stored.elements(),
        }
    }

    /// The number of recorded nodes.
    pub open spec fn len_spec(&self) -> nat {
        self.opcodes_spec().len()
    }

    /// The columns agree in length, a stored payload has its node's shape,
    /// and every node links only to nodes recorded before it.
    pub open spec fn well_formed(&self) -> bool {
        &&& self.links_spec().len() == self.len_spec()
        &&& self.shapes_spec().len() == self.len_spec()
        &&& self.counts_spec().len() == self.len_spec()
        &&& self.payloads_spec().len() == self.len_spec()
        &&& forall|i: int| 0 <= i < self.len_spec() && #[trigger] self.payloads_spec()[i] is Some
            ==> self.payloads_spec()[i].unwrap().shape_spec() == self.shapes_spec()[i]
        &&& forall|i: int, k: int|
            0 <= i < self.len_spec() && 0 <= k < self.links_spec()[i].len() ==> #[trigger] self.links_spec()[i][k].0 < i
    }

    /// The shape `value` was recorded with.
    pub open spec fn extents(&self, value: Value) -> Seq<usize> {
        self.shapes_spec()[value.index_spec() as int]
    }

    /// Whether `value` was recorded on this tape.
    pub open spec fn holds(&self, value: Value) -> bool {
        value.origin_spec() == self.origin_spec() && value.index_spec() < self.len_spec()
    }

    /// Whether this tape is `earlier` with `count` more nodes appended:
    /// same family, every earlier node untouched.
    pub open spec fn appends(&self, earlier: &Tape<E>, count: nat) -> bool {
        &&& self.origin_spec() == earlier.origin_spec()
        &&& self.len_spec() == earlier.len_spec() + count
        &&& self.opcodes_spec().subrange(0, earlier.len_spec() as int) == earlier.opcodes_spec()
        &&& self.links_spec().subrange(0, earlier.len_spec() as int) == earlier.links_spec()
        &&& self.shapes_spec().subrange(0, earlier.len_spec() as int) == earlier.shapes_spec()
        &&& self.counts_spec().subrange(0, earlier.len_spec() as int) == earlier.counts_spec()
        &&& self.payloads_spec().subrange(0, earlier.len_spec() as int) == earlier.payloads_spec()
    }

    /// Whether node `index` reads exactly `operands`, in order, and was
    /// recorded with shape `shape`.
    pub open spec fn node_is(&self, index: int, operands: Seq<Value>, shape: Seq<usize>) -> bool {
        &&& self.links_spec()[index].len() == operands.len()
        &&& forall|k: int| 0 <= k < operands.len() ==> #[trigger] self.links_spec()[index][k].0 == operands[k].index_spec()
        &&& self.shapes_spec()[index] == shape
    }

    /// Whether this tape is `earlier` with one computed node appended,
    /// named by `out`: `opcode` over `operands`, recorded with `shape`.
    pub open spec fn records(&self, earlier: &Tape<E>, out: Value, opcode: Opcode, operands: Seq<Value>, shape: Seq<usize>) -> bool {
        &&& self.well_formed()
        &&& self.appends(earlier, 1)
        &&& self.names(out, earlier.len_spec())
        &&& self.opcodes_spec()[earlier.len_spec() as int] == opcode
        &&& self.node_is(earlier.len_spec() as int, operands, shape)
        &&& self.counts_spec()[earlier.len_spec() as int] is None
        &&& self.payloads_spec()[earlier.len_spec() as int] is None
    }

    /// Whether node `index` computes `opcode` over the nodes at positions
    /// `reads`, in order, recorded with `shape`.
    pub open spec fn node_reads(&self, index: nat, opcode: Opcode, reads: Seq<nat>, shape: Seq<usize>) -> bool {
        &&& self.opcodes_spec()[index as int] == opcode
        &&& self.links_spec()[index as int].len() == reads.len()
        &&& forall|k: int| 0 <= k < reads.len() ==> #[trigger] self.links_spec()[index as int][k].0 == reads[k]
        &&& self.shapes_spec()[index as int] == shape
    }

    /// Whether `value` is the node appended at position `index`.
    pub open spec fn names(&self, value: Value, index: nat) -> bool {
        value.origin_spec() == self.origin_spec() && value.index_spec() == index
    }

    /// Appending is transitive: `count` nodes and then `more` are
    /// `count + more` nodes appended.
    pub proof fn lemma_appends_chain(first: Tape<E>, second: Tape<E>, third: Tape<E>, count: nat, more: nat)
        requires
            first.well_formed(),
            second.well_formed(),
            third.well_formed(),
            second.appends(&first, count),
            third.appends(&second, more),
        ensures
            third.appends(&first, count + more),
    {
        assert(third.opcodes_spec().subrange(0, first.len_spec() as int)
            =~= second.opcodes_spec().subrange(0, first.len_spec() as int));
        assert(third.links_spec().subrange(0, first.len_spec() as int)
            =~= second.links_spec().subrange(0, first.len_spec() as int));
        assert(third.shapes_spec().subrange(0, first.len_spec() as int)
            =~= second.shapes_spec().subrange(0, first.len_spec() as int));
        assert(third.counts_spec().subrange(0, first.len_spec() as int)
            =~= second.counts_spec().subrange(0, first.len_spec() as int));
        assert(third.payloads_spec().subrange(0, first.len_spec() as int)
            =~= second.payloads_spec().subrange(0, first.len_spec() as int));
    }

    /// A tape is itself with nothing appended.
    pub proof fn lemma_appends_nothing(tape: Tape<E>)
        requires
            tape.well_formed(),
        ensures
            tape.appends(&tape, 0),
    {
        assert(tape.opcodes_spec().subrange(0, tape.len_spec() as int) =~= tape.opcodes_spec());
        assert(tape.links_spec().subrange(0, tape.len_spec() as int) =~= tape.links_spec());
        assert(tape.shapes_spec().subrange(0, tape.len_spec() as int) =~= tape.shapes_spec());
        assert(tape.counts_spec().subrange(0, tape.len_spec() as int) =~= tape.counts_spec());
        assert(tape.payloads_spec().subrange(0, tape.len_spec() as int) =~= tape.payloads_spec());
    }

    /// An appended tape keeps every earlier node as it was.
    pub proof fn lemma_appends_keeps(earlier: Tape<E>, later: Tape<E>, count: nat, index: int)
        requires
            earlier.well_formed(),
            later.well_formed(),
            later.appends(&earlier, count),
            0 <= index < earlier.len_spec(),
        ensures
            later.opcodes_spec()[index] == earlier.opcodes_spec()[index],
            later.links_spec()[index] == earlier.links_spec()[index],
            later.shapes_spec()[index] == earlier.shapes_spec()[index],
            later.counts_spec()[index] == earlier.counts_spec()[index],
            later.payloads_spec()[index] == earlier.payloads_spec()[index],
    {
        assert(later.opcodes_spec().subrange(0, earlier.len_spec() as int)[index] == later.opcodes_spec()[index]);
        assert(later.links_spec().subrange(0, earlier.len_spec() as int)[index] == later.links_spec()[index]);
        assert(later.shapes_spec().subrange(0, earlier.len_spec() as int)[index] == later.shapes_spec()[index]);
        assert(later.counts_spec().subrange(0, earlier.len_spec() as int)[index] == later.counts_spec()[index]);
        assert(later.payloads_spec().subrange(0, earlier.len_spec() as int)[index] == later.payloads_spec()[index]);
    }

    /// Recording only appends: every value recorded on `earlier` is still
    /// recorded on any tape that extends it, with the same opcode, the
    /// same operand links, the same shape and the same payload, so its name
    /// stays valid.
    pub proof fn law_recorded_nodes_never_move(earlier: Tape<E>, later: Tape<E>, count: nat, value: Value)
        requires
            earlier.well_formed(),
            later.well_formed(),
            later.appends(&earlier, count),
            earlier.holds(value),
        ensures
            later.holds(value),
            later.opcodes_spec()[value.index_spec() as int] == earlier.opcodes_spec()[value.index_spec() as int],
            later.links_spec()[value.index_spec() as int] == earlier.links_spec()[value.index_spec() as int],
            later.extents(value) == earlier.extents(value),
            later.payloads_spec()[value.index_spec() as int] == earlier.payloads_spec()[value.index_spec() as int],
    {
        Tape::lemma_appends_keeps(earlier, later, count, value.index_spec() as int);
    }

    /// Creates an empty tape of the family `origin`.
    pub fn new(origin: Origin) -> (tape: Tape<E>)
        ensures
            tape.well_formed(),
            tape.len_spec() == 0,
            tape.origin_spec() == origin,
            rules_hold(tape),
    {
        let tape = Tape {
            origin,
            opcodes: Vec::new(),
            operands: Vec::new(),
            shapes: Vec::new(),
            counts: Vec::new(),
            payloads: Vec::new(),
        };
        proof {
            assert(tape.links_spec() =~= Seq::empty());
            assert(tape.shapes_spec() =~= Seq::empty());
            lemma_rules_hold_empty(tape);
        }
        tape
    }

    /// Returns the origin token of this tape's family.
    pub fn origin(&self) -> (origin: Origin)
        ensures
            origin == self.origin_spec(),
    {
        self.origin
    }

    /// Returns the number of recorded nodes.
    pub fn len(&self) -> (len: usize)
        ensures
            len == self.len_spec(),
    {
        self.opcodes.len()
    }

    /// Returns `true` if it holds no nodes.
    pub fn is_empty(&self) -> (empty: bool)
        ensures
            empty == (self.len_spec() == 0),
    {
        self.opcodes.len() == 0
    }

    /// Allocates a constant leaf holding `data` and returns a proxy to it;
    /// constants are fixed at recording time.
    pub fn leaf(&mut self, data: Tensor<E>) -> (leaf: Value)
        requires
            old(self).well_formed(),
        ensures
            final(self).well_formed(),
            final(self).appends(old(self), 1),
            final(self).names(leaf, old(self).len_spec()),
            final(self).opcodes_spec()[old(self).len_spec() as int] is Leaf,
            final(self).node_is(old(self).len_spec() as int, seq![], data.shape_spec()),
            final(self).counts_spec()[old(self).len_spec() as int] is None,
            final(self).payloads_spec()[old(self).len_spec() as int] == Some(data),
            rules_hold(*old(self)) ==> rules_hold(*final(self)),
    {
        let shape = data.shape();
        let ghost before = *self;
        let recorded = self.append(Opcode::Leaf, Operands::none(), shape, None, Some(data));
        proof {
            if rules_hold(before) {
                lemma_rules_extend(before, *self);
            }
        }
        recorded
    }

    /// Allocates a learnable parameter and returns a proxy to it; `data`
    /// is its record-site initial, and fixes its shape.
    pub fn parameter(&mut self, data: Tensor<E>) -> (parameter: Value)
        requires
            old(self).well_formed(),
        ensures
            final(self).well_formed(),
            final(self).appends(old(self), 1),
            final(self).names(parameter, old(self).len_spec()),
            final(self).opcodes_spec()[old(self).len_spec() as int] is Parameter,
            final(self).node_is(old(self).len_spec() as int, seq![], data.shape_spec()),
            final(self).counts_spec()[old(self).len_spec() as int] is None,
            final(self).payloads_spec()[old(self).len_spec() as int] == Some(data),
            rules_hold(*old(self)) ==> rules_hold(*final(self)),
    {
        let shape = data.shape();
        let ghost before = *self;
        let recorded = self.append(Opcode::Parameter, Operands::none(), shape, None, Some(data));
        proof {
            if rules_hold(before) {
                lemma_rules_extend(before, *self);
            }
        }
        recorded
    }

    /// Allocates a declared per-run input and returns a proxy to it;
    /// `initial` is its default payload, and fixes its shape.
    pub fn input(&mut self, initial: Tensor<E>) -> (input: Value)
        requires
            old(self).well_formed(),
        ensures
            final(self).well_formed(),
            final(self).appends(old(self), 1),
            final(self).names(input, old(self).len_spec()),
            final(self).opcodes_spec()[old(self).len_spec() as int] is Input,
            final(self).node_is(old(self).len_spec() as int, seq![], initial.shape_spec()),
            final(self).counts_spec()[old(self).len_spec() as int] is None,
            final(self).payloads_spec()[old(self).len_spec() as int] == Some(initial),
            rules_hold(*old(self)) ==> rules_hold(*final(self)),
    {
        let shape = initial.shape();
        let ghost before = *self;
        let recorded = self.append(Opcode::Input, Operands::none(), shape, None, Some(initial));
        proof {
            if rules_hold(before) {
                lemma_rules_extend(before, *self);
            }
        }
        recorded
    }

    /// Resolves `symbol` back into a proxy on this tape.
    pub fn resolve(&self, symbol: Symbol) -> (value: Value)
        requires
            symbol.origin == self.origin_spec(),
            symbol.id.0 < self.len_spec(),
        ensures
            self.holds(value),
            value.origin_spec() == symbol.origin,
            value.index_spec() == symbol.id.0,
    {
        Value { origin: symbol.origin, id: symbol.id }
    }

    /// Returns the opcode of the node `value` names.
    pub fn opcode(&self, value: Value) -> (opcode: &Opcode)
        requires
            self.well_formed(),
            self.holds(value),
        ensures
            *opcode == self.opcodes_spec()[value.index_spec() as int],
    {
        &self.opcodes[value.id.0]
    }

    /// Returns the operand links of the node `value` names.
    pub fn operands(&self, value: Value) -> (operands: &[ValueId])
        requires
            self.well_formed(),
            self.holds(value),
        ensures
            operands@ == self.links_spec()[value.index_spec() as int],
    {
        self.operands[value.id.0].as_slice()
    }

    /// Returns the opcode of the node at `index`.
    pub(crate) fn opcode_at(&self, index: usize) -> (opcode: &Opcode)
        requires
            self.well_formed(),
            index < self.len_spec(),
        ensures
            *opcode == self.opcodes_spec()[index as int],
    {
        &self.opcodes[index]
    }

    /// Returns the operand links of the node at `index`.
    pub(crate) fn links_at(&self, index: usize) -> (links: &[ValueId])
        requires
            self.well_formed(),
            index < self.len_spec(),
        ensures
            links@ == self.links_spec()[index as int],
    {
        self.operands[index].as_slice()
    }

    /// Returns the count the node at `index` holds if it is a counted
    /// literal, `None` otherwise.
    pub(crate) fn count_at(&self, index: usize) -> (count: Option<usize>)
        requires
            self.well_formed(),
            index < self.len_spec(),
        ensures
            count == self.counts_spec()[index as int],
    {
        self.counts[index]
    }

    /// Returns the shape recorded for the node at `index`.
    pub(crate) fn shape_at(&self, index: usize) -> (shape: &Shape)
        requires
            self.well_formed(),
            index < self.len_spec(),
        ensures
            shape@ == self.shapes_spec()[index as int],
    {
        &self.shapes[index]
    }

    /// Returns the shape recorded for the node at `id`.
    fn shape_of(&self, id: ValueId) -> (shape: Shape)
        requires
            self.well_formed(),
            id.0 < self.len_spec(),
        ensures
            shape@ == self.shapes_spec()[id.0 as int],
    {
        self.shapes[id.0].clone()
    }

    /// The recorded shapes of the nodes at `operands`, in order.
    pub open spec fn operand_shapes(&self, operands: Seq<ValueId>) -> Seq<Seq<usize>> {
        operands.map_values(|operand: ValueId| self.shapes_spec()[operand.0 as int])
    }

    /// Appends a node computing `opcode` over `operands` with the
    /// inferred `shape`, and returns its handle.
    pub(crate) fn record(&mut self, opcode: Opcode, operands: Vec<ValueId>, shape: Shape) -> (value: Value)
        requires
            old(self).well_formed(),
            forall|k: int| 0 <= k < operands@.len() ==> #[trigger] operands@[k].0 < old(self).len_spec(),
        ensures
            final(self).well_formed(),
            final(self).appends(old(self), 1),
            final(self).names(value, old(self).len_spec()),
            final(self).opcodes_spec()[old(self).len_spec() as int] == opcode,
            final(self).links_spec()[old(self).len_spec() as int] == operands@,
            final(self).shapes_spec()[old(self).len_spec() as int] == shape@,
            final(self).counts_spec()[old(self).len_spec() as int] is None,
            final(self).payloads_spec()[old(self).len_spec() as int] is None,
    {
        self.append(opcode, Operands::from_slice(operands.as_slice()), shape, None, None)
    }

    /// Allocates a counted literal: a constant leaf of `shape` holding
    /// `count` at every position, the form in which composites enter
    /// their formula constants.
    pub fn counted(&mut self, shape: Shape, count: usize) -> (literal: Value)
        requires
            old(self).well_formed(),
        ensures
            final(self).well_formed(),
            final(self).appends(old(self), 1),
            final(self).names(literal, old(self).len_spec()),
            final(self).opcodes_spec()[old(self).len_spec() as int] is Leaf,
            final(self).node_is(old(self).len_spec() as int, seq![], shape@),
            final(self).counts_spec()[old(self).len_spec() as int] == Some(count),
            final(self).payloads_spec()[old(self).len_spec() as int] is None,
            rules_hold(*old(self)) ==> rules_hold(*final(self)),
    {
        let ghost before = *self;
        let recorded = self.append(Opcode::Leaf, Operands::none(), shape, Some(count), None);
        proof {
            if rules_hold(before) {
                lemma_rules_extend(before, *self);
            }
        }
        recorded
    }

    /// Appends one node to every column.
    fn append(
        &mut self,
        opcode: Opcode,
        operands: Operands,
        shape: Shape,
        count: Option<usize>,
        payload: Option<Tensor<E>>,
    ) -> (value: Value)
        requires
            old(self).well_formed(),
            forall|k: int| 0 <= k < operands@.len() ==> #[trigger] operands@[k].0 < old(self).len_spec(),
            payload matches Some(data) ==> data.shape_spec() == shape@,
        ensures
            final(self).well_formed(),
            final(self).appends(old(self), 1),
            final(self).names(value, old(self).len_spec()),
            final(self).opcodes_spec()[old(self).len_spec() as int] == opcode,
            final(self).links_spec()[old(self).len_spec() as int] == operands@,
            final(self).shapes_spec()[old(self).len_spec() as int] == shape@,
            final(self).counts_spec()[old(self).len_spec() as int] == count,
            final(self).payloads_spec()[old(self).len_spec() as int] == payload,
    {
        let id = ValueId(self.opcodes.len());
        let ghost before = *self;
        let ghost links = operands@;
        let ghost axes = shape@;
        self.opcodes.push(opcode);
        self.operands.push(operands);
        self.shapes.push(shape);
        self.counts.push(count);
        self.payloads.push(payload);
        proof {
            assert(self.links_spec() =~= before.links_spec().push(links));
            assert(self.shapes_spec() =~= before.shapes_spec().push(axes));
            assert(self.opcodes_spec().subrange(0, before.len_spec() as int) =~= before.opcodes_spec());
            assert(self.links_spec().subrange(0, before.len_spec() as int) =~= before.links_spec());
            assert(self.shapes_spec().subrange(0, before.len_spec() as int) =~= before.shapes_spec());
            assert(self.counts_spec().subrange(0, before.len_spec() as int) =~= before.counts_spec());
            assert(self.payloads_spec().subrange(0, before.len_spec() as int) =~= before.payloads_spec());
        }
        Value { origin: self.origin, id }
    }
}

impl<E: Copy> Tape<E> {
    /// Records `op` over its positional `operands` and returns its
    /// handle, inferring the result's shape on the way in from the
    /// operands' recorded shapes, so an invalid expression is refused at
    /// the expression that records it, before anything runs.
    pub fn record_node(&mut self, op: Op<Tensor<E>>, operands: &[ValueId]) -> (value: Value)
        requires
            old(self).well_formed(),
            forall|k: int| 0 <= k < operands@.len() ==> #[trigger] operands@[k].0 < old(self).len_spec(),
            accepts_operands(op, old(self).operand_shapes(operands@)),
        ensures
            final(self).well_formed(),
            final(self).appends(old(self), 1),
            final(self).names(value, old(self).len_spec()),
            snapshot_of(op, final(self).opcodes_spec()[old(self).len_spec() as int]),
            final(self).links_spec()[old(self).len_spec() as int] == operands@,
            final(self).shapes_spec()[old(self).len_spec() as int] == inferred_shape(op, old(self).operand_shapes(operands@)),
            final(self).counts_spec()[old(self).len_spec() as int] is None,
            final(self).payloads_spec()[old(self).len_spec() as int] == leaf_payload(op),
            rules_hold(*old(self)) && reversible(final(self).opcodes_spec()[old(self).len_spec() as int],
                old(self).operand_shapes(operands@)) ==> rules_hold(*final(self)),
    {
        let ghost before = *self;
        let mut shapes: Vec<Shape> = Vec::new();
        let mut position: usize = 0;
        while position < operands.len()
            invariant
                self.well_formed(),
                forall|k: int| 0 <= k < operands@.len() ==> #[trigger] operands@[k].0 < self.len_spec(),
                position <= operands@.len(),
                shapes@.len() == position,
                forall|k: int| 0 <= k < position ==> #[trigger] shapes@[k]@ == self.shapes_spec()[operands@[k].0 as int],
            decreases operands@.len() - position,
        {
            shapes.push(self.shape_of(operands[position]));
            position = position + 1;
        }
        proof {
            assert(shapes@.map_values(|shape: Shape| shape@) =~= self.operand_shapes(operands@));
        }
        let shape = op.infer_shape(shapes.as_slice());
        let opcode = op.opcode();
        let payload = match op {
            Op::Leaf(leaf) => Some(leaf.0),
            _ => None,
        };
        let recorded = self.append(opcode, Operands::from_slice(operands), shape, None, payload);
        proof {
            let index = before.len_spec() as int;
            assert(link_extents(*self, index) =~= before.operand_shapes(operands@)) by {
                assert forall|m: int| 0 <= m < operands@.len() implies #[trigger] link_extents(*self, index)[m]
                    == before.operand_shapes(operands@)[m] by {
                    Tape::lemma_appends_keeps(before, *self, 1, operands@[m].0 as int);
                }
            }
            if !crate::graph::opcode::is_source_spec(self.opcodes_spec()[index]) {
                lemma_rules_agree(op, self.opcodes_spec()[index], before.operand_shapes(operands@));
            }
            if rules_hold(before) && reversible(self.opcodes_spec()[index], before.operand_shapes(operands@)) {
                lemma_rules_extend(before, *self);
            }
        }
        recorded
    }

    /// Returns a copy of the payload stored for the node at `id`: a
    /// leaf's constant, a parameter's record-site initial or an input's
    /// default, and `None` for a computed node.
    pub(crate) fn payload_of(&self, id: ValueId) -> (payload: Option<Tensor<E>>)
        requires
            self.well_formed(),
            id.0 < self.len_spec(),
        ensures
            self.stored_as(id.0 as int, payload),
    {
        match &self.payloads[id.0] {
            Some(data) => Some(data.clone()),
            None => None,
        }
    }

    /// Returns a copy of the stored payload of the node `symbol` names: a
    /// leaf's constant, a parameter's record-site initial or an input's
    /// default, and `None` for a computed node.
    pub fn payload(&self, symbol: Symbol) -> (payload: Option<Tensor<E>>)
        requires
            self.well_formed(),
            symbol.origin == self.origin_spec(),
            symbol.id.0 < self.len_spec(),
        ensures
            self.stored_as(symbol.id.0 as int, payload),
    {
        self.resolve(symbol).payload(self)
    }
}

} // verus!
