use std::sync::Arc;

use topos::graph::detach::Detach;
use topos::graph::kinship::Kinship;
use topos::graph::opcode::Opcode;
use topos::graph::origin::Origin;
use topos::graph::slot_store::SlotStore;
use topos::graph::symbol::Symbol;
use topos::graph::tape::{Tape, Value};
use topos::graph::ValueId;
use topos::op::map::MapOperation;
use topos::op::slot::SlotId;
use topos::op::op::Op;
use topos::shape::Shape;
use topos::tensor::Tensor;

fn tape() -> Tape<f64> {
    Tape::new(Origin::from_token(11))
}

fn zeros(axes: Vec<usize>) -> Tensor<f64> {
    Tensor::filled(Shape::new(axes), 0.0)
}

fn scalar(element: f64) -> Tensor<f64> {
    Tensor::new(Shape::scalar(), vec![element])
}

fn scalar_payload(tape: &Tape<f64>, value: Value) -> Option<f64> {
    value.payload(tape).map(|data| *data.scalar())
}

fn shape_of(tape: &Tape<f64>, value: Value) -> Vec<usize> {
    value.shape(tape).axes().to_vec()
}

#[test]
fn new_tape_is_empty() {
    let tape = tape();
    assert!(tape.is_empty());
    assert_eq!(tape.len(), 0);
    assert_eq!(tape.origin(), Origin::from_token(11));
}

#[test]
fn leaf_allocates_on_the_tape() {
    let mut tape = tape();
    let first = tape.leaf(scalar(2.0));
    let second = tape.leaf(scalar(3.0));
    assert_eq!(tape.len(), 2);
    assert_ne!(first.id(), second.id());
    assert_eq!(scalar_payload(&tape, first), Some(2.0));
    assert_eq!(scalar_payload(&tape, second), Some(3.0));
}

#[test]
fn leaf_records_its_shape_and_no_operands() {
    let mut tape = tape();
    let first = tape.leaf(zeros(vec![2, 3]));
    assert_eq!(first.id(), ValueId(0));
    assert_eq!(shape_of(&tape, first), vec![2, 3]);
    assert!(matches!(tape.opcode(first), Opcode::Leaf));
    assert!(tape.operands(first).is_empty());
    assert_eq!(first.payload(&tape).map(|data| data.to_vec()), Some(vec![0.0; 6]));
}

#[test]
fn parameter_and_input_carry_their_initials() {
    let mut tape = tape();
    let parameter = tape.parameter(scalar(1.5));
    let input = tape.input(scalar(3.0));
    assert_eq!(scalar_payload(&tape, parameter), Some(1.5));
    assert_eq!(scalar_payload(&tape, input), Some(3.0));
}

#[test]
fn resolve_answers_the_recorded_node() {
    let mut tape = tape();
    let weight = tape.parameter(scalar(2.0));
    let symbol = weight.symbol();
    assert_eq!(scalar_payload(&tape, tape.resolve(symbol)), Some(2.0));
    assert_eq!(tape.resolve(symbol).id(), weight.id());
    assert_eq!(tape.payload(symbol).map(|data| *data.scalar()), Some(2.0));
}

#[test]
fn computed_nodes_store_no_payload() {
    let mut tape = tape();
    let value = tape.leaf(zeros(vec![4]));
    let negated = value.neg(&mut tape);
    assert!(negated.payload(&tape).is_none());
    let counted = tape.counted(Shape::new(vec![4]), 2);
    assert!(counted.payload(&tape).is_none());
}

#[test]
fn softmax_records_log_softmax_then_exp() {
    let mut tape = tape();
    let logits = tape.leaf(zeros(vec![2, 5]));
    let probabilities = logits.softmax(&mut tape, 1);
    assert_eq!(tape.len(), 3);
    assert_eq!(probabilities.id(), ValueId(2));
    assert!(matches!(tape.opcode(tape.resolve(Symbol::new(tape.origin(), ValueId(1)))), Opcode::LogSoftmax { axis: 1 }));
    assert!(matches!(tape.opcode(probabilities), Opcode::ElementMap { operation: MapOperation::Exp }));
    assert_eq!(tape.operands(probabilities), &[ValueId(1)]);
    assert_eq!(shape_of(&tape, probabilities), vec![2, 5]);
}

#[test]
fn transpose_reverses_the_axes() {
    let mut tape = tape();
    let matrix = tape.leaf(zeros(vec![2, 3]));
    let transposed = matrix.transpose(&mut tape);
    assert_eq!(shape_of(&tape, transposed), vec![3, 2]);
    match tape.opcode(transposed) {
        Opcode::Permute { order } => assert_eq!(order, &vec![1, 0]),
        other => panic!("expected a permutation, got {other:?}"),
    }
    let vector = tape.leaf(zeros(vec![4]));
    let same = vector.transpose(&mut tape);
    assert_eq!(shape_of(&tape, same), vec![4]);
}

#[test]
fn unsqueeze_and_squeeze_move_a_unit_axis() {
    let mut tape = tape();
    let value = tape.leaf(zeros(vec![2, 3]));
    let lifted = value.unsqueeze(&mut tape, 1);
    assert_eq!(shape_of(&tape, lifted), vec![2, 1, 3]);
    let dropped = lifted.squeeze(&mut tape, 1);
    assert_eq!(shape_of(&tape, dropped), vec![2, 3]);
    assert!(matches!(tape.opcode(dropped), Opcode::Reshape { .. }));
    assert_eq!(tape.operands(dropped), &[lifted.id()]);
}

#[test]
fn broadcast_like_reads_the_reference_shape_only() {
    let mut tape = tape();
    let single = tape.leaf(zeros(vec![1, 1]));
    let reference = tape.leaf(zeros(vec![3, 4]));
    let spread = single.broadcast_like(&mut tape, reference);
    assert_eq!(shape_of(&tape, spread), vec![3, 4]);
    assert_eq!(tape.operands(spread), &[single.id()]);
}

#[test]
fn broadcast_along_like_repeats_to_the_reference_extent() {
    let mut tape = tape();
    let row = tape.leaf(zeros(vec![3]));
    let reference = tape.leaf(zeros(vec![5, 3]));
    let spread = row.broadcast_along_like(&mut tape, 0, reference);
    assert_eq!(shape_of(&tape, spread), vec![5, 3]);
    assert!(matches!(tape.opcode(spread), Opcode::BroadcastAlong { axis: 0, extent: 5 }));
}

#[test]
fn broadcast_to_an_equal_shape_records_nothing() {
    let mut tape = tape();
    let value = tape.leaf(zeros(vec![2, 3]));
    let same = value.broadcast_to(&mut tape, Shape::new(vec![2, 3]));
    assert_eq!(same, value);
    assert_eq!(tape.len(), 1);
}

#[test]
fn broadcast_to_spreads_a_single_element_in_one_node() {
    let mut tape = tape();
    let single = tape.leaf(zeros(vec![1]));
    let spread = single.broadcast_to(&mut tape, Shape::new(vec![4, 2, 3]));
    assert_eq!(tape.len(), 2);
    assert_eq!(shape_of(&tape, spread), vec![4, 2, 3]);
    assert!(matches!(tape.opcode(spread), Opcode::Broadcast { .. }));
}

#[test]
fn broadcast_to_aligns_from_the_trailing_axis() {
    let mut tape = tape();
    let row = tape.leaf(zeros(vec![3, 1]));
    let spread = row.broadcast_to(&mut tape, Shape::new(vec![2, 3, 4]));
    assert_eq!(shape_of(&tape, spread), vec![2, 3, 4]);
    // A right-aligning reshape, then a squeeze and a repeat for each of
    // the two repeated axes.
    assert_eq!(tape.len(), 6);
    assert!(matches!(tape.opcode(tape.resolve(Symbol::new(tape.origin(), ValueId(1)))), Opcode::Reshape { .. }));
    assert!(matches!(tape.opcode(spread), Opcode::BroadcastAlong { axis: 2, extent: 4 }));
    for index in 2..6 {
        let node = tape.resolve(Symbol::new(tape.origin(), ValueId(index)));
        assert_eq!(tape.operands(node), &[ValueId(index - 1)]);
    }
}

#[test]
fn opcode_arity_matches_the_sources() {
    assert_eq!(Opcode::Leaf.arity(), 0);
    assert!(Opcode::Input.is_source());
    assert_eq!(Opcode::MatMul.arity(), 2);
    assert_eq!(Opcode::Gather.arity(), 2);
    assert_eq!(Opcode::SumAlong { axis: 0 }.arity(), 1);
    assert!(!Opcode::Neg.is_source());
    assert_eq!(Opcode::Reshape { shape: Shape::scalar() }.arity(), 1);
}

#[test]
fn kinship_locates_only_its_family() {
    let kinship = Kinship::over(Origin::from_token(3), 4);
    let own = Symbol::new(Origin::from_token(3), ValueId(2));
    let past = Symbol::new(Origin::from_token(3), ValueId(4));
    let foreign = Symbol::new(Origin::from_token(8), ValueId(1));
    assert!(kinship.is_kin(own));
    assert!(!kinship.is_kin(foreign));
    assert_eq!(kinship.locate(own), 2);
    assert_eq!(kinship.try_locate(own), Some(2));
    assert_eq!(kinship.try_locate(past), None);
    assert_eq!(kinship.try_locate(foreign), None);
}

#[test]
fn slot_store_installs_and_finds_nodes() {
    let mut store: SlotStore<&str> = SlotStore::new();
    let first = store.install("w", |slot| ValueId(slot.index() + 10));
    let second = store.install("b", |slot| ValueId(slot.index() + 20));
    assert_eq!(first, ValueId(10));
    assert_eq!(second, ValueId(21));
    assert_eq!(store.len(), 2);
    assert_eq!(store.payloads(), &["w", "b"]);
    assert_eq!(store.slot_of(ValueId(21)).map(SlotId::index), Some(1));
    assert_eq!(store.slot_of(ValueId(15)).map(SlotId::index), None);
    assert_eq!(store.last_node(), Some(ValueId(21)));
    assert_eq!(store.nodes(), vec![10, 21]);
}

#[test]
fn slot_store_rows_sets_and_overlays() {
    let mut store = SlotStore::from_rows(vec![(ValueId(1), 5), (ValueId(4), 6), (ValueId(9), 7)]);
    assert_eq!(store.payloads(), &[5, 6, 7]);
    store.set(SlotId::new(1), 60);
    assert_eq!(store.payloads(), &[5, 60, 7]);
    let swapped = store.with_payloads(vec![0, 0, 0]);
    assert_eq!(swapped.nodes(), vec![1, 4, 9]);
    let defaults = Arc::new(store);
    let overlaid = SlotStore::overlaid(&defaults, vec![(SlotId::new(2), 70)]);
    assert_eq!(overlaid.payloads(), &[5, 60, 70]);
    let untouched = SlotStore::overlaid(&defaults, vec![]);
    assert!(Arc::ptr_eq(&untouched, &defaults));
}

#[test]
fn origins_and_symbols_round_trip() {
    let origin = Origin::from_token(42);
    assert_eq!(origin.value(), 42);
    let symbol = Symbol::new(origin, ValueId(6));
    assert_eq!(symbol.index(), 6);
    assert_ne!(symbol, Symbol::new(Origin::from_token(43), ValueId(6)));
}

#[test]
fn abs_records_negation_then_maximum() {
    let mut tape = tape();
    let value = tape.leaf(zeros(vec![3]));
    let out = value.abs(&mut tape);
    assert_eq!(tape.len(), 3);
    assert!(matches!(tape.opcode(out), Opcode::Maximum));
    assert_eq!(tape.operands(out), &[ValueId(0), ValueId(1)]);
    assert_eq!(shape_of(&tape, out), vec![3]);
}

#[test]
fn relu_compares_against_a_counted_zero() {
    let mut tape = tape();
    let value = tape.leaf(zeros(vec![2, 2]));
    let out = value.relu(&mut tape);
    assert_eq!(tape.len(), 3);
    let zero = tape.resolve(Symbol::new(tape.origin(), ValueId(1)));
    assert!(matches!(tape.opcode(zero), Opcode::Leaf));
    assert_eq!(shape_of(&tape, zero), vec![2, 2]);
    assert_eq!(tape.operands(out), &[ValueId(0), ValueId(1)]);
}

#[test]
fn softplus_and_gelu_record_their_formulas() {
    let mut tape = tape();
    let value = tape.leaf(zeros(vec![4]));
    let softplus = value.softplus(&mut tape);
    assert_eq!(tape.len(), 9);
    assert!(matches!(tape.opcode(softplus), Opcode::Add));
    assert_eq!(shape_of(&tape, softplus), vec![4]);
    let gelu = value.gelu(&mut tape);
    assert_eq!(tape.len(), 17);
    assert!(matches!(tape.opcode(gelu), Opcode::Div));
    assert_eq!(shape_of(&tape, gelu), vec![4]);
}

#[test]
fn mean_along_removes_the_axis() {
    let mut tape = tape();
    let value = tape.leaf(zeros(vec![2, 5]));
    let mean = value.mean_along(&mut tape, 1);
    assert_eq!(shape_of(&tape, mean), vec![2]);
    assert!(matches!(tape.opcode(mean), Opcode::Div));
    assert_eq!(tape.len(), 4);
}

#[test]
fn concat_pads_and_sums_along_the_axis() {
    let mut tape = tape();
    let first = tape.leaf(zeros(vec![2, 3]));
    let second = tape.leaf(zeros(vec![2, 1]));
    let third = tape.leaf(zeros(vec![2, 2]));
    let joined = topos::graph::composite::concat(&mut tape, &[first, second, third], 1);
    assert_eq!(shape_of(&tape, joined), vec![2, 6]);
    // Three pads and two sums.
    assert_eq!(tape.len(), 3 + 5);
    match tape.opcode(tape.resolve(Symbol::new(tape.origin(), ValueId(4)))) {
        Opcode::Pad { axis, start, full_extent } => assert_eq!((*axis, *start, *full_extent), (1, 3, 6)),
        other => panic!("expected a pad, got {other:?}"),
    }
    let alone = topos::graph::composite::concat(&mut tape, &[first], 1);
    assert_eq!(alone, first);
}

#[test]
fn stack_lifts_then_concatenates() {
    let mut tape = tape();
    let first = tape.leaf(zeros(vec![3]));
    let second = tape.leaf(zeros(vec![3]));
    let stacked = topos::graph::composite::stack(&mut tape, &[first, second], 0);
    assert_eq!(shape_of(&tape, stacked), vec![2, 3]);
}

#[test]
fn primitives_record_one_node_each() {
    let mut tape = tape();
    let left = tape.leaf(zeros(vec![2, 3]));
    let right = tape.leaf(zeros(vec![2, 3]));
    let sum = left.add(&mut tape, right);
    let quotient = sum.div(&mut tape, right);
    let product = quotient.mul(&mut tape, left);
    let reduced = product.sum_along(&mut tape, 0);
    assert_eq!(shape_of(&tape, reduced), vec![3]);
    let padded = reduced.pad(&mut tape, 0, 1, 5);
    assert_eq!(shape_of(&tape, padded), vec![5]);
    let counted = tape.counted(Shape::new(vec![5]), 3);
    assert_eq!(tape.operands(counted), &[] as &[ValueId]);
    assert_eq!(tape.len(), 8);
}

#[test]
fn record_node_infers_and_appends() {
    let mut tape = tape();
    let input = tape.leaf(zeros(vec![2, 6]));
    let windows: Op<Tensor<f64>> = Op::unfold(1, 3, 3, 1);
    let out = tape.record_node(windows, &[input.id()]);
    assert_eq!(out.id(), ValueId(1));
    assert_eq!(out.shape(&tape), Shape::new(vec![2, 2, 3]));
    assert!(matches!(tape.opcode(out), Opcode::Unfold { axis: 1, size: 3, step: 3, dilation: 1 }));
    assert_eq!(tape.operands(out), &[ValueId(0)][..]);
    let moved: Op<Tensor<f64>> = Op::permute(vec![2, 0, 1]);
    let last = tape.record_node(moved, &[out.id()]);
    assert_eq!(last.shape(&tape), Shape::new(vec![3, 2, 2]));
    assert_eq!(tape.len(), 3);
}

#[test]
fn into_network_and_back_preserves_symbols_and_length() {
    let mut tape = tape();
    let weight = tape.parameter(scalar(2.0));
    let two = tape.leaf(scalar(2.0));
    let doubled = weight.mul(&mut tape, two);
    let (weight, doubled) = (weight.symbol(), doubled.symbol());
    let recorded = tape.len();

    let network = tape.into_network();
    assert_eq!(network.len(), recorded);
    assert_eq!(network.locate(doubled), doubled.id);
    assert_eq!(network.payload(weight).map(|data| *data.scalar()), Some(2.0));
    assert!(network.payload(doubled).is_none());
    assert_eq!(network.origin(), Origin::from_token(11));

    // Reopening keeps the origin and every recorded node, so old symbols
    // resolve and extension appends after them.
    let mut tape = network.into_tape();
    assert_eq!(tape.len(), recorded);
    assert_eq!(scalar_payload(&tape, tape.resolve(weight)), Some(2.0));
    let three = tape.leaf(scalar(3.0));
    let tripled = tape.resolve(weight).mul(&mut tape, three);
    assert!(tripled.id().index() >= recorded);
    let _ = tape.resolve(doubled);
    assert_eq!(tape.resolve(doubled).shape(&tape), Shape::scalar());
}

#[test]
fn parameter_and_input_record_sources() {
    let mut tape = tape();
    let weight = tape.parameter(zeros(vec![2]));
    let feed = tape.input(zeros(vec![2]));
    assert!(matches!(tape.opcode(weight), Opcode::Parameter));
    assert!(matches!(tape.opcode(feed), Opcode::Input));
    assert!(tape.opcode(weight).is_source());
    assert_eq!(shape_of(&tape, feed), vec![2]);
    let sum = weight.add(&mut tape, feed);
    assert_eq!(tape.operands(sum), &[ValueId(0), ValueId(1)][..]);
}

#[test]
fn operator_sugar_allocates_on_the_same_tape() {
    let mut tape = tape();
    let v1 = tape.leaf(scalar(2.0));
    let v2 = tape.leaf(scalar(3.0));

    let x = v1.add(&mut tape, v2);

    assert_eq!(tape.len(), 3);
    assert!(matches!(tape.opcode(x), Opcode::Add));
    assert_eq!(tape.operands(x), &[v1.id(), v2.id()][..]);
    assert!(x.payload(&tape).is_none());
}

#[test]
fn copy_values_are_reusable_across_expressions() {
    let mut tape = tape();
    let v1 = tape.leaf(scalar(2.0));
    let v2 = tape.leaf(scalar(3.0));

    let x = v1.mul(&mut tape, v2);
    let y = v1.add(&mut tape, v2);
    let z = x.add(&mut tape, y);
    let negated = z.neg(&mut tape);

    assert_eq!(tape.len(), 6);
    assert!(matches!(tape.opcode(z), Opcode::Add));
    assert_eq!(tape.operands(z), &[x.id(), y.id()][..]);
    assert!(matches!(tape.opcode(negated), Opcode::Neg));
    assert_eq!(tape.operands(negated), &[z.id()][..]);
}

#[test]
fn expression_chain_allocates_intermediate_values() {
    let mut tape = tape();
    let v1 = tape.leaf(scalar(2.0));
    let v2 = tape.leaf(scalar(3.0));
    let v3 = tape.leaf(scalar(4.0));

    let product = v1.mul(&mut tape, v2);
    let x = product.add(&mut tape, v3);

    assert_eq!(tape.len(), 5);
    assert!(matches!(tape.opcode(x), Opcode::Add));
}

#[test]
fn detaching_turns_handles_into_symbols() {
    let mut tape = tape();
    let weight = tape.parameter(scalar(2.0));
    let bias = tape.leaf(scalar(1.0));
    let sum = weight.add(&mut tape, bias);
    assert_eq!(weight.detach(), weight.symbol());
    assert_eq!(sum.symbol().detach(), sum.symbol());
    let (first, (second, third)) = (weight, (bias, sum.symbol())).detach();
    assert_eq!(first, weight.symbol());
    assert_eq!(second, bias.symbol());
    assert_eq!(third, sum.symbol());
    let kept = vec![sum, weight, bias].detach();
    assert_eq!(kept, vec![sum.symbol(), weight.symbol(), bias.symbol()]);
    assert_eq!(kept[0].index(), 2);
    let (a, b, c, d) = (weight, bias, sum, ()).detach();
    assert_eq!((a.index(), b.index(), c.index(), d), (0, 1, 2, ()));
    assert_eq!(Vec::<Value>::new().detach(), Vec::<Symbol>::new());
}

#[test]
fn expressing_each_computed_opcode_replays_the_recording() {
    let mut tape = tape();
    let a = tape.leaf(zeros(vec![2, 3]));
    let b = tape.parameter(zeros(vec![2, 3]));
    let sum = a.add(&mut tape, b);
    let reduced = sum.sum_along(&mut tape, 1);
    let column = reduced.reshape(&mut tape, Shape::new(vec![2, 1]));
    let spread = column.broadcast_along(&mut tape, 2, 4);
    let moved = spread.permute(&mut tape, vec![2, 0, 1]);
    let padded = moved.pad(&mut tape, 0, 1, 6);
    let windows = tape.record_node(Op::unfold(0, 2, 2, 1), &[padded.id()]);
    let recorded = tape.len();

    // Replay onto a fresh tape: sources are supplied, every computed
    // opcode is expressed over its operands' replays.
    let mut replay: Tape<f64> = Tape::new(Origin::from_token(12));
    let mut values: Vec<Value> = Vec::new();
    for index in 0..recorded {
        let original = tape.resolve(Symbol::new(Origin::from_token(11), ValueId(index)));
        let opcode = tape.opcode(original);
        let value = if opcode.is_source() {
            replay.leaf(zeros(shape_of(&tape, original)))
        } else {
            let operands: Vec<Value> = tape.operands(original).iter().map(|id| values[id.index()]).collect();
            opcode.express(&mut replay, &operands)
        };
        assert_eq!(shape_of(&replay, value), shape_of(&tape, original));
        assert_eq!(replay.operands(value), tape.operands(original));
        values.push(value);
    }
    assert_eq!(replay.len(), recorded);
    assert_eq!(shape_of(&replay, values[windows.id().index()]), vec![3, 2, 2, 1]);
    assert!(matches!(replay.opcode(values[moved.id().index()]), Opcode::Permute { order } if order == &vec![2, 0, 1]));
    assert!(matches!(replay.opcode(values[padded.id().index()]), Opcode::Pad { axis: 0, start: 1, full_extent: 6 }));
}

fn opcode_at(tape: &Tape<f64>, index: usize) -> &Opcode {
    tape.opcode(tape.resolve(Symbol::new(tape.origin(), ValueId(index))))
}

fn operands_at(tape: &Tape<f64>, index: usize) -> Vec<usize> {
    tape.operands(tape.resolve(Symbol::new(tape.origin(), ValueId(index)))).iter().map(|id| id.index()).collect()
}

#[test]
fn concat_places_each_operand_in_its_own_window() {
    let mut tape = tape();
    let a = tape.leaf(Tensor::new(Shape::new(vec![2, 1]), vec![1.0, 2.0]));
    let b = tape.leaf(Tensor::new(Shape::new(vec![2, 2]), vec![3.0, 4.0, 5.0, 6.0]));
    let joined = topos::graph::composite::concat(&mut tape, &[a, b], 1);
    assert_eq!(shape_of(&tape, joined), vec![2, 3]);
    assert!(matches!(opcode_at(&tape, 2), Opcode::Pad { axis: 1, start: 0, full_extent: 3 }));
    assert_eq!(operands_at(&tape, 2), vec![0]);
    assert!(matches!(opcode_at(&tape, 3), Opcode::Pad { axis: 1, start: 1, full_extent: 3 }));
    assert_eq!(operands_at(&tape, 3), vec![1]);
    assert!(matches!(opcode_at(&tape, 4), Opcode::Add));
    assert_eq!(operands_at(&tape, 4), vec![2, 3]);
}

#[test]
fn stack_puts_each_value_in_its_own_slot() {
    let mut tape = tape();
    let first = tape.leaf(zeros(vec![3]));
    let second = tape.leaf(zeros(vec![3]));
    let third = tape.leaf(zeros(vec![3]));
    let stacked = topos::graph::composite::stack(&mut tape, &[first, second, third], 0);
    assert_eq!(shape_of(&tape, stacked), vec![3, 3]);
    for slot in 0..3 {
        assert!(matches!(opcode_at(&tape, 3 + slot), Opcode::Reshape { shape } if shape.axes() == [1, 3]));
        assert_eq!(operands_at(&tape, 3 + slot), vec![slot]);
    }
    // The lifted values are padded to their slots and summed in order.
    assert!(matches!(opcode_at(&tape, 6), Opcode::Pad { axis: 0, start: 0, full_extent: 3 }));
    assert!(matches!(opcode_at(&tape, 7), Opcode::Pad { axis: 0, start: 1, full_extent: 3 }));
    assert_eq!(operands_at(&tape, 7), vec![4]);
    assert_eq!(operands_at(&tape, 8), vec![6, 7]);
    assert!(matches!(opcode_at(&tape, 9), Opcode::Pad { axis: 0, start: 2, full_extent: 3 }));
    assert_eq!(operands_at(&tape, 9), vec![5]);
    assert_eq!(operands_at(&tape, 10), vec![8, 9]);
    assert_eq!(stacked.id().index(), 10);
}

#[test]
fn broadcast_to_repeats_the_right_aligned_axes() {
    let mut tape = tape();
    let x = tape.leaf(Tensor::new(Shape::new(vec![2, 1]), vec![1.0, 2.0]));
    let spread = x.broadcast_to(&mut tape, Shape::new(vec![2, 2, 3]));
    assert_eq!(shape_of(&tape, spread), vec![2, 2, 3]);
    // Align [2, 1] as [1, 2, 1], then repeat axis 0 to 2 and axis 2 to 3.
    assert!(matches!(opcode_at(&tape, 1), Opcode::Reshape { shape } if shape.axes() == [1, 2, 1]));
    assert!(matches!(opcode_at(&tape, 2), Opcode::Reshape { shape } if shape.axes() == [2, 1]));
    assert!(matches!(opcode_at(&tape, 3), Opcode::BroadcastAlong { axis: 0, extent: 2 }));
    assert!(matches!(opcode_at(&tape, 4), Opcode::Reshape { shape } if shape.axes() == [2, 2]));
    assert!(matches!(opcode_at(&tape, 5), Opcode::BroadcastAlong { axis: 2, extent: 3 }));
    assert_eq!(operands_at(&tape, 5), vec![4]);
    assert_eq!(spread.id().index(), 5);
}

#[test]
fn vjp_records_cotangents_shaped_like_the_operands() {
    let mut tape = tape();
    let left = tape.leaf(zeros(vec![2, 3]));
    let right = tape.leaf(zeros(vec![3, 4]));
    let product = tape.record_node(Op::MatMul(topos::op::matmul::MatMul), &[left.id(), right.id()]);
    let seed = tape.leaf(zeros(vec![2, 4]));
    let before = tape.len();
    let cotangents = Opcode::MatMul.vjp(&mut tape, &[left, right], product, seed);
    assert!(tape.len() > before);
    assert_eq!(cotangents.len(), 2);
    assert_eq!(shape_of(&tape, cotangents[0].unwrap()), vec![2, 3]);
    assert_eq!(shape_of(&tape, cotangents[1].unwrap()), vec![3, 4]);

    // Addition hands the seed to both operands without recording.
    let a = tape.leaf(zeros(vec![2]));
    let b = tape.leaf(zeros(vec![2]));
    let sum = a.add(&mut tape, b);
    let grad = tape.leaf(zeros(vec![2]));
    let recorded = tape.len();
    let passed = Opcode::Add.vjp(&mut tape, &[a, b], sum, grad);
    assert_eq!(passed, vec![Some(grad), Some(grad)]);
    assert_eq!(tape.len(), recorded);

    // A step's operands are data.
    let stepped = tape.record_node(Op::Step(topos::op::step::Step), &[a.id(), b.id()]);
    assert_eq!(Opcode::Step.vjp(&mut tape, &[a, b], stepped, grad), vec![None, None]);

    // A permute's cotangent is the seed permuted back.
    let cube = tape.leaf(zeros(vec![2, 3, 4]));
    let moved = cube.permute(&mut tape, vec![2, 0, 1]);
    let moved_seed = tape.leaf(zeros(vec![4, 2, 3]));
    let back = Opcode::Permute { order: vec![2, 0, 1] }.vjp(&mut tape, &[cube], moved, moved_seed);
    assert_eq!(shape_of(&tape, back[0].unwrap()), vec![2, 3, 4]);
    assert!(matches!(tape.opcode(back[0].unwrap()), Opcode::Permute { order } if order == &vec![1, 2, 0]));

    // A gather routes its seed back by scattering; the selection is data.
    let table = tape.leaf(zeros(vec![5, 3]));
    let selection = tape.leaf(zeros(vec![4, 5]));
    let rows = tape.record_node(Op::Gather(topos::op::gather::Gather), &[table.id(), selection.id()]);
    let row_seed = tape.leaf(zeros(vec![4, 3]));
    let routed = Opcode::Gather.vjp(&mut tape, &[table, selection], rows, row_seed);
    assert_eq!(shape_of(&tape, routed[0].unwrap()), vec![5, 3]);
    assert!(routed[1].is_none());
}

#[test]
fn differentiate_records_gradients_shaped_like_each_entry() {
    let mut tape = tape();
    let weight = tape.parameter(zeros(vec![2, 3]));
    let input = tape.input(zeros(vec![2, 3]));
    let unused = tape.parameter(zeros(vec![4]));
    let product = weight.mul(&mut tape, input);
    let loss = tape.record_node(Op::Sum(topos::op::op::Sum), &[product.id()]);
    let recorded = tape.len();
    let adjoints = tape.differentiate(loss.symbol(), vec![weight.symbol(), unused.symbol(), loss.symbol()]);
    assert_eq!(adjoints.target, loss.symbol());
    assert_eq!(adjoints.pairs.len(), 3);
    assert_eq!(adjoints.pairs[0].0, weight.symbol());
    let weight_gradient = tape.resolve(adjoints.pairs[0].1);
    assert_eq!(shape_of(&tape, weight_gradient), vec![2, 3]);
    assert!(weight_gradient.id().index() >= recorded);
    // The unused parameter is no ancestor: a fresh recorded zero.
    let unused_gradient = tape.resolve(adjoints.pairs[1].1);
    assert_eq!(shape_of(&tape, unused_gradient), vec![4]);
    assert!(matches!(tape.opcode(unused_gradient), Opcode::Leaf));
    // The loss's own gradient is the counted-one seed.
    let seed = tape.resolve(adjoints.pairs[2].1);
    assert!(matches!(tape.opcode(seed), Opcode::Leaf));
    assert_eq!(shape_of(&tape, seed), Vec::<usize>::new());
}

#[test]
fn vjp_accumulates_a_shared_operand_onto_a_zero() {
    let mut tape = tape();
    let x = tape.parameter(zeros(vec![3]));
    let doubled = x.add(&mut tape, x);
    let seed = tape.leaf(zeros(vec![3]));
    let before = tape.len();
    let adjoints = tape.vjp(doubled.symbol(), seed.symbol(), vec![x.symbol()]);
    // Two contributions, each added onto the running sum seeded by a zero.
    let gradient = tape.resolve(adjoints.pairs[0].1);
    assert!(matches!(tape.opcode(gradient), Opcode::Add));
    assert_eq!(shape_of(&tape, gradient), vec![3]);
    let first = tape.resolve(Symbol::new(tape.origin(), ValueId(before)));
    assert!(matches!(tape.opcode(first), Opcode::Leaf));
    assert_eq!(tape.len(), before + 3);
}

#[test]
fn payload_literals_mix_into_expressions() {
    let mut tape = tape();
    let x = tape.leaf(scalar(3.0));

    let two = tape.leaf(scalar(2.0));
    let scaled = two.mul(&mut tape, x);
    let one = tape.leaf(scalar(1.0));
    let _y = scaled.add(&mut tape, one);
    let six = tape.leaf(scalar(6.0));
    let _z = six.div(&mut tape, x);

    // Every literal appearance records its own leaf: x, 2, the product,
    // 1, the sum, 6, and the quotient.
    assert_eq!(tape.len(), 7);
}

#[test]
fn maximum_vjp_routes_the_seed_by_the_left_biased_step() {
    let mut tape = tape();
    let left = tape.leaf(zeros(vec![3]));
    let right = tape.leaf(zeros(vec![3]));
    let out = left.maximum(&mut tape, right);
    let seed = tape.leaf(zeros(vec![3]));
    let cotangents = Opcode::Maximum.vjp(&mut tape, &[left, right], out, seed);
    let winners_side = cotangents[0].unwrap();
    let losers_side = cotangents[1].unwrap();
    // The left operand receives the seed times the step indicator.
    assert!(matches!(tape.opcode(winners_side), Opcode::Mul));
    let reads = operands_at(&tape, winners_side.id().index());
    assert_eq!(reads[0], seed.id().index());
    assert!(matches!(opcode_at(&tape, reads[1]), Opcode::Step));
    assert_eq!(operands_at(&tape, reads[1]), vec![left.id().index(), right.id().index()]);
    // The right operand receives the seed times one minus that indicator.
    assert!(matches!(tape.opcode(losers_side), Opcode::Mul));
    let reads = operands_at(&tape, losers_side.id().index());
    assert_eq!(reads[0], seed.id().index());
    assert!(matches!(opcode_at(&tape, reads[1]), Opcode::Sub));
    let complement = operands_at(&tape, reads[1]);
    assert!(matches!(opcode_at(&tape, complement[0]), Opcode::Leaf));
    assert!(matches!(opcode_at(&tape, complement[1]), Opcode::Step));
    assert_eq!(operands_at(&tape, complement[1]), vec![left.id().index(), right.id().index()]);
}

#[test]
fn quotient_vjp_records_both_cotangents() {
    let mut tape = tape();
    let numerator = tape.leaf(zeros(vec![2]));
    let divisor = tape.leaf(zeros(vec![2]));
    let quotient = numerator.div(&mut tape, divisor);
    let seed = tape.leaf(zeros(vec![2]));
    let cotangents = Opcode::Div.vjp(&mut tape, &[numerator, divisor], quotient, seed);
    // The numerator receives the seed over the divisor.
    let first = cotangents[0].unwrap();
    assert!(matches!(tape.opcode(first), Opcode::Div));
    assert_eq!(operands_at(&tape, first.id().index()), vec![seed.id().index(), divisor.id().index()]);
    // The divisor receives minus the seed times the quotient over the divisor.
    let second = cotangents[1].unwrap();
    assert!(matches!(tape.opcode(second), Opcode::Neg));
    let over = operands_at(&tape, second.id().index())[0];
    assert!(matches!(opcode_at(&tape, over), Opcode::Div));
    let reads = operands_at(&tape, over);
    assert_eq!(reads[1], divisor.id().index());
    assert!(matches!(opcode_at(&tape, reads[0]), Opcode::Mul));
    assert_eq!(operands_at(&tape, reads[0]), vec![seed.id().index(), quotient.id().index()]);
}

#[test]
fn sum_vjp_broadcasts_the_seed_to_the_operand_shape() {
    let mut tape = tape();
    let x = tape.leaf(zeros(vec![2, 3]));
    let total = tape.record_node(Op::Sum(topos::op::op::Sum), &[x.id()]);
    let seed = tape.leaf(zeros(vec![]));
    let cotangents = Opcode::Sum.vjp(&mut tape, &[x], total, seed);
    let spread = cotangents[0].unwrap();
    assert!(matches!(tape.opcode(spread), Opcode::Broadcast { .. }));
    assert_eq!(operands_at(&tape, spread.id().index()), vec![seed.id().index()]);
    assert_eq!(shape_of(&tape, spread), vec![2, 3]);
}

#[test]
fn vjp_chains_each_contribution_onto_the_running_sum() {
    let mut tape = tape();
    let x = tape.parameter(zeros(vec![3]));
    let doubled = x.add(&mut tape, x);
    let seed = tape.leaf(zeros(vec![3]));
    let before = tape.len();
    let adjoints = tape.vjp(doubled.symbol(), seed.symbol(), vec![x.symbol(), doubled.symbol()]);
    // zero, zero + seed, (zero + seed) + seed
    let gradient = tape.resolve(adjoints.pairs[0].1);
    let outer = operands_at(&tape, gradient.id().index());
    assert_eq!(outer[1], seed.id().index());
    assert!(matches!(opcode_at(&tape, outer[0]), Opcode::Add));
    let inner = operands_at(&tape, outer[0]);
    assert_eq!(inner, vec![before, seed.id().index()]);
    assert!(matches!(opcode_at(&tape, before), Opcode::Leaf));
    // The target's own gradient is the seed.
    assert_eq!(adjoints.pairs[1].1, seed.symbol());
}

#[test]
fn differentiate_seeds_with_a_literal_appended_first() {
    let mut tape = tape();
    let weight = tape.parameter(zeros(vec![2]));
    let loss = tape.record_node(Op::Sum(topos::op::op::Sum), &[weight.id()]);
    let recorded = tape.len();
    let adjoints = tape.differentiate(loss.symbol(), vec![loss.symbol(), weight.symbol()]);
    assert_eq!(adjoints.pairs[0].1.id, ValueId(recorded));
    assert!(matches!(opcode_at(&tape, recorded), Opcode::Leaf));
    // The weight's gradient sums the broadcast seed onto a zero.
    let gradient = tape.resolve(adjoints.pairs[1].1);
    let reads = operands_at(&tape, gradient.id().index());
    assert!(matches!(opcode_at(&tape, reads[0]), Opcode::Leaf));
    assert!(matches!(opcode_at(&tape, reads[1]), Opcode::Broadcast { .. }));
    assert_eq!(operands_at(&tape, reads[1]), vec![recorded]);
}

#[test]
fn softplus_exponentiates_minus_the_magnitude() {
    let mut tape = tape();
    let x = tape.leaf(zeros(vec![4]));
    let n = tape.len();
    let out = x.softplus(&mut tape);
    let xi = x.id().index();
    // relu(x): a counted zero and the maximum against it.
    assert!(matches!(opcode_at(&tape, n), Opcode::Leaf));
    assert!(operands_at(&tape, n).is_empty());
    assert!(matches!(opcode_at(&tape, n + 1), Opcode::Maximum));
    assert_eq!(operands_at(&tape, n + 1), vec![xi, n]);
    // |x| = maximum(x, -x).
    assert!(matches!(opcode_at(&tape, n + 2), Opcode::Neg));
    assert_eq!(operands_at(&tape, n + 2), vec![xi]);
    assert!(matches!(opcode_at(&tape, n + 3), Opcode::Maximum));
    assert_eq!(operands_at(&tape, n + 3), vec![xi, n + 2]);
    // log1p(exp(-|x|)) added to relu(x).
    assert!(matches!(opcode_at(&tape, n + 4), Opcode::Neg));
    assert_eq!(operands_at(&tape, n + 4), vec![n + 3]);
    assert!(matches!(opcode_at(&tape, n + 5), Opcode::ElementMap { operation: MapOperation::Exp }));
    assert!(matches!(opcode_at(&tape, n + 6), Opcode::ElementMap { operation: MapOperation::Log1p }));
    assert_eq!(operands_at(&tape, out.id().index()), vec![n + 1, n + 6]);
}

#[test]
fn a_gradient_can_be_differentiated_again() {
    let mut tape = tape();
    let weight = tape.parameter(zeros(vec![2]));
    let squared = weight.mul(&mut tape, weight);
    let loss = tape.record_node(Op::Sum(topos::op::op::Sum), &[squared.id()]);
    let first = tape.differentiate(loss.symbol(), vec![weight.symbol()]);
    let gradient = tape.resolve(first.pairs[0].1);
    assert_eq!(shape_of(&tape, gradient), vec![2]);
    let total = tape.record_node(Op::Sum(topos::op::op::Sum), &[gradient.id()]);
    let recorded = tape.len();
    let second = tape.differentiate(total.symbol(), vec![weight.symbol()]);
    let curvature = tape.resolve(second.pairs[0].1);
    assert_eq!(shape_of(&tape, curvature), vec![2]);
    assert!(curvature.id().index() >= recorded);
}

#[test]
fn a_broadcast_to_an_empty_shape_can_be_differentiated() {
    let mut tape = tape();
    let x = tape.leaf(scalar(1.0));
    let spread = x.broadcast(&mut tape, Shape::new(vec![0]));
    let loss = tape.record_node(Op::Sum(topos::op::op::Sum), &[spread.id()]);
    let adjoints = tape.differentiate(loss.symbol(), vec![x.symbol()]);
    let gradient = tape.resolve(adjoints.pairs[0].1);
    assert_eq!(shape_of(&tape, gradient), Vec::<usize>::new());
    assert!(matches!(tape.opcode(gradient), Opcode::Add));
}
