use topos::op::broadcast::Broadcast;
use topos::op::broadcast_along::BroadcastAlong;
use topos::op::fold::Fold;
use topos::op::gather::Gather;
use topos::op::input::Input;
use topos::op::log_softmax::LogSoftmax;
use topos::op::log_sum_exp::LogSumExp;
use topos::op::map::{ElementMap, MapOperation};
use topos::op::matmul::MatMul;
use topos::op::maximum::Maximum;
use topos::op::mul::Mul;
use topos::op::op::{Add, Div, Leaf, Narrow, Neg, Op, Pad, Scatter, Sum, SumAlong};
use topos::op::parameter::Parameter;
use topos::op::permute::Permute;
use topos::op::powf::Powf;
use topos::op::reshape::Reshape;
use topos::op::slot::SlotId;
use topos::op::step::Step;
use topos::op::sub::Sub;
use topos::op::unfold::Unfold;
use topos::graph::opcode::Opcode;
use topos::shape::Shape;
use topos::tensor::Tensor;

/// One instance of every variant, so the check below stays exhaustive.
fn every_op() -> Vec<Op<Tensor<f64>>> {
    vec![
        Op::Leaf(Leaf(Tensor::new(Shape::scalar(), vec![1.0]))),
        Op::Parameter(Parameter(SlotId::new(0))),
        Op::Input(Input(SlotId::new(0))),
        Op::Add(Add),
        Op::Sub(Sub),
        Op::Mul(Mul),
        Op::Div(Div),
        Op::Neg(Neg),
        Op::ElementMap(ElementMap { op: MapOperation::Exp }),
        Op::Powf(Powf),
        Op::Maximum(Maximum),
        Op::Step(Step),
        Op::MatMul(MatMul),
        Op::Sum(Sum),
        Op::SumAlong(SumAlong { axis: 0 }),
        Op::Broadcast(Broadcast { shape: Shape::new(vec![2, 2]) }),
        Op::BroadcastAlong(BroadcastAlong { axis: 0, extent: 2 }),
        Op::Reshape(Reshape { shape: Shape::new(vec![4]) }),
        Op::Permute(Permute::new(vec![1, 0])),
        Op::Narrow(Narrow { axis: 0, start: 0, len: 1 }),
        Op::Pad(Pad { axis: 0, start: 0, full_extent: 2 }),
        Op::Unfold(Unfold { axis: 0, size: 1, step: 1, dilation: 1 }),
        Op::Fold(Fold { axis: 0, size: 1, step: 1, dilation: 1, extent: 1 }),
        Op::Gather(Gather),
        Op::Scatter(Scatter),
        Op::LogSoftmax(LogSoftmax { axis: 0 }),
        Op::LogSumExp(LogSumExp { axis: 0 }),
    ]
}

#[test]
fn the_two_arity_tables_agree() {
    // `Op::arity` and `Opcode::arity` are kept side by side; this weld
    // catches a wrong count. `is_source` rides along: exactly the
    // arity-0 variants are supplied rather than computed.
    for op in every_op() {
        let opcode = op.opcode();
        assert_eq!(op.arity(), opcode.arity(), "{:?}", opcode);
        assert_eq!(opcode.is_source(), op.arity() == 0, "{:?}", opcode);
    }
}

#[test]
fn opcode_snapshots_carry_the_parameters() {
    let narrow: Op<Tensor<f64>> = Op::narrow(1, 2, 3);
    assert!(matches!(narrow.opcode(), Opcode::Narrow { axis: 1, start: 2, len: 3 }));
    let permute: Op<Tensor<f64>> = Op::permute(vec![2, 0, 1]);
    match permute.opcode() {
        Opcode::Permute { order } => assert_eq!(order, vec![2, 0, 1]),
        other => panic!("unexpected opcode {:?}", other),
    }
    let reshape: Op<Tensor<f64>> = Op::reshape(Shape::new(vec![6]));
    match reshape.opcode() {
        Opcode::Reshape { shape } => assert_eq!(shape, Shape::new(vec![6])),
        other => panic!("unexpected opcode {:?}", other),
    }
    let map: Op<Tensor<f64>> = Op::map(MapOperation::Tanh);
    assert!(matches!(map.opcode(), Opcode::ElementMap { operation: MapOperation::Tanh }));
    assert!(matches!(Op::<Tensor<f64>>::fold(0, 2, 1, 1, 4).opcode(), Opcode::Fold { axis: 0, size: 2, step: 1, dilation: 1, extent: 4 }));
    assert_eq!(Op::<Tensor<f64>>::leaf(Tensor::new(Shape::scalar(), vec![1.0])).arity(), 0);
}

#[test]
fn infer_shape_dispatches_to_each_rule() {
    let matrix = Shape::new(vec![2, 3]);
    let narrow: Op<Tensor<f64>> = Op::narrow(1, 1, 2);
    assert_eq!(narrow.infer_shape(&[matrix.clone()]), Shape::new(vec![2, 2]));
    let pad: Op<Tensor<f64>> = Op::pad(0, 1, 4);
    assert_eq!(pad.infer_shape(&[matrix.clone()]), Shape::new(vec![4, 3]));
    let permute: Op<Tensor<f64>> = Op::permute(vec![1, 0]);
    assert_eq!(permute.infer_shape(&[matrix.clone()]), Shape::new(vec![3, 2]));
    let sum_along: Op<Tensor<f64>> = Op::sum_along(0);
    assert_eq!(sum_along.infer_shape(&[matrix.clone()]), Shape::new(vec![3]));
    let sum: Op<Tensor<f64>> = Op::Sum(Sum);
    assert_eq!(sum.infer_shape(&[matrix.clone()]), Shape::scalar());
    let add: Op<Tensor<f64>> = Op::Add(Add);
    assert_eq!(add.infer_shape(&[matrix.clone(), matrix.clone()]), matrix);
    let scatter: Op<Tensor<f64>> = Op::Scatter(Scatter);
    let gradient = Shape::new(vec![2, 5]);
    let selection = Shape::new(vec![2, 7]);
    assert_eq!(scatter.infer_shape(&[gradient, selection]), Shape::new(vec![7, 5]));
    let unfold: Op<Tensor<f64>> = Op::unfold(1, 2, 1, 1);
    assert_eq!(unfold.infer_shape(&[matrix.clone()]), Shape::new(vec![2, 2, 2]));
    let leaf: Op<Tensor<f64>> = Op::leaf(Tensor::new(Shape::new(vec![4]), vec![1.0, 2.0, 3.0, 4.0]));
    assert_eq!(leaf.infer_shape(&[]), Shape::new(vec![4]));
}

#[test]
fn read_contracts_fit_the_liveness_width() {
    // Liveness indexes `Reads::operands` by operand position, so its
    // width is the vocabulary's maximum arity and no rule declares a read
    // past its own arity.
    for op in every_op() {
        let reads = op.reads();
        assert!(op.arity() <= reads.operands.len(), "{:?}", op.opcode());
        for position in op.arity()..reads.operands.len() {
            assert!(!reads.operands[position], "{:?} reads past its arity", op.opcode());
        }
    }
}

#[test]
fn read_contracts_name_what_each_rule_reads() {
    let quotient: Op<Tensor<f64>> = Op::Div(topos::op::op::Div);
    let reads = quotient.reads();
    assert_eq!((reads.operands, reads.output), ([false, true], true));
    let scattered: Op<Tensor<f64>> = Op::Scatter(topos::op::op::Scatter);
    let reads = scattered.reads();
    assert_eq!((reads.operands, reads.output), ([false, true], false));
    let summed: Op<Tensor<f64>> = Op::Add(topos::op::op::Add);
    let reads = summed.reads();
    assert_eq!((reads.operands, reads.output), ([false, false], false));
}
