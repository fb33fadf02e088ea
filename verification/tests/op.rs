use topos::op::broadcast::Broadcast;
use topos::op::broadcast_along::BroadcastAlong;
use topos::op::fold::Fold;
use topos::op::gather::Gather;
use topos::op::log_softmax::LogSoftmax;
use topos::op::log_sum_exp::LogSumExp;
use topos::op::map::{ElementMap, MapOperation};
use topos::op::matmul::{swapped_order, MatMul};
use topos::op::maximum::Maximum;
use topos::op::mul::Mul;
use topos::op::permute::Permute;
use topos::op::powf::Powf;
use topos::op::reshape::Reshape;
use topos::op::slot::SlotId;
use topos::op::step::Step;
use topos::op::sub::Sub;
use topos::op::unfold::Unfold;
use topos::op::Reads;
use topos::shape::Shape;

fn marks(reads: Reads) -> (bool, bool, bool) {
    (reads.operands[0], reads.operands[1], reads.output)
}

#[test]
fn log_softmax_tests_infer_shape_preserves_the_operand_shape() {
    let rule = LogSoftmax { axis: 1 };
    assert_eq!(
        rule.infer_shape(&[Shape::new(vec![4, 27])]),
        Shape::new(vec![4, 27])
    );
}

#[test]
fn infer_shape_removes_the_axis() {
    let rule = LogSumExp { axis: 1 };
    assert_eq!(rule.infer_shape(&[Shape::new(vec![4, 27])]), Shape::new(vec![4]));
}

#[test]
fn step_tests_infer_shape_preserves_the_operand_shape() {
    assert_eq!(
        Step.infer_shape(&[Shape::new(vec![2, 3]), Shape::new(vec![2, 3])]),
        Shape::new(vec![2, 3])
    );
}

#[test]
fn step_declares_no_reads_and_two_operands() {
    assert_eq!(Step.arity(), 2);
    assert_eq!(marks(Step.reads()), (false, false, false));
}

#[test]
fn elementwise_binary_rules_keep_the_shared_shape() {
    let shape = Shape::new(vec![3, 5]);
    let operands = [shape.clone(), shape.clone()];
    assert_eq!(Sub.infer_shape(&operands), shape);
    assert_eq!(Mul.infer_shape(&operands), shape);
    assert_eq!(Powf.infer_shape(&operands), shape);
    assert_eq!(Maximum.infer_shape(&operands), shape);
    assert_eq!(marks(Mul.reads()), (true, true, false));
    assert_eq!(marks(Powf.reads()), (true, true, true));
    assert_eq!(marks(Maximum.reads()), (true, true, false));
}

#[test]
fn matmul_keeps_the_batch_prefix() {
    let shape = MatMul.infer_shape(&[Shape::new(vec![7, 2, 3]), Shape::new(vec![7, 3, 4])]);
    assert_eq!(shape, Shape::new(vec![7, 2, 4]));
    assert_eq!(MatMul.infer_shape(&[Shape::new(vec![2, 3]), Shape::new(vec![3, 5])]), Shape::new(vec![2, 5]));
    assert_eq!(swapped_order(3), vec![0, 2, 1]);
    assert_eq!(swapped_order(2), vec![1, 0]);
}

#[test]
fn log_sum_exp_reads_its_operand_and_output() {
    let rule = LogSumExp { axis: 0 };
    assert_eq!(rule.arity(), 1);
    assert_eq!(marks(rule.reads()), (true, false, true));
    assert_eq!(rule.infer_shape(&[Shape::new(vec![4])]), Shape::scalar());
}

#[test]
fn map_reads_follow_the_transcendental() {
    let exp = ElementMap { op: MapOperation::Exp };
    assert_eq!(marks(exp.reads()), (false, false, true));
    let ln = ElementMap { op: MapOperation::Ln };
    assert_eq!(marks(ln.reads()), (true, false, false));
    let erf_derivative = ElementMap { op: MapOperation::ErfDerivative };
    assert_eq!(marks(erf_derivative.reads()), (true, false, true));
    assert_eq!(exp.infer_shape(&[Shape::new(vec![2, 2])]), Shape::new(vec![2, 2]));
}

#[test]
fn broadcasts_reach_their_targets() {
    let spread = Broadcast { shape: Shape::new(vec![3, 4]) };
    assert_eq!(spread.infer_shape(&[Shape::new(vec![1, 1])]), Shape::new(vec![3, 4]));
    let along = BroadcastAlong { axis: 1, extent: 5 };
    assert_eq!(along.infer_shape(&[Shape::new(vec![2, 3])]), Shape::new(vec![2, 5, 3]));
}

#[test]
fn reshape_keeps_the_volume() {
    let rule = Reshape { shape: Shape::new(vec![6, 2]) };
    assert_eq!(rule.infer_shape(&[Shape::new(vec![3, 4])]), Shape::new(vec![6, 2]));
}

#[test]
fn permute_reorders_and_inverts() {
    let rule = Permute::new(vec![2, 0, 1]);
    assert!(rule.accepts(&Shape::new(vec![2, 3, 4])));
    assert!(!rule.accepts(&Shape::new(vec![2, 3])));
    assert!(!Permute::new(vec![0, 0, 1]).accepts(&Shape::new(vec![2, 3, 4])));
    assert_eq!(rule.infer_shape(&[Shape::new(vec![2, 3, 4])]), Shape::new(vec![4, 2, 3]));
    assert_eq!(rule.inverse(), vec![1, 2, 0]);
    let back = Permute::new(rule.inverse());
    assert_eq!(back.infer_shape(&[Shape::new(vec![4, 2, 3])]), Shape::new(vec![2, 3, 4]));
}

#[test]
fn unfold_and_fold_exchange_an_axis_for_windows() {
    let unfold = Unfold { axis: 1, size: 3, step: 2, dilation: 1 };
    let windows = unfold.infer_shape(&[Shape::new(vec![2, 7])]);
    assert_eq!(windows, Shape::new(vec![2, 3, 3]));
    let fold = Fold { axis: 1, size: 3, step: 2, dilation: 1, extent: 7 };
    assert_eq!(fold.infer_shape(&[windows]), Shape::new(vec![2, 7]));
    let dilated = Unfold { axis: 0, size: 2, step: 1, dilation: 3 };
    assert_eq!(dilated.infer_shape(&[Shape::new(vec![5])]), Shape::new(vec![2, 2]));
}

#[test]
fn gather_picks_table_rows() {
    let shape = Gather.infer_shape(&[Shape::new(vec![10, 4]), Shape::new(vec![3, 10])]);
    assert_eq!(shape, Shape::new(vec![3, 4]));
    assert_eq!(marks(Gather.reads()), (false, true, false));
}

#[test]
fn slot_ids_keep_their_index() {
    assert_eq!(SlotId::new(5).index(), 5);
}

#[test]
fn reads_constructors_mark_exactly_what_they_name() {
    assert_eq!(marks(Reads::nothing()), (false, false, false));
    assert_eq!(marks(Reads::of(true, false, true)), (true, false, true));
}
