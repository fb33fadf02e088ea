use topos::engine::batch_norm::{match_inference, match_training};
use topos::engine::catalog::{Candidates, Catalog};
use topos::engine::discover::discover;
use topos::engine::pattern::{BatchNormalization, Pattern, ReduceWindow, WindowProduct};
use topos::engine::reduce_window;
use topos::engine::view::PlanView;
use topos::engine::window;
use topos::graph::origin::Origin;
use topos::graph::symbol::Symbol;
use topos::graph::ValueId;
use topos::graph::tape::{Tape, Value};
use topos::op::map::MapOperation;
use topos::op::matmul::MatMul;
use topos::op::op::Op;
use topos::op::sub::Sub;
use topos::shape::Shape;
use topos::tensor::Tensor;

fn zeros(axes: Vec<usize>) -> Tensor<f64> {
    Tensor::filled(Shape::new(axes), 0.0)
}

fn record(tape: &mut Tape<f64>, op: Op<Tensor<f64>>, operands: &[Value]) -> Value {
    let ids: Vec<_> = operands.iter().map(|value| value.id()).collect();
    tape.record_node(op, &ids)
}

/// The im2col chain of a 2x2, stride-2, padding-1 convolution of a
/// `[1, 2, 4, 4]` input into two filters; returns the tape and the
/// `matmul` node.
fn conv_tape() -> (Tape<f64>, usize, usize, usize) {
    let mut tape = Tape::new(Origin::from_token(3));
    let input = tape.leaf(zeros(vec![1, 2, 4, 4]));
    let kernel = tape.leaf(zeros(vec![8, 2]));
    let padded_h = input.pad(&mut tape, 2, 1, 6);
    let padded = padded_h.pad(&mut tape, 3, 1, 6);
    let rows = record(&mut tape, Op::unfold(2, 2, 2, 1), &[padded]);
    let windows = record(&mut tape, Op::unfold(4, 2, 2, 1), &[rows]);
    let lanes = windows.permute(&mut tape, vec![0, 2, 4, 1, 3, 5]);
    let patches = lanes.reshape(&mut tape, Shape::new(vec![9, 8]));
    let product = record(&mut tape, Op::MatMul(MatMul), &[patches, kernel]);
    (tape, product.id().index(), input.id().index(), kernel.id().index())
}

#[test]
fn the_conv_chain_matches_with_its_geometry() {
    let (tape, matmul, input, kernel) = conv_tape();
    let wanted = vec![true; tape.len()];
    let readable = vec![false; tape.len()];
    let view = PlanView::new(&tape, &wanted, &readable);
    let candidate = window::match_at(matmul, &view).expect("the canonical chain matches");
    let group = match candidate.pattern {
        Pattern::WindowProduct(group) => group,
        _ => panic!("the conv chain matches as a window product"),
    };
    assert_eq!(group, WindowProduct { source: input, kernel, kernel_height: 2, kernel_width: 2, stride: 2, padding: 1 });
    assert_eq!(view.shape(group.source).axes(), &[1, 2, 4, 4]);
    assert_eq!(view.shape(group.kernel).axes(), &[8, 2]);
    // The reshape, permute, two unfolds, and two symmetric pads.
    assert_eq!(candidate.interiors.len(), 6);
    assert_eq!(candidate.interiors, vec![7, 6, 5, 4, 3, 2]);
    assert!(candidate.named.is_empty());
    assert_eq!(candidate.root, matmul);
}

#[test]
fn a_kept_interior_bars_the_match() {
    let (tape, matmul, _, _) = conv_tape();
    let patches = 7;
    let wanted = vec![true; tape.len()];
    let mut readable = vec![false; tape.len()];
    readable[patches] = true;
    let view = PlanView::new(&tape, &wanted, &readable);
    assert!(window::match_at(matmul, &view).is_none());
}

#[test]
fn an_unwanted_interior_bars_the_window_match() {
    let (tape, matmul, _, _) = conv_tape();
    let mut wanted = vec![true; tape.len()];
    wanted[6] = false;
    let readable = vec![false; tape.len()];
    let view = PlanView::new(&tape, &wanted, &readable);
    assert!(window::match_at(matmul, &view).is_none());
    assert!(!view.interior_ok(6));
    assert!(view.interior_ok(7));
}

#[test]
fn a_second_consumer_bars_the_window_match() {
    let (mut tape, matmul, _, _) = conv_tape();
    let patches = tape.resolve(Symbol::new(Origin::from_token(3), ValueId(7)));
    let _again = patches.neg(&mut tape);
    let wanted = vec![true; tape.len()];
    let readable = vec![false; tape.len()];
    let view = PlanView::new(&tape, &wanted, &readable);
    assert!(!view.interior_ok(7));
    assert!(window::match_at(matmul, &view).is_none());
}

#[test]
fn an_unpadded_conv_keeps_its_source() {
    let mut tape = Tape::new(Origin::from_token(4));
    let input = tape.leaf(zeros(vec![1, 1, 4, 4]));
    let kernel = tape.leaf(zeros(vec![4, 3]));
    let rows = record(&mut tape, Op::unfold(2, 2, 1, 1), &[input]);
    let windows = record(&mut tape, Op::unfold(4, 2, 1, 1), &[rows]);
    let lanes = windows.permute(&mut tape, vec![0, 2, 4, 1, 3, 5]);
    let patches = lanes.reshape(&mut tape, Shape::new(vec![9, 4]));
    let product = record(&mut tape, Op::MatMul(MatMul), &[patches, kernel]);
    let wanted = vec![true; tape.len()];
    let readable = vec![false; tape.len()];
    let view = PlanView::new(&tape, &wanted, &readable);
    let candidate = window::match_at(product.id().index(), &view).expect("an unpadded chain matches");
    assert_eq!(
        candidate.pattern,
        Pattern::WindowProduct(WindowProduct { source: 0, kernel: 1, kernel_height: 2, kernel_width: 2, stride: 1, padding: 0 })
    );
    assert_eq!(candidate.interiors, vec![5, 4, 3, 2]);
    // A node that is no matmul matches nothing.
    assert!(window::match_at(patches.id().index(), &view).is_none());
}

/// The max-pool fold of a 2x2, stride-2 window over a `[1, 1, 4, 4]`
/// input; `order` gives the lane each fold step reads.
fn pool_tape(order: [usize; 4]) -> (Tape<f64>, usize) {
    let mut tape = Tape::new(Origin::from_token(5));
    let input = tape.leaf(zeros(vec![1, 1, 4, 4]));
    let rows = record(&mut tape, Op::unfold(2, 2, 2, 1), &[input]);
    let windows = record(&mut tape, Op::unfold(4, 2, 2, 1), &[rows]);
    let permuted = windows.permute(&mut tape, vec![0, 1, 2, 4, 3, 5]);
    let lanes = permuted.reshape(&mut tape, Shape::new(vec![1, 1, 2, 2, 4]));
    let lane = |tape: &mut Tape<f64>, start: usize| record(tape, Op::narrow(4, start, 1), &[lanes]);
    let mut folded = lane(&mut tape, order[0]);
    for &start in &order[1..] {
        let next = lane(&mut tape, start);
        folded = folded.maximum(&mut tape, next);
    }
    let squeezed = folded.reshape(&mut tape, Shape::new(vec![1, 1, 2, 2]));
    (tape, squeezed.id().index())
}

#[test]
fn the_pool_fold_matches_as_a_window_reduction() {
    let (tape, root) = pool_tape([0, 1, 2, 3]);
    let wanted = vec![true; tape.len()];
    let readable = vec![false; tape.len()];
    let view = PlanView::new(&tape, &wanted, &readable);
    let candidate = reduce_window::match_at(root, &view).expect("the canonical fold matches");
    assert_eq!(candidate.pattern, Pattern::ReduceWindow(ReduceWindow { source: 0, size: 2, stride: 2 }));
    assert_eq!(candidate.root, root);
    // The fold top-down with its right-hand lanes, the lane-0 narrow,
    // then the lanes head.
    assert_eq!(candidate.interiors, vec![11, 10, 9, 8, 7, 6, 5, 4, 3, 2, 1]);
    assert!(candidate.named.is_empty());
}

#[test]
fn a_permuted_lane_order_is_not_a_window_reduction() {
    let (tape, root) = pool_tape([1, 0, 2, 3]);
    let wanted = vec![true; tape.len()];
    let readable = vec![false; tape.len()];
    let view = PlanView::new(&tape, &wanted, &readable);
    assert!(reduce_window::match_at(root, &view).is_none());
}

/// Records batch normalization over a `[4, 3]` input; `training` takes
/// the statistics from the batch, otherwise they are supplied leaves.
fn norm_tape(training: bool) -> (Tape<f64>, Value, BatchNormalization) {
    let mut tape = Tape::new(Origin::from_token(6));
    let input = tape.leaf(zeros(vec![4, 3]));
    let (mean, supplied_variance) = if training {
        (input.mean_along(&mut tape, 0), None)
    } else {
        (tape.leaf(zeros(vec![3])), Some(tape.leaf(zeros(vec![3]))))
    };
    let spread_mean = mean.broadcast_along(&mut tape, 0, 4);
    let centered = record(&mut tape, Op::Sub(Sub), &[input, spread_mean]);
    let variance = match supplied_variance {
        Some(variance) => variance,
        None => {
            let squared = centered.mul(&mut tape, centered);
            squared.mean_along(&mut tape, 0)
        },
    };
    let epsilon = tape.leaf(Tensor::filled(Shape::scalar(), 1e-5));
    let spread_epsilon = epsilon.broadcast(&mut tape, Shape::new(vec![3]));
    let shifted_variance = variance.add(&mut tape, spread_epsilon);
    let deviation = shifted_variance.map(&mut tape, MapOperation::Sqrt);
    let spread_deviation = deviation.broadcast_along(&mut tape, 0, 4);
    let normalized = centered.div(&mut tape, spread_deviation);
    let scale = tape.leaf(zeros(vec![3]));
    let spread_scale = scale.broadcast_along(&mut tape, 0, 4);
    let scaled = normalized.mul(&mut tape, spread_scale);
    let shift = tape.leaf(zeros(vec![3]));
    let spread_shift = shift.broadcast_along(&mut tape, 0, 4);
    let out = scaled.add(&mut tape, spread_shift);
    let group = BatchNormalization {
        input: input.id().index(),
        scale: scale.id().index(),
        shift: shift.id().index(),
        epsilon: epsilon.id().index(),
        mean: mean.id().index(),
        variance: variance.id().index(),
    };
    (tape, out, group)
}

#[test]
fn training_normalization_names_its_statistics() {
    let (tape, out, group) = norm_tape(true);
    let wanted = vec![true; tape.len()];
    let readable = vec![false; tape.len()];
    let view = PlanView::new(&tape, &wanted, &readable);
    let candidate = match_training(out.id().index(), &view).expect("the training diamond matches");
    assert_eq!(candidate.pattern, Pattern::BatchNormTraining(group));
    assert_eq!(candidate.named, vec![group.mean, group.variance]);
    // Ten tail nodes, then both reductions' sums and counts and the square.
    assert_eq!(candidate.interiors.len(), 15);
    assert_eq!(candidate.interiors[10..], [1, 2, 6, 7, 8]);
    // The tail alone reads as the inference form too.
    let inference = match_inference(out.id().index(), &view).expect("the tail matches");
    assert_eq!(inference.pattern, Pattern::BatchNormInference(group));
    assert_eq!(inference.interiors[..], candidate.interiors[..10]);
    assert!(inference.named.is_empty());
}

#[test]
fn supplied_statistics_match_only_the_inference_form() {
    let (tape, out, group) = norm_tape(false);
    let wanted = vec![true; tape.len()];
    let readable = vec![false; tape.len()];
    let view = PlanView::new(&tape, &wanted, &readable);
    assert!(match_training(out.id().index(), &view).is_none());
    let candidate = match_inference(out.id().index(), &view).expect("the tail matches");
    assert_eq!(candidate.pattern, Pattern::BatchNormInference(group));
    assert_eq!(candidate.interiors.len(), 10);
    assert!(candidate.named.is_empty());
    // Anything but the trailing shift is no root.
    assert!(match_inference(out.id().index() - 1, &view).is_none());
}

/// Records the unpadded, stride-1 im2col convolution of the `[1, 1, 4, 4]`
/// value `input` with two 2x2 filters, and returns the `matmul` node.
fn conv(tape: &mut Tape<f64>, input: Value) -> Value {
    let kernel = tape.leaf(zeros(vec![4, 2]));
    let rows = record(tape, Op::unfold(2, 2, 1, 1), &[input]);
    let windows = record(tape, Op::unfold(4, 2, 1, 1), &[rows]);
    let lanes = windows.permute(tape, vec![0, 2, 4, 1, 3, 5]);
    let patches = lanes.reshape(tape, Shape::new(vec![9, 4]));
    record(tape, Op::MatMul(MatMul), &[patches, kernel])
}

/// Records `count` convolutions; `shared` routes every one of them through
/// one input value, so their chains share a source.
fn conv_network(count: usize, shared: bool) -> Tape<f64> {
    let mut tape = Tape::new(Origin::from_token(8));
    let shared_input = tape.leaf(zeros(vec![1, 1, 4, 4]));
    for _ in 0..count {
        let input = if shared { shared_input } else { tape.leaf(zeros(vec![1, 1, 4, 4])) };
        let _output = conv(&mut tape, input);
    }
    tape
}

/// Discovers the pool over the whole recording with every node wanted and
/// none readable.
fn discover_all(tape: &Tape<f64>) -> Candidates {
    let wanted = vec![true; tape.len()];
    let readable = vec![false; tape.len()];
    let view = PlanView::new(tape, &wanted, &readable);
    discover(&view)
}

#[test]
fn an_empty_repertoire_elects_nothing() {
    // Discovery pools the conv candidate regardless of who will act; a
    // consumer that supports nothing claims nothing and skips nothing.
    let tape = conv_network(1, false);
    let length = tape.len();
    let candidates = discover_all(&tape);
    assert_eq!(candidates.candidates().len(), 1);
    let catalog = Catalog::elect(&candidates, |_| false);
    assert_eq!(catalog.groups(), 0);
    assert!((0..length).all(|index| !catalog.interior(index)));
}

#[test]
fn disjoint_groups_all_claim() {
    let tape = conv_network(2, false);
    let catalog = Catalog::elect(&discover_all(&tape), |_| true);
    assert_eq!(catalog.groups(), 2);
}

#[test]
fn a_shared_source_feeds_two_groups() {
    // Extra reads are not claimed: two convolutions over one input both
    // match, the source being an argument of each fused call rather than
    // anyone's private interior.
    let tape = conv_network(2, true);
    let catalog = Catalog::elect(&discover_all(&tape), |_| true);
    assert_eq!(catalog.groups(), 2);
    assert!(!catalog.interior(0));
}

#[test]
fn a_repertoire_selects_among_candidates() {
    // One recording holding a conv and a pool: a consumer that supports
    // only window reductions elects the pool and leaves the conv region to
    // its primitives, while a total repertoire elects both from the same
    // pool.
    let mut tape = Tape::new(Origin::from_token(9));
    let input = tape.leaf(zeros(vec![1, 1, 4, 4]));
    let product = conv(&mut tape, input);
    let matmul = product.id().index();
    let patches = matmul - 2;
    let image = product.reshape(&mut tape, Shape::new(vec![1, 3, 3, 2]));
    let channels = image.permute(&mut tape, vec![0, 3, 1, 2]);
    let rows = record(&mut tape, Op::unfold(2, 2, 1, 1), &[channels]);
    let windows = record(&mut tape, Op::unfold(4, 2, 1, 1), &[rows]);
    let permuted = windows.permute(&mut tape, vec![0, 1, 2, 4, 3, 5]);
    let lanes = permuted.reshape(&mut tape, Shape::new(vec![1, 2, 2, 2, 4]));
    let mut folded = record(&mut tape, Op::narrow(4, 0, 1), &[lanes]);
    for start in 1..4 {
        let next = record(&mut tape, Op::narrow(4, start, 1), &[lanes]);
        folded = folded.maximum(&mut tape, next);
    }
    let pooled = folded.reshape(&mut tape, Shape::new(vec![1, 2, 2, 2]));
    let pool_root = pooled.id().index();

    let candidates = discover_all(&tape);
    let total = Catalog::elect(&candidates, |_| true);
    assert_eq!(total.groups(), 2);
    assert!(total.at(matmul).is_some());
    assert!(total.at(pool_root).is_some());
    assert!(total.interior(patches));

    let pools_only = Catalog::elect(&candidates, |pattern| matches!(pattern, Pattern::ReduceWindow(_)));
    assert_eq!(pools_only.groups(), 1);
    assert!(pools_only.at(matmul).is_none());
    assert!(pools_only.at(pool_root).is_some());
    // The unsupported conv candidate did not claim: its chain is not in
    // the selective consumer's skip mask.
    assert!(!pools_only.interior(patches));
}

#[test]
fn discovery_pools_groups_in_node_then_catalog_order() {
    let (tape, out, _) = norm_tape(true);
    let candidates = discover_all(&tape);
    // The training diamond also reads as the inference form at the same
    // root; training comes first.
    let found: Vec<(usize, bool)> = candidates
        .candidates()
        .iter()
        .map(|candidate| (candidate.root, matches!(candidate.pattern, Pattern::BatchNormTraining(_))))
        .collect();
    assert_eq!(found, vec![(out.id().index(), true), (out.id().index(), false)]);
    let catalog = Catalog::elect(&candidates, |_| true);
    assert_eq!(catalog.groups(), 1);
    assert!(matches!(catalog.at(out.id().index()), Some(Pattern::BatchNormTraining(_))));
}
