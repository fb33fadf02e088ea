use topos::engine::catalog::{Candidate, Candidates, Catalog};
use topos::engine::entry::{Entry, Numerics};
use topos::engine::pattern::{
    BatchNormalization, Formula, Pattern, ReduceWindow, WindowProduct,
};
use topos::graph::origin::Origin;
use topos::graph::symbol::Symbol;
use topos::graph::tape::Tape;
use topos::graph::ValueId;
use topos::shape::Shape;
use topos::tensor::Tensor;

fn symbol(index: usize) -> Symbol {
    Symbol::new(Origin::from_token(7), ValueId(index))
}

#[test]
fn an_entry_opens_forward_only_and_fast() {
    let entry = Entry::roots(vec![symbol(3)]);
    assert_eq!(entry.roots, vec![symbol(3)]);
    assert!(entry.observe.is_empty());
    assert!(!entry.backward);
    assert_eq!(entry.numerics, Numerics::Fast);
}

#[test]
fn observes_accumulate_in_order() {
    let entry = Entry::roots(vec![symbol(9)])
        .observe(vec![symbol(1), symbol(2)])
        .observe(vec![symbol(5)]);
    assert_eq!(entry.observe, vec![symbol(1), symbol(2), symbol(5)]);
    assert_eq!(entry.roots, vec![symbol(9)]);
}

#[test]
fn backward_and_numerics_change_only_their_setting() {
    let entry = Entry::roots(vec![symbol(0)]).backward().numerics(Numerics::Exact);
    assert!(entry.backward);
    assert_eq!(entry.numerics, Numerics::Exact);
    assert_eq!(entry.roots, vec![symbol(0)]);
    assert!(entry.observe.is_empty());
}

fn window(source: usize, kernel: usize) -> Pattern {
    Pattern::WindowProduct(WindowProduct {
        source,
        kernel,
        kernel_height: 2,
        kernel_width: 2,
        stride: 1,
        padding: 0,
    })
}

fn pool(source: usize) -> Pattern {
    Pattern::ReduceWindow(ReduceWindow { source, size: 2, stride: 1 })
}

#[test]
fn patterns_name_their_formula_and_reads() {
    assert_eq!(window(0, 1).formula(), Formula::WindowProduct);
    assert_eq!(pool(0).formula(), Formula::ReduceWindow);
    let normalization = BatchNormalization {
        input: 1,
        scale: 2,
        shift: 3,
        epsilon: 4,
        mean: 5,
        variance: 6,
    };
    assert_eq!(Pattern::BatchNormTraining(normalization).formula(), Formula::BatchNormTraining);
    assert_eq!(Pattern::BatchNormInference(normalization).formula(), Formula::BatchNormInference);
    assert_eq!(normalization.reads(), [1, 2, 3, 4]);
    assert_eq!(WindowProduct { source: 8, kernel: 9, kernel_height: 3, kernel_width: 3, stride: 2, padding: 1 }.reads(), [8, 9]);
    assert_eq!(ReduceWindow { source: 4, size: 2, stride: 2 }.reads(), [4]);
}

/// Two disjoint conv-shaped candidates over nodes 0..5 and 6..11, and a
/// pool rooted at 12 whose chain runs through the second conv's root.
fn pool_of_candidates() -> Candidates {
    let first = Candidate { pattern: window(0, 1), root: 5, interiors: vec![2, 3, 4], named: vec![] };
    let second = Candidate { pattern: window(6, 7), root: 11, interiors: vec![8, 9, 10], named: vec![] };
    let pooled = Candidate { pattern: pool(11), root: 13, interiors: vec![12, 10], named: vec![] };
    Candidates::new(14, vec![first, second, pooled]).expect("every node lies in the plan")
}

#[test]
fn a_candidate_past_the_plan_is_refused() {
    let stray = Candidate { pattern: pool(0), root: 3, interiors: vec![9], named: vec![] };
    assert!(Candidates::new(5, vec![stray]).is_none());
}

#[test]
fn an_empty_repertoire_elects_nothing_from_a_given_pool() {
    let candidates = pool_of_candidates();
    let catalog = Catalog::elect(&candidates, |_| false);
    assert_eq!(catalog.groups(), 0);
    assert!((0..14).all(|index| !catalog.interior(index)));
    assert!(catalog.entries().is_empty());
}

#[test]
fn disjoint_groups_all_claim_and_overlaps_lose_in_a_given_pool() {
    let candidates = pool_of_candidates();
    let catalog = Catalog::elect(&candidates, |_| true);
    // The pool wants node 10, already an interior of the second conv.
    assert_eq!(catalog.groups(), 2);
    assert!(catalog.at(5).is_some());
    assert!(catalog.at(11).is_some());
    assert!(catalog.at(13).is_none());
    assert!(catalog.interior(10));
    assert!(!catalog.interior(12));
    assert!(!catalog.interior(5));
    let roots: Vec<usize> = catalog.entries().iter().map(|entry| entry.0).collect();
    assert_eq!(roots, vec![5, 11]);
}

#[test]
fn a_repertoire_selects_among_given_candidates() {
    let candidates = pool_of_candidates();
    let pools_only = Catalog::elect(&candidates, |pattern| matches!(pattern, Pattern::ReduceWindow(_)));
    // The unsupported convs do not claim, so the pool's region is free.
    assert_eq!(pools_only.groups(), 1);
    assert!(pools_only.at(13).is_some());
    assert!(pools_only.at(5).is_none());
    assert!(pools_only.interior(12));
    assert!(pools_only.interior(10));
    assert!(!pools_only.interior(8));
    assert_eq!(pools_only.entries(), vec![(13, pool(11))]);
}

#[test]
fn named_results_are_claimed_and_replaced() {
    let normalization = BatchNormalization { input: 0, scale: 1, shift: 2, epsilon: 3, mean: 5, variance: 6 };
    let training = Candidate {
        pattern: Pattern::BatchNormTraining(normalization),
        root: 8,
        interiors: vec![4, 7],
        named: vec![5, 6],
    };
    let rival = Candidate { pattern: pool(0), root: 9, interiors: vec![6], named: vec![] };
    let candidates = Candidates::new(10, vec![training, rival]).expect("every node lies in the plan");
    let catalog = Catalog::elect(&candidates, |_| true);
    assert_eq!(catalog.groups(), 1);
    assert!(catalog.interior(5) && catalog.interior(6));
    assert!(catalog.at(9).is_none());
}

#[test]
fn fused_calls_compute_over_the_evaluated_values() {
    let image = Tensor::new(Shape::new(vec![1, 1, 3, 3]), (1..10).collect::<Vec<i64>>());
    let kernel = Tensor::new(Shape::new(vec![4, 1]), vec![1_i64, 1, 1, 1]);
    let values = vec![image, kernel];
    let product = WindowProduct { source: 0, kernel: 1, kernel_height: 2, kernel_width: 2, stride: 1, padding: 0 };
    let sums = product.apply(&values, 0, |a: &i64, b: &i64| a * b, |a: &i64, b: &i64| a + b);
    assert_eq!(sums.to_vec(), vec![12, 16, 24, 28]);
    let pool = ReduceWindow { source: 0, size: 2, stride: 1 };
    let pooled = pool.apply(&values, |a: &i64, b: &i64| if *b > *a { *b } else { *a });
    assert_eq!(pooled.shape(), Shape::new(vec![1, 1, 2, 2]));
    assert_eq!(pooled.to_vec(), vec![5, 6, 8, 9]);
}

#[test]
fn a_network_binds_an_entry_over_its_roots() {
    let mut tape: Tape<f64> = Tape::new(Origin::from_token(7));
    let leaf = tape.leaf(Tensor::filled(Shape::new(vec![2]), 1.0));
    let root = leaf.neg(&mut tape).symbol();
    let network = tape.into_network();
    let bound = network.entry(vec![root]);
    assert_eq!(bound.entry().roots, vec![root]);
    assert!(bound.entry().observe.is_empty());
    let entry = bound.into_entry().observe(vec![leaf.symbol()]).backward();
    assert_eq!(entry.roots, vec![root]);
    assert_eq!(entry.observe, vec![leaf.symbol()]);
    assert!(entry.backward);
}

#[test]
fn a_bound_entry_builds_its_reading_in_place() {
    let mut tape = Tape::new(Origin::from_token(7));
    let leaf = tape.leaf(Tensor::filled(Shape::new(vec![2]), 1.0));
    let root = leaf.neg(&mut tape).symbol();
    let network = tape.into_network();
    let bound = network.entry(vec![root]).observe(vec![leaf.symbol()]).backward().numerics(Numerics::Exact);
    assert_eq!(bound.entry().roots, vec![root]);
    assert_eq!(bound.entry().observe, vec![leaf.symbol()]);
    assert!(bound.entry().backward);
    assert_eq!(bound.entry().numerics, Numerics::Exact);
}
