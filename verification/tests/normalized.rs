use topos::normalized::{BatchNormTask, Normalized};

#[test]
fn a_task_reads_back_what_it_was_built_over() {
    let input = [1.0_f64, 2.0, 3.0, 4.0, 5.0, 6.0];
    let scale = [1.0_f64, 0.5, 2.0];
    let shift = [0.0_f64, 1.0, -1.0];
    let task = BatchNormTask::new(&input, &scale, &shift, 1e-5, 2, 3);
    assert_eq!(task.input(), &input);
    assert_eq!(task.scale(), &scale);
    assert_eq!(task.shift(), &shift);
    assert_eq!(*task.epsilon(), 1e-5);
    assert_eq!(task.batch(), 2);
    assert_eq!(task.features(), 3);
}

#[test]
fn a_product_carries_output_and_statistics() {
    let product = Normalized { output: vec![0.0_f32; 4], mean: vec![1.0, 2.0], variance: vec![0.5, 0.25] };
    assert_eq!(product.output.len(), 4);
    assert_eq!(product.mean, vec![1.0, 2.0]);
    assert_eq!(product.variance, vec![0.5, 0.25]);
}
