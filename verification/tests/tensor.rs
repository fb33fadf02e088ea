use topos::shape::Shape;
use topos::tensor::Tensor;

fn matrix(rows: usize, columns: usize) -> Tensor<i64> {
    let elements: Vec<i64> = (0..(rows * columns) as i64).collect();
    Tensor::new(Shape::new(vec![rows, columns]), elements)
}

#[test]
fn new_reads_back_in_row_major_order() {
    let tensor = matrix(2, 3);
    assert_eq!(tensor.shape(), Shape::new(vec![2, 3]));
    assert_eq!(tensor.to_vec(), vec![0, 1, 2, 3, 4, 5]);
    assert_eq!(*tensor.get(4), 4);
    assert_eq!(tensor.as_slice(), Some(&[0, 1, 2, 3, 4, 5][..]));
    assert!(tensor.as_constant().is_none());
}

#[test]
fn filled_is_a_constant_of_its_shape() {
    let tensor = Tensor::filled(Shape::new(vec![2, 2]), 7_i64);
    assert_eq!(tensor.as_constant(), Some(&7));
    assert_eq!(tensor.to_vec(), vec![7, 7, 7, 7]);
    assert!(tensor.as_slice().is_none());
}

#[test]
fn scalar_reads_the_single_element() {
    let tensor = Tensor::new(Shape::scalar(), vec![42_i64]);
    assert_eq!(*tensor.scalar(), 42);
}

#[test]
fn selection_is_one_hot_by_row() {
    let selection = Tensor::selection(vec![2, 0], 3, 1_i64, 0);
    assert_eq!(selection.shape(), Shape::new(vec![2, 3]));
    assert_eq!(selection.to_vec(), vec![0, 0, 1, 1, 0, 0]);
    assert_eq!(*selection.get(2), 1);
    assert_eq!(*selection.get(3), 1);
}

#[test]
fn the_element_walk_hands_out_every_element_once() {
    let tensor = matrix(2, 2).transpose();
    let mut walk = tensor.iter();
    assert_eq!(walk.next(), Some(0));
    assert_eq!(walk.next(), Some(2));
    assert_eq!(walk.next(), Some(1));
    assert_eq!(walk.next(), Some(3));
    assert_eq!(walk.next(), None);
    assert_eq!(walk.next(), None);
}

#[test]
fn transpose_swaps_rows_and_columns() {
    let transposed = matrix(2, 3).transpose();
    assert_eq!(transposed.shape(), Shape::new(vec![3, 2]));
    assert_eq!(transposed.to_vec(), vec![0, 3, 1, 4, 2, 5]);
    assert!(transposed.as_slice().is_none());
    let twice = transposed.transpose();
    assert_eq!(twice.to_vec(), matrix(2, 3).to_vec());
    let vector = Tensor::new(Shape::new(vec![3]), vec![1_i64, 2, 3]);
    assert_eq!(vector.transpose().to_vec(), vec![1, 2, 3]);
    let constant = Tensor::filled(Shape::new(vec![2, 5]), 1_i64).transpose();
    assert_eq!(constant.shape(), Shape::new(vec![5, 2]));
}

#[test]
fn a_selection_transposes_through_a_dense_copy() {
    let selection = Tensor::selection(vec![1, 0], 2, 9_i64, 0);
    assert_eq!(selection.transpose().to_vec(), vec![0, 9, 9, 0]);
}

#[test]
fn broadcast_along_repeats_without_copying() {
    let row = Tensor::new(Shape::new(vec![3]), vec![1_i64, 2, 3]);
    let spread = row.broadcast_along(0, 2);
    assert_eq!(spread.shape(), Shape::new(vec![2, 3]));
    assert_eq!(spread.to_vec(), vec![1, 2, 3, 1, 2, 3]);
    let columns = row.broadcast_along(1, 2);
    assert_eq!(columns.to_vec(), vec![1, 1, 2, 2, 3, 3]);
    let like = Tensor::new(Shape::new(vec![2]), vec![5_i64, 6]).broadcast_along_like(0, &matrix(3, 2));
    assert_eq!(like.to_vec(), vec![5, 6, 5, 6, 5, 6]);
}

#[test]
fn broadcast_spreads_a_single_element() {
    let single = Tensor::new(Shape::new(vec![1, 1]), vec![4_i64]);
    let spread = single.broadcast(Shape::new(vec![2, 3]));
    assert_eq!(spread.to_vec(), vec![4; 6]);
    assert_eq!(single.broadcast_like(&matrix(2, 2)).shape(), Shape::new(vec![2, 2]));
}

#[test]
fn narrow_views_a_window() {
    let window = matrix(3, 4).narrow(1, 1, 2);
    assert_eq!(window.shape(), Shape::new(vec![3, 2]));
    assert_eq!(window.to_vec(), vec![1, 2, 5, 6, 9, 10]);
    let rows = matrix(3, 4).narrow(0, 2, 1);
    assert_eq!(rows.to_vec(), vec![8, 9, 10, 11]);
}

#[test]
fn map_applies_the_transform_on_every_path() {
    let double = |element: &i64| element * 2;
    assert_eq!(matrix(2, 2).map(double).to_vec(), vec![0, 2, 4, 6]);
    assert_eq!(Tensor::filled(Shape::new(vec![3]), 5_i64).map(double).to_vec(), vec![10, 10, 10]);
    // A broadcast view maps only its distinct elements and stays a view.
    let spread = Tensor::new(Shape::new(vec![2]), vec![1_i64, 2]).broadcast_along(0, 3);
    assert_eq!(spread.map(double).to_vec(), vec![2, 4, 2, 4, 2, 4]);
    // A transpose walks its layout.
    assert_eq!(matrix(2, 3).transpose().map(double).to_vec(), vec![0, 6, 2, 8, 4, 10]);
}

#[test]
fn zip_combines_pairwise_on_every_path() {
    let add = |left: &i64, right: &i64| left + right;
    let left = matrix(2, 2);
    let right = Tensor::new(Shape::new(vec![2, 2]), vec![10_i64, 20, 30, 40]);
    assert_eq!(left.zip(&right, add).to_vec(), vec![10, 21, 32, 43]);
    let constant = Tensor::filled(Shape::new(vec![2, 2]), 100_i64);
    assert_eq!(left.zip(&constant, add).to_vec(), vec![100, 101, 102, 103]);
    assert_eq!(constant.zip(&left, |a: &i64, b: &i64| a - b).to_vec(), vec![100, 99, 98, 97]);
    assert_eq!(constant.zip(&constant, add).as_constant(), Some(&200));
    // Unit and zero innermost strides combine run by run.
    let spread = Tensor::new(Shape::new(vec![2]), vec![1_i64, 2]).broadcast_along(0, 2);
    assert_eq!(left.zip(&spread, add).to_vec(), vec![1, 3, 3, 5]);
    let columns = Tensor::new(Shape::new(vec![2]), vec![1_i64, 2]).broadcast_along(1, 2);
    assert_eq!(columns.zip(&spread, add).to_vec(), vec![2, 3, 3, 4]);
    // A transposed operand takes the logical walk.
    assert_eq!(left.transpose().zip(&left, add).to_vec(), vec![0, 3, 3, 6]);
}

#[test]
fn reshape_keeps_the_logical_order() {
    let reshaped = matrix(2, 3).reshape(Shape::new(vec![3, 2]));
    assert_eq!(reshaped.shape(), Shape::new(vec![3, 2]));
    assert_eq!(reshaped.to_vec(), vec![0, 1, 2, 3, 4, 5]);
    assert!(reshaped.as_slice().is_some());
    // A strided view that only gains a unit axis stays a view.
    let spread = Tensor::new(Shape::new(vec![2]), vec![1_i64, 2]).broadcast_along(0, 3);
    let lifted = spread.reshape(Shape::new(vec![3, 1, 2]));
    assert_eq!(lifted.to_vec(), vec![1, 2, 1, 2, 1, 2]);
    // Any other strided reshape materializes.
    let flat = matrix(2, 3).transpose().reshape(Shape::new(vec![6]));
    assert_eq!(flat.to_vec(), vec![0, 3, 1, 4, 2, 5]);
    let constant = Tensor::filled(Shape::new(vec![4]), 3_i64).reshape(Shape::new(vec![2, 2]));
    assert_eq!(constant.as_constant(), Some(&3));
    let selection = Tensor::selection(vec![1], 2, 5_i64, 0).reshape(Shape::new(vec![2]));
    assert_eq!(selection.to_vec(), vec![0, 5]);
}

#[test]
fn narrow_and_broadcast_along_compose() {
    let spread = Tensor::new(Shape::new(vec![3]), vec![7_i64, 8, 9]).broadcast_along(0, 4);
    let window = spread.narrow(1, 1, 2);
    assert_eq!(window.shape(), Shape::new(vec![4, 2]));
    assert_eq!(window.to_vec(), vec![8, 9, 8, 9, 8, 9, 8, 9]);
}

#[test]
fn permute_reorders_the_axes_as_a_view() {
    let cube: Vec<i64> = (0..24).collect();
    let tensor = Tensor::new(Shape::new(vec![2, 3, 4]), cube);
    let moved = tensor.permute(&[2, 0, 1]);
    assert_eq!(moved.shape(), Shape::new(vec![4, 2, 3]));
    // Element [k, i, j] of the view is element [i, j, k] of the operand.
    let elements = moved.to_vec();
    for k in 0..4 {
        for i in 0..2 {
            for j in 0..3 {
                assert_eq!(elements[(k * 2 + i) * 3 + j], ((i * 3 + j) * 4 + k) as i64);
            }
        }
    }
    // The view shares the buffer, so it is no longer contiguous.
    assert!(moved.as_slice().is_none());
}

#[test]
fn permute_by_the_identity_keeps_every_element() {
    let tensor = matrix(2, 3);
    let same = tensor.permute(&[0, 1]);
    assert_eq!(same.to_vec(), tensor.to_vec());
    assert_eq!(tensor.permute(&[1, 0]).to_vec(), tensor.transpose().to_vec());
}

#[test]
fn permute_then_inverse_restores_the_tensor() {
    let cube: Vec<i64> = (0..24).collect();
    let tensor = Tensor::new(Shape::new(vec![2, 3, 4]), cube.clone());
    let back = tensor.permute(&[1, 2, 0]).permute(&[2, 0, 1]);
    assert_eq!(back.shape(), Shape::new(vec![2, 3, 4]));
    assert_eq!(back.to_vec(), cube);
}

#[test]
fn permute_of_a_constant_and_a_selection() {
    let constant = Tensor::filled(Shape::new(vec![2, 5]), 3_i64).permute(&[1, 0]);
    assert_eq!(constant.shape(), Shape::new(vec![5, 2]));
    assert_eq!(constant.as_constant(), Some(&3));
    let selection = Tensor::selection(vec![2, 0], 3, 1_i64, 0).permute(&[1, 0]);
    assert_eq!(selection.to_vec(), vec![0, 1, 0, 0, 1, 0]);
}

#[test]
fn unfold_views_overlapping_windows() {
    let row = Tensor::new(Shape::new(vec![5]), vec![10_i64, 11, 12, 13, 14]);
    let windows = row.unfold(0, 3, 1, 1);
    assert_eq!(windows.shape(), Shape::new(vec![3, 3]));
    assert_eq!(windows.to_vec(), vec![10, 11, 12, 11, 12, 13, 12, 13, 14]);
}

#[test]
fn unfold_steps_and_dilates() {
    let row = Tensor::new(Shape::new(vec![7]), (0..7).collect::<Vec<i64>>());
    // Windows of two elements, two apart, starting every three.
    let windows = row.unfold(0, 2, 3, 2);
    assert_eq!(windows.shape(), Shape::new(vec![2, 2]));
    assert_eq!(windows.to_vec(), vec![0, 2, 3, 5]);
    let rows = matrix(2, 4).unfold(1, 2, 2, 1);
    assert_eq!(rows.shape(), Shape::new(vec![2, 2, 2]));
    assert_eq!(rows.to_vec(), vec![0, 1, 2, 3, 4, 5, 6, 7]);
}

#[test]
fn unfold_of_a_constant_stays_constant() {
    let windows = Tensor::filled(Shape::new(vec![6]), 9_i64).unfold(0, 4, 1, 1);
    assert_eq!(windows.shape(), Shape::new(vec![3, 4]));
    assert_eq!(windows.as_constant(), Some(&9));
}

#[test]
fn gather_picks_rows_by_selection() {
    let table = matrix(3, 2);
    let selection = Tensor::selection(vec![2, 0, 2], 3, 1_i64, 0);
    let rows = table.gather(&selection);
    assert_eq!(rows.shape(), Shape::new(vec![3, 2]));
    assert_eq!(rows.to_vec(), vec![4, 5, 0, 1, 4, 5]);
}

#[test]
fn gather_from_a_vector_picks_elements() {
    let table = Tensor::new(Shape::new(vec![4]), vec![7_i64, 8, 9, 10]);
    let rows = table.gather(&Tensor::selection(vec![3, 1], 4, 1_i64, 0));
    assert_eq!(rows.shape(), Shape::new(vec![2]));
    assert_eq!(rows.to_vec(), vec![10, 8]);
}

#[test]
fn pad_places_the_operand_among_zeros() {
    let tensor = matrix(2, 2);
    let padded = tensor.pad(1, 1, 4, 0);
    assert_eq!(padded.shape(), Shape::new(vec![2, 4]));
    assert_eq!(padded.to_vec(), vec![0, 0, 1, 0, 0, 2, 3, 0]);
    let rows = tensor.pad(0, 1, 3, -1);
    assert_eq!(rows.shape(), Shape::new(vec![3, 2]));
    assert_eq!(rows.to_vec(), vec![-1, -1, 0, 1, 2, 3]);
}

#[test]
fn pad_to_the_same_extent_is_a_copy() {
    let tensor = matrix(2, 3);
    assert_eq!(tensor.pad(1, 0, 3, 0).to_vec(), tensor.to_vec());
}

#[test]
fn sum_along_reduces_each_lane() {
    let tensor = matrix(2, 3);
    let rows = tensor.sum_along(1, |a: &i64, b: &i64| a + b);
    assert_eq!(rows.shape(), Shape::new(vec![2]));
    assert_eq!(rows.to_vec(), vec![3, 12]);
    let columns = tensor.sum_along(0, |a: &i64, b: &i64| a + b);
    assert_eq!(columns.shape(), Shape::new(vec![3]));
    assert_eq!(columns.to_vec(), vec![3, 5, 7]);
}

#[test]
fn sum_along_a_middle_axis_of_a_view() {
    let cube: Vec<i64> = (0..24).collect();
    let tensor = Tensor::new(Shape::new(vec![2, 3, 4]), cube).permute(&[0, 2, 1]);
    // Shape [2, 4, 3]: reducing the middle axis sums over the operand's last axis.
    let reduced = tensor.sum_along(1, |a: &i64, b: &i64| a + b);
    assert_eq!(reduced.shape(), Shape::new(vec![2, 3]));
    assert_eq!(reduced.to_vec(), vec![6, 22, 38, 54, 70, 86]);
}

#[test]
fn sum_along_accumulates_left_to_right() {
    // A non-commutative combination records the order of accumulation.
    let tensor = Tensor::new(Shape::new(vec![3]), vec![1_i64, 2, 3]);
    let folded = tensor.sum_along(0, |a: &i64, b: &i64| a * 10 + b);
    assert_eq!(folded.to_vec(), vec![123]);
}

#[test]
fn max_along_keeps_the_largest() {
    let tensor = Tensor::new(Shape::new(vec![2, 3]), vec![4_i64, -1, 9, 0, 7, 2]);
    let largest = tensor.max_along(1, |a: &i64, b: &i64| if *b > *a { *b } else { *a });
    assert_eq!(largest.to_vec(), vec![9, 7]);
    let down = tensor.max_along(0, |a: &i64, b: &i64| if *b > *a { *b } else { *a });
    assert_eq!(down.to_vec(), vec![4, 7, 9]);
}

#[test]
fn sum_totals_every_element() {
    let total = matrix(3, 4).sum(|a: &i64, b: &i64| a + b);
    assert_eq!(total.shape(), Shape::scalar());
    assert_eq!(*total.scalar(), 66);
    let constant = Tensor::filled(Shape::new(vec![5]), 2_i64).sum(|a: &i64, b: &i64| a + b);
    assert_eq!(*constant.scalar(), 10);
}

#[test]
fn fold_accumulates_overlapping_windows() {
    let row = Tensor::new(Shape::new(vec![5]), vec![1_i64, 2, 3, 4, 5]);
    let windows = row.unfold(0, 3, 1, 1);
    let folded = windows.fold(0, 3, 1, 1, 5, 0, |a: &i64, b: &i64| a + b);
    assert_eq!(folded.shape(), Shape::new(vec![5]));
    assert_eq!(folded.to_vec(), vec![1, 4, 9, 8, 5]);
}

#[test]
fn fold_leaves_unreached_positions_at_zero() {
    let row = Tensor::new(Shape::new(vec![7]), (10..17).collect::<Vec<i64>>());
    let windows = row.unfold(0, 2, 3, 2);
    assert_eq!(windows.to_vec(), vec![10, 12, 13, 15]);
    let folded = windows.fold(0, 2, 3, 2, 7, 0, |a: &i64, b: &i64| a + b);
    assert_eq!(folded.to_vec(), vec![10, 0, 12, 13, 0, 15, 0]);
}

#[test]
fn fold_undoes_a_tiling_unfold() {
    let tensor = matrix(2, 4);
    let tiles = tensor.unfold(1, 2, 2, 1);
    let back = tiles.fold(1, 2, 2, 1, 4, 0, |a: &i64, b: &i64| a + b);
    assert_eq!(back.shape(), Shape::new(vec![2, 4]));
    assert_eq!(back.to_vec(), tensor.to_vec());
}

#[test]
fn scatter_accumulates_repeated_rows() {
    let gradient = Tensor::new(Shape::new(vec![3, 2]), vec![1_i64, 2, 10, 20, 100, 200]);
    let selection = Tensor::selection(vec![2, 0, 2], 3, 1_i64, 0);
    let rows = gradient.scatter(&selection, 0, |a: &i64, b: &i64| a + b);
    assert_eq!(rows.shape(), Shape::new(vec![3, 2]));
    assert_eq!(rows.to_vec(), vec![10, 20, 0, 0, 101, 202]);
}

#[test]
fn scatter_then_gather_reads_the_accumulated_rows() {
    let gradient = Tensor::new(Shape::new(vec![2]), vec![5_i64, 7]);
    let selection = Tensor::selection(vec![1, 1], 4, 1_i64, 0);
    let rows = gradient.scatter(&selection, 0, |a: &i64, b: &i64| a + b);
    assert_eq!(rows.to_vec(), vec![0, 12, 0, 0]);
    assert_eq!(rows.gather(&selection).to_vec(), vec![12, 12]);
}

#[test]
fn matmul_multiplies_matrices() {
    let left = matrix(2, 3);
    let right = Tensor::new(Shape::new(vec![3, 2]), vec![1_i64, 0, 0, 1, 1, 1]);
    let product = left.matmul(&right, |a: &i64, b: &i64| a * b, |a: &i64, b: &i64| a + b);
    assert_eq!(product.shape(), Shape::new(vec![2, 2]));
    // [[0, 1, 2], [3, 4, 5]] x [[1, 0], [0, 1], [1, 1]]
    assert_eq!(product.to_vec(), vec![2, 3, 8, 9]);
}

#[test]
fn matmul_reads_views_and_batches() {
    // A transposed operand multiplies through its strides.
    let left = matrix(2, 3);
    let product = left.matmul(&left.transpose(), |a: &i64, b: &i64| a * b, |a: &i64, b: &i64| a + b);
    assert_eq!(product.to_vec(), vec![5, 14, 14, 50]);
    // Two batches of 2x2 times 2x1.
    let batched = Tensor::new(Shape::new(vec![2, 2, 2]), vec![1_i64, 2, 3, 4, 5, 6, 7, 8]);
    let vectors = Tensor::new(Shape::new(vec![2, 2, 1]), vec![1_i64, 1, 2, 0]);
    let result = batched.matmul(&vectors, |a: &i64, b: &i64| a * b, |a: &i64, b: &i64| a + b);
    assert_eq!(result.shape(), Shape::new(vec![2, 2, 1]));
    assert_eq!(result.to_vec(), vec![3, 7, 10, 14]);
}

#[test]
fn windowed_patches_lays_out_each_window_as_a_row() {
    let image = Tensor::new(Shape::new(vec![1, 1, 3, 3]), (1..10).collect::<Vec<i64>>());
    let patches = image.windowed_patches(2, 2, 1, 0, 0);
    assert_eq!(patches.shape(), Shape::new(vec![4, 4]));
    assert_eq!(
        patches.to_vec(),
        vec![1, 2, 4, 5, 2, 3, 5, 6, 4, 5, 7, 8, 5, 6, 8, 9]
    );
}

#[test]
fn windowed_patches_fill_the_padding_with_zero() {
    let image = Tensor::new(Shape::new(vec![1, 1, 3, 3]), (1..10).collect::<Vec<i64>>());
    let patches = image.windowed_patches(3, 3, 2, 1, 0);
    assert_eq!(patches.shape(), Shape::new(vec![4, 9]));
    assert_eq!(
        patches.to_vec(),
        vec![
            0, 0, 0, 0, 1, 2, 0, 4, 5, //
            0, 0, 0, 2, 3, 0, 5, 6, 0, //
            0, 4, 5, 0, 7, 8, 0, 0, 0, //
            5, 6, 0, 8, 9, 0, 0, 0, 0,
        ]
    );
}

#[test]
fn windowed_patches_order_columns_by_channel() {
    let image = Tensor::new(Shape::new(vec![1, 2, 2, 2]), vec![1_i64, 2, 3, 4, 10, 20, 30, 40]);
    let patches = image.windowed_patches(2, 2, 1, 0, 0);
    assert_eq!(patches.shape(), Shape::new(vec![1, 8]));
    assert_eq!(patches.to_vec(), vec![1, 2, 3, 4, 10, 20, 30, 40]);
    // A strided view of the same image reads the same patches.
    let viewed = image.permute(&[0, 1, 3, 2]).permute(&[0, 1, 3, 2]);
    assert_eq!(viewed.windowed_patches(2, 2, 1, 0, 0).to_vec(), patches.to_vec());
}

#[test]
fn max_pooled_keeps_the_largest_of_each_window() {
    let image = Tensor::new(Shape::new(vec![1, 1, 3, 3]), vec![1_i64, 5, 2, 7, 3, 9, 4, 8, 6]);
    let pooled = image.max_pooled(2, 1, |a: &i64, b: &i64| if *b > *a { *b } else { *a });
    assert_eq!(pooled.shape(), Shape::new(vec![1, 1, 2, 2]));
    assert_eq!(pooled.to_vec(), vec![7, 9, 8, 9]);
}

#[test]
fn max_pooled_walks_each_window_in_row_major_order() {
    let image = Tensor::new(Shape::new(vec![1, 2, 4, 4]), (0..32).collect::<Vec<i64>>());
    let order = image.max_pooled(2, 2, |a: &i64, b: &i64| a * 100 + b);
    assert_eq!(order.shape(), Shape::new(vec![1, 2, 2, 2]));
    let elements = order.to_vec();
    assert_eq!(elements[0], ((0 * 100 + 1) * 100 + 4) * 100 + 5);
    assert_eq!(elements[3], ((10 * 100 + 11) * 100 + 14) * 100 + 15);
    assert_eq!(elements[4], ((16 * 100 + 17) * 100 + 20) * 100 + 21);
}

#[test]
fn convert_widens_every_representation() {
    let dense = Tensor::new(Shape::new(vec![2, 2]), vec![1_i32, -2, 3, -4]);
    let wide: Tensor<i64> = dense.transpose().convert();
    assert_eq!(wide.shape(), Shape::new(vec![2, 2]));
    assert_eq!(wide.to_vec(), vec![1_i64, 3, -2, -4]);
    let constant: Tensor<i64> = Tensor::filled(Shape::new(vec![3]), 7_i32).convert();
    assert_eq!(constant.as_constant(), Some(&7_i64));
    let selection: Tensor<i64> = Tensor::selection(vec![1, 0], 2, 1_i32, 0).convert();
    assert_eq!(selection.to_vec(), vec![0_i64, 1, 1, 0]);
}

#[test]
fn windowed_product_multiplies_the_patches_by_the_kernel() {
    let image = Tensor::new(Shape::new(vec![1, 1, 3, 3]), (1..10).collect::<Vec<i64>>());
    // Two filters: the window sum and the top-left element.
    let kernel = Tensor::new(Shape::new(vec![4, 2]), vec![1_i64, 1, 1, 0, 1, 0, 1, 0]);
    let product = image.windowed_product(&kernel, 2, 2, 1, 0, 0, |a: &i64, b: &i64| a * b, |a: &i64, b: &i64| a + b);
    assert_eq!(product.shape(), Shape::new(vec![4, 2]));
    assert_eq!(product.to_vec(), vec![12, 1, 16, 2, 24, 4, 28, 5]);
}

#[test]
fn transposing_twice_gives_the_tensor_back() {
    let tensor = matrix(3, 4);
    let back = tensor.transpose().transpose();
    assert_eq!(back.shape(), tensor.shape());
    assert_eq!(back.to_vec(), tensor.to_vec());
}

#[test]
fn narrowing_a_padded_tensor_gives_it_back() {
    let cube: Vec<i64> = (0..24).collect();
    let tensor = Tensor::new(Shape::new(vec![2, 3, 4]), cube.clone());
    let padded = tensor.pad(1, 2, 6, -1);
    assert_eq!(padded.shape(), Shape::new(vec![2, 6, 4]));
    let back = padded.narrow(1, 2, 3);
    assert_eq!(back.shape(), Shape::new(vec![2, 3, 4]));
    assert_eq!(back.to_vec(), cube);
}

#[test]
fn zero_and_one_like_keep_the_shape_as_constants() {
    let tensor = Tensor::new(Shape::new(vec![2, 3]), vec![1, 2, 3, 4, 5, 6]);
    let zeros = tensor.zero_like(0);
    assert_eq!(zeros.shape(), Shape::new(vec![2, 3]));
    assert_eq!(zeros.to_vec(), vec![0; 6]);
    assert_eq!(zeros.as_constant(), Some(&0));
    let ones = tensor.one_like(1);
    assert_eq!(ones.to_vec(), vec![1; 6]);
    assert_eq!(ones.as_constant(), Some(&1));
}

#[test]
fn maximum_takes_the_larger_element_ties_to_either() {
    let left = Tensor::new(Shape::new(vec![3]), vec![1.0_f64, 2.0, 5.0]);
    let right = Tensor::new(Shape::new(vec![3]), vec![1.0_f64, 3.0, 4.0]);
    let largest = left.maximum(&right, |a: &f64, b: &f64| a.max(*b));
    assert_eq!(largest.to_vec(), vec![1.0, 3.0, 5.0]);
}

#[test]
fn step_answers_one_where_the_element_reaches_the_threshold() {
    let values = Tensor::new(Shape::new(vec![3]), vec![1.0_f64, 2.0, 5.0]);
    let threshold = Tensor::new(Shape::new(vec![3]), vec![1.0_f64, 3.0, 4.0]);
    let stepped = values.step(&threshold, |a: &f64, b: &f64| if a >= b { 1.0 } else { 0.0 });
    // Ties answer one: the left operand of a tied maximum wins.
    assert_eq!(stepped.to_vec(), vec![1.0, 0.0, 1.0]);
}

#[test]
fn fold_accumulates_each_position_in_window_order() {
    // Two windows of two over an extent of three: position 1 is read by
    // window 0 (its second element, 2) and window 1 (its first, 3).
    let windows = Tensor::new(Shape::new(vec![2, 2]), vec![1_i64, 2, 3, 4]);
    let folded = windows.fold(0, 2, 1, 1, 3, 0, |total: &i64, element: &i64| total * 10 + element);
    assert_eq!(folded.shape(), Shape::new(vec![3]));
    assert_eq!(folded.to_vec(), vec![1, 23, 4]);
}

#[test]
fn counted_mints_a_constant_and_is_counted_recognizes_it() {
    let shape = Shape::new(vec![2, 3]);
    let three = Tensor::counted(shape.clone(), 3, |count: usize| count as f64);
    assert_eq!(three.shape(), shape);
    assert_eq!(three.to_vec(), vec![3.0; 6]);
    assert!(three.as_constant().is_some());
    let is_count = |element: &f64, count: usize| *element == count as f64;
    assert!(three.is_counted(&shape, 3, is_count));
    assert!(!three.is_counted(&shape, 2, is_count));
    assert!(!three.is_counted(&Shape::new(vec![6]), 3, is_count));
    let mixed = Tensor::new(Shape::new(vec![2]), vec![3.0_f64, 4.0]);
    assert!(!mixed.is_counted(&Shape::new(vec![2]), 3, is_count));
}
