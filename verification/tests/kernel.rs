use audio_to_midi::error::PipelineError;
use audio_to_midi::kernel::{
    arg_max, arg_max_axis1, arg_rel_max, global_max, integer_sqrt, max_3d_for_axis0, mean_std_dev, min_3d_for_axis0,
    where_greater_than_axis1,
};

#[test]
fn arg_max_of_an_empty_row_is_none() {
    assert_eq!(arg_max(&vec![]), None);
}

#[test]
fn arg_max_takes_the_first_of_equal_maxima() {
    assert_eq!(arg_max(&vec![1, 3, 3, 2]), Some(1));
    assert_eq!(arg_max(&vec![7, 7, 7]), Some(0));
    assert_eq!(arg_max(&vec![0, 1, 2, 9]), Some(3));
}

#[test]
fn arg_max_axis1_works_row_by_row() {
    let m = vec![vec![1, 5, 2], vec![], vec![4, 4, 1]];
    assert_eq!(arg_max_axis1(&m), vec![Some(1), None, Some(0)]);
}

#[test]
fn where_greater_than_scans_in_row_major_order() {
    let m = vec![vec![0, 6, 7], vec![9, 1, 6], vec![5, 5, 8]];
    let (rows, cols) = where_greater_than_axis1(&m, 5);
    assert_eq!(rows, vec![0, 0, 1, 1, 2]);
    assert_eq!(cols, vec![1, 2, 0, 2, 2]);
}

#[test]
fn where_greater_than_is_strict() {
    let m = vec![vec![5, 5], vec![5, 5]];
    let (rows, cols) = where_greater_than_axis1(&m, 5);
    assert!(rows.is_empty());
    assert!(cols.is_empty());
}

#[test]
fn where_greater_than_accepts_rows_of_different_lengths() {
    let m = vec![vec![9], vec![], vec![0, 0, 9]];
    let (rows, cols) = where_greater_than_axis1(&m, 1);
    assert_eq!(rows, vec![0, 2]);
    assert_eq!(cols, vec![0, 2]);
}

#[test]
fn global_max_of_a_matrix() {
    assert_eq!(global_max(&vec![vec![1, 2], vec![8, 3], vec![4, 4]]), 8);
}

#[test]
fn global_max_without_cells_is_zero() {
    assert_eq!(global_max(&vec![]), 0);
    assert_eq!(global_max(&vec![vec![], vec![]]), 0);
}

#[test]
fn integer_sqrt_rounds_down() {
    assert_eq!(integer_sqrt(0), 0);
    assert_eq!(integer_sqrt(1), 1);
    assert_eq!(integer_sqrt(15), 3);
    assert_eq!(integer_sqrt(16), 4);
    assert_eq!(integer_sqrt(17), 4);
    assert_eq!(integer_sqrt(1_000_000_000_000), 1_000_000);
    assert_eq!(integer_sqrt(u128::MAX), u64::MAX);
}

#[test]
fn mean_and_sample_deviation_of_four_cells() {
    // Sum 10, sum of squares 30: mean 10 / 4, variance (4 * 30 - 100) / (4 * 3).
    assert_eq!(mean_std_dev(&vec![vec![1, 2], vec![3, 4]]), Ok((2, 1)));
}

#[test]
fn sample_deviation_divides_by_one_less_than_the_count() {
    // Two cells 0 and 10: variance (2 * 100 - 100) / (2 * 1) = 50, whose root is 7.07.
    assert_eq!(mean_std_dev(&vec![vec![0, 10]]), Ok((5, 7)));
}

#[test]
fn mean_and_deviation_of_equal_cells() {
    assert_eq!(mean_std_dev(&vec![vec![400_000; 8]; 5]), Ok((400_000, 0)));
}

#[test]
fn mean_and_deviation_need_two_cells() {
    assert_eq!(mean_std_dev(&vec![]), Err(PipelineError::ArithmeticDegeneracy));
    assert_eq!(mean_std_dev(&vec![vec![3]]), Err(PipelineError::ArithmeticDegeneracy));
}

#[test]
fn mean_and_deviation_of_the_largest_cells() {
    assert_eq!(mean_std_dev(&vec![vec![u32::MAX, u32::MAX, u32::MAX]]), Ok((u32::MAX as u64, 0)));
}

#[test]
fn min_across_a_stack() {
    let stack = vec![vec![vec![5, 1], vec![7, 7]], vec![vec![2, 9], vec![7, 0]], vec![vec![3, 3], vec![8, 4]]];
    assert_eq!(min_3d_for_axis0(&stack), vec![vec![2, 1], vec![7, 0]]);
}

#[test]
fn max_across_a_stack() {
    let stack = vec![vec![vec![5, 1], vec![7, 7]], vec![vec![2, 9], vec![7, 0]], vec![vec![3, 3], vec![8, 4]]];
    assert_eq!(max_3d_for_axis0(&stack), vec![vec![5, 9], vec![8, 7]]);
}

#[test]
fn min_and_max_across_a_single_layer_are_the_layer() {
    let stack = vec![vec![vec![5, 1], vec![7, 7]]];
    assert_eq!(min_3d_for_axis0(&stack), vec![vec![5, 1], vec![7, 7]]);
    assert_eq!(max_3d_for_axis0(&stack), vec![vec![5, 1], vec![7, 7]]);
}

#[test]
fn local_maxima_come_column_by_column() {
    let m = vec![vec![0, 9], vec![5, 0], vec![0, 0], vec![0, 0], vec![0, 3], vec![6, 0]];
    assert_eq!(arg_rel_max(&m, 1), vec![(1, 0), (5, 0), (0, 1), (4, 1)]);
}

#[test]
fn local_maxima_are_strict() {
    // A plateau holds no maximum: equal neighbours rule each other out.
    let m = vec![vec![1], vec![4], vec![4], vec![1]];
    assert_eq!(arg_rel_max(&m, 1), vec![]);
}

#[test]
fn local_maxima_look_order_rows_each_way() {
    let m = vec![vec![1], vec![5], vec![2], vec![6], vec![0]];
    assert_eq!(arg_rel_max(&m, 1), vec![(1, 0), (3, 0)]);
    assert_eq!(arg_rel_max(&m, 2), vec![(3, 0)]);
}

#[test]
fn local_maxima_cut_the_window_at_the_edges() {
    // The first and the last row have neighbours on one side only.
    let m = vec![vec![7], vec![3], vec![1], vec![2], vec![8]];
    assert_eq!(arg_rel_max(&m, 2), vec![(0, 0), (4, 0)]);
}

#[test]
fn local_maxima_of_an_empty_matrix() {
    assert_eq!(arg_rel_max(&vec![], 2), vec![]);
}

#[test]
fn a_single_row_is_a_maximum_everywhere() {
    assert_eq!(arg_rel_max(&vec![vec![0, 0, 4]], 2), vec![(0, 0), (0, 1), (0, 2)]);
}
