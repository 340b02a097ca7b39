use dezero::functions::checks::{
    can_broadcast_to, can_convolve, can_convolve_back, can_cut, can_map_linearly, can_multiply,
    can_pool, can_reshape, can_sum, can_sum_to, can_zip, spreads, window_count,
};
use dezero::functions::reduce::Axes;

const HUGE: usize = usize::MAX;

#[test]
fn shapes_spread_where_every_aligned_axis_is_one_or_equal() {
    assert!(spreads(&[3, 1], &[2, 3, 4]));
    assert!(spreads(&[], &[5]));
    assert!(!spreads(&[2, 3], &[3]));
    assert!(!spreads(&[2], &[3]));
    assert!(can_broadcast_to(&[1], &[HUGE]));
    assert!(!can_broadcast_to(&[1], &[HUGE, 2]));
    assert!(can_sum_to(&[2, 3, 4], &[3, 1]));
    assert!(!can_sum_to(&[3], &[2, 3]));
}

#[test]
fn operands_combine_where_they_broadcast_and_can_be_counted() {
    assert!(can_zip(&[2, 1, 4], &[3, 1]));
    assert!(!can_zip(&[2, 3], &[2, 4]));
    assert!(!can_zip(&[HUGE, 1], &[1, 3]));
}

#[test]
fn reshaping_needs_the_same_number_of_elements() {
    assert!(can_reshape(&[2, 3], &[6]));
    assert!(can_reshape(&[0, 7], &[0]));
    assert!(!can_reshape(&[2, 3], &[5]));
    assert!(!can_reshape(&[2], &[HUGE, HUGE]));
}

#[test]
fn sums_run_over_axes_that_exist_once() {
    assert!(can_sum(&[2, 3], &Axes::All));
    assert!(can_sum(&[2, 3], &Axes::Only(vec![0, -1])));
    assert!(!can_sum(&[2, 3], &Axes::Only(vec![1, -1])));
    assert!(!can_sum(&[2, 3], &Axes::Only(vec![2])));
    assert!(!can_sum(&[2, 3], &Axes::Only(vec![-3])));
    assert!(!can_sum(&[], &Axes::Only(vec![0])));
}

#[test]
fn matrices_multiply_along_a_common_axis() {
    assert!(can_multiply(&[2, 3], &[3, 4]));
    assert!(!can_multiply(&[2, 3], &[2, 4]));
    assert!(!can_multiply(&[3], &[3, 4]));
    assert!(!can_multiply(&[HUGE, 1], &[1, 2]));
    assert!(can_map_linearly(&[2, 3], &[3, 4], None));
    assert!(can_map_linearly(&[2, 3], &[3, 4], Some(&[4])));
    assert!(!can_map_linearly(&[2, 3], &[3, 4], Some(&[3])));
}

#[test]
fn windows_are_counted_where_one_fits() {
    assert_eq!(window_count(4, 3, 1, 1), Some(4));
    assert_eq!(window_count(5, 2, 2, 0), Some(2));
    assert_eq!(window_count(2, 3, 1, 0), None);
    assert_eq!(window_count(4, 3, 0, 1), None);
    assert_eq!(window_count(1, 1, 1, HUGE), None);
    assert_eq!(window_count(HUGE, 0, 1, 0), None);
    assert!(can_cut(&[1, 2, 4, 4], (3, 3), (1, 1), (0, 0)));
    assert!(!can_cut(&[2, 4, 4], (3, 3), (1, 1), (0, 0)));
    assert!(!can_cut(&[HUGE, 1, 2, 2], (2, 2), (1, 1), (0, 0)));
}

#[test]
fn convolutions_need_matching_channels() {
    let (one, none) = ((1, 1), (0, 0));
    assert!(can_convolve(&[1, 2, 4, 4], &[3, 2, 3, 3], None, one, none));
    assert!(can_convolve(&[1, 2, 4, 4], &[3, 2, 3, 3], Some(&[3]), one, none));
    assert!(!can_convolve(&[1, 2, 4, 4], &[3, 1, 3, 3], None, one, none));
    assert!(!can_convolve(&[1, 2, 4, 4], &[3, 2, 3, 3], Some(&[2]), one, none));
    assert!(!can_convolve(&[1, 2, 2, 2], &[3, 2, 3, 3], None, one, none));
    // two pixels fan out into four
    assert!(can_convolve_back(&[1, 3, 2, 2], &[3, 2, 3, 3], None, one, none, None));
    assert!(can_convolve_back(&[1, 3, 2, 2], &[3, 2, 3, 3], Some(&[2]), one, none, None));
    assert!(!can_convolve_back(&[1, 3, 2, 2], &[3, 2, 3, 3], Some(&[3]), one, none, None));
    assert!(!can_convolve_back(&[1, 3, 0, 2], &[3, 2, 3, 3], None, one, none, None));
    assert!(can_convolve_back(&[1, 3, 2, 2], &[3, 2, 3, 3], None, (2, 2), none, Some((6, 6))));
    assert!(!can_convolve_back(&[1, 3, 2, 2], &[3, 2, 3, 3], None, (2, 2), none, Some((7, 7))));
}

#[test]
fn poolings_need_a_window() {
    assert!(can_pool(&[1, 1, 4, 4], (2, 2), (2, 2), (0, 0)));
    assert!(!can_pool(&[1, 1, 4, 4], (0, 2), (2, 2), (0, 0)));
    assert!(!can_pool(&[1, 1, 1, 1], (2, 2), (1, 1), (0, 0)));
}
