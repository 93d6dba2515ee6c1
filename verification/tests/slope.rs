use wasabi::graphics::calc_slope_point;

#[test]
fn flat_slope_is_zero_all_along() {
    for ia in 0..=10 {
        assert_eq!(calc_slope_point(10, 0, ia), Some(0), "at index {ia}");
    }
}

#[test]
fn diagonal_slope_follows_the_index() {
    assert_eq!(calc_slope_point(4, 4, 2), Some(2));
}

#[test]
fn shallow_slope_rounds_to_nearest() {
    assert_eq!(calc_slope_point(5, 2, 5), Some(2));
}

#[test]
fn rounding_ties_go_up() {
    // 1 * 2 / 4 = 0.5, which rounds up to 1.
    assert_eq!(calc_slope_point(4, 2, 1), Some(1));
}

#[test]
fn major_axis_must_carry_the_larger_delta() {
    assert_eq!(calc_slope_point(3, 4, 1), None);
    assert_eq!(calc_slope_point(0, 1, 0), None);
}

#[test]
fn degenerate_delta_yields_zero() {
    assert_eq!(calc_slope_point(0, 0, 0), Some(0));
    assert_eq!(calc_slope_point(0, 0, 5), Some(0));
}

#[test]
fn index_outside_the_major_range_yields_no_point() {
    assert_eq!(calc_slope_point(5, 2, -1), None);
    assert_eq!(calc_slope_point(5, 2, 6), None);
    assert_eq!(calc_slope_point(5, 2, 0), Some(0));
    assert_eq!(calc_slope_point(5, 2, 4), Some(2));
}
