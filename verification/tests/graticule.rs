use flight_tracker::map_renderer::line_distance_for_viewport_degrees;
use flight_tracker::util::{
    grid_line_count, label_precision, modulo_ceil, world_width_from_longitude,
};

#[test]
fn spacing_five_degrees_for_narrow_viewport() {
    // mapped range = 0.1 * 180 * 500 / 720 = 12.5 degrees: above 2 * 5,
    // not above 2 * 15.
    assert_eq!(line_distance_for_viewport_degrees(100_000, 720), 5_000_000);
}

#[test]
fn spacing_fifteen_degrees_for_wide_viewport() {
    // mapped range = 0.5 * 180 * 500 / 720 = 62.5 degrees: above 2 * 15,
    // not above 2 * 45.
    assert_eq!(line_distance_for_viewport_degrees(500_000, 720), 15_000_000);
}

#[test]
fn spacing_forty_five_degrees_for_whole_world() {
    // mapped range = 2.0 * 180 * 500 / 720 = 250 degrees.
    assert_eq!(line_distance_for_viewport_degrees(2_000_000, 720), 45_000_000);
}

#[test]
fn spacing_log_scale_half() {
    // mapped range = 1.25: m = 0.625 * 10 = 6.25 >= 10^(1/2), so 0.5 deg.
    assert_eq!(line_distance_for_viewport_degrees(10_000, 720), 500_000);
}

#[test]
fn spacing_log_scale_fifth() {
    // mapped range = 0.4: m = 2 is between 10^(1/5) and 10^(1/2), so 0.2 deg.
    assert_eq!(line_distance_for_viewport_degrees(3_200, 720), 200_000);
}

#[test]
fn spacing_log_scale_tenth() {
    // mapped range = 0.25: m = 1.25 is below 10^(1/5), so 0.1 deg.
    assert_eq!(line_distance_for_viewport_degrees(2_000, 720), 100_000);
}

#[test]
fn spacing_log_scale_exact_power_of_ten() {
    // mapped range exactly 2: the fractional part of the logarithm is zero,
    // which lands on the 0.1 mantissa.
    assert_eq!(line_distance_for_viewport_degrees(16_000, 720), 100_000);
}

#[test]
fn grid_start_is_next_multiple() {
    assert_eq!(modulo_ceil(7, 5), 10);
    assert_eq!(modulo_ceil(10, 5), 10);
    assert_eq!(modulo_ceil(-7, 5), -5);
    assert_eq!(modulo_ceil(-10, 5), -10);
    assert_eq!(modulo_ceil(0, 3), 0);
}

#[test]
fn line_count_covers_the_range() {
    // ceil(range / spacing + 1): 10 / 5 + 1 = 3 lines.
    assert_eq!(grid_line_count(10, 5), 3);
    // 11 / 5 + 1 = 3.2, so 4 lines.
    assert_eq!(grid_line_count(11, 5), 4);
    assert_eq!(grid_line_count(0, 5), 1);
}

#[test]
fn label_precision_counts_decimals() {
    assert_eq!(label_precision(5_000_000), 0);
    assert_eq!(label_precision(1_000_000), 0);
    assert_eq!(label_precision(500_000), 1);
    assert_eq!(label_precision(200_000), 1);
    assert_eq!(label_precision(100_000), 1);
    assert_eq!(label_precision(50_000), 2);
    assert_eq!(label_precision(1), 6);
}

#[test]
fn longitude_to_world_width() {
    // 360 degrees is the whole world: one world unit.
    assert_eq!(world_width_from_longitude(360_000_000), 1_000_000);
    assert_eq!(world_width_from_longitude(45_000_000), 125_000);
    assert_eq!(world_width_from_longitude(0), 0);
}
