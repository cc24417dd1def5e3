use flight_tracker::map::TileView;
use flight_tracker::map_renderer::{world_x_to_pixel_x, world_y_to_pixel_y};
use flight_tracker::{MAX_ZOOM_MILLI, WORLD_ONE};

fn test_view() -> TileView {
    TileView::new(WORLD_ONE / 2, WORLD_ONE / 2, 13_000, 540)
}

#[test]
fn multiply_zoom_applies_small_steps_exactly() {
    let mut v = test_view();
    v.multiply_zoom(250);
    assert_eq!(v.zoom_milli(), 13_250);
    v.multiply_zoom(-250);
    assert_eq!(v.zoom_milli(), 13_000);
}

#[test]
fn multiply_zoom_clamps_large_requests_to_half_a_level() {
    let mut v = test_view();
    v.multiply_zoom(10_000);
    assert_eq!(v.zoom_milli(), 13_500);
    v.multiply_zoom(-999_999);
    assert_eq!(v.zoom_milli(), 13_000);
}

#[test]
fn multiply_zoom_stays_within_zoom_range() {
    let mut v = TileView::new(0, 0, 19_900, 540);
    v.multiply_zoom(500);
    assert_eq!(v.zoom_milli(), MAX_ZOOM_MILLI);
    let mut w = TileView::new(0, 0, 100, 540);
    w.multiply_zoom(-500);
    assert_eq!(w.zoom_milli(), 0);
    for _ in 0..100 {
        w.multiply_zoom(-500);
        w.multiply_zoom(500);
        assert!(w.zoom_milli() <= MAX_ZOOM_MILLI);
    }
}

#[test]
fn viewport_projection_round_trip_x() {
    let v = test_view();
    let vp = v.get_viewport(1280, 720);
    let left = world_x_to_pixel_x(vp.top_left.x, &vp, 1280);
    let right = world_x_to_pixel_x(vp.bottom_right.x, &vp, 1280);
    assert_eq!(left, -1280 * 500_000);
    assert_eq!(right, 1280 * 500_000);
}

#[test]
fn viewport_projection_round_trip_y() {
    let v = test_view();
    let vp = v.get_viewport(1280, 720);
    let top = world_y_to_pixel_y(vp.top_left.y, &vp, 720);
    let bottom = world_y_to_pixel_y(vp.bottom_right.y, &vp, 720);
    assert_eq!(top, 720 * 500_000);
    assert_eq!(bottom, -720 * 500_000);
}

#[test]
fn viewport_is_centered_on_the_camera() {
    let v = test_view();
    let vp = v.get_viewport(1000, 500);
    assert_eq!(vp.top_left.x + vp.bottom_right.x, WORLD_ONE);
    assert_eq!(vp.top_left.y + vp.bottom_right.y, WORLD_ONE);
    assert!(vp.top_left.x < vp.bottom_right.x);
    assert!(vp.top_left.y < vp.bottom_right.y);
}

#[test]
fn map_hits_both_endpoints_and_midpoint() {
    assert_eq!(flight_tracker::util::map(0, 10, 0, 100, 200), 100);
    assert_eq!(flight_tracker::util::map(0, 10, 10, 100, 200), 200);
    assert_eq!(flight_tracker::util::map(0, 10, 5, 100, 200), 150);
    assert_eq!(flight_tracker::util::map(0, 10, 5, 200, 100), 150);
}

#[test]
fn move_camera_wraps_longitude_and_clamps_latitude() {
    let mut v = TileView::new(0, 0, 0, 1);
    v.move_camera_pixels(-300_000, -300_000);
    assert!(v.center().x < WORLD_ONE);
    assert_eq!(v.center().y, 0);
    let mut w = TileView::new(0, WORLD_ONE, 0, 1);
    w.move_camera_pixels(300_000, 300_000);
    assert_eq!(w.center().y, WORLD_ONE);
}

#[test]
fn tile_iter_coords_fit_the_zoom_level() {
    let v = TileView::new(WORLD_ONE / 3, WORLD_ONE / 3, 4_500, 540);
    let grid = v.tile_iter(256, 1280, 720);
    assert_eq!(grid.zoom, 4);
    assert!(!grid.coords.is_empty());
    for &(x, y) in grid.coords.iter() {
        assert!(x < 16);
        assert!(y < 16);
    }
}

#[test]
fn tile_iter_is_column_major_with_padding() {
    let v = TileView::new(WORLD_ONE / 2, WORLD_ONE / 2, 10_000, 540);
    let grid = v.tile_iter(256, 1024, 512);
    let tv = grid.tiles_vertically;
    assert!(tv >= 3);
    assert_eq!(grid.coords.len() % tv, 0);
    let cols = grid.coords.len() / tv;
    assert!(cols >= 3);
    // Within one column the rows advance by one, wrapping at 2^zoom.
    let m = 1u32 << grid.zoom;
    for c in 0..cols {
        for r in 1..tv {
            let prev = grid.coords[c * tv + r - 1];
            let here = grid.coords[c * tv + r];
            assert_eq!(here.0, prev.0);
            assert_eq!(here.1, (prev.1 + 1) % m);
        }
    }
}

#[test]
fn tile_iter_wraps_around_the_world_edge() {
    // Camera on the date line at a shallow zoom: columns wrap modulo 2^zoom.
    let v = TileView::new(0, WORLD_ONE / 2, 2_000, 540);
    let grid = v.tile_iter(256, 1280, 720);
    for &(x, y) in grid.coords.iter() {
        assert!(x < 4);
        assert!(y < 4);
    }
}

#[test]
fn viewport_half_extent_matches_the_scale_formula() {
    // At zoom 0 with a 540-pixel reference scale, one world unit spans
    // 540 pixels, so half of a 1280-pixel window is 1280 * 2^32 * 500 /
    // 540000 fixed-point world units.
    let v = TileView::new(WORLD_ONE / 2, WORLD_ONE / 2, 0, 540);
    let vp = v.get_viewport(1280, 720);
    let hw = (1280i128 * 4_294_967_296 * 500 / 540_000) as i64;
    let hh = (720i128 * 4_294_967_296 * 500 / 540_000) as i64;
    assert_eq!(vp.top_left.x, WORLD_ONE / 2 - hw);
    assert_eq!(vp.bottom_right.x, WORLD_ONE / 2 + hw);
    assert_eq!(vp.top_left.y, WORLD_ONE / 2 - hh);
    assert_eq!(vp.bottom_right.y, WORLD_ONE / 2 + hh);
}

#[test]
fn pan_moves_by_the_exact_world_equivalent() {
    // One pixel at zoom 0 and reference scale 540 is 2^32 * 1000 / 540000
    // world units, rounded toward minus infinity.
    let mut v = TileView::new(WORLD_ONE / 2, WORLD_ONE / 2, 0, 540);
    v.move_camera_pixels(1000, 0);
    let step = (1000i128 * 4_294_967_296 / 540_000) as i64;
    assert_eq!(v.center().x, WORLD_ONE / 2 + step);
    assert_eq!(v.center().y, WORLD_ONE / 2);
}
