use vyges_mpl::halo::Boundary;
use vyges_mpl::placement::deadspace::{dead_space_grid, segment_index, DeadSpaceMacro};
use vyges_mpl::placement::wirelength::{
    is_outside_the_outline, nearest_point_in_region, nearest_region_squared_distance, pin_center, Region,
    WirelengthMacro,
};

#[test]
fn a_centre_truncates_toward_zero_as_the_double_does() {
    assert_eq!(pin_center(10, 5), 12);
    assert_eq!(pin_center(-3, 1), -2);
    let mut state: u64 = 12345;
    for _ in 0..100_000 {
        state = state.wrapping_mul(6_364_136_223_846_793_005).wrapping_add(1);
        let origin = ((state >> 32) as u32 as i32) >> (state % 7);
        let extent = (state as u32 as i32) >> (state % 11);
        let want = (origin as f64 + 0.5 * extent as f64) as i32;
        assert_eq!(pin_center(origin, extent), want, "{origin} {extent}");
    }
}

fn region(x0: i32, y0: i32, x1: i32, y1: i32, boundary: Boundary) -> Region {
    Region { x0, y0, x1, y1, boundary }
}

#[test]
fn the_nearest_point_clamps_along_the_edge() {
    let left = region(0, 10, 0, 20, Boundary::L);
    assert_eq!(nearest_point_in_region(&left, (5, 25)), (0, 20));
    assert_eq!(nearest_point_in_region(&left, (5, 5)), (0, 10));
    assert_eq!(nearest_point_in_region(&left, (5, 15)), (0, 15));
    let bottom = region(10, 0, 20, 0, Boundary::B);
    assert_eq!(nearest_point_in_region(&bottom, (25, 3)), (20, 0));
    assert_eq!(nearest_point_in_region(&bottom, (15, 3)), (15, 0));
    assert_eq!(nearest_region_squared_distance((5, 15), &[bottom, left]), Some(25));
    assert_eq!(nearest_region_squared_distance((5, 15), &[]), None);
}

#[test]
fn a_pin_past_the_outline_is_outside_but_one_on_it_is_not() {
    let m = WirelengthMacro {
        x: 98,
        y: 0,
        width: 10,
        height: 10,
        is_cluster_of_unplaced_io_pins: false,
        is_unconstrained_io_cluster: false,
        pin_offset: Some((5, 5)),
    };
    assert!(is_outside_the_outline(&m, (100, 100)));
    assert!(!is_outside_the_outline(&WirelengthMacro { x: 95, ..m }, (100, 100)));
    assert!(!is_outside_the_outline(&WirelengthMacro { x: 90, pin_offset: None, ..m }, (100, 100)));
}

#[test]
fn the_dead_space_grid_cuts_along_every_edge_with_area() {
    let macros = vec![
        DeadSpaceMacro { x: 10, y: 10, width: 20, height: 30, area: 600, is_mixed_cluster: false, is_std_cell_cluster: false },
        DeadSpaceMacro { x: 55, y: 5, width: 0, height: 0, area: 0, is_mixed_cluster: false, is_std_cell_cluster: false },
    ];
    let (xs, ys) = dead_space_grid(&macros, (100, 50));
    assert_eq!(xs, vec![0, 10, 30, 100]);
    assert_eq!(ys, vec![0, 10, 40, 50]);
    assert_eq!(segment_index(15, &xs), 2);
    assert_eq!(segment_index(10, &xs), 1);
    assert_eq!(segment_index(100, &xs), 3);
}
