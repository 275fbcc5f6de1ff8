use vyges_mpl::design::Rect;
use vyges_mpl::halo::Boundary;
use vyges_mpl::regions::{available_regions, boundary_of, boundary_rect, subtract_overlap};
use vyges_mpl::shaping::{compute_width_intervals, generate_tilings_for_macro_cluster, macro_tilings, root_shape, Interval, Tiling, Unshapeable};

fn r(x_min: i64, y_min: i64, x_max: i64, y_max: i64) -> Rect {
    Rect { x_min, y_min, x_max, y_max }
}

fn t(width: i64, height: i64) -> Tiling {
    Tiling { width, height }
}

#[test]
fn a_line_names_its_edge() {
    let die = r(0, 0, 100, 50);
    assert_eq!(boundary_of(&die, &r(0, 10, 0, 20)), Boundary::L);
    assert_eq!(boundary_of(&die, &r(100, 10, 100, 20)), Boundary::R);
    assert_eq!(boundary_of(&die, &r(10, 0, 20, 0)), Boundary::B);
    assert_eq!(boundary_of(&die, &r(10, 50, 20, 50)), Boundary::T);
    assert_eq!(boundary_rect(&die, Boundary::L), r(0, 0, 0, 50));
    assert_eq!(boundary_rect(&die, Boundary::R), r(100, 0, 100, 50));
    assert_eq!(boundary_rect(&die, Boundary::T), r(0, 50, 100, 50));
    assert_eq!(boundary_rect(&die, Boundary::B), r(0, 0, 100, 0));
}

#[test]
fn subtracting_a_blocked_stretch_leaves_the_two_sides() {
    let die = r(0, 0, 100, 50);
    let left = r(0, 0, 0, 50);
    assert_eq!(subtract_overlap(&die, &left, &r(0, 10, 0, 20)), Some(vec![r(0, 0, 0, 10), r(0, 20, 0, 50)]));
    assert_eq!(subtract_overlap(&die, &left, &r(0, 0, 0, 20)), Some(vec![r(0, 20, 0, 50)]));
    assert_eq!(subtract_overlap(&die, &left, &r(10, 0, 20, 0)), None);
}

#[test]
fn the_available_regions_run_bottom_left_top_right() {
    let die = r(0, 0, 100, 50);
    let got = available_regions(&die, &[r(0, 10, 0, 20), r(10, 0, 30, 0)]);
    assert_eq!(got, vec![
        r(0, 0, 10, 0),
        r(30, 0, 100, 0),
        r(0, 0, 0, 10),
        r(0, 20, 0, 50),
        r(0, 50, 100, 50),
        r(100, 0, 100, 50)
    ]);
    assert_eq!(available_regions(&die, &[]).len(), 4);
}

#[test]
fn a_macro_cluster_tiles_by_every_divisor_that_fits() {
    let outline = r(0, 0, 100, 100);
    assert_eq!(generate_tilings_for_macro_cluster(10, 5, 6, &outline), vec![t(10, 30), t(20, 15), t(30, 10), t(60, 5)]);
    assert_eq!(macro_tilings(10, 5, 3, &r(0, 0, 25, 100)), Ok(vec![t(10, 15)]));
}

#[test]
fn with_no_fit_one_more_macro_is_tried_before_refusing() {
    assert_eq!(macro_tilings(10, 10, 3, &r(0, 0, 25, 25)), Ok(vec![t(20, 20)]));
    assert_eq!(
        macro_tilings(10, 10, 3, &r(0, 0, 25, 15)),
        Err(Unshapeable { macro_width: 10, macro_height: 10, number_of_macros: 3 })
    );
}

#[test]
fn width_intervals_are_degenerate_and_sorted() {
    assert_eq!(compute_width_intervals(&[t(30, 1), t(10, 2), t(20, 3)]), vec![
        Interval { min: 10, max: 10 },
        Interval { min: 20, max: 20 },
        Interval { min: 30, max: 30 }
    ]);
    assert_eq!(root_shape(&r(0, 0, 300, 200)), (Interval { min: 300, max: 300 }, 60000));
}
