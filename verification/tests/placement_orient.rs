use vyges_mpl::halo::Orient;
use vyges_mpl::placement::orient::{
    flip_db_orientation, flip_orientation, flip_real_macro, instance_offset, iterm_avg_xy, iterm_bbox,
    net_terminal_bbox, orientation_groups, orientation_strategy, real_origin, transform_point, transform_rect,
    DbOrient, NetTerminal, OrientationStrategy,
};

#[test]
fn a_full_halo_flips_each_macro_alone() {
    assert_eq!(orientation_strategy(true), OrientationStrategy::Single);
    assert_eq!(orientation_strategy(false), OrientationStrategy::ByCluster);
}

#[test]
fn columns_and_rows_ascend_by_coordinate_and_keep_input_order() {
    let macros = vec![(7, (30, 5)), (8, (10, 5)), (9, (30, 0)), (10, (10, 9))];
    let (cols, rows) = orientation_groups(&macros);
    assert_eq!(cols, vec![vec![8, 10], vec![7, 9]]);
    assert_eq!(rows, vec![vec![9], vec![7, 8], vec![10]]);
}

#[test]
fn no_macros_no_groups() {
    let (cols, rows) = orientation_groups(&[]);
    assert!(cols.is_empty() && rows.is_empty());
}

#[test]
fn def_names_map_to_the_mirror_axis() {
    assert_eq!(DbOrient::from_def("N"), Some(DbOrient::R0));
    assert_eq!(DbOrient::from_def("W"), Some(DbOrient::R90));
    assert_eq!(DbOrient::from_def("S"), Some(DbOrient::R180));
    assert_eq!(DbOrient::from_def("E"), Some(DbOrient::R270));
    assert_eq!(DbOrient::from_def("FN"), Some(DbOrient::MY));
    assert_eq!(DbOrient::from_def("FS"), Some(DbOrient::MX));
    assert_eq!(DbOrient::from_def("FW"), Some(DbOrient::MXR90));
    assert_eq!(DbOrient::from_def("FE"), Some(DbOrient::MYR90));
    assert_eq!(DbOrient::from_def("R0"), None);
    assert_eq!(DbOrient::from_def(""), None);
}

#[test]
fn points_turn_about_the_origin_then_translate() {
    assert_eq!(transform_point((2, 3), DbOrient::R0, (10, 20)), (12, 23));
    assert_eq!(transform_point((2, 3), DbOrient::R90, (0, 0)), (-3, 2));
    assert_eq!(transform_point((2, 3), DbOrient::R180, (0, 0)), (-2, -3));
    assert_eq!(transform_point((2, 3), DbOrient::R270, (0, 0)), (3, -2));
    assert_eq!(transform_point((2, 3), DbOrient::MY, (0, 0)), (-2, 3));
    assert_eq!(transform_point((2, 3), DbOrient::MX, (0, 0)), (2, -3));
    // The mirror comes before the rotation.
    assert_eq!(transform_point((2, 3), DbOrient::MYR90, (0, 0)), (-3, -2));
    assert_eq!(transform_point((2, 3), DbOrient::MXR90, (0, 0)), (3, 2));
}

#[test]
fn a_mirrored_rectangle_is_put_back_in_order() {
    assert_eq!(transform_rect((0, 0, 10, 4), DbOrient::MY, (0, 0)), (-10, 0, 0, 4));
    assert_eq!(transform_rect((0, 0, 10, 4), DbOrient::R90, (100, 100)), (96, 100, 100, 110));
}

#[test]
fn the_average_counts_every_box_twice_and_truncates_toward_zero() {
    assert_eq!(iterm_avg_xy(&[], DbOrient::R0, (0, 0)), None);
    // Two boxes: x corners 0,2 and 10,11 -> 23 / 4 = 5; y corners 0,1 and 0,1 -> 2 / 4 = 0.
    assert_eq!(iterm_avg_xy(&[(0, 0, 2, 1), (10, 0, 11, 1)], DbOrient::R0, (0, 0)), Some((5, 0)));
    // Negative sums truncate toward zero: -23 / 4 = -5.
    assert_eq!(iterm_avg_xy(&[(0, 0, 2, 1), (10, 0, 11, 1)], DbOrient::MY, (0, 0)), Some((-5, 0)));
}

#[test]
fn the_terminal_box_spans_every_transformed_box() {
    assert_eq!(iterm_bbox(&[], DbOrient::R0, (0, 0)), None);
    assert_eq!(iterm_bbox(&[(0, 0, 2, 1), (10, 5, 11, 7)], DbOrient::R0, (1, 1)), Some((1, 1, 12, 8)));
}

#[test]
fn flipping_twice_gives_back_the_orientation() {
    for o in [Orient::R0, Orient::R180, Orient::Mx, Orient::My, Orient::Other] {
        for v in [true, false] {
            assert_eq!(flip_orientation(flip_orientation(o, v), v), o);
        }
    }
    for d in [
        DbOrient::R0,
        DbOrient::R90,
        DbOrient::R180,
        DbOrient::R270,
        DbOrient::MY,
        DbOrient::MYR90,
        DbOrient::MX,
        DbOrient::MXR90,
    ] {
        for v in [true, false] {
            assert_eq!(flip_db_orientation(flip_db_orientation(d, v), v), d);
        }
    }
}

#[test]
fn a_vertical_flip_mirrors_about_the_vertical_axis() {
    assert_eq!(flip_orientation(Orient::R0, true), Orient::My);
    assert_eq!(flip_orientation(Orient::R0, false), Orient::Mx);
    assert_eq!(flip_db_orientation(DbOrient::R90, true), DbOrient::MXR90);
    assert_eq!(flip_db_orientation(DbOrient::R90, false), DbOrient::MYR90);
    assert_eq!(flip_real_macro(Orient::R180, (5, 6), true), (Orient::Mx, (5, 6)));
}

#[test]
fn the_halo_comes_off_the_far_side_when_mirrored() {
    let halo = (1, 2, 30, 40);
    assert_eq!(real_origin((100, 200), halo, DbOrient::R0), (101, 202));
    assert_eq!(real_origin((100, 200), halo, DbOrient::R180), (130, 240));
    assert_eq!(real_origin((100, 200), halo, DbOrient::MY), (130, 202));
    assert_eq!(real_origin((100, 200), halo, DbOrient::MX), (101, 240));
}

#[test]
fn the_offset_puts_the_box_at_the_corner() {
    assert_eq!(instance_offset((50, 60), (10, 4), DbOrient::R0), (50, 60));
    let off = instance_offset((50, 60), (10, 4), DbOrient::MY);
    assert_eq!(off, (60, 60));
    let placed = transform_rect((0, 0, 10, 4), DbOrient::MY, off);
    assert_eq!((placed.0, placed.1), (50, 60));
}

#[test]
fn a_net_box_spans_the_terminal_points() {
    assert_eq!(net_terminal_bbox(&[]), None);
    assert_eq!(net_terminal_bbox(&[NetTerminal::Instance(None)]), None);
    let ts = [
        NetTerminal::Instance(Some((5, 5))),
        NetTerminal::Instance(None),
        NetTerminal::FixedPin((1, 9)),
        NetTerminal::UnplacedPin((8, 2)),
    ];
    assert_eq!(net_terminal_bbox(&ts), Some((1, 2, 8, 9)));
}
