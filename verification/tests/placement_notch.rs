use vyges_mpl::placement::blockages::AreaKind;
use vyges_mpl::placement::notch::{check_notch_vicinity, notch_grid, notch_sizes, NotchMacro, NotchVicinity};

fn fixed(x: i32, y: i32, width: i32, height: i32) -> NotchMacro {
    NotchMacro { x, y, width, height, kind: Some(AreaKind::FixedMacro) }
}

#[test]
fn grid_lines_coalesce_to_the_largest_of_each_group() {
    let macros = [
        fixed(0, 0, 45, 100),
        fixed(50, 0, 50, 100),
        NotchMacro { x: 20, y: 30, width: 5, height: 5, kind: Some(AreaKind::StdCellCluster) },
    ];
    let (xs, ys) = notch_grid(&macros, (100, 100));
    assert_eq!(xs, vec![0, 45, 50, 100]);
    assert_eq!(ys, vec![0, 100]);
    // a hundredth of 1000 is 10: 995 and 1000 fall in one group, kept as 1000
    let (xs, _) = notch_grid(&[fixed(0, 0, 995, 10)], (1000, 1000));
    assert_eq!(xs, vec![0, 1000]);
}

#[test]
fn a_side_facing_an_empty_cell_is_open() {
    let grid = vec![vec![true, true, true], vec![false, false, true], vec![true, true, true]];
    let v = check_notch_vicinity(&grid, 1, 0, 1, 0);
    assert_eq!(v, NotchVicinity { top: true, bottom: true, left: true, right: false });
    assert_eq!(v.total(), 3);
    let v = check_notch_vicinity(&grid, 1, 0, 1, 1);
    assert_eq!(v, NotchVicinity::default());
    assert_eq!(v.total(), 4);
}

#[test]
fn a_narrow_vertical_slot_is_a_notch() {
    let macros = [fixed(0, 0, 45, 100), fixed(50, 0, 50, 100)];
    assert_eq!(notch_sizes(&macros, (100, 100)), vec![(5, 100)]);
}

#[test]
fn a_shallow_slot_grown_across_columns_is_one_notch() {
    let macros = [fixed(0, 0, 50, 40), fixed(50, 0, 50, 40), fixed(0, 45, 100, 55)];
    assert_eq!(notch_sizes(&macros, (100, 100)), vec![(100, 5)]);
}

#[test]
fn a_wide_gap_is_no_notch() {
    assert_eq!(notch_sizes(&[fixed(0, 0, 50, 100)], (100, 100)), vec![]);
    assert_eq!(notch_sizes(&[], (100, 100)), vec![]);
}

#[test]
fn a_standard_cell_cluster_obstructs_nothing() {
    let macros = [
        NotchMacro { x: 0, y: 0, width: 45, height: 100, kind: Some(AreaKind::StdCellCluster) },
        NotchMacro { x: 50, y: 0, width: 50, height: 100, kind: None },
    ];
    assert_eq!(notch_sizes(&macros, (100, 100)), vec![]);
}

#[test]
fn an_outline_with_no_extent_has_no_notch() {
    assert_eq!(notch_sizes(&[], (0, 100)), vec![]);
}
