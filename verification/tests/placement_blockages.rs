use vyges_mpl::anneal::SoftMacro;
use vyges_mpl::cluster::ClusterType;
use vyges_mpl::placement::blockages::{
    eliminate_overlaps, find_offset_intersections, merged_region, single_array_single_std_cell_cluster,
    soft_macros_for_blockages, NeedsPolygonUnion,
};

#[test]
fn blockages_are_clipped_to_the_outline_and_rebased_on_it() {
    let outline = (400, 400, 1000, 900);
    let got = find_offset_intersections(&[(500, 500, 600, 650), (0, 0, 450, 420), (300, 300, 400, 800), (2000, 0, 3000, 10)], outline);
    assert_eq!(got, vec![(100, 100, 200, 250), (0, 0, 50, 20)]);
}

#[test]
fn more_than_one_blockage_needs_a_polygon_union() {
    assert_eq!(eliminate_overlaps(&[]), Ok(vec![]));
    assert_eq!(eliminate_overlaps(&[(0, 0, 1, 1)]), Ok(vec![(0, 0, 1, 1)]));
    assert_eq!(eliminate_overlaps(&[(0, 0, 1, 1), (2, 2, 3, 3)]), Err(NeedsPolygonUnion));
}

#[test]
fn a_blockage_stands_as_a_fixed_soft_macro() {
    assert_eq!(soft_macros_for_blockages(&[(10, 20, 40, 30)]), vec![SoftMacro {
        x: 10,
        y: 20,
        width: 30,
        height: 10,
        fixed: true,
        area: 300,
        is_macro_cluster: false
    }]);
}

#[test]
fn regions_merge_into_one_box_clipped_and_rebased() {
    let outline = (100, 100, 500, 500);
    assert_eq!(merged_region(&[(150, 150, 200, 200), (300, 120, 350, 600)], outline), Some((50, 20, 250, 400)));
    assert_eq!(merged_region(&[], outline), None);
    assert_eq!(merged_region(&[(0, 0, 50, 50)], outline), None);
    assert_eq!(merged_region(&[(100, 100, 100, 300)], outline), None);
}

#[test]
fn only_one_interconnected_array_beside_one_cell_cluster_counts() {
    let array = (Some(ClusterType::HardMacro), true);
    let cells = (Some(ClusterType::StdCell), false);
    assert!(single_array_single_std_cell_cluster(&[array, cells, (None, false)]));
    assert!(!single_array_single_std_cell_cluster(&[array, cells, cells]));
    assert!(!single_array_single_std_cell_cluster(&[array, array, cells]));
    assert!(!single_array_single_std_cell_cluster(&[(Some(ClusterType::HardMacro), false), cells]));
    assert!(!single_array_single_std_cell_cluster(&[array, (Some(ClusterType::Mixed), false), cells]));
    assert!(!single_array_single_std_cell_cluster(&[array]));
}
