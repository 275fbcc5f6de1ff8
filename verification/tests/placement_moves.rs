use vyges_mpl::anneal::SoftMacro;
use vyges_mpl::cluster::ClusterType;
use vyges_mpl::halo::Boundary;
use vyges_mpl::placement::assembly::{
    cluster_perturbations_per_step, macro_perturbations_per_step, no_valid_solution_error, placement_action,
    PlacementAction,
};
use vyges_mpl::placement::blockages::AreaKind;
use vyges_mpl::placement::enhance::{align_macro_clusters, alignment_thresholds, centralization_offset};
use vyges_mpl::placement::push::{
    distance_to_close_boundaries, has_single_centralized_macro_array, move_hard_macro, move_towards_boundary,
    push_decision, soft_macro_area, NoPush,
};

fn cluster(x: i32, y: i32, width: i32, height: i32, is_macro_cluster: bool) -> SoftMacro {
    SoftMacro { x, y, width, height, fixed: false, area: width as i64 * height as i64, is_macro_cluster }
}

#[test]
fn the_packing_is_centred_with_truncating_halves() {
    assert_eq!(centralization_offset((100, 80), (60, 50)), (20, 15));
    assert_eq!(centralization_offset((100, 80), (103, 80)), (-1, 0));
}

#[test]
fn macro_clusters_snap_to_an_edge_within_the_threshold() {
    assert_eq!(alignment_thresholds(&[cluster(0, 0, 30, 40, true), cluster(0, 0, 20, 50, true)], (500, 300), (100, 100)), (20, 40));
    assert_eq!(alignment_thresholds(&[], (500, 300), (100, 100)), (30, 50));
    let mut ms = vec![cluster(5, 100, 50, 50, true), cluster(400, 245, 80, 50, true), cluster(1, 1, 5, 5, false)];
    align_macro_clusters(&mut ms, &[0, 1, 2], (500, 300), (20, 20));
    assert_eq!((ms[0].x, ms[0].y), (0, 100));
    assert_eq!((ms[1].x, ms[1].y), (400, 250));
    assert_eq!((ms[2].x, ms[2].y), (1, 1));
}

#[test]
fn the_close_boundaries_are_the_nearer_side_of_each_axis_in_boundary_order() {
    let got = distance_to_close_boundaries((10, 200, 60, 250), (0, 0, 1000, 300), 50, 100);
    assert_eq!(got, vec![(Boundary::L, 10), (Boundary::T, 50)]);
    assert_eq!(distance_to_close_boundaries((400, 100, 500, 200), (0, 0, 1000, 300), 50, 50), vec![]);
    assert_eq!(move_towards_boundary((0, 0, 10, 10), Boundary::L, 5), (-5, 0, 5, 10));
    assert_eq!(move_towards_boundary((0, 0, 10, 10), Boundary::T, 5), (0, 5, 10, 15));
    assert_eq!(move_hard_macro((3, 4), Boundary::B, 2), (3, 2));
    assert_eq!(move_hard_macro((3, 4), Boundary::R, 2), (5, 4));
}

#[test]
fn a_lone_centralised_array_or_an_all_macro_design_is_not_pushed() {
    assert_eq!(push_decision(ClusterType::HardMacro, &[]), Err(NoPush::DesignIsAllMacros));
    assert_eq!(
        push_decision(ClusterType::Mixed, &[(ClusterType::HardMacro, 100), (ClusterType::StdCell, 0)]),
        Err(NoPush::SingleCentralizedMacroArray)
    );
    assert_eq!(push_decision(ClusterType::Mixed, &[(ClusterType::HardMacro, 1), (ClusterType::StdCell, 50)]), Ok(()));
    assert!(!has_single_centralized_macro_array(&[(ClusterType::HardMacro, 1), (ClusterType::HardMacro, 1)]));
    assert!(!has_single_centralized_macro_array(&[(ClusterType::Mixed, 0)]));
    assert_eq!((soft_macro_area(0), soft_macro_area(1), soft_macro_area(2)), (0, 0, 2));
}

#[test]
fn perturbation_counts_and_actions_follow_the_cluster_kind() {
    assert_eq!(cluster_perturbations_per_step(60, 100), 100);
    assert_eq!(cluster_perturbations_per_step(60, 5), 60);
    assert_eq!(macro_perturbations_per_step(60, 10, true), 60);
    assert_eq!(macro_perturbations_per_step(60, 10, false), 10);
    assert_eq!(macro_perturbations_per_step(60, 3, true), 6);
    assert_eq!(placement_action(AreaKind::HardMacroCluster, false, true), PlacementAction::PlaceMacros);
    assert_eq!(placement_action(AreaKind::StdCellCluster, true, false), PlacementAction::PlaceMacrosButRefused);
    assert_eq!(placement_action(AreaKind::StdCellCluster, false, true), PlacementAction::Nothing);
    assert_eq!(placement_action(AreaKind::MixedCluster, false, false), PlacementAction::PlaceChildren);
}

#[test]
fn a_failed_anneal_is_refused_with_the_code_of_its_level() {
    let root = no_valid_solution_error(true, 0, "root");
    assert_eq!(root.code, 40);
    assert_eq!(root.message, "Annealing engine failed to find a valid solution. Core utilization is probably too high. Please, reduce it and try again.");
    let child = no_valid_solution_error(false, 12, "a/b");
    assert_eq!(child.code, 8);
    assert_eq!(child.message, "Annealing engine failed to find a valid solution. Please, report this internal error.\nFailed at cluster (12): a/b");
}
