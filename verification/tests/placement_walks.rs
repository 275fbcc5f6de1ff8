use vyges_mpl::cluster::ClusterType;
use vyges_mpl::placement::blockages::AreaKind;
use vyges_mpl::placement::walks::{
    cluster_hard_macros, create_groups, fetch_macro_clusters, temporary_std_cell_location,
    temporary_std_cell_placement, GroupCluster, StdCellPlacementCluster,
};

#[test]
fn the_fetch_enters_mixed_clusters_only() {
    // 0 root -> [1 mixed, 2 macro, 3 std]; 1 -> [4 macro, 5 std]; 3 -> [6 macro]
    let types = [
        ClusterType::Mixed,
        ClusterType::Mixed,
        ClusterType::HardMacro,
        ClusterType::StdCell,
        ClusterType::HardMacro,
        ClusterType::StdCell,
        ClusterType::HardMacro,
    ];
    let children = vec![vec![1, 2, 3], vec![4, 5], vec![], vec![6], vec![], vec![], vec![]];
    assert_eq!(fetch_macro_clusters(0, &types, &children), vec![4, 2]);
}

#[test]
fn a_standard_cell_cluster_has_no_hard_macros() {
    let insts = vec![vec![10, 11], vec![12]];
    let subs = vec![vec![1], vec![]];
    let is_macro = vec![false; 13];
    assert!(cluster_hard_macros(ClusterType::StdCell, &[3], &vec![0], &insts, &subs, &is_macro).is_empty());
}

#[test]
fn leaf_macros_come_first_then_the_module_walk() {
    // Module 0 holds 10 (macro), 11 (cell) and child module 1, which holds 12 (macro).
    let insts = vec![vec![10, 11], vec![12]];
    let subs = vec![vec![1], vec![]];
    let mut is_macro = vec![false; 13];
    is_macro[10] = true;
    is_macro[12] = true;
    assert_eq!(
        cluster_hard_macros(ClusterType::HardMacro, &[3, 4], &vec![0], &insts, &subs, &is_macro),
        vec![3, 4, 10, 12]
    );
}

#[test]
fn every_cell_goes_to_the_cluster_centre() {
    assert_eq!(temporary_std_cell_location(None, (4, 4)), None);
    // Centre (50, 25); the cell's half-extent (2, 1) truncated.
    assert_eq!(temporary_std_cell_location(Some(((0, 0), (100, 50))), (5, 3)), Some((48, 24)));
}

fn placement_cluster(is_leaf: bool, n: i32, modules: Vec<usize>, cells: Vec<usize>, children: Vec<usize>) -> StdCellPlacementCluster {
    StdCellPlacementCluster { is_leaf, num_std_cell: n, module_core_insts: modules, leaf_std_cells: cells, children }
}

#[test]
fn only_leaves_with_cells_place_and_modules_come_first() {
    let cs = vec![
        placement_cluster(false, 5, vec![99], vec![98], vec![1, 2, 3]),
        placement_cluster(true, 2, vec![7], vec![8, 7], vec![]),
        placement_cluster(true, 0, vec![5], vec![6], vec![]),
        placement_cluster(true, 1, vec![], vec![9], vec![]),
    ];
    assert_eq!(temporary_std_cell_placement(&cs, 0), vec![(7, 1), (8, 1), (7, 1), (9, 3)]);
}

fn group(name: &str, kind: AreaKind, cells: Vec<usize>, macros: Vec<usize>, mods: Vec<(usize, bool)>, children: Vec<usize>) -> GroupCluster {
    GroupCluster {
        name: name.to_string(),
        kind,
        leaf_std_cells: cells,
        leaf_macros: macros,
        module_insts: mods,
        children,
    }
}

#[test]
fn children_claim_before_the_parent_sweeps() {
    let cs = vec![
        group("root", AreaKind::MixedCluster, vec![1], vec![], vec![(1, false), (2, false), (3, true), (4, false)], vec![1, 2, 3]),
        group("a", AreaKind::StdCellCluster, vec![2], vec![], vec![(3, true), (5, false)], vec![]),
        group("io", AreaKind::IoCluster, vec![4], vec![], vec![], vec![]),
        group("b", AreaKind::HardMacroCluster, vec![], vec![6], vec![(5, false)], vec![]),
    ];
    let groups = create_groups(&cs, 0);
    assert_eq!(
        groups,
        vec![
            ("root".to_string(), vec![1, 3, 4]),
            ("a".to_string(), vec![2, 5]),
            ("b".to_string(), vec![6]),
        ]
    );
}

#[test]
fn an_io_root_makes_no_group() {
    let cs = vec![group("io", AreaKind::IoCluster, vec![1], vec![], vec![], vec![])];
    assert!(create_groups(&cs, 0).is_empty());
}
