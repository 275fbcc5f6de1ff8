use vyges_mpl::anneal::SoftMacro;
use vyges_mpl::cluster::{Cluster, ClusterType, Metrics};
use vyges_mpl::placement::blockages::AreaKind;
use vyges_mpl::placement::parent::build_parent_problem;
use vyges_mpl::shaping::Tiling;

fn sm(x: i32, y: i32, width: i32, height: i32, fixed: bool, area: i64, is_macro_cluster: bool) -> SoftMacro {
    SoftMacro { x, y, width, height, fixed, area, is_macro_cluster }
}

fn child(id: i32, name: &str, ty: ClusterType, std_area: i64, macro_area: i64, tilings: Vec<(i64, i64)>) -> Cluster {
    let mut c = Cluster::new(id, name);
    c.cluster_type = ty;
    c.metrics = Metrics { num_std_cell: 3, num_macro: 0, std_cell_area: std_area, macro_area };
    c.tilings = tilings.into_iter().map(|(width, height)| Tiling { width, height }).collect();
    c
}

fn parent(children: Vec<Cluster>) -> Cluster {
    let mut p = Cluster::new(0, "top");
    p.add_children(children);
    p
}

#[test]
fn a_parent_lays_out_blockages_children_io_clusters_and_terminals() {
    let std = child(1, "std", ClusterType::StdCell, 500, 0, vec![(10, 50)]);
    let mut io = child(2, "io", ClusterType::Mixed, 0, 0, vec![]);
    io.is_io_bundle = true;
    io.soft_macro = Some(sm(100, 0, 0, 20, true, 0, false));
    let mut fixed = child(3, "fixed", ClusterType::HardMacro, 0, 2500, vec![]);
    fixed.is_fixed_macro = true;
    fixed.soft_macro = Some(sm(0, 0, 50, 50, true, 2500, true));
    let mixed = child(4, "mixed", ClusterType::Mixed, 100, 300, vec![(20, 20), (40, 10)]);
    let p = parent(vec![std, io, fixed, mixed]);
    let outline = (10, 10, 210, 210);
    let terminals = vec![("t0".to_string(), sm(3, 4, 0, 0, true, 0, false))];
    let r = build_parent_problem(
        &p,
        outline,
        &[(0, 0, 5, 5)],
        &[None, None, Some((0, 0, 50, 50)), Some((0, 0, 300, 300))],
        &[None, None, None, None],
        &terminals,
    );
    assert_eq!(
        r.macros,
        vec![
            sm(0, 0, 5, 5, true, 25, false),
            sm(0, 0, 10, 50, false, 500, false),
            sm(0, 0, 40, 40, true, 1600, true),
            sm(0, 0, 20, 20, false, 400, false),
            sm(90, -10, 0, 20, true, 0, false),
            sm(3, 4, 0, 0, true, 0, false),
        ]
    );
    assert_eq!(r.number_of_sequence_pair_macros, 4);
    let kinds: Vec<Option<AreaKind>> = r.reshape.iter().map(|e| e.kind).collect();
    assert_eq!(
        kinds,
        vec![
            Some(AreaKind::Blockage),
            Some(AreaKind::StdCellCluster),
            Some(AreaKind::FixedMacro),
            Some(AreaKind::MixedCluster),
            Some(AreaKind::IoCluster),
            None
        ]
    );
    assert_eq!(r.reshape[3].cluster_area, 400);
    assert_eq!(r.reshape[3].cluster_std_cell_area, 100);
    assert_eq!(r.reshape[3].tilings, vec![(20, 20), (40, 10)]);
    assert_eq!(r.reshape[1].num_std_cell, 3);
    assert_eq!(r.fences, vec![(3, (0, 0, 200, 200))]);
    assert!(r.guides.is_empty());
    assert_eq!(r.outline_origin, (10, 10));
    assert_eq!(r.outline, (200, 200));
    assert_eq!(r.fixed_bboxes, vec![(0, 0, 5, 5), (0, 0, 40, 40)]);
    assert!(!r.force_centralization);
    assert_eq!(r.names, vec!["", "std", "fixed", "mixed", "io", "t0"]);
}

#[test]
fn one_macro_array_and_one_cell_cluster_force_centralization() {
    let array = child(1, "array", ClusterType::HardMacro, 0, 800, vec![(20, 40), (40, 20)]);
    let cells = child(2, "cells", ClusterType::StdCell, 200, 0, vec![(10, 20)]);
    let p = parent(vec![array, cells]);
    let r = build_parent_problem(&p, (0, 0, 100, 100), &[], &[None, None], &[None, None], &[]);
    assert!(r.force_centralization);
    assert_eq!(r.number_of_sequence_pair_macros, 2);
    assert!(r.fixed_bboxes.is_empty());
    assert_eq!(r.macros[0], sm(0, 0, 20, 40, false, 800, true));
}
