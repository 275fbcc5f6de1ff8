use vyges_mpl::cluster::ClusterType;
use vyges_mpl::placement::push::{run_boundary_push, PushCluster, PushMacro};

fn m(name: &str, cluster_id: i32, x: i32, y: i32, w: i32, h: i32) -> PushMacro {
    PushMacro { name: name.to_string(), cluster_id, location: (x, y), width: w, height: h }
}

#[test]
fn a_cluster_near_the_left_edge_is_pushed_onto_it() {
    let core = (0, 0, 1000, 1000);
    let clusters = vec![PushCluster {
        id: 1,
        name: "c1".to_string(),
        is_fixed_macro: false,
        bbox: (30, 400, 130, 500),
        macros: vec![0],
    }];
    let mut macros = vec![m("u1", 1, 30, 400, 100, 100)];
    let lines = run_boundary_push(ClusterType::Mixed, &[(ClusterType::Mixed, 0)], &clusters, &mut macros, core, &[]);
    assert_eq!(
        lines,
        vec![
            "[DEBUG MPL-boundary_push] Macro Cluster c1".to_string(),
            "Distance to Close Boundaries:".to_string(),
            "L 30".to_string(),
            "[DEBUG MPL-boundary_push] Moved c1 in the direction of L.".to_string(),
        ]
    );
    assert_eq!(macros[0].location, (0, 400));
}

#[test]
fn a_push_into_another_macro_is_reverted_and_named() {
    let core = (0, 0, 1000, 1000);
    let clusters = vec![PushCluster {
        id: 1,
        name: "c1".to_string(),
        is_fixed_macro: false,
        bbox: (30, 400, 130, 500),
        macros: vec![0],
    }];
    let mut macros = vec![m("u1", 1, 30, 400, 100, 100), m("blocker", 2, 0, 420, 20, 20)];
    let lines = run_boundary_push(ClusterType::Mixed, &[(ClusterType::Mixed, 0)], &clusters, &mut macros, core, &[]);
    assert_eq!(lines[3], "[DEBUG MPL-boundary_push] Moved c1 in the direction of L.");
    assert_eq!(
        lines[4],
        "[DEBUG MPL-boundary_push] \tFound overlap with HardMacro blocker. Push will be reverted."
    );
    assert_eq!(macros[0].location, (30, 400));
}

#[test]
fn an_io_blockage_is_printed_with_its_corners() {
    let core = (0, 0, 1000, 1000);
    let clusters = vec![PushCluster {
        id: 1,
        name: "c1".to_string(),
        is_fixed_macro: false,
        bbox: (30, 400, 130, 500),
        macros: vec![0],
    }];
    let mut macros = vec![m("u1", 1, 30, 400, 100, 100)];
    let lines = run_boundary_push(
        ClusterType::Mixed,
        &[(ClusterType::Mixed, 0)],
        &clusters,
        &mut macros,
        core,
        &[(0, 300, 10, 600)],
    );
    assert_eq!(
        lines[4],
        "[DEBUG MPL-boundary_push] \tFound overlap with IO blockage ( 0 300 ) ( 10 600 ). Push will be reverted."
    );
    assert_eq!(macros[0].location, (30, 400));
}

#[test]
fn a_far_cluster_prints_only_its_header() {
    let core = (0, 0, 1000, 1000);
    let clusters = vec![PushCluster {
        id: 1,
        name: "mid".to_string(),
        is_fixed_macro: false,
        bbox: (400, 400, 500, 500),
        macros: vec![0],
    }];
    let mut macros = vec![m("u1", 1, 400, 400, 100, 100)];
    let lines = run_boundary_push(ClusterType::Mixed, &[(ClusterType::Mixed, 0)], &clusters, &mut macros, core, &[]);
    assert_eq!(
        lines,
        vec!["[DEBUG MPL-boundary_push] Macro Cluster mid".to_string(), "Distance to Close Boundaries:".to_string()]
    );
}

#[test]
fn a_fixed_cluster_is_never_pushed() {
    let core = (0, 0, 1000, 1000);
    let clusters = vec![PushCluster {
        id: 1,
        name: "fixed".to_string(),
        is_fixed_macro: true,
        bbox: (30, 400, 130, 500),
        macros: vec![0],
    }];
    let mut macros = vec![m("u1", 1, 30, 400, 100, 100)];
    let lines = run_boundary_push(ClusterType::Mixed, &[(ClusterType::Mixed, 0)], &clusters, &mut macros, core, &[]);
    assert!(lines.is_empty());
    assert_eq!(macros[0].location, (30, 400));
}

#[test]
fn a_lone_centred_array_is_not_pushed() {
    let core = (0, 0, 1000, 1000);
    let clusters = vec![PushCluster {
        id: 1,
        name: "c1".to_string(),
        is_fixed_macro: false,
        bbox: (30, 400, 130, 500),
        macros: vec![0],
    }];
    let mut macros = vec![m("u1", 1, 30, 400, 100, 100)];
    let lines = run_boundary_push(
        ClusterType::Mixed,
        &[(ClusterType::HardMacro, 0), (ClusterType::StdCell, 0)],
        &clusters,
        &mut macros,
        core,
        &[],
    );
    assert!(lines.is_empty());
    assert_eq!(macros[0].location, (30, 400));
}
