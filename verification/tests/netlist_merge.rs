use vyges_mpl::cluster::{is_large_flat_cluster, is_merge_candidate, should_break, Cluster, ClusterType, Metrics};
use vyges_mpl::design::{Design, Instance, MasterKind, Rect};
use vyges_mpl::merge::{is_dust, merge_honors_max_thresholds, merge_into};
use vyges_mpl::netlist::{build_net, connections_for, is_valid_net, DbNet, InstTerm, Net, PortTerm};

fn r(x_min: i64, y_min: i64, x_max: i64, y_max: i64) -> Rect {
    Rect { x_min, y_min, x_max, y_max }
}

fn inst(is_pad: bool) -> Instance {
    Instance {
        name: "i".to_string(),
        is_block: false,
        is_fixed: false,
        bbox: r(0, 0, 1, 1),
        master: MasterKind { is_pad, is_pad_without_signal: false, is_cover: false, is_end_cap: false },
        is_ignorable_macro: false,
    }
}

fn net(is_supply: bool, iterms: Vec<InstTerm>, bterms: Vec<PortTerm>) -> DbNet {
    DbNet { name: "n".to_string(), is_supply, iterms, bterms }
}

fn cells(id: i32, std: i32, macros: i32) -> Cluster {
    let mut c = Cluster::new(id, "c");
    c.metrics = Metrics { num_std_cell: std, num_macro: macros, std_cell_area: 0, macro_area: 0 };
    c
}

#[test]
fn a_net_counts_only_when_some_terminal_is_a_real_instance() {
    let d = Design { instances: vec![inst(true), inst(false)], modules: vec![], top: 0, core_area: r(0, 0, 1, 1), die_area: r(0, 0, 1, 1) };
    let pad_only = net(false, vec![InstTerm { inst: 0, is_output: true }], vec![]);
    let both = net(false, vec![InstTerm { inst: 0, is_output: true }, InstTerm { inst: 1, is_output: false }], vec![]);
    assert!(!is_valid_net(&pad_only, &d));
    assert!(is_valid_net(&both, &d));
    assert!(!is_valid_net(&net(true, both.iterms.clone(), vec![]), &d));
}

#[test]
fn the_last_driver_wins_and_ports_count_only_without_pads() {
    let n = net(
        false,
        vec![InstTerm { inst: 0, is_output: true }, InstTerm { inst: 1, is_output: false }, InstTerm { inst: 2, is_output: true }],
        vec![PortTerm { bterm: 0, is_input: false }, PortTerm { bterm: 1, is_input: true }],
    );
    let insts = [Some(10), Some(11), Some(12)];
    let ports = [Some(20), Some(21)];
    assert_eq!(build_net(&n, &insts, &ports, true), Net { driver: Some(12), loads: vec![11] });
    assert_eq!(build_net(&n, &insts, &ports, false), Net { driver: Some(21), loads: vec![11, 20] });
    assert_eq!(build_net(&n, &[None, Some(11), None], &ports, true), Net { driver: None, loads: vec![11] });
}

#[test]
fn a_net_connects_its_driver_to_each_other_load_below_the_threshold() {
    let n = Net { driver: Some(1), loads: vec![2, 1, 3] };
    assert_eq!(connections_for(&n, 50), vec![(1, 2), (1, 3)]);
    assert_eq!(connections_for(&n, 3), vec![]);
    assert_eq!(connections_for(&Net { driver: None, loads: vec![2] }, 50), vec![]);
    assert_eq!(connections_for(&Net { driver: Some(1), loads: vec![] }, 50), vec![]);
}

#[test]
fn merging_renames_and_either_dissolves_or_adopts() {
    let mut receiver = cells(1, 5, 1);
    receiver.name = "a".to_string();
    receiver.leaf_std_cells = vec![1, 2];
    let mut incomer = cells(2, 3, 0);
    incomer.name = "b".to_string();
    incomer.leaf_std_cells = vec![7];
    assert!(merge_into(&mut receiver, incomer));
    assert_eq!(receiver.name, "a||b");
    assert_eq!(receiver.leaf_std_cells, vec![1, 2, 7]);
    assert_eq!((receiver.metrics.num_std_cell, receiver.metrics.num_macro), (8, 1));

    let mut parent = cells(3, 0, 0);
    parent.name = "p".to_string();
    parent.add_children(vec![cells(4, 1, 0)]);
    let mut other = cells(5, 2, 0);
    other.name = "q".to_string();
    assert!(!merge_into(&mut parent, other));
    assert_eq!(parent.name, "p||q");
    assert_eq!(parent.children.iter().map(|c| c.id).collect::<Vec<_>>(), vec![4, 5]);
}

#[test]
fn thresholds_decide_dust_breaking_and_merging() {
    assert!(is_dust(&cells(1, 10, 0)));
    assert!(!is_dust(&cells(1, 11, 0)));
    assert!(!is_dust(&cells(1, 1, 1)));
    assert!(merge_honors_max_thresholds(&cells(1, 5, 1), &cells(2, 5, 1), 10, 2));
    assert!(!merge_honors_max_thresholds(&cells(1, 5, 1), &cells(2, 6, 1), 10, 2));
    assert!(should_break(&cells(1, 11, 0), 10, 5));
    assert!(!should_break(&cells(1, 10, 5), 10, 5));
    assert!(is_merge_candidate(&cells(1, 4, 0), 5, 1));
    assert!(!is_merge_candidate(&cells(1, 5, 0), 5, 1));
    let mut flat = cells(1, 0, 0);
    flat.leaf_std_cells = vec![1, 2, 3];
    assert!(is_large_flat_cluster(&flat, 2, 5));
    flat.db_modules = vec![0];
    assert!(!is_large_flat_cluster(&flat, 2, 5));
}

#[test]
fn a_macro_cluster_reports_no_standard_cells_and_names_its_type() {
    let mut c = cells(1, 7, 2);
    c.cluster_type = ClusterType::HardMacro;
    assert_eq!(c.num_std_cell(), 0);
    assert_eq!(c.type_string(), "Macro");
    assert_eq!(c.is_leaf_string(), "Leaf");
    c.set_as_io_bundle((0, 0), 10, 0);
    assert_eq!(c.type_string(), "IO Bundle");
    assert_eq!(c.is_leaf_string(), "");
    assert!(c.is_io_cluster());
}
