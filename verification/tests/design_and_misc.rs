use vyges_mpl::anneal::{shape_curve_from_intervals, Interval};
use vyges_mpl::design::{Design, Instance, MasterKind, Module, Rect};
use vyges_mpl::engine::shaping_handoff;
use vyges_mpl::feasibility::macro_fits_in_core;
use vyges_mpl::ioclusters::{IoClusters, Pin};
use vyges_mpl::macroclass::{classify_by_size, MacroSize};
use vyges_mpl::placement::blockages::{area_kind_of, AreaKind};
use vyges_mpl::placement::deadspace::{fill_dead_space, DeadSpaceMacro};
use vyges_mpl::read::mark_ignorable_macros;
use vyges_mpl::regions::{IoRegion};
use vyges_mpl::rng::Mt19937;
use vyges_mpl::text::decimal;
use vyges_mpl::cluster::{Cluster, ClusterType};

fn rect(x_min: i64, y_min: i64, x_max: i64, y_max: i64) -> Rect {
    Rect { x_min, y_min, x_max, y_max }
}

fn inst(name: &str, is_block: bool, is_fixed: bool, bbox: Rect) -> Instance {
    Instance {
        name: name.to_string(),
        is_block,
        is_fixed,
        bbox,
        master: MasterKind { is_pad: false, is_pad_without_signal: false, is_cover: false, is_end_cap: false },
        is_ignorable_macro: false,
    }
}

fn module(name: &str, insts: Vec<usize>, children: Vec<usize>) -> Module {
    Module { name: name.to_string(), hierarchical_name: name.to_string(), insts, children }
}

fn small_design() -> Design {
    Design {
        instances: vec![
            inst("u0", false, false, rect(0, 0, 1, 1)),
            inst("m1", true, true, rect(500, 500, 600, 600)),
            inst("m2", true, true, rect(50, 50, 60, 60)),
            inst("m3", true, false, rect(700, 700, 800, 800)),
            inst("u4", false, false, rect(0, 0, 1, 1)),
        ],
        modules: vec![module("top", vec![0], vec![1, 2]), module("a", vec![1, 2], vec![]), module("b", vec![3, 4], vec![])],
        top: 0,
        core_area: rect(0, 0, 400, 400),
        die_area: rect(0, 0, 1000, 1000),
    }
}

#[test]
fn the_module_walk_takes_the_last_child_first() {
    assert_eq!(small_design().module_owned_instances(), vec![0, 3, 4, 1, 2]);
}

#[test]
fn only_fixed_macros_outside_the_area_are_ignorable() {
    let mut d = small_design();
    let names = mark_ignorable_macros(&mut d, &rect(0, 0, 400, 400));
    assert_eq!(names, vec!["m1".to_string()]);
    assert!(d.instances[1].is_ignorable_macro);
    assert!(!d.instances[2].is_ignorable_macro);
    assert!(!d.instances[3].is_ignorable_macro);
}

#[test]
fn a_macro_fits_the_core_with_its_halo() {
    assert!(macro_fits_in_core(400, 400, &rect(0, 0, 400, 400)));
    assert!(!macro_fits_in_core(401, 10, &rect(0, 0, 400, 400)));
    assert!(!macro_fits_in_core(10, 401, &rect(0, 0, 400, 400)));
}

#[test]
fn touching_intervals_merge_and_heights_keep_the_area() {
    let ivs = [Interval { min: 20, max: 30 }, Interval { min: 5, max: 10 }, Interval { min: 10, max: 12 }];
    let (curve, width, height, area) = shape_curve_from_intervals(&ivs, 600).unwrap();
    assert_eq!(curve.width_intervals, vec![Interval { min: 5, max: 12 }, Interval { min: 20, max: 30 }]);
    assert_eq!(curve.height_intervals, vec![Interval { min: 50, max: 120 }, Interval { min: 20, max: 30 }]);
    assert_eq!((width, height, area), (5, 120, 600));
}

#[test]
fn no_intervals_or_no_area_gives_no_curve() {
    assert!(shape_curve_from_intervals(&[], 100).is_none());
    assert!(shape_curve_from_intervals(&[Interval { min: 1, max: 2 }], 0).is_none());
}

#[test]
fn decimals_carry_their_sign() {
    assert_eq!(decimal(0), "0");
    assert_eq!(decimal(-42), "-42");
    assert_eq!(decimal(i64::MIN), "-9223372036854775808");
}

#[test]
fn the_generator_matches_the_standard_sequence() {
    let mut g = Mt19937::new(5489);
    assert_eq!(g.next(), 3499211612);
}

#[test]
fn the_first_macro_of_a_size_leads_it() {
    let sizes = [
        MacroSize { width: 10, height: 20 },
        MacroSize { width: 5, height: 5 },
        MacroSize { width: 10, height: 20 },
        MacroSize { width: 5, height: 5 },
        MacroSize { width: 20, height: 10 },
    ];
    assert_eq!(classify_by_size(&sizes), vec![0, 1, 0, 1, 4]);
}

fn dead(x: i32, y: i32, width: i32, height: i32, mixed: bool, std_cell: bool) -> DeadSpaceMacro {
    DeadSpaceMacro {
        x,
        y,
        width,
        height,
        area: width as i64 * height as i64,
        is_mixed_cluster: mixed,
        is_std_cell_cluster: std_cell,
    }
}

#[test]
fn a_cell_cluster_grows_left_top_right_then_down() {
    let mut ms = vec![dead(0, 0, 40, 100, false, false), dead(60, 40, 20, 20, false, true)];
    fill_dead_space(&mut ms, (100, 100));
    assert_eq!((ms[0].x, ms[0].y, ms[0].width, ms[0].height), (0, 0, 40, 100));
    assert_eq!((ms[1].x, ms[1].y, ms[1].width, ms[1].height, ms[1].area), (40, 0, 60, 100, 6000));
}

#[test]
fn a_mixed_cluster_grows_before_a_cell_cluster() {
    let mut ms = vec![dead(10, 10, 10, 10, false, true), dead(70, 10, 10, 10, true, false)];
    fill_dead_space(&mut ms, (100, 100));
    // The mixed cluster takes everything right of the cell cluster first.
    assert_eq!((ms[1].x, ms[1].y, ms[1].width, ms[1].height), (20, 0, 80, 100));
    assert_eq!((ms[0].x, ms[0].y, ms[0].width, ms[0].height), (0, 0, 20, 100));
}

#[test]
fn a_cluster_is_classified_io_first_then_fixed_then_by_type() {
    let mut c = Cluster::new(1, "c");
    c.cluster_type = ClusterType::HardMacro;
    assert_eq!(area_kind_of(&c), AreaKind::HardMacroCluster);
    c.is_fixed_macro = true;
    assert_eq!(area_kind_of(&c), AreaKind::FixedMacro);
    c.is_io_pad_cluster = true;
    assert_eq!(area_kind_of(&c), AreaKind::IoCluster);
}

#[test]
fn the_handoff_counts_ports_and_keeps_only_constrained_pin_regions() {
    let d = small_design();
    let pins = vec![
        Pin { name: "a".to_string(), bbox: rect(0, 0, 0, 0), is_fixed: true, constraint: None },
        Pin { name: "b".to_string(), bbox: rect(0, 0, 0, 0), is_fixed: false, constraint: None },
        Pin { name: "c".to_string(), bbox: rect(0, 0, 0, 0), is_fixed: false, constraint: None },
    ];
    let mut unconstrained = Cluster::new(7, "u");
    unconstrained.is_cluster_of_unconstrained_io_pins = true;
    unconstrained.io_region = Some(rect(0, 10, 0, 90));
    let mut constrained = Cluster::new(8, "k");
    constrained.io_region = Some(rect(10, 1000, 90, 1000));
    constrained.num_io_pins = 4;
    let io = IoClusters {
        bundles: vec![],
        pin_clusters: vec![unconstrained, constrained],
        assignment: vec![],
        has_io_clusters: true,
        next_id: 9,
    };
    let h = shaping_handoff(&d, &pins, &[], &rect(0, 0, 400, 400), 5, 6, vec![], vec![], &io, false, 0);
    assert_eq!((h.fixed_ios, h.unfixed_ios), (1, 2));
    assert!(h.has_unconstrained_ios);
    assert!(!h.has_only_macros);
    assert!(!h.has_std_cells);
    assert_eq!(h.constrained_regions.len(), 1);
    let r: IoRegion = h.constrained_regions[0];
    assert_eq!(r.ios, 4);
    assert_eq!(r.region.line, rect(10, 1000, 90, 1000));
    assert_eq!(r.region.boundary, vyges_mpl::halo::Boundary::T);
}
