use vyges_mpl::design::{compute_module_metrics, floorplan_shape, unfixed_macros, Design, Instance, MasterKind, Module, Rect};
use vyges_mpl::pipeline::{order, StageId};
use vyges_mpl::sort::sort_i32;
use vyges_mpl::status::Status;
use vyges_mpl::text::{decimal, push_decimal, push_signed};

fn r(x_min: i64, y_min: i64, x_max: i64, y_max: i64) -> Rect {
    Rect { x_min, y_min, x_max, y_max }
}

fn inst(name: &str, is_block: bool, is_fixed: bool, bbox: Rect) -> Instance {
    Instance {
        name: name.to_string(),
        is_block,
        is_fixed,
        bbox,
        master: MasterKind { is_pad: false, is_pad_without_signal: false, is_cover: false, is_end_cap: false },
        is_ignorable_macro: false,
    }
}

fn module(name: &str, insts: Vec<usize>, children: Vec<usize>) -> Module {
    Module { name: name.to_string(), hierarchical_name: name.to_string(), insts, children }
}

fn design() -> Design {
    Design {
        instances: vec![
            inst("m0", true, false, r(0, 0, 10, 10)),
            inst("f1", false, true, r(5, 5, 6, 6)),
            inst("u2", false, false, r(0, 0, 2, 3)),
            inst("u3", false, false, r(0, 0, 1, 1)),
            inst("m4", true, true, r(0, 0, 4, 4)),
        ],
        modules: vec![module("top", vec![0, 1, 2], vec![1]), module("sub", vec![3], vec![])],
        top: 0,
        core_area: r(0, 0, 100, 100),
        die_area: r(0, 0, 100, 100),
    }
}

#[test]
fn module_metrics_count_recursively_and_report_fixed_cells_in_the_area() {
    let d = design();
    let mut errors = Vec::new();
    let m = compute_module_metrics(&d, 0, &r(0, 0, 100, 100), &mut errors);
    assert_eq!((m.num_std_cell, m.num_macro, m.std_cell_area, m.macro_area), (2, 1, 7, 100));
    assert_eq!(errors.iter().map(|e| e.name.as_str()).collect::<Vec<_>>(), vec!["f1"]);
    let mut errors = Vec::new();
    let outside = compute_module_metrics(&d, 0, &r(50, 50, 100, 100), &mut errors);
    assert!(errors.is_empty());
    assert_eq!(outside.num_std_cell, 3);
}

#[test]
fn only_unfixed_blocks_are_unfixed_macros() {
    assert_eq!(unfixed_macros(&design()), vec![0]);
}

#[test]
fn a_fence_narrows_the_floorplan_and_an_empty_one_is_refused() {
    let core = r(0, 0, 100, 100);
    assert_eq!(floorplan_shape(&core, None), Some(core));
    assert_eq!(floorplan_shape(&core, Some(&r(50, 50, 200, 200))), Some(r(50, 50, 100, 100)));
    assert_eq!(floorplan_shape(&core, Some(&r(200, 200, 300, 300))), None);
}

#[test]
fn numbers_print_in_decimal() {
    assert_eq!(decimal(-42), "-42");
    assert_eq!(decimal(0), "0");
    assert_eq!(decimal(i64::MIN), "-9223372036854775808");
    let mut s = String::from("n=");
    push_decimal(&mut s, 1907);
    push_signed(&mut s, -3);
    assert_eq!(s, "n=1907-3");
}

#[test]
fn words_stages_and_sorting() {
    assert_eq!((Status::Applied.as_str(), Status::Vacuous.as_str(), Status::Refused.as_str()), ("applied", "vacuous", "refused"));
    let stages = order();
    assert_eq!(stages.len(), 10);
    assert_eq!(stages[0], StageId::MultilevelAutoclustering);
    assert_eq!(stages[9], StageId::ComputeWireLength);
    assert_eq!(stages[0].upstream_name(), "runMultilevelAutoclustering");
    assert_eq!(sort_i32(vec![3, -1, 2, -1]), vec![-1, -1, 2, 3]);
}
