use vyges_mpl::design::{Design, Instance, MasterKind, Module, ModuleMetrics, Rect};
use vyges_mpl::engine::{clustering_preflight, Preflight, PreflightOutcome, Refusal};
use vyges_mpl::halo::Orient;
use vyges_mpl::options::Halo;
use vyges_mpl::read::MacroGeometry;

fn r(x_min: i64, y_min: i64, x_max: i64, y_max: i64) -> Rect {
    Rect { x_min, y_min, x_max, y_max }
}

fn inst(name: &str, is_block: bool, is_fixed: bool, bbox: Rect) -> Instance {
    Instance {
        name: name.to_string(),
        is_block,
        is_fixed,
        bbox,
        master: MasterKind { is_pad: false, is_pad_without_signal: false, is_cover: false, is_end_cap: false },
        is_ignorable_macro: false,
    }
}

fn geometry(w: i64, h: i64) -> Option<MacroGeometry> {
    Some(MacroGeometry { master_width: w, master_height: h, pins: vec![], inst_halo: None, orient: Orient::R0 })
}

fn design(instances: Vec<Instance>) -> Design {
    let top = Module {
        name: "top".to_string(),
        hierarchical_name: "top".to_string(),
        insts: (0..instances.len()).collect(),
        children: vec![],
    };
    Design { instances, modules: vec![top], top: 0, core_area: r(0, 0, 400, 400), die_area: r(0, 0, 400, 400) }
}

fn halo(v: i64) -> Halo {
    Halo { left: v, bottom: v, right: v, top: v }
}

fn run(d: &Design, geo: &[Option<MacroGeometry>], fence: Option<&Rect>) -> PreflightOutcome {
    let explicit: Vec<Option<Halo>> = vec![None; geo.len()];
    clustering_preflight(d, geo, &explicit, halo(5), false, 0, fence, &[])
}

fn mpl_code(o: &PreflightOutcome) -> (u16, String) {
    match o {
        PreflightOutcome::Refused(Refusal::Mpl(e)) => (e.code, e.message.clone()),
        other => panic!("expected an MPL refusal, got {:?}", other),
    }
}

#[test]
fn a_fence_outside_the_core_is_refused_first() {
    let d = design(vec![inst("m0", true, false, r(0, 0, 100, 100))]);
    let fence = r(500, 500, 600, 600);
    let got = run(&d, &[geometry(500, 100)], Some(&fence));
    assert_eq!(mpl_code(&got), (68, "The global fence set is completely outside the core area.".to_string()));
}

#[test]
fn a_macro_wider_than_the_core_is_refused() {
    let d = design(vec![inst("m0", true, false, r(0, 0, 100, 100))]);
    let got = run(&d, &[geometry(500, 100)], None);
    assert_eq!(mpl_code(&got), (6, "Found macro that does not fit in the core.\nName: m0".to_string()));
}

#[test]
fn cells_that_overfill_the_area_are_refused() {
    let d = design(vec![inst("m0", true, false, r(0, 0, 100, 100)), inst("u0", false, false, r(0, 0, 400, 400))]);
    let got = run(&d, &[geometry(100, 100), None], None);
    assert_eq!(mpl_code(&got), (65, "The movable cells do not fit in the macro placement area.".to_string()));
}

#[test]
fn a_fixed_cell_inside_the_area_is_an_error() {
    let d = design(vec![inst("m0", true, false, r(0, 0, 100, 100)), inst("u9", false, true, r(200, 200, 210, 210))]);
    let got = run(&d, &[geometry(100, 100), None], None);
    assert_eq!(
        got,
        PreflightOutcome::Refused(Refusal::Error("fixed non-macro instance u9 inside the macro placement area".to_string()))
    );
}

#[test]
fn only_fixed_macros_is_vacuous() {
    let d = design(vec![inst("m0", true, true, r(0, 0, 100, 100))]);
    assert_eq!(run(&d, &[geometry(100, 100)], None), PreflightOutcome::Vacuous);
}

#[test]
fn halos_and_cells_beyond_the_fence_area_are_refused() {
    let d = design(vec![inst("m0", true, false, r(0, 0, 100, 100)), inst("u1", false, true, r(201, 0, 400, 400))]);
    let fence = r(0, 0, 200, 200);
    let got = run(&d, &[geometry(100, 100), None], Some(&fence));
    assert_eq!(
        mpl_code(&got),
        (16, "The instance area considering the macros' halos exceeds the floorplan area.".to_string())
    );
}

#[test]
fn a_design_that_passes_carries_its_haloed_macros() {
    let d = design(vec![inst("m0", true, false, r(0, 0, 100, 100)), inst("u0", false, false, r(200, 200, 210, 210))]);
    let explicit = vec![Some(halo(5)), None];
    let got = clustering_preflight(&d, &[geometry(100, 100), None], &explicit, halo(5), false, 0, None, &[]);
    let expected = Preflight {
        placement_area: r(0, 0, 400, 400),
        halos: vec![halo(5), halo(0)],
        macro_dims: vec![(110, 110), (0, 0)],
        macro_bboxes: vec![r(-5, -5, 105, 105), r(0, 0, 0, 0)],
        design_metrics: ModuleMetrics { num_std_cell: 1, num_macro: 1, std_cell_area: 100, macro_area: 10000 },
        unfixed: vec![0],
        macro_with_halo_area: 12100,
    };
    assert_eq!(got, PreflightOutcome::Proceed(expected));
}
