use vyges_mpl::design::{Design, Instance, MasterKind, Rect};
use vyges_mpl::engine::resolve_halos;
use vyges_mpl::halo::Orient;
use vyges_mpl::options::Halo;
use vyges_mpl::read::MacroGeometry;

fn r(x_min: i64, y_min: i64, x_max: i64, y_max: i64) -> Rect {
    Rect { x_min, y_min, x_max, y_max }
}

fn inst(name: &str, is_block: bool, is_fixed: bool, bbox: Rect) -> Instance {
    Instance {
        name: name.to_string(),
        is_block,
        is_fixed,
        bbox,
        master: MasterKind { is_pad: false, is_pad_without_signal: false, is_cover: false, is_end_cap: false },
        is_ignorable_macro: false,
    }
}

fn geometry(w: i64, h: i64) -> Option<MacroGeometry> {
    Some(MacroGeometry { master_width: w, master_height: h, pins: vec![], inst_halo: None, orient: Orient::R0 })
}

fn design(instances: Vec<Instance>) -> Design {
    Design { instances, modules: vec![], top: 0, core_area: r(0, 0, 400, 400), die_area: r(0, 0, 400, 400) }
}

fn halo(v: i64) -> Halo {
    Halo { left: v, bottom: v, right: v, top: v }
}

#[test]
fn an_explicit_halo_wins_and_a_cell_without_geometry_gets_none() {
    let d = design(vec![inst("m0", true, false, r(0, 0, 100, 100)), inst("u1", false, false, r(0, 0, 1, 1))]);
    let geo = vec![geometry(100, 100), None];
    let got = resolve_halos(&d, &geo, &[Some(halo(10)), None], halo(5), false, 0, &r(0, 0, 400, 400));
    assert_eq!(got, Ok(vec![halo(10), halo(0)]));
}

#[test]
fn a_fixed_macro_outside_the_area_is_skipped() {
    let d = design(vec![inst("m0", true, true, r(500, 500, 600, 600))]);
    let geo = vec![geometry(100, 100)];
    let got = resolve_halos(&d, &geo, &[Some(halo(1000))], halo(5), false, 0, &r(0, 0, 400, 400));
    assert_eq!(got, Ok(vec![halo(0)]));
}

#[test]
fn the_first_macro_that_does_not_fit_the_core_is_refused() {
    let d = design(vec![
        inst("m0", true, false, r(0, 0, 100, 100)),
        inst("m1", true, false, r(0, 0, 100, 100)),
        inst("m2", true, false, r(0, 0, 100, 100)),
    ]);
    let geo = vec![geometry(100, 100), geometry(300, 100), geometry(500, 100)];
    let got = resolve_halos(&d, &geo, &[None, Some(halo(60)), None], halo(5), false, 0, &r(0, 0, 400, 400));
    let e = got.unwrap_err();
    assert_eq!(e.code, 6);
    assert_eq!(e.message, "Found macro that does not fit in the core.\nName: m1");
}
