use vyges_mpl::halo::{
    build_macro_halo, closest_boundary, full_halo, pin_aware_halo, reorient_for_fixed, Boundary, LayerDir, Orient,
    PinBox,
};
use vyges_mpl::options::Halo;

fn pin(x_min: i64, y_min: i64, x_max: i64, y_max: i64, layer_dir: LayerDir) -> PinBox {
    PinBox { x_min, y_min, x_max, y_max, layer_dir }
}

fn halo(left: i64, bottom: i64, right: i64, top: i64) -> Halo {
    Halo { left, bottom, right, top }
}

#[test]
fn a_pin_goes_to_its_nearest_side() {
    assert_eq!(closest_boundary(pin(1, 40, 3, 42, LayerDir::Horizontal), 100, 100), Boundary::L);
    assert_eq!(closest_boundary(pin(97, 40, 99, 42, LayerDir::Horizontal), 100, 100), Boundary::R);
    assert_eq!(closest_boundary(pin(40, 95, 42, 98, LayerDir::Horizontal), 100, 100), Boundary::T);
    assert_eq!(closest_boundary(pin(40, 0, 42, 2, LayerDir::Horizontal), 100, 100), Boundary::B);
}

#[test]
fn a_corner_tie_is_broken_by_the_layer_direction() {
    // Equidistant from the left and the bottom.
    assert_eq!(closest_boundary(pin(5, 5, 7, 7, LayerDir::Vertical), 100, 100), Boundary::B);
    assert_eq!(closest_boundary(pin(5, 5, 7, 7, LayerDir::Horizontal), 100, 100), Boundary::L);
}

#[test]
fn a_soft_halo_is_taken_as_is_and_a_hard_one_is_raised_to_the_base() {
    let base = halo(10, 10, 10, 10);
    assert_eq!(full_halo(None, Some((halo(2, 20, 3, 4), true)), base), halo(2, 20, 3, 4));
    assert_eq!(full_halo(None, Some((halo(2, 20, 3, 4), false)), base), halo(10, 20, 10, 10));
    assert_eq!(full_halo(None, None, base), base);
    assert_eq!(full_halo(Some(halo(1, 1, 1, 1)), Some((halo(2, 20, 3, 4), false)), base), halo(1, 1, 1, 1));
}

#[test]
fn reorienting_twice_gives_back_the_halo() {
    let h = halo(1, 2, 3, 4);
    assert_eq!(reorient_for_fixed(h, Orient::R180), halo(3, 4, 1, 2));
    assert_eq!(reorient_for_fixed(h, Orient::Mx), halo(1, 4, 3, 2));
    assert_eq!(reorient_for_fixed(h, Orient::My), halo(3, 2, 1, 4));
    for o in [Orient::R0, Orient::R180, Orient::Mx, Orient::My, Orient::Other] {
        assert_eq!(reorient_for_fixed(reorient_for_fixed(h, o), o), h);
    }
}

#[test]
fn with_no_pins_every_side_is_the_minimum_spacing() {
    assert_eq!(pin_aware_halo(&[], 100, 100, halo(9, 9, 9, 9), 3), halo(3, 3, 3, 3));
}

#[test]
fn only_sides_facing_a_pin_widen() {
    let pins = [pin(1, 40, 3, 42, LayerDir::Horizontal), pin(40, 95, 42, 98, LayerDir::Horizontal)];
    assert_eq!(pin_aware_halo(&pins, 100, 100, halo(9, 8, 7, 6), 3), halo(9, 3, 3, 6));
}

#[test]
fn an_explicit_halo_wins_before_anything_else() {
    let pins = [pin(1, 40, 3, 42, LayerDir::Horizontal)];
    let r = build_macro_halo(Some(halo(5, 5, 5, 5)), None, halo(9, 9, 9, 9), false, &pins, 100, 100, 3, true, Orient::R180);
    assert_eq!(r, halo(5, 5, 5, 5));
}

#[test]
fn a_fixed_macro_gets_its_pin_aware_halo_reoriented() {
    let pins = [pin(1, 40, 3, 42, LayerDir::Horizontal)];
    let r = build_macro_halo(None, None, halo(9, 9, 9, 9), false, &pins, 100, 100, 3, true, Orient::My);
    assert_eq!(r, halo(3, 3, 9, 3));
    let full = build_macro_halo(None, None, halo(9, 9, 9, 9), true, &pins, 100, 100, 3, true, Orient::My);
    assert_eq!(full, halo(9, 9, 9, 9));
}
