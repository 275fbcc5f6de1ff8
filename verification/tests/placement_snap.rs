use vyges_mpl::halo::Orient;
use vyges_mpl::placement::snap::{
    align_with_manufacturing_grid, aligned_pins_on_layer, pin_offset, search_extra_patterns, snap_layer_data,
    snap_origin_to_position, spiral_step, starting_position_index, MissingTrackGrid, SnapAxis, SnapPinCandidate,
};

#[test]
fn only_three_orientations_negate_the_offset() {
    assert_eq!(pin_offset(5, 10, Orient::R0, SnapAxis::Vertical), 12);
    assert_eq!(pin_offset(5, 10, Orient::My, SnapAxis::Vertical), -12);
    assert_eq!(pin_offset(5, 10, Orient::Mx, SnapAxis::Vertical), 12);
    assert_eq!(pin_offset(5, 10, Orient::R180, SnapAxis::Horizontal), -12);
    assert_eq!(pin_offset(5, 10, Orient::Mx, SnapAxis::Horizontal), -12);
    assert_eq!(pin_offset(5, 10, Orient::Other, SnapAxis::Horizontal), 12);
}

#[test]
fn alignment_rounds_half_away_from_zero() {
    assert_eq!(align_with_manufacturing_grid(15, 10), 20);
    assert_eq!(align_with_manufacturing_grid(14, 10), 10);
    assert_eq!(align_with_manufacturing_grid(-15, 10), -20);
    assert_eq!(align_with_manufacturing_grid(-14, 10), -10);
    assert_eq!(align_with_manufacturing_grid(7, 5), 5);
    assert_eq!(align_with_manufacturing_grid(8, 5), 10);
}

#[test]
fn a_zero_grid_gives_zero() {
    assert_eq!(align_with_manufacturing_grid(1234, 0), 0);
    assert_eq!(align_with_manufacturing_grid(0, 0), 0);
}

#[test]
fn alignment_agrees_with_float_rounding() {
    for origin in [-1001, -999, -10, -5, 0, 3, 5, 7, 105, 2_000_001] {
        for grid in [1, 2, 3, 5, 10, 7, 1000] {
            let expected = ((origin as f64 / grid as f64).round() * grid as f64) as i32;
            assert_eq!(align_with_manufacturing_grid(origin, grid), expected);
        }
    }
}

#[test]
fn the_snap_targets_the_track_then_the_grid() {
    assert_eq!(snap_origin_to_position(1000, 35, 10), 970);
}

#[test]
fn the_first_track_at_or_after_the_pin() {
    assert_eq!(starting_position_index(&[], 5), None);
    assert_eq!(starting_position_index(&[0, 10, 20], 5), Some(1));
    assert_eq!(starting_position_index(&[0, 10, 20], 10), Some(1));
    assert_eq!(starting_position_index(&[0, 10, 20], -3), Some(0));
    assert_eq!(starting_position_index(&[0, 10, 20], 25), Some(2));
}

#[test]
fn the_spiral_goes_positive_first() {
    let steps: Vec<i32> = (0..7).map(spiral_step).collect();
    assert_eq!(steps, vec![0, 1, -1, 2, -2, 3, -3]);
    assert_eq!(spiral_step(100), -50);
    assert_eq!(spiral_step(99), 50);
}

#[test]
fn aligned_pins_merge_two_ascending_lists() {
    assert_eq!(aligned_pins_on_layer(&[0, 10, 15, 20], &[0, 10, 20]), 3);
    assert_eq!(aligned_pins_on_layer(&[5, 10, 30], &[0, 10, 20]), 1);
    assert_eq!(aligned_pins_on_layer(&[], &[0]), 0);
}

#[test]
fn a_later_candidate_must_strictly_win() {
    // Counts by track index; the start is index 2.
    let counts = [1, 3, 3, 0, 2];
    let r = search_extra_patterns(2, 4, &counts);
    assert_eq!((r.best_index, r.best_aligned, r.all_aligned), (2, 3, false));
}

#[test]
fn the_search_stops_when_every_pin_aligns() {
    let counts = [5, 1, 0, 5];
    let r = search_extra_patterns(1, 5, &counts);
    assert_eq!((r.best_index, r.best_aligned, r.all_aligned), (0, 5, true));
}

#[test]
fn no_aligned_pin_falls_back_to_the_start() {
    let r = search_extra_patterns(1, 3, &[0, 0, 0]);
    assert_eq!((r.best_index, r.best_aligned, r.all_aligned), (1, 0, false));
}

fn cand(iterm: usize, layer: usize, number: i32, vertical: bool, grid: bool, center: i32) -> SnapPinCandidate {
    SnapPinCandidate {
        iterm,
        is_signal: true,
        layer,
        layer_number: number,
        layer_is_vertical: vertical,
        has_track_grid: grid,
        center,
    }
}

#[test]
fn layers_sort_by_number_and_pins_by_centre() {
    let cs = vec![
        cand(1, 7, 3, true, true, 50),
        cand(2, 4, 1, true, true, 40),
        cand(3, 7, 3, true, true, 20),
        cand(4, 9, 2, false, true, 10),
        SnapPinCandidate { is_signal: false, ..cand(5, 4, 1, true, true, 0) },
        cand(6, 7, 3, true, true, 20),
    ];
    let data = snap_layer_data(&cs, SnapAxis::Vertical).unwrap();
    assert_eq!(data.len(), 2);
    assert_eq!((data[0].layer, data[0].layer_number, data[0].pins.clone()), (4, 1, vec![2]));
    assert_eq!((data[1].layer, data[1].layer_number, data[1].pins.clone()), (7, 3, vec![3, 6, 1]));
    let h = snap_layer_data(&cs, SnapAxis::Horizontal).unwrap();
    assert_eq!(h.len(), 1);
    assert_eq!(h[0].pins, vec![4]);
}

#[test]
fn a_kept_pin_without_tracks_refuses_the_pass() {
    let cs = vec![cand(1, 4, 1, true, true, 5), cand(2, 8, 2, true, false, 5), cand(3, 9, 3, true, false, 5)];
    assert_eq!(snap_layer_data(&cs, SnapAxis::Vertical), Err(MissingTrackGrid(8)));
    // The horizontal pass does not look at vertical layers.
    assert_eq!(snap_layer_data(&cs, SnapAxis::Horizontal), Ok(vec![]));
}
