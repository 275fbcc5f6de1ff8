use vyges_mpl::coverage::union_area;
use vyges_mpl::design::{Design, Instance, MasterKind, Rect};
use vyges_mpl::feasibility::movable_cells_fit;

fn r(x_min: i64, y_min: i64, x_max: i64, y_max: i64) -> Rect {
    Rect { x_min, y_min, x_max, y_max }
}

#[test]
fn overlapping_rectangles_are_counted_once() {
    assert_eq!(union_area(&[]), 0);
    assert_eq!(union_area(&[r(0, 0, 10, 10)]), 100);
    assert_eq!(union_area(&[r(0, 0, 10, 10), r(5, 5, 15, 15)]), 175);
    assert_eq!(union_area(&[r(0, 0, 10, 10), r(0, 0, 10, 10)]), 100);
    assert_eq!(union_area(&[r(0, 0, 10, 10), r(2, 2, 3, 3)]), 100);
    assert_eq!(union_area(&[r(0, 0, 2, 2), r(10, 10, 13, 12)]), 10);
    assert_eq!(union_area(&[r(0, 0, 10, 4), r(0, 6, 10, 10), r(4, 0, 6, 10)]), 84);
}

#[test]
fn an_inverted_or_empty_rectangle_covers_nothing() {
    assert_eq!(union_area(&[r(10, 10, 0, 0)]), 0);
    assert_eq!(union_area(&[r(0, 0, 0, 10), r(3, 3, 3, 3)]), 0);
    assert_eq!(union_area(&[r(10, 10, 0, 0), r(-5, -5, 5, 5)]), 100);
}

fn inst(is_block: bool, is_fixed: bool, bbox: Rect) -> Instance {
    Instance {
        name: "i".to_string(),
        is_block,
        is_fixed,
        bbox,
        master: MasterKind { is_pad: false, is_pad_without_signal: false, is_cover: false, is_end_cap: false },
        is_ignorable_macro: false,
    }
}

fn design(instances: Vec<Instance>) -> Design {
    Design { instances, modules: vec![], top: 0, core_area: r(0, 0, 100, 100), die_area: r(0, 0, 100, 100) }
}

#[test]
fn blockages_inside_the_area_count_once_and_fixed_cells_only_inside() {
    let area = r(0, 0, 100, 100);
    // a fixed cell half outside contributes 25 * 100, an unfixed macro its halo area, a cell its box
    let d = design(vec![inst(false, true, r(75, 0, 125, 100)), inst(true, false, r(0, 0, 10, 10)), inst(false, false, r(0, 0, 20, 20))]);
    let halos = [0, 3000, 0];
    // 2500 + 3000 + 400 = 5900; two overlapping blockages inside cover 175 cells, one outside none
    let blockages = [r(0, 0, 10, 10), r(5, 5, 15, 15), r(200, 200, 300, 300)];
    assert!(movable_cells_fit(&d, &area, &halos, &blockages));
    let halos_big = [0, 7000, 0];
    // 2500 + 7000 + 400 + 175 = 10075 > 10000
    assert!(!movable_cells_fit(&d, &area, &halos_big, &blockages));
    let halos_edge = [0, 6925, 0];
    assert!(movable_cells_fit(&d, &area, &halos_edge, &blockages));
}
