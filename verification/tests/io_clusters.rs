use vyges_mpl::design::Rect;
use vyges_mpl::halo::Boundary;
use vyges_mpl::ioclusters::{
    all_bundle_names, bundle_name, bundle_offset, bundle_rect, bundle_spans, create_io_clusters, Pin,
};

fn r(x_min: i64, y_min: i64, x_max: i64, y_max: i64) -> Rect {
    Rect { x_min, y_min, x_max, y_max }
}

fn pin(name: &str, bbox: Rect, is_fixed: bool, constraint: Option<Rect>) -> Pin {
    Pin { name: name.to_string(), bbox, is_fixed, constraint }
}

#[test]
fn bundles_are_named_and_placed_around_the_die() {
    let die = r(0, 0, 1000, 500);
    let spans = bundle_spans(&die);
    assert_eq!((spans.x, spans.y), (200, 100));
    assert_eq!(bundle_name(Boundary::L, 0), "L_0");
    assert_eq!(bundle_name(Boundary::B, 4), "B_4");
    let names = all_bundle_names();
    assert_eq!(names.len(), 20);
    assert_eq!((names[0].as_str(), names[5].as_str(), names[19].as_str()), ("L_0", "T_0", "B_4"));
    assert_eq!(bundle_rect(Boundary::L, 1, &die, spans), r(0, 100, 0, 200));
    assert_eq!(bundle_rect(Boundary::T, 2, &die, spans), r(400, 500, 600, 500));
    assert_eq!(bundle_rect(Boundary::R, 0, &die, spans), r(1000, 400, 1000, 500));
    assert_eq!(bundle_rect(Boundary::B, 4, &die, spans), r(0, 0, 200, 0));
}

#[test]
fn a_pin_lands_in_the_bundle_of_its_edge_the_right_and_bottom_counted_backwards() {
    let die = r(0, 0, 1000, 500);
    let spans = bundle_spans(&die);
    assert_eq!(bundle_offset(&r(0, 150, 5, 160), &die, spans), Some(1));
    assert_eq!(bundle_offset(&r(450, 495, 470, 500), &die, spans), Some(7));
    assert_eq!(bundle_offset(&r(995, 50, 1000, 60), &die, spans), Some(14));
    assert_eq!(bundle_offset(&r(10, 0, 20, 5), &die, spans), Some(19));
    assert_eq!(bundle_offset(&r(10, 10, 20, 20), &die, spans), None);
}

#[test]
fn unfixed_pins_share_a_cluster_by_constraint_and_empty_bundles_go() {
    let die = r(0, 0, 1000, 500);
    let region = r(1000, 100, 1000, 300);
    let pins = vec![
        pin("a", r(0, 150, 5, 160), true, None),
        pin("b", r(450, 495, 470, 500), true, None),
        pin("c", r(0, 0, 0, 0), false, None),
        pin("d", r(0, 0, 0, 0), false, Some(region)),
        pin("e", r(0, 0, 0, 0), false, None),
    ];
    let io = create_io_clusters(&pins, &die, 10);
    assert!(io.has_io_clusters);
    assert_eq!(io.bundles.iter().map(|b| (b.id, b.name.clone(), b.num_io_pins)).collect::<Vec<_>>(), vec![
        (11, "L_1".to_string(), 1),
        (17, "T_2".to_string(), 1)
    ]);
    assert_eq!(io.assignment, vec![(0, 11), (1, 17), (2, 30), (3, 31), (4, 30)]);
    assert_eq!(io.pin_clusters.iter().map(|c| (c.id, c.name.clone(), c.num_io_pins)).collect::<Vec<_>>(), vec![
        (30, "ios_30".to_string(), 2),
        (31, "ios_31".to_string(), 1)
    ]);
    assert_eq!(io.pin_clusters[1].constraint_region, Some(region));
    assert_eq!(io.pin_clusters[0].constraint_region, None);
    assert_eq!(io.next_id, 32);
}

#[test]
fn no_pins_means_no_io_clusters() {
    let io = create_io_clusters(&[], &r(0, 0, 100, 100), 3);
    assert!(!io.has_io_clusters);
    assert!(io.bundles.is_empty() && io.pin_clusters.is_empty());
    assert_eq!(io.next_id, 3);
}
