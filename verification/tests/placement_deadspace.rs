use vyges_mpl::placement::deadspace::{fill_dead_space, DeadSpaceMacro};

fn dead(x: i32, y: i32, width: i32, height: i32, mixed: bool, std_cell: bool) -> DeadSpaceMacro {
    DeadSpaceMacro {
        x,
        y,
        width,
        height,
        area: width as i64 * height as i64,
        is_mixed_cluster: mixed,
        is_std_cell_cluster: std_cell,
    }
}

fn apart(a: &DeadSpaceMacro, b: &DeadSpaceMacro) -> bool {
    a.x + a.width <= b.x || b.x + b.width <= a.x || a.y + a.height <= b.y || b.y + b.height <= a.y
}

#[test]
fn grown_boxes_hold_their_old_boxes_stay_inside_and_never_overlap() {
    let before = vec![
        dead(30, 30, 20, 20, false, false),
        dead(0, 70, 10, 10, true, false),
        dead(60, 0, 10, 10, false, true),
        dead(80, 80, 10, 10, false, true),
        dead(5, 5, 0, 0, true, true),
    ];
    let mut ms = before.clone();
    fill_dead_space(&mut ms, (100, 100));
    assert_eq!(ms.len(), before.len());
    assert_eq!(ms[0], before[0]);
    assert_eq!(ms[4], before[4]);
    for k in 0..4 {
        let (m, o) = (&ms[k], &before[k]);
        assert!(m.x <= o.x && m.y <= o.y);
        assert!(o.x + o.width <= m.x + m.width && o.y + o.height <= m.y + m.height);
        assert!(0 <= m.x && m.x + m.width <= 100 && 0 <= m.y && m.y + m.height <= 100);
        assert_eq!(m.area, m.width as i64 * m.height as i64);
    }
    for a in 0..4 {
        for b in 0..4 {
            if a != b {
                assert!(apart(&ms[a], &ms[b]), "{a} and {b} overlap");
            }
        }
    }
}

#[test]
fn an_outline_wider_than_a_quarter_of_the_range_is_filled() {
    let mut ms = vec![dead(0, 0, 10, 10, true, false)];
    fill_dead_space(&mut ms, (1_500_000_000, 20));
    assert_eq!((ms[0].x, ms[0].y, ms[0].width, ms[0].height), (0, 0, 1_500_000_000, 20));
    assert_eq!(ms[0].area, 30_000_000_000);
}
