use vyges_mpl::anneal::{
    double_seq_swap, exchange_macros, find_interval_index, generate_random_indices, init_sequence_pair,
    init_sequence_pair_with, pack_floorplan, set_height, set_width, shape_curve_from_tilings, single_seq_swap,
    Interval, SequencePair, ShapeCurve, SoftMacro,
};
use vyges_mpl::rng::Mt19937;

fn soft(width: i32, height: i32) -> SoftMacro {
    SoftMacro { x: 99, y: 99, width, height, fixed: false, area: width as i64 * height as i64, is_macro_cluster: false }
}

fn is_perm(s: &[usize]) -> bool {
    let mut seen = vec![false; s.len()];
    for &v in s {
        if v >= s.len() || seen[v] {
            return false;
        }
        seen[v] = true;
    }
    true
}

#[test]
fn the_same_order_in_both_sequences_packs_a_row() {
    let mut ms = vec![soft(10, 5), soft(20, 10), soft(5, 30)];
    let sp = SequencePair { pos: vec![0, 1, 2], neg: vec![0, 1, 2] };
    assert_eq!(pack_floorplan(&mut ms, &sp), (35, 30));
    assert_eq!(ms.iter().map(|m| (m.x, m.y)).collect::<Vec<_>>(), vec![(0, 0), (10, 0), (30, 0)]);
}

#[test]
fn opposite_orders_pack_a_column() {
    let mut ms = vec![soft(10, 5), soft(20, 10), soft(5, 30)];
    let sp = SequencePair { pos: vec![0, 1, 2], neg: vec![2, 1, 0] };
    assert_eq!(pack_floorplan(&mut ms, &sp), (20, 45));
    assert_eq!(ms.iter().map(|m| (m.x, m.y)).collect::<Vec<_>>(), vec![(0, 40), (0, 30), (0, 0)]);
}

#[test]
fn a_fixed_macro_keeps_its_place_while_packing() {
    let mut ms = vec![soft(10, 5), SoftMacro { x: 7, y: 8, fixed: true, ..soft(20, 10) }];
    let sp = SequencePair { pos: vec![0, 1], neg: vec![0, 1] };
    let (w, h) = pack_floorplan(&mut ms, &sp);
    assert_eq!((ms[1].x, ms[1].y), (7, 8));
    assert_eq!((w, h), (27, 18));
    assert_eq!((ms[0].x, ms[0].y), (0, 0));
}

#[test]
fn sequence_pairs_start_as_the_identity() {
    assert_eq!(init_sequence_pair(3), SequencePair { pos: vec![0, 1, 2], neg: vec![0, 1, 2] });
    assert_eq!(init_sequence_pair_with(3, 2, None), SequencePair { pos: vec![0, 1], neg: vec![0, 1] });
    assert_eq!(init_sequence_pair_with(3, 0, None), init_sequence_pair(3));
    let given = SequencePair { pos: vec![1, 0], neg: vec![0, 1] };
    assert_eq!(init_sequence_pair_with(5, 0, Some(given.clone())), given);
}

#[test]
fn perturbations_keep_both_sequences_permutations() {
    let mut rng = Mt19937::new(42);
    let mut sp = init_sequence_pair(6);
    for step in 0..300 {
        match step % 4 {
            0 => single_seq_swap(&mut rng, &mut sp, true),
            1 => single_seq_swap(&mut rng, &mut sp, false),
            2 => double_seq_swap(&mut rng, &mut sp),
            _ => exchange_macros(&mut rng, &mut sp),
        }
        assert!(is_perm(&sp.pos) && is_perm(&sp.neg));
    }
    for _ in 0..200 {
        let (i, j) = generate_random_indices(&mut rng, 5);
        assert!(i != j && i < 5 && j < 5);
    }
    let mut one = init_sequence_pair(1);
    let mut fresh = Mt19937::new(42);
    let mut twin = Mt19937::new(42);
    exchange_macros(&mut fresh, &mut one);
    assert_eq!(one, init_sequence_pair(1));
    assert_eq!(fresh.next(), twin.next());
}

#[test]
fn an_exchange_moves_exactly_two_macros_in_each_sequence() {
    let mut rng = Mt19937::new(7);
    for _ in 0..100 {
        let before = SequencePair { pos: vec![3, 0, 2, 1], neg: vec![1, 3, 0, 2] };
        let mut sp = before.clone();
        exchange_macros(&mut rng, &mut sp);
        let moved_pos: Vec<usize> = (0..4).filter(|&k| sp.pos[k] != before.pos[k]).collect();
        let moved_neg: Vec<usize> = (0..4).filter(|&k| sp.neg[k] != before.neg[k]).collect();
        assert_eq!(moved_pos.len(), 2);
        assert_eq!(moved_neg.len(), 2);
        let mut a: Vec<usize> = moved_pos.iter().map(|&k| sp.pos[k]).collect();
        let mut b: Vec<usize> = moved_neg.iter().map(|&k| sp.neg[k]).collect();
        a.sort();
        b.sort();
        assert_eq!(a, b);
    }
}

#[test]
fn a_hard_cluster_curve_is_one_degenerate_interval_per_tiling() {
    let (curve, w, h, area) = shape_curve_from_tilings(&vec![(30, 10), (10, 30), (20, 20)]);
    assert_eq!((w, h, area), (30, 10, 300));
    assert_eq!(curve.width_intervals, vec![Interval { min: 30, max: 30 }, Interval { min: 10, max: 10 }, Interval { min: 20, max: 20 }]);
    assert_eq!(curve.height_intervals[1], Interval { min: 30, max: 30 });
    let (empty, w, h, area) = shape_curve_from_tilings(&vec![]);
    assert!(empty.width_intervals.is_empty());
    assert_eq!((w, h, area), (0, 0, 0));
}

#[test]
fn a_value_snaps_into_the_first_interval_that_can_hold_it() {
    let ws = vec![Interval { min: 10, max: 20 }, Interval { min: 30, max: 40 }];
    let mut v = 25;
    assert_eq!(find_interval_index(&ws, &mut v, true), 1);
    assert_eq!(v, 30);
    let mut v = 15;
    assert_eq!(find_interval_index(&ws, &mut v, true), 0);
    assert_eq!(v, 15);
    let hs = vec![Interval { min: 30, max: 60 }, Interval { min: 10, max: 20 }];
    let mut v = 25;
    assert_eq!(find_interval_index(&hs, &mut v, false), 1);
    assert_eq!(v, 20);
}

#[test]
fn widths_and_heights_follow_the_curve() {
    let curve = ShapeCurve {
        width_intervals: vec![Interval { min: 10, max: 20 }, Interval { min: 30, max: 40 }],
        height_intervals: vec![Interval { min: 30, max: 60 }, Interval { min: 15, max: 20 }],
    };
    let mut m = soft(10, 60);
    set_width(&mut m, &curve, 5);
    assert_eq!((m.width, m.height, m.area), (10, 60, 600));
    set_width(&mut m, &curve, 50);
    assert_eq!((m.width, m.height, m.area), (40, 15, 600));
    set_width(&mut m, &curve, 25);
    assert_eq!((m.width, m.height, m.area), (30, 20, 600));
    set_width(&mut m, &curve, 15);
    assert_eq!((m.width, m.height, m.area), (15, 40, 600));
    set_height(&mut m, &curve, 100);
    assert_eq!((m.width, m.height, m.area), (10, 60, 600));
    set_height(&mut m, &curve, 18);
    assert_eq!((m.width, m.height, m.area), (33, 18, 600));
    let mut cluster = SoftMacro { is_macro_cluster: true, ..soft(10, 60) };
    set_width(&mut cluster, &curve, 35);
    assert_eq!(cluster, SoftMacro { is_macro_cluster: true, ..soft(10, 60) });
}
