use vyges_mpl::anneal::{resize_one_cluster, resize_randomly, set_height, set_width, Interval, SequencePair, ShapeCurve, SoftMacro};
use vyges_mpl::rng::{canonical_draw, uniform_int, Mt19937};

fn canonical_f32(rng: &mut Mt19937) -> f32 {
    let value = rng.next() as f32 / 4_294_967_296.0f32;
    if value >= 1.0 {
        f32::from_bits(0x3f7f_ffff)
    } else {
        value
    }
}

fn soft(width: i32, height: i32) -> SoftMacro {
    SoftMacro { x: 3, y: 4, width, height, fixed: false, area: 77, is_macro_cluster: false }
}

#[test]
fn a_canonical_draw_is_the_word_in_single_precision() {
    let mut a = Mt19937::new(5489);
    let mut b = Mt19937::new(5489);
    for _ in 0..50_000 {
        let units = canonical_draw(&mut a);
        assert_eq!(units as f32 / 4_294_967_296.0f32, canonical_f32(&mut b));
    }
}

#[test]
fn an_empty_curve_draws_nothing() {
    let mut a = Mt19937::new(7);
    let mut m = soft(10, 20);
    let curve = ShapeCurve { width_intervals: vec![], height_intervals: vec![] };
    assert_eq!(resize_randomly(&mut a, &curve, &mut m), 200);
    assert_eq!(m, soft(10, 20));
    let mut fresh = Mt19937::new(7);
    assert_eq!(a.next(), fresh.next());
}

#[test]
fn a_random_resize_picks_the_width_single_precision_picks() {
    let curve = ShapeCurve {
        width_intervals: vec![
            Interval { min: 100, max: 400 },
            Interval { min: 1_000_003, max: 90_000_017 },
            Interval { min: 7, max: 7 },
            Interval { min: 33_554_431, max: 2_000_000_000 },
        ],
        height_intervals: vec![
            Interval { min: 25, max: 100 },
            Interval { min: 11, max: 997 },
            Interval { min: 5, max: 5 },
            Interval { min: 3, max: 61 },
        ],
    };
    for seed in 0..2000u32 {
        let mut a = Mt19937::new(seed);
        let mut b = Mt19937::new(seed);
        let mut m = soft(1, 1);
        let area = resize_randomly(&mut a, &curve, &mut m);
        let index = uniform_int(&mut b, 4) as usize;
        let w = curve.width_intervals[index];
        let h = curve.height_intervals[index];
        let draw = canonical_f32(&mut b);
        let span = (w.max - w.min) as f32;
        let width = (w.min as f32 + draw * span) as i32;
        let want_area = w.min as i64 * h.max as i64;
        let height = if width != 0 { (want_area / width as i64) as i32 } else { 0 };
        assert_eq!(area, want_area, "seed {seed}");
        assert_eq!((m.width, m.height), (width, height), "seed {seed}");
        assert_eq!((m.x, m.y, m.area), (3, 4, 77));
        assert_eq!(a.next(), b.next(), "seed {seed}");
    }
}

fn resize_randomly_ref(rng: &mut Mt19937, curve: &ShapeCurve, m: &mut SoftMacro) {
    if curve.width_intervals.is_empty() {
        return;
    }
    let index = uniform_int(rng, curve.width_intervals.len() as u32) as usize;
    let w = curve.width_intervals[index];
    let draw = canonical_f32(rng);
    let span = (w.max - w.min) as f32;
    m.width = (w.min as f32 + draw * span) as i32;
    let area = w.min as i64 * curve.height_intervals[index].max as i64;
    m.height = if m.width != 0 { (area / m.width as i64) as i32 } else { 0 };
}

fn resize_one_ref(rng: &mut Mt19937, ms: &mut Vec<SoftMacro>, curves: &[ShapeCurve], sp: &SequencePair, ow: i32, oh: i32) -> usize {
    let index = uniform_int(rng, sp.pos.len() as u32) as usize;
    let m = ms[index];
    let (lx, ly, ux, uy) = (m.x, m.y, m.x + m.width, m.y + m.height);
    if m.is_macro_cluster || ux >= ow || uy >= oh {
        resize_randomly_ref(rng, &curves[index], &mut ms[index]);
        return index;
    }
    if canonical_f32(rng) < 0.4 {
        resize_randomly_ref(rng, &curves[index], &mut ms[index]);
        return index;
    }
    let option = canonical_f32(rng);
    if option <= 0.25 {
        let mut edge = ow;
        for &id in &sp.pos {
            let x2 = ms[id].x + ms[id].width;
            if x2 > ux && x2 < edge {
                edge = x2;
            }
        }
        set_width(&mut ms[index], &curves[index], edge - lx);
    } else if option <= 0.5 {
        let mut edge = lx;
        for &id in &sp.pos {
            let x2 = ms[id].x + ms[id].width;
            if x2 < ux && x2 > edge {
                edge = x2;
            }
        }
        if edge > lx {
            set_width(&mut ms[index], &curves[index], edge - lx);
        }
    } else if option <= 0.75 {
        let mut edge = oh;
        for &id in &sp.pos {
            let y2 = ms[id].y + ms[id].height;
            if y2 > uy && y2 < edge {
                edge = y2;
            }
        }
        set_height(&mut ms[index], &curves[index], edge - ly);
    } else {
        let mut edge = ly;
        for &id in &sp.pos {
            let y2 = ms[id].y + ms[id].height;
            if y2 < uy && y2 > edge {
                edge = y2;
            }
        }
        if edge > ly {
            set_height(&mut ms[index], &curves[index], edge - ly);
        }
    }
    index
}

fn curve_for(area: i32) -> ShapeCurve {
    // widths 10..=40 step, heights area / width
    let widths = [(10, 20), (25, 40)];
    ShapeCurve {
        width_intervals: widths.iter().map(|&(a, b)| Interval { min: a, max: b }).collect(),
        height_intervals: widths.iter().map(|&(a, b)| Interval { min: area / b, max: area / a }).collect(),
    }
}

#[test]
fn a_resize_step_matches_the_single_precision_rules() {
    let start = vec![
        SoftMacro { x: 0, y: 0, width: 20, height: 30, fixed: false, area: 600, is_macro_cluster: false },
        SoftMacro { x: 30, y: 0, width: 25, height: 24, fixed: false, area: 600, is_macro_cluster: false },
        SoftMacro { x: 0, y: 40, width: 15, height: 40, fixed: false, area: 600, is_macro_cluster: true },
        SoftMacro { x: 60, y: 50, width: 40, height: 15, fixed: false, area: 600, is_macro_cluster: false },
    ];
    let curves: Vec<ShapeCurve> = (0..4).map(|_| curve_for(600)).collect();
    let sp = SequencePair { pos: vec![2, 0, 3, 1], neg: vec![0, 1, 2, 3] };
    for seed in 0..3000u32 {
        for &(ow, oh) in &[(120, 120), (95, 70)] {
            let mut a = Mt19937::new(seed);
            let mut b = Mt19937::new(seed);
            let mut ma = start.clone();
            let mut mb = start.clone();
            let ia = resize_one_cluster(&mut a, &mut ma, &curves, &sp, ow, oh);
            let ib = resize_one_ref(&mut b, &mut mb, &curves, &sp, ow, oh);
            assert_eq!(ia, ib, "seed {seed}");
            assert_eq!(ma, mb, "seed {seed}");
            assert_eq!(a.next(), b.next(), "seed {seed}");
        }
    }
}
