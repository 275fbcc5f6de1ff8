use vyges_mpl::feasibility::instance_area_with_halos_fits;
use vyges_mpl::placement::precision::{hard_sampled_extent, tiny_cluster_max_number_of_std_cells, to_real_locations};

fn samples() -> Vec<i64> {
    let mut v: Vec<i64> = vec![
        0, 1, -1, 16_777_215, 16_777_216, 16_777_217, 16_777_218, 16_777_219, 33_554_435,
        33_554_437, 33_554_438, -16_777_217, -16_777_219, 2_147_483_647, -2_147_483_648,
        2_147_483_583, 2_147_483_584, 2_147_483_585, 1_000_000_001, -999_999_999,
    ];
    let mut state: u64 = 0x9E37_79B9_7F4A_7C15;
    for _ in 0..20_000 {
        state = state.wrapping_mul(6_364_136_223_846_793_005).wrapping_add(1_442_695_040_888_963_407);
        let shift = (state >> 58) as u32;
        v.push(((state >> 1) as i64 >> shift) as i32 as i64);
    }
    v
}

#[test]
fn a_sampled_extent_is_what_single_precision_holds() {
    assert_eq!(hard_sampled_extent(16_777_217), 16_777_216);
    assert_eq!(hard_sampled_extent(16_777_219), 16_777_220);
    assert_eq!(hard_sampled_extent(12_345), 12_345);
    assert_eq!(hard_sampled_extent(i32::MAX), i32::MAX);
    for x in samples() {
        let x = x as i32;
        assert_eq!(hard_sampled_extent(x), x as f32 as i32, "extent {x}");
    }
}

#[test]
fn children_move_through_single_precision() {
    let mut children = vec![(10, 20), (16_777_217, -3), (2_147_483_000, 5)];
    to_real_locations(&mut children, (1000, 1));
    assert_eq!(children[0], (1010, 21));
    assert_eq!(children[1], ((16_777_217f32 + 1000f32) as i32, -2));
    assert_eq!(children[2].0, (2_147_483_000f32 + 1000f32) as i32);
    let xs = samples();
    let mut pairs: Vec<(i32, i32)> = xs.iter().map(|&x| (x as i32, (x / 3) as i32)).collect();
    let before = pairs.clone();
    let offset = (123_457, -98_765_431);
    to_real_locations(&mut pairs, offset);
    for (k, &(x, y)) in before.iter().enumerate() {
        let want = ((x as f32 + offset.0 as f32) as i32, (y as f32 + offset.1 as f32) as i32);
        assert_eq!(pairs[k], want, "child {x}, {y}");
    }
}

#[test]
fn the_area_check_rounds_as_single_precision_does() {
    // the exact sum 2^24 + 1 is a tie, which goes to the even 2^24
    assert!(instance_area_with_halos_fits(16_777_216, 1, 16_777_216));
    assert!(!instance_area_with_halos_fits(16_777_216, 3, 16_777_217));
    assert!(instance_area_with_halos_fits(100, 200, 300));
    assert!(!instance_area_with_halos_fits(100, 201, 300));
    let xs = samples();
    for w in xs.windows(3) {
        let (a, b, c) = (w[0] * 1021, w[1] * 977, w[2] * 1999);
        let want = a as f32 + b as f32 <= c as f32;
        assert_eq!(instance_area_with_halos_fits(a, b, c), want, "areas {a} {b} {c}");
    }
}

#[test]
fn the_tiny_threshold_is_a_thousandth_in_single_precision() {
    assert_eq!(tiny_cluster_max_number_of_std_cells(0), 0);
    assert_eq!(tiny_cluster_max_number_of_std_cells(999), 0);
    assert_eq!(tiny_cluster_max_number_of_std_cells(1000), 1);
    assert_eq!(tiny_cluster_max_number_of_std_cells(250_000), 250);
    let mut n: usize = 1;
    for _ in 0..200_000 {
        let want = (0.001f32 * n as f32) as i32;
        assert_eq!(tiny_cluster_max_number_of_std_cells(n), want, "count {n}");
        n = n.wrapping_mul(2_862_933_555_777_941_757).wrapping_add(3_037_000_493) >> (n % 40);
    }
    assert_eq!(tiny_cluster_max_number_of_std_cells(usize::MAX), (0.001f32 * usize::MAX as f32) as i32);
}
