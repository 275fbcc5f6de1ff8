use vyges_mpl::placement::commit::{
    commit_macro, final_commit, needs_halo_blockage, temp_macro_clusters, FinalCommit, HaloKind, MacroCommit,
};
use vyges_mpl::placement::macrorun::{
    array_sequence_pair, clip_region_to_outline, hard_terminal_cluster_ids, macro_fences_and_guides, macro_run_seed,
};

#[test]
fn a_fixed_instance_is_not_written_back() {
    assert_eq!(commit_macro(true, (1, 2)), None);
    assert_eq!(
        commit_macro(false, (1, 2)),
        Some(MacroCommit { orientation_first: true, location: (1, 2), locked: false })
    );
}

#[test]
fn a_soft_halo_casts_no_blockage() {
    assert!(!needs_halo_blockage(HaloKind::Soft));
    assert!(needs_halo_blockage(HaloKind::Hard));
    assert!(needs_halo_blockage(HaloKind::NoHalo));
}

#[test]
fn a_fixed_macro_still_casts_a_blockage() {
    assert_eq!(final_commit(true, HaloKind::Hard), FinalCommit { snapped: false, locked: false, blockage: true });
    assert_eq!(final_commit(false, HaloKind::Soft), FinalCommit { snapped: true, locked: true, blockage: false });
}

#[test]
fn temporary_clusters_take_consecutive_ids_and_count_distinct_masters() {
    let names = vec!["m0".to_string(), "m1".to_string(), "m2".to_string()];
    let r = temp_macro_clusters(&names, &[4, 9, 4], 17);
    assert_eq!(r.clusters.len(), 3);
    assert_eq!(r.clusters[2].name, "m2");
    assert_eq!(r.clusters[0].cluster_id, 17);
    assert_eq!(r.clusters[2].cluster_id, 19);
    assert_eq!(r.clusters[1].macro_id, 1);
    assert_eq!(r.next_cluster_id, 20);
    assert_eq!(r.distinct_masters, 2);
}

#[test]
fn a_macro_without_a_master_adds_nothing_to_the_count() {
    let names = vec!["a".to_string(), "b".to_string()];
    let r = temp_macro_clusters(&names, &[3], 0);
    assert_eq!(r.distinct_masters, 1);
    assert_eq!(r.next_cluster_id, 2);
}

#[test]
fn each_run_gets_its_own_seed_wrapping() {
    assert_eq!(macro_run_seed(10, 3), 13);
    assert_eq!(macro_run_seed(u32::MAX, 1), 0);
    assert_eq!(macro_run_seed(5, -1), 4);
}

#[test]
fn clipping_is_inclusive_and_a_miss_is_a_shifted_zero_box() {
    let outline = (100, 100, 200, 200);
    assert_eq!(clip_region_to_outline((150, 50, 250, 150), outline), (50, 0, 100, 50));
    // Touching along a line survives as a zero-width box.
    assert_eq!(clip_region_to_outline((200, 120, 300, 130), outline), (100, 20, 100, 30));
    // A miss becomes the zero box, shifted by minus the outline's corner.
    assert_eq!(clip_region_to_outline((0, 0, 10, 10), outline), (-100, -100, -100, -100));
}

#[test]
fn fences_and_guides_are_keyed_by_macro_index() {
    let outline = (0, 0, 100, 100);
    let fences = [None, Some((10, 10, 20, 20)), None];
    let guides = [Some((-5, -5, 5, 5)), None, Some((90, 90, 110, 110))];
    let (f, g) = macro_fences_and_guides(&fences, &guides, outline);
    assert_eq!(f, vec![(1, (10, 10, 20, 20))]);
    assert_eq!(g, vec![(0, (0, 0, 5, 5)), (2, (90, 90, 100, 100))]);
}

#[test]
fn the_grid_walks_columns_downwards() {
    let p = array_sequence_pair(4, 20, 20, 10, 10);
    assert_eq!(p.pos, vec![0, 1, 2, 3]);
    assert_eq!(p.neg, vec![1, 0, 3, 2]);
    assert!(!p.has_empty_space);
}

#[test]
fn the_column_count_truncates_and_a_spare_slot_is_empty_space() {
    // 29 / 10 = 2 columns, 30 / 10 = 3 rows: six slots for five macros.
    let p = array_sequence_pair(5, 29, 30, 10, 10);
    assert_eq!(p.neg, vec![2, 1, 0, 4, 3]);
    assert!(p.has_empty_space);
}

#[test]
fn a_zero_macro_extent_gives_no_grid() {
    let p = array_sequence_pair(2, 20, 20, 0, 10);
    assert_eq!(p.pos, vec![0, 1]);
    assert!(p.neg.is_empty());
    assert!(!p.has_empty_space);
}

#[test]
fn terminals_are_sorted_unique_and_skip_the_placed_macros() {
    assert_eq!(hard_terminal_cluster_ids(&[9, 3, 7, 3, 9, 1], &[7]), vec![1, 3, 9]);
    assert!(hard_terminal_cluster_ids(&[], &[]).is_empty());
}
