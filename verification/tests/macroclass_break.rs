use vyges_mpl::macroclass::{break_mixed_leaf, MacroCluster, MacroSize};

fn mc(id: i32, is_fixed: bool, width: i64, height: i64) -> MacroCluster {
    MacroCluster {
        id,
        name: format!("u_macro_{id}"),
        inst: id as usize,
        is_fixed,
        size: MacroSize { width, height },
    }
}

#[test]
fn a_mixed_leaf_breaks_into_arrays_fixed_clusters_and_every_pair() {
    let macros = [mc(10, false, 100, 50), mc(11, true, 100, 50), mc(12, false, 100, 50), mc(13, false, 80, 80)];
    let plan = break_mixed_leaf(5, &macros, &[0, 0, 2], &[-1, -1, -1]);
    assert_eq!(plan.std_cell_cluster, 5);
    assert_eq!(plan.fixed_clusters, vec![11]);
    assert_eq!(plan.arrays.len(), 2);
    assert_eq!(plan.arrays[0].id, 10);
    assert_eq!(plan.arrays[0].members, vec![10, 12]);
    assert!(!plan.arrays[0].is_interconnected_array);
    assert_eq!(plan.arrays[1].id, 13);
    assert_eq!(plan.arrays[1].members, vec![13]);
    assert_eq!(plan.virtual_connections, vec![(5, 10), (5, 13), (5, 11), (10, 13), (10, 11), (13, 11)]);
}

#[test]
fn a_surviving_interconnection_class_marks_an_interconnected_array() {
    let macros = [mc(10, false, 100, 50), mc(12, false, 100, 50), mc(13, false, 80, 80)];
    let plan = break_mixed_leaf(5, &macros, &[0, 1, 2], &[3, 3, -1]);
    assert!(plan.arrays[0].is_interconnected_array);
    assert_eq!(plan.arrays[0].members, vec![10, 12]);
    assert!(plan.fixed_clusters.is_empty());
}

#[test]
fn one_movable_macro_is_never_an_array_of_one() {
    let macros = [mc(10, false, 100, 50), mc(11, true, 100, 50)];
    let plan = break_mixed_leaf(5, &macros, &[7], &[4]);
    assert_eq!(plan.arrays.len(), 1);
    assert_eq!(plan.arrays[0].members, vec![10]);
    assert!(!plan.arrays[0].is_interconnected_array);
    assert_eq!(plan.virtual_connections, vec![(5, 10), (5, 11), (10, 11)]);
}
