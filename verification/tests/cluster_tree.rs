use vyges_mpl::cluster::{update_sub_tree, Cluster, ClusterType, Metrics};
use vyges_mpl::dump::physical_hierarchy;

fn leaf(id: i32, name: &str) -> Cluster {
    Cluster::new(id, name)
}

fn with_children(id: i32, name: &str, children: Vec<Cluster>) -> Cluster {
    let mut c = Cluster::new(id, name);
    c.add_children(children);
    c
}

#[test]
fn the_subtree_collapses_breadth_first_into_its_leaves() {
    // root -> [a -> [a1, a2 -> [a21]], b, c -> [c1]]
    let a2 = with_children(5, "a2", vec![leaf(6, "a21")]);
    let a = with_children(2, "a", vec![leaf(4, "a1"), a2]);
    let c = with_children(7, "c", vec![leaf(8, "c1")]);
    let mut root = with_children(1, "root", vec![a, leaf(3, "b"), c]);
    let r = update_sub_tree(&mut root, 100, 100);
    let ids: Vec<i32> = root.children.iter().map(|c| c.id).collect();
    assert_eq!(ids, vec![3, 4, 8, 6]);
    assert_eq!(r.dissolved, vec![2, 7, 5]);
    assert!(r.needs_partitioning.is_empty());
    assert!(root.children.iter().all(|c| c.children.is_empty()));
}

#[test]
fn collapsing_leaves_changes_nothing() {
    let mut root = with_children(1, "root", vec![leaf(2, "x"), leaf(3, "y")]);
    let r = update_sub_tree(&mut root, 100, 100);
    let ids: Vec<i32> = root.children.iter().map(|c| c.id).collect();
    assert_eq!(ids, vec![2, 3]);
    assert!(r.dissolved.is_empty());
}

#[test]
fn a_large_flat_child_needs_partitioning() {
    let mut big = leaf(2, "big");
    big.leaf_std_cells = vec![1, 2, 3];
    let mut root = with_children(1, "root", vec![big, leaf(3, "small")]);
    let r = update_sub_tree(&mut root, 2, 100);
    assert_eq!(r.needs_partitioning, vec![2]);
}

#[test]
fn the_dump_prints_one_line_per_cluster_depth_first() {
    let mut cells = leaf(2, "cells");
    cells.cluster_type = ClusterType::StdCell;
    cells.metrics = Metrics { num_std_cell: 12, num_macro: 0, std_cell_area: 340, macro_area: 0 };
    let mut macros = leaf(3, "macros");
    macros.cluster_type = ClusterType::HardMacro;
    macros.metrics = Metrics { num_std_cell: 5, num_macro: 2, std_cell_area: 0, macro_area: 900 };
    let root = with_children(1, "root", vec![cells, macros]);
    assert_eq!(
        physical_hierarchy(&root),
        "root  (1) Type: Mixed \n\
         +---cells  (2) Type: StdCell Leaf, StdCells: 12 (340 μ²)\n\
         +---macros  (3) Type: Macro Leaf, Macros: 2 (900 μ²),\n"
    );
}
