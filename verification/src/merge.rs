//! Merging clusters that are too small to stand alone.

use crate::cluster::{Cluster, macros_of, std_cells_of};
use vstd::prelude::*;

verus! {

/// A cluster is dust when it holds at most this many standard cells and no macros.
pub const DUST_CLUSTER_STD_CELL: i32 = 10;

/// Whether merging the two stays within both maximums; landing exactly on one is allowed.
pub fn merge_honors_max_thresholds(a: &Cluster, b: &Cluster, max_std_cell: i32, max_macro: i32) -> (r: bool)
    ensures
        r == (macros_of(*a) + macros_of(*b) <= max_macro && std_cells_of(*a) + std_cells_of(*b)
            <= max_std_cell),
{
    let macros = a.num_macro() as i64 + b.num_macro() as i64;
    let cells = a.num_std_cell() as i64 + b.num_std_cell() as i64;
    macros <= max_macro as i64 && cells <= max_std_cell as i64
}

/// Merge `incomer` into `receiver`: the counts add up and the receiver is renamed
/// `receiver||incomer`. A receiver with children adopts the incomer as its last child;
/// a childless one absorbs its macros, standard cells and modules. Returns whether the incomer
/// was dissolved rather than adopted.
pub fn merge_into(receiver: &mut Cluster, incomer: Cluster) -> (dissolved: bool)
    requires
        i32::MIN <= old(receiver).metrics.num_std_cell + incomer.metrics.num_std_cell <= i32::MAX,
        i32::MIN <= old(receiver).metrics.num_macro + incomer.metrics.num_macro <= i32::MAX,
    ensures
        final(receiver).metrics.num_std_cell == old(receiver).metrics.num_std_cell
            + incomer.metrics.num_std_cell,
        final(receiver).metrics.num_macro == old(receiver).metrics.num_macro
            + incomer.metrics.num_macro,
        final(receiver).metrics.std_cell_area == old(receiver).metrics.std_cell_area,
        final(receiver).metrics.macro_area == old(receiver).metrics.macro_area,
        final(receiver).name@ == old(receiver).name@ + "||"@ + incomer.name@,
        final(receiver).id == old(receiver).id,
        final(receiver).cluster_type == old(receiver).cluster_type,
        dissolved == (old(receiver).children@.len() == 0),
        dissolved ==> {
            &&& final(receiver).children@ == old(receiver).children@
            &&& final(receiver).leaf_macros@ == old(receiver).leaf_macros@ + incomer.leaf_macros@
            &&& final(receiver).leaf_std_cells@ == old(receiver).leaf_std_cells@
                + incomer.leaf_std_cells@
            &&& final(receiver).db_modules@ == old(receiver).db_modules@ + incomer.db_modules@
        },
        !dissolved ==> {
            &&& final(receiver).children@ == old(receiver).children@.push(incomer)
            &&& final(receiver).leaf_macros@ == old(receiver).leaf_macros@
            &&& final(receiver).leaf_std_cells@ == old(receiver).leaf_std_cells@
            &&& final(receiver).db_modules@ == old(receiver).db_modules@
        },
{
    receiver.metrics.num_std_cell = receiver.metrics.num_std_cell + incomer.metrics.num_std_cell;
    receiver.metrics.num_macro = receiver.metrics.num_macro + incomer.metrics.num_macro;
    receiver.name.append("||");
    receiver.name.append(incomer.name.as_str());
    if receiver.children.len() > 0 {
        receiver.children.push(incomer);
        return false;
    }
    let mut inc = incomer;
    receiver.leaf_macros.append(&mut inc.leaf_macros);
    receiver.leaf_std_cells.append(&mut inc.leaf_std_cells);
    receiver.db_modules.append(&mut inc.db_modules);
    true
}

/// Dust: at most `DUST_CLUSTER_STD_CELL` standard cells and no macro at all.
pub fn is_dust(cluster: &Cluster) -> (r: bool)
    ensures
        r == (std_cells_of(*cluster) <= DUST_CLUSTER_STD_CELL && macros_of(*cluster) == 0),
{
    cluster.num_std_cell() <= DUST_CLUSTER_STD_CELL && cluster.num_macro() == 0
}

} // verus!
