//! The numbers of the design report, before formatting.

use crate::design::{Design, ModuleMetrics, Rect, area_fits, rect_area};
use crate::options::Halo;
use vstd::prelude::*;

verus! {

/// The numbers the design report prints. The area of macros counts every macro; the area with
/// halos only the macros to be placed.
#[derive(Debug, Clone, PartialEq, Eq, Structural)]
pub struct DesignReport {
    pub die: Rect,
    pub floorplan: Rect,
    pub num_std_cell: i32,
    pub std_cell_area: i64,
    pub num_macro: i32,
    pub macros_to_place: usize,
    pub macro_area: i64,
    pub base_halo: Halo,
    pub macro_with_halo_area: i64,
    pub floorplan_area: i64,
    pub manufacturing_grid: i32,
}

/// Everything the report needs that the engine already computed.
pub fn design_report(
    design: &Design,
    floorplan: &Rect,
    metrics: &ModuleMetrics,
    base_halo: Halo,
    macro_with_halo_area: i64,
    macros_to_place: usize,
    manufacturing_grid: i32,
) -> (r: DesignReport)
    requires
        area_fits(*floorplan),
    ensures
        r == (DesignReport {
            die: design.die_area,
            floorplan: *floorplan,
            num_std_cell: metrics.num_std_cell,
            std_cell_area: metrics.std_cell_area,
            num_macro: metrics.num_macro,
            macros_to_place,
            macro_area: metrics.macro_area,
            base_halo,
            macro_with_halo_area,
            floorplan_area: rect_area(*floorplan) as i64,
            manufacturing_grid,
        }),
{
    DesignReport {
        die: design.die_area,
        floorplan: *floorplan,
        num_std_cell: metrics.num_std_cell,
        std_cell_area: metrics.std_cell_area,
        num_macro: metrics.num_macro,
        macros_to_place,
        macro_area: metrics.macro_area,
        base_halo,
        macro_with_halo_area,
        floorplan_area: floorplan.area(),
        manufacturing_grid,
    }
}

} // verus!
