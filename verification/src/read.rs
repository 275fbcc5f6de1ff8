//! What the design reader hands on: each macro's geometry for halo resolution, and the fixed
//! macros that fall outside the placement area.

use crate::design::{rects_overlap, Design, Instance, Rect};
use crate::halo::{Orient, PinBox};
use crate::options::Halo;
use crate::placement::orient::text_is;
use vstd::prelude::*;

verus! {

/// Everything halo resolution needs from the database about one macro: its master's size,
/// its signal pins, the halo set on the instance with whether it is soft, and its
/// orientation.
#[derive(Debug, PartialEq)]
pub struct MacroGeometry {
    pub master_width: i64,
    pub master_height: i64,
    /// Signal pins only: power and ground never widen a halo.
    pub pins: Vec<PinBox>,
    pub inst_halo: Option<(Halo, bool)>,
    pub orient: Orient,
}

/// A fixed macro that does not overlap the placement area is left out of clustering.
pub open spec fn is_ignorable(inst: Instance, area: Rect) -> bool {
    inst.is_block && inst.is_fixed && !rects_overlap(inst.bbox, area)
}

/// The names of the ignorable instances among the first `n`, in order.
pub open spec fn ignorable_names(insts: Seq<Instance>, area: Rect, n: int) -> Seq<Seq<char>>
    decreases n,
{
    if n <= 0 {
        Seq::empty()
    } else {
        let prev = ignorable_names(insts, area, n - 1);
        if is_ignorable(insts[n - 1], area) { prev.push(insts[n - 1].name@) } else { prev }
    }
}

/// Mark the fixed macros outside the placement area as ignorable and return their names, in
/// instance order, since each one is reported. Nothing else changes.
pub fn mark_ignorable_macros(design: &mut Design, placement_area: &Rect) -> (r: Vec<String>)
    ensures
        final(design).instances@.len() == old(design).instances@.len(),
        forall|i: int| 0 <= i < old(design).instances@.len() ==> (#[trigger] final(design).instances@[i]) == (if is_ignorable(old(design).instances@[i], *placement_area) {
            Instance { is_ignorable_macro: true, ..old(design).instances@[i] }
        } else {
            old(design).instances@[i]
        }),
        final(design).modules == old(design).modules,
        final(design).top == old(design).top,
        final(design).core_area == old(design).core_area,
        final(design).die_area == old(design).die_area,
        r@.map_values(|s: String| s@) == ignorable_names(old(design).instances@, *placement_area, old(design).instances@.len() as int),
{
    let ghost start = design.instances@;
    let mut ignored: Vec<String> = Vec::new();
    let mut i: usize = 0;
    while i < design.instances.len()
        invariant
            i <= start.len(),
            design.instances@.len() == start.len(),
            design.modules == old(design).modules,
            design.top == old(design).top,
            design.core_area == old(design).core_area,
            design.die_area == old(design).die_area,
            start == old(design).instances@,
            forall|j: int| 0 <= j < i ==> (#[trigger] design.instances@[j]) == (if is_ignorable(start[j], *placement_area) {
                Instance { is_ignorable_macro: true, ..start[j] }
            } else {
                start[j]
            }),
            forall|j: int| i <= j < start.len() ==> #[trigger] design.instances@[j] == start[j],
            ignored@.map_values(|s: String| s@) == ignorable_names(start, *placement_area, i as int),
        decreases start.len() - i,
    {
        let hit = design.instances[i].is_block && design.instances[i].is_fixed && !design.instances[i].bbox.overlaps(placement_area);
        if hit {
            let ghost before = ignored@;
            ignored.push(design.instances[i].name.clone());
            proof {
                assert(ignored@.map_values(|s: String| s@) =~= before.map_values(|s: String| s@).push(start[i as int].name@));
            }
            design.instances[i].is_ignorable_macro = true;
        }
        i = i + 1;
    }
    ignored
}

/// A port's placement status that means it must not move: the database spells it three ways.
pub open spec fn fixed_status(status: Seq<char>) -> bool {
    status == "FIRM"@ || status == "LOCKED"@ || status == "FIXED"@
}

/// Whether a port with this placement status is fixed, as [`fixed_status`] states.
pub fn placement_status_is_fixed(status: &str) -> (r: bool)
    ensures
        r == fixed_status(status@),
{
    text_is(status, "FIRM") || text_is(status, "LOCKED") || text_is(status, "FIXED")
}

/// A pad master without a signal: a power pad or a spacer.
pub fn is_pad_without_signal_type(master_type: &str) -> (r: bool)
    ensures
        r == (master_type@ == "PAD_POWER"@ || master_type@ == "PAD_SPACER"@),
{
    text_is(master_type, "PAD_POWER") || text_is(master_type, "PAD_SPACER")
}

/// A supply net carries no placement information: its signal type is power or ground.
pub fn is_supply_sig_type(sig_type: &str) -> (r: bool)
    ensures
        r == (sig_type@ == "POWER"@ || sig_type@ == "GROUND"@),
{
    text_is(sig_type, "POWER") || text_is(sig_type, "GROUND")
}

/// The orientation halo resolution reads from a database name: the four it distinguishes, and
/// every other name as one more.
pub open spec fn orient_named(name: Seq<char>) -> Orient {
    if name == "R180"@ {
        Orient::R180
    } else if name == "MX"@ {
        Orient::Mx
    } else if name == "MY"@ {
        Orient::My
    } else if name == "R0"@ {
        Orient::R0
    } else {
        Orient::Other
    }
}

/// The orientation a database name gives, as [`orient_named`] states.
pub fn orient_from_name(name: &str) -> (r: Orient)
    ensures
        r == orient_named(name@),
{
    if text_is(name, "R180") {
        Orient::R180
    } else if text_is(name, "MX") {
        Orient::Mx
    } else if text_is(name, "MY") {
        Orient::My
    } else if text_is(name, "R0") {
        Orient::R0
    } else {
        Orient::Other
    }
}

} // verus!
