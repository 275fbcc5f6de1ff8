//! The placer command's keywords: which ones exist, which are flags and which take a value,
//! and the rules on them that do not depend on the values themselves.

use crate::options::{Halo, MplError};
use crate::placement::orient::text_is;
use vstd::prelude::*;

verus! {

/// A keyword of the placer command.
#[derive(Debug, Clone, Copy, PartialEq, Eq, Structural)]
pub enum PlacerKey {
    KeepClusteringData,
    UseFullHalo,
    MaxNumMacro,
    MinNumMacro,
    MaxNumInst,
    MinNumInst,
    Tolerance,
    MaxNumLevel,
    CoarseningRatio,
    LargeNetThreshold,
    FenceLx,
    FenceLy,
    FenceUx,
    FenceUy,
    AreaWeight,
    OutlineWeight,
    WirelengthWeight,
    GuidanceWeight,
    FenceWeight,
    BoundaryWeight,
    NotchWeight,
    TargetUtil,
    MinAr,
    ReportDirectory,
    WriteMacroPlacement,
    SoftBlockageWeight,
    MacroBlockageWeight,
    HaloWidth,
    HaloHeight,
}

/// The keyword a token names, if any.
pub open spec fn key_named(s: Seq<char>) -> Option<PlacerKey> {
    if s == "-keep_clustering_data"@ {
        Some(PlacerKey::KeepClusteringData)
    } else if s == "-use_full_halo"@ {
        Some(PlacerKey::UseFullHalo)
    } else if s == "-max_num_macro"@ {
        Some(PlacerKey::MaxNumMacro)
    } else if s == "-min_num_macro"@ {
        Some(PlacerKey::MinNumMacro)
    } else if s == "-max_num_inst"@ {
        Some(PlacerKey::MaxNumInst)
    } else if s == "-min_num_inst"@ {
        Some(PlacerKey::MinNumInst)
    } else if s == "-tolerance"@ {
        Some(PlacerKey::Tolerance)
    } else if s == "-max_num_level"@ {
        Some(PlacerKey::MaxNumLevel)
    } else if s == "-coarsening_ratio"@ {
        Some(PlacerKey::CoarseningRatio)
    } else if s == "-large_net_threshold"@ {
        Some(PlacerKey::LargeNetThreshold)
    } else if s == "-fence_lx"@ {
        Some(PlacerKey::FenceLx)
    } else if s == "-fence_ly"@ {
        Some(PlacerKey::FenceLy)
    } else if s == "-fence_ux"@ {
        Some(PlacerKey::FenceUx)
    } else if s == "-fence_uy"@ {
        Some(PlacerKey::FenceUy)
    } else if s == "-area_weight"@ {
        Some(PlacerKey::AreaWeight)
    } else if s == "-outline_weight"@ {
        Some(PlacerKey::OutlineWeight)
    } else if s == "-wirelength_weight"@ {
        Some(PlacerKey::WirelengthWeight)
    } else if s == "-guidance_weight"@ {
        Some(PlacerKey::GuidanceWeight)
    } else if s == "-fence_weight"@ {
        Some(PlacerKey::FenceWeight)
    } else if s == "-boundary_weight"@ {
        Some(PlacerKey::BoundaryWeight)
    } else if s == "-notch_weight"@ {
        Some(PlacerKey::NotchWeight)
    } else if s == "-target_util"@ {
        Some(PlacerKey::TargetUtil)
    } else if s == "-min_ar"@ {
        Some(PlacerKey::MinAr)
    } else if s == "-report_directory"@ {
        Some(PlacerKey::ReportDirectory)
    } else if s == "-write_macro_placement"@ {
        Some(PlacerKey::WriteMacroPlacement)
    } else if s == "-soft_blockage_weight"@ {
        Some(PlacerKey::SoftBlockageWeight)
    } else if s == "-macro_blockage_weight"@ {
        Some(PlacerKey::MacroBlockageWeight)
    } else if s == "-halo_width"@ {
        Some(PlacerKey::HaloWidth)
    } else if s == "-halo_height"@ {
        Some(PlacerKey::HaloHeight)
    } else {
        None
    }
}

/// The keyword takes no value.
pub open spec fn is_flag(k: PlacerKey) -> bool {
    k == PlacerKey::KeepClusteringData || k == PlacerKey::UseFullHalo
}

/// The keyword takes no value.
pub fn is_flag_key(k: PlacerKey) -> (r: bool)
    ensures
        r == is_flag(k),
{
    match k {
        PlacerKey::KeepClusteringData | PlacerKey::UseFullHalo => true,
        _ => false,
    }
}

/// The keyword a token names, if any.
pub fn key_of(s: &str) -> (r: Option<PlacerKey>)
    ensures
        r == key_named(s@),
{
    if text_is(s, "-keep_clustering_data") {
        Some(PlacerKey::KeepClusteringData)
    } else if text_is(s, "-use_full_halo") {
        Some(PlacerKey::UseFullHalo)
    } else if text_is(s, "-max_num_macro") {
        Some(PlacerKey::MaxNumMacro)
    } else if text_is(s, "-min_num_macro") {
        Some(PlacerKey::MinNumMacro)
    } else if text_is(s, "-max_num_inst") {
        Some(PlacerKey::MaxNumInst)
    } else if text_is(s, "-min_num_inst") {
        Some(PlacerKey::MinNumInst)
    } else if text_is(s, "-tolerance") {
        Some(PlacerKey::Tolerance)
    } else if text_is(s, "-max_num_level") {
        Some(PlacerKey::MaxNumLevel)
    } else if text_is(s, "-coarsening_ratio") {
        Some(PlacerKey::CoarseningRatio)
    } else if text_is(s, "-large_net_threshold") {
        Some(PlacerKey::LargeNetThreshold)
    } else if text_is(s, "-fence_lx") {
        Some(PlacerKey::FenceLx)
    } else if text_is(s, "-fence_ly") {
        Some(PlacerKey::FenceLy)
    } else if text_is(s, "-fence_ux") {
        Some(PlacerKey::FenceUx)
    } else if text_is(s, "-fence_uy") {
        Some(PlacerKey::FenceUy)
    } else if text_is(s, "-area_weight") {
        Some(PlacerKey::AreaWeight)
    } else if text_is(s, "-outline_weight") {
        Some(PlacerKey::OutlineWeight)
    } else if text_is(s, "-wirelength_weight") {
        Some(PlacerKey::WirelengthWeight)
    } else if text_is(s, "-guidance_weight") {
        Some(PlacerKey::GuidanceWeight)
    } else if text_is(s, "-fence_weight") {
        Some(PlacerKey::FenceWeight)
    } else if text_is(s, "-boundary_weight") {
        Some(PlacerKey::BoundaryWeight)
    } else if text_is(s, "-notch_weight") {
        Some(PlacerKey::NotchWeight)
    } else if text_is(s, "-target_util") {
        Some(PlacerKey::TargetUtil)
    } else if text_is(s, "-min_ar") {
        Some(PlacerKey::MinAr)
    } else if text_is(s, "-report_directory") {
        Some(PlacerKey::ReportDirectory)
    } else if text_is(s, "-write_macro_placement") {
        Some(PlacerKey::WriteMacroPlacement)
    } else if text_is(s, "-soft_blockage_weight") {
        Some(PlacerKey::SoftBlockageWeight)
    } else if text_is(s, "-macro_blockage_weight") {
        Some(PlacerKey::MacroBlockageWeight)
    } else if text_is(s, "-halo_width") {
        Some(PlacerKey::HaloWidth)
    } else if text_is(s, "-halo_height") {
        Some(PlacerKey::HaloHeight)
    } else {
        None
    }
}

/// What stops the scan of the tokens: a keyword with no token after it, or a token that names
/// no keyword; each carries the token.
#[derive(Debug, Clone, PartialEq, Eq)]
pub enum ScanStop {
    MissingValue(String),
    UnknownKeyword(String),
}

/// The same stop, with its token as text.
pub open spec fn stop_text(s: ScanStop) -> (bool, Seq<char>) {
    match s {
        ScanStop::MissingValue(t) => (true, t@),
        ScanStop::UnknownKeyword(t) => (false, t@),
    }
}

/// The keywords read from token `i` on, each with the index of its value (its own index for a
/// flag), and how the scan stops: nowhere, or a missing value (`true`) or an unknown keyword
/// (`false`) at the given token. A flag is recognised first; any other token needs a value
/// after it before it is looked up.
pub open spec fn scan_from(args: Seq<Seq<char>>, i: int) -> (Seq<(PlacerKey, int)>, Option<(bool, Seq<char>)>)
    decreases args.len() - i,
{
    if i < 0 || i >= args.len() {
        (Seq::empty(), None)
    } else {
        match key_named(args[i]) {
            Some(k) if is_flag(k) => {
                let (rest, stop) = scan_from(args, i + 1);
                (seq![(k, i)] + rest, stop)
            },
            _ => if i + 1 >= args.len() {
                (Seq::empty(), Some((true, args[i])))
            } else {
                match key_named(args[i]) {
                    Some(k) => {
                        let (rest, stop) = scan_from(args, i + 2);
                        (seq![(k, i + 1)] + rest, stop)
                    },
                    None => (Seq::empty(), Some((false, args[i]))),
                }
            },
        }
    }
}

/// The tokens as text.
pub open spec fn texts(args: Seq<&str>) -> Seq<Seq<char>> {
    args.map_values(|a: &str| a@)
}

/// Scan the command's tokens into keywords, each with the index of the token holding its
/// value, up to the first token that has no value after it or names no keyword.
pub fn scan_placer_args(args: &[&str]) -> (r: (Vec<(PlacerKey, usize)>, Option<ScanStop>))
    ensures
        ({
            let (keys, stop) = scan_from(texts(args@), 0);
            &&& r.0@.map_values(|e: (PlacerKey, usize)| (e.0, e.1 as int)) == keys
            &&& match r.1 {
                Some(s) => stop == Some(stop_text(s)),
                None => stop is None,
            }
        }),
{
    let ghost a = texts(args@);
    let mut keys: Vec<(PlacerKey, usize)> = Vec::new();
    let mut i: usize = 0;
    while i < args.len()
        invariant
            i <= args@.len(),
            a == texts(args@),
            a.len() == args@.len(),
            scan_from(a, 0) == (keys@.map_values(|e: (PlacerKey, usize)| (e.0, e.1 as int)) + scan_from(a, i as int).0, scan_from(
                a,
                i as int,
            ).1),
        decreases args@.len() - i,
    {
        let ghost before = keys@;
        let key = args[i];
        assert(a[i as int] == key@);
        let named = key_of(key);
        let flag = match named {
            Some(PlacerKey::KeepClusteringData) | Some(PlacerKey::UseFullHalo) => true,
            _ => false,
        };
        if flag {
            let k = named.unwrap();
            keys.push((k, i));
            proof {
                let rest = scan_from(a, i + 1);
                assert(scan_from(a, i as int) == (seq![(k, i as int)] + rest.0, rest.1));
                assert(keys@.map_values(|e: (PlacerKey, usize)| (e.0, e.1 as int)) =~= before.map_values(
                    |e: (PlacerKey, usize)| (e.0, e.1 as int),
                ).push((k, i as int)));
                assert(before.map_values(|e: (PlacerKey, usize)| (e.0, e.1 as int)) + (seq![(k, i as int)] + rest.0)
                    =~= keys@.map_values(|e: (PlacerKey, usize)| (e.0, e.1 as int)) + rest.0);
            }
            i = i + 1;
        } else {
            if i + 1 >= args.len() {
                let t = String::from_str(key);
                proof {
                    assert(scan_from(a, i as int) == (Seq::<(PlacerKey, int)>::empty(), Some((true, a[i as int]))));
                    assert(before.map_values(|e: (PlacerKey, usize)| (e.0, e.1 as int)) + Seq::<(PlacerKey, int)>::empty()
                        =~= before.map_values(|e: (PlacerKey, usize)| (e.0, e.1 as int)));
                }
                return (keys, Some(ScanStop::MissingValue(t)));
            }
            match named {
                Some(k) => {
                    keys.push((k, i + 1));
                    proof {
                        let rest = scan_from(a, i + 2);
                        assert(scan_from(a, i as int) == (seq![(k, i + 1)] + rest.0, rest.1));
                        assert(keys@.map_values(|e: (PlacerKey, usize)| (e.0, e.1 as int)) =~= before.map_values(
                            |e: (PlacerKey, usize)| (e.0, e.1 as int),
                        ).push((k, i + 1)));
                        assert(before.map_values(|e: (PlacerKey, usize)| (e.0, e.1 as int)) + (seq![(k, i + 1)] + rest.0)
                            =~= keys@.map_values(|e: (PlacerKey, usize)| (e.0, e.1 as int)) + rest.0);
                    }
                    i = i + 2;
                },
                None => {
                    let t = String::from_str(key);
                    proof {
                        assert(scan_from(a, i as int) == (Seq::<(PlacerKey, int)>::empty(), Some((false, a[i as int]))));
                        assert(before.map_values(|e: (PlacerKey, usize)| (e.0, e.1 as int)) + Seq::<(PlacerKey, int)>::empty()
                            =~= before.map_values(|e: (PlacerKey, usize)| (e.0, e.1 as int)));
                    }
                    return (keys, Some(ScanStop::UnknownKeyword(t)));
                },
            }
        }
    }
    proof {
        assert(scan_from(a, i as int) == (Seq::<(PlacerKey, int)>::empty(), None::<(bool, Seq<char>)>));
        assert(keys@.map_values(|e: (PlacerKey, usize)| (e.0, e.1 as int)) + Seq::<(PlacerKey, int)>::empty()
            =~= keys@.map_values(|e: (PlacerKey, usize)| (e.0, e.1 as int)));
    }
    (keys, None)
}

/// The error a scan stop reports: the keyword without a value, or the unknown keyword.
pub fn scan_stop_error(stop: &ScanStop) -> (e: MplError)
    ensures
        e.code == 0,
        match stop {
            ScanStop::MissingValue(t) => e.message@ == t@ + " requires a value."@,
            ScanStop::UnknownKeyword(t) => e.message@ == "Unknown keyword "@ + t@ + " for rtl_macro_placer."@,
        },
{
    match stop {
        ScanStop::MissingValue(t) => {
            let mut message = t.clone();
            message.append(" requires a value.");
            MplError { code: 0, message }
        },
        ScanStop::UnknownKeyword(t) => {
            let mut message = String::from_str("Unknown keyword ");
            message.append(t.as_str());
            message.append(" for rtl_macro_placer.");
            MplError { code: 0, message }
        },
    }
}

/// The deprecated blockage weight may not come with the modern one (MPL-69).
pub fn blockage_weights_conflict(saw_macro_blockage_weight: bool, saw_soft_blockage_weight: bool) -> (r: Result<(), MplError>)
    ensures
        (saw_macro_blockage_weight && saw_soft_blockage_weight) <==> r is Err,
        r matches Err(e) ==> e.code == 69
            && e.message@ == "Cannot set -macro_blockage_weight along with -soft_blockage_weight. Use only one of those keys."@,
{
    if saw_macro_blockage_weight && saw_soft_blockage_weight {
        Err(
            MplError::new(
                69,
                "Cannot set -macro_blockage_weight along with -soft_blockage_weight. Use only one of those keys.",
            ),
        )
    } else {
        Ok(())
    }
}

/// The base halo the deprecated halo keys set: the width on the left and right, the height
/// on the bottom and top, each standing in for the other when only one is given; nothing
/// when neither is.
pub fn deprecated_base_halo(halo_width: Option<i64>, halo_height: Option<i64>) -> (r: Option<Halo>)
    ensures
        (halo_width is None && halo_height is None) <==> r is None,
        r matches Some(h) ==> {
            let w = match halo_width {
                Some(w) => w,
                None => halo_height->0,
            };
            let v = match halo_height {
                Some(v) => v,
                None => halo_width->0,
            };
            h == (Halo { left: w, bottom: v, right: w, top: v })
        },
{
    if halo_width.is_none() && halo_height.is_none() {
        return None;
    }
    let w = match halo_width {
        Some(w) => w,
        None => match halo_height {
            Some(v) => v,
            None => 0,
        },
    };
    let v = match halo_height {
        Some(v) => v,
        None => match halo_width {
            Some(w) => w,
            None => 0,
        },
    };
    Some(Halo { left: w, bottom: v, right: w, top: v })
}

} // verus!
