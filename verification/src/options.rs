//! The command contract: the diagnostics, and the halo and region values that the placer's
//! commands accept.

use vstd::prelude::*;

verus! {

/// A diagnostic of the placer. The number is `MPL-<n>`; callers match on it.
#[derive(Debug, Clone, PartialEq, Eq)]
pub struct MplError {
    pub code: u16,
    pub message: String,
}

/// A deprecation warning that is reported but does not fail the command.
#[derive(Debug, Clone, PartialEq, Eq)]
pub struct MplWarning {
    pub code: u16,
    pub message: String,
}

impl MplError {
    /// A diagnostic with its number and text.
    pub fn new(code: u16, message: &str) -> (e: MplError)
        ensures
            e.code == code,
            e.message@ == message@,
    {
        MplError { code, message: String::from_str(message) }
    }
}

/// A halo, ordered left, bottom, right, top.
#[derive(Debug, Clone, Copy, PartialEq, Eq, Default, Structural)]
pub struct Halo {
    pub left: i64,
    pub bottom: i64,
    pub right: i64,
    pub top: i64,
}

/// The halo a list of values denotes, when it has two or four of them: two values mean
/// `right = left` and `top = bottom`.
pub open spec fn halo_of(values: Seq<i64>) -> Halo {
    if values.len() == 2 {
        Halo { left: values[0], bottom: values[1], right: values[0], top: values[1] }
    } else {
        Halo { left: values[0], bottom: values[1], right: values[2], top: values[3] }
    }
}

/// No side of the halo is negative.
pub open spec fn halo_nonnegative(h: Halo) -> bool {
    h.left >= 0 && h.bottom >= 0 && h.right >= 0 && h.top >= 0
}

impl Halo {
    /// Parse a halo list: `MPL-72` on a length other than 2 or 4, `MPL-73` on a negative value.
    pub fn parse(values: &[i64]) -> (r: Result<Halo, MplError>)
        ensures
            (values@.len() != 2 && values@.len() != 4) <==> (r is Err && r->Err_0.code == 72),
            (values@.len() == 2 || values@.len() == 4) ==> (match r {
                Ok(h) => h == halo_of(values@) && halo_nonnegative(h),
                Err(e) => e.code == 73 && !halo_nonnegative(halo_of(values@)),
            }),
    {
        let n = values.len();
        if n != 2 && n != 4 {
            return Err(MplError::new(72, "Halo must have 2 or 4 values."));
        }
        let h = if n == 2 {
            Halo { left: values[0], bottom: values[1], right: values[0], top: values[1] }
        } else {
            Halo { left: values[0], bottom: values[1], right: values[2], top: values[3] }
        };
        if h.left < 0 || h.bottom < 0 || h.right < 0 || h.top < 0 {
            return Err(MplError::new(73, "Halo values must be non-negative."));
        }
        Ok(h)
    }
}

/// A guidance region.
#[derive(Debug, Clone, Copy, PartialEq, Eq, Structural)]
pub struct Region {
    pub x1: i64,
    pub y1: i64,
    pub x2: i64,
    pub y2: i64,
}

impl Region {
    /// Parse a region list: `MPL-31` unless it has four values, `MPL-32` when `x1 > x2`,
    /// `MPL-33` when `y1 > y2`, checked in that order.
    pub fn parse(values: &[i64]) -> (r: Result<Region, MplError>)
        ensures
            values@.len() != 4 ==> (r is Err && r->Err_0.code == 31),
            values@.len() == 4 ==> (match r {
                Ok(g) => g == (Region {
                    x1: values@[0],
                    y1: values@[1],
                    x2: values@[2],
                    y2: values@[3],
                }) && values@[0] <= values@[2] && values@[1] <= values@[3],
                Err(e) => if values@[0] > values@[2] {
                    e.code == 32
                } else {
                    e.code == 33 && values@[1] > values@[3]
                },
            }),
    {
        if values.len() != 4 {
            return Err(MplError::new(31, "-region must be a list of 4 values."));
        }
        let x1 = values[0];
        let y1 = values[1];
        let x2 = values[2];
        let y2 = values[3];
        if x1 > x2 {
            return Err(MplError::new(32, "Invalid region: x1 > x2."));
        }
        if y1 > y2 {
            return Err(MplError::new(33, "Invalid region: y1 > y2."));
        }
        Ok(Region { x1, y1, x2, y2 })
    }
}

} // verus!
