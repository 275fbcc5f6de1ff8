//! The coarse-shaping trace: the traversal order, each hard cluster's tilings and each
//! pin-access blockage, one line each, silent unless recording.

use crate::design::Rect;
use crate::halo::Boundary;
use crate::ioclusters::edge_letter;
use crate::shaping::Tiling;
use crate::text::{dec_int, dec_nat, push_decimal, push_signed};
use vstd::prelude::*;

verus! {

/// The channel's prefix; every debug line carries it, report lines do not.
pub open spec fn debug_prefix() -> Seq<char> {
    "[DEBUG MPL-coarse_shaping] "@
}

/// A recorder for the coarse-shaping channel.
#[derive(Debug, Default)]
pub struct CoarseTrace {
    on: bool,
    out: String,
}

impl View for CoarseTrace {
    type V = (bool, Seq<char>);

    /// Whether it records, and what it recorded so far.
    closed spec fn view(&self) -> (bool, Seq<char>) {
        (self.on, self.out@)
    }
}

/// The trace after a debug line with the given body.
pub open spec fn with_debug(t: (bool, Seq<char>), body: Seq<char>) -> (bool, Seq<char>) {
    if t.0 {
        (t.0, t.1 + debug_prefix() + body + "\n"@)
    } else {
        t
    }
}

/// The trace after a report line, which has no prefix.
pub open spec fn with_report(t: (bool, Seq<char>), body: Seq<char>) -> (bool, Seq<char>) {
    if t.0 {
        (t.0, t.1 + body + "\n"@)
    } else {
        t
    }
}

/// odb's streaming of a point: `( x y )`.
pub open spec fn point_text(x: int, y: int) -> Seq<char> {
    "( "@ + dec_int(x) + " "@ + dec_int(y) + " )"@
}

/// odb's streaming of a rectangle: its two corners.
pub open spec fn rect_text(r: Rect) -> Seq<char> {
    point_text(r.x_min as int, r.y_min as int) + " "@ + point_text(r.x_max as int, r.y_max as int)
}

/// The tilings on one line: ` < w , h >  ` for each.
pub open spec fn tilings_text(tilings: Seq<Tiling>) -> Seq<char>
    decreases tilings.len(),
{
    if tilings.len() == 0 {
        Seq::empty()
    } else {
        tilings_text(tilings.drop_last()) + " < "@ + dec_int(tilings.last().width as int) + " , "@
            + dec_int(tilings.last().height as int) + " >  "@
    }
}

pub(crate) fn push_point(s: &mut String, x: i64, y: i64)
    ensures
        final(s)@ == old(s)@ + point_text(x as int, y as int),
{
    s.append("( ");
    push_signed(s, x);
    s.append(" ");
    push_signed(s, y);
    s.append(" )");
    proof {
        assert(s@ =~= old(s)@ + point_text(x as int, y as int));
    }
}

impl CoarseTrace {
    /// A recorder that discards everything.
    pub fn silent() -> (t: CoarseTrace)
        ensures
            t@ == (false, Seq::<char>::empty()),
    {
        CoarseTrace { on: false, out: String::new() }
    }

    /// A recorder that keeps the lines.
    pub fn recording() -> (t: CoarseTrace)
        ensures
            t@ == (true, Seq::<char>::empty()),
    {
        CoarseTrace { on: true, out: String::new() }
    }

    pub fn is_recording(&self) -> (r: bool)
        ensures
            r == self@.0,
    {
        self.on
    }

    /// Everything recorded, in order.
    pub fn finish(self) -> (s: String)
        ensures
            s@ == self@.1,
    {
        self.out
    }

    /// A line carrying the channel's prefix.
    pub fn debug_line(&mut self, body: &str)
        ensures
            final(self)@ == with_debug(old(self)@, body@),
    {
        if !self.on {
            return;
        }
        self.out.append("[DEBUG MPL-coarse_shaping] ");
        self.out.append(body);
        self.out.append("\n");
        proof {
            assert(self.out@ =~= old(self)@.1 + debug_prefix() + body@ + "\n"@);
        }
    }

    /// A line of a report, without the prefix.
    pub fn report_line(&mut self, body: &str)
        ensures
            final(self)@ == with_report(old(self)@, body@),
    {
        if !self.on {
            return;
        }
        self.out.append(body);
        self.out.append("\n");
        proof {
            assert(self.out@ =~= old(self)@.1 + body@ + "\n"@);
        }
    }

    fn debug_text(&mut self, body: String)
        ensures
            final(self)@ == with_debug(old(self)@, body@),
    {
        self.debug_line(body.as_str());
    }

    /// `Determine shapes for <name>`.
    pub fn determine_shapes(&mut self, name: &str)
        ensures
            final(self)@ == with_debug(old(self)@, "Determine shapes for "@ + name@),
    {
        let mut s = String::from_str("Determine shapes for ");
        s.append(name);
        self.debug_text(s);
    }

    /// `<name> is a Macro cluster`.
    pub fn is_macro_cluster(&mut self, name: &str)
        ensures
            final(self)@ == with_debug(old(self)@, name@ + " is a Macro cluster"@),
    {
        let mut s = String::from_str(name);
        s.append(" is a Macro cluster");
        self.debug_text(s);
    }

    /// `Started visiting children of <name>`.
    pub fn started_visiting(&mut self, name: &str)
        ensures
            final(self)@ == with_debug(old(self)@, "Started visiting children of "@ + name@),
    {
        let mut s = String::from_str("Started visiting children of ");
        s.append(name);
        self.debug_text(s);
    }

    /// `Done visiting children of <name>`.
    pub fn done_visiting(&mut self, name: &str)
        ensures
            final(self)@ == with_debug(old(self)@, "Done visiting children of "@ + name@),
    {
        let mut s = String::from_str("Done visiting children of ");
        s.append(name);
        self.debug_text(s);
    }

    /// A hard cluster's tilings: one debug line whose body holds the header, a newline, the
    /// tilings and a newline, so a blank line follows each block.
    pub fn hard_cluster_tilings(&mut self, name: &str, number_of_macros: usize, tilings: &[Tiling])
        ensures
            final(self)@ == with_debug(
                old(self)@,
                "Tiling for hard cluster "@ + name@ + " with "@ + dec_nat(number_of_macros as nat)
                    + " macros.\n"@ + tilings_text(tilings@) + "\n"@,
            ),
    {
        if !self.on {
            return;
        }
        let mut line = String::from_str("Tiling for hard cluster ");
        line.append(name);
        line.append(" with ");
        push_decimal(&mut line, number_of_macros as u64);
        line.append(" macros.\n");
        let ghost head = line@;
        let mut k: usize = 0;
        while k < tilings.len()
            invariant
                k <= tilings@.len(),
                line@ == head + tilings_text(tilings@.take(k as int)),
            decreases tilings@.len() - k,
        {
            let t = tilings[k];
            proof {
                assert(tilings@.take(k + 1).drop_last() =~= tilings@.take(k as int));
                assert(tilings@.take(k + 1).last() == t);
            }
            line.append(" < ");
            push_signed(&mut line, t.width);
            line.append(" , ");
            push_signed(&mut line, t.height);
            line.append(" >  ");
            proof {
                assert(line@ =~= head + tilings_text(tilings@.take(k + 1)));
            }
            k = k + 1;
        }
        proof {
            assert(tilings@.take(tilings@.len() as int) =~= tilings@);
        }
        line.append("\n");
        self.debug_text(line);
    }

    /// `Found blocked region <rect> in <side> boundary.`
    pub fn found_blocked_region(&mut self, region: &Rect, boundary: Boundary)
        ensures
            final(self)@ == with_debug(
                old(self)@,
                "Found blocked region "@ + rect_text(*region) + " in "@ + edge_letter(boundary)
                    + " boundary."@,
            ),
    {
        let mut s = String::from_str("Found blocked region ");
        push_point(&mut s, region.x_min, region.y_min);
        s.append(" ");
        push_point(&mut s, region.x_max, region.y_max);
        s.append(" in ");
        s.append(boundary.name());
        s.append(" boundary.");
        proof {
            assert(s@ =~= "Found blocked region "@ + rect_text(*region) + " in "@ + edge_letter(boundary)
                + " boundary."@);
        }
        self.debug_text(s);
    }
}

} // verus!
