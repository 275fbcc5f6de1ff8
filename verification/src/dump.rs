//! The physical-hierarchy dump: one line per cluster, depth first, parents before children.

use crate::cluster::{Cluster, cluster_size, forest_size, io_cluster, macros_of, std_cells_of, type_word};
use crate::text::{dec_int, dec_nat, push_decimal, push_signed};
use vstd::prelude::*;

verus! {

/// `+---` once per level of depth.
pub open spec fn indent(level: nat) -> Seq<char>
    decreases level,
{
    if level == 0 {
        Seq::empty()
    } else {
        indent((level - 1) as nat) + "+---"@
    }
}

/// What follows a cluster's type on its line: a pin count for a cluster carrying pins; nothing
/// for an IO pad; otherwise a space, the leaf word, then the standard-cell field when its count
/// or its area is non-zero, and the macro field, with its trailing comma, likewise.
pub open spec fn line_details(c: Cluster) -> Seq<char> {
    if c.is_cluster_of_unplaced_io_pins || c.is_io_bundle {
        " Pins: "@ + dec_nat(c.num_io_pins as nat)
    } else if c.is_io_pad_cluster {
        Seq::empty()
    } else {
        let leaf = if !io_cluster(c) && c.children@.len() == 0 { "Leaf"@ } else { ""@ };
        let cells = if std_cells_of(c) != 0 || c.metrics.std_cell_area != 0 {
            ", StdCells: "@ + dec_int(std_cells_of(c)) + " ("@ + dec_int(c.metrics.std_cell_area as int)
                + " μ²)"@
        } else {
            Seq::empty()
        };
        let macros = if macros_of(c) != 0 || c.metrics.macro_area != 0 {
            ", Macros: "@ + dec_int(macros_of(c)) + " ("@ + dec_int(c.metrics.macro_area as int)
                + " μ²),"@
        } else {
            Seq::empty()
        };
        " "@ + leaf + cells + macros
    }
}

/// A cluster's own line: indent, name, two spaces, the id in brackets, the type, the details.
pub open spec fn cluster_line(c: Cluster, level: nat) -> Seq<char> {
    indent(level) + c.name@ + "  ("@ + dec_int(c.id as int) + ") Type: "@ + type_word(c) + line_details(c)
        + "\n"@
}

/// The dump of a subtree: its line, then each child's subtree one level deeper.
pub open spec fn dump_of(c: Cluster, level: nat) -> Seq<char>
    decreases c,
{
    cluster_line(c, level) + dump_list(c.children@, level + 1)
}

/// The dumps of a list of subtrees, in order.
pub open spec fn dump_list(s: Seq<Cluster>, level: nat) -> Seq<char>
    decreases s,
{
    if s.len() == 0 {
        Seq::empty()
    } else {
        dump_list(s.subrange(0, s.len() - 1), level) + dump_of(s[s.len() - 1], level)
    }
}

/// The whole tree, one line per cluster, depth first.
pub fn physical_hierarchy(root: &Cluster) -> (s: String)
    requires
        cluster_size(*root) <= usize::MAX,
    ensures
        s@ == dump_of(*root, 0),
{
    let mut out = String::new();
    write_cluster(root, 0, &mut out);
    proof {
        assert(Seq::<char>::empty() + dump_of(*root, 0) =~= dump_of(*root, 0));
    }
    out
}

fn write_indent(level: usize, out: &mut String)
    ensures
        final(out)@ == old(out)@ + indent(level as nat),
{
    let mut k: usize = 0;
    while k < level
        invariant
            k <= level,
            out@ == old(out)@ + indent(k as nat),
        decreases level - k,
    {
        out.append("+---");
        proof {
            assert(old(out)@ + indent(k as nat) + "+---"@ =~= old(out)@ + indent((k + 1) as nat));
        }
        k = k + 1;
    }
}

fn write_field(out: &mut String, label: &str, count: i64, area: i64, tail: &str)
    ensures
        final(out)@ == old(out)@ + (label@ + dec_int(count as int) + " ("@ + dec_int(area as int) + tail@),
{
    out.append(label);
    push_signed(out, count);
    out.append(" (");
    push_signed(out, area);
    out.append(tail);
    proof {
        assert(out@ =~= old(out)@ + (label@ + dec_int(count as int) + " ("@ + dec_int(area as int) + tail@));
    }
}

fn write_details(cluster: &Cluster, out: &mut String)
    ensures
        final(out)@ == old(out)@ + line_details(*cluster),
{
    if cluster.is_cluster_of_unplaced_io_pins || cluster.is_io_bundle {
        out.append(" Pins: ");
        push_decimal(out, cluster.num_io_pins as u64);
        proof {
            assert(out@ =~= old(out)@ + line_details(*cluster));
        }
    } else if !cluster.is_io_pad_cluster {
        out.append(" ");
        out.append(cluster.is_leaf_string());
        let ghost after_leaf = out@;
        if cluster.num_std_cell() != 0 || cluster.std_cell_area() != 0 {
            write_field(out, ", StdCells: ", cluster.num_std_cell() as i64, cluster.std_cell_area(), " μ²)");
        }
        let ghost after_cells = out@;
        if cluster.num_macro() != 0 || cluster.macro_area() != 0 {
            write_field(out, ", Macros: ", cluster.num_macro() as i64, cluster.macro_area(), " μ²),");
        }
        proof {
            assert(out@ =~= old(out)@ + line_details(*cluster));
        }
    } else {
        proof {
            assert(out@ =~= old(out)@ + line_details(*cluster));
        }
    }
}

fn write_line(cluster: &Cluster, level: usize, out: &mut String)
    ensures
        final(out)@ == old(out)@ + cluster_line(*cluster, level as nat),
{
    write_indent(level, out);
    out.append(cluster.name.as_str());
    out.append("  (");
    push_signed(out, cluster.id as i64);
    out.append(") Type: ");
    out.append(cluster.type_string());
    write_details(cluster, out);
    out.append("\n");
    proof {
        assert(out@ =~= old(out)@ + cluster_line(*cluster, level as nat));
    }
}

fn write_cluster(cluster: &Cluster, level: usize, out: &mut String)
    requires
        level + cluster_size(*cluster) <= usize::MAX,
    ensures
        final(out)@ == old(out)@ + dump_of(*cluster, level as nat),
    decreases cluster,
{
    write_line(cluster, level, out);
    let ghost line_done = out@;
    let mut k: usize = 0;
    while k < cluster.children.len()
        invariant
            k <= cluster.children@.len(),
            level + cluster_size(*cluster) <= usize::MAX,
            out@ == line_done + dump_list(cluster.children@.subrange(0, k as int), (level + 1) as nat),
        decreases cluster.children@.len() - k,
    {
        let ghost all = cluster.children@;
        proof {
            assert(all.subrange(0, k + 1).subrange(0, k as int) =~= all.subrange(0, k as int));
            assert(all.subrange(0, k + 1)[k as int] == all[k as int]);
        }
        proof {
            lemma_child_smaller(all, k as int);
            assert(cluster_size(*cluster) == 1 + forest_size(all));
        }
        write_cluster(&cluster.children[k], level + 1, out);
        proof {
            assert(line_done + dump_list(all.subrange(0, k as int), (level + 1) as nat) + dump_of(all[k as int], (level + 1) as nat) =~= line_done + dump_list(all.subrange(0, k + 1), (level + 1) as nat));
        }
        k = k + 1;
    }
    proof {
        assert(cluster.children@.subrange(0, cluster.children@.len() as int) =~= cluster.children@);
        assert(out@ =~= old(out)@ + dump_of(*cluster, level as nat));
    }
}

proof fn lemma_child_smaller(s: Seq<Cluster>, k: int)
    requires
        0 <= k < s.len(),
    ensures
        cluster_size(s[k]) <= forest_size(s),
    decreases s.len(),
{
    let init = s.subrange(0, s.len() - 1);
    assert(forest_size(s) == forest_size(init) + cluster_size(s[s.len() - 1]));
    if k < s.len() - 1 {
        lemma_child_smaller(init, k);
        assert(init[k] == s[k]);
    }
}

} // verus!
