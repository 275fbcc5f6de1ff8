//! Net connectivity between clusters: which nets count, and the driver-to-load pairs each one
//! contributes.

use crate::cluster::ClusterId;
use crate::design::{Design, ignored, is_ignored_inst};
use vstd::prelude::*;

verus! {

/// A pin on an instance. An output pin drives; anything else is a load.
#[derive(Debug, Clone, Copy, PartialEq, Eq, Structural)]
pub struct InstTerm {
    pub inst: usize,
    pub is_output: bool,
}

/// A pin on a block port. An input port drives signal into the design.
#[derive(Debug, Clone, Copy, PartialEq, Eq, Structural)]
pub struct PortTerm {
    pub bterm: usize,
    pub is_input: bool,
}

/// A net as read from the database.
#[derive(Debug, Clone, PartialEq, Eq)]
pub struct DbNet {
    pub name: String,
    pub is_supply: bool,
    pub iterms: Vec<InstTerm>,
    pub bterms: Vec<PortTerm>,
}

/// A net reduced to cluster ids; no driver when nothing drove it.
#[derive(Debug, Clone, PartialEq, Eq)]
pub struct Net {
    pub driver: Option<ClusterId>,
    pub loads: Vec<ClusterId>,
}

/// Every instance pin of the net names an instance of the design.
pub open spec fn net_in_design(net: DbNet, design: Design) -> bool {
    forall|k: int| 0 <= k < net.iterms@.len() ==> #[trigger] net.iterms@[k].inst < design.instances@.len()
}

/// A net worth reading: not a supply net, and with at least one pin on an instance that is not
/// ignored.
pub open spec fn valid_net(net: DbNet, design: Design) -> bool {
    !net.is_supply && exists|k: int|
        0 <= k < net.iterms@.len() && !ignored(design.instances@[#[trigger] net.iterms@[k].inst as int])
}

/// Whether the net is worth reading at all.
pub fn is_valid_net(net: &DbNet, design: &Design) -> (r: bool)
    requires
        net_in_design(*net, *design),
    ensures
        r == valid_net(*net, *design),
{
    if net.is_supply {
        return false;
    }
    let mut k: usize = 0;
    while k < net.iterms.len()
        invariant
            k <= net.iterms@.len(),
            net_in_design(*net, *design),
            !net.is_supply,
            forall|m: int| 0 <= m < k ==> ignored(design.instances@[#[trigger] net.iterms@[m].inst as int]),
        decreases net.iterms@.len() - k,
    {
        let t = net.iterms[k];
        assert(t.inst < design.instances@.len());
        if !is_ignored_inst(&design.instances[t.inst]) {
            return true;
        }
        k = k + 1;
    }
    false
}

/// The driver and loads of the first `n` instance pins: the last output seen drives, every
/// other mapped pin is a load, and a pin whose instance maps to no cluster is skipped.
pub open spec fn inst_walk(terms: Seq<InstTerm>, map: Seq<Option<ClusterId>>, n: int) -> (Option<ClusterId>, Seq<ClusterId>)
    decreases n,
{
    if n <= 0 {
        (None, Seq::empty())
    } else {
        let (driver, loads) = inst_walk(terms, map, n - 1);
        let t = terms[n - 1];
        match map[t.inst as int] {
            None => (driver, loads),
            Some(id) => if t.is_output { (Some(id), loads) } else { (driver, loads.push(id)) },
        }
    }
}

/// The same for block ports, starting from what the instance pins gave: an input port drives.
pub open spec fn port_walk(
    terms: Seq<PortTerm>,
    map: Seq<Option<ClusterId>>,
    start: (Option<ClusterId>, Seq<ClusterId>),
    n: int,
) -> (Option<ClusterId>, Seq<ClusterId>)
    decreases n,
{
    if n <= 0 {
        start
    } else {
        let (driver, loads) = port_walk(terms, map, start, n - 1);
        let t = terms[n - 1];
        match map[t.bterm as int] {
            None => (driver, loads),
            Some(id) => if t.is_input { (Some(id), loads) } else { (driver, loads.push(id)) },
        }
    }
}

/// The net reduced to clusters: its instance pins, then, only when the design has no IO pads,
/// its block ports.
pub open spec fn net_of(
    net: DbNet,
    inst_to_cluster: Seq<Option<ClusterId>>,
    bterm_to_cluster: Seq<Option<ClusterId>>,
    has_pads: bool,
) -> (Option<ClusterId>, Seq<ClusterId>) {
    let from_insts = inst_walk(net.iterms@, inst_to_cluster, net.iterms@.len() as int);
    if has_pads {
        from_insts
    } else {
        port_walk(net.bterms@, bterm_to_cluster, from_insts, net.bterms@.len() as int)
    }
}

/// Every pin of the net has an entry in the maps.
pub open spec fn net_mapped(net: DbNet, inst_to_cluster: Seq<Option<ClusterId>>, bterm_to_cluster: Seq<Option<ClusterId>>) -> bool {
    &&& forall|k: int| 0 <= k < net.iterms@.len() ==> #[trigger] net.iterms@[k].inst < inst_to_cluster.len()
    &&& forall|k: int| 0 <= k < net.bterms@.len() ==> #[trigger] net.bterms@[k].bterm < bterm_to_cluster.len()
}

/// Reduce a net to the clusters it touches. `inst_to_cluster` and `bterm_to_cluster` give the
/// cluster of each instance and of each block port.
pub fn build_net(
    net: &DbNet,
    inst_to_cluster: &[Option<ClusterId>],
    bterm_to_cluster: &[Option<ClusterId>],
    design_has_io_pads: bool,
) -> (r: Net)
    requires
        net_mapped(*net, inst_to_cluster@, bterm_to_cluster@),
    ensures
        (r.driver, r.loads@) == net_of(*net, inst_to_cluster@, bterm_to_cluster@, design_has_io_pads),
{
    let mut driver: Option<ClusterId> = None;
    let mut loads: Vec<ClusterId> = Vec::new();
    let mut k: usize = 0;
    while k < net.iterms.len()
        invariant
            k <= net.iterms@.len(),
            net_mapped(*net, inst_to_cluster@, bterm_to_cluster@),
            (driver, loads@) == inst_walk(net.iterms@, inst_to_cluster@, k as int),
        decreases net.iterms@.len() - k,
    {
        let t = net.iterms[k];
        assert(t.inst < inst_to_cluster@.len());
        match inst_to_cluster[t.inst] {
            None => {},
            Some(id) => {
                if t.is_output {
                    driver = Some(id);
                } else {
                    loads.push(id);
                }
            },
        }
        k = k + 1;
    }
    if !design_has_io_pads {
        let ghost start = (driver, loads@);
        let mut p: usize = 0;
        while p < net.bterms.len()
            invariant
                p <= net.bterms@.len(),
                net_mapped(*net, inst_to_cluster@, bterm_to_cluster@),
                (driver, loads@) == port_walk(net.bterms@, bterm_to_cluster@, start, p as int),
            decreases net.bterms@.len() - p,
        {
            let t = net.bterms[p];
            assert(t.bterm < bterm_to_cluster@.len());
            match bterm_to_cluster[t.bterm] {
                None => {},
                Some(id) => {
                    if t.is_input {
                        driver = Some(id);
                    } else {
                        loads.push(id);
                    }
                },
            }
            p = p + 1;
        }
    }
    Net { driver, loads }
}

/// The driver-to-load pairs of a net: none without a driver, without loads, or with at least
/// `large_net_threshold` loads; otherwise one pair per load that is not the driver's own
/// cluster, duplicates kept, in order.
pub open spec fn pairs_of(driver: Option<ClusterId>, loads: Seq<ClusterId>, large_net_threshold: usize) -> Seq<(ClusterId, ClusterId)> {
    match driver {
        None => Seq::empty(),
        Some(d) => if loads.len() == 0 || loads.len() >= large_net_threshold {
            Seq::empty()
        } else {
            loads.filter(|l: ClusterId| l != d).map_values(|l: ClusterId| (d, l))
        },
    }
}

/// The driver-to-load pairs this net contributes.
pub fn connections_for(net: &Net, large_net_threshold: usize) -> (r: Vec<(ClusterId, ClusterId)>)
    ensures
        r@ == pairs_of(net.driver, net.loads@, large_net_threshold),
{
    let driver = match net.driver {
        None => {
            return Vec::new();
        },
        Some(d) => d,
    };
    if net.loads.len() == 0 || net.loads.len() >= large_net_threshold {
        return Vec::new();
    }
    let mut out: Vec<(ClusterId, ClusterId)> = Vec::new();
    let mut k: usize = 0;
    while k < net.loads.len()
        invariant
            k <= net.loads@.len(),
            out@ == net.loads@.take(k as int).filter(|l: ClusterId| l != driver).map_values(
                |l: ClusterId| (driver, l),
            ),
        decreases net.loads@.len() - k,
    {
        let load = net.loads[k];
        let ghost all = net.loads@;
        proof {
            assert(all.take(k + 1).drop_last() =~= all.take(k as int));
            reveal_with_fuel(Seq::<_>::filter, 1);
        }
        if load != driver {
            out.push((driver, load));
            proof {
                let f = all.take(k + 1).filter(|l: ClusterId| l != driver);
                let g = all.take(k as int).filter(|l: ClusterId| l != driver);
                assert(f =~= g.push(load));
                assert(f.map_values(|l: ClusterId| (driver, l)) =~= g.map_values(|l: ClusterId| (driver, l)).push((driver, load)));
            }
        } else {
            proof {
                assert(all.take(k + 1).filter(|l: ClusterId| l != driver) =~= all.take(k as int).filter(|l: ClusterId| l != driver));
            }
        }
        k = k + 1;
    }
    proof {
        assert(net.loads@.take(net.loads@.len() as int) =~= net.loads@);
    }
    out
}

} // verus!
