//! The design as read: instances, the logical module hierarchy, and the rules that classify
//! what was read.

use vstd::prelude::*;

verus! {

/// A rectangle in database units.
#[derive(Debug, Clone, Copy, PartialEq, Eq, Default, Structural)]
pub struct Rect {
    pub x_min: i64,
    pub y_min: i64,
    pub x_max: i64,
    pub y_max: i64,
}

/// The width of a rectangle, zero when inverted.
pub open spec fn rect_width(r: Rect) -> int {
    if r.x_max - r.x_min > 0 { r.x_max - r.x_min } else { 0 }
}

/// The height of a rectangle, zero when inverted.
pub open spec fn rect_height(r: Rect) -> int {
    if r.y_max - r.y_min > 0 { r.y_max - r.y_min } else { 0 }
}

/// The area of a rectangle; an inverted one has none.
pub open spec fn rect_area(r: Rect) -> int {
    rect_width(r) * rect_height(r)
}

/// The rectangle's extents and area are representable in 64 bits.
pub open spec fn area_fits(r: Rect) -> bool {
    &&& i64::MIN <= r.x_max - r.x_min <= i64::MAX
    &&& i64::MIN <= r.y_max - r.y_min <= i64::MAX
    &&& rect_area(r) <= i64::MAX
}

/// Whether two rectangles share interior; touching edges do not overlap.
pub open spec fn rects_overlap(a: Rect, b: Rect) -> bool {
    a.x_min < b.x_max && b.x_min < a.x_max && a.y_min < b.y_max && b.y_min < a.y_max
}

/// The overlap of two rectangles, or the zero rectangle when it is empty.
pub open spec fn rect_intersection(a: Rect, b: Rect) -> Rect {
    let r = Rect {
        x_min: if a.x_min > b.x_min { a.x_min } else { b.x_min },
        y_min: if a.y_min > b.y_min { a.y_min } else { b.y_min },
        x_max: if a.x_max < b.x_max { a.x_max } else { b.x_max },
        y_max: if a.y_max < b.y_max { a.y_max } else { b.y_max },
    };
    if r.x_max <= r.x_min || r.y_max <= r.y_min {
        Rect { x_min: 0, y_min: 0, x_max: 0, y_max: 0 }
    } else {
        r
    }
}

impl Rect {
    pub fn area(&self) -> (r: i64)
        requires
            area_fits(*self),
        ensures
            r == rect_area(*self),
            r >= 0,
    {
        let w = if self.x_max - self.x_min > 0 { self.x_max - self.x_min } else { 0 };
        let h = if self.y_max - self.y_min > 0 { self.y_max - self.y_min } else { 0 };
        proof {
            assert(w * h >= 0) by (nonlinear_arith)
                requires
                    w >= 0,
                    h >= 0,
            ;
        }
        w * h
    }

    /// Touching edges do NOT overlap.
    pub fn overlaps(&self, other: &Rect) -> (r: bool)
        ensures
            r == rects_overlap(*self, *other),
    {
        self.x_min < other.x_max && other.x_min < self.x_max && self.y_min < other.y_max
            && other.y_min < self.y_max
    }

    pub fn intersection(&self, other: &Rect) -> (r: Rect)
        ensures
            r == rect_intersection(*self, *other),
    {
        let r = Rect {
            x_min: if self.x_min > other.x_min { self.x_min } else { other.x_min },
            y_min: if self.y_min > other.y_min { self.y_min } else { other.y_min },
            x_max: if self.x_max < other.x_max { self.x_max } else { other.x_max },
            y_max: if self.y_max < other.y_max { self.y_max } else { other.y_max },
        };
        if r.x_max <= r.x_min || r.y_max <= r.y_min {
            Rect::default_rect()
        } else {
            r
        }
    }

    /// The zero rectangle.
    pub fn default_rect() -> (r: Rect)
        ensures
            r == (Rect { x_min: 0, y_min: 0, x_max: 0, y_max: 0 }),
    {
        Rect { x_min: 0, y_min: 0, x_max: 0, y_max: 0 }
    }
}

/// What the master of an instance is, to the extent the classification rules care.
#[derive(Debug, Clone, Copy, PartialEq, Eq, Default, Structural)]
pub struct MasterKind {
    pub is_pad: bool,
    pub is_pad_without_signal: bool,
    pub is_cover: bool,
    pub is_end_cap: bool,
}

/// One placed or placeable instance.
#[derive(Debug, Clone, PartialEq)]
pub struct Instance {
    pub name: String,
    /// A macro.
    pub is_block: bool,
    pub is_fixed: bool,
    pub bbox: Rect,
    pub master: MasterKind,
    /// A fixed macro that does not overlap the placement area.
    pub is_ignorable_macro: bool,
}

/// A node of the logical module hierarchy.
#[derive(Debug, Clone, PartialEq)]
pub struct Module {
    pub name: String,
    pub hierarchical_name: String,
    /// Instances owned directly by this module.
    pub insts: Vec<usize>,
    /// Child modules, by index.
    pub children: Vec<usize>,
}

/// The design, read once: every instance of the block, and the logical hierarchy, which
/// does not own physical-only cells.
#[derive(Debug, Clone, PartialEq)]
pub struct Design {
    pub instances: Vec<Instance>,
    pub modules: Vec<Module>,
    pub top: usize,
    pub core_area: Rect,
    pub die_area: Rect,
}

impl Design {
    /// Every index is in range, and a child module comes after its parent, as the reader
    /// lays the hierarchy out depth-first from the top.
    pub open spec fn well_formed(&self) -> bool {
        &&& self.top < self.modules@.len()
        &&& forall|m: int, k: int|
            0 <= m < self.modules@.len() && 0 <= k < self.modules@[m].insts@.len()
                ==> #[trigger] self.modules@[m].insts@[k] < self.instances@.len()
        &&& forall|m: int, k: int|
            0 <= m < self.modules@.len() && 0 <= k < self.modules@[m].children@.len() ==> m
                < #[trigger] self.modules@[m].children@[k] < self.modules@.len()
    }
}

/// The instances the module hierarchy owns below module `m`: its own, then each child's, the
/// last child first, as a stack walk from the top visits them.
pub open spec fn owned(d: Design, m: int) -> Seq<usize>
    decreases d.modules@.len() - m, 1int, 0int,
{
    if 0 <= m < d.modules@.len() {
        d.modules@[m].insts@ + owned_from(d, m, 0)
    } else {
        Seq::empty()
    }
}

/// The instances owned below the children of `m` from the `j`-th on, the last first.
pub open spec fn owned_from(d: Design, m: int, j: int) -> Seq<usize>
    decreases d.modules@.len() - m, 0int, d.modules@[m].children@.len() - j,
{
    if 0 <= m < d.modules@.len() && 0 <= j < d.modules@[m].children@.len() {
        let c = d.modules@[m].children@[j] as int;
        let rest = owned_from(d, m, j + 1);
        if m < c < d.modules@.len() { rest + owned(d, c) } else { rest }
    } else {
        Seq::empty()
    }
}

impl Design {
    fn collect_owned(&self, m: usize, out: &mut Vec<usize>)
        requires
            self.well_formed(),
            m < self.modules@.len(),
        ensures
            final(out)@ == old(out)@ + owned(*self, m as int),
        decreases self.modules@.len() - m,
    {
        let ghost start = out@;
        let module = &self.modules[m];
        let mut k: usize = 0;
        while k < module.insts.len()
            invariant
                k <= module.insts@.len(),
                out@ == start + module.insts@.take(k as int),
            decreases module.insts@.len() - k,
        {
            out.push(module.insts[k]);
            proof {
                assert(out@ =~= start + module.insts@.take(k + 1));
            }
            k = k + 1;
        }
        proof {
            assert(module.insts@.take(module.insts@.len() as int) =~= module.insts@);
        }
        let ghost base = out@;
        let mut j: usize = module.children.len();
        proof {
            assert(owned_from(*self, m as int, j as int) =~= Seq::<usize>::empty());
            assert(out@ =~= base + owned_from(*self, m as int, j as int));
        }
        while j > 0
            invariant
                j <= module.children@.len(),
                self.well_formed(),
                m < self.modules@.len(),
                module == &self.modules@[m as int],
                out@ == base + owned_from(*self, m as int, j as int),
            decreases j,
        {
            let c = module.children[j - 1];
            proof {
                assert(m < self.modules@[m as int].children@[j - 1] < self.modules@.len());
            }
            self.collect_owned(c, out);
            proof {
                assert(out@ =~= base + owned_from(*self, m as int, j - 1));
            }
            j = j - 1;
        }
        proof {
            assert(out@ =~= start + owned(*self, m as int));
        }
    }

    /// The instances reachable through the module hierarchy from the top: what the netlist
    /// holds, as opposed to what is physically in the block. Each module's own instances come
    /// first, then its children's, the last child first.
    pub fn module_owned_instances(&self) -> (r: Vec<usize>)
        requires
            self.well_formed(),
        ensures
            r@ == owned(*self, self.top as int),
    {
        let mut out: Vec<usize> = Vec::new();
        self.collect_owned(self.top, &mut out);
        proof {
            assert(out@ =~= owned(*self, self.top as int));
        }
        out
    }
}

/// Should this instance be left out of clustering entirely? A pad, cover or end-cap master,
/// and a macro marked ignorable.
pub open spec fn ignored(inst: Instance) -> bool {
    (inst.is_block && inst.is_ignorable_macro) || inst.master.is_pad || inst.master.is_cover
        || inst.master.is_end_cap
}

pub fn is_ignored_inst(inst: &Instance) -> (r: bool)
    ensures
        r == ignored(*inst),
{
    if inst.is_block && inst.is_ignorable_macro {
        return true;
    }
    inst.master.is_pad || inst.master.is_cover || inst.master.is_end_cap
}

/// What a module contains, counted recursively.
#[derive(Debug, Clone, Copy, PartialEq, Eq, Default, Structural)]
pub struct ModuleMetrics {
    pub num_std_cell: i32,
    pub num_macro: i32,
    pub std_cell_area: i64,
    pub macro_area: i64,
}

/// A fixed non-macro instance sitting inside the placement area.
#[derive(Debug, Clone, PartialEq, Eq)]
pub struct FixedInstanceInArea {
    pub name: String,
}

/// How one instance is counted: a macro always; a fixed non-cover instance overlapping
/// the area is an error; anything else not ignored is a standard cell.
pub enum InstClass {
    Macro,
    Error,
    StdCell,
    Neither,
}

pub open spec fn inst_class(inst: Instance, area: Rect) -> InstClass {
    if inst.is_block {
        InstClass::Macro
    } else if inst.is_fixed && !inst.master.is_cover && rects_overlap(inst.bbox, area) {
        InstClass::Error
    } else if !ignored(inst) {
        InstClass::StdCell
    } else {
        InstClass::Neither
    }
}

/// Metrics as unbounded integers: standard cells, macros, their areas.
pub type Counts = (int, int, int, int);

pub open spec fn add_counts(a: Counts, b: Counts) -> Counts {
    (a.0 + b.0, a.1 + b.1, a.2 + b.2, a.3 + b.3)
}

pub open spec fn inst_counts(inst: Instance, area: Rect) -> Counts {
    match inst_class(inst, area) {
        InstClass::Macro => (0, 1, 0, rect_area(inst.bbox)),
        InstClass::StdCell => (1, 0, rect_area(inst.bbox), 0),
        _ => (0, 0, 0, 0),
    }
}

/// The counts of the first `k` instances a module owns directly.
pub open spec fn own_counts(d: Design, m: int, area: Rect, k: nat) -> Counts
    decreases k,
{
    if k == 0 {
        (0, 0, 0, 0)
    } else {
        add_counts(
            own_counts(d, m, area, (k - 1) as nat),
            inst_counts(d.instances@[d.modules@[m].insts@[k - 1] as int], area),
        )
    }
}

/// The errors raised by the first `k` instances a module owns directly.
pub open spec fn own_errors(d: Design, m: int, area: Rect, k: nat) -> Seq<String>
    decreases k,
{
    if k == 0 {
        Seq::empty()
    } else {
        let inst = d.instances@[d.modules@[m].insts@[k - 1] as int];
        let prev = own_errors(d, m, area, (k - 1) as nat);
        if inst_class(inst, area) is Error { prev.push(inst.name) } else { prev }
    }
}

/// The module metrics' totals: the module's own instances, then each child in
/// order, counted recursively.
pub open spec fn module_counts(d: Design, m: int, area: Rect) -> Counts
    decreases d.modules@.len() - m, 1int, 0int,
{
    if 0 <= m < d.modules@.len() {
        add_counts(
            own_counts(d, m, area, d.modules@[m].insts@.len()),
            children_counts(d, m, area, d.modules@[m].children@.len()),
        )
    } else {
        (0, 0, 0, 0)
    }
}

/// The totals of the first `k` children of module `m`.
pub open spec fn children_counts(d: Design, m: int, area: Rect, k: nat) -> Counts
    decreases d.modules@.len() - m, 0int, k,
{
    if k == 0 || !(0 <= m < d.modules@.len()) || k > d.modules@[m].children@.len() {
        (0, 0, 0, 0)
    } else {
        let c = d.modules@[m].children@[k - 1] as int;
        if m < c < d.modules@.len() {
            add_counts(children_counts(d, m, area, (k - 1) as nat), module_counts(d, c, area))
        } else {
            children_counts(d, m, area, (k - 1) as nat)
        }
    }
}

/// The errors `computeModuleMetrics` raises, in the order it raises them.
pub open spec fn module_errors(d: Design, m: int, area: Rect) -> Seq<String>
    decreases d.modules@.len() - m, 1int, 0int,
{
    if 0 <= m < d.modules@.len() {
        own_errors(d, m, area, d.modules@[m].insts@.len()) + children_errors(
            d,
            m,
            area,
            d.modules@[m].children@.len(),
        )
    } else {
        Seq::empty()
    }
}

pub open spec fn children_errors(d: Design, m: int, area: Rect, k: nat) -> Seq<String>
    decreases d.modules@.len() - m, 0int, k,
{
    if k == 0 || !(0 <= m < d.modules@.len()) || k > d.modules@[m].children@.len() {
        Seq::empty()
    } else {
        let c = d.modules@[m].children@[k - 1] as int;
        if m < c < d.modules@.len() {
            children_errors(d, m, area, (k - 1) as nat) + module_errors(d, c, area)
        } else {
            children_errors(d, m, area, (k - 1) as nat)
        }
    }
}

/// Every instance's area is representable.
pub open spec fn areas_fit(d: Design) -> bool {
    forall|i: int| 0 <= i < d.instances@.len() ==> area_fits(#[trigger] d.instances@[i].bbox)
}

/// The counts fit the metric's field widths.
pub open spec fn counts_fit(c: Counts) -> bool {
    &&& c.0 <= i32::MAX
    &&& c.1 <= i32::MAX
    &&& c.2 <= i64::MAX
    &&& c.3 <= i64::MAX
}

pub open spec fn counts_nonneg(c: Counts) -> bool {
    c.0 >= 0 && c.1 >= 0 && c.2 >= 0 && c.3 >= 0
}

proof fn lemma_own_counts_grow(d: Design, m: int, area: Rect, k: nat)
    requires
        d.well_formed(),
        0 <= m < d.modules@.len(),
        k <= d.modules@[m].insts@.len(),
    ensures
        counts_nonneg(own_counts(d, m, area, k)),
        forall|j: nat|
            #![trigger own_counts(d, m, area, j)]
            j <= k ==> {
                let a = own_counts(d, m, area, j);
                let b = own_counts(d, m, area, k);
                a.0 <= b.0 && a.1 <= b.1 && a.2 <= b.2 && a.3 <= b.3
            },
    decreases k,
{
    if k > 0 {
        lemma_own_counts_grow(d, m, area, (k - 1) as nat);
        let inst = d.instances@[d.modules@[m].insts@[k - 1] as int];
        assert(rect_area(inst.bbox) >= 0) by (nonlinear_arith)
            requires
                rect_width(inst.bbox) >= 0,
                rect_height(inst.bbox) >= 0,
                rect_area(inst.bbox) == rect_width(inst.bbox) * rect_height(inst.bbox),
        ;
    }
}

proof fn lemma_module_counts_nonneg(d: Design, m: int, area: Rect)
    requires
        d.well_formed(),
    ensures
        counts_nonneg(module_counts(d, m, area)),
    decreases d.modules@.len() - m, 1int, 0int,
{
    if 0 <= m < d.modules@.len() {
        lemma_own_counts_grow(d, m, area, d.modules@[m].insts@.len());
        lemma_children_counts_grow(d, m, area, d.modules@[m].children@.len());
    }
}

proof fn lemma_children_counts_grow(d: Design, m: int, area: Rect, k: nat)
    requires
        d.well_formed(),
        0 <= m < d.modules@.len(),
        k <= d.modules@[m].children@.len(),
    ensures
        counts_nonneg(children_counts(d, m, area, k)),
        forall|j: nat|
            #![trigger children_counts(d, m, area, j)]
            j <= k ==> {
                let a = children_counts(d, m, area, j);
                let b = children_counts(d, m, area, k);
                a.0 <= b.0 && a.1 <= b.1 && a.2 <= b.2 && a.3 <= b.3
            },
    decreases d.modules@.len() - m, 0int, k,
{
    if k > 0 {
        lemma_children_counts_grow(d, m, area, (k - 1) as nat);
        let c = d.modules@[m].children@[k - 1] as int;
        if m < c < d.modules@.len() {
            lemma_module_counts_nonneg(d, c, area);
        }
    }
}

/// The module metrics, recursive over the module hierarchy: a macro counts as
/// a macro whether or not it is ignorable; a fixed non-cover instance overlapping the
/// placement area is reported; any other instance that is not ignored is a standard cell.
/// Children are counted after the module's own instances.
pub fn compute_module_metrics(
    design: &Design,
    module: usize,
    placement_area: &Rect,
    errors: &mut Vec<FixedInstanceInArea>,
) -> (r: ModuleMetrics)
    requires
        design.well_formed(),
        areas_fit(*design),
        module < design.modules@.len(),
        counts_fit(module_counts(*design, module as int, *placement_area)),
    ensures
        (r.num_std_cell as int, r.num_macro as int, r.std_cell_area as int, r.macro_area as int)
            == module_counts(*design, module as int, *placement_area),
        final(errors)@.map_values(|e: FixedInstanceInArea| e.name) == old(errors)@.map_values(
            |e: FixedInstanceInArea| e.name,
        ) + module_errors(*design, module as int, *placement_area),
    decreases design.modules@.len() - module,
{
    let ghost d = *design;
    let ghost area = *placement_area;
    let ghost total = module_counts(d, module as int, area);
    let ghost e0 = errors@.map_values(|e: FixedInstanceInArea| e.name);
    proof {
        lemma_own_counts_grow(d, module as int, area, design.modules[module as int].insts@.len());
        lemma_children_counts_grow(
            d,
            module as int,
            area,
            design.modules[module as int].children@.len(),
        );
    }
    let mut m = ModuleMetrics { num_std_cell: 0, num_macro: 0, std_cell_area: 0, macro_area: 0 };
    let insts = &design.modules[module].insts;
    let mut k: usize = 0;
    while k < insts.len()
        invariant
            d == *design,
            area == *placement_area,
            design.well_formed(),
            areas_fit(d),
            module < design.modules@.len(),
            insts == design.modules@[module as int].insts,
            total == module_counts(d, module as int, area),
            counts_fit(total),
            counts_nonneg(own_counts(d, module as int, area, insts@.len())),
            counts_nonneg(children_counts(d, module as int, area, design.modules@[module as int].children@.len())),
            forall|j: nat|
                #![trigger own_counts(d, module as int, area, j)]
                j <= insts@.len() ==> {
                    let a = own_counts(d, module as int, area, j);
                    let b = own_counts(d, module as int, area, insts@.len());
                    a.0 <= b.0 && a.1 <= b.1 && a.2 <= b.2 && a.3 <= b.3
                },
            k <= insts.len(),
            (m.num_std_cell as int, m.num_macro as int, m.std_cell_area as int, m.macro_area as int)
                == own_counts(d, module as int, area, k as nat),
            errors@.map_values(|e: FixedInstanceInArea| e.name) == e0 + own_errors(
                d,
                module as int,
                area,
                k as nat,
            ),
        decreases insts.len() - k,
    {
        let i = insts[k];
        let inst = &design.instances[i];
        proof {
            assert(own_counts(d, module as int, area, (k + 1) as nat).0 <= total.0);
            assert(own_counts(d, module as int, area, (k + 1) as nat).1 <= total.1);
            assert(own_counts(d, module as int, area, (k + 1) as nat).2 <= total.2);
            assert(own_counts(d, module as int, area, (k + 1) as nat).3 <= total.3);
            assert(area_fits(inst.bbox));
        }
        if inst.is_block {
            m.num_macro = m.num_macro + 1;
            m.macro_area = m.macro_area + inst.bbox.area();
        } else if inst.is_fixed && !inst.master.is_cover && inst.bbox.overlaps(placement_area) {
            let ghost before = errors@;
            let fixed = FixedInstanceInArea { name: inst.name.clone() };
            errors.push(fixed);
            proof {
                assert(errors@ == before.push(fixed));
                assert(errors@.map_values(|e: FixedInstanceInArea| e.name) =~= before.map_values(
                    |e: FixedInstanceInArea| e.name,
                ).push(inst.name));
                assert(errors@.map_values(|e: FixedInstanceInArea| e.name) =~= e0 + own_errors(
                    d,
                    module as int,
                    area,
                    (k + 1) as nat,
                ));
            }
        } else if !is_ignored_inst(inst) {
            m.num_std_cell = m.num_std_cell + 1;
            m.std_cell_area = m.std_cell_area + inst.bbox.area();
        }
        k += 1;
    }
    let children = &design.modules[module].children;
    let mut k: usize = 0;
    while k < children.len()
        invariant
            d == *design,
            area == *placement_area,
            design.well_formed(),
            areas_fit(d),
            module < design.modules@.len(),
            children == design.modules@[module as int].children,
            total == module_counts(d, module as int, area),
            total == add_counts(
                own_counts(d, module as int, area, design.modules@[module as int].insts@.len()),
                children_counts(d, module as int, area, children@.len()),
            ),
            counts_fit(total),
            counts_nonneg(own_counts(d, module as int, area, design.modules@[module as int].insts@.len())),
            forall|j: nat|
                #![trigger children_counts(d, module as int, area, j)]
                j <= children@.len() ==> {
                    let a = children_counts(d, module as int, area, j);
                    let b = children_counts(d, module as int, area, children@.len());
                    a.0 <= b.0 && a.1 <= b.1 && a.2 <= b.2 && a.3 <= b.3
                },
            k <= children.len(),
            (m.num_std_cell as int, m.num_macro as int, m.std_cell_area as int, m.macro_area as int)
                == add_counts(
                own_counts(d, module as int, area, design.modules@[module as int].insts@.len()),
                children_counts(d, module as int, area, k as nat),
            ),
            errors@.map_values(|e: FixedInstanceInArea| e.name) == e0 + own_errors(
                d,
                module as int,
                area,
                design.modules@[module as int].insts@.len(),
            ) + children_errors(d, module as int, area, k as nat),
        decreases children.len() - k,
    {
        let child = children[k];
        proof {
            assert(module < child);
            lemma_module_counts_nonneg(d, child as int, area);
            let cc = module_counts(d, child as int, area);
            let nxt = children_counts(d, module as int, area, (k + 1) as nat);
            assert(nxt == add_counts(children_counts(d, module as int, area, k as nat), cc));
            lemma_children_counts_grow(d, module as int, area, k as nat);
        }
        let c = compute_module_metrics(design, child, placement_area, errors);
        m.num_std_cell = m.num_std_cell + c.num_std_cell;
        m.num_macro = m.num_macro + c.num_macro;
        m.std_cell_area = m.std_cell_area + c.std_cell_area;
        m.macro_area = m.macro_area + c.macro_area;
        proof {
            assert(e0 + own_errors(d, module as int, area, design.modules@[module as int].insts@.len())
                + children_errors(d, module as int, area, (k + 1) as nat) =~= e0 + own_errors(
                d,
                module as int,
                area,
                design.modules@[module as int].insts@.len(),
            ) + children_errors(d, module as int, area, k as nat) + module_errors(
                d,
                child as int,
                area,
            ));
        }
        k += 1;
    }
    proof {
        assert(e0 + module_errors(d, module as int, area) =~= e0 + own_errors(
            d,
            module as int,
            area,
            design.modules@[module as int].insts@.len(),
        ) + children_errors(d, module as int, area, children@.len()));
    }
    m
}

/// Macros the placer may move: those whose placement is not fixed, in instance order.
pub fn unfixed_macros(design: &Design) -> (r: Vec<usize>)
    ensures
        r@ == Seq::new(design.instances@.len(), |i: int| i as usize).filter(
            |i: usize| design.instances@[i as int].is_block && !design.instances@[i as int].is_fixed,
        ),
{
    let ghost all = Seq::new(design.instances@.len(), |i: int| i as usize);
    let ghost p = |i: usize| design.instances@[i as int].is_block && !design.instances@[i as int].is_fixed;
    let mut out: Vec<usize> = Vec::new();
    let mut i: usize = 0;
    while i < design.instances.len()
        invariant
            i <= design.instances@.len(),
            all == Seq::new(design.instances@.len(), |i: int| i as usize),
            p == (|i: usize| design.instances@[i as int].is_block && !design.instances@[i as int].is_fixed),
            out@ == all.take(i as int).filter(p),
        decreases design.instances@.len() - i,
    {
        assert(all.take(i as int + 1).drop_last() =~= all.take(i as int));
        proof {
            reveal_with_fuel(Seq::<_>::filter, 1);
        }
        if design.instances[i].is_block && !design.instances[i].is_fixed {
            out.push(i);
        }
        i += 1;
    }
    assert(all.take(design.instances@.len() as int) =~= all);
    out
}

/// The area macro placement may use: the core, clipped to any global fence. A fence
/// leaving no area yields `None`.
pub fn floorplan_shape(core_area: &Rect, global_fence: Option<&Rect>) -> (r: Option<Rect>)
    requires
        area_fits(*core_area),
        global_fence is Some ==> area_fits(rect_intersection(*core_area, *global_fence->0)),
    ensures
        ({
            let shape = match global_fence {
                Some(f) => rect_intersection(*core_area, *f),
                None => *core_area,
            };
            if rect_area(shape) == 0 { r is None } else { r == Some(shape) }
        }),
{
    let shape = match global_fence {
        Some(f) => core_area.intersection(f),
        None => *core_area,
    };
    if shape.area() == 0 {
        None
    } else {
        Some(shape)
    }
}

} // verus!
