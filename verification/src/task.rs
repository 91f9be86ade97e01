//! A board to be routed as a whole: its grid, its nets, its vias and its spacing.
use vstd::prelude::*;

use crate::board::{CellIdx, Cost, Dims, OBSTACLE};
use crate::geometry::{
    axis_cost_prefix, axis_leg_cost, gap_cost, net_window, GeoView, Geometry, IsolatedRouteWindow,
};
use crate::grid::Grid;
use crate::heap::MinHeap;
use crate::net::NetEndpoints;
use crate::pads::PadSet;
use crate::path::Graph;
use crate::via::ViaModel;

verus! {

/// What is to be routed, as plain values.
pub struct Task {
    /// The grid.
    pub grid: Grid,
    /// The nets.
    pub nets: Seq<NetEndpoints>,
    /// Where vias may be drilled.
    pub via: ViaModel,
    /// The spacing of the grid lines.
    pub geo: GeoView,
}

impl Task {
    /// The extent of the board.
    pub open spec fn dims(self) -> Dims {
        self.grid.dims
    }

    /// `c` is one of net `i`'s own pads.
    pub open spec fn is_pad(self, i: int, c: CellIdx) -> bool {
        self.nets[i].passable_pads@.contains(c)
    }

    /// `c` is an end of net `i`.
    pub open spec fn is_end(self, i: int, c: CellIdx) -> bool {
        c == self.nets[i].src || c == self.nets[i].dst
    }

    /// `c` is an obstacle to net `i`.
    pub open spec fn bars(self, i: int, c: CellIdx) -> bool {
        self.grid.obstacle(c) && !self.is_pad(i, c)
    }

    /// How heavily entering `c` weighs for net `i`.
    pub open spec fn weight(self, i: int, c: CellIdx) -> Cost {
        if self.grid.obstacle(c) && self.is_pad(i, c) {
            1
        } else {
            self.grid.cost@[c as int]
        }
    }

    /// What the planar step from `u` to `v` costs before it is weighed.
    pub open spec fn step_gap(self, u: CellIdx, v: CellIdx) -> Cost {
        let d = self.dims();
        if d.row(u) == d.row(v) {
            crate::geometry::gap(
                self.geo.x_gaps,
                if d.col(u) < d.col(v) {
                    d.col(u)
                } else {
                    d.col(v)
                },
            )
        } else {
            crate::geometry::gap(
                self.geo.y_gaps,
                if d.row(u) < d.row(v) {
                    d.row(u)
                } else {
                    d.row(v)
                },
            )
        }
    }

    /// Net `i` may drill at `c`.
    pub open spec fn may_drill(self, i: int, c: CellIdx) -> bool {
        !self.grid.no_via(c) || self.nets[i].via_passable_pads@.contains(c)
    }

    /// Net `i` may drill from `u` to `v`.
    pub open spec fn drills(self, i: int, u: CellIdx, v: CellIdx) -> bool {
        &&& self.via.legal(self.dims().layer(u), self.dims().layer(v))
        &&& self.may_drill(i, u)
        &&& self.may_drill(i, v)
    }

    /// What the step from `u` to `v` costs net `i` before anything is added, where
    /// both cells are open to it.
    pub open spec fn base_price(self, i: int, u: CellIdx, v: CellIdx) -> Option<nat> {
        if self.dims().planar_adjacent(u, v) {
            Some((self.step_gap(u, v) * self.weight(i, v)) as nat)
        } else if self.dims().via_adjacent(u, v) && self.drills(i, u, v) {
            Some((self.via.step_cost * self.weight(i, v)) as nat)
        } else {
            None
        }
    }

    /// The window of net `i`.
    pub open spec fn window(self, i: int) -> IsolatedRouteWindow {
        crate::geometry::window_of(
            self.dims(),
            self.nets[i].src,
            self.nets[i].dst,
            self.nets[i].passable_pads@,
        )
    }

    /// Some cell costs nothing.
    pub open spec fn has_free_cell(self) -> bool {
        exists|c: int| 0 <= c < self.grid.cost@.len() && #[trigger] self.grid.cost@[c] == 0
    }

    /// A lower bound on what is left to pay from `c` to `dst`.
    ///
    /// No step costs as much as an obstacle, however long it is, and so the bound stays
    /// below that too.
    pub open spec fn bound(self, c: CellIdx, dst: CellIdx) -> int {
        let d = self.dims();
        if self.has_free_cell() {
            0
        } else {
            let x = crate::search::sat(
                crate::geometry::leg(self.geo.x_gaps, d.col(c), d.col(dst)),
            );
            let y = crate::search::sat(
                crate::geometry::leg(self.geo.y_gaps, d.row(c), d.row(dst)),
            );
            let dl = d.layer(c) - d.layer(dst);
            let l = if dl < 0 {
                -dl
            } else {
                dl
            };
            let whole = crate::search::sat(
                crate::search::sat(x + y) + crate::search::sat(l * self.via.step_cost),
            );
            if whole < OBSTACLE {
                whole
            } else {
                OBSTACLE - 1
            }
        }
    }

    /// A net's lists and ends are on the board, its ends are open to it, and its via
    /// exemptions are among its pads.
    pub open spec fn net_fits(self, i: int) -> bool {
        net_fits(&self.grid, &self.nets[i])
    }

    /// The grid and every net are in order.
    pub open spec fn wf(self) -> bool {
        &&& self.grid.well_formed()
        &&& forall|i: int| 0 <= i < self.nets.len() ==> #[trigger] self.net_fits(i)
    }
}

/// `p` leads net `i` from its start to its end, over cells that are open to it, each
/// one step from the one before.
pub open spec fn own_walk(t: Task, i: int, p: Seq<CellIdx>) -> bool {
    &&& p.len() > 0
    &&& p[0] == t.nets[i].src
    &&& p.last() == t.nets[i].dst
    &&& forall|k: int| 0 <= k < p.len() ==> t.dims().has(#[trigger] p[k]) && !t.bars(i, p[k])
    &&& forall|k: int| 0 < k < p.len() ==> #[trigger] stride(t, i, p, k)
}

/// The cell at place `k` is one step after the cell before it.
pub open spec fn stride(t: Task, i: int, p: Seq<CellIdx>, k: int) -> bool {
    t.base_price(i, p[k - 1], p[k]) is Some
}

/// Every net has no path, or one that leads it.
pub open spec fn all_walk(t: Task, paths: Seq<Seq<CellIdx>>) -> bool {
    &&& paths.len() == t.nets.len()
    &&& forall|i: int|
        0 <= i < paths.len() ==> (#[trigger] paths[i]).len() == 0 || own_walk(t, i, paths[i])
}

/// A walk in a graph whose steps are open to net `i` leads it.
pub proof fn lemma_own_walk(t: Task, i: int, g: Graph, p: Seq<CellIdx>)
    requires
        t.wf(),
        0 <= i < t.nets.len(),
        g.cells == t.dims().cells(),
        g.connects(t.nets[i].src, t.nets[i].dst, p),
        forall|u: CellIdx, v: CellIdx| #[trigger]
            g.joins(u, v) ==> t.base_price(i, u, v) is Some && (t.is_end(i, v) || !t.bars(i, v)),
    ensures
        own_walk(t, i, p),
{
    assert(t.net_fits(i));
    assert forall|k: int| 0 <= k < p.len() implies t.dims().has(#[trigger] p[k]) && !t.bars(
        i,
        p[k],
    ) by {
        if k > 0 {
            assert(g.steps(p, k));
        }
    }
    assert forall|k: int| 0 < k < p.len() implies #[trigger] stride(t, i, p, k) by {
        assert(g.steps(p, k));
    }
}

/// A computed price as a cost that is never the cost of an obstacle.
pub open spec fn passable(x: nat) -> Cost {
    if x < OBSTACLE {
        x as u32
    } else {
        (OBSTACLE - 1) as u32
    }
}

/// A net's pads and via exemptions are on the board, the exemptions are among the
/// pads, and its ends are no foreign obstacles.
pub open spec fn net_fits(grid: &Grid, net: &NetEndpoints) -> bool {
    &&& lists_fit(grid.dims, net)
    &&& grid.dims.has(net.src)
    &&& grid.dims.has(net.dst)
    &&& grid.obstacle(net.src) ==> net.passable_pads@.contains(net.src)
    &&& grid.obstacle(net.dst) ==> net.passable_pads@.contains(net.dst)
}

/// A net's pads and via exemptions are on the board, and the exemptions are among
/// the pads.
pub open spec fn lists_fit(dims: Dims, net: &NetEndpoints) -> bool {
    &&& forall|k: int|
        0 <= k < net.passable_pads@.len() ==> dims.has(#[trigger] net.passable_pads@[k])
    &&& forall|k: int|
        0 <= k < net.via_passable_pads@.len() ==> dims.has(#[trigger] net.via_passable_pads@[k])
            && net.passable_pads@.contains(net.via_passable_pads@[k])
}

/// The list holds no cell twice and is in ascending order.
pub open spec fn ascending(s: Seq<CellIdx>) -> bool {
    forall|i: int, j: int| 0 <= i < j < s.len() ==> s[i] < s[j]
}

/// What is to be routed, with what every search on it needs.
pub struct Problem<'a> {
    /// The grid.
    pub grid: &'a Grid,
    /// The nets.
    pub nets: &'a [NetEndpoints],
    /// Where vias may be drilled.
    pub via: &'a ViaModel,
    /// The spacing of the grid lines.
    pub geo: &'a Geometry,
    /// The via exemptions of each net, in ascending order.
    pub via_pads: Vec<Vec<CellIdx>>,
    /// The window of each net.
    pub windows: Vec<IsolatedRouteWindow>,
    /// The sums of the column gaps.
    pub x_prefix: Vec<u64>,
    /// The sums of the row gaps.
    pub y_prefix: Vec<u64>,
    /// Whether some cell costs nothing.
    pub has_zero: bool,
}

impl<'a> Problem<'a> {
    /// What is to be routed.
    pub open spec fn task(&self) -> Task {
        Task { grid: *self.grid, nets: self.nets@, via: *self.via, geo: self.geo@ }
    }

    /// What every search needs is there.
    pub open spec fn wf(&self) -> bool {
        let t = self.task();
        &&& t.wf()
        &&& self.via_pads@.len() == self.nets@.len()
        &&& forall|i: int| 0 <= i < self.nets@.len() ==> ascending((#[trigger] self.via_pads@[i])@)
        &&& forall|i: int, c: CellIdx|
            0 <= i < self.nets@.len() ==> #[trigger] self.via_pads@[i]@.contains(c)
                == self.nets@[i].via_passable_pads@.contains(c)
        &&& self.windows@.len() == self.nets@.len()
        &&& forall|i: int| 0 <= i < self.nets@.len() ==> #[trigger] self.windows@[i] == t.window(i)
        &&& self.x_prefix@.len() >= t.dims().w
        &&& self.y_prefix@.len() >= t.dims().h
        &&& forall|k: int|
            0 <= k < self.x_prefix@.len() ==> #[trigger] self.x_prefix@[k]
                == crate::geometry::gap_sum(t.geo.x_gaps, k as nat)
        &&& forall|k: int|
            0 <= k < self.y_prefix@.len() ==> #[trigger] self.y_prefix@[k]
                == crate::geometry::gap_sum(t.geo.y_gaps, k as nat)
        &&& self.has_zero == t.has_free_cell()
    }

    /// Gathers what every search needs.
    pub fn new(
        grid: &'a Grid,
        nets: &'a [NetEndpoints],
        via: &'a ViaModel,
        geo: &'a Geometry,
    ) -> (p: Problem<'a>)
        requires
            (Task { grid: *grid, nets: nets@, via: *via, geo: geo@ }).wf(),
        ensures
            p.wf(),
            p.task() == (Task { grid: *grid, nets: nets@, via: *via, geo: geo@ }),
    {
        let ghost t = Task { grid: *grid, nets: nets@, via: *via, geo: geo@ };
        let mut windows: Vec<IsolatedRouteWindow> = Vec::new();
        let mut via_pads: Vec<Vec<CellIdx>> = Vec::new();
        let mut i: usize = 0;
        while i < nets.len()
            invariant
                i <= nets@.len(),
                t == (Task { grid: *grid, nets: nets@, via: *via, geo: geo@ }),
                t.wf(),
                windows@.len() == i,
                forall|j: int| 0 <= j < i ==> #[trigger] windows@[j] == t.window(j),
                via_pads@.len() == i,
                forall|j: int| 0 <= j < i ==> ascending((#[trigger] via_pads@[j])@),
                forall|j: int, c: CellIdx|
                    0 <= j < i ==> #[trigger] via_pads@[j]@.contains(c)
                        == nets@[j].via_passable_pads@.contains(c),
            decreases nets@.len() - i,
        {
            assert(t.net_fits(i as int));
            let net = &nets[i];
            windows.push(net_window(grid.dims, net.src, net.dst, &net.passable_pads));
            via_pads.push(ascending_cells(&net.via_passable_pads));
            i += 1;
        }
        let mut has_zero = false;
        let mut k: usize = 0;
        while k < grid.cost.len()
            invariant
                k <= grid.cost@.len(),
                has_zero == exists|c: int| 0 <= c < k && #[trigger] grid.cost@[c] == 0,
            decreases grid.cost@.len() - k,
        {
            if grid.cost[k] == 0 {
                assert(grid.cost@[k as int] == 0);
                has_zero = true;
            }
            k += 1;
        }
        Problem {
            grid,
            nets,
            via,
            geo,
            via_pads,
            windows,
            x_prefix: axis_cost_prefix(&geo.x_gaps, grid.dims.w),
            y_prefix: axis_cost_prefix(&geo.y_gaps, grid.dims.h),
            has_zero,
        }
    }

    /// Memory for pads, holding those of net `i`.
    pub fn load_pads(&self, i: usize, pads: &mut PadSet)
        requires
            self.wf(),
            i < self.nets@.len(),
            old(pads).wf(),
            old(pads).cells() == self.task().dims().cells(),
        ensures
            final(pads).wf(),
            final(pads).cells() == old(pads).cells(),
            forall|c: CellIdx| #[trigger] final(pads).has(c) == self.task().is_pad(i as int, c),
    {
        assert(self.task().net_fits(i as int));
        pads.load(&self.nets[i].passable_pads);
    }

    /// How heavily entering `c` weighs for net `i`, whose pads are given.
    pub fn weight(&self, i: usize, pads: &PadSet, c: CellIdx) -> (w: Cost)
        requires
            self.wf(),
            i < self.nets@.len(),
            pads.wf(),
            pads.cells() == self.task().dims().cells(),
            self.task().dims().has(c),
            pads.has(c) == self.task().is_pad(i as int, c),
        ensures
            w == self.task().weight(i as int, c),
    {
        if self.grid.is_obstacle(c) && pads.contains(c) {
            1
        } else {
            self.grid.cost_at(c)
        }
    }

    /// What the planar step from `u` to `v` costs before it is weighed.
    pub fn step_gap(&self, u: CellIdx, v: CellIdx) -> (g: Cost)
        requires
            self.wf(),
            self.task().dims().planar_adjacent(u, v),
        ensures
            g == self.task().step_gap(u, v),
    {
        let (ux, uy) = self.grid.dims.xy(u);
        let (vx, vy) = self.grid.dims.xy(v);
        if uy == vy {
            gap_cost(&self.geo.x_gaps, if ux < vx { ux } else { vx })
        } else {
            gap_cost(&self.geo.y_gaps, if uy < vy { uy } else { vy })
        }
    }

    /// Whether net `i` may drill from `u` to `v`.
    pub fn drills(&self, i: usize, u: CellIdx, v: CellIdx) -> (b: bool)
        requires
            self.wf(),
            i < self.nets@.len(),
            self.task().dims().via_adjacent(u, v),
        ensures
            b == self.task().drills(i as int, u, v),
    {
        let list = &self.via_pads[i];
        self.via.is_step_legal(self.grid.dims.layer_of(u), self.grid.dims.layer_of(v)) && (
        !self.grid.is_via_forbidden(u) || has_cell(list, u)) && (
        !self.grid.is_via_forbidden(v) || has_cell(list, v))
    }

    /// A lower bound on what is left to pay from `c` to `dst`.
    pub fn bound(&self, c: CellIdx, dst: CellIdx) -> (h: Cost)
        requires
            self.wf(),
            self.task().dims().has(c),
            self.task().dims().has(dst),
        ensures
            h == self.task().bound(c, dst),
    {
        if self.has_zero {
            return 0;
        }
        let (ax, ay, al) = self.grid.dims.xyz(c);
        let (bx, by, bl) = self.grid.dims.xyz(dst);
        let x: Cost = axis_leg_cost(&self.x_prefix, ax, bx);
        let y: Cost = axis_leg_cost(&self.y_prefix, ay, by);
        assert(self.x_prefix@[ax as int] == crate::geometry::gap_sum(
            self.geo.x_gaps@,
            ax as nat,
        ));
        assert(self.y_prefix@[ay as int] == crate::geometry::gap_sum(
            self.geo.y_gaps@,
            ay as nat,
        ));
        let dl: u32 = if al < bl { bl - al } else { al - bl };
        let layers: Cost = saturating_product(dl, self.via.step_cost);
        let whole: Cost = x.saturating_add(y).saturating_add(layers);
        if whole < OBSTACLE {
            whole
        } else {
            OBSTACLE - 1
        }
    }
}

/// A product that stops at the largest cost.
pub fn saturating_product(a: u32, b: u32) -> (c: u32)
    ensures
        c == crate::search::sat(a * b),
{
    assert(0 <= a * b <= 0xffff_ffff * 0xffff_ffff) by (nonlinear_arith)
        requires
            0 <= a <= 0xffff_ffff,
            0 <= b <= 0xffff_ffff,
    ;
    let p: u64 = (a as u64) * (b as u64);
    if p < u32::MAX as u64 {
        p as u32
    } else {
        u32::MAX
    }
}

/// The cells of a list, each once, in ascending order.
pub fn ascending_cells(v: &Vec<CellIdx>) -> (r: Vec<CellIdx>)
    ensures
        ascending(r@),
        forall|c: CellIdx| #[trigger] r@.contains(c) == v@.contains(c),
{
    let mut heap = MinHeap::new();
    let mut i: usize = 0;
    while i < v.len()
        invariant
            i <= v@.len(),
            heap.wf(),
            forall|k: u64| #[trigger]
                heap@.contains(k) <==> k <= u32::MAX && v@.take(i as int).contains(k as u32),
        decreases v@.len() - i,
    {
        let ghost was = heap@;
        heap.push(v[i] as u64);
        proof {
            assert forall|k: u64| #[trigger]
                heap@.contains(k) <==> k <= u32::MAX && v@.take(i + 1).contains(k as u32) by {
                assert(was.contains(k) <==> k <= u32::MAX && v@.take(i as int).contains(k as u32));
                assert(heap@.count(k) == was.count(k) + if k == v@[i as int] as u64 {
                    1nat
                } else {
                    0nat
                });
                crate::grid::lemma_take_contains(v@, i as int, k as u32);
            }
        }
        i += 1;
    }
    assert(v@.take(v@.len() as int) =~= v@);
    let mut r: Vec<CellIdx> = Vec::new();
    let mut more = true;
    while more
        invariant
            heap.wf(),
            ascending(r@),
            forall|k: u64| #[trigger] heap@.contains(k) ==> k <= u32::MAX && v@.contains(k as u32),
            forall|k: u64| #[trigger] heap@.contains(k) && r@.len() > 0 ==> r@.last() <= k,
            forall|j: int| 0 <= j < r@.len() ==> v@.contains(#[trigger] r@[j]),
            forall|c: CellIdx| #[trigger]
                v@.contains(c) ==> r@.contains(c) || heap@.contains(c as u64),
            !more ==> heap@.len() == 0,
        decreases heap@.len(), more as int,
    {
        let ghost was = heap@;
        match heap.pop() {
            None => {
                more = false;
            },
            Some(k) => {
                assert(was.contains(k));
                let c: CellIdx = k as u32;
                let ghost before = r@;
                if r.len() == 0 || r[r.len() - 1] != c {
                    r.push(c);
                    proof {
                        assert forall|x: int, y: int| 0 <= x < y < r@.len() implies r@[x] < r@[y] by {
                            if y == before.len() {
                                if x < before.len() - 1 {
                                    assert(before[x] < before[before.len() - 1]);
                                }
                            }
                        }
                    }
                }
                proof {
                    assert forall|d: CellIdx| #[trigger] v@.contains(d) implies r@.contains(d)
                        || heap@.contains(d as u64) by {
                        if before.contains(d) {
                            let x = choose|x: int| 0 <= x < before.len() && before[x] == d;
                            assert(r@[x] == d);
                        } else if d == c {
                            assert(r@[r@.len() - 1] == d);
                        }
                    }
                    assert forall|o: u64| #[trigger] heap@.contains(o) implies r@.last() <= o
                        && o <= u32::MAX && v@.contains(o as u32) by {
                        assert(was.contains(o));
                    }
                }
            },
        }
    }
    proof {
        assert forall|c: CellIdx| #[trigger] r@.contains(c) == v@.contains(c) by {
            assert(!heap@.contains(c as u64));
            if r@.contains(c) {
                let j = choose|j: int| 0 <= j < r@.len() && r@[j] == c;
                assert(v@.contains(r@[j]));
            }
        }
    }
    r
}

/// Things that come one after the other.
pub trait Ranked {
    /// Where it comes.
    spec fn rank(&self) -> u64;

    /// Whether it comes before another.
    fn is_before(&self, other: &Self) -> (b: bool)
        ensures
            b == (self.rank() < other.rank()),
    ;
}

impl Ranked for CellIdx {
    open spec fn rank(&self) -> u64 {
        *self as u64
    }

    fn is_before(&self, other: &Self) -> (b: bool) {
        *self < *other
    }
}

/// Each thing comes after those in front of it.
pub open spec fn in_rank_order<T: Ranked>(s: Seq<T>) -> bool {
    forall|i: int, j: int|
        0 <= i < j < s.len() ==> (#[trigger] s[i]).rank() < (#[trigger] s[j]).rank()
}

/// Whether something of the same rank is in a list in the order of ranks. Each look
/// halves what is left of the list.
pub fn sorted_contains<T: Ranked>(sorted: &Vec<T>, needle: &T) -> (b: bool)
    requires
        in_rank_order(sorted@),
    ensures
        b == exists|i: int|
            0 <= i < sorted@.len() && (#[trigger] sorted@[i]).rank() == needle.rank(),
{
    let mut lo: usize = 0;
    let mut hi: usize = sorted.len();
    while lo < hi
        invariant
            lo <= hi <= sorted@.len(),
            in_rank_order(sorted@),
            forall|j: int| 0 <= j < lo ==> (#[trigger] sorted@[j]).rank() < needle.rank(),
            forall|j: int|
                hi <= j < sorted@.len() ==> (#[trigger] sorted@[j]).rank() >= needle.rank(),
        decreases hi - lo,
    {
        let mid: usize = lo + (hi - lo) / 2;
        if sorted[mid].is_before(needle) {
            lo = mid + 1;
        } else {
            hi = mid;
        }
    }
    lo < sorted.len() && !needle.is_before(&sorted[lo])
}

/// Whether `c` is in an ascending list.
pub fn has_cell(sorted: &Vec<CellIdx>, c: CellIdx) -> (b: bool)
    requires
        ascending(sorted@),
    ensures
        b == sorted@.contains(c),
{
    sorted_contains(sorted, &c)
}

/// A step lowers the bound by no more than its gap.
pub proof fn lemma_bound_planar(t: Task, u: CellIdx, v: CellIdx, dst: CellIdx, price: int)
    requires
        t.grid.well_formed(),
        t.dims().planar_adjacent(u, v),
        t.dims().has(dst),
        t.has_free_cell() || price >= t.step_gap(u, v) || price >= OBSTACLE - 1,
        price >= 0,
    ensures
        t.bound(u, dst) <= price + t.bound(v, dst),
{
    let d = t.dims();
    d.lemma_coords(u);
    d.lemma_coords(v);
    d.lemma_coords(dst);
    lemma_bound_goal(t, v, dst);
    if !t.has_free_cell() {
        if d.row(u) == d.row(v) {
            lemma_leg_step(t.geo.x_gaps, d.col(u), d.col(v), d.col(dst));
        } else {
            lemma_leg_step(t.geo.y_gaps, d.row(u), d.row(v), d.row(dst));
        }
    }
}

/// A step over one gap changes the rest of a run by no more than the gap.
proof fn lemma_leg_step(gaps: Seq<Cost>, a: int, b: int, z: int)
    requires
        0 <= a,
        0 <= b,
        0 <= z,
        a == b + 1 || b == a + 1,
    ensures
        crate::geometry::leg(gaps, a, z) <= crate::geometry::gap(
            gaps,
            if a < b {
                a
            } else {
                b
            },
        ) + crate::geometry::leg(gaps, b, z),
        crate::geometry::leg(gaps, a, z) >= 0,
        crate::geometry::leg(gaps, b, z) >= 0,
{
    let lo = if a < b {
        a
    } else {
        b
    };
    assert(crate::geometry::gap_sum(gaps, (lo + 1) as nat) == crate::geometry::gap_sum(
        gaps,
        lo as nat,
    ) + crate::geometry::gap(gaps, lo));
    if a <= z {
        crate::geometry::lemma_gap_sum_grows(gaps, a as nat, z as nat);
    } else {
        crate::geometry::lemma_gap_sum_grows(gaps, z as nat, a as nat);
    }
    if b <= z {
        crate::geometry::lemma_gap_sum_grows(gaps, b as nat, z as nat);
    } else {
        crate::geometry::lemma_gap_sum_grows(gaps, z as nat, b as nat);
    }
}

/// A via lowers the bound by no more than its price.
pub proof fn lemma_bound_via(t: Task, u: CellIdx, v: CellIdx, dst: CellIdx, price: int)
    requires
        t.grid.well_formed(),
        t.dims().via_adjacent(u, v),
        t.dims().has(dst),
        t.has_free_cell() || price >= t.via.step_cost || price >= OBSTACLE - 1,
        price >= 0,
    ensures
        t.bound(u, dst) <= price + t.bound(v, dst),
{
    let d = t.dims();
    d.lemma_coords(u);
    d.lemma_coords(v);
    d.lemma_coords(dst);
    let s = t.via.step_cost as int;
    lemma_bound_goal(t, v, dst);
    let (a, b, z) = (d.layer(u), d.layer(v), d.layer(dst));
    let la = if a - z < 0 {
        -(a - z)
    } else {
        a - z
    };
    let lb = if b - z < 0 {
        -(b - z)
    } else {
        b - z
    };
    assert(la * s <= s + lb * s) by (nonlinear_arith)
        requires
            la <= lb + 1,
            s >= 0,
    ;
    assert(lb * s >= 0) by (nonlinear_arith)
        requires
            lb >= 0,
            s >= 0,
    ;
}

/// The bound is nothing at the goal and never negative.
pub proof fn lemma_bound_goal(t: Task, c: CellIdx, dst: CellIdx)
    requires
        t.grid.well_formed(),
        t.dims().has(c),
        t.dims().has(dst),
    ensures
        t.bound(dst, dst) == 0,
        0 <= t.bound(c, dst) <= u32::MAX,
{
    let d = t.dims();
    d.lemma_coords(c);
    d.lemma_coords(dst);
    let s = t.via.step_cost as int;
    assert(0 * s == 0);
    let dl = d.layer(c) - d.layer(dst);
    let l = if dl < 0 {
        -dl
    } else {
        dl
    };
    assert(l * s >= 0) by (nonlinear_arith)
        requires
            l >= 0,
            s >= 0,
    ;
    lemma_leg_positive(t.geo.x_gaps, d.col(c), d.col(dst));
    lemma_leg_positive(t.geo.y_gaps, d.row(c), d.row(dst));
}

proof fn lemma_leg_positive(gaps: Seq<Cost>, a: int, z: int)
    requires
        0 <= a,
        0 <= z,
    ensures
        crate::geometry::leg(gaps, a, z) >= 0,
{
    if a <= z {
        crate::geometry::lemma_gap_sum_grows(gaps, a as nat, z as nat);
    } else {
        crate::geometry::lemma_gap_sum_grows(gaps, z as nat, a as nat);
    }
}

/// Where no cell is free, a weighed step costs at least the step.
pub proof fn lemma_weighed(t: Task, i: int, v: CellIdx, step: int)
    requires
        t.grid.well_formed(),
        t.dims().has(v),
        !t.has_free_cell(),
        step >= 0,
    ensures
        step * t.weight(i, v) >= step,
{
    assert(t.grid.cost@[v as int] != 0);
    let w = t.weight(i, v) as int;
    assert(step * w >= step) by (nonlinear_arith)
        requires
            w >= 1,
            step >= 0,
    ;
}

} // verus!
