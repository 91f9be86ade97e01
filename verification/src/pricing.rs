//! Searches that pay for congestion.
//!
//! A net pays for a step what the step costs by its length, the history of the cell
//! that it enters, and a penalty for the other nets there. The penalty grows with
//! every round of negotiation.
use vstd::prelude::*;

use crate::board::{CellIdx, Cost, Dims, OBSTACLE};
use crate::geometry::{IsolatedRouteWindow, SCALE};
use crate::net::Found;
use crate::pads::{CountedCellSet, PadSet};
use crate::path::Graph;
use crate::search::{astar_buf, SearchBuf, SearchSpace};
use crate::task::{Problem, Task};

verus! {

/// How many rounds of negotiation there are at most.
pub const MAX_ITERS: u32 = 60;

/// `a - b`, or zero.
pub open spec fn minus(a: int, b: int) -> int {
    if a < b {
        0
    } else {
        a - b
    }
}

/// What crowding costs, where `present` nets run through a cell and `halo` keep it
/// free.
pub open spec fn crowding(pfac: u32, present: int, halo: int) -> int {
    pfac * SCALE * present + pfac * SCALE * halo
}

/// How the penalty of a cell is found.
pub enum Pricing<'a> {
    /// From counts that leave the net itself out.
    Plain {
        /// How many nets run through each cell.
        present: &'a Vec<u32>,
        /// How often each cell is kept free.
        halo: &'a Vec<u32>,
    },
    /// From counts that hold the net itself.
    Own {
        /// How many nets run through each cell.
        present: &'a Vec<u32>,
        /// How often each cell is kept free.
        halo: &'a Vec<u32>,
        /// The cells of the net's own path.
        own_path: &'a PadSet,
        /// How often the net itself keeps each cell free.
        own_halo: &'a CountedCellSet,
    },
    /// From penalties that hold the net itself.
    Fused {
        /// The penalty of each cell.
        shared: &'a Vec<u64>,
        /// How often the net itself runs through each cell or keeps it free.
        own: &'a CountedCellSet,
    },
}

impl<'a> Pricing<'a> {
    /// The counts are for `n` cells.
    pub open spec fn wf(&self, n: int) -> bool {
        match *self {
            Pricing::Plain { present, halo } => present@.len() == n && halo@.len() == n,
            Pricing::Own { present, halo, own_path, own_halo } => {
                &&& present@.len() == n
                &&& halo@.len() == n
                &&& own_path.wf()
                &&& own_path.cells() == n
                &&& own_halo.wf()
                &&& own_halo.cells() == n
            },
            Pricing::Fused { shared, own } => {
                &&& shared@.len() == n
                &&& own.wf()
                &&& own.cells() == n
            },
        }
    }

    /// What other nets at `c` cost.
    pub open spec fn penalty(&self, pfac: u32, c: CellIdx) -> int {
        match *self {
            Pricing::Plain { present, halo } => crowding(
                pfac,
                present@[c as int] as int,
                halo@[c as int] as int,
            ),
            Pricing::Own { present, halo, own_path, own_halo } => crowding(
                pfac,
                minus(
                    present@[c as int] as int,
                    if own_path.has(c) {
                        1
                    } else {
                        0
                    },
                ),
                minus(halo@[c as int] as int, own_halo.counted(c) as int),
            ),
            Pricing::Fused { shared, own } => minus(
                shared@[c as int] as int,
                pfac * SCALE * own.counted(c),
            ),
        }
    }

    /// What a step costs that costs `base` by its length, into a cell with history
    /// `hist`.
    fn price(&self, pfac: u32, c: CellIdx, base: u64, hist: u32) -> (p: Cost)
        requires
            pfac <= MAX_ITERS,
            exists|n: int| #[trigger] self.wf(n) && c < n,
        ensures
            p == crate::task::passable((base + hist + self.penalty(pfac, c)) as nat),
            self.penalty(pfac, c) >= 0,
    {
        let ghost n = choose|n: int| #[trigger] self.wf(n) && c < n;
        let i: usize = c as usize;
        let unit: u64 = (pfac as u64) * (SCALE as u64);
        match self {
            Pricing::Plain { present, halo } => {
                proof {
                    lemma_unit(pfac, present@[c as int] as int);
                    lemma_unit(pfac, halo@[c as int] as int);
                }
                let a: u64 = unit * (present[i] as u64);
                let b: u64 = unit * (halo[i] as u64);
                passable_search_cost(
                    base.saturating_add(hist as u64).saturating_add(a).saturating_add(b),
                )
            },
            Pricing::Own { present, halo, own_path, own_halo } => {
                let mine: u32 = if own_path.contains(c) { 1 } else { 0 };
                let there: u32 = present[i].saturating_sub(mine);
                let around: u32 = halo[i].saturating_sub(own_halo.count(c));
                proof {
                    lemma_unit(pfac, there as int);
                    lemma_unit(pfac, around as int);
                }
                let a: u64 = unit * (there as u64);
                let b: u64 = unit * (around as u64);
                passable_search_cost(
                    base.saturating_add(hist as u64).saturating_add(a).saturating_add(b),
                )
            },
            Pricing::Fused { shared, own } => {
                let mine: u32 = own.count(c);
                proof {
                    lemma_unit(pfac, mine as int);
                }
                let a: u64 = shared[i].saturating_sub(unit * (mine as u64));
                passable_search_cost(base.saturating_add(hist as u64).saturating_add(a))
            },
        }
    }
}

/// A penalty fits into 64 bits.
pub proof fn lemma_unit(pfac: u32, x: int)
    requires
        pfac <= MAX_ITERS,
        0 <= x <= u32::MAX,
    ensures
        0 <= pfac * SCALE * x <= 960 * 0xffff_ffff,
{
    assert(0 <= pfac * SCALE * x <= 960 * 0xffff_ffff) by (nonlinear_arith)
        requires
            0 <= pfac <= 60,
            SCALE == 16,
            0 <= x <= 0xffff_ffff,
    ;
}

/// A computed price as a cost that is never the cost of an obstacle.
pub fn passable_search_cost(cost: u64) -> (c: Cost)
    ensures
        c == crate::task::passable(cost as nat),
{
    if cost < OBSTACLE as u64 {
        cost as u32
    } else {
        OBSTACLE - 1
    }
}

/// Net `i` cannot enter `c` in the window.
pub open spec fn neg_shut(t: Task, i: int, window: IsolatedRouteWindow, c: CellIdx) -> bool {
    !window.has(t.dims(), c) || !t.is_end(i, c) && t.bars(i, c)
}

/// The steps of net `i` in a window, with their prices.
pub open spec fn neg_graph(
    t: Task,
    i: int,
    window: IsolatedRouteWindow,
    history: Seq<u32>,
    penalty: spec_fn(CellIdx) -> int,
) -> Graph {
    Graph {
        cells: t.dims().cells() as nat,
        edge: |u: CellIdx, v: CellIdx|
            {
                if neg_shut(t, i, window, v) {
                    None
                } else {
                    match t.base_price(i, u, v) {
                        Some(base) => Some(
                            crate::task::passable(
                                (base + history[v as int] + penalty(v)) as nat,
                            ) as nat,
                        ),
                        None => None,
                    }
                }
            },
    }
}

/// The path of net `i` in a window.
pub open spec fn neg_route(
    t: Task,
    i: int,
    window: IsolatedRouteWindow,
    history: Seq<u32>,
    penalty: spec_fn(CellIdx) -> int,
) -> Option<(Seq<CellIdx>, nat)> {
    if neg_shut(t, i, window, t.nets[i].src) {
        None
    } else {
        neg_graph(t, i, window, history, penalty).route(
            t.nets[i].src,
            t.nets[i].dst,
            Cost::MAX as nat,
        )
    }
}

/// Penalties that agree on the board give the same route.
pub proof fn lemma_same_penalty(
    t: Task,
    i: int,
    window: IsolatedRouteWindow,
    history: Seq<u32>,
    p: spec_fn(CellIdx) -> int,
    q: spec_fn(CellIdx) -> int,
)
    requires
        forall|c: CellIdx| t.dims().has(c) ==> #[trigger] p(c) == q(c),
    ensures
        neg_route(t, i, window, history, p) == neg_route(t, i, window, history, q),
{
    let a = neg_graph(t, i, window, history, p);
    let b = neg_graph(t, i, window, history, q);
    assert forall|u: CellIdx, v: CellIdx| #[trigger] (a.edge)(u, v) == (b.edge)(u, v) by {
        if t.base_price(i, u, v) is Some {
            assert(t.dims().has(v));
            assert(p(v) == q(v));
        }
    }
    assert(a.edge =~= b.edge);
}

/// A net on a congested board.
struct NegSpace<'a> {
    p: &'a Problem<'a>,
    i: usize,
    pads: &'a PadSet,
    window: IsolatedRouteWindow,
    history: &'a Vec<u32>,
    pfac: u32,
    pricing: &'a Pricing<'a>,
}

impl<'a> NegSpace<'a> {
    closed spec fn pen(&self) -> spec_fn(CellIdx) -> int {
        |c: CellIdx| self.pricing.penalty(self.pfac, c)
    }

    closed spec fn step(&self, u: CellIdx, v: CellIdx) -> nat {
        (self.p.task().base_price(self.i as int, u, v)->0 + self.history@[v as int]
            + self.pricing.penalty(self.pfac, v)) as nat
    }
}

impl<'a> SearchSpace for NegSpace<'a> {
    closed spec fn extent(&self) -> Dims {
        self.p.task().dims()
    }

    closed spec fn valid(&self) -> bool {
        let t = self.p.task();
        &&& self.p.wf()
        &&& self.i < self.p.nets@.len()
        &&& self.pads.wf()
        &&& self.pads.cells() == t.dims().cells()
        &&& forall|c: CellIdx| #[trigger] self.pads.has(c) == t.is_pad(self.i as int, c)
        &&& self.history@.len() == t.dims().cells()
        &&& self.pfac <= MAX_ITERS
        &&& self.pricing.wf(t.dims().cells())
    }

    closed spec fn planar_price(&self, u: CellIdx, v: CellIdx) -> Cost {
        crate::task::passable(self.step(u, v))
    }

    closed spec fn closed(&self, c: CellIdx) -> bool {
        neg_shut(self.p.task(), self.i as int, self.window, c)
    }

    closed spec fn estimate(&self, c: CellIdx) -> Cost {
        self.p.task().bound(c, self.p.nets@[self.i as int].dst) as u32
    }

    closed spec fn via_price(&self, u: CellIdx, v: CellIdx) -> Option<Cost> {
        if self.p.task().drills(self.i as int, u, v) {
            Some(crate::task::passable(self.step(u, v)))
        } else {
            None
        }
    }

    fn cost(&self, u: CellIdx, v: CellIdx) -> (c: Cost) {
        let gap: Cost = self.p.step_gap(u, v);
        assert(self.pads.has(v) == self.p.task().is_pad(self.i as int, v));
        let weight: Cost = self.p.weight(self.i, self.pads, v);
        proof {
            lemma_product(gap, weight);
        }
        let base: u64 = (gap as u64) * (weight as u64);
        assert(self.pricing.wf(self.extent().cells()));
        self.pricing.price(self.pfac, v, base, self.history[v as usize])
    }

    fn blocked(&self, c: CellIdx) -> (b: bool) {
        assert(self.pads.has(c) == self.p.task().is_pad(self.i as int, c));
        if !self.window.contains(self.p.grid.dims, c) {
            return true;
        }
        let net = &self.p.nets[self.i];
        if c == net.src || c == net.dst {
            return false;
        }
        self.p.grid.is_obstacle(c) && !self.pads.contains(c)
    }

    fn heuristic(&self, c: CellIdx) -> (h: Cost) {
        assert(self.p.task().net_fits(self.i as int));
        let h: Cost = self.p.bound(c, self.p.nets[self.i].dst);
        h
    }

    fn via_step(&self, u: CellIdx, v: CellIdx) -> (c: Option<Cost>) {
        if !self.p.drills(self.i, u, v) {
            return None;
        }
        assert(self.pads.has(v) == self.p.task().is_pad(self.i as int, v));
        let weight: Cost = self.p.weight(self.i, self.pads, v);
        proof {
            lemma_product(self.p.via.step_cost, weight);
        }
        let base: u64 = (self.p.via.step_cost as u64) * (weight as u64);
        assert(self.pricing.wf(self.extent().cells()));
        proof {
            lemma_not_both(self.p.task(), u, v);
        }
        Some(self.pricing.price(self.pfac, v, base, self.history[v as usize]))
    }
}

/// A cell is not a planar and a via neighbour at once.
pub proof fn lemma_not_both(t: Task, u: CellIdx, v: CellIdx)
    ensures
        !(t.dims().planar_adjacent(u, v) && t.dims().via_adjacent(u, v)),
{
}

pub proof fn lemma_product(a: u32, b: u32)
    ensures
        0 <= a * b <= 0xffff_ffff * 0xffff_ffff,
{
    assert(0 <= a * b <= 0xffff_ffff * 0xffff_ffff) by (nonlinear_arith)
        requires
            0 <= a <= 0xffff_ffff,
            0 <= b <= 0xffff_ffff,
    ;
}

/// The graph of the search is that of the priced steps.
proof fn lemma_neg_graph(s: &NegSpace)
    requires
        s.valid(),
    ensures
        crate::search::graph_of(s) == neg_graph(
            s.p.task(),
            s.i as int,
            s.window,
            s.history@,
            s.pen(),
        ),
{
    let a = crate::search::graph_of(s);
    let b = neg_graph(s.p.task(), s.i as int, s.window, s.history@, s.pen());
    assert forall|u: CellIdx, v: CellIdx| #[trigger] (a.edge)(u, v) == (b.edge)(u, v) by {
        lemma_not_both(s.p.task(), u, v);
    }
    assert(a.edge =~= b.edge);
}

/// No penalty is negative.
proof fn lemma_penalty(s: &NegSpace, c: CellIdx)
    requires
        s.valid(),
        s.extent().has(c),
    ensures
        s.pricing.penalty(s.pfac, c) >= 0,
{
    match *s.pricing {
        Pricing::Plain { present, halo } => {
            lemma_unit(s.pfac, present@[c as int] as int);
            lemma_unit(s.pfac, halo@[c as int] as int);
        },
        Pricing::Own { present, halo, own_path, own_halo } => {
            lemma_unit(
                s.pfac,
                minus(
                    present@[c as int] as int,
                    if own_path.has(c) {
                        1
                    } else {
                        0
                    },
                ),
            );
            lemma_unit(s.pfac, minus(halo@[c as int] as int, own_halo.counted(c) as int));
        },
        Pricing::Fused { shared, own } => {},
    }
}

/// The estimates are consistent: no step costs less than its length.
proof fn lemma_neg_consistent(s: &NegSpace)
    requires
        s.valid(),
    ensures
        crate::search::consistent(s, s.p.nets@[s.i as int].dst),
{
    let t = s.p.task();
    let i = s.i as int;
    let dst = t.nets[i].dst;
    let g = crate::search::graph_of(s);
    assert(t.net_fits(i));
    assert forall|u: CellIdx, v: CellIdx| #[trigger] g.joins(u, v) implies s.estimate(u) <= g.price(
        u,
        v,
    ) + s.estimate(v) by {
        crate::task::lemma_bound_goal(t, u, dst);
        crate::task::lemma_bound_goal(t, v, dst);
        lemma_penalty(s, v);
        if t.dims().planar_adjacent(u, v) {
            let gap = t.step_gap(u, v);
            if !t.has_free_cell() {
                crate::task::lemma_weighed(t, i, v, gap as int);
            } else {
                lemma_product(gap, t.weight(i, v));
            }
            crate::task::lemma_bound_planar(t, u, v, dst, g.price(u, v) as int);
        } else {
            if !t.has_free_cell() {
                crate::task::lemma_weighed(t, i, v, t.via.step_cost as int);
            } else {
                lemma_product(t.via.step_cost, t.weight(i, v));
            }
            crate::task::lemma_bound_via(t, u, v, dst, g.price(u, v) as int);
        }
    }
    crate::task::lemma_bound_goal(t, dst, dst);
    let est = |c: CellIdx| s.estimate(c);
    assert(est(dst) == 0);
}

/// Searches net `i` in a window, at the given prices.
pub fn route_negotiated(
    buf: &mut SearchBuf,
    p: &Problem,
    i: usize,
    pads: &PadSet,
    window: IsolatedRouteWindow,
    history: &Vec<u32>,
    pfac: u32,
    pricing: &Pricing,
) -> (r: Found)
    requires
        p.wf(),
        i < p.nets@.len(),
        old(buf).wf(p.task().dims().cells()),
        pads.wf(),
        pads.cells() == p.task().dims().cells(),
        forall|c: CellIdx| #[trigger] pads.has(c) == p.task().is_pad(i as int, c),
        history@.len() == p.task().dims().cells(),
        pfac <= MAX_ITERS,
        pricing.wf(p.task().dims().cells()),
    ensures
        final(buf).wf(p.task().dims().cells()),
        crate::search::path_view(r) == neg_route(
            p.task(),
            i as int,
            window,
            history@,
            |c: CellIdx| pricing.penalty(pfac, c),
        ),
        r matches Some((path, _)) ==> crate::halo::on_board(p.task().dims(), path@),
{
    let space = NegSpace { p, i, pads, window, history, pfac, pricing };
    assert(p.task().net_fits(i as int));
    proof {
        lemma_neg_graph(&space);
        lemma_neg_consistent(&space);
    }
    let r = astar_buf(buf, p.grid.dims, p.nets[i].src, p.nets[i].dst, &space);
    proof {
        if r is Some {
            crate::search::lemma_walk_cells(crate::search::graph_of(&space), (r->0).0@);
        }
    }
    r
}

/// Penalties from counts that hold the net itself are the same, fused or not, as
/// long as the counts do hold it.
pub proof fn law_fused_is_exact(
    pfac: u32,
    present: int,
    halo: int,
    own_present: int,
    own_halo: int,
)
    requires
        0 <= own_present <= present,
        0 <= own_halo <= halo,
    ensures
        minus(crowding(pfac, present, halo), pfac * SCALE * (own_present + own_halo)) == crowding(
            pfac,
            minus(present, own_present),
            minus(halo, own_halo),
        ),
{
    let k = pfac * SCALE;
    assert(k * present + k * halo - k * (own_present + own_halo) == k * (present - own_present) + k
        * (halo - own_halo)) by (nonlinear_arith);
    assert(k * (present - own_present) >= 0 && k * (halo - own_halo) >= 0) by (nonlinear_arith)
        requires
            k >= 0,
            present >= own_present,
            halo >= own_halo,
    ;
}

} // verus!
