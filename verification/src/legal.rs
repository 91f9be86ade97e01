//! Searches that keep off copper and space that others have claimed.
use vstd::prelude::*;

use crate::board::{CellIdx, Cost, Dims};
use crate::geometry::{IsolatedRouteWindow, Reach};
use crate::halo::{Claim, Claims};
use crate::net::Found;
use crate::pads::PadSet;
use crate::path::Graph;
use crate::pricing::passable_search_cost;
use crate::search::{astar_buf, SearchBuf, SearchSpace};
use crate::task::{Problem, Task};

verus! {

/// Copper of group `g` cannot be at `c`: other copper is there, or the cell is kept
/// free by others and holds no copper of the group.
pub open spec fn contested(claims: Claims, g: usize, c: CellIdx) -> bool {
    let own = claims.owner[c as int];
    own.foreign(g) || claims.halo[c as int].foreign(g) && own != Claim::Group(g)
}

/// Net `i` of group `g` cannot enter `c` in the window.
///
/// Foreign copper is never entered. The net's own ends stay open even where others
/// want them free; every other cell must be uncontested and no obstacle.
pub open spec fn legal_shut(
    t: Task,
    i: int,
    g: usize,
    window: IsolatedRouteWindow,
    claims: Claims,
    c: CellIdx,
) -> bool {
    ||| !window.has(t.dims(), c)
    ||| claims.owner[c as int].foreign(g)
    ||| !t.is_end(i, c) && (contested(claims, g, c) || t.bars(i, c))
}

/// A via of group `g` at `s` would come too close to what others have claimed.
pub open spec fn ring_conflict(t: Task, g: usize, claims: Claims, s: CellIdx) -> bool {
    exists|c: CellIdx| #[trigger]
        t.geo.keepout.covers(t.dims(), s, c) && contested(claims, g, c)
}

/// The steps of net `i` among claims, with their prices.
pub open spec fn legal_graph(
    t: Task,
    i: int,
    g: usize,
    window: IsolatedRouteWindow,
    claims: Claims,
) -> Graph {
    Graph {
        cells: t.dims().cells() as nat,
        edge: |u: CellIdx, v: CellIdx|
            {
                if legal_shut(t, i, g, window, claims, v) {
                    None
                } else if t.dims().via_adjacent(u, v) && (ring_conflict(t, g, claims, u)
                    || ring_conflict(t, g, claims, v)) {
                    None
                } else {
                    match t.base_price(i, u, v) {
                        Some(base) => Some(crate::task::passable(base) as nat),
                        None => None,
                    }
                }
            },
    }
}

/// The path of net `i` of group `g` among claims, in a window.
pub open spec fn legal_route(
    t: Task,
    i: int,
    g: usize,
    window: IsolatedRouteWindow,
    claims: Claims,
) -> Option<Seq<CellIdx>> {
    if legal_shut(t, i, g, window, claims, t.nets[i].src) {
        None
    } else {
        match legal_graph(t, i, g, window, claims).route(
            t.nets[i].src,
            t.nets[i].dst,
            Cost::MAX as nat,
        ) {
            Some((p, _)) => Some(p),
            None => None,
        }
    }
}

/// The path of net `i` of group `g` among claims: in its window, or else, where
/// `wide`, anywhere.
pub open spec fn legal_find(t: Task, i: int, g: usize, claims: Claims, wide: bool) -> Option<
    Seq<CellIdx>,
> {
    match legal_route(t, i, g, t.window(i), claims) {
        Some(p) => Some(p),
        None => if wide {
            legal_route(t, i, g, IsolatedRouteWindow::whole(t.dims()), claims)
        } else {
            None
        },
    }
}

/// The path that net `i` takes if it is alone on the board.
pub open spec fn alone(t: Task, i: int) -> Option<Seq<CellIdx>> {
    legal_find(t, i, 0, crate::halo::unclaimed(t.dims().cells() as nat), true)
}

/// A net among claims.
struct LegalSpace<'a> {
    p: &'a Problem<'a>,
    i: usize,
    pads: &'a PadSet,
    window: IsolatedRouteWindow,
    group: usize,
    owner: &'a Vec<Claim>,
    halo: &'a Vec<Claim>,
}

impl<'a> LegalSpace<'a> {
    closed spec fn claims(&self) -> Claims {
        crate::halo::claims_view(self.owner@, self.halo@)
    }

    closed spec fn step(&self, u: CellIdx, v: CellIdx) -> nat {
        self.p.task().base_price(self.i as int, u, v)->0
    }

    /// Whether copper of the group cannot be at `c`.
    fn is_contested(&self, c: CellIdx) -> (b: bool)
        requires
            self.valid(),
            self.extent().has(c),
        ensures
            b == contested(self.claims(), self.group, c),
    {
        let own = self.owner[c as usize];
        if own.is_foreign(self.group) {
            return true;
        }
        self.halo[c as usize].is_foreign(self.group) && own != Claim::Group(self.group)
    }

    /// Whether a via at `s` would come too close to what others have claimed.
    fn has_ring_conflict(&self, s: CellIdx) -> (b: bool)
        requires
            self.valid(),
            self.extent().has(s),
        ensures
            b == ring_conflict(self.p.task(), self.group, self.claims(), s),
    {
        let ghost t = self.p.task();
        let dims = self.p.grid.dims;
        let reach: &Reach = &self.p.geo.keepout;
        let (sx, sy, sl) = dims.xyz(s);
        if (sx as usize) >= reach.x.len() || (sy as usize) >= reach.y.len() {
            return false;
        }
        let xs = &reach.x[sx as usize];
        let ys = &reach.y[sy as usize];
        let mut b: usize = 0;
        while b < ys.len()
            invariant
                self.valid(),
                t == self.p.task(),
                dims == t.dims(),
                reach@ == t.geo.keepout,
                dims.has(s),
                sx == dims.col(s),
                sy == dims.row(s),
                sl == dims.layer(s),
                sl < dims.layers,
                (sx as int) < reach.x@.len(),
                (sy as int) < reach.y@.len(),
                xs@ == reach.x@[sx as int]@,
                ys@ == reach.y@[sy as int]@,
                b <= ys@.len(),
                forall|c: CellIdx|
                    #![trigger reach@.covers(dims, s, c)]
                    reach@.covers(dims, s, c) && contested(self.claims(), self.group, c)
                        ==> !ys@.take(b as int).contains(dims.row(c) as u32),
            decreases ys@.len() - b,
        {
            let y: u32 = ys[b];
            if y < dims.h {
                let mut a: usize = 0;
                while a < xs.len()
                    invariant
                        self.valid(),
                        t == self.p.task(),
                        dims == t.dims(),
                        reach@ == t.geo.keepout,
                        dims.has(s),
                        sx == dims.col(s),
                        sy == dims.row(s),
                        sl == dims.layer(s),
                        sl < dims.layers,
                        y < dims.h,
                        (sx as int) < reach.x@.len(),
                        (sy as int) < reach.y@.len(),
                        xs@ == reach.x@[sx as int]@,
                        ys@ == reach.y@[sy as int]@,
                        ys@.contains(y),
                        a <= xs@.len(),
                        forall|c: CellIdx|
                            #![trigger reach@.covers(dims, s, c)]
                            reach@.covers(dims, s, c) && contested(self.claims(), self.group, c)
                                && dims.row(c) == y ==> !xs@.take(a as int).contains(
                                dims.col(c) as u32,
                            ),
                    decreases xs@.len() - a,
                {
                    let x: u32 = xs[a];
                    if x < dims.w {
                        let c: CellIdx = dims.idx3(x, y, sl);
                        proof {
                            assert(xs@.contains(x));
                            dims.lemma_cell_at(x as int, y as int, sl as int);
                        }
                        if self.is_contested(c) {
                            assert(reach@.covers(dims, s, c));
                            return true;
                        }
                    }
                    proof {
                        assert forall|c: CellIdx|
                            #![trigger reach@.covers(dims, s, c)]
                            reach@.covers(dims, s, c) && contested(self.claims(), self.group, c)
                                && dims.row(c) == y implies !xs@.take(a + 1).contains(
                            dims.col(c) as u32,
                        ) by {
                            dims.lemma_coords(c);
                            crate::grid::lemma_take_contains(xs@, a as int, dims.col(c) as u32);
                            if dims.col(c) as u32 == x {
                                dims.lemma_cell_at(x as int, y as int, sl as int);
                                dims.lemma_same_place(c, dims.cell_at(x as int, y as int, sl as int) as u32);
                            }
                        }
                    }
                    a += 1;
                }
                assert(xs@.take(xs@.len() as int) =~= xs@);
            }
            proof {
                assert forall|c: CellIdx|
                    #![trigger reach@.covers(dims, s, c)]
                    reach@.covers(dims, s, c) && contested(
                        self.claims(),
                        self.group,
                        c,
                    ) implies !ys@.take(b + 1).contains(dims.row(c) as u32) by {
                    dims.lemma_coords(c);
                    crate::grid::lemma_take_contains(ys@, b as int, dims.row(c) as u32);
                }
            }
            b += 1;
        }
        proof {
            assert(ys@.take(ys@.len() as int) =~= ys@);
            assert forall|c: CellIdx| #[trigger]
                t.geo.keepout.covers(t.dims(), s, c) implies !contested(
                self.claims(),
                self.group,
                c,
            ) by {
                assert(reach@.covers(dims, s, c));
                dims.lemma_coords(c);
            }
        }
        false
    }
}

impl<'a> SearchSpace for LegalSpace<'a> {
    closed spec fn extent(&self) -> Dims {
        self.p.task().dims()
    }

    closed spec fn valid(&self) -> bool {
        let t = self.p.task();
        &&& self.p.wf()
        &&& self.i < self.p.nets@.len()
        &&& self.pads.wf()
        &&& self.pads.cells() == t.dims().cells()
        &&& forall|c: CellIdx| #[trigger] self.pads.has(c) == t.is_pad(self.i as int, c)
        &&& self.owner@.len() == t.dims().cells()
        &&& self.halo@.len() == t.dims().cells()
    }

    closed spec fn planar_price(&self, u: CellIdx, v: CellIdx) -> Cost {
        crate::task::passable(self.step(u, v))
    }

    closed spec fn closed(&self, c: CellIdx) -> bool {
        legal_shut(self.p.task(), self.i as int, self.group, self.window, self.claims(), c)
    }

    closed spec fn estimate(&self, c: CellIdx) -> Cost {
        self.p.task().bound(c, self.p.nets@[self.i as int].dst) as u32
    }

    closed spec fn via_price(&self, u: CellIdx, v: CellIdx) -> Option<Cost> {
        let t = self.p.task();
        if t.drills(self.i as int, u, v) && !ring_conflict(t, self.group, self.claims(), u)
            && !ring_conflict(t, self.group, self.claims(), v) {
            Some(crate::task::passable(self.step(u, v)))
        } else {
            None
        }
    }

    fn cost(&self, u: CellIdx, v: CellIdx) -> (c: Cost) {
        let gap: Cost = self.p.step_gap(u, v);
        assert(self.pads.has(v) == self.p.task().is_pad(self.i as int, v));
        let weight: Cost = self.p.weight(self.i, self.pads, v);
        proof {
            crate::pricing::lemma_product(gap, weight);
        }
        passable_search_cost((gap as u64) * (weight as u64))
    }

    fn blocked(&self, c: CellIdx) -> (b: bool) {
        assert(self.pads.has(c) == self.p.task().is_pad(self.i as int, c));
        if !self.window.contains(self.p.grid.dims, c) {
            return true;
        }
        if self.owner[c as usize].is_foreign(self.group) {
            return true;
        }
        let net = &self.p.nets[self.i];
        if c == net.src || c == net.dst {
            return false;
        }
        if self.is_contested(c) {
            return true;
        }
        self.p.grid.is_obstacle(c) && !self.pads.contains(c)
    }

    fn heuristic(&self, c: CellIdx) -> (h: Cost) {
        assert(self.p.task().net_fits(self.i as int));
        let h: Cost = self.p.bound(c, self.p.nets[self.i].dst);
        h
    }

    fn via_step(&self, u: CellIdx, v: CellIdx) -> (c: Option<Cost>) {
        if !self.p.drills(self.i, u, v) {
            return None;
        }
        if self.has_ring_conflict(u) || self.has_ring_conflict(v) {
            return None;
        }
        assert(self.pads.has(v) == self.p.task().is_pad(self.i as int, v));
        let weight: Cost = self.p.weight(self.i, self.pads, v);
        proof {
            crate::pricing::lemma_product(self.p.via.step_cost, weight);
            crate::pricing::lemma_not_both(self.p.task(), u, v);
        }
        Some(passable_search_cost((self.p.via.step_cost as u64) * (weight as u64)))
    }
}

/// The graph of the search is that of the legal steps.
proof fn lemma_legal_graph(s: &LegalSpace)
    requires
        s.valid(),
    ensures
        crate::search::graph_of(s) == legal_graph(
            s.p.task(),
            s.i as int,
            s.group,
            s.window,
            s.claims(),
        ),
{
    let a = crate::search::graph_of(s);
    let b = legal_graph(s.p.task(), s.i as int, s.group, s.window, s.claims());
    assert forall|u: CellIdx, v: CellIdx| #[trigger] (a.edge)(u, v) == (b.edge)(u, v) by {
        crate::pricing::lemma_not_both(s.p.task(), u, v);
    }
    assert(a.edge =~= b.edge);
}

/// The estimates are consistent: no step costs less than its length.
proof fn lemma_legal_consistent(s: &LegalSpace)
    requires
        s.valid(),
    ensures
        crate::search::consistent(s, s.p.nets@[s.i as int].dst),
{
    let t = s.p.task();
    let i = s.i as int;
    let dst = t.nets[i].dst;
    let g = crate::search::graph_of(s);
    assert(t.net_fits(i));
    assert forall|u: CellIdx, v: CellIdx| #[trigger] g.joins(u, v) implies s.estimate(u) <= g.price(
        u,
        v,
    ) + s.estimate(v) by {
        crate::task::lemma_bound_goal(t, u, dst);
        crate::task::lemma_bound_goal(t, v, dst);
        if t.dims().planar_adjacent(u, v) {
            let gap = t.step_gap(u, v);
            if !t.has_free_cell() {
                crate::task::lemma_weighed(t, i, v, gap as int);
            } else {
                crate::pricing::lemma_product(gap, t.weight(i, v));
            }
            crate::task::lemma_bound_planar(t, u, v, dst, g.price(u, v) as int);
        } else {
            if !t.has_free_cell() {
                crate::task::lemma_weighed(t, i, v, t.via.step_cost as int);
            } else {
                crate::pricing::lemma_product(t.via.step_cost, t.weight(i, v));
            }
            crate::task::lemma_bound_via(t, u, v, dst, g.price(u, v) as int);
        }
    }
    crate::task::lemma_bound_goal(t, dst, dst);
    let est = |c: CellIdx| s.estimate(c);
    assert(est(dst) == 0);
}

/// Searches net `i` of group `group` among claims, in a window.
pub fn route_legal(
    buf: &mut SearchBuf,
    p: &Problem,
    i: usize,
    pads: &PadSet,
    group: usize,
    owner: &Vec<Claim>,
    halo: &Vec<Claim>,
    window: IsolatedRouteWindow,
) -> (r: Option<Vec<CellIdx>>)
    requires
        p.wf(),
        i < p.nets@.len(),
        old(buf).wf(p.task().dims().cells()),
        pads.wf(),
        pads.cells() == p.task().dims().cells(),
        forall|c: CellIdx| #[trigger] pads.has(c) == p.task().is_pad(i as int, c),
        owner@.len() == p.task().dims().cells(),
        halo@.len() == p.task().dims().cells(),
    ensures
        final(buf).wf(p.task().dims().cells()),
        crate::negotiate::opt_view(r) == legal_route(
            p.task(),
            i as int,
            group,
            window,
            crate::halo::claims_view(owner@, halo@),
        ),
{
    let space = LegalSpace { p, i, pads, window, group, owner, halo };
    assert(p.task().net_fits(i as int));
    proof {
        lemma_legal_graph(&space);
        lemma_legal_consistent(&space);
    }
    let r: Found = astar_buf(buf, p.grid.dims, p.nets[i].src, p.nets[i].dst, &space);
    match r {
        Some((path, _cost)) => Some(path),
        None => None,
    }
}

/// Searches net `i` of group `group` among claims: in its window, or else, where
/// `wide`, anywhere.
pub fn find_legal(
    buf: &mut SearchBuf,
    pads: &mut PadSet,
    p: &Problem,
    i: usize,
    group: usize,
    owner: &Vec<Claim>,
    halo: &Vec<Claim>,
    wide: bool,
) -> (r: Option<Vec<CellIdx>>)
    requires
        p.wf(),
        i < p.nets@.len(),
        old(buf).wf(p.task().dims().cells()),
        old(pads).wf(),
        old(pads).cells() == p.task().dims().cells(),
        owner@.len() == p.task().dims().cells(),
        halo@.len() == p.task().dims().cells(),
    ensures
        final(buf).wf(p.task().dims().cells()),
        final(pads).wf(),
        final(pads).cells() == p.task().dims().cells(),
        crate::negotiate::opt_view(r) == legal_find(
            p.task(),
            i as int,
            group,
            crate::halo::claims_view(owner@, halo@),
            wide,
        ),
{
    p.load_pads(i, pads);
    match route_legal(buf, p, i, pads, group, owner, halo, p.windows[i]) {
        Some(path) => Some(path),
        None => {
            if wide {
                let full = IsolatedRouteWindow::full(p.grid.dims);
                route_legal(buf, p, i, pads, group, owner, halo, full)
            } else {
                None
            }
        },
    }
}

/// What is known of a path that was found among claims: it leads its net, it holds no
/// foreign copper, and past its ends it holds no contested cell.
pub open spec fn fits_among(t: Task, i: int, g: usize, claims: Claims, p: Seq<CellIdx>) -> bool {
    &&& crate::task::own_walk(t, i, p)
    &&& forall|k: int|
        0 <= k < p.len() ==> {
            &&& !claims.owner[(#[trigger] p[k]) as int].foreign(g)
            &&& t.is_end(i, p[k]) || !contested(claims, g, p[k])
        }
}

/// A path that is found among claims fits among them.
pub proof fn lemma_legal_fits(
    t: Task,
    i: int,
    g: usize,
    window: IsolatedRouteWindow,
    claims: Claims,
)
    requires
        t.wf(),
        0 <= i < t.nets.len(),
    ensures
        legal_route(t, i, g, window, claims) matches Some(p) ==> fits_among(t, i, g, claims, p),
{
    let graph = legal_graph(t, i, g, window, claims);
    let (src, dst) = (t.nets[i].src, t.nets[i].dst);
    graph.lemma_routable(src, dst, u32::MAX as nat);
    if legal_route(t, i, g, window, claims) is Some {
        let p = (graph.route(src, dst, u32::MAX as nat)->0).0;
        crate::task::lemma_own_walk(t, i, graph, p);
        assert forall|k: int| 0 <= k < p.len() implies {
            &&& !claims.owner[(#[trigger] p[k]) as int].foreign(g)
            &&& t.is_end(i, p[k]) || !contested(claims, g, p[k])
        } by {
            if k > 0 {
                assert(graph.steps(p, k));
            }
        }
    }
}

/// A path that is found among claims, in the window or anywhere, fits among them.
pub proof fn lemma_find_fits(t: Task, i: int, g: usize, claims: Claims, wide: bool)
    requires
        t.wf(),
        0 <= i < t.nets.len(),
    ensures
        legal_find(t, i, g, claims, wide) matches Some(p) ==> fits_among(t, i, g, claims, p),
{
    lemma_legal_fits(t, i, g, t.window(i), claims);
    lemma_legal_fits(t, i, g, IsolatedRouteWindow::whole(t.dims()), claims);
}

} // verus!
