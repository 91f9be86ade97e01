//! Sequential routing with bounded rip-up.
//!
//! Nets are placed from the last to the first, each around what is placed already.
//! A net that finds no way takes the route it would have alone and rips up the
//! later nets on it; those are queued again. An earlier net is never ripped up for
//! a later one, so two nets cannot displace each other for ever. The passes are
//! bounded, and what is not placed by then is reported.
use vstd::prelude::*;

use crate::board::{CellIdx, Cost, Dims, OBSTACLE};
use crate::cells::contains_cell;
use crate::grid::Grid;
use crate::net::{assemble, BoardRoute, BoardView, FaultView, Found, NetEndpoints, RouterError};
use crate::path::Graph;
use crate::router::Router;
use crate::search::{astar_buf, SearchBuf, SearchSpace};

verus! {

/// How many passes are made at most.
pub const MAX_PASSES: u32 = 20;

/// What a net's own pad costs to enter.
pub const FREE_COST: Cost = 1;

/// Places nets one after another and rips up what is in the way.
#[derive(Clone, Copy, Debug)]
pub struct RipUpRouter;

/// What is placed, what was given up, and how many routes were ripped up.
#[verifier::ext_equal]
pub struct RipState {
    /// The route of each net that is placed.
    pub placed: Seq<Option<(Seq<CellIdx>, nat)>>,
    /// The nets that are not tried again.
    pub abandoned: Seq<bool>,
    /// How many routes were ripped up.
    pub rips: usize,
    /// A route was placed or ripped up in this pass.
    pub progressed: bool,
}

/// Another net than `ni` holds `c`, and it is no end of `net`.
pub open spec fn held(
    placed: Seq<Option<(Seq<CellIdx>, nat)>>,
    ni: int,
    net: &NetEndpoints,
    c: CellIdx,
) -> bool {
    &&& c != net.src
    &&& c != net.dst
    &&& exists|j: int| 0 <= j < placed.len() && j != ni && #[trigger] holds(placed[j], c)
}

/// A placed route runs through `c`.
pub open spec fn holds(p: Option<(Seq<CellIdx>, nat)>, c: CellIdx) -> bool {
    p matches Some((path, _)) && path.contains(c)
}

/// `net` cannot enter `c` where the cells in `taken` are taken.
pub open spec fn rip_shut(
    grid: &Grid,
    net: &NetEndpoints,
    taken: spec_fn(CellIdx) -> bool,
    c: CellIdx,
) -> bool {
    grid.off_board(c) || taken(c) || grid.obstacle(c) && !net.passable_pads@.contains(c)
}

/// What the planar step from `u` to `v` costs `net`.
pub open spec fn rip_price(grid: &Grid, net: &NetEndpoints, u: CellIdx, v: CellIdx) -> Cost {
    if grid.cut(u, v) {
        OBSTACLE
    } else if net.passable_pads@.contains(v) {
        FREE_COST
    } else {
        grid.cost@[v as int]
    }
}

/// The steps that `net` can take where the cells in `taken` are taken.
pub open spec fn rip_graph(
    grid: &Grid,
    net: &NetEndpoints,
    taken: spec_fn(CellIdx) -> bool,
) -> Graph {
    Graph {
        cells: grid.dims.cells() as nat,
        edge: |u: CellIdx, v: CellIdx|
            {
                if !rip_shut(grid, net, taken, v) && grid.dims.planar_adjacent(u, v) {
                    Some(rip_price(grid, net, u, v) as nat)
                } else {
                    None
                }
            },
    }
}

/// The route of `net` where the cells in `taken` are taken.
pub open spec fn rip_route(
    grid: &Grid,
    net: &NetEndpoints,
    taken: spec_fn(CellIdx) -> bool,
) -> Option<(Seq<CellIdx>, nat)> {
    if rip_shut(grid, net, taken, net.src) {
        None
    } else {
        rip_graph(grid, net, taken).route(net.src, net.dst, Cost::MAX as nat)
    }
}

/// The route of net `ni` around what is placed.
pub open spec fn work_route(
    grid: &Grid,
    nets: Seq<NetEndpoints>,
    ni: int,
    placed: Seq<Option<(Seq<CellIdx>, nat)>>,
) -> Option<(Seq<CellIdx>, nat)> {
    rip_route(grid, &nets[ni], |c: CellIdx| held(placed, ni, &nets[ni], c))
}

/// The route of a net that has the board to itself.
pub open spec fn free_route(grid: &Grid, net: &NetEndpoints) -> Option<(Seq<CellIdx>, nat)> {
    rip_route(grid, net, |c: CellIdx| false)
}

/// Net `j` is later than `ni`, and its route shares a cell with `free`.
pub open spec fn blocks(
    placed: Seq<Option<(Seq<CellIdx>, nat)>>,
    ni: int,
    free: Seq<CellIdx>,
    j: int,
) -> bool {
    j > ni && exists|c: CellIdx| #[trigger] free.contains(c) && holds(placed[j], c)
}

/// How many of the first `k` nets block `ni`.
pub open spec fn blocker_count(
    placed: Seq<Option<(Seq<CellIdx>, nat)>>,
    ni: int,
    free: Seq<CellIdx>,
    k: nat,
) -> nat
    decreases k,
{
    if k == 0 {
        0
    } else {
        blocker_count(placed, ni, free, (k - 1) as nat) + if blocks(placed, ni, free, k - 1) {
            1nat
        } else {
            0nat
        }
    }
}

/// What stays placed when the nets that block `ni` are ripped up.
pub open spec fn ripped(
    placed: Seq<Option<(Seq<CellIdx>, nat)>>,
    ni: int,
    free: Seq<CellIdx>,
) -> Seq<Option<(Seq<CellIdx>, nat)>> {
    Seq::new(
        placed.len(),
        |j: int|
            if blocks(placed, ni, free, j) {
                None
            } else {
                placed[j]
            },
    )
}

/// A count of rips that stops at the largest number.
pub open spec fn add_rips(rips: usize, n: nat) -> usize {
    if rips + n > usize::MAX {
        usize::MAX
    } else {
        (rips + n) as usize
    }
}

/// Net `ni` placed if it has a route, given up if not.
pub open spec fn settle(st: RipState, ni: int, route: Option<(Seq<CellIdx>, nat)>) -> RipState {
    match route {
        Some(r) => RipState {
            placed: st.placed.update(ni, Some(r)),
            progressed: true,
            ..st
        },
        None => RipState { abandoned: st.abandoned.update(ni, true), ..st },
    }
}

/// One net's turn.
///
/// It is placed around what is placed already. Where that cannot be done, the later
/// nets on the route that it would have alone are ripped up and it is tried once
/// more. It is given up where it has no route even alone, where no later net is in
/// its way, and where ripping up did not help.
pub open spec fn turn(grid: &Grid, nets: Seq<NetEndpoints>, st: RipState, ni: int) -> RipState {
    match work_route(grid, nets, ni, st.placed) {
        Some(r) => settle(st, ni, Some(r)),
        None => match free_route(grid, &nets[ni]) {
            None => settle(st, ni, None),
            Some((free, _)) => {
                let n = blocker_count(st.placed, ni, free, st.placed.len());
                if n == 0 {
                    settle(st, ni, None)
                } else {
                    let left = RipState {
                        placed: ripped(st.placed, ni, free),
                        rips: add_rips(st.rips, n),
                        progressed: true,
                        ..st
                    };
                    settle(left, ni, work_route(grid, nets, ni, left.placed))
                }
            },
        },
    }
}

/// Net `i` is neither placed nor given up.
pub open spec fn pending(st: RipState, i: int) -> bool {
    st.placed[i] is None && !st.abandoned[i]
}

/// The turns of the nets below `k` that were pending at `start`, last one first.
pub open spec fn turns(
    grid: &Grid,
    nets: Seq<NetEndpoints>,
    start: RipState,
    st: RipState,
    k: nat,
) -> RipState
    decreases k,
{
    if k == 0 {
        st
    } else {
        let next = if pending(start, k - 1) {
            turn(grid, nets, st, k - 1)
        } else {
            st
        };
        turns(grid, nets, start, next, (k - 1) as nat)
    }
}

/// Some net is pending.
pub open spec fn any_pending(st: RipState) -> bool {
    exists|i: int| 0 <= i < st.placed.len() && #[trigger] pending(st, i)
}

/// At most `passes` passes; they end when nothing is pending or nothing moves.
pub open spec fn passes_from(
    grid: &Grid,
    nets: Seq<NetEndpoints>,
    st: RipState,
    passes: nat,
) -> RipState
    decreases passes,
{
    if passes == 0 || !any_pending(st) {
        st
    } else {
        let start = RipState { progressed: false, ..st };
        let end = turns(grid, nets, start, start, nets.len());
        if end.progressed {
            passes_from(grid, nets, end, (passes - 1) as nat)
        } else {
            end
        }
    }
}

/// Nothing placed, nothing given up.
pub open spec fn nothing_placed(n: nat) -> RipState {
    RipState {
        placed: Seq::new(n, |i: int| None::<(Seq<CellIdx>, nat)>),
        abandoned: Seq::new(n, |i: int| false),
        rips: 0,
        progressed: false,
    }
}

/// Where all passes lead.
pub open spec fn rip_final(grid: &Grid, nets: Seq<NetEndpoints>) -> RipState {
    passes_from(grid, nets, nothing_placed(nets.len()), MAX_PASSES as nat)
}

/// A net's pads and ends are on the board, and its ends are no foreign obstacles.
pub open spec fn rip_net_ok(grid: &Grid, net: &NetEndpoints) -> bool {
    &&& forall|i: int|
        0 <= i < net.passable_pads@.len() ==> grid.dims.has(#[trigger] net.passable_pads@[i])
    &&& grid.dims.has(net.src)
    &&& grid.dims.has(net.dst)
    &&& grid.obstacle(net.src) ==> net.passable_pads@.contains(net.src)
    &&& grid.obstacle(net.dst) ==> net.passable_pads@.contains(net.dst)
}

/// The first net that is not in order, if there is one.
pub open spec fn rip_first_bad(grid: &Grid, nets: Seq<NetEndpoints>) -> Option<Seq<char>>
    decreases nets.len(),
{
    if nets.len() == 0 {
        None
    } else {
        match rip_first_bad(grid, nets.drop_last()) {
            Some(name) => Some(name),
            None => if rip_net_ok(grid, &nets.last()) {
                None
            } else {
                Some(nets.last().net@)
            },
        }
    }
}

/// What routing with rip-up comes to, and how many routes are ripped up on the way.
pub open spec fn rip_outcome(grid: &Grid, nets: Seq<NetEndpoints>) -> Result<
    (BoardView, usize),
    FaultView,
> {
    if !grid.well_formed() {
        Err(FaultView::MalformedGrid)
    } else {
        match rip_first_bad(grid, nets) {
            Some(name) => Err(FaultView::InvalidEndpoint(name)),
            None => {
                let end = rip_final(grid, nets);
                Ok((crate::net::board_of(grid.dims, nets, end.placed), end.rips))
            },
        }
    }
}

/// The grid as a net sees it around taken cells.
struct RipSpace<'a> {
    grid: &'a Grid,
    net: &'a NetEndpoints,
    taken: &'a Vec<bool>,
}

impl<'a> SearchSpace for RipSpace<'a> {
    closed spec fn extent(&self) -> Dims {
        self.grid.dims
    }

    closed spec fn valid(&self) -> bool {
        self.grid.well_formed() && self.taken@.len() == self.grid.dims.cells()
    }

    closed spec fn planar_price(&self, u: CellIdx, v: CellIdx) -> Cost {
        rip_price(self.grid, self.net, u, v)
    }

    closed spec fn closed(&self, c: CellIdx) -> bool {
        rip_shut(self.grid, self.net, |x: CellIdx| self.taken@[x as int], c)
    }

    closed spec fn estimate(&self, c: CellIdx) -> Cost {
        0
    }

    closed spec fn via_price(&self, u: CellIdx, v: CellIdx) -> Option<Cost> {
        None
    }

    fn cost(&self, u: CellIdx, v: CellIdx) -> (c: Cost) {
        if self.grid.is_board_planar_step_forbidden(u, v) {
            OBSTACLE
        } else if contains_cell(&self.net.passable_pads, v) {
            FREE_COST
        } else {
            self.grid.cost_at(v)
        }
    }

    fn blocked(&self, c: CellIdx) -> (b: bool) {
        self.grid.is_board_forbidden(c) || self.taken[c as usize] || (self.grid.is_obstacle(c)
            && !contains_cell(&self.net.passable_pads, c))
    }

    fn heuristic(&self, c: CellIdx) -> (h: Cost) {
        0
    }

    fn via_step(&self, u: CellIdx, v: CellIdx) -> (c: Option<Cost>) {
        None
    }
}

/// Routes a net around taken cells.
fn route_around(buf: &mut SearchBuf, grid: &Grid, net: &NetEndpoints, taken: &Vec<bool>) -> (r:
    Found)
    requires
        grid.well_formed(),
        grid.dims.has(net.src),
        grid.dims.has(net.dst),
        taken@.len() == grid.dims.cells(),
        old(buf).wf(grid.dims.cells()),
    ensures
        final(buf).wf(grid.dims.cells()),
        forall|t: spec_fn(CellIdx) -> bool|
            (forall|c: CellIdx| grid.dims.has(c) ==> #[trigger] t(c) == taken@[c as int])
                ==> crate::search::path_view(r) == #[trigger] rip_route(grid, net, t),
        r matches Some((p, _)) ==> forall|i: int|
            0 <= i < p@.len() ==> grid.dims.has(#[trigger] p@[i]),
{
    let space = RipSpace { grid, net, taken };
    let r = astar_buf(buf, grid.dims, net.src, net.dst, &space);
    proof {
        let g = crate::search::graph_of(&space);
        assert(crate::search::consistent(&space, net.dst));
        assert forall|t: spec_fn(CellIdx) -> bool|
            (forall|c: CellIdx| grid.dims.has(c) ==> #[trigger] t(c) == taken@[c as int]) implies
            crate::search::path_view(r) == #[trigger] rip_route(grid, net, t) by {
            assert(t(net.src) == taken@[net.src as int]);
            assert forall|u: CellIdx, v: CellIdx| (g.edge)(u, v) == #[trigger] (rip_graph(
                grid,
                net,
                t,
            ).edge)(u, v) by {
                if grid.dims.has(v) {
                    assert(t(v) == taken@[v as int]);
                }
            }
            assert(g.edge =~= rip_graph(grid, net, t).edge);
            assert(g == rip_graph(grid, net, t));
        }
        if r is Some {
            crate::search::lemma_walk_cells(g, (r->0).0@);
        }
    }
    r
}

/// Placed routes as plain values.
spec fn placed_view(placed: Seq<Found>) -> Seq<Option<(Seq<CellIdx>, nat)>> {
    crate::net::found_view(placed)
}

/// Every placed route keeps to the board.
spec fn on_board(dims: Dims, placed: Seq<Found>) -> bool {
    forall|i: int|
        0 <= i < placed.len() ==> (#[trigger] placed[i] matches Some((p, _)) ==> forall|k: int|
            0 <= k < p@.len() ==> dims.has(#[trigger] p@[k]))
}

/// Marks the cells that other nets than `ni` hold, but for the ends of `ni`.
fn taken_cells(dims: Dims, net: &NetEndpoints, ni: usize, placed: &Vec<Found>) -> (t: Vec<bool>)
    requires
        dims.indexable(),
        dims.has(net.src),
        dims.has(net.dst),
        on_board(dims, placed@),
    ensures
        t@.len() == dims.cells(),
        forall|c: CellIdx|
            dims.has(c) ==> #[trigger] t@[c as int] == held(
                placed_view(placed@),
                ni as int,
                net,
                c,
            ),
{
    let n: usize = dims.len();
    let ghost pv = placed_view(placed@);
    let mut t: Vec<bool> = vec![false; n];
    let mut j: usize = 0;
    while j < placed.len()
        invariant
            j <= placed@.len(),
            n == dims.cells(),
            n <= u32::MAX,
            t@.len() == n,
            dims.has(net.src),
            dims.has(net.dst),
            on_board(dims, placed@),
            pv == placed_view(placed@),
            forall|c: CellIdx|
                dims.has(c) ==> #[trigger] t@[c as int] == (c != net.src && c != net.dst && exists|
                    k: int,
                |
                    0 <= k < j && k != ni && #[trigger] holds(pv[k], c)),
        decreases placed@.len() - j,
    {
        let ghost before = t@;
        if j != ni {
            if let Some((path, _cost)) = &placed[j] {
                let mut i: usize = 0;
                assert(placed@[j as int] == Some((*path, *_cost)));
                while i < path.len()
                    invariant
                        i <= path@.len(),
                        n == dims.cells(),
                        n <= u32::MAX,
                        t@.len() == n,
                        before.len() == n,
                        forall|k: int| 0 <= k < path@.len() ==> dims.has(#[trigger] path@[k]),
                        forall|c: CellIdx|
                            dims.has(c) ==> #[trigger] t@[c as int] == (before[c as int] || (c
                                != net.src && c != net.dst && path@.take(i as int).contains(c))),
                    decreases path@.len() - i,
                {
                    let c: CellIdx = path[i];
                    assert(dims.has(path@[i as int]));
                    let ghost inner = t@;
                    if c != net.src && c != net.dst {
                        t.set(c as usize, true);
                    }
                    proof {
                        assert forall|x: CellIdx| dims.has(x) implies #[trigger] t@[x as int] == (
                        before[x as int] || (x != net.src && x != net.dst && path@.take(
                            i + 1,
                        ).contains(x))) by {
                            crate::grid::lemma_take_contains(path@, i as int, x);
                            assert(inner[x as int] == (before[x as int] || (x != net.src && x
                                != net.dst && path@.take(i as int).contains(x))));
                        }
                    }
                    i += 1;
                }
                proof {
                    assert(path@.take(path@.len() as int) =~= path@);
                }
            }
        }
        proof {
            assert forall|c: CellIdx| dims.has(c) implies #[trigger] t@[c as int] == (c != net.src
                && c != net.dst && exists|k: int|
                0 <= k < j + 1 && k != ni && #[trigger] holds(pv[k], c)) by {
                assert(before[c as int] == (c != net.src && c != net.dst && exists|k: int|
                    0 <= k < j && k != ni && #[trigger] holds(pv[k], c)));
                if t@[c as int] && !before[c as int] {
                    assert(holds(pv[j as int], c));
                }
                if j != ni && holds(pv[j as int], c) {
                    assert(placed@[j as int] is Some);
                }
            }
        }
        j += 1;
    }
    t
}

/// Whether a route shares a cell with the marked ones.
fn touches(dims: Dims, path: &Vec<CellIdx>, marks: &Vec<bool>) -> (b: bool)
    requires
        marks@.len() == dims.cells(),
        forall|k: int| 0 <= k < path@.len() ==> dims.has(#[trigger] path@[k]),
    ensures
        b == exists|c: CellIdx| #[trigger] path@.contains(c) && marks@[c as int],
{
    let mut i: usize = 0;
    while i < path.len()
        invariant
            i <= path@.len(),
            marks@.len() == dims.cells(),
            forall|k: int| 0 <= k < path@.len() ==> dims.has(#[trigger] path@[k]),
            forall|k: int| 0 <= k < i ==> !marks@[#[trigger] path@[k] as int],
        decreases path@.len() - i,
    {
        assert(dims.has(path@[i as int]));
        if marks[path[i] as usize] {
            assert(path@.contains(path@[i as int]));
            return true;
        }
        i += 1;
    }
    false
}

/// Rips up the later nets that share a cell with `free`, and counts them.
fn rip_up(dims: Dims, placed: &mut Vec<Found>, ni: usize, free: &Vec<CellIdx>) -> (n: usize)
    requires
        dims.indexable(),
        ni < old(placed)@.len(),
        on_board(dims, old(placed)@),
        forall|k: int| 0 <= k < free@.len() ==> dims.has(#[trigger] free@[k]),
    ensures
        final(placed)@.len() == old(placed)@.len(),
        on_board(dims, final(placed)@),
        n == blocker_count(
            placed_view(old(placed)@),
            ni as int,
            free@,
            old(placed)@.len(),
        ),
        placed_view(final(placed)@) == ripped(placed_view(old(placed)@), ni as int, free@),
{
    let ghost pv = placed_view(placed@);
    let ghost was = placed@;
    let mut marks: Vec<bool> = vec![false; dims.len()];
    let mut i: usize = 0;
    while i < free.len()
        invariant
            i <= free@.len(),
            marks@.len() == dims.cells(),
            forall|k: int| 0 <= k < free@.len() ==> dims.has(#[trigger] free@[k]),
            forall|c: CellIdx|
                dims.has(c) ==> #[trigger] marks@[c as int] == free@.take(i as int).contains(c),
        decreases free@.len() - i,
    {
        assert(dims.has(free@[i as int]));
        let ghost before = marks@;
        marks.set(free[i] as usize, true);
        proof {
            assert forall|c: CellIdx| dims.has(c) implies #[trigger] marks@[c as int]
                == free@.take(i + 1).contains(c) by {
                crate::grid::lemma_take_contains(free@, i as int, c);
                assert(before[c as int] == free@.take(i as int).contains(c));
            }
        }
        i += 1;
    }
    assert(free@.take(free@.len() as int) =~= free@);
    let mut n: usize = 0;
    let mut j: usize = 0;
    while j < placed.len()
        invariant
            j <= placed@.len(),
            placed@.len() == was.len(),
            pv == placed_view(was),
            ni < was.len(),
            n <= j,
            marks@.len() == dims.cells(),
            on_board(dims, was),
            on_board(dims, placed@),
            forall|c: CellIdx| dims.has(c) ==> #[trigger] marks@[c as int] == free@.contains(c),
            n == blocker_count(pv, ni as int, free@, j as nat),
            forall|k: int| j <= k < was.len() ==> #[trigger] placed@[k] == was[k],
            forall|k: int|
                0 <= k < j ==> crate::search::path_view(#[trigger] placed@[k]) == ripped(
                    pv,
                    ni as int,
                    free@,
                )[k],
        decreases placed@.len() - j,
    {
        let hit = j > ni && match &placed[j] {
            Some((path, _cost)) => touches(dims, path, &marks),
            None => false,
        };
        proof {
            assert(placed@[j as int] == was[j as int]);
            if was[j as int] is Some {
                let path = (was[j as int]->0).0@;
                assert(pv[j as int] == Some((path, (was[j as int]->0).1 as nat)));
                if hit {
                    let c = choose|c: CellIdx| #[trigger] path.contains(c) && marks@[c as int];
                    let k = choose|k: int| 0 <= k < path.len() && path[k] == c;
                    assert(dims.has(path[k]));
                    assert(free@.contains(c) && holds(pv[j as int], c));
                }
                if blocks(pv, ni as int, free@, j as int) {
                    let c = choose|c: CellIdx| #[trigger]
                        free@.contains(c) && holds(pv[j as int], c);
                    let k = choose|k: int| 0 <= k < path.len() && path[k] == c;
                    assert(dims.has(path[k]));
                    assert(path.contains(c) && marks@[c as int]);
                }
            } else {
                assert(pv[j as int] is None);
            }
            assert(hit == blocks(pv, ni as int, free@, j as int));
        }
        if hit {
            placed.set(j, None);
            n += 1;
        }
        j += 1;
    }
    assert(placed_view(placed@) =~= ripped(pv, ni as int, free@));
    n
}

/// One net's turn; says whether a route was placed or ripped up.
fn take_turn(
    buf: &mut SearchBuf,
    grid: &Grid,
    nets: &[NetEndpoints],
    placed: &mut Vec<Found>,
    abandoned: &mut Vec<bool>,
    rips: &mut usize,
    ni: usize,
) -> (progressed: bool)
    requires
        grid.well_formed(),
        ni < nets@.len(),
        grid.dims.has(nets@[ni as int].src),
        grid.dims.has(nets@[ni as int].dst),
        old(buf).wf(grid.dims.cells()),
        old(placed)@.len() == nets@.len(),
        old(abandoned)@.len() == nets@.len(),
        on_board(grid.dims, old(placed)@),
    ensures
        final(buf).wf(grid.dims.cells()),
        final(placed)@.len() == nets@.len(),
        final(abandoned)@.len() == nets@.len(),
        on_board(grid.dims, final(placed)@),
        forall|p: bool|
            (RipState {
                placed: placed_view(final(placed)@),
                abandoned: final(abandoned)@,
                rips: *final(rips),
                progressed: p || progressed,
            }) == #[trigger] turn(
                grid,
                nets@,
                RipState {
                    placed: placed_view(old(placed)@),
                    abandoned: old(abandoned)@,
                    rips: *old(rips),
                    progressed: p,
                },
                ni as int,
            ),
{
    let ghost pv = placed_view(placed@);
    let ghost was = placed@;
    let net = &nets[ni];
    let taken = taken_cells(grid.dims, net, ni, placed);
    let found = route_around(buf, grid, net, &taken);
    proof {
        let t = |c: CellIdx| held(pv, ni as int, net, c);
        assert forall|c: CellIdx| grid.dims.has(c) implies #[trigger] t(c) == taken@[c as int] by {
            assert(taken@[c as int] == held(pv, ni as int, net, c));
        }
        assert(crate::search::path_view(found) == rip_route(grid, net, t));
        assert(crate::search::path_view(found) == work_route(grid, nets@, ni as int, pv));
    }
    if found.is_some() {
        let ghost view = crate::search::path_view(found);
        placed.set(ni, found);
        assert(placed_view(placed@) =~= pv.update(ni as int, view));
        return true;
    }
    let none: Vec<bool> = vec![false; grid.dims.len()];
    let alone = route_around(buf, grid, net, &none);
    proof {
        let t = |c: CellIdx| false;
        assert forall|c: CellIdx| grid.dims.has(c) implies #[trigger] t(c) == none@[c as int] by {}
        assert(crate::search::path_view(alone) == rip_route(grid, net, t));
        assert(crate::search::path_view(alone) == free_route(grid, net));
    }
    match alone {
        None => {
            abandoned.set(ni, true);
            false
        },
        Some((free, _cost)) => {
            let n: usize = rip_up(grid.dims, placed, ni, &free);
            if n == 0 {
                proof {
                    lemma_no_blockers(pv, ni as int, free@, pv.len());
                    assert(placed_view(placed@) =~= pv);
                }
                abandoned.set(ni, true);
                return false;
            }
            *rips = rips.saturating_add(n);
            let ghost lv = placed_view(placed@);
            let taken = taken_cells(grid.dims, net, ni, placed);
            let retry = route_around(buf, grid, net, &taken);
            proof {
                let t = |c: CellIdx| held(lv, ni as int, net, c);
                assert forall|c: CellIdx| grid.dims.has(c) implies #[trigger] t(c)
                    == taken@[c as int] by {
                    assert(taken@[c as int] == held(lv, ni as int, net, c));
                }
                assert(crate::search::path_view(retry) == rip_route(grid, net, t));
                assert(crate::search::path_view(retry) == work_route(
                    grid,
                    nets@,
                    ni as int,
                    lv,
                ));
            }
            if retry.is_some() {
                let ghost view = crate::search::path_view(retry);
                placed.set(ni, retry);
                assert(placed_view(placed@) =~= lv.update(ni as int, view));
            } else {
                abandoned.set(ni, true);
            }
            true
        },
    }
}

/// Where nothing blocks a net, nothing is ripped up.
pub proof fn lemma_no_blockers(
    placed: Seq<Option<(Seq<CellIdx>, nat)>>,
    ni: int,
    free: Seq<CellIdx>,
    k: nat,
)
    requires
        blocker_count(placed, ni, free, k) == 0,
        k <= placed.len(),
    ensures
        forall|j: int| 0 <= j < k ==> !(#[trigger] blocks(placed, ni, free, j)),
    decreases k,
{
    if k > 0 {
        lemma_no_blockers(placed, ni, free, (k - 1) as nat);
    }
}

/// Whether a net's pads and ends are on the board, and its ends no foreign
/// obstacles.
fn is_rip_net_ok(grid: &Grid, net: &NetEndpoints) -> (b: bool)
    requires
        grid.well_formed(),
    ensures
        b == rip_net_ok(grid, net),
{
    let mut i: usize = 0;
    while i < net.passable_pads.len()
        invariant
            i <= net.passable_pads@.len(),
            grid.well_formed(),
            forall|j: int| 0 <= j < i ==> grid.dims.has(#[trigger] net.passable_pads@[j]),
        decreases net.passable_pads@.len() - i,
    {
        if !grid.dims.contains(net.passable_pads[i]) {
            assert(!grid.dims.has(net.passable_pads@[i as int]));
            return false;
        }
        i += 1;
    }
    if !grid.dims.contains(net.src) || !grid.dims.contains(net.dst) {
        return false;
    }
    (!grid.is_obstacle(net.src) || contains_cell(&net.passable_pads, net.src)) && (
    !grid.is_obstacle(net.dst) || contains_cell(&net.passable_pads, net.dst))
}

/// The first net that is not in order stays the first one when more nets follow.
proof fn lemma_rip_bad_stays(grid: &Grid, nets: Seq<NetEndpoints>, n: int)
    requires
        0 <= n <= nets.len(),
        rip_first_bad(grid, nets.take(n)) is Some,
    ensures
        rip_first_bad(grid, nets) == rip_first_bad(grid, nets.take(n)),
    decreases nets.len(),
{
    if n == nets.len() {
        assert(nets.take(n) =~= nets);
    } else {
        assert(nets.drop_last().take(n) =~= nets.take(n));
        lemma_rip_bad_stays(grid, nets.drop_last(), n);
    }
}

/// A net that is not in order is one of those given; where there is none, every net
/// is in order.
proof fn lemma_rip_bad(grid: &Grid, nets: Seq<NetEndpoints>)
    ensures
        rip_first_bad(grid, nets) matches Some(name) ==> exists|i: int|
            0 <= i < nets.len() && #[trigger] nets[i].net@ == name,
        rip_first_bad(grid, nets) is None ==> forall|i: int|
            0 <= i < nets.len() ==> rip_net_ok(grid, &#[trigger] nets[i]),
    decreases nets.len(),
{
    if nets.len() > 0 {
        let d = nets.drop_last();
        lemma_rip_bad(grid, d);
        if rip_first_bad(grid, d) is Some {
            let i = choose|i: int|
                0 <= i < d.len() && #[trigger] d[i].net@ == rip_first_bad(grid, d)->0;
            assert(nets[i].net@ == d[i].net@);
        } else if rip_first_bad(grid, nets) is Some {
            assert(nets[nets.len() - 1].net@ == nets.last().net@);
        } else {
            assert forall|i: int| 0 <= i < nets.len() implies rip_net_ok(
                grid,
                &#[trigger] nets[i],
            ) by {
                if i < d.len() {
                    assert(d[i] == nets[i]);
                }
            }
        }
    }
}

/// The state of the exec variables.
spec fn state_of(placed: Seq<Found>, abandoned: Seq<bool>, rips: usize, progressed: bool) -> RipState {
    RipState { placed: placed_view(placed), abandoned, rips, progressed }
}

impl RipUpRouter {
    /// A router that rips up.
    pub fn new() -> (r: RipUpRouter)
        ensures
            r == RipUpRouter,
    {
        RipUpRouter
    }

    /// Routes the nets, and says how many routes were ripped up on the way.
    pub fn route_with_stats(&self, grid: &Grid, nets: &[NetEndpoints]) -> (r: Result<
        (BoardRoute, usize),
        RouterError,
    >)
        ensures
            (match r {
                Ok((b, n)) => Ok((b@, n)),
                Err(e) => Err(e@),
            }) == rip_outcome(grid, nets@),
    {
        if !grid.is_well_formed() {
            return Err(RouterError::MalformedGrid);
        }
        let n: usize = nets.len();
        let mut i: usize = 0;
        while i < n
            invariant
                i <= n,
                n == nets@.len(),
                grid.well_formed(),
                rip_first_bad(grid, nets@.take(i as int)) is None,
            decreases n - i,
        {
            proof {
                assert(nets@.take(i + 1).drop_last() =~= nets@.take(i as int));
                assert(nets@.take(i + 1).last() == nets@[i as int]);
            }
            if !is_rip_net_ok(grid, &nets[i]) {
                proof {
                    lemma_rip_bad_stays(grid, nets@, i + 1);
                }
                return Err(RouterError::InvalidEndpoint { net: nets[i].net.clone() });
            }
            i += 1;
        }
        proof {
            assert(nets@.take(n as int) =~= nets@);
            lemma_rip_bad(grid, nets@);
        }
        let mut buf = SearchBuf::new(grid.dims.len());
        let mut placed: Vec<Found> = Vec::new();
        let mut abandoned: Vec<bool> = Vec::new();
        let mut rips: usize = 0;
        let mut j: usize = 0;
        while j < n
            invariant
                j <= n,
                placed@.len() == j,
                abandoned@.len() == j,
                forall|k: int| 0 <= k < j ==> #[trigger] placed@[k] is None,
                forall|k: int| 0 <= k < j ==> #[trigger] abandoned@[k] == false,
            decreases n - j,
        {
            placed.push(None);
            abandoned.push(false);
            j += 1;
        }
        let mut progressed = false;
        let mut passes: u32 = MAX_PASSES;
        proof {
            assert(state_of(placed@, abandoned@, rips, false) =~= nothing_placed(n as nat));
        }
        loop
            invariant_except_break
                passes_from(
                    grid,
                    nets@,
                    state_of(placed@, abandoned@, rips, progressed),
                    passes as nat,
                ) == rip_final(grid, nets@),
            invariant
                n == nets@.len(),
                grid.well_formed(),
                buf.wf(grid.dims.cells()),
                placed@.len() == n,
                abandoned@.len() == n,
                on_board(grid.dims, placed@),
                forall|i: int| 0 <= i < nets@.len() ==> rip_net_ok(grid, &#[trigger] nets@[i]),
            ensures
                state_of(placed@, abandoned@, rips, progressed) == rip_final(grid, nets@),
            decreases passes,
        {
            let ghost entry = state_of(placed@, abandoned@, rips, progressed);
            let mut queue: Vec<bool> = Vec::new();
            let mut any = false;
            let mut k: usize = 0;
            while k < n
                invariant
                    k <= n,
                    placed@.len() == n,
                    abandoned@.len() == n,
                    entry == state_of(placed@, abandoned@, rips, progressed),
                    queue@.len() == k,
                    forall|i: int| 0 <= i < k ==> #[trigger] queue@[i] == pending(entry, i),
                    any == exists|i: int| 0 <= i < k && #[trigger] pending(entry, i),
                decreases n - k,
            {
                let wait = placed[k].is_none() && !abandoned[k];
                assert(wait == pending(entry, k as int));
                queue.push(wait);
                any = any || wait;
                k += 1;
            }
            if passes == 0 || !any {
                break;
            }
            passes -= 1;
            progressed = false;
            let ghost start = state_of(placed@, abandoned@, rips, false);
            let mut ni: usize = n;
            while ni > 0
                invariant
                    ni <= n,
                    n == nets@.len(),
                    grid.well_formed(),
                    buf.wf(grid.dims.cells()),
                    placed@.len() == n,
                    abandoned@.len() == n,
                    queue@.len() == n,
                    on_board(grid.dims, placed@),
                    forall|i: int| 0 <= i < nets@.len() ==> rip_net_ok(grid, &#[trigger] nets@[i]),
                    forall|i: int| 0 <= i < n ==> #[trigger] queue@[i] == pending(start, i),
                    turns(
                        grid,
                        nets@,
                        start,
                        state_of(placed@, abandoned@, rips, progressed),
                        ni as nat,
                    ) == turns(grid, nets@, start, start, n as nat),
                decreases ni,
            {
                ni -= 1;
                if queue[ni] {
                    let ghost before = state_of(placed@, abandoned@, rips, progressed);
                    let moved = take_turn(
                        &mut buf,
                        grid,
                        nets,
                        &mut placed,
                        &mut abandoned,
                        &mut rips,
                        ni,
                    );
                    proof {
                        assert(state_of(placed@, abandoned@, rips, progressed || moved) == turn(
                            grid,
                            nets@,
                            before,
                            ni as int,
                        ));
                    }
                    progressed = progressed || moved;
                }
            }
            if !progressed {
                break;
            }
        }
        let board = assemble(grid.dims, nets, &placed);
        Ok((board, rips))
    }
}

impl Default for RipUpRouter {
    fn default() -> (r: RipUpRouter)
        ensures
            r == RipUpRouter,
    {
        RipUpRouter
    }
}

/// `c` is an end of the net.
pub open spec fn is_end(net: &NetEndpoints, c: CellIdx) -> bool {
    c == net.src || c == net.dst
}

/// What every turn keeps: each placed route is one that its net could take alone,
/// and routes meet only at the ends of one of their nets.
pub open spec fn rip_inv(grid: &Grid, nets: Seq<NetEndpoints>, st: RipState) -> bool {
    &&& st.placed.len() == nets.len()
    &&& st.abandoned.len() == nets.len()
    &&& forall|i: int|
        0 <= i < nets.len() ==> (#[trigger] st.placed[i] matches Some((p, c)) ==> {
            let g = rip_graph(grid, &nets[i], |c: CellIdx| false);
            g.connects(nets[i].src, nets[i].dst, p) && g.cost(p) == c && c < Cost::MAX
        })
    &&& forall|i: int, j: int, c: CellIdx|
        0 <= i < nets.len() && 0 <= j < nets.len() && i != j && #[trigger] holds(st.placed[i], c)
            && #[trigger] holds(st.placed[j], c) ==> is_end(&nets[i], c) || is_end(&nets[j], c)
}

/// A walk around taken cells is a walk that the net could take alone, and keeps off
/// the taken cells but for its source.
proof fn lemma_around(
    grid: &Grid,
    net: &NetEndpoints,
    taken: spec_fn(CellIdx) -> bool,
    p: Seq<CellIdx>,
)
    requires
        rip_graph(grid, net, taken).is_walk(p),
    ensures
        rip_graph(grid, net, |c: CellIdx| false).is_walk(p),
        rip_graph(grid, net, |c: CellIdx| false).cost(p) == rip_graph(grid, net, taken).cost(p),
        forall|i: int| 0 < i < p.len() ==> !taken(#[trigger] p[i]),
    decreases p.len(),
{
    let g = rip_graph(grid, net, taken);
    let f = rip_graph(grid, net, |c: CellIdx| false);
    let n = p.len() as int;
    if n > 1 {
        g.lemma_take(p, n - 1);
        assert(p.take(n - 1) =~= p.drop_last());
        lemma_around(grid, net, taken, p.drop_last());
        assert(g.steps(p, n - 1));
        assert(f.steps(p, n - 1));
        assert forall|i: int| 0 < i < n implies #[trigger] f.steps(p, i) by {
            if i < n - 1 {
                assert(f.steps(p.drop_last(), i));
            }
        }
        assert forall|i: int| 0 < i < n implies !taken(#[trigger] p[i]) by {
            if i < n - 1 {
                assert(!taken(p.drop_last()[i]));
            }
        }
    }
}

/// A walk that the net could take alone stays one around cells that it avoids.
proof fn lemma_still_open(
    grid: &Grid,
    net: &NetEndpoints,
    taken: spec_fn(CellIdx) -> bool,
    p: Seq<CellIdx>,
)
    requires
        rip_graph(grid, net, |c: CellIdx| false).is_walk(p),
        forall|i: int| 0 < i < p.len() ==> !taken(#[trigger] p[i]),
    ensures
        rip_graph(grid, net, taken).is_walk(p),
        rip_graph(grid, net, taken).cost(p) == rip_graph(grid, net, |c: CellIdx| false).cost(p),
    decreases p.len(),
{
    let g = rip_graph(grid, net, taken);
    let f = rip_graph(grid, net, |c: CellIdx| false);
    let n = p.len() as int;
    if n > 1 {
        f.lemma_take(p, n - 1);
        assert(p.take(n - 1) =~= p.drop_last());
        assert forall|i: int| 0 < i < n - 1 implies !taken(#[trigger] p.drop_last()[i]) by {
            assert(!taken(p[i]));
        }
        lemma_still_open(grid, net, taken, p.drop_last());
        assert(f.steps(p, n - 1));
        assert(!taken(p[n - 1]));
        assert forall|i: int| 0 < i < n implies #[trigger] g.steps(p, i) by {
            if i < n - 1 {
                assert(g.steps(p.drop_last(), i));
            }
        }
    }
}

/// Placing a net around what is placed keeps what every turn keeps.
proof fn lemma_settle(grid: &Grid, nets: Seq<NetEndpoints>, st: RipState, ni: int)
    requires
        rip_inv(grid, nets, st),
        0 <= ni < nets.len(),
    ensures
        rip_inv(grid, nets, settle(st, ni, work_route(grid, nets, ni, st.placed))),
        rip_inv(grid, nets, settle(st, ni, None)),
{
    let net = &nets[ni];
    let taken = |c: CellIdx| held(st.placed, ni, net, c);
    let g = rip_graph(grid, net, taken);
    g.lemma_routable(net.src, net.dst, Cost::MAX as nat);
    if work_route(grid, nets, ni, st.placed) is Some {
        let (p, c) = work_route(grid, nets, ni, st.placed)->0;
        let after = settle(st, ni, Some((p, c)));
        lemma_around(grid, net, taken, p);
        assert forall|i: int, j: int, x: CellIdx|
            0 <= i < nets.len() && 0 <= j < nets.len() && i != j && #[trigger] holds(
                after.placed[i],
                x,
            ) && #[trigger] holds(after.placed[j], x) implies is_end(&nets[i], x) || is_end(
            &nets[j],
            x,
        ) by {
            if i == ni || j == ni {
                let o = if i == ni {
                    j
                } else {
                    i
                };
                assert(holds(st.placed[o], x));
                let k = choose|k: int| 0 <= k < p.len() && p[k] == x;
                if k > 0 {
                    assert(!taken(p[k]));
                }
            } else {
                assert(holds(st.placed[i], x) && holds(st.placed[j], x));
            }
        }
    }
}

/// A turn keeps what every turn keeps.
proof fn lemma_turn(grid: &Grid, nets: Seq<NetEndpoints>, st: RipState, ni: int)
    requires
        rip_inv(grid, nets, st),
        0 <= ni < nets.len(),
    ensures
        rip_inv(grid, nets, turn(grid, nets, st, ni)),
{
    lemma_settle(grid, nets, st, ni);
    if work_route(grid, nets, ni, st.placed) is None && free_route(grid, &nets[ni]) is Some {
        let free = (free_route(grid, &nets[ni])->0).0;
        let n = blocker_count(st.placed, ni, free, st.placed.len());
        let left = RipState {
            placed: ripped(st.placed, ni, free),
            rips: add_rips(st.rips, n),
            progressed: true,
            ..st
        };
        assert forall|i: int, j: int, x: CellIdx|
            0 <= i < nets.len() && 0 <= j < nets.len() && i != j && #[trigger] holds(
                left.placed[i],
                x,
            ) && #[trigger] holds(left.placed[j], x) implies is_end(&nets[i], x) || is_end(
            &nets[j],
            x,
        ) by {
            assert(holds(st.placed[i], x) && holds(st.placed[j], x));
        }
        assert forall|i: int| 0 <= i < nets.len() implies (#[trigger] left.placed[i] matches Some(
            (p, c),
        ) ==> {
            let g = rip_graph(grid, &nets[i], |c: CellIdx| false);
            g.connects(nets[i].src, nets[i].dst, p) && g.cost(p) == c && c < Cost::MAX
        }) by {
            assert(left.placed[i] is Some ==> left.placed[i] == st.placed[i]);
        }
        lemma_settle(grid, nets, left, ni);
    }
}

proof fn lemma_turns(
    grid: &Grid,
    nets: Seq<NetEndpoints>,
    start: RipState,
    st: RipState,
    k: nat,
)
    requires
        rip_inv(grid, nets, st),
        k <= nets.len(),
    ensures
        rip_inv(grid, nets, turns(grid, nets, start, st, k)),
    decreases k,
{
    if k > 0 {
        lemma_turn(grid, nets, st, k - 1);
        let next = if pending(start, k - 1) {
            turn(grid, nets, st, k - 1)
        } else {
            st
        };
        lemma_turns(grid, nets, start, next, (k - 1) as nat);
    }
}

proof fn lemma_passes(grid: &Grid, nets: Seq<NetEndpoints>, st: RipState, passes: nat)
    requires
        rip_inv(grid, nets, st),
    ensures
        rip_inv(grid, nets, passes_from(grid, nets, st, passes)),
    decreases passes,
{
    if passes > 0 && any_pending(st) {
        let start = RipState { progressed: false, ..st };
        lemma_turns(grid, nets, start, start, nets.len());
        let end = turns(grid, nets, start, start, nets.len());
        if end.progressed {
            lemma_passes(grid, nets, end, (passes - 1) as nat);
        }
    }
}

/// Routes meet only at the ends of one of their nets, and each is a route that its
/// net could take alone.
pub proof fn law_routes_keep_apart(grid: &Grid, nets: Seq<NetEndpoints>)
    ensures
        rip_inv(grid, nets, rip_final(grid, nets)),
{
    lemma_passes(grid, nets, nothing_placed(nets.len()), MAX_PASSES as nat);
}

/// A net's turn never moves an earlier net.
pub proof fn law_earlier_nets_stay(
    grid: &Grid,
    nets: Seq<NetEndpoints>,
    st: RipState,
    ni: int,
    j: int,
)
    requires
        st.placed.len() == nets.len(),
        0 <= j < ni < nets.len(),
    ensures
        turn(grid, nets, st, ni).placed[j] == st.placed[j],
{
}

/// After its turn, the first net is placed exactly where it has a route alone.
proof fn lemma_first_turn(grid: &Grid, nets: Seq<NetEndpoints>, st: RipState)
    requires
        rip_inv(grid, nets, st),
        nets.len() > 0,
        st.placed[0] is None,
    ensures
        turn(grid, nets, st, 0).placed[0] is Some <==> free_route(grid, &nets[0]) is Some,
{
    let net = &nets[0];
    let f = rip_graph(grid, net, |c: CellIdx| false);
    f.lemma_routable(net.src, net.dst, Cost::MAX as nat);
    let taken = |c: CellIdx| held(st.placed, 0, net, c);
    let g = rip_graph(grid, net, taken);
    g.lemma_routable(net.src, net.dst, Cost::MAX as nat);
    if work_route(grid, nets, 0, st.placed) is Some {
        let p = (work_route(grid, nets, 0, st.placed)->0).0;
        lemma_around(grid, net, taken, p);
        assert(f.connects(net.src, net.dst, p));
    } else if free_route(grid, net) is Some {
        let free = (free_route(grid, net)->0).0;
        let n = blocker_count(st.placed, 0, free, st.placed.len());
        if n == 0 {
            lemma_no_blockers(st.placed, 0, free, st.placed.len());
            lemma_unheld(st.placed, net, free);
            lemma_still_open(grid, net, taken, free);
            assert(g.connects(net.src, net.dst, free));
            assert(false);
        } else {
            let left = ripped(st.placed, 0, free);
            let now = |c: CellIdx| held(left, 0, net, c);
            let h = rip_graph(grid, net, now);
            h.lemma_routable(net.src, net.dst, Cost::MAX as nat);
            assert forall|j: int| 0 <= j < left.len() implies !(#[trigger] blocks(
                left,
                0,
                free,
                j,
            )) by {
                if blocks(left, 0, free, j) {
                    let c = choose|c: CellIdx| #[trigger]
                        free.contains(c) && holds(left[j], c);
                    assert(holds(st.placed[j], c));
                    assert(blocks(st.placed, 0, free, j));
                }
            }
            assert(left[0] is None);
            lemma_unheld(left, net, free);
            lemma_still_open(grid, net, now, free);
            assert(h.connects(net.src, net.dst, free));
        }
    }
}

/// What nothing blocks, nothing holds.
proof fn lemma_unheld(
    placed: Seq<Option<(Seq<CellIdx>, nat)>>,
    net: &NetEndpoints,
    free: Seq<CellIdx>,
)
    requires
        forall|j: int| 0 <= j < placed.len() ==> !(#[trigger] blocks(placed, 0, free, j)),
    ensures
        forall|i: int| 0 < i < free.len() ==> !held(placed, 0, net, #[trigger] free[i]),
{
    assert forall|i: int| 0 < i < free.len() implies !held(placed, 0, net, #[trigger] free[i]) by {
        if held(placed, 0, net, free[i]) {
            let j = choose|j: int|
                0 <= j < placed.len() && j != 0 && #[trigger] holds(placed[j], free[i]);
            assert(free.contains(free[i]) && holds(placed[j], free[i]));
            assert(blocks(placed, 0, free, j));
        }
    }
}

/// Turns before the first net's leave it alone; its own turn places it where it has
/// a route alone.
proof fn lemma_first_in_turns(
    grid: &Grid,
    nets: Seq<NetEndpoints>,
    start: RipState,
    st: RipState,
    k: nat,
)
    requires
        rip_inv(grid, nets, st),
        0 < k <= nets.len(),
    ensures
        pending(start, 0) && st.placed[0] is None ==> (turns(grid, nets, start, st, k).placed[0]
            is Some <==> free_route(grid, &nets[0]) is Some),
        !pending(start, 0) ==> turns(grid, nets, start, st, k).placed[0] == st.placed[0],
        pending(start, 0) && st.placed[0] is None && free_route(grid, &nets[0]) is None ==> turns(
            grid,
            nets,
            start,
            st,
            k,
        ).abandoned[0],
        !pending(start, 0) && st.abandoned[0] ==> turns(grid, nets, start, st, k).abandoned[0],
    decreases k,
{
    lemma_turn(grid, nets, st, k - 1);
    let next = if pending(start, k - 1) {
        turn(grid, nets, st, k - 1)
    } else {
        st
    };
    if k == 1 {
        if pending(start, 0) && st.placed[0] is None {
            lemma_first_turn(grid, nets, st);
            if free_route(grid, &nets[0]) is None && work_route(grid, nets, 0, st.placed) is Some {
                assert(turn(grid, nets, st, 0).placed[0] is Some);
            }
        }
        assert(turns(grid, nets, start, next, 0) == next);
    } else {
        law_earlier_nets_stay(grid, nets, st, k - 1, 0);
        lemma_first_in_turns(grid, nets, start, next, (k - 1) as nat);
    }
}

proof fn lemma_first_stays(grid: &Grid, nets: Seq<NetEndpoints>, st: RipState, passes: nat)
    requires
        rip_inv(grid, nets, st),
        nets.len() > 0,
        !pending(st, 0),
    ensures
        passes_from(grid, nets, st, passes).placed[0] == st.placed[0],
    decreases passes,
{
    if passes > 0 && any_pending(st) {
        let start = RipState { progressed: false, ..st };
        lemma_turns(grid, nets, start, start, nets.len());
        lemma_first_in_turns(grid, nets, start, start, nets.len());
        let end = turns(grid, nets, start, start, nets.len());
        if end.progressed {
            lemma_first_stays(grid, nets, end, (passes - 1) as nat);
        }
    }
}

/// The first net always wins: it is routed exactly where it has a route with the
/// board to itself.
pub proof fn law_first_net_wins(grid: &Grid, nets: Seq<NetEndpoints>)
    requires
        nets.len() > 0,
    ensures
        rip_final(grid, nets).placed[0] is Some <==> free_route(grid, &nets[0]) is Some,
{
    let st = nothing_placed(nets.len());
    assert(pending(st, 0));
    let start = RipState { progressed: false, ..st };
    assert(rip_inv(grid, nets, start));
    lemma_turns(grid, nets, start, start, nets.len());
    lemma_first_in_turns(grid, nets, start, start, nets.len());
    let end = turns(grid, nets, start, start, nets.len());
    assert(!pending(end, 0));
    if end.progressed {
        lemma_first_stays(grid, nets, end, (MAX_PASSES - 1) as nat);
    }
}

impl Router for RipUpRouter {
    /// Routes the nets, ripping up what is in the way of earlier ones.
    fn route(&self, grid: &Grid, nets: &[NetEndpoints]) -> (r: Result<BoardRoute, RouterError>)
        ensures
            crate::net::outcome_view(r) == (match rip_outcome(grid, nets@) {
                Ok((b, _)) => Ok(b),
                Err(e) => Err(e),
            }),
    {
        let stats = self.route_with_stats(grid, nets);
        proof {
            lemma_rip_bad(grid, nets@);
            law_routes_keep_apart(grid, nets@);
            let outs = rip_final(grid, nets@).placed;
            assert forall|i: int| 0 <= i < outs.len() implies (#[trigger] outs[i] matches Some(
                (p, _),
            ) ==> crate::router::leads(grid, &nets@[i], p)) by {
                if outs[i] is Some {
                    let p = (outs[i]->0).0;
                    let g = rip_graph(grid, &nets@[i], |c: CellIdx| false);
                    assert forall|k: int| 0 < k < p.len() implies #[trigger] crate::router::follows(
                        grid,
                        p,
                        k,
                    ) by {
                        assert(g.steps(p, k));
                    }
                }
            }
            assert(crate::router::routes_fit(grid, nets@, outs));
        }
        match stats {
            Ok((board, _rips)) => Ok(board),
            Err(e) => Err(e),
        }
    }
}

} // verus!
