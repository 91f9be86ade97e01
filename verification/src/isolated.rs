//! Routing nets one by one, each as if it were alone on the board.
use vstd::prelude::*;

use crate::board::{CellIdx, Cost, Dims, OBSTACLE};
use crate::cells::contains_cell;
use crate::grid::Grid;
use crate::net::{assemble, BoardRoute, BoardView, FaultView, Found, NetEndpoints, RouterError};
use crate::path::Graph;
use crate::search::{astar_buf, SearchBuf, SearchSpace};

verus! {

/// `c` cannot be entered by a net that has the given pads.
pub open spec fn shut(grid: &Grid, pads: Seq<CellIdx>, c: CellIdx) -> bool {
    grid.off_board(c) || grid.obstacle(c) && !pads.contains(c)
}

/// The price of the planar step from `u` to `v` for a net that has the given pads.
pub open spec fn own_price(grid: &Grid, u: CellIdx, v: CellIdx) -> Cost {
    if grid.cut(u, v) {
        OBSTACLE
    } else if grid.obstacle(v) {
        1
    } else {
        grid.cost@[v as int]
    }
}

/// The steps that a net can take that has the given pads.
pub open spec fn own_graph(grid: &Grid, pads: Seq<CellIdx>) -> Graph {
    Graph {
        cells: grid.dims.cells() as nat,
        edge: |u: CellIdx, v: CellIdx|
            {
                if !shut(grid, pads, v) && grid.dims.planar_adjacent(u, v) {
                    Some(own_price(grid, u, v) as nat)
                } else {
                    None
                }
            },
    }
}

/// The route of a net that is alone on the board.
pub open spec fn lone_route(
    grid: &Grid,
    pads: Seq<CellIdx>,
    src: CellIdx,
    dst: CellIdx,
) -> Option<(Seq<CellIdx>, nat)> {
    if shut(grid, pads, src) {
        None
    } else {
        own_graph(grid, pads).route(src, dst, Cost::MAX as nat)
    }
}

/// A net's pads and ends are on the board, and its ends are open to it.
pub open spec fn net_ok(grid: &Grid, net: &NetEndpoints) -> bool {
    &&& forall|i: int|
        0 <= i < net.passable_pads@.len() ==> grid.dims.has(#[trigger] net.passable_pads@[i])
    &&& grid.dims.has(net.src)
    &&& grid.dims.has(net.dst)
    &&& !shut(grid, net.passable_pads@, net.src)
    &&& !shut(grid, net.passable_pads@, net.dst)
}

/// The first net that is not in order, if there is one.
pub open spec fn first_bad(grid: &Grid, nets: Seq<NetEndpoints>) -> Option<Seq<char>>
    decreases nets.len(),
{
    if nets.len() == 0 {
        None
    } else {
        match first_bad(grid, nets.drop_last()) {
            Some(name) => Some(name),
            None => if net_ok(grid, &nets.last()) {
                None
            } else {
                Some(nets.last().net@)
            },
        }
    }
}

/// The route of each net, as if it were alone.
pub open spec fn lone_routes(grid: &Grid, nets: Seq<NetEndpoints>) -> Seq<
    Option<(Seq<CellIdx>, nat)>,
> {
    Seq::new(
        nets.len(),
        |i: int| lone_route(grid, nets[i].passable_pads@, nets[i].src, nets[i].dst),
    )
}

/// What routing each net as if it were alone comes to.
pub open spec fn lone_outcome(grid: &Grid, nets: Seq<NetEndpoints>) -> Result<
    BoardView,
    FaultView,
> {
    if !grid.well_formed() {
        Err(FaultView::MalformedGrid)
    } else {
        match first_bad(grid, nets) {
            Some(name) => Err(FaultView::InvalidEndpoint(name)),
            None => Ok(crate::net::board_of(grid.dims, nets, lone_routes(grid, nets))),
        }
    }
}

/// How many columns and rows lie between two cells.
pub open spec fn manhattan(dims: Dims, a: CellIdx, b: CellIdx) -> int {
    let dx = dims.col(a) - dims.col(b);
    let dy = dims.row(a) - dims.row(b);
    (if dx < 0 {
        -dx
    } else {
        dx
    }) + (if dy < 0 {
        -dy
    } else {
        dy
    })
}

/// A grid as one net sees it.
pub struct GridSpace<'a> {
    /// The grid.
    pub grid: &'a Grid,
    /// The net's own pads.
    pub pads: &'a Vec<CellIdx>,
    /// Where the net wants to go.
    pub dst: CellIdx,
    /// The least that a step costs, or less.
    pub min_step: Cost,
}

impl<'a> SearchSpace for GridSpace<'a> {
    open spec fn extent(&self) -> Dims {
        self.grid.dims
    }

    open spec fn valid(&self) -> bool {
        &&& self.grid.well_formed()
        &&& self.grid.dims.has(self.dst)
        &&& self.min_step <= 1
    }

    open spec fn planar_price(&self, u: CellIdx, v: CellIdx) -> Cost {
        own_price(self.grid, u, v)
    }

    open spec fn closed(&self, c: CellIdx) -> bool {
        shut(self.grid, self.pads@, c)
    }

    open spec fn estimate(&self, c: CellIdx) -> Cost {
        (manhattan(self.grid.dims, c, self.dst) * self.min_step) as u32
    }

    open spec fn via_price(&self, u: CellIdx, v: CellIdx) -> Option<Cost> {
        None
    }

    fn cost(&self, u: CellIdx, v: CellIdx) -> (c: Cost) {
        if self.grid.is_board_planar_step_forbidden(u, v) {
            OBSTACLE
        } else if self.grid.is_obstacle(v) {
            1
        } else {
            self.grid.cost_at(v)
        }
    }

    fn blocked(&self, c: CellIdx) -> (b: bool) {
        self.grid.is_board_forbidden(c) || (self.grid.is_obstacle(c) && !contains_cell(
            self.pads,
            c,
        ))
    }

    fn heuristic(&self, c: CellIdx) -> (h: Cost) {
        let (ax, ay) = self.grid.dims.xy(c);
        let (bx, by) = self.grid.dims.xy(self.dst);
        proof {
            lemma_manhattan_bound(self.grid.dims, c, self.dst);
        }
        let dx: u32 = if ax < bx { bx - ax } else { ax - bx };
        let dy: u32 = if ay < by { by - ay } else { ay - by };
        if self.min_step == 0 {
            assert(manhattan(self.grid.dims, c, self.dst) * 0 == 0);
            0
        } else {
            assert(manhattan(self.grid.dims, c, self.dst) * 1 == manhattan(
                self.grid.dims,
                c,
                self.dst,
            ));
            dx + dy
        }
    }

    fn via_step(&self, u: CellIdx, v: CellIdx) -> (c: Option<Cost>) {
        None
    }
}

proof fn lemma_manhattan_bound(dims: Dims, a: CellIdx, b: CellIdx)
    requires
        dims.indexable(),
        dims.has(a),
        dims.has(b),
    ensures
        0 <= manhattan(dims, a, b) <= u32::MAX,
{
    dims.lemma_coords(a);
    dims.lemma_coords(b);
    assert(dims.w + dims.h - 2 <= dims.w * dims.h * dims.layers) by (nonlinear_arith)
        requires
            dims.w > 0,
            dims.h > 0,
            dims.layers > 0,
    ;
}

/// A net's own graph is the graph that its search runs on.
proof fn lemma_own_graph(s: &GridSpace)
    ensures
        crate::search::graph_of(s) == own_graph(s.grid, s.pads@),
{
    assert(crate::search::graph_of(s).edge =~= own_graph(s.grid, s.pads@).edge);
}

/// Where no step costs less than `min_step`, the estimates are consistent.
proof fn lemma_consistent(s: &GridSpace)
    requires
        s.valid(),
        s.min_step == 0 || forall|c: int|
            0 <= c < s.grid.cost@.len() ==> #[trigger] s.grid.cost@[c] > 0,
    ensures
        crate::search::consistent(s, s.dst),
{
    let g = crate::search::graph_of(s);
    let d = s.grid.dims;
    assert forall|u: CellIdx, v: CellIdx| #[trigger] g.joins(u, v) implies s.estimate(u) <= g.price(
        u,
        v,
    ) + s.estimate(v) by {
        lemma_manhattan_bound(d, u, s.dst);
        lemma_manhattan_bound(d, v, s.dst);
        if s.min_step == 0 {
            assert(manhattan(d, u, s.dst) * 0 == 0);
        } else {
            assert(s.grid.cost@[v as int] > 0);
            assert(manhattan(d, u, s.dst) * 1 == manhattan(d, u, s.dst));
            assert(manhattan(d, v, s.dst) * 1 == manhattan(d, v, s.dst));
        }
    }
    assert(manhattan(d, s.dst, s.dst) * s.min_step == 0) by (nonlinear_arith)
        requires
            manhattan(d, s.dst, s.dst) == 0,
    ;
    let est = |c: CellIdx| s.estimate(c);
    assert(est(s.dst) == 0);
}

/// Routes one net as if it were alone. `min_step` is a lower bound on what a step
/// costs.
pub fn route_lone(
    buf: &mut SearchBuf,
    grid: &Grid,
    pads: &Vec<CellIdx>,
    src: CellIdx,
    dst: CellIdx,
    min_step: Cost,
) -> (r: Found)
    requires
        grid.well_formed(),
        grid.dims.has(src),
        grid.dims.has(dst),
        old(buf).wf(grid.dims.cells()),
        min_step == 0 || min_step == 1 && forall|c: int|
            0 <= c < grid.cost@.len() ==> #[trigger] grid.cost@[c] > 0,
    ensures
        final(buf).wf(grid.dims.cells()),
        crate::search::path_view(r) == lone_route(grid, pads@, src, dst),
        r matches Some((p, _)) ==> own_graph(grid, pads@).connects(src, dst, p@),
{
    let space = GridSpace { grid, pads, dst, min_step };
    proof {
        lemma_own_graph(&space);
        lemma_consistent(&space);
    }
    astar_buf(buf, grid.dims, src, dst, &space)
}

/// A walk on a net's own graph stays on the board.
pub proof fn lemma_on_board(grid: &Grid, pads: Seq<CellIdx>, p: Seq<CellIdx>)
    requires
        own_graph(grid, pads).is_walk(p),
    ensures
        forall|j: int| 0 <= j < p.len() ==> grid.dims.has(#[trigger] p[j]),
{
    assert forall|j: int| 0 <= j < p.len() implies grid.dims.has(#[trigger] p[j]) by {
        if j > 0 {
            assert(own_graph(grid, pads).steps(p, j));
        }
    }
}

/// Whether a net's pads and ends are on the board, and its ends open to it.
pub fn is_net_ok(grid: &Grid, net: &NetEndpoints) -> (b: bool)
    requires
        grid.well_formed(),
    ensures
        b == net_ok(grid, net),
{
    let mut i: usize = 0;
    while i < net.passable_pads.len()
        invariant
            i <= net.passable_pads@.len(),
            grid.well_formed(),
            forall|j: int|
                0 <= j < i ==> grid.dims.has(#[trigger] net.passable_pads@[j]),
        decreases net.passable_pads@.len() - i,
    {
        if !grid.dims.contains(net.passable_pads[i]) {
            assert(!grid.dims.has(net.passable_pads@[i as int]));
            return false;
        }
        i += 1;
    }
    if !grid.dims.contains(net.src) || !grid.dims.contains(net.dst) {
        return false;
    }
    let src_open = !grid.is_board_forbidden(net.src) && (!grid.is_obstacle(net.src)
        || contains_cell(&net.passable_pads, net.src));
    let dst_open = !grid.is_board_forbidden(net.dst) && (!grid.is_obstacle(net.dst)
        || contains_cell(&net.passable_pads, net.dst));
    src_open && dst_open
}

/// Routes each net as if it were alone. `min_step` is a lower bound on what a step
/// costs.
pub fn route_each(grid: &Grid, nets: &[NetEndpoints], min_step: Cost) -> (r: Result<
    BoardRoute,
    RouterError,
>)
    requires
        min_step == 0 || min_step == 1 && forall|c: int|
            0 <= c < grid.cost@.len() ==> #[trigger] grid.cost@[c] > 0,
    ensures
        crate::net::outcome_view(r) == lone_outcome(grid, nets@),
{
    if !grid.is_well_formed() {
        return Err(RouterError::MalformedGrid);
    }
    let mut buf = SearchBuf::new(grid.dims.len());
    let mut outs: Vec<Found> = Vec::new();
    let mut i: usize = 0;
    while i < nets.len()
        invariant
            i <= nets@.len(),
            grid.well_formed(),
            buf.wf(grid.dims.cells()),
            min_step == 0 || min_step == 1 && forall|c: int|
                0 <= c < grid.cost@.len() ==> #[trigger] grid.cost@[c] > 0,
            first_bad(grid, nets@.take(i as int)) is None,
            outs@.len() == i,
            forall|j: int|
                0 <= j < i ==> crate::search::path_view(#[trigger] outs@[j]) == lone_routes(
                    grid,
                    nets@,
                )[j],
            forall|j: int|
                0 <= j < i ==> (#[trigger] outs@[j] matches Some((p, _)) ==> forall|k: int|
                    0 <= k < p@.len() ==> grid.dims.has(#[trigger] p@[k])),
        decreases nets@.len() - i,
    {
        let net = &nets[i];
        proof {
            assert(nets@.take(i + 1).drop_last() =~= nets@.take(i as int));
            assert(nets@.take(i + 1).last() == *net);
        }
        if !is_net_ok(grid, net) {
            proof {
                lemma_first_bad_stays(grid, nets@, i + 1);
            }
            return Err(RouterError::InvalidEndpoint { net: net.net.clone() });
        }
        let found = route_lone(
            &mut buf,
            grid,
            &net.passable_pads,
            net.src,
            net.dst,
            min_step,
        );
        proof {
            if found is Some {
                lemma_on_board(grid, net.passable_pads@, (found->0).0@);
            }
        }
        outs.push(found);
        i += 1;
    }
    proof {
        assert(nets@.take(nets@.len() as int) =~= nets@);
        assert(crate::net::found_view(outs@) =~= lone_routes(grid, nets@));
    }
    Ok(assemble(grid.dims, nets, &outs))
}

/// The first net that is not in order stays the first one when more nets follow.
pub proof fn lemma_first_bad_stays(grid: &Grid, nets: Seq<NetEndpoints>, n: int)
    requires
        0 <= n <= nets.len(),
        first_bad(grid, nets.take(n)) is Some,
    ensures
        first_bad(grid, nets) == first_bad(grid, nets.take(n)),
    decreases nets.len(),
{
    if n == nets.len() {
        assert(nets.take(n) =~= nets);
    } else {
        assert(nets.drop_last().take(n) =~= nets.take(n));
        lemma_first_bad_stays(grid, nets.drop_last(), n);
    }
}

} // verus!
