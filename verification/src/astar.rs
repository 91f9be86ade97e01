//! Goal-directed routing: shortest paths with a Manhattan estimate.
use vstd::prelude::*;

use crate::board::{CellIdx, Cost};
use crate::grid::Grid;
use crate::isolated::{route_each, route_lone};
use crate::net::{BoardRoute, Found, NetEndpoints, RouterError};
use crate::router::Router;
use crate::search::SearchBuf;

verus! {

/// Routes every net on its own, towards its goal.
///
/// The routes are those of the plain wavefront: the estimate never exceeds what is
/// left to pay, so it changes the work and not the answer.
#[derive(Clone, Copy, Debug)]
pub struct AStarRouter;

impl AStarRouter {
    /// A goal-directed router.
    pub fn new() -> (r: AStarRouter)
        ensures
            r == AStarRouter,
    {
        AStarRouter
    }

    /// A lower bound on what a step costs: nothing where some cell is free, else one.
    fn min_step(grid: &Grid) -> (m: Cost)
        ensures
            m == 0 || m == 1 && forall|c: int|
                0 <= c < grid.cost@.len() ==> #[trigger] grid.cost@[c] > 0,
            m == 0 <==> exists|c: int| 0 <= c < grid.cost@.len() && #[trigger] grid.cost@[c] == 0,
    {
        let mut i: usize = 0;
        while i < grid.cost.len()
            invariant
                i <= grid.cost@.len(),
                forall|c: int| 0 <= c < i ==> #[trigger] grid.cost@[c] > 0,
            decreases grid.cost@.len() - i,
        {
            if grid.cost[i] == 0 {
                assert(grid.cost@[i as int] == 0);
                return 0;
            }
            i += 1;
        }
        1
    }

    /// The canonical route from `src` to `dst` and its cost, where there is one.
    pub fn route_one(grid: &Grid, src: CellIdx, dst: CellIdx) -> (r: Found)
        requires
            grid.well_formed(),
            grid.dims.has(src),
            grid.dims.has(dst),
        ensures
            crate::search::path_view(r) == crate::isolated::lone_route(
                grid,
                Seq::empty(),
                src,
                dst,
            ),
    {
        let mut buf = SearchBuf::new(grid.dims.len());
        let pads: Vec<CellIdx> = Vec::new();
        let min_step: Cost = AStarRouter::min_step(grid);
        route_lone(&mut buf, grid, &pads, src, dst, min_step)
    }
}

impl Default for AStarRouter {
    fn default() -> (r: AStarRouter)
        ensures
            r == AStarRouter,
    {
        AStarRouter
    }
}

impl Router for AStarRouter {
    /// Routes each net as if it were alone.
    fn route(&self, grid: &Grid, nets: &[NetEndpoints]) -> (r: Result<BoardRoute, RouterError>)
        ensures
            crate::net::outcome_view(r) == crate::isolated::lone_outcome(grid, nets@),
    {
        let min_step: Cost = AStarRouter::min_step(grid);
        let r = route_each(grid, nets, min_step);
        proof {
            crate::router::lemma_lone_answers(grid, nets@, r);
        }
        r
    }
}

} // verus!
