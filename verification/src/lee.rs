//! Wavefront routing: plain shortest paths, each net on its own.
use vstd::prelude::*;

use crate::board::CellIdx;
use crate::grid::Grid;
use crate::isolated::{route_each, route_lone};
use crate::net::{BoardRoute, Found, NetEndpoints, RouterError};
use crate::router::Router;
use crate::search::SearchBuf;

verus! {

/// Routes every net on its own by a uniform wavefront.
#[derive(Clone, Copy, Debug)]
pub struct LeeRouter;

impl LeeRouter {
    /// A wavefront router.
    pub fn new() -> (r: LeeRouter)
        ensures
            r == LeeRouter,
    {
        LeeRouter
    }

    /// The canonical route from `src` to `dst` and its cost, where there is one. The
    /// cost is that of the cells of the route without its source.
    pub fn route_one(grid: &Grid, src: CellIdx, dst: CellIdx) -> (r: Found)
        requires
            grid.well_formed(),
            grid.dims.has(src),
            grid.dims.has(dst),
        ensures
            crate::search::path_view(r) == crate::isolated::lone_route(
                grid,
                Seq::empty(),
                src,
                dst,
            ),
            r matches Some((p, _)) ==> crate::isolated::own_graph(grid, Seq::empty()).connects(
                src,
                dst,
                p@,
            ),
    {
        let mut buf = SearchBuf::new(grid.dims.len());
        let pads: Vec<CellIdx> = Vec::new();
        route_lone(&mut buf, grid, &pads, src, dst, 0)
    }
}

impl Default for LeeRouter {
    fn default() -> (r: LeeRouter)
        ensures
            r == LeeRouter,
    {
        LeeRouter
    }
}

impl Router for LeeRouter {
    /// Routes each net as if it were alone.
    fn route(&self, grid: &Grid, nets: &[NetEndpoints]) -> (r: Result<BoardRoute, RouterError>)
        ensures
            crate::net::outcome_view(r) == crate::isolated::lone_outcome(grid, nets@),
    {
        let r = route_each(grid, nets, 0);
        proof {
            crate::router::lemma_lone_answers(grid, nets@, r);
        }
        r
    }
}

} // verus!
