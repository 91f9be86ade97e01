//! What every router promises.
use vstd::prelude::*;

use crate::board::CellIdx;
use crate::grid::Grid;
use crate::net::{BoardRoute, NetEndpoints, RouterError};

verus! {

/// The cell at place `i` of `p` is adjacent to the cell before it.
pub open spec fn follows(grid: &Grid, p: Seq<CellIdx>, i: int) -> bool {
    grid.dims.adjacent(p[i - 1], p[i])
}

/// `p` leads from the net's source to its destination, cell by adjacent cell.
pub open spec fn leads(grid: &Grid, net: &NetEndpoints, p: Seq<CellIdx>) -> bool {
    &&& p.len() > 0
    &&& p[0] == net.src
    &&& p.last() == net.dst
    &&& forall|i: int| 0 < i < p.len() ==> #[trigger] follows(grid, p, i)
}

/// Each net has a route from end to end, or none.
pub open spec fn routes_fit(
    grid: &Grid,
    nets: Seq<NetEndpoints>,
    outs: Seq<Option<(Seq<CellIdx>, nat)>>,
) -> bool {
    &&& outs.len() == nets.len()
    &&& forall|i: int|
        0 <= i < outs.len() ==> (#[trigger] outs[i] matches Some((p, _)) ==> leads(
            grid,
            &nets[i],
            p,
        ))
}

/// What is common to the answers of all routers: a malformed grid is refused, and
/// nothing else is refused so; a refused net is one of those given; every net is
/// either routed from end to end or reported, in the order in which they came.
pub open spec fn answers(
    grid: &Grid,
    nets: Seq<NetEndpoints>,
    r: Result<BoardRoute, RouterError>,
) -> bool {
    &&& (r matches Err(RouterError::MalformedGrid)) <==> !grid.well_formed()
    &&& r matches Err(RouterError::InvalidEndpoint { net }) ==> exists|i: int|
        0 <= i < nets.len() && #[trigger] nets[i].net@ == net@
    &&& !(r matches Err(RouterError::BackendUnavailable(_)))
    &&& r matches Ok(b) ==> exists|outs: Seq<Option<(Seq<CellIdx>, nat)>>|
        {
            &&& #[trigger] routes_fit(grid, nets, outs)
            &&& b@.results == crate::net::routed_of(nets, outs)
            &&& b@.unrouted == crate::net::unrouted_of(nets, outs)
            &&& b@.congestion == crate::net::congestion_of(
                grid.dims.cells() as nat,
                crate::net::routed_of(nets, outs),
            )
        }
}

/// A way of routing the nets of a board.
pub trait Router {
    /// Routes the nets.
    fn route(&self, grid: &Grid, nets: &[NetEndpoints]) -> (r: Result<BoardRoute, RouterError>)
        ensures
            answers(grid, nets@, r),
    ;
}

/// Routing each net as if it were alone answers as a router should.
pub proof fn lemma_lone_answers(
    grid: &Grid,
    nets: Seq<NetEndpoints>,
    r: Result<BoardRoute, RouterError>,
)
    requires
        crate::net::outcome_view(r) == crate::isolated::lone_outcome(grid, nets),
    ensures
        answers(grid, nets, r),
{
    if grid.well_formed() {
        let outs = crate::isolated::lone_routes(grid, nets);
        assert forall|i: int| 0 <= i < outs.len() implies (#[trigger] outs[i] matches Some((p, _))
            ==> leads(grid, &nets[i], p)) by {
            if let Some((p, _)) = outs[i] {
                let g = crate::isolated::own_graph(grid, nets[i].passable_pads@);
                g.lemma_routable(nets[i].src, nets[i].dst, u32::MAX as nat);
                assert forall|k: int| 0 < k < p.len() implies #[trigger] follows(
                    grid,
                    p,
                    k,
                ) by {
                    assert(g.steps(p, k));
                }
            }
        }
        assert(routes_fit(grid, nets, outs));
        match crate::isolated::first_bad(grid, nets) {
            Some(name) => {
                lemma_bad_is_given(grid, nets);
            },
            None => {},
        }
    }
}

/// A net that is not in order is one of those given.
pub proof fn lemma_bad_is_given(grid: &Grid, nets: Seq<NetEndpoints>)
    requires
        crate::isolated::first_bad(grid, nets) is Some,
    ensures
        exists|i: int|
            0 <= i < nets.len() && Some(#[trigger] nets[i].net@) == crate::isolated::first_bad(
                grid,
                nets,
            ),
    decreases nets.len(),
{
    let d = nets.drop_last();
    if crate::isolated::first_bad(grid, d) is Some {
        lemma_bad_is_given(grid, d);
        let i = choose|i: int|
            0 <= i < d.len() && Some(#[trigger] d[i].net@) == crate::isolated::first_bad(grid, d);
        assert(nets[i].net@ == d[i].net@);
    } else {
        assert(nets[nets.len() - 1].net@ == nets.last().net@);
    }
}

} // verus!
