//! What the routers that take every net on its own are for.
use vstd::prelude::*;

use crate::board::CellIdx;
use crate::grid::Grid;
use crate::net::{BoardView, FaultView, NetEndpoints};
use crate::ways::Moves;

verus! {

/// The grid lists what it has to list for each of its cells.
pub open spec fn is_complete(grid: &Grid) -> bool {
    let cells = grid.dims.w * grid.dims.h * grid.dims.layers;
    &&& cells <= u32::MAX
    &&& grid.cost@.len() == cells
    &&& grid.via_forbidden@.len() == 0 || grid.via_forbidden@.len() == cells
    &&& grid.board matches Some(m) ==> m.outside@.len() == cells
}

/// The cell is one of the listed ones, wherever in the list it stands.
pub open spec fn is_listed(list: Seq<CellIdx>, c: CellIdx) -> bool {
    exists|k: int| 0 <= k < list.len() && #[trigger] list[k] == c
}

/// Copper of a net with the given pads can be at `c`: the cell is no obstacle or one of
/// the pads, and the outline does not leave it out.
pub open spec fn is_open(grid: &Grid, pads: Seq<CellIdx>, c: CellIdx) -> bool {
    &&& grid.cost@[c as int] != u32::MAX || is_listed(pads, c)
    &&& grid.board matches Some(m) ==> !m.outside@[c as int]
}

/// The outline does not run between the cells.
pub open spec fn is_uncut(grid: &Grid, u: CellIdx, v: CellIdx) -> bool {
    grid.board matches Some(m) ==> forall|k: int|
        0 <= k < m.cuts@.len() ==> #[trigger] m.cuts@[k] != (u, v)
}

/// The moves of a net that has the given pads. A pad costs one, any other cell what the
/// grid says.
pub open spec fn lone_moves(grid: &Grid, pads: Seq<CellIdx>) -> Moves {
    Moves {
        can: |u: CellIdx, v: CellIdx|
            crate::ways::is_beside(grid.dims, u, v) && is_open(grid, pads, v) && is_uncut(
                grid,
                u,
                v,
            ),
        fee: |u: CellIdx, v: CellIdx|
            if grid.cost@[v as int] == u32::MAX {
                1nat
            } else {
                grid.cost@[v as int] as nat
            },
    }
}

/// The net can get from its source to its destination.
pub open spec fn has_way(grid: &Grid, net: NetEndpoints) -> bool {
    lone_moves(grid, net.passable_pads@).reach(net.src, net.dst, u32::MAX as nat)
}

/// The net's pads are on the board, and copper of the net can be at its ends.
pub open spec fn is_sound(grid: &Grid, net: NetEndpoints) -> bool {
    let cells = grid.dims.w * grid.dims.h * grid.dims.layers;
    &&& forall|k: int|
        0 <= k < net.passable_pads@.len() ==> (#[trigger] net.passable_pads@[k]) < cells
    &&& net.src < cells
    &&& net.dst < cells
    &&& is_open(grid, net.passable_pads@, net.src)
    &&& is_open(grid, net.passable_pads@, net.dst)
}

pub proof fn lemma_listed(list: Seq<CellIdx>, c: CellIdx)
    ensures
        is_listed(list, c) <==> list.contains(c),
{
    if is_listed(list, c) {
        let k = choose|k: int| 0 <= k < list.len() && #[trigger] list[k] == c;
        assert(list[k] == c);
    }
}

pub proof fn lemma_uncut(grid: &Grid, u: CellIdx, v: CellIdx)
    ensures
        is_uncut(grid, u, v) <==> !grid.cut(u, v),
{
    if let Some(m) = grid.board {
        if m.cuts@.contains((u, v)) {
            let k = choose|k: int| 0 <= k < m.cuts@.len() && m.cuts@[k] == (u, v);
            assert(m.cuts@[k] == (u, v));
        }
    }
}

/// A grid is accepted exactly where it is complete.
pub proof fn law_complete_grids_are_accepted(grid: &Grid)
    ensures
        grid.well_formed() <==> is_complete(grid),
{
}

proof fn lemma_sound(grid: &Grid, net: NetEndpoints)
    requires
        grid.well_formed(),
    ensures
        crate::isolated::net_ok(grid, &net) <==> is_sound(grid, net),
{
    lemma_listed(net.passable_pads@, net.src);
    lemma_listed(net.passable_pads@, net.dst);
    if is_sound(grid, net) {
        assert forall|i: int| 0 <= i < net.passable_pads@.len() implies grid.dims.has(
            #[trigger] net.passable_pads@[i],
        ) by {}
    }
    if crate::isolated::net_ok(grid, &net) {
        assert forall|k: int| 0 <= k < net.passable_pads@.len() implies (
        #[trigger] net.passable_pads@[k]) < grid.dims.w * grid.dims.h * grid.dims.layers by {
            assert(grid.dims.has(net.passable_pads@[k]));
        }
    }
}

/// The moves of a net are the steps that cost less than an obstacle.
proof fn lemma_moves(grid: &Grid, pads: Seq<CellIdx>)
    requires
        grid.well_formed(),
    ensures
        lone_moves(grid, pads).are_steps(crate::isolated::own_graph(grid, pads), u32::MAX as nat),
{
    let m = lone_moves(grid, pads);
    let g = crate::isolated::own_graph(grid, pads);
    assert forall|u: CellIdx, v: CellIdx|
        #![trigger (m.can)(u, v)]
        #![trigger g.joins(u, v)]
        ((m.can)(u, v) <==> g.joins(u, v) && g.price(u, v) < u32::MAX as nat) && ((m.can)(u, v)
            ==> (m.fee)(u, v) == g.price(u, v)) by {
        crate::ways::law_neighbours_are_beside(grid.dims, u, v);
        lemma_uncut(grid, u, v);
        lemma_listed(pads, v);
    }
}

/// A net on its own takes the best way there is over its own pads and cells without
/// obstacle, however long its list of pads: the cheapest, then the one with the fewest
/// cells, then the one that comes from the lowest cells.
pub proof fn law_lone_route_is_the_best_way(
    grid: &Grid,
    pads: Seq<CellIdx>,
    src: CellIdx,
    dst: CellIdx,
)
    requires
        is_complete(grid),
        src < grid.cost@.len(),
        is_open(grid, pads, src),
    ensures
        crate::isolated::lone_route(grid, pads, src, dst) is Some <==> lone_moves(
            grid,
            pads,
        ).reach(src, dst, u32::MAX as nat),
        crate::isolated::lone_route(grid, pads, src, dst) matches Some((p, c)) ==> lone_moves(
            grid,
            pads,
        ).is_taken(src, dst, p) && c == lone_moves(grid, pads).fees(p) && c < u32::MAX,
{
    lemma_moves(grid, pads);
    lemma_listed(pads, src);
    lone_moves(grid, pads).lemma_route_is_taken(
        crate::isolated::own_graph(grid, pads),
        src,
        dst,
        u32::MAX as nat,
    );
}

/// Whatever way a net has over its own pads and cells without obstacle, it is routed, at
/// a cost no higher than that of the way.
pub proof fn law_any_way_is_enough(
    grid: &Grid,
    pads: Seq<CellIdx>,
    src: CellIdx,
    dst: CellIdx,
    q: Seq<CellIdx>,
)
    requires
        is_complete(grid),
        src < grid.cost@.len(),
        is_open(grid, pads, src),
        lone_moves(grid, pads).lead(src, dst, q),
        lone_moves(grid, pads).fees(q) < u32::MAX,
    ensures
        crate::isolated::lone_route(grid, pads, src, dst) matches Some((_, c)) && c <= lone_moves(
            grid,
            pads,
        ).fees(q),
{
    law_lone_route_is_the_best_way(grid, pads, src, dst);
}

/// The first net that is not sound is named, and there is no other reason to refuse a
/// board than that and a grid that is not complete.
pub proof fn law_lone_refusals(grid: &Grid, nets: Seq<NetEndpoints>)
    ensures
        ({
            let r = crate::isolated::lone_outcome(grid, nets);
            &&& !is_complete(grid) <==> r == Err::<BoardView, FaultView>(FaultView::MalformedGrid)
            &&& r is Ok <==> is_complete(grid) && forall|i: int|
                0 <= i < nets.len() ==> is_sound(grid, #[trigger] nets[i])
            &&& is_complete(grid) && r is Err ==> exists|i: int|
                {
                    &&& 0 <= i < nets.len()
                    &&& !is_sound(grid, #[trigger] nets[i])
                    &&& forall|j: int| 0 <= j < i ==> is_sound(grid, #[trigger] nets[j])
                    &&& r == Err::<BoardView, FaultView>(FaultView::InvalidEndpoint(nets[i].net@))
                }
        }),
{
    law_complete_grids_are_accepted(grid);
    if grid.well_formed() {
        lemma_first_bad(grid, nets);
    }
}

proof fn lemma_first_bad(grid: &Grid, nets: Seq<NetEndpoints>)
    requires
        grid.well_formed(),
    ensures
        crate::isolated::first_bad(grid, nets) is None <==> forall|i: int|
            0 <= i < nets.len() ==> is_sound(grid, #[trigger] nets[i]),
        crate::isolated::first_bad(grid, nets) matches Some(name) ==> exists|i: int|
            {
                &&& 0 <= i < nets.len()
                &&& !is_sound(grid, #[trigger] nets[i])
                &&& forall|j: int| 0 <= j < i ==> is_sound(grid, #[trigger] nets[j])
                &&& name == nets[i].net@
            },
    decreases nets.len(),
{
    if nets.len() > 0 {
        let d = nets.drop_last();
        lemma_first_bad(grid, d);
        lemma_sound(grid, nets.last());
        let n = d.len() as int;
        if crate::isolated::first_bad(grid, d) is Some {
            let i = choose|i: int|
                {
                    &&& 0 <= i < d.len()
                    &&& !is_sound(grid, #[trigger] d[i])
                    &&& forall|j: int| 0 <= j < i ==> is_sound(grid, #[trigger] d[j])
                    &&& crate::isolated::first_bad(grid, d)->0 == d[i].net@
                };
            assert(nets[i] == d[i]);
            assert forall|j: int| 0 <= j < i implies is_sound(grid, #[trigger] nets[j]) by {
                assert(nets[j] == d[j]);
            }
        } else {
            assert forall|j: int| 0 <= j < n implies is_sound(grid, #[trigger] nets[j]) by {
                assert(nets[j] == d[j]);
            }
            assert(nets[n] == nets.last());
        }
    }
}

/// On a board that is not refused, the nets are reported in their order. A net that has
/// a way is reported with the way that is taken and what it costs; a net that has none is
/// among those that were not routed.
pub proof fn law_lone_board_is_complete(grid: &Grid, nets: Seq<NetEndpoints>, i: int)
    requires
        crate::isolated::lone_outcome(grid, nets) is Ok,
        0 <= i < nets.len(),
    ensures
        ({
            let b = crate::isolated::lone_outcome(grid, nets)->Ok_0;
            let done = |j: int| has_way(grid, nets[j]);
            let m = lone_moves(grid, nets[i].passable_pads@);
            &&& b.results.len() == crate::tally::how_many(done, nets.len())
            &&& b.unrouted.len() == nets.len() - crate::tally::how_many(done, nets.len())
            &&& has_way(grid, nets[i]) ==> exists|p: Seq<CellIdx>| #[trigger]
                m.is_taken(nets[i].src, nets[i].dst, p) && crate::tally::is_reported(
                    b,
                    nets[i].net@,
                    done,
                    i,
                    p,
                    m.fees(p),
                )
            &&& !has_way(grid, nets[i]) ==> crate::tally::is_missed(b, nets[i].net@, done, i)
            &&& crate::tally::tells_traffic(b, grid.cost@.len() as int)
            &&& b.groups.len() == 0
        }),
{
    let outs = crate::isolated::lone_routes(grid, nets);
    let done = |j: int| has_way(grid, nets[j]);
    law_lone_refusals(grid, nets);
    assert forall|j: int| 0 <= j < nets.len() implies #[trigger] done(j) == (outs[j] is Some) by {
        assert(is_sound(grid, nets[j]));
        law_lone_route_is_the_best_way(grid, nets[j].passable_pads@, nets[j].src, nets[j].dst);
    }
    crate::tally::law_board_lists_nets(grid.dims, nets, outs, done, i);
    crate::tally::law_congestion_is_traffic(grid.dims, nets, outs);
    assert(is_sound(grid, nets[i]));
    law_lone_route_is_the_best_way(grid, nets[i].passable_pads@, nets[i].src, nets[i].dst);
    assert(done(i) == (outs[i] is Some));
    if has_way(grid, nets[i]) {
        let p = (outs[i]->0).0;
        assert(lone_moves(grid, nets[i].passable_pads@).is_taken(nets[i].src, nets[i].dst, p));
    }
}

} // verus!
