//! What distance fields are for: what it costs to get everywhere, and the way that is taken.
use vstd::prelude::*;

use crate::board::CellIdx;
use crate::grid::Grid;
use crate::lone_laws::is_complete;
use crate::ways::Moves;

verus! {

/// The moves on a grid from cell to cell on a layer, over whatever is no obstacle.
pub open spec fn plain_moves(grid: &Grid) -> Moves {
    Moves {
        can: |u: CellIdx, v: CellIdx|
            crate::ways::is_beside(grid.dims, u, v) && grid.cost@[v as int] != u32::MAX,
        fee: |u: CellIdx, v: CellIdx| grid.cost@[v as int] as nat,
    }
}

proof fn lemma_plain(grid: &Grid)
    requires
        grid.well_formed(),
    ensures
        plain_moves(grid).are_steps(crate::sweep::open_graph(grid), u32::MAX as nat),
{
    let m = plain_moves(grid);
    let g = crate::sweep::open_graph(grid);
    assert forall|u: CellIdx, v: CellIdx|
        #![trigger (m.can)(u, v)]
        #![trigger g.joins(u, v)]
        ((m.can)(u, v) <==> g.joins(u, v) && g.price(u, v) < u32::MAX as nat) && ((m.can)(u, v)
            ==> (m.fee)(u, v) == g.price(u, v)) by {
        crate::ways::law_neighbours_are_beside(grid.dims, u, v);
    }
}

/// The distance is the least that it costs to get from one cell to the other: some way costs
/// that and none costs less; it is the largest cost where no way costs less than that.
pub open spec fn is_distance(m: Moves, src: CellIdx, c: CellIdx, d: u32) -> bool {
    &&& forall|q: Seq<CellIdx>| #[trigger] m.lead(src, c, q) ==> d <= m.fees(q)
    &&& d < u32::MAX ==> exists|q: Seq<CellIdx>| #[trigger] m.lead(src, c, q) && m.fees(q) == d
}

/// A distance field holds for each cell the least that it costs to get there; where it starts
/// off the board or on an obstacle nothing is reached.
pub proof fn law_fields_are_least_costs(grid: &Grid, src: CellIdx, dist: Seq<u32>, c: CellIdx)
    requires
        is_complete(grid),
        crate::sweep::is_field(grid, src, dist),
        c < grid.cost@.len(),
    ensures
        dist.len() == grid.cost@.len(),
        src >= grid.cost@.len() || grid.cost@[src as int] == u32::MAX ==> dist[c as int]
            == u32::MAX,
        src < grid.cost@.len() && grid.cost@[src as int] != u32::MAX ==> is_distance(
            plain_moves(grid),
            src,
            c,
            dist[c as int],
        ),
{
    crate::lone_laws::law_complete_grids_are_accepted(grid);
    let m = plain_moves(grid);
    let g = crate::sweep::open_graph(grid);
    assert(grid.dims.has(c));
    assert(dist[c as int] == crate::sweep::field_at(grid, src, c));
    if src < grid.cost@.len() && grid.cost@[src as int] != u32::MAX {
        lemma_plain(grid);
        m.lemma_route_is_taken(g, src, c, u32::MAX as nat);
        assert forall|q: Seq<CellIdx>| #[trigger] m.lead(src, c, q) implies dist[c as int]
            <= m.fees(q) by {
            if m.fees(q) < u32::MAX {
                assert(m.reach(src, c, u32::MAX as nat));
            }
        }
    }
}

/// The cell before each cell of a wavefront is the one from which the way that is taken
/// enters it; the start and what is not reached have none.
pub proof fn law_predecessors_are_on_the_way(
    grid: &Grid,
    src: CellIdx,
    c: CellIdx,
    p: Seq<CellIdx>,
)
    requires
        is_complete(grid),
        src < grid.cost@.len(),
        grid.cost@[src as int] != u32::MAX,
    ensures
        ({
            let m = plain_moves(grid);
            let before = crate::search::canonical_pred(crate::sweep::open_graph(grid), src, c);
            &&& !m.reach(src, c, u32::MAX as nat) ==> before == u32::MAX
            &&& m.is_taken(src, c, p) && m.fees(p) < u32::MAX ==> before == if p.len() >= 2 {
                p[p.len() - 2]
            } else {
                u32::MAX
            }
        }),
{
    crate::lone_laws::law_complete_grids_are_accepted(grid);
    let m = plain_moves(grid);
    let g = crate::sweep::open_graph(grid);
    lemma_plain(grid);
    m.lemma_route_is_taken(g, src, c, u32::MAX as nat);
    if m.is_taken(src, c, p) && m.fees(p) < u32::MAX {
        assert(m.lead(src, c, p));
        assert(m.reach(src, c, u32::MAX as nat));
        let q = (g.route(src, c, u32::MAX as nat)->0).0;
        m.law_one_way_is_taken(src, c, p, q);
    }
}

/// The route that a distance field holds is the way that is taken, and there is one wherever
/// the field reaches.
pub proof fn law_field_paths_are_taken(grid: &Grid, src: CellIdx, dst: CellIdx, dist: Seq<u32>)
    requires
        is_complete(grid),
        crate::sweep::is_field(grid, src, dist),
        src < grid.cost@.len(),
        dst < grid.cost@.len(),
        grid.cost@[src as int] != u32::MAX,
    ensures
        match crate::sweep::field_path(grid, dist, src, dst) {
            Some(p) => plain_moves(grid).is_taken(src, dst, p) && plain_moves(grid).fees(p)
                == dist[dst as int],
            None => dist[dst as int] == u32::MAX,
        },
{
    crate::lone_laws::law_complete_grids_are_accepted(grid);
    crate::sweep::law_field_path_is_canonical(grid, dist, src, dst);
    lemma_plain(grid);
    plain_moves(grid).lemma_route_is_taken(
        crate::sweep::open_graph(grid),
        src,
        dst,
        u32::MAX as nat,
    );
    assert(dist[dst as int] == crate::sweep::field_at(grid, src, dst));
}

/// The list leads from `src` to `dst`, each of its cells the one before the next.
pub open spec fn leads_back(pred: Seq<CellIdx>, src: CellIdx, dst: CellIdx, p: Seq<CellIdx>) -> bool {
    &&& p.len() > 0
    &&& p[0] == src
    &&& p[p.len() - 1] == dst
    &&& forall|k: int| 0 < k < p.len() ==> pred[(#[trigger] p[k]) as int] == p[k - 1] && p[k] != src
}

/// The route that predecessors hold is the list that leads back to the start, each cell by the
/// one before it.
pub proof fn law_predecessors_lead_back(
    pred: Seq<CellIdx>,
    src: CellIdx,
    dst: CellIdx,
    fuel: nat,
)
    ensures
        crate::sweep::chain(pred, src, dst, fuel) matches Some(p) ==> leads_back(
            pred,
            src,
            dst,
            p,
        ) && p.len() <= fuel + 1,
    decreases fuel,
{
    if dst != src && fuel > 0 {
        let u = pred[dst as int];
        law_predecessors_lead_back(pred, src, u, (fuel - 1) as nat);
        if let Some(p) = crate::sweep::chain(pred, src, u, (fuel - 1) as nat) {
            let r = p.push(dst);
            assert forall|k: int| 0 < k < r.len() implies pred[(#[trigger] r[k]) as int] == r[k
                - 1] && r[k] != src by {
                if k < p.len() {
                    assert(r[k] == p[k]);
                }
            }
        }
    }
}

/// Wherever a list of no more cells than there are leads back to the start, it is found.
pub proof fn law_what_leads_back_is_found(
    pred: Seq<CellIdx>,
    src: CellIdx,
    dst: CellIdx,
    fuel: nat,
    p: Seq<CellIdx>,
)
    requires
        leads_back(pred, src, dst, p),
        p.len() <= fuel + 1,
        forall|k: int| 0 <= k < p.len() ==> (#[trigger] p[k]) < pred.len(),
        pred.len() <= u32::MAX,
    ensures
        crate::sweep::chain(pred, src, dst, fuel) == Some(p),
    decreases fuel,
{
    if p.len() == 1 {
        assert(p =~= seq![src]);
    } else {
        let d = p.drop_last();
        let n = p.len() as int;
        assert(pred[p[n - 1] as int] == p[n - 2]);
        assert(p[n - 2] < pred.len());
        assert forall|k: int| 0 < k < d.len() implies pred[(#[trigger] d[k]) as int] == d[k - 1]
            && d[k] != src by {
            assert(d[k] == p[k]);
        }
        assert forall|k: int| 0 <= k < d.len() implies (#[trigger] d[k]) < pred.len() by {
            assert(d[k] == p[k]);
        }
        law_what_leads_back_is_found(pred, src, p[n - 2], (fuel - 1) as nat, d);
        assert(d.push(dst) =~= p);
    }
}

} // verus!
