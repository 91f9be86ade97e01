//! What a negotiating router answers with: whose lone routes count, which way of negotiating is
//! kept, and what its record tells.
use vstd::prelude::*;

use crate::board_laws::{model_of, reports, Paths};
use crate::grid::Grid;
use crate::negotiated::{NegotiatedRouter, NegotiationMode};
use crate::net::{BoardView, NetEndpoints, RoutedView};
use crate::score_laws::is_good_route;
use crate::trace::RouteTrace;

verus! {

/// There is an entry for each net, and every route is a good one.
pub open spec fn are_good(
    router: &NegotiatedRouter,
    grid: &Grid,
    nets: Seq<NetEndpoints>,
    batch: Paths,
) -> bool {
    &&& batch.len() == nets.len()
    &&& forall|i: int|
        0 <= i < nets.len() ==> (#[trigger] batch[i] matches Some(p) ==> is_good_route(
            grid,
            nets[i],
            model_of(router, grid.dims),
            p,
        ))
}

/// Lone routes that are given decide which nets have one, where all of them are good;
/// otherwise it is as if none were given.
pub proof fn law_given_routes_decide(
    router: &NegotiatedRouter,
    grid: &Grid,
    nets: Seq<NetEndpoints>,
    batch: Paths,
)
    ensures
        ({
            let r = router.answer(grid, nets, Some(batch));
            &&& r is Ok && are_good(router, grid, nets, batch) ==> {
                let o = r->Ok_0;
                &&& o.alone_routable.len() == nets.len()
                &&& forall|i: int|
                    0 <= i < nets.len() ==> (#[trigger] o.alone_routable[i] <==> batch[i] is Some)
            }
            &&& !are_good(router, grid, nets, batch) ==> r == router.answer(grid, nets, None)
        }),
{
    let t = router.task_of(grid, nets);
    if grid.well_formed() {
        crate::score_laws::law_good_routes_are_taken(
            grid,
            nets,
            model_of(router, grid.dims),
            batch,
        );
        assert(t.via == model_of(router, grid.dims));
        if are_good(router, grid, nets, batch) && router.answer(grid, nets, Some(batch)) is Ok {
            let o = router.answer(grid, nets, Some(batch))->Ok_0;
            assert forall|i: int| 0 <= i < nets.len() implies (#[trigger] o.alone_routable[i]
                <==> batch[i] is Some) by {
                if let Some(p) = batch[i] {
                    assert(is_good_route(grid, nets[i], model_of(router, grid.dims), p));
                }
            }
        }
    }
}

/// What the first routes cost together.
pub open spec fn bill(results: Seq<RoutedView>, n: nat) -> nat
    decreases n,
{
    if n == 0 {
        0
    } else {
        bill(results, (n - 1) as nat) + results[n - 1].cost
    }
}

proof fn lemma_bill(results: Seq<RoutedView>, n: nat)
    requires
        n <= results.len(),
    ensures
        crate::net::cost_sum(results.take(n as int)) == bill(results, n),
    decreases n,
{
    if n > 0 {
        lemma_bill(results, (n - 1) as nat);
        assert(results.take(n as int).drop_last() =~= results.take(n - 1));
    }
}

/// The first board is the better: it has more routes, or as many that cost less together.
pub open spec fn is_better(a: BoardView, b: BoardView) -> bool {
    ||| a.results.len() > b.results.len()
    ||| a.results.len() == b.results.len() && bill(a.results, a.results.len()) < bill(
        b.results,
        b.results.len(),
    )
}

/// Two ways of negotiating are tried: on boards of up to 250000 cells with between 17 and 179
/// nets, two of which have names with the same part before a hash sign.
pub open spec fn tries_both(grid: &Grid, nets: Seq<NetEndpoints>) -> bool {
    &&& 17 <= nets.len() <= 179
    &&& grid.dims.w * grid.dims.h * grid.dims.layers <= 250000
    &&& exists|i: int, j: int| #[trigger] crate::group_laws::are_namesakes(nets, i, j)
}

/// A router answers with what nets come to that move all at once, or one after the other
/// where there are no more than sixteen; where it tries both ways it keeps the better one,
/// and the first of two that are as good.
pub proof fn law_better_way_is_kept(
    router: &NegotiatedRouter,
    grid: &Grid,
    nets: Seq<NetEndpoints>,
)
    ensures
        ({
            let r = router.answer(grid, nets, None);
            let a = router.variant_answer(grid, nets, NegotiationMode::Adaptive);
            let s = router.variant_answer(grid, nets, NegotiationMode::ForceSerial);
            &&& r is Ok <==> a is Ok
            &&& r is Ok <==> s is Ok
            &&& r is Err ==> r == a && r == s
            &&& nets.len() <= 16 ==> r == a && r == s
            &&& !tries_both(grid, nets) ==> r == a
            &&& r is Ok && tries_both(grid, nets) && bill(
                a->Ok_0.board.results,
                a->Ok_0.board.results.len(),
            ) <= u64::MAX && bill(s->Ok_0.board.results, s->Ok_0.board.results.len()) <= u64::MAX
                ==> r == if is_better(s->Ok_0.board, a->Ok_0.board) {
                s
            } else {
                a
            }
        }),
{
    crate::group_laws::law_namesakes_are_seen(nets);
    let a = router.variant_answer(grid, nets, NegotiationMode::Adaptive);
    let s = router.variant_answer(grid, nets, NegotiationMode::ForceSerial);
    if a is Ok {
        let (x, y) = (a->Ok_0.board.results, s->Ok_0.board.results);
        lemma_bill(x, x.len());
        lemma_bill(y, y.len());
        assert(x.take(x.len() as int) =~= x);
        assert(y.take(y.len() as int) =~= y);
    }
}

/// The record tells of the nets: their names and ends, their groups, and the lone routes.
pub open spec fn tells_nets(
    trace: RouteTrace,
    nets: Seq<NetEndpoints>,
    groups: Seq<usize>,
) -> bool {
    &&& trace.nets@.len() == nets.len()
    &&& forall|i: int|
        0 <= i < nets.len() ==> {
            let e = #[trigger] trace.nets@[i];
            &&& e.net@ == nets[i].net@
            &&& e.src == nets[i].src
            &&& e.dst == nets[i].dst
            &&& e.group == groups[i] as u32
        }
}

/// The record tells of the rounds, from the first to the last: there is another as long as a
/// cell is shared, sixty in all.
pub open spec fn tells_rounds(trace: RouteTrace) -> bool {
    let r = trace.iterations@;
    &&& 0 < r.len() <= 60
    &&& forall|k: int|
        0 <= k < r.len() ==> (#[trigger] r[k]).iter == k && r[k].pfac == k + 1 && (
        r[k].any_overuse <==> r[k].overused_cells@.len() > 0)
    &&& forall|k: int| 0 <= k < r.len() - 1 ==> (#[trigger] r[k]).any_overuse
    &&& !r[r.len() - 1].any_overuse || r.len() == 60
}

/// The record tells of the orders that were tried: the one that was chosen is among them, and
/// none has more nets, or as many for less.
pub open spec fn tells_orders(trace: RouteTrace) -> bool {
    trace.legalization matches Some(l) && exists|x: int|
        {
            &&& 0 <= x < l.candidates@.len()
            &&& (#[trigger] l.candidates@[x]).order@ == l.chosen_order@
            &&& forall|y: int|
                0 <= y < l.candidates@.len() ==> (#[trigger] l.candidates@[y]).routed
                    < l.candidates@[x].routed || l.candidates@[y].routed == l.candidates@[x].routed
                    && l.candidates@[y].total_cost >= l.candidates@[x].total_cost
        }
}

/// A record tells how a board was routed: its nets, its rounds, the orders that were tried,
/// and the routes that it ends with.
pub proof fn law_records_tell_the_route(
    router: &NegotiatedRouter,
    grid: &Grid,
    nets: Seq<NetEndpoints>,
    batch: Option<Paths>,
    trace: RouteTrace,
)
    requires
        nets.len() <= usize::MAX,
        router.answer(grid, nets, batch) is Ok,
        router.explains(grid, nets, batch, trace),
    ensures
        trace.dims == grid.dims,
        tells_nets(trace, nets, crate::groups::groups_of(nets)),
        tells_rounds(trace),
        tells_orders(trace),
        trace.legalization matches Some(l) && reports(
            grid,
            nets,
            crate::groups::groups_of(nets),
            crate::halo::committed_view(l.committed@),
            router.answer(grid, nets, batch)->Ok_0.board,
        ),
{
    let t = router.task_of(grid, nets);
    let groups = crate::groups::groups_of(nets);
    let alone = crate::negotiated::lone(t, batch);
    let parallel = crate::negotiated::is_parallel(t) && !crate::negotiated::keeps_serial(t, alone);
    let states = crate::negotiate::rounds(
        t,
        groups,
        parallel,
        crate::negotiate::nego_start(t),
        0,
    );
    crate::board_laws::lemma_task(router, grid, nets);
    crate::groups::law_nets_are_grouped(nets);
    crate::board_laws::lemma_variant_reports(t, alone, parallel);
    crate::nego_laws::law_negotiation_goes_on(t, groups, parallel);
    let r = trace.iterations@;
    assert forall|k: int| 0 <= k < r.len() implies (#[trigger] r[k]).iter == k && r[k].pfac == k
        + 1 && (r[k].any_overuse <==> r[k].overused_cells@.len() > 0) by {
        assert(crate::negotiate::shows(r[k], states[k], k));
    }
    assert forall|k: int| 0 <= k < r.len() - 1 implies (#[trigger] r[k]).any_overuse by {
        assert(crate::negotiate::shows(r[k], states[k], k));
        assert(states[k].over.len() > 0);
    }
    assert(crate::negotiate::shows(r[r.len() - 1], states[r.len() - 1], r.len() - 1));
    let paths = crate::negotiate::negotiated_paths(t, groups, parallel);
    let orders = crate::orders::candidates(crate::variant::group_keys(t, groups, alone));
    let scores = crate::variant::scores_of(t, groups, paths, orders);
    let l = trace.legalization->0;
    let x = crate::scoring::winner(scores, orders.len());
    crate::scoring::law_winner_is_best(scores, orders.len(), 0);
    assert(crate::variant::shows_score(l.candidates@[x], scores[x]));
    assert(l.candidates@[x].order@ == l.chosen_order@);
    assert forall|y: int| 0 <= y < l.candidates@.len() implies (#[trigger] l.candidates@[y]).routed
        < l.candidates@[x].routed || l.candidates@[y].routed == l.candidates@[x].routed
        && l.candidates@[y].total_cost >= l.candidates@[x].total_cost by {
        assert(crate::variant::shows_score(l.candidates@[y], scores[y]));
        crate::scoring::law_winner_is_best(scores, orders.len(), y);
        crate::score_laws::law_results_compare(scores[y], scores[x]);
    }
    assert forall|i: int| 0 <= i < nets.len() implies {
        let e = #[trigger] trace.nets@[i];
        &&& e.net@ == nets[i].net@
        &&& e.src == nets[i].src
        &&& e.dst == nets[i].dst
        &&& e.group == groups[i] as u32
    } by {
        assert(crate::negotiated::shows_net(trace.nets@[i], nets[i], groups[i], alone[i]));
    }
}

/// The steps between lines, added up: what a straight run costs is what its gaps cost, from
/// whichever end, and a run in two parts costs what the parts cost.
pub proof fn law_runs_add_up(gaps: Seq<u32>, i: int, j: int, k: int)
    requires
        0 <= i <= j <= k,
    ensures
        crate::geometry::leg(gaps, i, i + 1) == crate::board_laws::gap_after(gaps, i),
        crate::geometry::leg(gaps, i, i) == 0,
        crate::geometry::leg(gaps, i, k) == crate::geometry::leg(gaps, i, j)
            + crate::geometry::leg(gaps, j, k),
        crate::geometry::leg(gaps, k, i) == crate::geometry::leg(gaps, i, k),
{
    assert(crate::geometry::gap_sum(gaps, (i + 1) as nat) == crate::geometry::gap_sum(
        gaps,
        i as nat,
    ) + crate::geometry::gap(gaps, i) as nat);
}

} // verus!
