//! What is handed to a provider of routes, which of its routes are taken, and how results are
//! counted and compared.
use vstd::prelude::*;

use crate::board::CellIdx;
use crate::board_laws::{may_dive, may_join, may_lie, routed, Paths};
use crate::grid::Grid;
use crate::halo::{Claim, Claims};
use crate::net::NetEndpoints;
use crate::scoring::Score;
use crate::via::ViaModel;

verus! {

/// The route of a net that a provider may give: from end to end over different cells where its
/// copper can lie, each beside the one before it or on the next layer where the net may
/// change layers.
pub open spec fn is_good_route(
    grid: &Grid,
    net: NetEndpoints,
    model: ViaModel,
    p: Seq<CellIdx>,
) -> bool {
    &&& p.len() > 0
    &&& p[0] == net.src
    &&& p[p.len() - 1] == net.dst
    &&& forall|k: int|
        0 <= k < p.len() ==> (#[trigger] p[k]) < grid.dims.w * grid.dims.h * grid.dims.layers
            && may_lie(grid, net, p[k])
    &&& forall|j: int, k: int| 0 <= j < k < p.len() ==> #[trigger] p[j] != #[trigger] p[k]
    &&& forall|k: int| 0 < k < p.len() ==> #[trigger] moves_on(grid, net, model, p, k)
}

/// The net may go to the cell at place `k` from the one before it.
pub open spec fn moves_on(
    grid: &Grid,
    net: NetEndpoints,
    model: ViaModel,
    p: Seq<CellIdx>,
    k: int,
) -> bool {
    crate::ways::is_beside(grid.dims, p[k - 1], p[k]) || may_dive(
        grid,
        net,
        model,
        p[k - 1],
        p[k],
    )
}

proof fn lemma_moves_on(
    grid: &Grid,
    net: NetEndpoints,
    model: ViaModel,
    u: CellIdx,
    v: CellIdx,
)
    requires
        grid.well_formed(),
    ensures
        crate::provider::may_step(grid, &net, &model, u, v) <==> crate::ways::is_beside(
            grid.dims,
            u,
            v,
        ) || may_dive(grid, net, model, u, v),
{
    let d = grid.dims;
    crate::ways::law_neighbours_are_beside(d, u, v);
    crate::lone_laws::lemma_listed(net.via_passable_pads@, u);
    crate::lone_laws::lemma_listed(net.via_passable_pads@, v);
    crate::ways::law_neighbours_are_under(d, u, v, d.layer(u), d.layer(v));
    if may_dive(grid, net, model, u, v) {
        let (a, b) = choose|a: int, b: int| #[trigger]
            crate::ways::is_under(d, u, v, a, b) && may_join(model, a, b);
        crate::ways::law_neighbours_are_under(d, u, v, a, b);
        crate::board_laws::lemma_may_join(model, a, b);
    }
    if d.via_adjacent(u, v) {
        crate::board_laws::lemma_may_join(model, d.layer(u), d.layer(v));
        if crate::provider::may_step(grid, &net, &model, u, v) && !d.planar_adjacent(u, v) {
            assert(crate::ways::is_under(d, u, v, d.layer(u), d.layer(v)));
        }
    }
}

/// What a provider gives is taken exactly where there is an entry for each net and every
/// route is a good one.
pub proof fn law_good_routes_are_taken(
    grid: &Grid,
    nets: Seq<NetEndpoints>,
    model: ViaModel,
    batch: Paths,
)
    requires
        grid.well_formed(),
    ensures
        crate::provider::batch_is_valid(grid, nets, &model, batch) <==> batch.len() == nets.len()
            && forall|i: int|
            0 <= i < nets.len() ==> (#[trigger] batch[i] matches Some(p) ==> is_good_route(
                grid,
                nets[i],
                model,
                p,
            )),
{
    assert forall|i: int, p: Seq<CellIdx>| #[trigger] is_good_route(
        grid,
        nets[i],
        model,
        p,
    ) <==> crate::provider::valid_path(grid, &nets[i], &model, p) by {
        lemma_good(grid, nets[i], model, p);
    }
    if batch.len() == nets.len() {
        assert forall|i: int| 0 <= i < nets.len() implies ((#[trigger] batch[i] matches Some(p)
            ==> is_good_route(grid, nets[i], model, p)) <==> (batch[i] matches Some(p)
            ==> crate::provider::valid_path(grid, &nets[i], &model, p))) by {
            if let Some(p) = batch[i] {
                lemma_good(grid, nets[i], model, p);
            }
        }
    }
}

proof fn lemma_good(grid: &Grid, net: NetEndpoints, model: ViaModel, p: Seq<CellIdx>)
    requires
        grid.well_formed(),
    ensures
        is_good_route(grid, net, model, p) <==> crate::provider::valid_path(
            grid,
            &net,
            &model,
            p,
        ),
{
    assert forall|k: int| 0 <= k < p.len() implies may_lie(grid, net, #[trigger] p[k]) == (
    grid.obstacle(p[k]) ==> net.passable_pads@.contains(p[k])) by {
        crate::lone_laws::lemma_listed(net.passable_pads@, p[k]);
    }
    assert forall|k: int| 0 < k < p.len() implies #[trigger] moves_on(grid, net, model, p, k)
        == crate::provider::goes(grid, &net, &model, p, k) by {
        lemma_moves_on(grid, net, model, p[k - 1], p[k]);
    }
    if is_good_route(grid, net, model, p) {
        assert forall|k: int| 0 <= k < p.len() implies grid.dims.has(#[trigger] p[k]) && (
        grid.obstacle(p[k]) ==> net.passable_pads@.contains(p[k])) by {
            assert(may_lie(grid, net, p[k]));
        }
        assert forall|k: int| 0 < k < p.len() implies #[trigger] crate::provider::goes(
            grid,
            &net,
            &model,
            p,
            k,
        ) by {
            assert(moves_on(grid, net, model, p, k));
        }
        assert forall|j: int, k: int| 0 <= j < k < p.len() implies p[j] != p[k] by {}
    }
    if crate::provider::valid_path(grid, &net, &model, p) {
        assert forall|k: int| 0 <= k < p.len() implies (#[trigger] p[k]) < grid.dims.w
            * grid.dims.h * grid.dims.layers && may_lie(grid, net, p[k]) by {
            assert(grid.dims.has(p[k]));
        }
        assert forall|k: int| 0 < k < p.len() implies #[trigger] moves_on(
            grid,
            net,
            model,
            p,
            k,
        ) by {
            assert(crate::provider::goes(grid, &net, &model, p, k));
        }
    }
}

/// A provider is told of each layer what the step to the next costs, where vias may make it.
pub proof fn law_via_prices_are_told(model: ViaModel, layers: u32, k: int)
    requires
        0 <= k < layers - 1,
    ensures
        crate::provider::via_edges(model, layers).len() == layers - 1,
        crate::provider::via_edges(model, layers)[k] == if may_join(model, k, k + 1) {
            Some(model.step_cost)
        } else {
            None
        },
{
    crate::board_laws::lemma_may_join(model, k, k + 1);
}

/// Nets with a path are counted.
pub proof fn law_routed_nets_are_counted(end: Paths, n: nat)
    requires
        n <= end.len(),
    ensures
        crate::scoring::routed_in(end, n) == crate::tally::how_many(routed(end), n),
    decreases n,
{
    if n > 0 {
        law_routed_nets_are_counted(end, (n - 1) as nat);
    }
}

/// The order comes first: at the first place where they differ it has the lower number, or it
/// ends there.
pub open spec fn comes_first(a: Seq<usize>, b: Seq<usize>) -> bool {
    exists|k: int|
        {
            &&& 0 <= k <= a.len()
            &&& k < b.len()
            &&& #[trigger] a.take(k) == b.take(k)
            &&& k == a.len() || a[k] < b[k]
        }
}

/// A result is better than another where it has more nets, or as many that cost less, or as
/// many that cost the same by an order that comes first.
pub proof fn law_results_compare(a: Score, b: Score)
    ensures
        crate::scoring::outdoes(a, b) <==> if a.routed != b.routed {
            a.routed > b.routed
        } else if a.cost != b.cost {
            a.cost < b.cost
        } else {
            comes_first(a.order, b.order)
        },
{
    let (x, y) = (a.order, b.order);
    if crate::orders::lex_less(x, y) {
        let k = choose|k: int| #[trigger] crate::orders::differs(x, y, k);
        assert(x.take(k) =~= y.take(k));
    }
    if comes_first(x, y) {
        let k = choose|k: int|
            {
                &&& 0 <= k <= x.len()
                &&& k < y.len()
                &&& #[trigger] x.take(k) == y.take(k)
                &&& k == x.len() || x[k] < y[k]
            };
        assert forall|j: int| 0 <= j < k implies x[j] == y[j] by {
            assert(x.take(k)[j] == y.take(k)[j]);
        }
        assert(crate::orders::differs(x, y, k));
    }
}

/// Where there are few groups every order of them is tried.
pub proof fn law_few_groups_try_every_order(keys: Seq<u32>, q: Seq<usize>)
    requires
        keys.len() <= 5,
        q.len() == keys.len(),
        forall|k: int| 0 <= k < q.len() ==> (#[trigger] q[k]) < keys.len(),
        forall|j: int, k: int| 0 <= j < k < q.len() ==> #[trigger] q[j] != #[trigger] q[k],
    ensures
        crate::orders::candidates(keys).contains(q),
{
    let base = crate::orders::counting(keys.len());
    assert forall|k: int| 0 <= k < q.len() implies base.contains(#[trigger] q[k]) by {
        assert(base[q[k] as int] == q[k]);
    }
    assert(crate::orders::arranges(base, q));
    crate::orders::law_orders_are_complete(base, q);
    let all = crate::orders::all_orders(base);
    let x = choose|x: int| 0 <= x < all.len() && all[x] == q;
    assert(crate::orders::candidates(keys)[3 + x] == q);
}

/// The group's copper is on the path, and it is not group `g`.
pub open spec fn is_in_the_way(
    claims: Claims,
    path: Seq<CellIdx>,
    g: usize,
    n: int,
    h: usize,
) -> bool {
    h != g && exists|k: int|
        0 <= k < n && claims.owner[(#[trigger] path[k]) as int] == Claim::Group(h)
}

proof fn lemma_cheaper_chain(
    groups: Seq<usize>,
    committed: Paths,
    a: usize,
    b: usize,
    c: usize,
)
    ensures
        crate::rescue::cheaper(groups, committed, a, b) && !crate::rescue::cheaper(
            groups,
            committed,
            c,
            b,
        ) ==> !crate::rescue::cheaper(groups, committed, c, a),
        !crate::rescue::cheaper(groups, committed, a, a),
{
}

/// A stranded net has the cheapest of the groups taken up whose copper is where it would go
/// alone; none where there is no such group.
pub proof fn law_cheapest_group_gives_way(
    groups: Seq<usize>,
    committed: Paths,
    claims: Claims,
    g: usize,
    path: Seq<CellIdx>,
    n: nat,
)
    requires
        n <= path.len(),
    ensures
        match crate::rescue::victim(groups, committed, claims, g, path, n) {
            Some(v) => is_in_the_way(claims, path, g, n as int, v) && forall|h: usize| #[trigger]
                is_in_the_way(claims, path, g, n as int, h) ==> !crate::rescue::cheaper(
                    groups,
                    committed,
                    h,
                    v,
                ),
            None => forall|h: usize| !(#[trigger] is_in_the_way(claims, path, g, n as int, h)),
        },
    decreases n,
{
    if n > 0 {
        let n1 = (n - 1) as nat;
        law_cheapest_group_gives_way(groups, committed, claims, g, path, n1);
        let rest = crate::rescue::victim(groups, committed, claims, g, path, n1);
        let last = claims.owner[path[n - 1] as int];
        assert forall|h: usize| #[trigger]
            is_in_the_way(claims, path, g, n as int, h) <==> is_in_the_way(
                claims,
                path,
                g,
                n1 as int,
                h,
            ) || h != g && last == Claim::Group(h) by {
            if is_in_the_way(claims, path, g, n as int, h) {
                let k = choose|k: int|
                    0 <= k < n && claims.owner[(#[trigger] path[k]) as int] == Claim::Group(h);
                assert(k < n1 || k == n - 1);
            }
            if is_in_the_way(claims, path, g, n1 as int, h) {
                let k = choose|k: int|
                    0 <= k < n1 && claims.owner[(#[trigger] path[k]) as int] == Claim::Group(h);
                assert(claims.owner[path[k] as int] == Claim::Group(h));
            }
            if h != g && last == Claim::Group(h) {
                assert(claims.owner[path[n - 1] as int] == Claim::Group(h));
            }
        }
        if let Claim::Group(h) = last {
            if h != g {
                match rest {
                    Some(b) => {
                        assert forall|c: usize| #[trigger]
                            is_in_the_way(
                                claims,
                                path,
                                g,
                                n1 as int,
                                c,
                            ) && crate::rescue::cheaper(
                                groups,
                                committed,
                                h,
                                b,
                            ) implies !crate::rescue::cheaper(groups, committed, c, h) by {
                            lemma_cheaper_chain(groups, committed, h, b, c);
                        }
                        lemma_cheaper_chain(groups, committed, h, b, h);
                    },
                    None => {
                        lemma_cheaper_chain(groups, committed, h, h, h);
                    },
                }
            }
        }
    }
}

/// What is routed in the end is what the best of the orders routes, and where that leaves nets
/// out, what a rescue comes to that routes more. No order that is tried is better than the
/// best.
pub proof fn law_best_order_is_kept(
    t: crate::task::Task,
    groups: Seq<usize>,
    alone: Seq<Seq<CellIdx>>,
    parallel: bool,
    x: int,
)
    requires
        0 <= x < crate::orders::candidates(crate::variant::group_keys(t, groups, alone)).len(),
    ensures
        ({
            let paths = crate::negotiate::negotiated_paths(t, groups, parallel);
            let orders = crate::orders::candidates(crate::variant::group_keys(t, groups, alone));
            let order = crate::variant::best_order(t, groups, alone, parallel);
            let best = crate::legalize::legalized(t, groups, paths, order);
            let tried = crate::legalize::legalized(t, groups, paths, orders[x]);
            let rip = crate::rescue::rescued(
                t,
                groups,
                alone,
                crate::rescue::rescue_start(t, groups, order, best),
            );
            let n = crate::tally::how_many(routed(best), best.len());
            let m = crate::tally::how_many(routed(tried), tried.len());
            let k = crate::tally::how_many(routed(rip), rip.len());
            &&& orders.contains(order)
            &&& m < n || m == n && crate::scoring::total_of(&t.grid, t.nets, best)
                <= crate::scoring::total_of(&t.grid, t.nets, tried)
            &&& crate::variant::variant(t, groups, alone, parallel) == if n < t.nets.len() && k
                > n {
                rip
            } else {
                best
            }
        }),
{
    let paths = crate::negotiate::negotiated_paths(t, groups, parallel);
    let orders = crate::orders::candidates(crate::variant::group_keys(t, groups, alone));
    let scores = crate::variant::scores_of(t, groups, paths, orders);
    let w = crate::scoring::winner(scores, orders.len());
    let order = crate::variant::best_order(t, groups, alone, parallel);
    crate::scoring::law_winner_is_best(scores, orders.len(), x);
    law_results_compare(scores[x], scores[w]);
    assert(orders[w] == order);
    let best = crate::legalize::legalized(t, groups, paths, order);
    let tried = crate::legalize::legalized(t, groups, paths, orders[x]);
    let rip = crate::rescue::rescued(
        t,
        groups,
        alone,
        crate::rescue::rescue_start(t, groups, order, best),
    );
    law_routed_nets_are_counted(best, best.len());
    law_routed_nets_are_counted(tried, tried.len());
    law_routed_nets_are_counted(rip, rip.len());
}

/// What the first nets cost together on the grid, each up to the largest cost.
pub open spec fn costs(grid: &Grid, nets: Seq<NetEndpoints>, end: Paths, n: nat) -> nat
    decreases n,
{
    if n == 0 {
        0
    } else {
        costs(grid, nets, end, (n - 1) as nat) + match end[n - 1] {
            Some(p) => crate::board_laws::stopped(crate::board_laws::tolls(grid, p)),
            None => 0,
        }
    }
}

/// What a path costs is what its cells cost, as far as the net may lie on them.
pub proof fn lemma_toll(grid: &Grid, net: NetEndpoints, p: Seq<CellIdx>, k: nat)
    requires
        k <= p.len(),
        forall|j: int| 0 <= j < p.len() ==> may_lie(grid, net, #[trigger] p[j]),
    ensures
        crate::scoring::toll(grid, &net, p, k) == crate::board_laws::tolls(grid, p.take(k as int)),
    decreases k,
{
    if k > 1 {
        lemma_toll(grid, net, p, (k - 1) as nat);
        assert(p.take(k as int).take(k - 1) =~= p.take(k - 1));
        crate::lone_laws::lemma_listed(net.passable_pads@, p[k - 1]);
        assert(may_lie(grid, net, p[k - 1]));
    }
}

/// Results cost what the cells of their paths cost, but for the first of each.
pub proof fn law_costs_are_added_up(grid: &Grid, nets: Seq<NetEndpoints>, end: Paths, n: nat)
    requires
        n <= end.len(),
        n <= nets.len(),
        forall|i: int, j: int|
            0 <= i < end.len() && end[i] is Some && 0 <= j < (end[i]->0).len() ==> may_lie(
                grid,
                nets[i],
                #[trigger] (end[i]->0)[j],
            ),
    ensures
        crate::scoring::cost_of(grid, nets, end, n) == costs(grid, nets, end, n),
        n == end.len() && costs(grid, nets, end, n) <= u64::MAX ==> crate::scoring::total_of(
            grid,
            nets,
            end,
        ) == costs(grid, nets, end, n),
    decreases n,
{
    if n > 0 {
        law_costs_are_added_up(grid, nets, end, (n - 1) as nat);
        if let Some(p) = end[n - 1] {
            assert forall|j: int| 0 <= j < p.len() implies may_lie(
                grid,
                nets[n - 1],
                #[trigger] p[j],
            ) by {
                assert(may_lie(grid, nets[n - 1], (end[n - 1]->0)[j]));
            }
            lemma_toll(grid, nets[n - 1], p, p.len());
            assert(p.take(p.len() as int) =~= p);
        }
    }
}

/// A provider is asked about the board as it is: the grid, each net with its ends, its pads and
/// its exemptions in rising order, the window of each net, and what each gap costs.
pub proof fn law_providers_are_asked_about_the_board(
    t: crate::task::Task,
    request: crate::provider::IsolatedRouteRequest<'_>,
    i: int,
    c: CellIdx,
    k: int,
)
    requires
        crate::provider::asks(t, request),
        0 <= i < t.nets.len(),
        0 <= k,
    ensures
        *request.grid == t.grid,
        request.nets@.len() == t.nets.len(),
        request.nets@[i].net@ == t.nets[i].net@,
        request.nets@[i].src == t.nets[i].src,
        request.nets@[i].dst == t.nets[i].dst,
        request.nets@[i].passable_pads@ == t.nets[i].passable_pads@,
        crate::lone_laws::is_listed(request.nets@[i].via_passable_pads@, c)
            <==> crate::lone_laws::is_listed(t.nets[i].via_passable_pads@, c),
        request.windows@[i] == t.window(i),
        k < t.dims().w - 1 ==> request.x_edge_costs@[k] == crate::board_laws::gap_after(
            t.geo.x_gaps,
            k,
        ),
        k < t.dims().h - 1 ==> request.y_edge_costs@[k] == crate::board_laws::gap_after(
            t.geo.y_gaps,
            k,
        ),
        k < t.dims().layers - 1 ==> request.via_edge_costs@[k] == if may_join(t.via, k, k + 1) {
            Some(t.via.step_cost)
        } else {
            None
        },
{
    assert(crate::provider::normal_of(t.nets[i], request.nets@[i]));
    crate::lone_laws::lemma_listed(request.nets@[i].via_passable_pads@, c);
    crate::lone_laws::lemma_listed(t.nets[i].via_passable_pads@, c);
    if k < t.dims().layers - 1 {
        law_via_prices_are_told(t.via, t.dims().layers, k);
    }
}

} // verus!
