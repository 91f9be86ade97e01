//! What the negotiating router is for: which moves its nets have, which of them it routes,
//! and what it reports.
use vstd::prelude::*;

use crate::board::{CellIdx, Dims};
use crate::geometry::IsolatedRouteWindow;
use crate::grid::Grid;
use crate::lone_laws::{is_complete, is_listed};
use crate::negotiated::{NegotiatedRouter, OutcomeView};
use crate::net::{BoardView, FaultView, NetEndpoints};
use crate::task::Task;
use crate::via::ViaModel;
use crate::ways::Moves;

verus! {

/// A via may join layers `a` and `b`: both are layers of the model, and the model allows
/// every step or lists this one, in either direction.
pub open spec fn may_join(via: ViaModel, a: int, b: int) -> bool {
    &&& 0 <= a < via.layers
    &&& 0 <= b < via.layers
    &&& via.allowed matches Some(steps) ==> exists|k: int|
        0 <= k < steps@.len() && (#[trigger] steps@[k] == (a as u32, b as u32) || steps@[k] == (
            b as u32,
            a as u32,
        ))
}

/// The net may drill at `c`: no via is forbidden there, or the net is exempt.
pub open spec fn may_drill(grid: &Grid, net: NetEndpoints, c: CellIdx) -> bool {
    grid.via_forbidden@.len() == 0 || !grid.via_forbidden@[c as int] || is_listed(
        net.via_passable_pads@,
        c,
    )
}

/// Copper of the net can be at `c`: the cell is no obstacle, or one of its pads.
pub open spec fn may_lie(grid: &Grid, net: NetEndpoints, c: CellIdx) -> bool {
    grid.cost@[c as int] != u32::MAX || is_listed(net.passable_pads@, c)
}

/// The net may change layers from `u` to `v`.
pub open spec fn may_dive(
    grid: &Grid,
    net: NetEndpoints,
    via: ViaModel,
    u: CellIdx,
    v: CellIdx,
) -> bool {
    &&& exists|a: int, b: int| #[trigger]
        crate::ways::is_under(grid.dims, u, v, a, b) && may_join(via, a, b)
    &&& may_drill(grid, net, u)
    &&& may_drill(grid, net, v)
}

/// How heavily a cell weighs: as the grid says, and one where it is a pad on an obstacle.
pub open spec fn heft(grid: &Grid, c: CellIdx) -> nat {
    if grid.cost@[c as int] == u32::MAX {
        1
    } else {
        grid.cost@[c as int] as nat
    }
}

/// How long the gap after line `k` is; sixteen where nothing is said.
pub open spec fn gap_after(gaps: Seq<u32>, k: int) -> nat {
    if k < gaps.len() {
        gaps[k] as nat
    } else {
        16
    }
}

/// How long the way from a cell to one beside it is.
pub open spec fn length(d: Dims, x_gaps: Seq<u32>, y_gaps: Seq<u32>, u: CellIdx, v: CellIdx) -> nat {
    if d.row(u) == d.row(v) {
        gap_after(
            x_gaps,
            if d.col(u) < d.col(v) {
                d.col(u)
            } else {
                d.col(v)
            },
        )
    } else {
        gap_after(
            y_gaps,
            if d.row(u) < d.row(v) {
                d.row(u)
            } else {
                d.row(v)
            },
        )
    }
}

/// A cost that stays below that of an obstacle.
pub open spec fn capped(x: nat) -> nat {
    if x < u32::MAX {
        x
    } else {
        (u32::MAX - 1) as nat
    }
}

/// The moves of a net over the layers of a board that it has to itself.
pub open spec fn layer_moves(
    grid: &Grid,
    net: NetEndpoints,
    via: ViaModel,
    x_gaps: Seq<u32>,
    y_gaps: Seq<u32>,
) -> Moves {
    Moves {
        can: |u: CellIdx, v: CellIdx|
            may_lie(grid, net, v) && (crate::ways::is_beside(grid.dims, u, v) || may_dive(
                grid,
                net,
                via,
                u,
                v,
            )),
        fee: |u: CellIdx, v: CellIdx|
            if crate::ways::is_beside(grid.dims, u, v) {
                capped(length(grid.dims, x_gaps, y_gaps, u, v) * heft(grid, v))
            } else {
                capped(via.step_cost as nat * heft(grid, v))
            },
    }
}

/// The moves of net `i` of a task.
pub open spec fn task_moves(t: Task, i: int) -> Moves {
    layer_moves(&t.grid, t.nets[i], t.via, t.geo.x_gaps, t.geo.y_gaps)
}

/// A via may join neighbouring layers exactly where the model lets it.
pub proof fn lemma_may_join(model: ViaModel, a: int, b: int)
    requires
        a == b + 1 || b == a + 1,
    ensures
        model.legal(a, b) <==> may_join(model, a, b),
{
    if let Some(steps) = model.allowed {
        let (p, q) = ((a as u32, b as u32), (b as u32, a as u32));
        if steps@.contains(p) {
            let k = choose|k: int| 0 <= k < steps@.len() && steps@[k] == p;
            assert(steps@[k] == p);
        }
        if steps@.contains(q) {
            let k = choose|k: int| 0 <= k < steps@.len() && steps@[k] == q;
            assert(steps@[k] == q);
        }
        if exists|k: int| 0 <= k < steps@.len() && (#[trigger] steps@[k] == p || steps@[k] == q) {
            let k = choose|k: int|
                0 <= k < steps@.len() && (#[trigger] steps@[k] == p || steps@[k] == q);
            assert(steps@.contains(steps@[k]));
        }
    }
}

/// A net may change layers exactly where a via may be drilled for it.
proof fn lemma_dives(t: Task, i: int, u: CellIdx, v: CellIdx)
    requires
        t.wf(),
    ensures
        may_dive(&t.grid, t.nets[i], t.via, u, v) <==> t.dims().via_adjacent(u, v) && t.drills(
            i,
            u,
            v,
        ),
{
    let d = t.dims();
    let net = t.nets[i];
    crate::lone_laws::lemma_listed(net.via_passable_pads@, u);
    crate::lone_laws::lemma_listed(net.via_passable_pads@, v);
    crate::ways::law_neighbours_are_under(d, u, v, d.layer(u), d.layer(v));
    if may_dive(&t.grid, net, t.via, u, v) {
        let (a, b) = choose|a: int, b: int| #[trigger]
            crate::ways::is_under(d, u, v, a, b) && may_join(t.via, a, b);
        crate::ways::law_neighbours_are_under(d, u, v, a, b);
        lemma_may_join(t.via, a, b);
    }
    if d.via_adjacent(u, v) && t.drills(i, u, v) {
        lemma_may_join(t.via, d.layer(u), d.layer(v));
        assert(crate::ways::is_under(d, u, v, d.layer(u), d.layer(v)));
    }
}

/// A net may take exactly the steps that have a price before anything is added, into the
/// cells that do not bar it.
pub proof fn lemma_steps(t: Task, i: int, u: CellIdx, v: CellIdx)
    requires
        t.wf(),
        0 <= i < t.nets.len(),
    ensures
        (task_moves(t, i).can)(u, v) <==> !t.bars(i, v) && t.base_price(i, u, v) is Some,
        !t.bars(i, v) ==> (t.base_price(i, u, v) matches Some(x) ==> (task_moves(t, i).fee)(u, v)
            == crate::task::passable(x)),
{
    crate::ways::law_neighbours_are_beside(t.dims(), u, v);
    crate::lone_laws::lemma_listed(t.nets[i].passable_pads@, v);
    lemma_dives(t, i, u, v);
    if t.base_price(i, u, v) is Some && !t.bars(i, v) {
        let d = t.dims();
        crate::ways::law_cells_have_places(d, u);
        crate::ways::law_cells_have_places(d, v);
        d.lemma_coords(u);
        d.lemma_coords(v);
        assert(t.weight(i, v) == heft(&t.grid, v));
        if d.planar_adjacent(u, v) {
            assert(t.step_gap(u, v) == length(d, t.geo.x_gaps, t.geo.y_gaps, u, v));
            assert(t.step_gap(u, v) * t.weight(i, v) >= 0) by (nonlinear_arith);
        } else {
            assert(t.via.step_cost * t.weight(i, v) >= 0) by (nonlinear_arith);
        }
    }
}

/// What a step costs before anything is added.
pub proof fn lemma_bare(t: Task, i: int, u: CellIdx, v: CellIdx)
    requires
        t.wf(),
        0 <= i < t.nets.len(),
    ensures
        !t.bars(i, v) ==> (t.base_price(i, u, v) matches Some(x) ==> x == if crate::ways::is_beside(
            t.dims(),
            u,
            v,
        ) {
            length(t.dims(), t.geo.x_gaps, t.geo.y_gaps, u, v) * heft(&t.grid, v)
        } else {
            t.via.step_cost as nat * heft(&t.grid, v)
        }),
{
    crate::ways::law_neighbours_are_beside(t.dims(), u, v);
    crate::lone_laws::lemma_listed(t.nets[i].passable_pads@, v);
    if t.base_price(i, u, v) is Some && !t.bars(i, v) {
        let d = t.dims();
        crate::ways::law_cells_have_places(d, u);
        crate::ways::law_cells_have_places(d, v);
        d.lemma_coords(u);
        d.lemma_coords(v);
        assert(t.weight(i, v) == heft(&t.grid, v));
        if d.planar_adjacent(u, v) {
            assert(t.step_gap(u, v) == length(d, t.geo.x_gaps, t.geo.y_gaps, u, v));
            assert(t.step_gap(u, v) * t.weight(i, v) >= 0) by (nonlinear_arith);
        } else {
            assert(t.via.step_cost * t.weight(i, v) >= 0) by (nonlinear_arith);
        }
    }
}

/// The steps of a net that has the board to itself.
proof fn lemma_alone_steps(t: Task, i: int, g: usize)
    requires
        t.wf(),
        0 <= i < t.nets.len(),
    ensures
        task_moves(t, i).are_steps(
            crate::legal::legal_graph(
                t,
                i,
                g,
                IsolatedRouteWindow::whole(t.dims()),
                crate::halo::unclaimed(t.dims().cells() as nat),
            ),
            u32::MAX as nat,
        ),
        !crate::legal::legal_shut(
            t,
            i,
            g,
            IsolatedRouteWindow::whole(t.dims()),
            crate::halo::unclaimed(t.dims().cells() as nat),
            t.nets[i].src,
        ),
{
    let none = crate::halo::unclaimed(t.dims().cells() as nat);
    let whole = IsolatedRouteWindow::whole(t.dims());
    let graph = crate::legal::legal_graph(t, i, g, whole, none);
    let m = task_moves(t, i);
    assert(t.net_fits(i));
    t.dims().lemma_coords(t.nets[i].src);
    assert forall|u: CellIdx, v: CellIdx|
        #![trigger (m.can)(u, v)]
        #![trigger graph.joins(u, v)]
        ((m.can)(u, v) <==> graph.joins(u, v) && graph.price(u, v) < u32::MAX as nat) && ((m.can)(
            u,
            v,
        ) ==> (m.fee)(u, v) == graph.price(u, v)) by {
        lemma_steps(t, i, u, v);
        if t.dims().has(v) {
            t.dims().lemma_coords(v);
            assert(!crate::legal::contested(none, g, v));
            assert(!none.owner[v as int].foreign(g));
        }
        assert forall|s: CellIdx| !(#[trigger] crate::legal::ring_conflict(t, g, none, s)) by {
            if crate::legal::ring_conflict(t, g, none, s) {
                let c = choose|c: CellIdx| #[trigger]
                    t.geo.keepout.covers(t.dims(), s, c) && crate::legal::contested(none, g, c);
                assert(t.dims().has(c));
            }
        }
    }
}

/// Net `i` has a way with the board to itself.
pub open spec fn has_way(t: Task, i: int) -> bool {
    task_moves(t, i).reach(t.nets[i].src, t.nets[i].dst, u32::MAX as nat)
}

/// A net that has the board to itself is routed exactly where it has a way over cells
/// where its copper can lie, on its layers and from layer to layer wherever the via model
/// lets it.
pub proof fn law_alone_is_any_way(t: Task, i: int, g: usize)
    requires
        t.wf(),
        0 <= i < t.nets.len(),
    ensures
        crate::legal::legal_find(
            t,
            i,
            g,
            crate::halo::unclaimed(t.dims().cells() as nat),
            true,
        ) is Some <==> has_way(t, i),
{
    let none = crate::halo::unclaimed(t.dims().cells() as nat);
    let whole = IsolatedRouteWindow::whole(t.dims());
    let graph = crate::legal::legal_graph(t, i, g, whole, none);
    let m = task_moves(t, i);
    let (src, dst) = (t.nets[i].src, t.nets[i].dst);
    lemma_alone_steps(t, i, g);
    assert(t.net_fits(i));
    m.lemma_route_is_taken(graph, src, dst, u32::MAX as nat);
    let small = crate::legal::legal_graph(t, i, g, t.window(i), none);
    if crate::legal::legal_route(t, i, g, t.window(i), none) is Some {
        small.lemma_routable(src, dst, u32::MAX as nat);
        let p = (small.route(src, dst, u32::MAX as nat)->0).0;
        lemma_small_walk(t, i, g, p);
        assert(graph.connects(src, dst, p));
        graph.lemma_routable(src, dst, u32::MAX as nat);
    }
}

/// A walk in the window of a net is one on the whole board.
proof fn lemma_small_walk(t: Task, i: int, g: usize, p: Seq<CellIdx>)
    requires
        t.wf(),
        0 <= i < t.nets.len(),
        crate::legal::legal_graph(
            t,
            i,
            g,
            t.window(i),
            crate::halo::unclaimed(t.dims().cells() as nat),
        ).is_walk(p),
    ensures
        ({
            let none = crate::halo::unclaimed(t.dims().cells() as nat);
            let a = crate::legal::legal_graph(t, i, g, t.window(i), none);
            let b = crate::legal::legal_graph(t, i, g, IsolatedRouteWindow::whole(t.dims()), none);
            b.is_walk(p) && b.cost(p) == a.cost(p)
        }),
    decreases p.len(),
{
    let none = crate::halo::unclaimed(t.dims().cells() as nat);
    let a = crate::legal::legal_graph(t, i, g, t.window(i), none);
    let b = crate::legal::legal_graph(t, i, g, IsolatedRouteWindow::whole(t.dims()), none);
    let n = p.len() as int;
    assert forall|k: int| 0 < k < n implies #[trigger] b.steps(p, k) by {
        assert(a.steps(p, k));
        t.dims().lemma_coords(p[k]);
    }
    if n > 1 {
        a.lemma_take(p, n - 1);
        assert(p.take(n - 1) =~= p.drop_last());
        lemma_small_walk(t, i, g, p.drop_last());
        assert(a.steps(p, n - 1));
        assert(b.steps(p, n - 1));
    }
}

/// A path that leads a net is a way of that net.
proof fn lemma_walk_is_way(t: Task, i: int, p: Seq<CellIdx>)
    requires
        t.wf(),
        0 <= i < t.nets.len(),
        crate::task::own_walk(t, i, p),
    ensures
        task_moves(t, i).lead(t.nets[i].src, t.nets[i].dst, p),
{
    assert forall|k: int| 0 < k < p.len() implies #[trigger] task_moves(t, i).goes(p, k) by {
        lemma_steps(t, i, p[k - 1], p[k]);
        assert(crate::task::stride(t, i, p, k));
        assert(t.dims().has(p[k]) && !t.bars(i, p[k]));
    }
}

/// What the cells of a way cost on the grid, but for the first.
pub open spec fn tolls(grid: &Grid, q: Seq<CellIdx>) -> nat
    decreases q.len(),
{
    if q.len() < 2 {
        0
    } else {
        tolls(grid, q.take(q.len() - 1)) + heft(grid, q[q.len() - 1])
    }
}

proof fn lemma_tolls(t: Task, i: int, p: Seq<CellIdx>, k: nat)
    requires
        t.wf(),
        0 <= i < t.nets.len(),
        crate::task::own_walk(t, i, p),
        k <= p.len(),
    ensures
        crate::scoring::toll(&t.grid, &t.nets[i], p, k) == tolls(&t.grid, p.take(k as int)),
    decreases k,
{
    if k > 1 {
        lemma_tolls(t, i, p, (k - 1) as nat);
        assert(p.take(k as int).take(k - 1) =~= p.take(k - 1));
        assert(!t.bars(i, p[k - 1]));
    }
}

/// The paths that nets end up with.
pub type Paths = Seq<Option<Seq<CellIdx>>>;

/// The nets that have a path.
pub open spec fn routed(end: Paths) -> spec_fn(int) -> bool {
    |j: int| end[j] is Some
}

/// A sum that stops at the largest cost.
pub open spec fn stopped(x: nat) -> nat {
    if x < u32::MAX {
        x
    } else {
        u32::MAX as nat
    }
}

/// The board reports these paths, net by net, with their costs on the grid and the groups
/// of their nets.
pub open spec fn reports(
    grid: &Grid,
    nets: Seq<NetEndpoints>,
    groups: Seq<usize>,
    end: Paths,
    b: BoardView,
) -> bool {
    let done = routed(end);
    &&& end.len() == nets.len()
    &&& b.results.len() == crate::tally::how_many(done, nets.len())
    &&& b.groups.len() == b.results.len()
    &&& b.unrouted.len() == nets.len() - crate::tally::how_many(done, nets.len())
    &&& forall|i: int|
        0 <= i < nets.len() ==> ((#[trigger] end[i]) matches Some(p) ==> crate::tally::is_reported(
            b,
            nets[i].net@,
            done,
            i,
            p,
            stopped(tolls(grid, p)),
        ) && b.groups[crate::tally::how_many(done, i as nat) as int] == groups[i] as u32)
    &&& forall|i: int|
        0 <= i < nets.len() ==> ((#[trigger] end[i]) is None ==> crate::tally::is_missed(
            b,
            nets[i].net@,
            done,
            i,
        ))
    &&& crate::tally::tells_traffic(b, grid.cost@.len() as int)
}

proof fn lemma_groups_listed(groups: Seq<usize>, end: Paths, n: nat, i: int)
    requires
        n <= end.len(),
    ensures
        crate::negotiated::routed_groups(groups, end, n).len() == crate::tally::how_many(
            routed(end),
            n,
        ),
        0 <= i < n && end[i] is Some ==> ({
            let k = crate::tally::how_many(routed(end), i as nat) as int;
            k < crate::negotiated::routed_groups(groups, end, n).len()
                && crate::negotiated::routed_groups(groups, end, n)[k] == groups[i] as u32
        }),
    decreases n,
{
    if n > 0 {
        lemma_groups_listed(groups, end, (n - 1) as nat, i);
        if 0 <= i < n {
            crate::tally::lemma_how_many_grows(routed(end), i as nat, (n - 1) as nat);
        }
    }
}

/// What a variant reports is what its nets end up with, each with a way of its own.
pub proof fn lemma_variant_reports(t: Task, alone: Seq<Seq<CellIdx>>, parallel: bool)
    requires
        t.wf(),
        t.nets.len() <= usize::MAX,
    ensures
        ({
            let groups = crate::groups::groups_of(t.nets);
            let end = crate::variant::variant(t, groups, alone, parallel);
            &&& reports(
                &t.grid,
                t.nets,
                groups,
                end,
                crate::negotiated::variant_outcome(t, alone, parallel).board,
            )
            &&& forall|i: int|
                0 <= i < t.nets.len() ==> ((#[trigger] end[i]) matches Some(p) ==> task_moves(
                    t,
                    i,
                ).lead(t.nets[i].src, t.nets[i].dst, p))
        }),
{
    let groups = crate::groups::groups_of(t.nets);
    let end = crate::variant::variant(t, groups, alone, parallel);
    let b = crate::negotiated::variant_outcome(t, alone, parallel).board;
    let outs = crate::negotiated::priced(t, end);
    let done = routed(end);
    crate::groups::law_nets_are_grouped(t.nets);
    crate::variant::law_variant_is_legal(t, groups, alone, parallel);
    crate::tally::law_congestion_is_traffic(t.dims(), t.nets, outs);
    assert forall|i: int| 0 <= i < t.nets.len() implies {
        &&& b.results.len() == crate::tally::how_many(done, t.nets.len())
        &&& b.unrouted.len() == t.nets.len() - crate::tally::how_many(done, t.nets.len())
        &&& (#[trigger] end[i]) matches Some(p) ==> crate::tally::is_reported(
            b,
            t.nets[i].net@,
            done,
            i,
            p,
            stopped(tolls(&t.grid, p)),
        ) && b.groups[crate::tally::how_many(done, i as nat) as int] == groups[i] as u32
            && task_moves(t, i).lead(t.nets[i].src, t.nets[i].dst, p)
        &&& end[i] is None ==> crate::tally::is_missed(b, t.nets[i].net@, done, i)
    } by {
        crate::tally::law_board_lists_nets(t.dims(), t.nets, outs, done, i);
        lemma_groups_listed(groups, end, end.len(), i);
        if let Some(p) = end[i] {
            assert(crate::task::own_walk(t, i, p));
            lemma_walk_is_way(t, i, p);
            lemma_tolls(t, i, p, p.len());
            assert(p.take(p.len() as int) =~= p);
            assert(outs[i] == Some((p, stopped(tolls(&t.grid, p)))));
        }
    }
    lemma_groups_listed(groups, end, end.len(), 0);
    if t.nets.len() > 0 {
        assert(end[0] is Some || end[0] is None);
    } else {
        assert(outs =~= Seq::empty());
        assert(crate::tally::how_many(done, 0) == 0);
    }
}

/// Where the router may drill: as its via model says, or between all neighbouring layers
/// of the board.
pub open spec fn model_of(router: &NegotiatedRouter, dims: Dims) -> ViaModel {
    match router.via_model {
        Some(model) => model,
        None => ViaModel { layers: dims.layers, step_cost: 160, allowed: None, keepout_cells: 0 },
    }
}

/// The moves of a net on a board that the router gives it alone.
pub open spec fn router_moves(router: &NegotiatedRouter, grid: &Grid, net: NetEndpoints) -> Moves {
    layer_moves(
        grid,
        net,
        model_of(router, grid.dims),
        match router.lines {
            Some(l) => l.x_gaps@,
            None => Seq::empty(),
        },
        match router.lines {
            Some(l) => l.y_gaps@,
            None => Seq::empty(),
        },
    )
}

/// A net's pads and exemptions are on the board, its exemptions are among its pads, and
/// its copper can lie at its ends.
pub open spec fn is_in_order(grid: &Grid, net: NetEndpoints) -> bool {
    let cells = grid.dims.w * grid.dims.h * grid.dims.layers;
    &&& forall|k: int|
        0 <= k < net.passable_pads@.len() ==> (#[trigger] net.passable_pads@[k]) < cells
    &&& forall|k: int|
        0 <= k < net.via_passable_pads@.len() ==> (#[trigger] net.via_passable_pads@[k]) < cells
            && is_listed(net.passable_pads@, net.via_passable_pads@[k])
    &&& net.src < cells
    &&& net.dst < cells
    &&& may_lie(grid, net, net.src)
    &&& may_lie(grid, net, net.dst)
}

proof fn lemma_in_order(grid: &Grid, net: NetEndpoints)
    requires
        grid.well_formed(),
    ensures
        crate::task::net_fits(grid, &net) <==> is_in_order(grid, net),
{
    crate::lone_laws::lemma_listed(net.passable_pads@, net.src);
    crate::lone_laws::lemma_listed(net.passable_pads@, net.dst);
    assert forall|k: int| 0 <= k < net.via_passable_pads@.len() implies is_listed(
        net.passable_pads@,
        #[trigger] net.via_passable_pads@[k],
    ) == net.passable_pads@.contains(net.via_passable_pads@[k]) by {
        crate::lone_laws::lemma_listed(net.passable_pads@, net.via_passable_pads@[k]);
    }
    if crate::task::net_fits(grid, &net) {
        assert forall|k: int| 0 <= k < net.passable_pads@.len() implies (
        #[trigger] net.passable_pads@[k]) < grid.dims.w * grid.dims.h * grid.dims.layers by {
            assert(grid.dims.has(net.passable_pads@[k]));
        }
        assert forall|k: int| 0 <= k < net.via_passable_pads@.len() implies (
        #[trigger] net.via_passable_pads@[k]) < grid.dims.w * grid.dims.h * grid.dims.layers
            && is_listed(net.passable_pads@, net.via_passable_pads@[k]) by {
            assert(grid.dims.has(net.via_passable_pads@[k]));
        }
    }
    if is_in_order(grid, net) {
        assert forall|k: int| 0 <= k < net.passable_pads@.len() implies grid.dims.has(
            #[trigger] net.passable_pads@[k],
        ) by {}
        assert forall|k: int| 0 <= k < net.via_passable_pads@.len() implies grid.dims.has(
            #[trigger] net.via_passable_pads@[k],
        ) && net.passable_pads@.contains(net.via_passable_pads@[k]) by {
            assert(net.via_passable_pads@[k] < grid.dims.w * grid.dims.h * grid.dims.layers);
        }
    }
}

proof fn lemma_first_unfit(grid: &Grid, nets: Seq<NetEndpoints>)
    requires
        grid.well_formed(),
    ensures
        crate::negotiated::first_unfit(grid, nets) is None <==> forall|i: int|
            0 <= i < nets.len() ==> is_in_order(grid, #[trigger] nets[i]),
        crate::negotiated::first_unfit(grid, nets) matches Some(name) ==> exists|i: int|
            {
                &&& 0 <= i < nets.len()
                &&& !is_in_order(grid, #[trigger] nets[i])
                &&& forall|j: int| 0 <= j < i ==> is_in_order(grid, #[trigger] nets[j])
                &&& name == nets[i].net@
            },
    decreases nets.len(),
{
    if nets.len() > 0 {
        let d = nets.drop_last();
        lemma_first_unfit(grid, d);
        lemma_in_order(grid, nets.last());
        let n = d.len() as int;
        if crate::negotiated::first_unfit(grid, d) is Some {
            let i = choose|i: int|
                {
                    &&& 0 <= i < d.len()
                    &&& !is_in_order(grid, #[trigger] d[i])
                    &&& forall|j: int| 0 <= j < i ==> is_in_order(grid, #[trigger] d[j])
                    &&& crate::negotiated::first_unfit(grid, d)->0 == d[i].net@
                };
            assert(nets[i] == d[i]);
            assert forall|j: int| 0 <= j < i implies is_in_order(grid, #[trigger] nets[j]) by {
                assert(nets[j] == d[j]);
            }
        } else {
            assert forall|j: int| 0 <= j < n implies is_in_order(grid, #[trigger] nets[j]) by {
                assert(nets[j] == d[j]);
            }
            assert(nets[n] == nets.last());
        }
    }
}

/// The first net that is not in order is named, and there is no other reason to refuse a
/// board than that and a grid that is not complete.
pub proof fn law_refusals(
    router: &NegotiatedRouter,
    grid: &Grid,
    nets: Seq<NetEndpoints>,
    batch: Option<Seq<Option<Seq<CellIdx>>>>,
)
    ensures
        ({
            let r = router.answer(grid, nets, batch);
            &&& !is_complete(grid) <==> r == Err::<OutcomeView, FaultView>(FaultView::MalformedGrid)
            &&& r is Ok <==> is_complete(grid) && forall|i: int|
                0 <= i < nets.len() ==> is_in_order(grid, #[trigger] nets[i])
            &&& is_complete(grid) && r is Err ==> exists|i: int|
                {
                    &&& 0 <= i < nets.len()
                    &&& !is_in_order(grid, #[trigger] nets[i])
                    &&& forall|j: int| 0 <= j < i ==> is_in_order(grid, #[trigger] nets[j])
                    &&& r == Err::<OutcomeView, FaultView>(FaultView::InvalidEndpoint(nets[i].net@))
                }
        }),
{
    crate::lone_laws::law_complete_grids_are_accepted(grid);
    if grid.well_formed() {
        lemma_first_unfit(grid, nets);
    }
}

/// The task of a router whose board is in order.
pub proof fn lemma_task(router: &NegotiatedRouter, grid: &Grid, nets: Seq<NetEndpoints>)
    requires
        grid.well_formed(),
        crate::negotiated::first_unfit(grid, nets) is None,
    ensures
        router.task_of(grid, nets).wf(),
        forall|i: int|
            0 <= i < nets.len() ==> task_moves(router.task_of(grid, nets), i) == router_moves(
                router,
                grid,
                #[trigger] nets[i],
            ),
{
    let t = router.task_of(grid, nets);
    lemma_first_unfit(grid, nets);
    assert forall|i: int| 0 <= i < t.nets.len() implies #[trigger] t.net_fits(i) by {
        assert(is_in_order(grid, nets[i]));
        lemma_in_order(grid, nets[i]);
    }
}

/// A router says of each net whether it has a way with the board to itself.
pub proof fn law_alone_routable_is_any_way(
    router: &NegotiatedRouter,
    grid: &Grid,
    nets: Seq<NetEndpoints>,
    i: int,
)
    requires
        router.answer(grid, nets, None) is Ok,
        0 <= i < nets.len(),
    ensures
        ({
            let flags = (router.answer(grid, nets, None)->Ok_0).alone_routable;
            &&& flags.len() == nets.len()
            &&& flags[i] <==> router_moves(router, grid, nets[i]).reach(
                nets[i].src,
                nets[i].dst,
                u32::MAX as nat,
            )
        }),
{
    let t = router.task_of(grid, nets);
    lemma_task(router, grid, nets);
    law_alone_is_any_way(t, i, 0);
    assert(task_moves(t, i) == router_moves(router, grid, nets[i]));
    crate::legal::lemma_find_fits(
        t,
        i,
        0,
        crate::halo::unclaimed(t.dims().cells() as nat),
        true,
    );
}

/// Whatever lone routes it is given, a router reports for each net a way of that net, with
/// what its cells cost, or that the net was not routed.
pub proof fn law_routes_are_ways(
    router: &NegotiatedRouter,
    grid: &Grid,
    nets: Seq<NetEndpoints>,
    batch: Option<Seq<Option<Seq<CellIdx>>>>,
)
    requires
        nets.len() <= usize::MAX,
        router.answer(grid, nets, batch) is Ok,
    ensures
        exists|end: Paths|
            {
                &&& #[trigger] reports(
                    grid,
                    nets,
                    crate::groups::groups_of(nets),
                    end,
                    (router.answer(grid, nets, batch)->Ok_0).board,
                )
                &&& forall|i: int|
                    0 <= i < nets.len() ==> ((#[trigger] end[i]) matches Some(p) ==> router_moves(
                        router,
                        grid,
                        nets[i],
                    ).lead(nets[i].src, nets[i].dst, p))
            },
{
    let t = router.task_of(grid, nets);
    let alone = crate::negotiated::lone(t, batch);
    let parallel = crate::negotiated::is_parallel(t) && !crate::negotiated::keeps_serial(t, alone);
    lemma_task(router, grid, nets);
    lemma_variant_reports(t, alone, parallel);
    let end = crate::variant::variant(t, crate::groups::groups_of(nets), alone, parallel);
    assert(reports(
        grid,
        nets,
        crate::groups::groups_of(nets),
        end,
        (router.answer(grid, nets, batch)->Ok_0).board,
    ));
    assert forall|i: int| 0 <= i < nets.len() implies ((#[trigger] end[i]) matches Some(p)
        ==> router_moves(router, grid, nets[i]).lead(nets[i].src, nets[i].dst, p)) by {
        assert(task_moves(t, i) == router_moves(router, grid, nets[i]));
    }
}

proof fn lemma_fewer_routed(a: Paths, b: Paths, n: nat)
    requires
        n <= a.len(),
        n <= b.len(),
        forall|i: int| 0 <= i < n && (#[trigger] a[i]) is Some ==> b[i] is Some,
    ensures
        crate::scoring::routed_in(a, n) <= crate::scoring::routed_in(b, n),
    decreases n,
{
    if n > 0 {
        lemma_fewer_routed(a, b, (n - 1) as nat);
        assert(a[n - 1] is Some ==> b[n - 1] is Some);
    }
}

/// Where all nets are of one group, each that has a way is committed.
proof fn lemma_one_group(t: Task, parallel: bool)
    requires
        t.wf(),
        0 < t.nets.len() <= usize::MAX,
        forall|i: int|
            0 <= i < t.nets.len() ==> #[trigger] crate::groups::groups_of(t.nets)[i]
                == crate::groups::groups_of(t.nets)[0],
    ensures
        forall|i: int|
            0 <= i < t.nets.len() && has_way(t, i) ==> (#[trigger] crate::variant::variant(
                t,
                crate::groups::groups_of(t.nets),
                crate::variant::alone_paths(t),
                parallel,
            )[i]) is Some,
{
    let groups = crate::groups::groups_of(t.nets);
    let alone = crate::variant::alone_paths(t);
    let paths = crate::negotiate::negotiated_paths(t, groups, parallel);
    let order = crate::variant::best_order(t, groups, alone, parallel);
    let best = crate::variant::best_commit(t, groups, alone, parallel);
    crate::groups::law_nets_are_grouped(t.nets);
    assert(crate::groups::is_dense_at(groups, 0));
    assert(groups[0] == 0);
    lemma_one_number(groups, groups.len());
    crate::variant::lemma_best_order(t, groups, alone, parallel);
    let one = crate::orders::counting(1);
    assert(one.contains(order[0]));
    assert(order[0] == 0);
    assert(order =~= seq![0usize]);
    crate::negotiate::lemma_paths_walk(t, groups, parallel);
    crate::legalize::law_committed_paths_are_disjoint(t, groups, paths, order);
    let start = crate::legalize::commit_start(t);
    assert(crate::legalize::in_order(t, groups, paths, order, 0) == start);
    assert(crate::legalize::in_order(t, groups, paths, order, 1) == crate::legalize::place(
        t,
        groups,
        paths,
        start,
        0,
    ));
    assert forall|i: int| 0 <= i < t.nets.len() && has_way(t, i) implies (#[trigger] best[i])
        is Some by {
        assert(groups[i] == groups[0]);
        law_alone_is_any_way(t, i, 0);
    }
    if crate::scoring::routed_in(best, best.len()) < t.nets.len() {
        let rip = crate::rescue::rescued(
            t,
            groups,
            alone,
            crate::rescue::rescue_start(t, groups, order, best),
        );
        crate::rescue::law_rescue_keeps_paths_disjoint(t, groups, alone, order, best);
        assert forall|i: int| 0 <= i < best.len() && (#[trigger] rip[i]) is Some implies best[i]
            is Some by {
            if best[i] is None {
                law_alone_is_any_way(t, i, 0);
                assert(alone[i].len() == 0);
                crate::rescue::law_lost_nets_stay_lost(t, groups, alone, order, best, i);
            }
        }
        lemma_fewer_routed(rip, best, best.len());
    }
}

proof fn lemma_one_number(groups: Seq<usize>, k: nat)
    requires
        k <= groups.len(),
        forall|i: int| 0 <= i < groups.len() ==> #[trigger] groups[i] == 0,
    ensures
        crate::groups::next_id(groups, k) == if k == 0 {
            0int
        } else {
            1int
        },
    decreases k,
{
    if k > 0 {
        lemma_one_number(groups, (k - 1) as nat);
        assert(groups[k - 1] == 0);
    }
}

/// Where all nets belong together, in particular where there is one net only, every net
/// is routed that has a way: over cells where its copper can lie, on any layer, and from
/// one layer to the next wherever the via model allows that step and drilling is not
/// forbidden.
pub proof fn law_one_group_is_routed(
    router: &NegotiatedRouter,
    grid: &Grid,
    nets: Seq<NetEndpoints>,
)
    requires
        0 < nets.len() <= usize::MAX,
        router.answer(grid, nets, None) is Ok,
        nets.len() == 1 || forall|i: int|
            0 <= i < nets.len() ==> #[trigger] crate::groups::groups_of(nets)[i]
                == crate::groups::groups_of(nets)[0],
    ensures
        exists|end: Paths|
            {
                &&& #[trigger] reports(
                    grid,
                    nets,
                    crate::groups::groups_of(nets),
                    end,
                    (router.answer(grid, nets, None)->Ok_0).board,
                )
                &&& forall|i: int|
                    0 <= i < nets.len() && router_moves(router, grid, nets[i]).reach(
                        nets[i].src,
                        nets[i].dst,
                        u32::MAX as nat,
                    ) ==> (#[trigger] end[i]) is Some
                &&& forall|i: int|
                    0 <= i < nets.len() ==> ((#[trigger] end[i]) matches Some(p) ==> router_moves(
                        router,
                        grid,
                        nets[i],
                    ).lead(nets[i].src, nets[i].dst, p))
            },
{
    let t = router.task_of(grid, nets);
    let alone = crate::variant::alone_paths(t);
    let parallel = crate::negotiated::is_parallel(t) && !crate::negotiated::keeps_serial(t, alone);
    lemma_task(router, grid, nets);
    lemma_variant_reports(t, alone, parallel);
    lemma_one_group(t, parallel);
    let end = crate::variant::variant(t, crate::groups::groups_of(nets), alone, parallel);
    assert(reports(
        grid,
        nets,
        crate::groups::groups_of(nets),
        end,
        (router.answer(grid, nets, None)->Ok_0).board,
    ));
    assert forall|i: int| 0 <= i < nets.len() implies ((#[trigger] end[i]) matches Some(p)
        ==> router_moves(router, grid, nets[i]).lead(nets[i].src, nets[i].dst, p)) by {
        assert(task_moves(t, i) == router_moves(router, grid, nets[i]));
    }
    assert forall|i: int|
        0 <= i < nets.len() && router_moves(router, grid, nets[i]).reach(
            nets[i].src,
            nets[i].dst,
            u32::MAX as nat,
        ) implies (#[trigger] end[i]) is Some by {
        assert(task_moves(t, i) == router_moves(router, grid, nets[i]));
        assert(has_way(t, i));
    }
}

} // verus!
