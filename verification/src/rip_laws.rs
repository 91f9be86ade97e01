//! What routing with rip-up is for, told turn by turn.
use vstd::prelude::*;

use crate::board::CellIdx;
use crate::grid::Grid;
use crate::lone_laws::{is_complete, is_listed, is_open, is_uncut};
use crate::net::{BoardView, FaultView, NetEndpoints};
use crate::ripup::RipState;
use crate::ways::Moves;

verus! {

/// The route of each net that has one, with what it costs.
pub type Routes = Seq<Option<(Seq<CellIdx>, nat)>>;

/// The route of net `j` passes `c`.
pub open spec fn passes(routes: Routes, j: int, c: CellIdx) -> bool {
    routes[j] is Some && is_listed((routes[j]->0).0, c)
}

/// Another net than `i` has a route over `c`, and `c` is no end of net `i`.
pub open spec fn is_full(routes: Routes, i: int, net: NetEndpoints, c: CellIdx) -> bool {
    &&& c != net.src
    &&& c != net.dst
    &&& exists|j: int| 0 <= j < routes.len() && j != i && #[trigger] passes(routes, j, c)
}

/// The moves of a net that keeps off some cells. A pad of its own costs one, any other
/// cell what the grid says.
pub open spec fn moves_past(grid: &Grid, net: NetEndpoints, full: spec_fn(CellIdx) -> bool) -> Moves {
    Moves {
        can: |u: CellIdx, v: CellIdx|
            crate::ways::is_beside(grid.dims, u, v) && is_open(grid, net.passable_pads@, v)
                && is_uncut(grid, u, v) && !full(v),
        fee: |u: CellIdx, v: CellIdx|
            if is_listed(net.passable_pads@, v) {
                1nat
            } else {
                grid.cost@[v as int] as nat
            },
    }
}

/// The moves of net `i` around the routes of the others.
pub open spec fn moves_around(grid: &Grid, nets: Seq<NetEndpoints>, routes: Routes, i: int) -> Moves {
    moves_past(grid, nets[i], |c: CellIdx| is_full(routes, i, nets[i], c))
}

/// Net `i` has a way around the routes of the others.
pub open spec fn has_way_around(
    grid: &Grid,
    nets: Seq<NetEndpoints>,
    routes: Routes,
    i: int,
) -> bool {
    is_open(grid, nets[i].passable_pads@, nets[i].src) && moves_around(grid, nets, routes, i).reach(
        nets[i].src,
        nets[i].dst,
        u32::MAX as nat,
    )
}

/// `p` is the way that net `i` takes around the routes of the others, and `c` its cost.
pub open spec fn goes_around(
    grid: &Grid,
    nets: Seq<NetEndpoints>,
    routes: Routes,
    i: int,
    p: Seq<CellIdx>,
    c: nat,
) -> bool {
    let m = moves_around(grid, nets, routes, i);
    m.is_taken(nets[i].src, nets[i].dst, p) && c == m.fees(p) && c < u32::MAX
}

/// `p` is the way that a net takes with the board to itself.
pub open spec fn goes_alone(grid: &Grid, net: NetEndpoints, p: Seq<CellIdx>) -> bool {
    let m = moves_past(grid, net, |c: CellIdx| false);
    is_open(grid, net.passable_pads@, net.src) && m.is_taken(net.src, net.dst, p) && m.fees(p)
        < u32::MAX
}

/// Net `j` loses its route to net `i`: it comes later, and its route meets the way that
/// net `i` would take alone.
pub open spec fn gives_way(
    grid: &Grid,
    nets: Seq<NetEndpoints>,
    routes: Routes,
    i: int,
    j: int,
) -> bool {
    &&& j > i
    &&& exists|p: Seq<CellIdx>, k: int| #[trigger]
        goes_alone(grid, nets[i], p) && 0 <= k < p.len() && passes(routes, j, #[trigger] p[k])
}

/// One turn of net `i`, which has no route before it.
///
/// Nets lose their routes only where net `i` has no way around them, and only those that
/// give way. The net then has the way around what is left, or there is none.
pub open spec fn is_turn(
    grid: &Grid,
    nets: Seq<NetEndpoints>,
    before: Routes,
    after: Routes,
    i: int,
) -> bool {
    &&& before.len() == nets.len()
    &&& after.len() == nets.len()
    &&& 0 <= i < nets.len()
    &&& before[i] is None
    &&& forall|j: int|
        0 <= j < nets.len() && j != i ==> #[trigger] after[j] == if !has_way_around(
            grid,
            nets,
            before,
            i,
        ) && gives_way(grid, nets, before, i, j) {
            None
        } else {
            before[j]
        }
    &&& after[i] matches Some((p, c)) ==> goes_around(grid, nets, after, i, p, c)
    &&& after[i] is None ==> !has_way_around(grid, nets, after, i)
}

/// How many of the first `k` nets lose their route from one time to the next.
pub open spec fn lost_below(before: Routes, after: Routes, k: nat) -> nat {
    crate::tally::how_many(|j: int| before[j] is Some && after[j] is None, k)
}

/// How many routes are lost from one time to the next.
pub open spec fn lost(before: Routes, after: Routes) -> nat {
    lost_below(before, after, before.len())
}

/// How many routes are lost over the first `n` turns.
pub open spec fn lost_over(past: Seq<Routes>, n: nat) -> nat
    decreases n,
{
    if n == 0 {
        0
    } else {
        lost_over(past, (n - 1) as nat) + lost(past[n - 1], past[n as int])
    }
}

/// Net `i` was given up in a turn of its own: it had no way around what was placed then.
pub open spec fn was_given_up(
    grid: &Grid,
    nets: Seq<NetEndpoints>,
    past: Seq<Routes>,
    who: Seq<int>,
    i: int,
) -> bool {
    exists|k: int|
        0 <= k < who.len() && #[trigger] who[k] == i && past[k + 1][i] is None && !has_way_around(
            grid,
            nets,
            past[k + 1],
            i,
        )
}

/// What was placed before and after each turn, and whose turn it was. A net that was
/// given up has no further turn.
pub open spec fn is_history(
    grid: &Grid,
    nets: Seq<NetEndpoints>,
    past: Seq<Routes>,
    who: Seq<int>,
) -> bool {
    &&& past.len() == who.len() + 1
    &&& forall|k: int|
        0 <= k < who.len() ==> is_turn(grid, nets, past[k], past[k + 1], #[trigger] who[k])
    &&& forall|k: int, l: int|
        0 <= k < l < who.len() && #[trigger] who[k] == #[trigger] who[l] ==> past[k + 1][who[k]]
            is Some
}

proof fn lemma_passes_holds(routes: Routes, j: int, c: CellIdx)
    ensures
        passes(routes, j, c) <==> crate::ripup::holds(routes[j], c),
{
    if routes[j] is Some {
        crate::lone_laws::lemma_listed((routes[j]->0).0, c);
    }
}

proof fn lemma_full_held(routes: Routes, i: int, net: NetEndpoints, c: CellIdx)
    ensures
        is_full(routes, i, net, c) <==> crate::ripup::held(routes, i, &net, c),
{
    if is_full(routes, i, net, c) {
        let j = choose|j: int| 0 <= j < routes.len() && j != i && #[trigger] passes(routes, j, c);
        lemma_passes_holds(routes, j, c);
        assert(crate::ripup::holds(routes[j], c));
    }
    if crate::ripup::held(routes, i, &net, c) {
        let j = choose|j: int|
            0 <= j < routes.len() && j != i && #[trigger] crate::ripup::holds(routes[j], c);
        lemma_passes_holds(routes, j, c);
        assert(passes(routes, j, c));
    }
}

/// The moves of a net are the steps that cost less than an obstacle.
proof fn lemma_moves(
    grid: &Grid,
    net: NetEndpoints,
    full: spec_fn(CellIdx) -> bool,
    taken: spec_fn(CellIdx) -> bool,
)
    requires
        grid.well_formed(),
        forall|c: CellIdx| #[trigger] full(c) == taken(c),
    ensures
        moves_past(grid, net, full).are_steps(
            crate::ripup::rip_graph(grid, &net, taken),
            u32::MAX as nat,
        ),
{
    let m = moves_past(grid, net, full);
    let g = crate::ripup::rip_graph(grid, &net, taken);
    assert forall|u: CellIdx, v: CellIdx|
        #![trigger (m.can)(u, v)]
        #![trigger g.joins(u, v)]
        ((m.can)(u, v) <==> g.joins(u, v) && g.price(u, v) < u32::MAX as nat) && ((m.can)(u, v)
            ==> (m.fee)(u, v) == g.price(u, v)) by {
        crate::ways::law_neighbours_are_beside(grid.dims, u, v);
        crate::lone_laws::lemma_uncut(grid, u, v);
        crate::lone_laws::lemma_listed(net.passable_pads@, v);
        assert(full(v) == taken(v));
    }
}

/// A net's pads and ends are on the board, and its ends are no obstacles or its own pads.
pub open spec fn is_placed_well(grid: &Grid, net: NetEndpoints) -> bool {
    let cells = grid.dims.w * grid.dims.h * grid.dims.layers;
    &&& forall|k: int|
        0 <= k < net.passable_pads@.len() ==> (#[trigger] net.passable_pads@[k]) < cells
    &&& net.src < cells
    &&& net.dst < cells
    &&& grid.cost@[net.src as int] != u32::MAX || is_listed(net.passable_pads@, net.src)
    &&& grid.cost@[net.dst as int] != u32::MAX || is_listed(net.passable_pads@, net.dst)
}

/// The route around what is placed is the way around it.
proof fn lemma_work_route(grid: &Grid, nets: Seq<NetEndpoints>, i: int, placed: Routes)
    requires
        grid.well_formed(),
        0 <= i < nets.len(),
        is_placed_well(grid, nets[i]),
    ensures
        crate::ripup::work_route(grid, nets, i, placed) is Some <==> has_way_around(
            grid,
            nets,
            placed,
            i,
        ),
        crate::ripup::work_route(grid, nets, i, placed) matches Some((p, c)) ==> goes_around(
            grid,
            nets,
            placed,
            i,
            p,
            c,
        ),
{
    let net = nets[i];
    let full = |c: CellIdx| is_full(placed, i, nets[i], c);
    let taken = |c: CellIdx| crate::ripup::held(placed, i, &nets[i], c);
    assert forall|c: CellIdx| #[trigger] full(c) == taken(c) by {
        lemma_full_held(placed, i, net, c);
    }
    lemma_moves(grid, net, full, taken);
    crate::lone_laws::lemma_listed(net.passable_pads@, net.src);
    assert(!taken(net.src));
    moves_past(grid, net, full).lemma_route_is_taken(
        crate::ripup::rip_graph(grid, &net, taken),
        net.src,
        net.dst,
        u32::MAX as nat,
    );
}

/// The route of a net that has the board to itself is the way that it takes alone.
proof fn lemma_free_route(grid: &Grid, net: NetEndpoints)
    requires
        grid.well_formed(),
        is_placed_well(grid, net),
    ensures
        forall|p: Seq<CellIdx>| #[trigger]
            goes_alone(grid, net, p) <==> crate::ripup::free_route(grid, &net) is Some && (
            crate::ripup::free_route(grid, &net)->0).0 == p,
{
    let none = |c: CellIdx| false;
    let g = crate::ripup::rip_graph(grid, &net, none);
    let m = moves_past(grid, net, none);
    lemma_moves(grid, net, none, none);
    crate::lone_laws::lemma_listed(net.passable_pads@, net.src);
    m.lemma_route_is_taken(g, net.src, net.dst, u32::MAX as nat);
    assert forall|p: Seq<CellIdx>| #[trigger] goes_alone(grid, net, p) implies
        crate::ripup::free_route(grid, &net) is Some && (crate::ripup::free_route(grid, &net)->0).0
        == p by {
        assert(m.lead(net.src, net.dst, p));
        m.law_one_way_is_taken(net.src, net.dst, p, (crate::ripup::free_route(grid, &net)->0).0);
    }
}

/// Whatever another net than `i` does, only the routes of others matter to net `i`.
proof fn lemma_others_matter(
    grid: &Grid,
    nets: Seq<NetEndpoints>,
    a: Routes,
    b: Routes,
    i: int,
)
    requires
        a.len() == b.len(),
        forall|j: int| 0 <= j < a.len() && j != i ==> #[trigger] a[j] == b[j],
    ensures
        moves_around(grid, nets, a, i) == moves_around(grid, nets, b, i),
{
    let f = |c: CellIdx| is_full(a, i, nets[i], c);
    let g = |c: CellIdx| is_full(b, i, nets[i], c);
    assert forall|c: CellIdx| #[trigger] f(c) == g(c) by {
        if f(c) {
            let j = choose|j: int| 0 <= j < a.len() && j != i && #[trigger] passes(a, j, c);
            assert(a[j] == b[j]);
            assert(passes(b, j, c));
        }
        if g(c) {
            let j = choose|j: int| 0 <= j < b.len() && j != i && #[trigger] passes(b, j, c);
            assert(a[j] == b[j]);
            assert(passes(a, j, c));
        }
    }
    assert(f =~= g);
}

/// A net gives way exactly where it is in the way of the lone route.
proof fn lemma_gives_way(
    grid: &Grid,
    nets: Seq<NetEndpoints>,
    placed: Routes,
    i: int,
    j: int,
)
    requires
        grid.well_formed(),
        0 <= i < nets.len(),
        is_placed_well(grid, nets[i]),
    ensures
        gives_way(grid, nets, placed, i, j) <==> crate::ripup::free_route(grid, &nets[i]) is Some
            && crate::ripup::blocks(
            placed,
            i,
            (crate::ripup::free_route(grid, &nets[i])->0).0,
            j,
        ),
{
    lemma_free_route(grid, nets[i]);
    let free = (crate::ripup::free_route(grid, &nets[i])->0).0;
    if gives_way(grid, nets, placed, i, j) {
        let (p, k) = choose|p: Seq<CellIdx>, k: int| #[trigger]
            goes_alone(grid, nets[i], p) && 0 <= k < p.len() && passes(placed, j, #[trigger] p[k]);
        lemma_passes_holds(placed, j, p[k]);
        assert(free.contains(p[k]) && crate::ripup::holds(placed[j], p[k]));
    }
    if crate::ripup::free_route(grid, &nets[i]) is Some && crate::ripup::blocks(
        placed,
        i,
        free,
        j,
    ) {
        let c = choose|c: CellIdx| #[trigger]
            free.contains(c) && crate::ripup::holds(placed[j], c);
        let k = choose|k: int| 0 <= k < free.len() && free[k] == c;
        lemma_passes_holds(placed, j, c);
        assert(goes_alone(grid, nets[i], free));
        assert(passes(placed, j, free[k]));
    }
}

/// How many routes a turn takes up.
proof fn lemma_lost(
    placed: Routes,
    i: int,
    free: Seq<CellIdx>,
    after: Routes,
    k: nat,
)
    requires
        k <= placed.len(),
        0 <= i < placed.len(),
        after.len() == placed.len(),
        placed[i] is None,
        forall|j: int|
            0 <= j < placed.len() && j != i ==> #[trigger] after[j] == if crate::ripup::blocks(
                placed,
                i,
                free,
                j,
            ) {
                None
            } else {
                placed[j]
            },
    ensures
        crate::ripup::blocker_count(placed, i, free, k) == lost_below(placed, after, k),
    decreases k,
{
    if k > 0 {
        lemma_lost(placed, i, free, after, (k - 1) as nat);
        if k - 1 != i {
            assert(after[k - 1] == if crate::ripup::blocks(placed, i, free, k - 1) {
                None
            } else {
                placed[k - 1]
            });
        }
    }
}

/// Nothing is lost where nothing changes.
proof fn lemma_nothing_lost(placed: Routes, i: int, after: Routes, k: nat)
    requires
        k <= placed.len(),
        0 <= i < placed.len(),
        after.len() == placed.len(),
        placed[i] is None,
        forall|j: int| 0 <= j < placed.len() && j != i ==> #[trigger] after[j] == placed[j],
    ensures
        lost_below(placed, after, k) == 0,
    decreases k,
{
    if k > 0 {
        lemma_nothing_lost(placed, i, after, (k - 1) as nat);
        if k - 1 != i {
            assert(after[k - 1] == placed[k - 1]);
        }
    }
}

/// A turn is what a turn should be.
proof fn lemma_turn(grid: &Grid, nets: Seq<NetEndpoints>, st: RipState, i: int)
    requires
        grid.well_formed(),
        0 <= i < nets.len(),
        is_placed_well(grid, nets[i]),
        st.placed.len() == nets.len(),
        st.abandoned.len() == nets.len(),
        st.placed[i] is None,
    ensures
        ({
            let end = crate::ripup::turn(grid, nets, st, i);
            &&& is_turn(grid, nets, st.placed, end.placed, i)
            &&& end.rips == crate::ripup::add_rips(st.rips, lost(st.placed, end.placed))
            &&& end.abandoned.len() == nets.len()
            &&& forall|j: int|
                0 <= j < nets.len() && j != i ==> #[trigger] end.abandoned[j] == st.abandoned[j]
            &&& end.placed[i] is None ==> end.abandoned[i]
            &&& end.placed[i] is Some ==> end.abandoned[i] == st.abandoned[i]
        }),
{
    let placed = st.placed;
    let end = crate::ripup::turn(grid, nets, st, i);
    lemma_work_route(grid, nets, i, placed);
    if has_way_around(grid, nets, placed, i) {
        lemma_others_matter(grid, nets, placed, end.placed, i);
        lemma_nothing_lost(placed, i, end.placed, placed.len());
    } else if crate::ripup::free_route(grid, &nets[i]) is None {
        assert(end.placed == placed);
        lemma_nothing_lost(placed, i, end.placed, placed.len());
    } else {
        let free = (crate::ripup::free_route(grid, &nets[i])->0).0;
        let n = crate::ripup::blocker_count(placed, i, free, placed.len());
        if n == 0 {
            crate::ripup::lemma_no_blockers(placed, i, free, placed.len());
            assert(end.placed == placed);
            lemma_nothing_lost(placed, i, end.placed, placed.len());
        } else {
            let left = crate::ripup::ripped(placed, i, free);
            lemma_work_route(grid, nets, i, left);
            lemma_others_matter(grid, nets, left, end.placed, i);
            assert forall|j: int| 0 <= j < placed.len() && j != i implies #[trigger] end.placed[j]
                == if crate::ripup::blocks(placed, i, free, j) {
                None
            } else {
                placed[j]
            } by {
                assert(left[j] == end.placed[j]);
            }
            lemma_lost(placed, i, free, end.placed, placed.len());
        }
    }
    assert forall|j: int| 0 <= j < nets.len() && j != i implies #[trigger] end.placed[j]
        == if !has_way_around(grid, nets, placed, i) && gives_way(grid, nets, placed, i, j) {
        None
    } else {
        placed[j]
    } by {
        lemma_gives_way(grid, nets, placed, i, j);
    }
}

/// What is lost over some turns is told by what was placed up to then.
proof fn lemma_lost_over(a: Seq<Routes>, b: Seq<Routes>, n: nat)
    requires
        n < a.len(),
        n < b.len(),
        forall|k: int| 0 <= k <= n ==> #[trigger] a[k] == b[k],
    ensures
        lost_over(a, n) == lost_over(b, n),
    decreases n,
{
    if n > 0 {
        lemma_lost_over(a, b, (n - 1) as nat);
        assert(a[n - 1] == b[n - 1]);
        assert(a[n as int] == b[n as int]);
    }
}

/// The state is what the history tells.
spec fn follows(
    grid: &Grid,
    nets: Seq<NetEndpoints>,
    st: RipState,
    past: Seq<Routes>,
    who: Seq<int>,
) -> bool {
    &&& is_history(grid, nets, past, who)
    &&& past.last() == st.placed
    &&& st.placed.len() == nets.len()
    &&& st.abandoned.len() == nets.len()
    &&& st.rips == crate::ripup::add_rips(0, lost_over(past, who.len()))
    &&& forall|i: int|
        0 <= i < nets.len() && #[trigger] st.abandoned[i] ==> was_given_up(grid, nets, past, who, i)
    &&& forall|k: int|
        0 <= k < who.len() && past[k + 1][#[trigger] who[k]] is None ==> st.abandoned[who[k]]
}

/// One more turn.
proof fn lemma_follow_turn(
    grid: &Grid,
    nets: Seq<NetEndpoints>,
    st: RipState,
    past: Seq<Routes>,
    who: Seq<int>,
    i: int,
)
    requires
        grid.well_formed(),
        0 <= i < nets.len(),
        is_placed_well(grid, nets[i]),
        follows(grid, nets, st, past, who),
        crate::ripup::pending(st, i),
    ensures
        follows(
            grid,
            nets,
            crate::ripup::turn(grid, nets, st, i),
            past.push(crate::ripup::turn(grid, nets, st, i).placed),
            who.push(i),
        ),
{
    let end = crate::ripup::turn(grid, nets, st, i);
    let (past1, who1) = (past.push(end.placed), who.push(i));
    lemma_turn(grid, nets, st, i);
    let n = who.len();
    assert forall|k: int| 0 <= k < who1.len() implies is_turn(
        grid,
        nets,
        past1[k],
        past1[k + 1],
        #[trigger] who1[k],
    ) by {
        if k < n {
            assert(who[k] == who1[k]);
        }
    }
    assert forall|k: int, l: int|
        0 <= k < l < who1.len() && #[trigger] who1[k] == #[trigger] who1[l] implies past1[k + 1][
    who1[k]] is Some by {
        assert(who1[k] == who[k]);
        if l < n {
            assert(who1[l] == who[l]);
        } else if past[k + 1][who[k]] is None {
            assert(st.abandoned[who[k]]);
        }
    }
    lemma_lost_over(past, past1, n);
    assert(past1[n as int] == st.placed && past1[n as int + 1] == end.placed);
    assert forall|j: int| 0 <= j < nets.len() && #[trigger] end.abandoned[j] implies was_given_up(
        grid,
        nets,
        past1,
        who1,
        j,
    ) by {
        if j == i {
            if end.placed[i] is Some {
                assert(st.abandoned[i]);
            }
            assert(who1[n as int] == i);
        } else {
            assert(st.abandoned[j]);
            let k = choose|k: int|
                0 <= k < who.len() && #[trigger] who[k] == j && past[k + 1][j] is None
                    && !has_way_around(grid, nets, past[k + 1], j);
            assert(who1[k] == j && past1[k + 1] == past[k + 1]);
        }
    }
    assert forall|k: int| 0 <= k < who1.len() && past1[k + 1][#[trigger] who1[k]] is None implies
        end.abandoned[who1[k]] by {
        if k < n {
            assert(who1[k] == who[k]);
            assert(st.abandoned[who[k]]);
        }
    }
}

/// The turns of a pass make history.
proof fn lemma_follow_turns(
    grid: &Grid,
    nets: Seq<NetEndpoints>,
    start: RipState,
    st: RipState,
    k: nat,
    past: Seq<Routes>,
    who: Seq<int>,
) -> (r: (Seq<Routes>, Seq<int>))
    requires
        grid.well_formed(),
        forall|i: int| 0 <= i < nets.len() ==> is_placed_well(grid, #[trigger] nets[i]),
        k <= nets.len(),
        follows(grid, nets, st, past, who),
        forall|j: int| 0 <= j < k ==> #[trigger] st.placed[j] == start.placed[j],
        forall|j: int| 0 <= j < k ==> #[trigger] st.abandoned[j] == start.abandoned[j],
    ensures
        follows(grid, nets, crate::ripup::turns(grid, nets, start, st, k), r.0, r.1),
        r.0[0] == past[0],
        r.1.len() >= who.len(),
        forall|t: int| 0 <= t < who.len() ==> #[trigger] r.1[t] == who[t],
        (forall|j: int| 0 <= j < k ==> #[trigger] crate::ripup::pending(start, j)) ==> r.1.len()
            == who.len() + k && forall|t: int|
            who.len() <= t < r.1.len() ==> #[trigger] r.1[t] == k - 1 - (t - who.len()),
    decreases k,
{
    if k == 0 {
        (past, who)
    } else {
        let i = k - 1;
        assert(st.placed[i] == start.placed[i]);
        assert(st.abandoned[i] == start.abandoned[i]);
        if crate::ripup::pending(start, i) {
            let next = crate::ripup::turn(grid, nets, st, i);
            lemma_follow_turn(grid, nets, st, past, who, i);
            lemma_turn(grid, nets, st, i);
            assert forall|j: int| 0 <= j < i implies #[trigger] next.placed[j] == start.placed[j] by {
                crate::ripup::law_earlier_nets_stay(grid, nets, st, i, j);
                assert(st.placed[j] == start.placed[j]);
            }
            assert forall|j: int| 0 <= j < i implies #[trigger] next.abandoned[j]
                == start.abandoned[j] by {
                assert(st.abandoned[j] == start.abandoned[j]);
            }
            let (past1, who1) = (past.push(next.placed), who.push(i));
            let r = lemma_follow_turns(grid, nets, start, next, i as nat, past1, who1);
            assert forall|t: int| 0 <= t < who.len() implies #[trigger] r.1[t] == who[t] by {
                assert(r.1[t] == who1[t]);
            }
            assert(r.1[who.len() as int] == who1[who.len() as int]);
            r
        } else {
            lemma_follow_turns(grid, nets, start, st, i as nat, past, who)
        }
    }
}

/// A turn moves something, or gives its net up and changes nothing else.
proof fn lemma_turn_moves(grid: &Grid, nets: Seq<NetEndpoints>, st: RipState, i: int)
    ensures
        ({
            let end = crate::ripup::turn(grid, nets, st, i);
            end.progressed || end.placed == st.placed && end.abandoned == st.abandoned.update(
                i,
                true,
            ) && !st.progressed
        }),
        st.progressed ==> crate::ripup::turn(grid, nets, st, i).progressed,
{
}

proof fn lemma_turns_progress(
    grid: &Grid,
    nets: Seq<NetEndpoints>,
    start: RipState,
    st: RipState,
    k: nat,
)
    requires
        st.progressed,
    ensures
        crate::ripup::turns(grid, nets, start, st, k).progressed,
    decreases k,
{
    if k > 0 {
        lemma_turn_moves(grid, nets, st, k - 1);
        let next = if crate::ripup::pending(start, k - 1) {
            crate::ripup::turn(grid, nets, st, k - 1)
        } else {
            st
        };
        lemma_turns_progress(grid, nets, start, next, (k - 1) as nat);
    }
}

/// A pass in which nothing moves leaves nothing to be tried.
proof fn lemma_idle_turns(
    grid: &Grid,
    nets: Seq<NetEndpoints>,
    start: RipState,
    st: RipState,
    k: nat,
)
    requires
        k <= nets.len(),
        st.placed.len() == nets.len(),
        st.abandoned.len() == nets.len(),
        forall|j: int| 0 <= j < k ==> #[trigger] st.placed[j] == start.placed[j],
        forall|j: int| 0 <= j < k ==> #[trigger] st.abandoned[j] == start.abandoned[j],
        forall|j: int| k <= j < nets.len() ==> !(#[trigger] crate::ripup::pending(st, j)),
        !crate::ripup::turns(grid, nets, start, st, k).progressed,
    ensures
        forall|j: int|
            0 <= j < nets.len() ==> !(#[trigger] crate::ripup::pending(
                crate::ripup::turns(grid, nets, start, st, k),
                j,
            )),
    decreases k,
{
    if k > 0 {
        let i = k - 1;
        assert(st.placed[i] == start.placed[i]);
        assert(st.abandoned[i] == start.abandoned[i]);
        let next = if crate::ripup::pending(start, i) {
            crate::ripup::turn(grid, nets, st, i)
        } else {
            st
        };
        lemma_turn_moves(grid, nets, st, i);
        if next.progressed {
            lemma_turns_progress(grid, nets, start, next, i as nat);
        }
        assert forall|j: int| i <= j < nets.len() implies !(#[trigger] crate::ripup::pending(
            next,
            j,
        )) by {
            if j > i {
                assert(!crate::ripup::pending(st, j));
            }
        }
        lemma_idle_turns(grid, nets, start, next, i as nat);
        assert(crate::ripup::turns(grid, nets, start, st, k) == crate::ripup::turns(
            grid,
            nets,
            start,
            next,
            (k - 1) as nat,
        ));
    } else {
        assert(crate::ripup::turns(grid, nets, start, st, k) == st);
    }
}

/// A pass settles one more net for good.
proof fn lemma_turns_settle(
    grid: &Grid,
    nets: Seq<NetEndpoints>,
    start: RipState,
    st: RipState,
    k: nat,
    m: int,
)
    requires
        k <= nets.len(),
        0 <= m,
        st.placed.len() == nets.len(),
        st.abandoned.len() == nets.len(),
        forall|j: int| 0 <= j < k ==> #[trigger] st.placed[j] == start.placed[j],
        forall|j: int| 0 <= j < k ==> #[trigger] st.abandoned[j] == start.abandoned[j],
        forall|j: int|
            0 <= j < m && j < nets.len() ==> !(#[trigger] crate::ripup::pending(start, j)),
        forall|j: int|
            k <= j <= m && j < nets.len() ==> !(#[trigger] crate::ripup::pending(st, j)),
    ensures
        forall|j: int|
            0 <= j <= m && j < nets.len() ==> !(#[trigger] crate::ripup::pending(
                crate::ripup::turns(grid, nets, start, st, k),
                j,
            )),
    decreases k,
{
    if k > 0 {
        let i = k - 1;
        assert(st.placed[i] == start.placed[i]);
        assert(st.abandoned[i] == start.abandoned[i]);
        let next = if crate::ripup::pending(start, i) {
            crate::ripup::turn(grid, nets, st, i)
        } else {
            st
        };
        assert forall|j: int| i <= j <= m && j < nets.len() implies !(
        #[trigger] crate::ripup::pending(next, j)) by {
            if j > i {
                assert(!crate::ripup::pending(st, j));
                assert(i < m);
                assert(!crate::ripup::pending(start, i));
            }
        }
        assert forall|j: int| 0 <= j < i implies #[trigger] next.placed[j] == start.placed[j] by {
            assert(st.placed[j] == start.placed[j]);
            crate::ripup::law_earlier_nets_stay(grid, nets, st, i, j);
        }
        assert forall|j: int| 0 <= j < i implies #[trigger] next.abandoned[j]
            == start.abandoned[j] by {
            assert(st.abandoned[j] == start.abandoned[j]);
        }
        lemma_turns_settle(grid, nets, start, next, i as nat, m);
        assert(crate::ripup::turns(grid, nets, start, st, k) == crate::ripup::turns(
            grid,
            nets,
            start,
            next,
            (k - 1) as nat,
        ));
    } else {
        assert(crate::ripup::turns(grid, nets, start, st, k) == st);
    }
}

/// The passes make history, and settle a net each.
proof fn lemma_follow_passes(
    grid: &Grid,
    nets: Seq<NetEndpoints>,
    st: RipState,
    passes: nat,
    past: Seq<Routes>,
    who: Seq<int>,
    m: int,
) -> (r: (Seq<Routes>, Seq<int>))
    requires
        grid.well_formed(),
        forall|i: int| 0 <= i < nets.len() ==> is_placed_well(grid, #[trigger] nets[i]),
        follows(grid, nets, st, past, who),
        0 <= m,
        forall|j: int| 0 <= j < m && j < nets.len() ==> !(#[trigger] crate::ripup::pending(st, j)),
    ensures
        ({
            let end = crate::ripup::passes_from(grid, nets, st, passes);
            &&& follows(grid, nets, end, r.0, r.1)
            &&& r.0[0] == past[0]
            &&& r.1.len() >= who.len()
            &&& forall|t: int| 0 <= t < who.len() ==> #[trigger] r.1[t] == who[t]
            &&& forall|j: int|
                0 <= j < m + passes && j < nets.len() ==> !(#[trigger] crate::ripup::pending(end, j))
            &&& passes > 0 && (forall|j: int|
                0 <= j < nets.len() ==> #[trigger] crate::ripup::pending(st, j)) ==> r.1.len()
                >= who.len() + nets.len() && forall|t: int|
                who.len() <= t < who.len() + nets.len() ==> #[trigger] r.1[t] == nets.len() - 1 - (t
                    - who.len())
        }),
    decreases passes,
{
    if passes == 0 {
        (past, who)
    } else if !crate::ripup::any_pending(st) {
        assert(forall|j: int| 0 <= j < nets.len() ==> !(#[trigger] crate::ripup::pending(st, j)));
        if nets.len() > 0 {
            assert(!crate::ripup::pending(st, 0));
        }
        (past, who)
    } else {
        let start = RipState { progressed: false, ..st };
        assert forall|j: int| crate::ripup::pending(start, j) == #[trigger] crate::ripup::pending(
            st,
            j,
        ) by {}
        assert forall|j: int| 0 <= j < m && j < nets.len() implies !(
        #[trigger] crate::ripup::pending(start, j)) by {
            assert(!crate::ripup::pending(st, j));
        }
        let end = crate::ripup::turns(grid, nets, start, start, nets.len());
        assert(follows(grid, nets, start, past, who)) by {
            assert forall|i: int| 0 <= i < nets.len() && #[trigger] start.abandoned[i] implies
                was_given_up(grid, nets, past, who, i) by {
                assert(st.abandoned[i]);
            }
        }
        let r = lemma_follow_turns(grid, nets, start, start, nets.len(), past, who);
        lemma_turns_settle(grid, nets, start, start, nets.len(), m);
        if forall|j: int| 0 <= j < nets.len() ==> #[trigger] crate::ripup::pending(st, j) {
            assert forall|j: int| 0 <= j < nets.len() implies #[trigger] crate::ripup::pending(
                start,
                j,
            ) by {
                assert(crate::ripup::pending(st, j));
            }
        }
        if end.progressed {
            let q = lemma_follow_passes(
                grid,
                nets,
                end,
                (passes - 1) as nat,
                r.0,
                r.1,
                m + 1,
            );
            assert forall|t: int| 0 <= t < who.len() implies #[trigger] q.1[t] == who[t] by {
                assert(q.1[t] == r.1[t]);
            }
            if forall|j: int| 0 <= j < nets.len() ==> #[trigger] crate::ripup::pending(st, j) {
                assert forall|t: int| who.len() <= t < who.len() + nets.len() implies
                    #[trigger] q.1[t] == nets.len() - 1 - (t - who.len()) by {
                    assert(q.1[t] == r.1[t]);
                }
            }
            q
        } else {
            lemma_idle_turns(grid, nets, start, start, nets.len());
            r
        }
    }
}

proof fn lemma_placed_well(grid: &Grid, net: NetEndpoints)
    requires
        grid.well_formed(),
    ensures
        crate::ripup::rip_net_ok(grid, &net) <==> is_placed_well(grid, net),
{
    crate::lone_laws::lemma_listed(net.passable_pads@, net.src);
    crate::lone_laws::lemma_listed(net.passable_pads@, net.dst);
    if is_placed_well(grid, net) {
        assert forall|i: int| 0 <= i < net.passable_pads@.len() implies grid.dims.has(
            #[trigger] net.passable_pads@[i],
        ) by {}
    }
    if crate::ripup::rip_net_ok(grid, &net) {
        assert forall|k: int| 0 <= k < net.passable_pads@.len() implies (
        #[trigger] net.passable_pads@[k]) < grid.dims.w * grid.dims.h * grid.dims.layers by {
            assert(grid.dims.has(net.passable_pads@[k]));
        }
    }
}

proof fn lemma_first_bad(grid: &Grid, nets: Seq<NetEndpoints>)
    requires
        grid.well_formed(),
    ensures
        crate::ripup::rip_first_bad(grid, nets) is None <==> forall|i: int|
            0 <= i < nets.len() ==> is_placed_well(grid, #[trigger] nets[i]),
        crate::ripup::rip_first_bad(grid, nets) matches Some(name) ==> exists|i: int|
            {
                &&& 0 <= i < nets.len()
                &&& !is_placed_well(grid, #[trigger] nets[i])
                &&& forall|j: int| 0 <= j < i ==> is_placed_well(grid, #[trigger] nets[j])
                &&& name == nets[i].net@
            },
    decreases nets.len(),
{
    if nets.len() > 0 {
        let d = nets.drop_last();
        lemma_first_bad(grid, d);
        lemma_placed_well(grid, nets.last());
        let n = d.len() as int;
        if crate::ripup::rip_first_bad(grid, d) is Some {
            let i = choose|i: int|
                {
                    &&& 0 <= i < d.len()
                    &&& !is_placed_well(grid, #[trigger] d[i])
                    &&& forall|j: int| 0 <= j < i ==> is_placed_well(grid, #[trigger] d[j])
                    &&& crate::ripup::rip_first_bad(grid, d)->0 == d[i].net@
                };
            assert(nets[i] == d[i]);
            assert forall|j: int| 0 <= j < i implies is_placed_well(grid, #[trigger] nets[j]) by {
                assert(nets[j] == d[j]);
            }
        } else {
            assert forall|j: int| 0 <= j < n implies is_placed_well(grid, #[trigger] nets[j]) by {
                assert(nets[j] == d[j]);
            }
            assert(nets[n] == nets.last());
        }
    }
}

/// The first net whose pads or ends are not in order is named, and there is no other
/// reason to refuse a board than that and a grid that is not complete.
pub proof fn law_rip_refusals(grid: &Grid, nets: Seq<NetEndpoints>)
    ensures
        ({
            let r = crate::ripup::rip_outcome(grid, nets);
            &&& !is_complete(grid) <==> r == Err::<(BoardView, usize), FaultView>(
                FaultView::MalformedGrid,
            )
            &&& r is Ok <==> is_complete(grid) && forall|i: int|
                0 <= i < nets.len() ==> is_placed_well(grid, #[trigger] nets[i])
            &&& is_complete(grid) && r is Err ==> exists|i: int|
                {
                    &&& 0 <= i < nets.len()
                    &&& !is_placed_well(grid, #[trigger] nets[i])
                    &&& forall|j: int| 0 <= j < i ==> is_placed_well(grid, #[trigger] nets[j])
                    &&& r == Err::<(BoardView, usize), FaultView>(
                        FaultView::InvalidEndpoint(nets[i].net@),
                    )
                }
        }),
{
    crate::lone_laws::law_complete_grids_are_accepted(grid);
    if grid.well_formed() {
        lemma_first_bad(grid, nets);
    }
}

/// The nets that have a route.
pub open spec fn routed(end: Routes) -> spec_fn(int) -> bool {
    |j: int| end[j] is Some
}

/// The board reports these routes, net by net.
pub open spec fn reports(nets: Seq<NetEndpoints>, end: Routes, b: BoardView) -> bool {
    let done = routed(end);
    &&& end.len() == nets.len()
    &&& b.results.len() == crate::tally::how_many(done, nets.len())
    &&& b.unrouted.len() == nets.len() - crate::tally::how_many(done, nets.len())
    &&& forall|i: int|
        0 <= i < nets.len() ==> ((#[trigger] end[i]) matches Some((p, c))
            ==> crate::tally::is_reported(b, nets[i].net@, done, i, p, c))
    &&& forall|i: int|
        0 <= i < nets.len() ==> ((#[trigger] end[i]) is None ==> crate::tally::is_missed(
            b,
            nets[i].net@,
            done,
            i,
        ))
}

/// The history of a board: it begins with nothing placed, the nets have their first turns
/// from the last to the first, and it ends with what the board reports. A net among the
/// first twenty that has no route then was given up.
pub open spec fn tells_board(
    grid: &Grid,
    nets: Seq<NetEndpoints>,
    past: Seq<Routes>,
    who: Seq<int>,
    b: BoardView,
    rips: usize,
) -> bool {
    let end = past.last();
    &&& is_history(grid, nets, past, who)
    &&& past[0].len() == nets.len()
    &&& forall|i: int| 0 <= i < nets.len() ==> (#[trigger] past[0][i]) is None
    &&& who.len() >= nets.len()
    &&& forall|t: int| 0 <= t < nets.len() ==> #[trigger] who[t] == nets.len() - 1 - t
    &&& reports(nets, end, b)
    &&& forall|i: int|
        0 <= i < nets.len() && i < 20 ==> ((#[trigger] end[i]) is None ==> was_given_up(
            grid,
            nets,
            past,
            who,
            i,
        ))
    &&& crate::tally::tells_traffic(b, grid.cost@.len() as int)
    &&& b.groups.len() == 0
    &&& rips == if lost_over(past, who.len()) < usize::MAX {
        lost_over(past, who.len())
    } else {
        usize::MAX as nat
    }
}

/// The history of a board, which ends with what is placed in the end.
proof fn lemma_history(grid: &Grid, nets: Seq<NetEndpoints>) -> (r: (Seq<Routes>, Seq<int>))
    requires
        crate::ripup::rip_outcome(grid, nets) is Ok,
    ensures
        r.0.last() == crate::ripup::rip_final(grid, nets).placed,
        tells_board(
            grid,
            nets,
            r.0,
            r.1,
            (crate::ripup::rip_outcome(grid, nets)->Ok_0).0,
            (crate::ripup::rip_outcome(grid, nets)->Ok_0).1,
        ),
{
    let (b, rips) = crate::ripup::rip_outcome(grid, nets)->Ok_0;
    law_rip_refusals(grid, nets);
    let st = crate::ripup::nothing_placed(nets.len());
    let past = seq![st.placed];
    let who = Seq::<int>::empty();
    assert(lost_over(past, 0) == 0);
    assert(follows(grid, nets, st, past, who));
    assert forall|j: int| 0 <= j < nets.len() implies #[trigger] crate::ripup::pending(st, j) by {}
    let (past, who) = lemma_follow_passes(grid, nets, st, 20, past, who, 0);
    let end = crate::ripup::rip_final(grid, nets);
    assert(end == crate::ripup::passes_from(grid, nets, st, 20));
    let done = routed(past.last());
    assert forall|i: int| 0 <= i < nets.len() implies {
        &&& (#[trigger] past.last()[i]) matches Some((p, c)) ==> crate::tally::is_reported(
            b,
            nets[i].net@,
            done,
            i,
            p,
            c,
        )
        &&& past.last()[i] is None ==> crate::tally::is_missed(b, nets[i].net@, done, i)
        &&& b.results.len() == crate::tally::how_many(done, nets.len())
        &&& b.unrouted.len() == nets.len() - crate::tally::how_many(done, nets.len())
        &&& i < 20 && past.last()[i] is None ==> was_given_up(grid, nets, past, who, i)
    } by {
        crate::tally::law_board_lists_nets(grid.dims, nets, end.placed, done, i);
        assert(i < 20 ==> !crate::ripup::pending(end, i));
        if i < 20 && past.last()[i] is None {
            assert(end.abandoned[i]);
        }
    }
    if nets.len() > 0 {
        assert(past.last()[0] is Some || past.last()[0] is None);
    } else {
        crate::tally::lemma_how_many(done, 0);
    }
    crate::tally::law_congestion_is_traffic(grid.dims, nets, end.placed);
    assert(tells_board(grid, nets, past, who, b, rips));
    (past, who)
}

/// Every board comes of a history of turns. A net whose route was ripped up has another
/// turn, as long as fewer than twenty nets come before it: if it has no route in the end,
/// it was given up in a turn of its own because it had no way around what was placed then.
pub proof fn law_boards_have_a_history(grid: &Grid, nets: Seq<NetEndpoints>)
    requires
        crate::ripup::rip_outcome(grid, nets) is Ok,
    ensures
        exists|past: Seq<Routes>, who: Seq<int>| #[trigger]
            tells_board(
                grid,
                nets,
                past,
                who,
                (crate::ripup::rip_outcome(grid, nets)->Ok_0).0,
                (crate::ripup::rip_outcome(grid, nets)->Ok_0).1,
            ),
{
    let r = lemma_history(grid, nets);
}

/// Once the first net has a route, it keeps it.
proof fn lemma_first_keeps(
    grid: &Grid,
    nets: Seq<NetEndpoints>,
    past: Seq<Routes>,
    who: Seq<int>,
    k: int,
)
    requires
        is_history(grid, nets, past, who),
        nets.len() > 0,
        0 <= k < past.len(),
        past[0].len() == nets.len(),
        past[k][0] is Some,
    ensures
        past.last()[0] == past[k][0],
    decreases past.len() - k,
{
    if k < past.len() - 1 {
        assert(is_turn(grid, nets, past[k], past[k + 1], who[k]));
        lemma_first_keeps(grid, nets, past, who, k + 1);
    }
}

/// Where there is no way around fewer routes, there is none around more.
proof fn lemma_more_in_the_way(
    grid: &Grid,
    nets: Seq<NetEndpoints>,
    few: Routes,
    many: Routes,
    i: int,
)
    requires
        few.len() == many.len(),
        forall|j: int| 0 <= j < few.len() && j != i && few[j] is Some ==> #[trigger] many[j] == few[j],
        has_way_around(grid, nets, many, i),
    ensures
        has_way_around(grid, nets, few, i),
{
    let a = moves_around(grid, nets, many, i);
    let b = moves_around(grid, nets, few, i);
    let (src, dst) = (nets[i].src, nets[i].dst);
    let q = choose|q: Seq<CellIdx>| #[trigger] a.lead(src, dst, q) && a.fees(q) < u32::MAX as nat;
    assert forall|k: int| 0 < k < q.len() implies #[trigger] b.goes(q, k) by {
        assert(a.goes(q, k));
        if is_full(few, i, nets[i], q[k]) {
            let j = choose|j: int|
                0 <= j < few.len() && j != i && #[trigger] passes(few, j, q[k]);
            assert(many[j] == few[j]);
            assert(passes(many, j, q[k]));
        }
    }
    lemma_same_fees(a, b, q);
    assert(b.lead(src, dst, q));
}

proof fn lemma_same_fees(a: Moves, b: Moves, q: Seq<CellIdx>)
    requires
        forall|u: CellIdx, v: CellIdx| #[trigger] (a.fee)(u, v) == (b.fee)(u, v),
    ensures
        a.fees(q) == b.fees(q),
    decreases q.len(),
{
    if q.len() >= 2 {
        lemma_same_fees(a, b, q.take(q.len() - 1));
        assert((a.fee)(q[q.len() - 2], q[q.len() - 1]) == (b.fee)(q[q.len() - 2], q[q.len() - 1]));
    }
}

/// A net has a way with the board to itself.
pub open spec fn has_way_alone(grid: &Grid, net: NetEndpoints) -> bool {
    is_open(grid, net.passable_pads@, net.src) && moves_past(grid, net, |c: CellIdx| false).reach(
        net.src,
        net.dst,
        u32::MAX as nat,
    )
}

proof fn lemma_alone(grid: &Grid, net: NetEndpoints)
    requires
        grid.well_formed(),
        is_placed_well(grid, net),
    ensures
        crate::ripup::free_route(grid, &net) is Some <==> has_way_alone(grid, net),
{
    let none = |c: CellIdx| false;
    lemma_moves(grid, net, none, none);
    crate::lone_laws::lemma_listed(net.passable_pads@, net.src);
    moves_past(grid, net, none).lemma_route_is_taken(
        crate::ripup::rip_graph(grid, &net, none),
        net.src,
        net.dst,
        u32::MAX as nat,
    );
}

/// The first net is routed exactly where it has a way with the board to itself. Of two
/// nets the second is routed unless it has no way around the route of the first.
pub proof fn law_first_and_second(grid: &Grid, nets: Seq<NetEndpoints>)
    requires
        nets.len() > 0,
        crate::ripup::rip_outcome(grid, nets) is Ok,
    ensures
        exists|end: Routes|
            {
                &&& #[trigger] reports(nets, end, (crate::ripup::rip_outcome(grid, nets)->Ok_0).0)
                &&& end[0] is Some <==> has_way_alone(grid, nets[0])
                &&& nets.len() == 2 && end[1] is None ==> !has_way_around(grid, nets, end, 1)
            },
{
    let (b, rips) = crate::ripup::rip_outcome(grid, nets)->Ok_0;
    law_rip_refusals(grid, nets);
    let (past, who) = lemma_history(grid, nets);
    crate::ripup::law_first_net_wins(grid, nets);
    assert(is_placed_well(grid, nets[0]));
    lemma_alone(grid, nets[0]);
    let end = past.last();
    assert(reports(nets, end, b));
    if nets.len() == 2 && end[1] is None {
        let k = choose|k: int|
            0 <= k < who.len() && #[trigger] who[k] == 1 && past[k + 1][1] is None
                && !has_way_around(grid, nets, past[k + 1], 1);
        assert(is_turn(grid, nets, past[k], past[k + 1], who[k]));
        if past[k + 1][0] is Some {
            lemma_first_keeps(grid, nets, past, who, k + 1);
        }
        if has_way_around(grid, nets, end, 1) {
            lemma_more_in_the_way(grid, nets, past[k + 1], end, 1);
        }
    }
}

} // verus!
