//! What negotiation is for: how long it goes on, what it charges, and what each net makes of
//! that.
use vstd::prelude::*;

use crate::board::CellIdx;
use crate::board_laws::{capped, heft, length, task_moves};
use crate::geometry::IsolatedRouteWindow;
use crate::negotiate::Nego;
use crate::task::Task;
use crate::ways::Moves;

verus! {

/// The rounds are all that there are: as long as a cell is shared there is another, sixty
/// in all.
pub open spec fn are_all_rounds(r: Seq<Nego>, n: int) -> bool {
    &&& 0 < r.len() <= n
    &&& forall|k: int| 0 <= k < r.len() - 1 ==> (#[trigger] r[k]).over.len() > 0
    &&& r[r.len() - 1].over.len() == 0 || r.len() == n
}

proof fn lemma_rounds(t: Task, groups: Seq<usize>, parallel: bool, s: Nego, iter: u32)
    requires
        iter < 60,
    ensures
        are_all_rounds(crate::negotiate::rounds(t, groups, parallel, s, iter), 60 - iter),
    decreases 60 - iter,
{
    let r = crate::negotiate::rounds(t, groups, parallel, s, iter);
    let first = crate::negotiate::round(t, groups, parallel, s, iter);
    if first.over.len() > 0 && iter + 1 < 60 {
        let next = (iter + 1) as u32;
        lemma_rounds(t, groups, parallel, first, next);
        let rest = crate::negotiate::rounds(t, groups, parallel, first, next);
        assert(r =~= seq![first] + rest);
        assert forall|k: int| 0 <= k < r.len() - 1 implies (#[trigger] r[k]).over.len() > 0 by {
            if k > 0 {
                assert(r[k] == rest[k - 1]);
            }
        }
        assert(r[r.len() - 1] == rest[rest.len() - 1]);
    } else if first.over.len() > 0 {
        let next = (iter + 1) as u32;
        assert(crate::negotiate::rounds(t, groups, parallel, first, next).len() == 0);
        assert(r =~= seq![first]);
    }
}

/// Negotiation goes on until no cell is shared, for sixty rounds at most, and ends with the
/// last of them.
pub proof fn law_negotiation_goes_on(t: Task, groups: Seq<usize>, parallel: bool)
    ensures
        ({
            let r = crate::negotiate::rounds(
                t,
                groups,
                parallel,
                crate::negotiate::nego_start(t),
                0,
            );
            are_all_rounds(r, 60) && crate::negotiate::settled(t, groups, parallel) == r[r.len()
                - 1]
        }),
{
    lemma_rounds(t, groups, parallel, crate::negotiate::nego_start(t), 0);
}

/// The cell lies in the window.
pub open spec fn is_inside(t: Task, w: IsolatedRouteWindow, c: CellIdx) -> bool {
    w.x0 <= t.dims().col(c) <= w.x1 && w.y0 <= t.dims().row(c) <= w.y1
}

/// What a move costs before anything is added.
pub open spec fn bare_fee(t: Task, u: CellIdx, v: CellIdx) -> nat {
    if crate::ways::is_beside(t.dims(), u, v) {
        length(t.dims(), t.geo.x_gaps, t.geo.y_gaps, u, v) * heft(&t.grid, v)
    } else {
        t.via.step_cost as nat * heft(&t.grid, v)
    }
}

/// The moves of a net in a window, at prices to which something is added for each cell.
pub open spec fn dear_moves(
    t: Task,
    i: int,
    w: IsolatedRouteWindow,
    added: spec_fn(CellIdx) -> nat,
) -> Moves {
    Moves {
        can: |u: CellIdx, v: CellIdx| (task_moves(t, i).can)(u, v) && is_inside(t, w, v),
        fee: |u: CellIdx, v: CellIdx| capped(bare_fee(t, u, v) + added(v)),
    }
}

/// What is added for each cell.
pub open spec fn added_for(history: Seq<u32>, penalty: spec_fn(CellIdx) -> int) -> spec_fn(
    CellIdx,
) -> nat {
    |c: CellIdx| (history[c as int] + penalty(c)) as nat
}

proof fn lemma_dear(
    t: Task,
    i: int,
    w: IsolatedRouteWindow,
    history: Seq<u32>,
    penalty: spec_fn(CellIdx) -> int,
)
    requires
        t.wf(),
        0 <= i < t.nets.len(),
        forall|c: CellIdx| #[trigger] penalty(c) >= 0,
    ensures
        dear_moves(t, i, w, added_for(history, penalty)).are_steps(
            crate::pricing::neg_graph(t, i, w, history, penalty),
            u32::MAX as nat,
        ),
{
    let m = dear_moves(t, i, w, added_for(history, penalty));
    let graph = crate::pricing::neg_graph(t, i, w, history, penalty);
    assert(t.net_fits(i));
    assert forall|u: CellIdx, v: CellIdx|
        #![trigger (m.can)(u, v)]
        #![trigger graph.joins(u, v)]
        ((m.can)(u, v) <==> graph.joins(u, v) && graph.price(u, v) < u32::MAX as nat) && ((m.can)(
            u,
            v,
        ) ==> (m.fee)(u, v) == graph.price(u, v)) by {
        crate::board_laws::lemma_steps(t, i, u, v);
        crate::board_laws::lemma_bare(t, i, u, v);
        crate::ways::law_neighbours_are_beside(t.dims(), u, v);
        assert(penalty(v) >= 0);
    }
}

proof fn lemma_starts_inside(t: Task, i: int)
    requires
        t.wf(),
        0 <= i < t.nets.len(),
    ensures
        is_inside(t, t.window(i), t.nets[i].src),
{
    let d = t.dims();
    let net = t.nets[i];
    let pads = net.passable_pads@;
    let w = t.window(i);
    assert(t.net_fits(i));
    let (x0, y0, x1, y1) = crate::geometry::bounding_box(d, net.src, net.dst, pads);
    crate::reach_laws::lemma_box(d, net.src, net.dst, pads);
    crate::reach_laws::law_window_is_around_the_net(d, net.src, net.dst, pads, x0, y0, x1, y1);
    assert(crate::reach_laws::is_mark(net.src, net.dst, pads, net.src));
    d.lemma_coords(net.src);
}

/// At its turn a net takes the best way in its window at the prices of the round, and where
/// it has none there, the best on the board: each cell costs what it costs anyway, what it
/// was shared before, and what crowding costs.
pub proof fn law_turns_take_the_best_way(
    t: Task,
    i: int,
    history: Seq<u32>,
    penalty: spec_fn(CellIdx) -> int,
)
    requires
        t.wf(),
        0 <= i < t.nets.len(),
        forall|c: CellIdx| #[trigger] penalty(c) >= 0,
    ensures
        ({
            let added = added_for(history, penalty);
            let near = dear_moves(t, i, t.window(i), added);
            let far = dear_moves(t, i, IsolatedRouteWindow::whole(t.dims()), added);
            let (src, dst) = (t.nets[i].src, t.nets[i].dst);
            let limit = u32::MAX as nat;
            match crate::negotiate::find(t, i, history, penalty) {
                Some(p) => if near.reach(src, dst, limit) {
                    near.is_taken(src, dst, p)
                } else {
                    far.reach(src, dst, limit) && far.is_taken(src, dst, p)
                },
                None => !near.reach(src, dst, limit) && !far.reach(src, dst, limit),
            }
        }),
{
    let added = added_for(history, penalty);
    let whole = IsolatedRouteWindow::whole(t.dims());
    let near = dear_moves(t, i, t.window(i), added);
    let far = dear_moves(t, i, whole, added);
    let (src, dst) = (t.nets[i].src, t.nets[i].dst);
    assert(t.net_fits(i));
    t.dims().lemma_coords(src);
    lemma_starts_inside(t, i);
    lemma_dear(t, i, t.window(i), history, penalty);
    lemma_dear(t, i, whole, history, penalty);
    near.lemma_route_is_taken(
        crate::pricing::neg_graph(t, i, t.window(i), history, penalty),
        src,
        dst,
        u32::MAX as nat,
    );
    far.lemma_route_is_taken(
        crate::pricing::neg_graph(t, i, whole, history, penalty),
        src,
        dst,
        u32::MAX as nat,
    );
}

/// What crowding costs: sixteen times the round for each net that runs through a cell and for
/// each time that it is kept free.
pub proof fn law_crowding_is_charged(s: Nego, pfac: u32, c: CellIdx)
    ensures
        crate::negotiate::plain_penalty(s, pfac)(c) == 16 * pfac * (s.present[c as int]
            + s.halo[c as int]),
{
    let (p, h) = (s.present[c as int] as int, s.halo[c as int] as int);
    assert(pfac * 16 * p + pfac * 16 * h == 16 * pfac * (p + h)) by (nonlinear_arith);
}

/// A cell that is shared after a round costs sixteen more from then on, up to the largest
/// cost; the others cost what they did.
pub proof fn law_sharing_is_remembered(history: Seq<u32>, over: Seq<CellIdx>, c: CellIdx)
    requires
        history.len() <= u32::MAX,
        c < history.len(),
    ensures
        ({
            let r = crate::negotiate::dearer(history, over);
            let shared = exists|k: int| 0 <= k < over.len() && #[trigger] over[k] == c;
            &&& r.len() == history.len()
            &&& !shared ==> r[c as int] == history[c as int]
            &&& shared ==> r[c as int] == if history[c as int] + 16 < u32::MAX {
                history[c as int] + 16
            } else {
                u32::MAX as int
            }
        }),
{
    if over.contains(c) {
        let k = choose|k: int| 0 <= k < over.len() && over[k] == c;
        assert(over[k] == c);
    }
}

/// Counting cells adds how often each is listed, and counting them off takes that away again.
pub proof fn law_counts_add_up(counts: Seq<u32>, cells: Seq<CellIdx>, c: CellIdx)
    requires
        counts.len() <= u32::MAX,
        c < counts.len(),
        counts[c as int] + crate::tally::seen(cells, c, cells.len()) <= u32::MAX,
    ensures
        crate::halo::bump(counts, cells)[c as int] == counts[c as int] + crate::tally::seen(
            cells,
            c,
            cells.len(),
        ),
        crate::halo::unbump(crate::halo::bump(counts, cells), cells)[c as int] == counts[c as int],
{
    crate::tally::lemma_occurrences(cells, c, cells.len());
    assert(cells.take(cells.len() as int) =~= cells);
}

} // verus!
