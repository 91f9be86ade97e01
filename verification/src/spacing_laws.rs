//! What spacing is for: how far a router keeps nets and vias apart.
use vstd::prelude::*;

use crate::board::{CellIdx, Dims};
use crate::board_laws::{reports, Paths};
use crate::geometry::{GridLines, ReachView};
use crate::grid::Grid;
use crate::legal_laws::is_too_near;
use crate::lone_laws::is_listed;
use crate::negotiated::{Clearance, NegotiatedRouter};
use crate::net::NetEndpoints;
use crate::reach_laws::is_within;
use crate::task::Task;
use crate::ways::stands_at;

verus! {

proof fn lemma_within_grows(apart: Seq<Vec<u64>>, n: u32, m: u32, i: int, k: nat)
    requires
        n <= m,
    ensures
        crate::geometry::lines_within(apart, n, i, k).len() <= crate::geometry::lines_within(
            apart,
            m,
            i,
            k,
        ).len(),
        crate::geometry::lines_within(apart, n, i, k).len() == crate::geometry::lines_within(
            apart,
            m,
            i,
            k,
        ).len() ==> crate::geometry::lines_within(apart, n, i, k) == crate::geometry::lines_within(
            apart,
            m,
            i,
            k,
        ),
    decreases k,
{
    if k > 0 {
        lemma_within_grows(apart, n, m, i, (k - 1) as nat);
    }
}

proof fn lemma_measured_wider(apart: Seq<Vec<u64>>, count: u32, n: u32, m: u32)
    ensures
        crate::geometry::wider_lines(
            crate::geometry::measured_lines(apart, count, n),
            crate::geometry::measured_lines(apart, count, m),
        ) == crate::geometry::measured_lines(
            apart,
            count,
            if n < m {
                m
            } else {
                n
            },
        ),
{
    let most = if n < m {
        m
    } else {
        n
    };
    let a = crate::geometry::measured_lines(apart, count, n);
    let b = crate::geometry::measured_lines(apart, count, m);
    let w = crate::geometry::wider_lines(a, b);
    let r = crate::geometry::measured_lines(apart, count, most);
    assert forall|i: int| 0 <= i < count implies w[i] == r[i] by {
        if n < m {
            lemma_within_grows(apart, n, m, i, count as nat);
        } else {
            lemma_within_grows(apart, m, n, i, count as nat);
        }
    }
    assert(w =~= r);
}

/// The wider of two radii is the larger one, over whatever lines.
pub proof fn law_wider_is_larger(d: Dims, lines: Option<GridLines>, n: u32, m: u32)
    ensures
        ReachView::over(d, lines, n).wider(ReachView::over(d, lines, m)) == ReachView::over(
            d,
            lines,
            if n < m {
                m
            } else {
                n
            },
        ),
{
    match lines {
        Some(l) => {
            let (a, b) = (ReachView::over(d, lines, n), ReachView::over(d, lines, m));
            let w = a.wider(b);
            if n > 0 && m > 0 {
                lemma_measured_wider(l.x_apart@, d.w, n, m);
                lemma_measured_wider(l.y_apart@, d.h, n, m);
            } else if n == 0 {
                assert(w.x =~= b.x && w.y =~= b.y);
            } else {
                assert(w.x =~= a.x && w.y =~= a.y);
            }
        },
        None => {
            crate::geometry::law_wider_is_larger(d, n, m);
        },
    }
}

/// `c` is on the layer of `s`, on a line that is listed for its column and on one that is
/// listed for its row.
pub open spec fn is_among(d: Dims, reach: ReachView, s: CellIdx, c: CellIdx) -> bool {
    exists|x: int, y: int, v: int, w: int, l: int|
        {
            &&& #[trigger] stands_at(d, s, x, y, l)
            &&& #[trigger] stands_at(d, c, v, w, l)
            &&& x < reach.x.len() && exists|k: int|
                0 <= k < reach.x[x].len() && #[trigger] reach.x[x][k] == v
            &&& y < reach.y.len() && exists|k: int|
                0 <= k < reach.y[y].len() && #[trigger] reach.y[y][k] == w
        }
}

/// Lists of lines cover exactly the cells on those lines and on the same layer.
pub proof fn law_lists_cover(d: Dims, reach: ReachView, s: CellIdx, c: CellIdx)
    requires
        d.w * d.h * d.layers <= u32::MAX,
    ensures
        reach.covers(d, s, c) <==> is_among(d, reach, s, c),
{
    crate::ways::law_cells_have_places(d, s);
    crate::ways::law_cells_have_places(d, c);
    if reach.covers(d, s, c) {
        d.lemma_coords(s);
        d.lemma_coords(c);
        let (x, y, v, w) = (d.col(s), d.row(s), d.col(c), d.row(c));
        assert(stands_at(d, s, x, y, d.layer(s)) && stands_at(d, c, v, w, d.layer(s)));
        let a = reach.x[x];
        let b = reach.y[y];
        let i = choose|i: int| 0 <= i < a.len() && a[i] == v as u32;
        let j = choose|j: int| 0 <= j < b.len() && b[j] == w as u32;
        assert(reach.x[x][i] == v && reach.y[y][j] == w);
    }
    if is_among(d, reach, s, c) {
        let (x, y, v, w, l) = choose|x: int, y: int, v: int, w: int, l: int|
            {
                &&& #[trigger] stands_at(d, s, x, y, l)
                &&& #[trigger] stands_at(d, c, v, w, l)
                &&& x < reach.x.len() && exists|k: int|
                    0 <= k < reach.x[x].len() && #[trigger] reach.x[x][k] == v
                &&& y < reach.y.len() && exists|k: int|
                    0 <= k < reach.y[y].len() && #[trigger] reach.y[y][k] == w
            };
        d.lemma_coords(s);
        d.lemma_coords(c);
        let i = choose|k: int| 0 <= k < reach.x[x].len() && #[trigger] reach.x[x][k] == v;
        let j = choose|k: int| 0 <= k < reach.y[y].len() && #[trigger] reach.y[y][k] == w;
        assert(reach.x[x].contains(v as u32)) by {
            assert(reach.x[x][i] == v as u32);
        }
        assert(reach.y[y].contains(w as u32)) by {
            assert(reach.y[y][j] == w as u32);
        }
    }
}

/// A router keeps nets apart by the clearance that it was given: so many units over its grid
/// lines, or the lines that were listed. A via keeps off what the clearance, the via model
/// and the keepout that was given keep off, whichever is most.
pub proof fn law_router_keeps_distance(router: &NegotiatedRouter, d: Dims, s: CellIdx, c: CellIdx)
    requires
        d.w * d.h * d.layers <= u32::MAX,
    ensures
        ({
            let geo = router.geo_of(d);
            let keep = crate::board_laws::model_of(router, d).keepout_cells;
            match router.clearance {
                Clearance::Units(n) => {
                    &&& geo.clearance.covers(d, s, c) <==> n > 0 && is_within(
                        d,
                        router.lines,
                        n as int,
                        s,
                        c,
                    )
                    &&& router.keepout is None ==> (geo.keepout.covers(d, s, c) <==> (n > 0
                        || keep > 0) && is_within(
                        d,
                        router.lines,
                        if n < keep {
                            keep as int
                        } else {
                            n as int
                        },
                        s,
                        c,
                    ))
                },
                Clearance::Within(r) => geo.clearance.covers(d, s, c) <==> is_among(d, r@, s, c),
            }
        }),
{
    let keep = crate::board_laws::model_of(router, d).keepout_cells;
    match router.clearance {
        Clearance::Units(n) => {
            crate::reach_laws::law_radius_covers(d, router.lines, n, s, c);
            if router.keepout is None {
                let own = ReachView::over(d, router.lines, keep);
                let alone = own.wider(ReachView::nothing());
                assert(alone.x =~= own.x);
                assert(alone.y =~= own.y);
                assert(alone == own);
                law_wider_is_larger(d, router.lines, n, keep);
                crate::reach_laws::law_radius_covers(
                    d,
                    router.lines,
                    if n < keep {
                        keep
                    } else {
                        n
                    },
                    s,
                    c,
                );
            }
        },
        Clearance::Within(r) => {
            law_lists_cover(d, r@, s, c);
        },
    }
}

/// Net `j` keeps off the path of net `i`: its cells are not too near it, but for its ends, for
/// masked pads of its own, and for cells that another net of its group holds.
pub open spec fn keeps_off(
    t: Task,
    groups: Seq<usize>,
    end: Paths,
    i: int,
    j: int,
) -> bool {
    forall|k: int|
        0 <= k < (end[j]->0).len() && is_too_near(t, end[i]->0, #[trigger] (end[j]->0)[k]) ==> {
            let c = (end[j]->0)[k];
            ||| c == t.nets[j].src
            ||| c == t.nets[j].dst
            ||| t.grid.cost@[c as int] == u32::MAX && is_listed(t.nets[j].passable_pads@, c)
            ||| exists|m: int|
                {
                    &&& 0 <= m < end.len()
                    &&& m != j
                    &&& groups[m] == groups[j]
                    &&& (#[trigger] end[m]) is Some
                    &&& (end[m]->0).contains(c)
                }
        }
}

/// No cell is on both paths.
pub open spec fn share_nothing(end: Paths, i: int, j: int) -> bool {
    forall|k: int, m: int|
        0 <= k < (end[i]->0).len() && 0 <= m < (end[j]->0).len() ==> #[trigger] (end[i]->0)[k]
            != #[trigger] (end[j]->0)[m]
}

proof fn lemma_crowds(t: Task, p: Seq<CellIdx>, c: CellIdx)
    requires
        t.wf(),
        crate::halo::on_board(t.dims(), p),
        is_too_near(t, p, c),
    ensures
        crate::halo::crowds(&t.grid, t.geo, p, c),
{
    let d = t.dims();
    if exists|k: int| 0 <= k < p.len() && t.geo.clearance.covers(d, #[trigger] p[k], c) {
        let k = choose|k: int| 0 <= k < p.len() && t.geo.clearance.covers(d, #[trigger] p[k], c);
        assert(t.geo.clearance.covers(d, p[k], c));
    } else {
        let k = choose|k: int|
            0 < k < p.len() && #[trigger] crate::legal_laws::dives_at(t, p, k) && (
            t.geo.keepout.covers(d, p[k - 1], c) || t.geo.keepout.covers(d, p[k], c));
        let (x, y, a, b) = choose|x: int, y: int, a: int, b: int|
            {
                &&& #[trigger] stands_at(d, p[k - 1], x, y, a)
                &&& #[trigger] stands_at(d, p[k], x, y, b)
                &&& a != b
            };
        crate::ways::law_cells_have_places(d, p[k - 1]);
        crate::ways::law_cells_have_places(d, p[k]);
        assert(crate::halo::is_via(d, p, k));
    }
}

/// What a router answers with keeps nets of different groups apart: they share no cell, and
/// one of each two keeps off the other.
pub proof fn law_answers_keep_nets_apart(
    router: &NegotiatedRouter,
    grid: &Grid,
    nets: Seq<NetEndpoints>,
    batch: Option<Seq<Option<Seq<CellIdx>>>>,
) -> (end: Paths)
    requires
        nets.len() <= usize::MAX,
        router.answer(grid, nets, batch) is Ok,
    ensures
        reports(
            grid,
            nets,
            crate::groups::groups_of(nets),
            end,
            router.answer(grid, nets, batch)->Ok_0.board,
        ),
        forall|i: int, j: int|
            {
                &&& 0 <= i < nets.len()
                &&& 0 <= j < nets.len()
                &&& (#[trigger] end[i]) is Some
                &&& (#[trigger] end[j]) is Some
                &&& crate::groups::groups_of(nets)[i] != crate::groups::groups_of(nets)[j]
            } ==> {
                let t = router.task_of(grid, nets);
                let groups = crate::groups::groups_of(nets);
                &&& share_nothing(end, i, j)
                &&& keeps_off(t, groups, end, i, j) || keeps_off(t, groups, end, j, i)
            },
{
    let t = router.task_of(grid, nets);
    let groups = crate::groups::groups_of(nets);
    let alone = crate::negotiated::lone(t, batch);
    let parallel = crate::negotiated::is_parallel(t) && !crate::negotiated::keeps_serial(t, alone);
    let end = crate::variant::variant(t, groups, alone, parallel);
    crate::board_laws::lemma_task(router, grid, nets);
    crate::groups::law_nets_are_grouped(nets);
    crate::board_laws::lemma_variant_reports(t, alone, parallel);
    crate::variant::law_variant_is_legal(t, groups, alone, parallel);
    crate::variant::law_variant_keeps_clearance(t, groups, alone, parallel);
    assert forall|i: int, j: int|
        {
            &&& 0 <= i < nets.len()
            &&& 0 <= j < nets.len()
            &&& (#[trigger] end[i]) is Some
            &&& (#[trigger] end[j]) is Some
            &&& groups[i] != groups[j]
        } implies {
        &&& share_nothing(end, i, j)
        &&& keeps_off(t, groups, end, i, j) || keeps_off(t, groups, end, j, i)
    } by {
        assert forall|k: int, m: int|
            0 <= k < (end[i]->0).len() && 0 <= m < (end[j]->0).len() implies #[trigger] (
        end[i]->0)[k] != #[trigger] (end[j]->0)[m] by {
            let c = (end[i]->0)[k];
            if c == (end[j]->0)[m] {
                assert(crate::commit::holds(end, i, c));
                assert(crate::commit::holds(end, j, c));
            }
        }
        if crate::clearance::clear_of(t, end, groups, i, j) {
            lemma_keeps_off(t, groups, end, i, j);
        } else {
            lemma_keeps_off(t, groups, end, j, i);
        }
    }
    end
}

proof fn lemma_keeps_off(t: Task, groups: Seq<usize>, end: Paths, i: int, j: int)
    requires
        t.wf(),
        0 <= i < end.len(),
        0 <= j < end.len(),
        end[i] is Some,
        end[j] is Some,
        crate::halo::on_board(t.dims(), end[i]->0),
        crate::clearance::clear_of(t, end, groups, i, j),
    ensures
        keeps_off(t, groups, end, i, j),
{
    assert forall|k: int|
        0 <= k < (end[j]->0).len() && is_too_near(
            t,
            end[i]->0,
            #[trigger] (end[j]->0)[k],
        ) implies {
        let c = (end[j]->0)[k];
        ||| c == t.nets[j].src
        ||| c == t.nets[j].dst
        ||| t.grid.cost@[c as int] == u32::MAX && is_listed(t.nets[j].passable_pads@, c)
        ||| exists|m: int|
            {
                &&& 0 <= m < end.len()
                &&& m != j
                &&& groups[m] == groups[j]
                &&& (#[trigger] end[m]) is Some
                &&& (end[m]->0).contains(c)
            }
    } by {
        let c = (end[j]->0)[k];
        lemma_crowds(t, end[i]->0, c);
        assert(crate::commit::holds(end, j, c));
        assert(crate::clearance::may_crowd(t, end, groups, j, c));
        if exists|m: int| #[trigger]
            crate::commit::holds(end, m, c) && m != j && groups[m] == groups[j] {
            let m = choose|m: int| #[trigger]
                crate::commit::holds(end, m, c) && m != j && groups[m] == groups[j];
            assert(end[m] is Some);
        }
        crate::lone_laws::lemma_listed(t.nets[j].passable_pads@, c);
    }
}

} // verus!
