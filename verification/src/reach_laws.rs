//! What marking a board, keeping clear and windows are for, told by columns, rows and layers.
use vstd::prelude::*;

use crate::board::{CellIdx, Dims};
use crate::geometry::{GridLines, Reach, ReachView};
use crate::grid::GridBuilder;
use crate::ways::stands_at;

verus! {

/// The number lies between the two, whichever comes first.
pub open spec fn is_between(a: int, x: int, b: int) -> bool {
    a <= x <= b || b <= x <= a
}

/// Marks are about places: a cell is marked or opened by its column, row and layer, and a
/// rectangle has all cells of its layer between its corners.
pub proof fn law_marks_are_places(
    b: GridBuilder,
    c: CellIdx,
    x0: int,
    y0: int,
    x1: int,
    y1: int,
    l: int,
)
    requires
        b.wf(),
        b.dims.has(c),
    ensures
        b.is_at(c as int, x0, y0, l) <==> stands_at(b.dims, c, x0, y0, l),
        b.is_in(c as int, x0, y0, x1, y1, l) <==> exists|x: int, y: int| #[trigger]
            stands_at(b.dims, c, x, y, l) && is_between(x0, x, x1) && is_between(y0, y, y1),
{
    let d = b.dims;
    crate::ways::law_cells_have_places(d, c);
    if b.is_at(c as int, x0, y0, l) {
        assert(stands_at(d, c, x0, y0, l));
    }
    if b.is_in(c as int, x0, y0, x1, y1, l) {
        assert(stands_at(d, c, d.col(c), d.row(c), l));
    }
}

/// Lines of a board `i` and `j` are at most `n` units apart, as the measured distances say,
/// or as their numbers do where there are none.
pub open spec fn are_near(apart: Option<Seq<Vec<u64>>>, i: int, j: int, n: int) -> bool {
    match apart {
        Some(a) => if i < a.len() && j < a[i]@.len() {
            a[i]@[j] <= n
        } else {
            j - n <= i <= j + n
        },
        None => j - n <= i <= j + n,
    }
}

/// Distances between the columns of a board.
pub open spec fn columns(lines: Option<GridLines>) -> Option<Seq<Vec<u64>>> {
    match lines {
        Some(l) => Some(l.x_apart@),
        None => None,
    }
}

/// Distances between the rows of a board.
pub open spec fn rows(lines: Option<GridLines>) -> Option<Seq<Vec<u64>>> {
    match lines {
        Some(l) => Some(l.y_apart@),
        None => None,
    }
}

/// `c` is on the layer of `s`, and at most `n` units from it, across and up.
pub open spec fn is_within(
    d: Dims,
    lines: Option<GridLines>,
    n: int,
    s: CellIdx,
    c: CellIdx,
) -> bool {
    exists|x: int, y: int, v: int, w: int, l: int|
        {
            &&& #[trigger] stands_at(d, s, x, y, l)
            &&& #[trigger] stands_at(d, c, v, w, l)
            &&& are_near(columns(lines), x, v, n)
            &&& are_near(rows(lines), y, w, n)
        }
}

/// A radius of some units covers exactly the cells on the same layer that are at most so far
/// away, across and up; no radius covers nothing.
pub proof fn law_radius_covers(
    d: Dims,
    lines: Option<GridLines>,
    n: u32,
    s: CellIdx,
    c: CellIdx,
)
    requires
        d.w * d.h * d.layers <= u32::MAX,
    ensures
        ReachView::over(d, lines, n).covers(d, s, c) <==> n > 0 && is_within(
            d,
            lines,
            n as int,
            s,
            c,
        ),
{
    let r = ReachView::over(d, lines, n);
    crate::ways::law_cells_have_places(d, s);
    crate::ways::law_cells_have_places(d, c);
    if d.has(s) && d.has(c) && n > 0 {
        d.lemma_coords(s);
        d.lemma_coords(c);
        let (x, y, v, w) = (d.col(s), d.row(s), d.col(c), d.row(c));
        match lines {
            Some(g) => {
                crate::geometry::law_measured_reach(g.x_apart@, d.w, n, x, v);
                crate::geometry::law_measured_reach(g.y_apart@, d.h, n, y, w);
            },
            None => {
                crate::geometry::law_even_reach(d.w, n, x, v);
                crate::geometry::law_even_reach(d.h, n, y, w);
            },
        }
        if r.covers(d, s, c) {
            assert(stands_at(d, s, x, y, d.layer(s)));
            assert(stands_at(d, c, v, w, d.layer(s)));
        }
        if is_within(d, lines, n as int, s, c) {
            let (a, b, e, f, l) = choose|x: int, y: int, v: int, w: int, l: int|
                {
                    &&& #[trigger] stands_at(d, s, x, y, l)
                    &&& #[trigger] stands_at(d, c, v, w, l)
                    &&& are_near(columns(lines), x, v, n as int)
                    &&& are_near(rows(lines), y, w, n as int)
                };
            assert(a == x && b == y && e == v && f == w);
        }
    }
}

/// Obstacles grow by a radius: a cell is marked exactly where an obstacle on its layer is at
/// most so far away.
pub proof fn law_obstacles_grow(
    b: GridBuilder,
    reach: &Reach,
    lines: Option<GridLines>,
    n: u32,
    c: CellIdx,
)
    requires
        b.wf(),
        n > 0,
        reach@ == ReachView::over(b.dims, lines, n),
    ensures
        b.is_near(c as int, reach) <==> exists|s: CellIdx|
            b.dims.has(s) && b.blocked@[s as int] && #[trigger] is_within(
                b.dims,
                lines,
                n as int,
                s,
                c,
            ),
{
    if b.is_near(c as int, reach) {
        let s = choose|s: u32|
            b.dims.has(s) && b.blocked@[s as int] && #[trigger] reach@.covers(
                b.dims,
                s,
                c as int as u32,
            );
        law_radius_covers(b.dims, lines, n, s, c);
        assert(is_within(b.dims, lines, n as int, s, c));
    }
    if exists|s: CellIdx|
        b.dims.has(s) && b.blocked@[s as int] && #[trigger] is_within(
            b.dims,
            lines,
            n as int,
            s,
            c,
        ) {
        let s = choose|s: CellIdx|
            b.dims.has(s) && b.blocked@[s as int] && #[trigger] is_within(
                b.dims,
                lines,
                n as int,
                s,
                c,
            );
        law_radius_covers(b.dims, lines, n, s, c);
        assert(reach@.covers(b.dims, s, c as int as u32));
    }
}

/// The cell is an end or a pad.
pub open spec fn is_mark(src: CellIdx, dst: CellIdx, pads: Seq<CellIdx>, c: CellIdx) -> bool {
    c == src || c == dst || exists|k: int| 0 <= k < pads.len() && #[trigger] pads[k] == c
}

/// The rectangle is the smallest around the ends and the pads.
pub open spec fn is_box(
    d: Dims,
    src: CellIdx,
    dst: CellIdx,
    pads: Seq<CellIdx>,
    x0: int,
    y0: int,
    x1: int,
    y1: int,
) -> bool {
    &&& forall|c: CellIdx| #[trigger]
        is_mark(src, dst, pads, c) ==> x0 <= d.col(c) <= x1 && y0 <= d.row(c) <= y1
    &&& exists|c: CellIdx| #[trigger] is_mark(src, dst, pads, c) && d.col(c) == x0
    &&& exists|c: CellIdx| #[trigger] is_mark(src, dst, pads, c) && d.row(c) == y0
    &&& exists|c: CellIdx| #[trigger] is_mark(src, dst, pads, c) && d.col(c) == x1
    &&& exists|c: CellIdx| #[trigger] is_mark(src, dst, pads, c) && d.row(c) == y1
}

/// There is a smallest rectangle.
pub proof fn lemma_box(d: Dims, src: CellIdx, dst: CellIdx, pads: Seq<CellIdx>)
    ensures
        ({
            let (x0, y0, x1, y1) = crate::geometry::bounding_box(d, src, dst, pads);
            is_box(d, src, dst, pads, x0, y0, x1, y1)
        }),
    decreases pads.len(),
{
    let (x0, y0, x1, y1) = crate::geometry::bounding_box(d, src, dst, pads);
    assert(is_mark(src, dst, pads, src));
    assert(is_mark(src, dst, pads, dst));
    if pads.len() > 0 {
        let front = pads.drop_last();
        let last = pads.last();
        lemma_box(d, src, dst, front);
        let (a0, b0, a1, b1) = crate::geometry::bounding_box(d, src, dst, front);
        assert(is_mark(src, dst, pads, last)) by {
            assert(pads[pads.len() - 1] == last);
        }
        assert forall|c: CellIdx| #[trigger] is_mark(src, dst, front, c) implies is_mark(
            src,
            dst,
            pads,
            c,
        ) by {
            if c != src && c != dst {
                let k = choose|k: int| 0 <= k < front.len() && #[trigger] front[k] == c;
                assert(pads[k] == c);
            }
        }
        assert forall|c: CellIdx| #[trigger] is_mark(src, dst, pads, c) implies x0 <= d.col(c)
            <= x1 && y0 <= d.row(c) <= y1 by {
            if c != src && c != dst && c != last {
                let k = choose|k: int| 0 <= k < pads.len() && #[trigger] pads[k] == c;
                assert(front[k] == c);
            }
            if c != last {
                assert(is_mark(src, dst, front, c));
            }
        }
    }
}

/// A net is searched first in the smallest rectangle around its ends and pads, made wider on
/// every side by three tenths of its longer side, sixteen cells at least, as far as the
/// board goes.
pub proof fn law_window_is_around_the_net(
    d: Dims,
    src: CellIdx,
    dst: CellIdx,
    pads: Seq<CellIdx>,
    x0: int,
    y0: int,
    x1: int,
    y1: int,
)
    requires
        d.w * d.h * d.layers <= u32::MAX,
        d.has(src),
        d.has(dst),
        forall|k: int| 0 <= k < pads.len() ==> d.has(#[trigger] pads[k]),
        is_box(d, src, dst, pads, x0, y0, x1, y1),
    ensures
        ({
            let w = crate::geometry::window_of(d, src, dst, pads);
            exists|m: int|
                {
                    &&& m == 16 || 10 * (m - 1) < 3 * (x1 - x0) || 10 * (m - 1) < 3 * (y1 - y0)
                    &&& m >= 16
                    &&& 10 * m >= 3 * (x1 - x0)
                    &&& 10 * m >= 3 * (y1 - y0)
                    &&& #[trigger] is_grown(w.x0 as int, w.x1 as int, x0, x1, m, d.w as int)
                    &&& is_grown(w.y0 as int, w.y1 as int, y0, y1, m, d.h as int)
                }
        }),
{
    let w = crate::geometry::window_of(d, src, dst, pads);
    lemma_box(d, src, dst, pads);
    let (a0, b0, a1, b1) = crate::geometry::bounding_box(d, src, dst, pads);
    assert forall|c: CellIdx| #[trigger] is_mark(src, dst, pads, c) implies 0 <= d.col(c) < d.w
        && 0 <= d.row(c) < d.h by {
        d.lemma_coords(c);
    }
    assert(a0 == x0 && b0 == y0 && a1 == x1 && b1 == y1);
    let span = if x1 - x0 < y1 - y0 {
        y1 - y0
    } else {
        x1 - x0
    };
    let m = crate::geometry::window_margin(span);
    assert(is_mark(src, dst, pads, src));
    assert(0 <= x0 <= x1 < d.w && 0 <= y0 <= y1 < d.h);
    assert(is_grown(w.x0 as int, w.x1 as int, x0, x1, m, d.w as int));
    assert(is_grown(w.y0 as int, w.y1 as int, y0, y1, m, d.h as int));
}

/// The stretch is the other, grown by `m` on both sides within the board.
pub open spec fn is_grown(lo: int, hi: int, x0: int, x1: int, m: int, size: int) -> bool {
    &&& 0 <= lo <= hi < size
    &&& lo == x0 - m || lo == 0 && x0 < m
    &&& hi == x1 + m || hi == size - 1 && x1 + m >= size
}

} // verus!
