//! Cost grids, and their construction in cell space.
use vstd::prelude::*;

use crate::board::{CellIdx, Cost, Dims, OBSTACLE};
use crate::geometry::Reach;

verus! {

/// Where the outline of the board forbids copper.
#[derive(Clone, Debug, PartialEq, Eq)]
pub struct BoardMask {
    /// Whether each cell lies outside the outline.
    pub outside: Vec<bool>,
    /// Planar steps that would cross the outline.
    pub cuts: Vec<(CellIdx, CellIdx)>,
}

/// What each cell of a board costs to enter.
#[derive(Clone, Debug, PartialEq, Eq)]
pub struct Grid {
    /// The extent of the board.
    pub dims: Dims,
    /// The cost of entering each cell; [`OBSTACLE`] where copper may not go.
    pub cost: Vec<Cost>,
    /// Whether a via is forbidden at each cell; empty where it is nowhere.
    pub via_forbidden: Vec<bool>,
    /// Where the outline of the board forbids copper, if it matters.
    pub board: Option<BoardMask>,
}

impl Grid {
    /// Every cell has an index and a cost, and the masks cover every cell.
    pub open spec fn well_formed(&self) -> bool {
        &&& self.dims.indexable()
        &&& self.cost@.len() == self.dims.cells()
        &&& self.via_forbidden@.len() == 0 || self.via_forbidden@.len() == self.dims.cells()
        &&& self.board matches Some(m) ==> m.outside@.len() == self.dims.cells()
    }

    /// Copper may not enter `c`.
    pub open spec fn obstacle(&self, c: CellIdx) -> bool {
        self.cost@[c as int] == OBSTACLE
    }

    /// No via may be drilled at `c`.
    pub open spec fn no_via(&self, c: CellIdx) -> bool {
        self.via_forbidden@.len() > 0 && self.via_forbidden@[c as int]
    }

    /// `c` lies outside the outline of the board.
    pub open spec fn off_board(&self, c: CellIdx) -> bool {
        self.board matches Some(m) && m.outside@[c as int]
    }

    /// The step from `u` to `v` crosses the outline of the board.
    pub open spec fn cut(&self, u: CellIdx, v: CellIdx) -> bool {
        self.board matches Some(m) && m.cuts@.contains((u, v))
    }

    /// A grid on which every cell costs the same.
    pub fn filled(dims: Dims, cost: Cost) -> (g: Grid)
        requires
            dims.indexable(),
        ensures
            g.well_formed(),
            g.dims == dims,
            forall|c: int| 0 <= c < dims.cells() ==> #[trigger] g.cost@[c] == cost,
            g.via_forbidden@.len() == 0,
            g.board is None,
    {
        Grid { dims, cost: vec![cost; dims.len()], via_forbidden: Vec::new(), board: None }
    }

    /// Whether every cell has an index and a cost, and the masks cover every cell.
    pub fn is_well_formed(&self) -> (b: bool)
        ensures
            b == self.well_formed(),
    {
        if !self.dims.is_indexable() {
            return false;
        }
        let n: usize = self.dims.len();
        let masked = match &self.board {
            None => true,
            Some(m) => m.outside.len() == n,
        };
        self.cost.len() == n && (self.via_forbidden.len() == 0 || self.via_forbidden.len() == n)
            && masked
    }

    /// Sets the cost of a cell.
    pub fn set(&mut self, c: CellIdx, cost: Cost)
        requires
            c < old(self).cost@.len(),
        ensures
            final(self).cost@ == old(self).cost@.update(c as int, cost),
            final(self).dims == old(self).dims,
            final(self).via_forbidden@ == old(self).via_forbidden@,
            final(self).board == old(self).board,
    {
        self.cost.set(c as usize, cost);
    }

    /// The cost of entering a cell.
    pub fn cost_at(&self, c: CellIdx) -> (cost: Cost)
        requires
            c < self.cost@.len(),
        ensures
            cost == self.cost@[c as int],
    {
        self.cost[c as usize]
    }

    /// Whether copper may not enter a cell.
    pub fn is_obstacle(&self, c: CellIdx) -> (b: bool)
        requires
            c < self.cost@.len(),
        ensures
            b == self.obstacle(c),
    {
        self.cost[c as usize] == OBSTACLE
    }

    /// Whether no via may be drilled at a cell.
    pub fn is_via_forbidden(&self, c: CellIdx) -> (b: bool)
        requires
            self.well_formed(),
            self.dims.has(c),
        ensures
            b == self.no_via(c),
    {
        self.via_forbidden.len() > 0 && self.via_forbidden[c as usize]
    }

    /// Whether a cell lies outside the outline of the board.
    pub fn is_board_forbidden(&self, c: CellIdx) -> (b: bool)
        requires
            self.well_formed(),
            self.dims.has(c),
        ensures
            b == self.off_board(c),
    {
        match &self.board {
            None => false,
            Some(m) => m.outside[c as usize],
        }
    }

    /// Whether the planar step from `u` to `v` crosses the outline of the board.
    pub fn is_board_planar_step_forbidden(&self, u: CellIdx, v: CellIdx) -> (b: bool)
        ensures
            b == self.cut(u, v),
    {
        match &self.board {
            None => false,
            Some(m) => {
                let mut i: usize = 0;
                while i < m.cuts.len()
                    invariant
                        i <= m.cuts@.len(),
                        self.board == Some(*m),
                        forall|j: int| 0 <= j < i ==> m.cuts@[j] != (u, v),
                    decreases m.cuts@.len() - i,
                {
                    let (a, b) = m.cuts[i];
                    if a == u && b == v {
                        assert(m.cuts@[i as int] == (u, v));
                        return true;
                    }
                    i += 1;
                }
                false
            },
        }
    }
}

/// Builds a [`Grid`] by marking obstacle cells and inflating them.
#[derive(Clone, Debug)]
pub struct GridBuilder {
    /// The extent of the board.
    pub dims: Dims,
    /// What an open cell costs.
    pub base_cost: Cost,
    /// Whether each cell is an obstacle.
    pub blocked: Vec<bool>,
}

impl GridBuilder {
    /// Every cell has an index and a mark.
    pub open spec fn wf(&self) -> bool {
        &&& self.dims.indexable()
        &&& self.blocked@.len() == self.dims.cells()
        &&& self.base_cost != OBSTACLE
    }

    /// Only marks differ between two builders.
    pub open spec fn same_board(&self, o: &GridBuilder) -> bool {
        self.dims == o.dims && self.base_cost == o.base_cost
    }

    /// Cell `c` lies in column `x`, row `y` of layer `l`.
    pub open spec fn is_at(&self, c: int, x: int, y: int, l: int) -> bool {
        &&& self.dims.col(c as u32) == x
        &&& self.dims.row(c as u32) == y
        &&& self.dims.layer(c as u32) == l
    }

    /// Cell `c` lies in a rectangle of layer `l`, whatever the order of its corners.
    pub open spec fn is_in(&self, c: int, x0: int, y0: int, x1: int, y1: int, l: int) -> bool {
        let (x, y) = (self.dims.col(c as u32), self.dims.row(c as u32));
        &&& (x0 <= x <= x1 || x1 <= x <= x0)
        &&& (y0 <= y <= y1 || y1 <= y <= y0)
        &&& self.dims.layer(c as u32) == l
    }

    /// An obstacle lies within reach of cell `c`, on its layer.
    pub open spec fn is_near(&self, c: int, reach: &Reach) -> bool {
        exists|s: u32| self.dims.has(s) && self.blocked@[s as int] && #[trigger] reach@.covers(
            self.dims,
            s,
            c as u32,
        )
    }

    /// A builder with no obstacle.
    pub fn new(dims: Dims, base_cost: Cost) -> (b: GridBuilder)
        requires
            dims.indexable(),
            base_cost != OBSTACLE,
        ensures
            b.wf(),
            b.dims == dims,
            b.base_cost == base_cost,
            forall|c: int| 0 <= c < dims.cells() ==> !(#[trigger] b.blocked@[c]),
    {
        GridBuilder { dims, base_cost, blocked: vec![false; dims.len()] }
    }

    /// The extent of the board.
    pub fn dims(&self) -> (d: Dims)
        ensures
            d == self.dims,
    {
        self.dims
    }

    /// Sets the mark of a cell; one off the board is ignored.
    fn put(&mut self, x: u32, y: u32, layer: u32, mark: bool)
        requires
            old(self).wf(),
        ensures
            final(self).wf(),
            final(self).same_board(old(self)),
            forall|c: int|
                0 <= c < old(self).dims.cells() ==> #[trigger] final(self).blocked@[c] == if old(
                    self,
                ).is_at(c, x as int, y as int, layer as int) {
                    mark
                } else {
                    old(self).blocked@[c]
                },
    {
        let ghost dims = self.dims;
        if self.dims.in_bounds(x, y) && layer < self.dims.layers {
            let i: CellIdx = self.dims.idx3(x, y, layer);
            self.blocked.set(i as usize, mark);
            proof {
                assert forall|c: int|
                    0 <= c < dims.cells() && old(self).is_at(
                        c,
                        x as int,
                        y as int,
                        layer as int,
                    ) implies c == i by {
                    dims.lemma_same_place(c as u32, i);
                }
            }
        } else {
            proof {
                assert forall|c: int| 0 <= c < dims.cells() implies !old(self).is_at(
                    c,
                    x as int,
                    y as int,
                    layer as int,
                ) by {
                    dims.lemma_coords(c as u32);
                }
            }
        }
    }

    /// Marks a cell of the first layer as an obstacle; one off the board is ignored.
    pub fn mark_cell(&mut self, x: u32, y: u32) -> (r: &mut GridBuilder)
        requires
            old(self).wf(),
        ensures
            r.wf(),
            r.same_board(old(self)),
            forall|c: int|
                0 <= c < old(self).dims.cells() ==> #[trigger] r.blocked@[c] == (old(
                    self,
                ).blocked@[c] || old(self).is_at(c, x as int, y as int, 0)),
            *final(self) == *final(r),
    {
        self.mark_cell_layer(x, y, 0)
    }

    /// Marks a cell as an obstacle; one off the board is ignored.
    pub fn mark_cell_layer(&mut self, x: u32, y: u32, layer: u32) -> (r: &mut GridBuilder)
        requires
            old(self).wf(),
        ensures
            r.wf(),
            r.same_board(old(self)),
            forall|c: int|
                0 <= c < old(self).dims.cells() ==> #[trigger] r.blocked@[c] == (old(
                    self,
                ).blocked@[c] || old(self).is_at(c, x as int, y as int, layer as int)),
            *final(self) == *final(r),
    {
        self.put(x, y, layer, true);
        self
    }

    /// Opens a cell of the first layer; one off the board is ignored.
    pub fn clear_cell(&mut self, x: u32, y: u32) -> (r: &mut GridBuilder)
        requires
            old(self).wf(),
        ensures
            r.wf(),
            r.same_board(old(self)),
            forall|c: int|
                0 <= c < old(self).dims.cells() ==> #[trigger] r.blocked@[c] == (old(
                    self,
                ).blocked@[c] && !old(self).is_at(c, x as int, y as int, 0)),
            *final(self) == *final(r),
    {
        self.clear_cell_layer(x, y, 0)
    }

    /// Opens a cell; one off the board is ignored.
    pub fn clear_cell_layer(&mut self, x: u32, y: u32, layer: u32) -> (r: &mut GridBuilder)
        requires
            old(self).wf(),
        ensures
            r.wf(),
            r.same_board(old(self)),
            forall|c: int|
                0 <= c < old(self).dims.cells() ==> #[trigger] r.blocked@[c] == (old(
                    self,
                ).blocked@[c] && !old(self).is_at(c, x as int, y as int, layer as int)),
            *final(self) == *final(r),
    {
        self.put(x, y, layer, false);
        self
    }

    /// Marks a rectangle of the first layer, corners and edges with it.
    pub fn mark_rect(&mut self, x0: u32, y0: u32, x1: u32, y1: u32) -> (r: &mut GridBuilder)
        requires
            old(self).wf(),
        ensures
            r.wf(),
            r.same_board(old(self)),
            forall|c: int|
                0 <= c < old(self).dims.cells() ==> #[trigger] r.blocked@[c] == (old(
                    self,
                ).blocked@[c] || old(self).is_in(
                    c,
                    x0 as int,
                    y0 as int,
                    x1 as int,
                    y1 as int,
                    0,
                )),
            *final(self) == *final(r),
    {
        self.mark_rect_layer(x0, y0, x1, y1, 0)
    }

    /// Marks a rectangle, corners and edges with it. What is off the board is
    /// ignored, and the corners may come in any order.
    pub fn mark_rect_layer(&mut self, x0: u32, y0: u32, x1: u32, y1: u32, layer: u32) -> (r:
        &mut GridBuilder)
        requires
            old(self).wf(),
        ensures
            r.wf(),
            r.same_board(old(self)),
            forall|c: int|
                0 <= c < old(self).dims.cells() ==> #[trigger] r.blocked@[c] == (old(
                    self,
                ).blocked@[c] || old(self).is_in(
                    c,
                    x0 as int,
                    y0 as int,
                    x1 as int,
                    y1 as int,
                    layer as int,
                )),
            *final(self) == *final(r),
    {
        let ghost dims = self.dims;
        let ghost marks = self.blocked@;
        proof {
            assert forall|c: u32| dims.has(c) implies 0 <= #[trigger] dims.col(c) < dims.w && 0
                <= dims.row(c) < dims.h && 0 <= dims.layer(c) < dims.layers by {
                dims.lemma_coords(c);
            }
        }
        let lo_x: u32 = if x0 < x1 { x0 } else { x1 };
        let hi_x: u32 = if x0 < x1 { x1 } else { x0 };
        let lo_y: u32 = if y0 < y1 { y0 } else { y1 };
        let hi_y: u32 = if y0 < y1 { y1 } else { y0 };
        let end_x: u32 = if hi_x < self.dims.w { hi_x + 1 } else { self.dims.w };
        let end_y: u32 = if hi_y < self.dims.h { hi_y + 1 } else { self.dims.h };
        let mut y: u32 = lo_y;
        while y < end_y && layer < self.dims.layers
            invariant
                dims == old(self).dims,
                self.wf(),
                self.same_board(old(self)),
                marks == old(self).blocked@,
                lo_y <= y,
                end_x <= dims.w,
                end_y <= dims.h,
                y <= end_y || lo_y >= end_y,
                forall|c: int|
                    0 <= c < dims.cells() ==> #[trigger] self.blocked@[c] == (marks[c] || (lo_x
                        <= dims.col(c as u32) < end_x && lo_y <= dims.row(c as u32) < y
                        && dims.row(c as u32) < end_y && dims.layer(c as u32) == layer)),
            decreases end_y - y,
        {
            let ghost before = self.blocked@;
            let mut x: u32 = lo_x;
            while x < end_x
                invariant
                    dims == old(self).dims,
                    self.wf(),
                    self.same_board(old(self)),
                    before.len() == dims.cells(),
                    layer < dims.layers,
                    lo_x <= x,
                    end_x <= dims.w,
                    y < end_y <= dims.h,
                    forall|c: int|
                        0 <= c < dims.cells() ==> #[trigger] self.blocked@[c] == (before[c] || (lo_x
                            <= dims.col(c as u32) < x && dims.col(c as u32) < end_x && dims.row(
                            c as u32,
                        ) == y && dims.layer(c as u32) == layer)),
                decreases end_x - x,
            {
                let i: CellIdx = self.dims.idx3(x, y, layer);
                self.blocked.set(i as usize, true);
                proof {
                    assert forall|c: u32|
                        dims.has(c) && #[trigger] dims.col(c) == x && dims.row(c) == y
                            && dims.layer(c) == layer implies c == i by {
                        dims.lemma_same_place(c, i);
                    }
                }
                x += 1;
            }
            y += 1;
        }
        self
    }

    /// Grows every obstacle by what is within reach of it on its layer.
    ///
    /// Only obstacles that were there before grow, so that the growth of one does
    /// not grow again.
    pub fn inflate_clearance(&mut self, reach: &Reach) -> (r: &mut GridBuilder)
        requires
            old(self).wf(),
        ensures
            r.wf(),
            r.same_board(old(self)),
            forall|c: int|
                0 <= c < old(self).dims.cells() ==> #[trigger] r.blocked@[c] == (old(
                    self,
                ).blocked@[c] || old(self).is_near(c, reach)),
            *final(self) == *final(r),
    {
        let n: usize = self.dims.len();
        let seeds = copy_marks(&self.blocked);
        let ghost dims = self.dims;
        let mut s: usize = 0;
        while s < n
            invariant
                s <= n,
                n == dims.cells(),
                n <= u32::MAX,
                dims == old(self).dims,
                self.wf(),
                self.same_board(old(self)),
                seeds@ == old(self).blocked@,
                seeds@.len() == n,
                forall|c: int|
                    0 <= c < n ==> #[trigger] self.blocked@[c] == (seeds@[c] || exists|t: u32|
                        t < s && seeds@[t as int] && #[trigger] reach@.covers(dims, t, c as u32)),
            decreases n - s,
        {
            if seeds[s] {
                let ghost before = self.blocked@;
                self.grow(s as u32, reach);
                proof {
                    assert forall|c: int| 0 <= c < n implies #[trigger] self.blocked@[c] == (
                    seeds@[c] || exists|t: u32|
                        t < s + 1 && seeds@[t as int] && #[trigger] reach@.covers(
                            dims,
                            t,
                            c as u32,
                        )) by {
                        assert(before[c] == (seeds@[c] || exists|t: u32|
                            t < s && seeds@[t as int] && #[trigger] reach@.covers(
                                dims,
                                t,
                                c as u32,
                            )));
                        if reach@.covers(dims, s as u32, c as u32) {
                            assert(seeds@[s as u32 as int]);
                        }
                    }
                }
            }
            s += 1;
        }
        self
    }

    /// Marks what is within reach of one cell.
    fn grow(&mut self, s: CellIdx, reach: &Reach)
        requires
            old(self).wf(),
            old(self).dims.has(s),
        ensures
            final(self).wf(),
            final(self).same_board(old(self)),
            forall|c: int|
                0 <= c < old(self).dims.cells() ==> #[trigger] final(self).blocked@[c] == (old(
                    self,
                ).blocked@[c] || reach@.covers(old(self).dims, s, c as u32)),
    {
        let ghost dims = self.dims;
        let ghost marks = self.blocked@;
        let (sx, sy, sl) = self.dims.xyz(s);
        if (sx as usize) >= reach.x.len() || (sy as usize) >= reach.y.len() {
            return;
        }
        let xs = &reach.x[sx as usize];
        let ys = &reach.y[sy as usize];
        let mut b: usize = 0;
        while b < ys.len()
            invariant
                dims == old(self).dims,
                dims.has(s),
                self.wf(),
                self.same_board(old(self)),
                marks == old(self).blocked@,
                b <= ys@.len(),
                sl < dims.layers,
                forall|c: int|
                    0 <= c < dims.cells() ==> #[trigger] self.blocked@[c] == (marks[c] || (
                    dims.layer(c as u32) == sl && xs@.contains(dims.col(c as u32) as u32)
                        && ys@.take(b as int).contains(dims.row(c as u32) as u32))),
            decreases ys@.len() - b,
        {
            let y: u32 = ys[b];
            let ghost before = self.blocked@;
            let mut a: usize = 0;
            while a < xs.len() && y < self.dims.h
                invariant
                    dims == old(self).dims,
                    dims.has(s),
                    self.wf(),
                    self.same_board(old(self)),
                    before.len() == dims.cells(),
                    a <= xs@.len(),
                    sl < dims.layers,
                    forall|c: int|
                        0 <= c < dims.cells() ==> #[trigger] self.blocked@[c] == (before[c] || (
                        dims.layer(c as u32) == sl && xs@.take(a as int).contains(
                            dims.col(c as u32) as u32,
                        ) && dims.row(c as u32) == y)),
                decreases xs@.len() - a,
            {
                let x: u32 = xs[a];
                let ghost step = self.blocked@;
                if x < self.dims.w {
                    let i: CellIdx = self.dims.idx3(x, y, sl);
                    self.blocked.set(i as usize, true);
                    proof {
                        assert forall|c: u32|
                            dims.has(c) && #[trigger] dims.col(c) == x && dims.row(c) == y
                                && dims.layer(c) == sl implies c == i by {
                            dims.lemma_same_place(c, i);
                        }
                    }
                }
                proof {
                    assert forall|c: int| 0 <= c < dims.cells() implies #[trigger] self.blocked@[c]
                        == (before[c] || (dims.layer(c as u32) == sl && xs@.take(
                        a + 1,
                    ).contains(dims.col(c as u32) as u32) && dims.row(c as u32) == y)) by {
                        dims.lemma_coords(c as u32);
                        lemma_take_contains(xs@, a as int, dims.col(c as u32) as u32);
                        assert(step[c] == step[c]);
                    }
                }
                a += 1;
            }
            proof {
                assert forall|c: int| 0 <= c < dims.cells() implies #[trigger] self.blocked@[c] == (
                marks[c] || (dims.layer(c as u32) == sl && xs@.contains(dims.col(c as u32) as u32)
                    && ys@.take(b + 1).contains(dims.row(c as u32) as u32))) by {
                    dims.lemma_coords(c as u32);
                    lemma_take_contains(ys@, b as int, dims.row(c as u32) as u32);
                    assert(xs@.take(xs@.len() as int) =~= xs@);
                    assert(before[c] == before[c]);
                }
            }
            b += 1;
        }
        proof {
            assert(ys@.take(ys@.len() as int) =~= ys@);
            assert forall|c: int| 0 <= c < dims.cells() implies #[trigger] self.blocked@[c] == (
            marks[c] || reach@.covers(dims, s, c as u32)) by {
                dims.lemma_coords(c as u32);
            }
        }
    }

    /// The grid: obstacles where cells are marked, the base cost elsewhere.
    pub fn build(&self) -> (g: Grid)
        requires
            self.wf(),
        ensures
            g.well_formed(),
            g.dims == self.dims,
            g.via_forbidden@.len() == 0,
            g.board is None,
            forall|c: int|
                0 <= c < self.dims.cells() ==> #[trigger] g.cost@[c] == if self.blocked@[c] {
                    OBSTACLE
                } else {
                    self.base_cost
                },
    {
        let mut cost: Vec<Cost> = Vec::new();
        let mut i: usize = 0;
        while i < self.blocked.len()
            invariant
                i <= self.blocked@.len(),
                cost@.len() == i,
                forall|c: int|
                    0 <= c < i ==> #[trigger] cost@[c] == if self.blocked@[c] {
                        OBSTACLE
                    } else {
                        self.base_cost
                    },
            decreases self.blocked@.len() - i,
        {
            cost.push(if self.blocked[i] { OBSTACLE } else { self.base_cost });
            i += 1;
        }
        Grid { dims: self.dims, cost, via_forbidden: Vec::new(), board: None }
    }

    /// Marking a cell and clearing it again leaves every other cell as it was, and
    /// the cell open.
    pub proof fn law_clear_undoes_mark(
        a: GridBuilder,
        b: GridBuilder,
        c: GridBuilder,
        x: int,
        y: int,
        l: int,
        i: int,
    )
        requires
            a.wf(),
            0 <= i < a.dims.cells(),
            b.same_board(&a),
            b.blocked@[i] == (a.blocked@[i] || a.is_at(i, x, y, l)),
            c.blocked@[i] == (b.blocked@[i] && !b.is_at(i, x, y, l)),
        ensures
            a.is_at(i, x, y, l) ==> !c.blocked@[i],
            !a.is_at(i, x, y, l) ==> c.blocked@[i] == a.blocked@[i],
    {
    }

    /// The order of a rectangle's corners does not matter.
    pub proof fn law_corners_in_any_order(&self, c: int, x0: int, y0: int, x1: int, y1: int, l: int)
        ensures
            self.is_in(c, x0, y0, x1, y1, l) == self.is_in(c, x1, y1, x0, y0, l),
            self.is_in(c, x0, y0, x1, y1, l) == self.is_in(c, x1, y0, x0, y1, l),
    {
    }

    /// Obstacles grow within their own layer only.
    pub proof fn law_growth_is_planar(&self, c: int, reach: &Reach)
        requires
            self.wf(),
            0 <= c < self.dims.cells(),
            self.is_near(c, reach),
        ensures
            exists|s: u32|
                self.dims.has(s) && self.blocked@[s as int] && #[trigger] self.dims.layer(s)
                    == self.dims.layer(c as u32),
    {
        let s = choose|s: u32|
            self.dims.has(s) && self.blocked@[s as int] && #[trigger] reach@.covers(
                self.dims,
                s,
                c as u32,
            );
        assert(self.dims.layer(s) == self.dims.layer(c as u32));
    }

    /// A wider reach marks at least the cells that a narrower one marks.
    pub proof fn law_growth_is_monotone(&self, c: int, narrow: &Reach, wide: &Reach)
        requires
            self.is_near(c, narrow),
            forall|i: int, j: int| narrow@.near_x(i, j) ==> #[trigger] wide@.near_x(i, j),
            forall|i: int, j: int| narrow@.near_y(i, j) ==> #[trigger] wide@.near_y(i, j),
        ensures
            self.is_near(c, wide),
    {
        let s = choose|s: u32|
            self.dims.has(s) && self.blocked@[s as int] && #[trigger] narrow@.covers(
                self.dims,
                s,
                c as u32,
            );
        assert(wide@.near_x(self.dims.col(s), self.dims.col(c as u32)));
        assert(wide@.near_y(self.dims.row(s), self.dims.row(c as u32)));
        assert(wide@.covers(self.dims, s, c as u32));
    }
}

fn copy_marks(v: &Vec<bool>) -> (r: Vec<bool>)
    ensures
        r@ == v@,
{
    let mut r: Vec<bool> = Vec::new();
    let mut i: usize = 0;
    while i < v.len()
        invariant
            i <= v@.len(),
            r@ == v@.take(i as int),
        decreases v@.len() - i,
    {
        r.push(v[i]);
        i += 1;
        assert(v@.take(i as int) =~= v@.take(i - 1).push(v@[i - 1]));
    }
    assert(v@.take(v@.len() as int) =~= v@);
    r
}

/// One more element taken may add one member.
pub proof fn lemma_take_contains(s: Seq<u32>, i: int, x: u32)
    requires
        0 <= i < s.len(),
    ensures
        s.take(i + 1).contains(x) <==> s.take(i).contains(x) || s[i] == x,
{
    let (a, b) = (s.take(i), s.take(i + 1));
    if b.contains(x) {
        let k = choose|k: int| 0 <= k < b.len() && b[k] == x;
        if k < i {
            assert(a[k] == x);
        }
    }
    if a.contains(x) {
        let k = choose|k: int| 0 <= k < a.len() && a[k] == x;
        assert(b[k] == x);
    }
    if s[i] == x {
        assert(b[i] == x);
    }
}

} // verus!
