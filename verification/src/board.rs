//! The extent of a board and the geometry of its cells.
use vstd::prelude::*;
use vstd::arithmetic::div_mod::{
    lemma_fundamental_div_mod, lemma_fundamental_div_mod_converse, lemma_mod_bound,
};

verus! {

/// Index of a cell: layer by layer, row by row.
pub type CellIdx = u32;

/// A routing cost.
pub type Cost = u32;

/// The cost of a cell that copper may not enter.
pub const OBSTACLE: Cost = u32::MAX;

/// The extent of a board in cells.
#[derive(Clone, Copy, Debug, PartialEq, Eq, Structural)]
pub struct Dims {
    /// Cells per row.
    pub w: u32,
    /// Rows per layer.
    pub h: u32,
    /// Copper layers.
    pub layers: u32,
}

impl Dims {
    /// Cells on one layer.
    pub open spec fn plane(self) -> int {
        self.w * self.h
    }

    /// Cells on the whole board.
    pub open spec fn cells(self) -> int {
        self.plane() * self.layers
    }

    /// Every cell has an index.
    pub open spec fn indexable(self) -> bool {
        self.cells() <= u32::MAX
    }

    /// `c` is a cell of this board.
    pub open spec fn has(self, c: CellIdx) -> bool {
        c < self.cells()
    }

    /// The column of a cell.
    pub open spec fn col(self, c: CellIdx) -> int {
        (c as int % self.plane()) % (self.w as int)
    }

    /// The row of a cell.
    pub open spec fn row(self, c: CellIdx) -> int {
        (c as int % self.plane()) / (self.w as int)
    }

    /// The copper layer of a cell.
    pub open spec fn layer(self, c: CellIdx) -> int {
        c as int / self.plane()
    }

    /// The index of the cell in column `x`, row `y` of layer `l`.
    pub open spec fn cell_at(self, x: int, y: int, l: int) -> int {
        l * self.plane() + y * self.w + x
    }

    /// `v` is the cell above, left of, right of or below `u` on the same layer.
    pub open spec fn planar_adjacent(self, u: CellIdx, v: CellIdx) -> bool {
        &&& self.has(u)
        &&& self.has(v)
        &&& self.layer(u) == self.layer(v)
        &&& {
            ||| self.col(u) == self.col(v) && (self.row(u) == self.row(v) + 1 || self.row(v)
                == self.row(u) + 1)
            ||| self.row(u) == self.row(v) && (self.col(u) == self.col(v) + 1 || self.col(v)
                == self.col(u) + 1)
        }
    }

    /// `v` lies directly over or under `u`, one layer away.
    pub open spec fn via_adjacent(self, u: CellIdx, v: CellIdx) -> bool {
        &&& self.has(u)
        &&& self.has(v)
        &&& self.col(u) == self.col(v)
        &&& self.row(u) == self.row(v)
        &&& (self.layer(u) == self.layer(v) + 1 || self.layer(v) == self.layer(u) + 1)
    }

    /// `v` can be reached from `u` in one step, on the layer or by a via.
    pub open spec fn adjacent(self, u: CellIdx, v: CellIdx) -> bool {
        self.planar_adjacent(u, v) || self.via_adjacent(u, v)
    }

    /// The planar neighbours of `c`, lowest index first.
    pub open spec fn spec_neighbors4(self, c: CellIdx) -> Seq<CellIdx> {
        let up = if self.row(c) > 0 { seq![(c - self.w) as u32] } else { Seq::empty() };
        let left = if self.col(c) > 0 { seq![(c - 1) as u32] } else { Seq::empty() };
        let right = if self.col(c) + 1 < self.w { seq![(c + 1) as u32] } else { Seq::empty() };
        let down = if self.row(c) + 1 < self.h { seq![(c + self.w) as u32] } else { Seq::empty() };
        up + left + right + down
    }

    /// The cells over and under `c`, lower layer first.
    pub open spec fn spec_via_neighbors(self, c: CellIdx) -> Seq<CellIdx> {
        let below = if self.layer(c) > 0 { seq![(c - self.plane()) as u32] } else { Seq::empty() };
        let above = if self.layer(c) + 1 < self.layers {
            seq![(c + self.plane()) as u32]
        } else {
            Seq::empty()
        };
        below + above
    }

    /// A cell's index is made of its column, its row and its layer.
    pub proof fn lemma_coords(self, c: CellIdx)
        requires
            self.has(c),
        ensures
            0 < self.w,
            0 < self.h,
            0 < self.plane(),
            0 <= self.col(c) < self.w,
            0 <= self.row(c) < self.h,
            0 <= self.layer(c) < self.layers,
            c == self.cell_at(self.col(c), self.row(c), self.layer(c)),
    {
        let (w, h, p, n) = (self.w as int, self.h as int, self.plane(), self.layers as int);
        assert(w > 0 && h > 0 && p > 0) by (nonlinear_arith)
            requires
                p == w * h,
                0 <= w,
                0 <= h,
                0 <= n,
                0 <= c < p * n,
        ;
        let r = c as int % p;
        lemma_fundamental_div_mod(c as int, p);
        lemma_mod_bound(c as int, p);
        lemma_fundamental_div_mod(r, w);
        lemma_mod_bound(r, w);
        let l = c as int / p;
        let y = r / w;
        assert(0 <= l < n) by (nonlinear_arith)
            requires
                c == p * l + r,
                0 <= r < p,
                0 <= c < p * n,
                p > 0,
        ;
        assert(0 <= y < h) by (nonlinear_arith)
            requires
                r == w * y + r % w,
                0 <= r % w < w,
                0 <= r < w * h,
                w > 0,
        ;
        assert(p * l == l * p) by (nonlinear_arith);
        assert(w * y == y * w) by (nonlinear_arith);
    }

    /// Every column, row and layer of the board name one cell.
    pub proof fn lemma_cell_at(self, x: int, y: int, l: int)
        requires
            0 <= x < self.w,
            0 <= y < self.h,
            0 <= l < self.layers,
            self.indexable(),
        ensures
            0 <= self.cell_at(x, y, l) < self.cells(),
            self.col(self.cell_at(x, y, l) as u32) == x,
            self.row(self.cell_at(x, y, l) as u32) == y,
            self.layer(self.cell_at(x, y, l) as u32) == l,
    {
        let (w, h, p, n) = (self.w as int, self.h as int, self.plane(), self.layers as int);
        let r = y * w + x;
        assert(0 <= r < p) by (nonlinear_arith)
            requires
                r == y * w + x,
                0 <= x < w,
                0 <= y < h,
                p == w * h,
        ;
        assert(0 <= l * p + r < p * n) by (nonlinear_arith)
            requires
                0 <= r < p,
                0 <= l < n,
        ;
        lemma_fundamental_div_mod_converse(l * p + r, p, l, r);
        lemma_fundamental_div_mod_converse(r, w, y, x);
    }

    /// Two cells in the same place are the same cell.
    pub proof fn lemma_same_place(self, u: CellIdx, v: CellIdx)
        requires
            self.has(u),
            self.has(v),
            self.col(u) == self.col(v),
            self.row(u) == self.row(v),
            self.layer(u) == self.layer(v),
        ensures
            u == v,
    {
        self.lemma_coords(u);
        self.lemma_coords(v);
    }

    /// The listed planar neighbours are exactly the planar adjacent cells.
    pub proof fn lemma_neighbors4(self, c: CellIdx)
        requires
            self.has(c),
            self.indexable(),
        ensures
            forall|v: CellIdx| #[trigger]
                self.spec_neighbors4(c).contains(v) <==> self.planar_adjacent(c, v),
    {
        self.lemma_coords(c);
        let (x, y, l) = (self.col(c), self.row(c), self.layer(c));
        let w = self.w as int;
        assert((y - 1) * w == y * w - w) by (nonlinear_arith);
        assert((y + 1) * w == y * w + w) by (nonlinear_arith);
        if y > 0 {
            self.lemma_cell_at(x, y - 1, l);
        }
        if x > 0 {
            self.lemma_cell_at(x - 1, y, l);
        }
        if x + 1 < w {
            self.lemma_cell_at(x + 1, y, l);
        }
        if y + 1 < self.h {
            self.lemma_cell_at(x, y + 1, l);
        }
        let s = self.spec_neighbors4(c);
        assert forall|v: CellIdx| #[trigger] s.contains(v) implies self.planar_adjacent(c, v) by {
            let i = choose|i: int| 0 <= i < s.len() && s[i] == v;
            assert(s[i] == v);
        }
        let up = if y > 0 { seq![(c - w) as u32] } else { Seq::<u32>::empty() };
        let left = if x > 0 { seq![(c - 1) as u32] } else { Seq::<u32>::empty() };
        let right = if x + 1 < w { seq![(c + 1) as u32] } else { Seq::<u32>::empty() };
        let down = if y + 1 < self.h { seq![(c + w) as u32] } else { Seq::<u32>::empty() };
        assert(s == up + left + right + down);
        assert forall|v: CellIdx| self.planar_adjacent(c, v) implies #[trigger] s.contains(v) by {
            self.lemma_coords(v);
            if self.row(v) + 1 == y {
                assert(s[0] == v);
            } else if self.col(v) + 1 == x {
                assert(s[up.len() as int] == v);
            } else if self.col(v) == x + 1 {
                assert(s[(up.len() + left.len()) as int] == v);
            } else {
                assert(s[(up.len() + left.len() + right.len()) as int] == v);
            }
        }
    }

    /// The listed via neighbours are exactly the via adjacent cells.
    pub proof fn lemma_via_neighbors(self, c: CellIdx)
        requires
            self.has(c),
            self.indexable(),
        ensures
            forall|v: CellIdx| #[trigger]
                self.spec_via_neighbors(c).contains(v) <==> self.via_adjacent(c, v),
    {
        self.lemma_coords(c);
        let (x, y, l, p) = (self.col(c), self.row(c), self.layer(c), self.plane());
        assert((l - 1) * p == l * p - p) by (nonlinear_arith);
        assert((l + 1) * p == l * p + p) by (nonlinear_arith);
        if l > 0 {
            self.lemma_cell_at(x, y, l - 1);
        }
        if l + 1 < self.layers {
            self.lemma_cell_at(x, y, l + 1);
        }
        let s = self.spec_via_neighbors(c);
        assert forall|v: CellIdx| #[trigger] s.contains(v) implies self.via_adjacent(c, v) by {
            let i = choose|i: int| 0 <= i < s.len() && s[i] == v;
            assert(s[i] == v);
        }
        assert forall|v: CellIdx| self.via_adjacent(c, v) implies #[trigger] s.contains(v) by {
            self.lemma_coords(v);
            if self.layer(v) + 1 == l {
                assert(s[0] == v);
            } else {
                assert(s[s.len() - 1] == v);
            }
        }
    }

    /// A board with one copper layer.
    pub fn new(w: u32, h: u32) -> (d: Dims)
        ensures
            d == (Dims { w, h, layers: 1 }),
    {
        Dims { w, h, layers: 1 }
    }

    /// A board with the given number of copper layers.
    pub fn with_layers(w: u32, h: u32, layers: u32) -> (d: Dims)
        ensures
            d == (Dims { w, h, layers }),
    {
        Dims { w, h, layers }
    }

    /// Whether every cell has an index.
    pub fn is_indexable(&self) -> (b: bool)
        ensures
            b == self.indexable(),
    {
        assert(0 <= self.w * self.h <= 0xffff_ffff * 0xffff_ffff) by (nonlinear_arith)
            requires
                0 <= self.w <= 0xffff_ffff,
                0 <= self.h <= 0xffff_ffff,
        ;
        let plane: u128 = (self.w as u64 * self.h as u64) as u128;
        assert(0 <= plane * self.layers <= 0xffff_ffff * 0xffff_ffff * 0xffff_ffff)
            by (nonlinear_arith)
            requires
                0 <= plane <= 0xffff_ffff * 0xffff_ffff,
                0 <= self.layers <= 0xffff_ffff,
        ;
        plane * (self.layers as u128) <= u32::MAX as u128
    }

    /// How many cells one layer has.
    pub(crate) fn plane_len(&self) -> (n: u32)
        requires
            self.indexable(),
            self.layers > 0,
        ensures
            n == self.plane(),
    {
        assert(0 <= self.w * self.h <= u32::MAX) by (nonlinear_arith)
            requires
                self.w * self.h * self.layers <= u32::MAX,
                self.layers > 0,
                self.w >= 0,
                self.h >= 0,
        ;
        self.w * self.h
    }

    /// How many cells the board has.
    pub fn len(&self) -> (n: usize)
        requires
            self.indexable(),
        ensures
            n == self.cells(),
    {
        if self.layers == 0 {
            assert(self.plane() * 0 == 0) by (nonlinear_arith);
            return 0;
        }
        let plane: u32 = self.plane_len();
        assert(0 <= plane * self.layers) by (nonlinear_arith);
        (plane * self.layers) as usize
    }

    /// Whether the board has no cell.
    pub fn is_empty(&self) -> (b: bool)
        requires
            self.indexable(),
        ensures
            b == (self.cells() == 0),
    {
        self.len() == 0
    }

    /// Whether `c` is a cell of this board.
    pub fn contains(&self, c: CellIdx) -> (b: bool)
        requires
            self.indexable(),
        ensures
            b == self.has(c),
    {
        (c as usize) < self.len()
    }

    /// Whether column `x` and row `y` are on the board.
    pub fn in_bounds(&self, x: u32, y: u32) -> (b: bool)
        ensures
            b == (x < self.w && y < self.h),
    {
        x < self.w && y < self.h
    }

    /// The cell in column `x`, row `y` of layer `l`.
    pub fn idx3(&self, x: u32, y: u32, l: u32) -> (c: CellIdx)
        requires
            self.indexable(),
            x < self.w,
            y < self.h,
            l < self.layers,
        ensures
            c == self.cell_at(x as int, y as int, l as int),
            self.has(c),
            self.col(c) == x,
            self.row(c) == y,
            self.layer(c) == l,
    {
        let plane: u32 = self.plane_len();
        proof {
            self.lemma_cell_at(x as int, y as int, l as int);
        }
        assert(0 <= l * plane && 0 <= y * self.w) by (nonlinear_arith);
        l * plane + y * self.w + x
    }

    /// The cell in column `x`, row `y` of the first layer.
    pub fn idx(&self, x: u32, y: u32) -> (c: CellIdx)
        requires
            self.indexable(),
            x < self.w,
            y < self.h,
            self.layers > 0,
        ensures
            c == y * self.w + x,
            self.has(c),
            self.col(c) == x,
            self.row(c) == y,
            self.layer(c) == 0,
    {
        assert(0 * self.plane() == 0) by (nonlinear_arith);
        self.idx3(x, y, 0)
    }

    /// The column, row and layer of a cell.
    pub fn xyz(&self, c: CellIdx) -> (p: (u32, u32, u32))
        requires
            self.indexable(),
            self.has(c),
        ensures
            p.0 == self.col(c),
            p.1 == self.row(c),
            p.2 == self.layer(c),
            p.0 < self.w,
            p.1 < self.h,
            p.2 < self.layers,
    {
        proof {
            self.lemma_coords(c);
        }
        let plane: u32 = self.plane_len();
        let rest: u32 = c % plane;
        (rest % self.w, rest / self.w, c / plane)
    }

    /// The column and row of a cell.
    pub fn xy(&self, c: CellIdx) -> (p: (u32, u32))
        requires
            self.indexable(),
            self.has(c),
        ensures
            p.0 == self.col(c),
            p.1 == self.row(c),
    {
        let (x, y, _l) = self.xyz(c);
        (x, y)
    }

    /// The layer of a cell.
    pub fn layer_of(&self, c: CellIdx) -> (l: u32)
        requires
            self.indexable(),
            self.has(c),
        ensures
            l == self.layer(c),
    {
        let (_x, _y, l) = self.xyz(c);
        l
    }

    /// The planar neighbours of a cell, lowest index first.
    pub fn neighbors4(&self, c: CellIdx) -> (v: Vec<CellIdx>)
        requires
            self.indexable(),
            self.has(c),
        ensures
            v@ == self.spec_neighbors4(c),
            forall|u: CellIdx| #[trigger] v@.contains(u) <==> self.planar_adjacent(c, u),
    {
        proof {
            self.lemma_neighbors4(c);
            self.lemma_coords(c);
            let (x, y, l, w) = (self.col(c), self.row(c), self.layer(c), self.w as int);
            assert((y - 1) * w == y * w - w) by (nonlinear_arith);
            assert((y + 1) * w == y * w + w) by (nonlinear_arith);
            if y > 0 {
                self.lemma_cell_at(x, y - 1, l);
            }
            if x + 1 < w {
                self.lemma_cell_at(x + 1, y, l);
            }
            if y + 1 < self.h {
                self.lemma_cell_at(x, y + 1, l);
            }
        }
        let (x, y, _l) = self.xyz(c);
        let mut v: Vec<CellIdx> = Vec::new();
        if y > 0 {
            v.push(c - self.w);
        }
        if x > 0 {
            v.push(c - 1);
        }
        if x < self.w - 1 {
            v.push(c + 1);
        }
        if y < self.h - 1 {
            v.push(c + self.w);
        }
        assert(v@ =~= self.spec_neighbors4(c));
        v
    }

    /// The cells over and under a cell, lower layer first.
    pub fn via_neighbors(&self, c: CellIdx) -> (v: Vec<CellIdx>)
        requires
            self.indexable(),
            self.has(c),
        ensures
            v@ == self.spec_via_neighbors(c),
            forall|u: CellIdx| #[trigger] v@.contains(u) <==> self.via_adjacent(c, u),
    {
        proof {
            self.lemma_via_neighbors(c);
            self.lemma_coords(c);
            let (x, y, l, p) = (self.col(c), self.row(c), self.layer(c), self.plane());
            assert((l - 1) * p == l * p - p) by (nonlinear_arith);
            assert((l + 1) * p == l * p + p) by (nonlinear_arith);
            if l > 0 {
                self.lemma_cell_at(x, y, l - 1);
            }
            if l + 1 < self.layers {
                self.lemma_cell_at(x, y, l + 1);
            }
        }
        let plane: u32 = self.plane_len();
        let (_x, _y, l) = self.xyz(c);
        let mut v: Vec<CellIdx> = Vec::new();
        if l > 0 {
            v.push(c - plane);
        }
        if l < self.layers - 1 {
            v.push(c + plane);
        }
        assert(v@ =~= self.spec_via_neighbors(c));
        v
    }
}

} // verus!
