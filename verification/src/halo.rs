//! The cells around copper that other nets keep off, and who claims which cell.
use vstd::prelude::*;

use crate::board::{CellIdx, Dims};
use crate::geometry::{GeoView, Geometry, Reach, ReachView};
use crate::grid::Grid;

verus! {

/// The cells of one row of a halo: columns `xs[..k]`, row `y` of layer `l`. What is
/// off the board or an obstacle has no halo.
pub open spec fn row_cells(grid: &Grid, xs: Seq<u32>, y: int, l: int, k: nat) -> Seq<CellIdx>
    decreases k,
{
    if k == 0 {
        Seq::empty()
    } else {
        let rest = row_cells(grid, xs, y, l, (k - 1) as nat);
        let x = xs[k - 1] as int;
        let c = grid.dims.cell_at(x, y, l) as u32;
        if x < grid.dims.w && y < grid.dims.h && !grid.obstacle(c) {
            rest.push(c)
        } else {
            rest
        }
    }
}

/// The cells of a halo: columns `xs`, rows `ys[..k]` of layer `l`.
pub open spec fn box_cells(
    grid: &Grid,
    xs: Seq<u32>,
    ys: Seq<u32>,
    l: int,
    k: nat,
) -> Seq<CellIdx>
    decreases k,
{
    if k == 0 {
        Seq::empty()
    } else {
        box_cells(grid, xs, ys, l, (k - 1) as nat) + row_cells(
            grid,
            xs,
            ys[k - 1] as int,
            l,
            xs.len(),
        )
    }
}

/// The cells within reach of `s`, obstacles left out.
pub open spec fn reach_cells(grid: &Grid, reach: ReachView, s: CellIdx) -> Seq<CellIdx> {
    let d = grid.dims;
    if d.col(s) < reach.x.len() && d.row(s) < reach.y.len() {
        let xs = reach.x[d.col(s)];
        let ys = reach.y[d.row(s)];
        box_cells(grid, xs, ys, d.layer(s), ys.len())
    } else {
        Seq::empty()
    }
}

/// The clearance around the first `k` cells of a path.
pub open spec fn planar_halo(grid: &Grid, geo: GeoView, path: Seq<CellIdx>, k: nat) -> Seq<
    CellIdx,
>
    decreases k,
{
    if k == 0 {
        Seq::empty()
    } else {
        planar_halo(grid, geo, path, (k - 1) as nat) + reach_cells(
            grid,
            geo.clearance,
            path[k - 1],
        )
    }
}

/// The step into the cell at place `i` is a via.
pub open spec fn is_via(dims: Dims, path: Seq<CellIdx>, i: int) -> bool {
    let (a, b) = (path[i - 1], path[i]);
    dims.col(a) == dims.col(b) && dims.row(a) == dims.row(b) && dims.layer(a) != dims.layer(b)
}

/// The keepout around the vias among the first `k` cells of a path.
pub open spec fn via_halo(grid: &Grid, geo: GeoView, path: Seq<CellIdx>, k: nat) -> Seq<CellIdx>
    decreases k,
{
    if k <= 1 {
        Seq::empty()
    } else {
        let rest = via_halo(grid, geo, path, (k - 1) as nat);
        if is_via(grid.dims, path, k - 1) {
            rest + reach_cells(grid, geo.keepout, path[k - 2]) + reach_cells(
                grid,
                geo.keepout,
                path[k - 1],
            )
        } else {
            rest
        }
    }
}

/// The cells around a path that other nets keep off, each as often as it is covered.
pub open spec fn halo_cells(grid: &Grid, geo: GeoView, path: Seq<CellIdx>) -> Seq<CellIdx> {
    planar_halo(grid, geo, path, path.len()) + via_halo(grid, geo, path, path.len())
}

/// Every cell is on the board.
pub open spec fn on_board(dims: Dims, s: Seq<CellIdx>) -> bool {
    forall|i: int| 0 <= i < s.len() ==> dims.has(#[trigger] s[i])
}

/// Adds the cells within reach of `s` to a list.
fn push_reach(grid: &Grid, reach: &Reach, s: CellIdx, out: &mut Vec<CellIdx>)
    requires
        grid.well_formed(),
        grid.dims.has(s),
        on_board(grid.dims, old(out)@),
    ensures
        final(out)@ == old(out)@ + reach_cells(grid, reach@, s),
        on_board(grid.dims, final(out)@),
{
    let (sx, sy, sl) = grid.dims.xyz(s);
    if (sx as usize) >= reach.x.len() || (sy as usize) >= reach.y.len() {
        assert(out@ + reach_cells(grid, reach@, s) =~= out@);
        return;
    }
    let xs = &reach.x[sx as usize];
    let ys = &reach.y[sy as usize];
    let mut b: usize = 0;
    assert(out@ + Seq::<CellIdx>::empty() =~= out@);
    while b < ys.len()
        invariant
            grid.well_formed(),
            sl < grid.dims.layers,
            b <= ys@.len(),
            out@ == old(out)@ + box_cells(grid, xs@, ys@, sl as int, b as nat),
            on_board(grid.dims, out@),
        decreases ys@.len() - b,
    {
        let y: u32 = ys[b];
        let ghost before = out@;
        let mut a: usize = 0;
        assert(out@ + Seq::<CellIdx>::empty() =~= out@);
        while a < xs.len()
            invariant
                grid.well_formed(),
                sl < grid.dims.layers,
                a <= xs@.len(),
                out@ == before + row_cells(grid, xs@, y as int, sl as int, a as nat),
                on_board(grid.dims, out@),
            decreases xs@.len() - a,
        {
            let x: u32 = xs[a];
            let ghost rest = row_cells(grid, xs@, y as int, sl as int, a as nat);
            if x < grid.dims.w && y < grid.dims.h {
                let c: CellIdx = grid.dims.idx3(x, y, sl);
                if !grid.is_obstacle(c) {
                    out.push(c);
                    assert(out@ =~= before + rest.push(c));
                }
            }
            a += 1;
        }
        assert(out@ =~= old(out)@ + box_cells(grid, xs@, ys@, sl as int, (b + 1) as nat));
        b += 1;
    }
}

/// The cells around a path that other nets keep off, each as often as it is covered.
pub fn halo_list(grid: &Grid, geo: &Geometry, path: &Vec<CellIdx>) -> (out: Vec<CellIdx>)
    requires
        grid.well_formed(),
        on_board(grid.dims, path@),
    ensures
        out@ == halo_cells(grid, geo@, path@),
        on_board(grid.dims, out@),
{
    let mut out: Vec<CellIdx> = Vec::new();
    let n: usize = path.len();
    let mut i: usize = 0;
    while i < n
        invariant
            grid.well_formed(),
            on_board(grid.dims, path@),
            n == path@.len(),
            i <= n,
            out@ == planar_halo(grid, geo@, path@, i as nat),
            on_board(grid.dims, out@),
        decreases n - i,
    {
        assert(grid.dims.has(path@[i as int]));
        push_reach(grid, &geo.clearance, path[i], &mut out);
        i += 1;
    }
    let ghost planar = out@;
    let mut k: usize = 1;
    assert(planar + Seq::<CellIdx>::empty() =~= planar);
    while k < n
        invariant
            grid.well_formed(),
            on_board(grid.dims, path@),
            n == path@.len(),
            1 <= k,
            k <= n || n == 0 && k == 1,
            out@ == planar + via_halo(grid, geo@, path@, k as nat),
            on_board(grid.dims, out@),
        decreases n - k,
    {
        assert(grid.dims.has(path@[k - 1]));
        assert(grid.dims.has(path@[k as int]));
        let (ax, ay, al) = grid.dims.xyz(path[k - 1]);
        let (bx, by, bl) = grid.dims.xyz(path[k]);
        let ghost rest = via_halo(grid, geo@, path@, k as nat);
        if ax == bx && ay == by && al != bl {
            push_reach(grid, &geo.keepout, path[k - 1], &mut out);
            push_reach(grid, &geo.keepout, path[k], &mut out);
            assert(out@ =~= planar + (rest + reach_cells(grid, geo@.keepout, path@[k - 1])
                + reach_cells(grid, geo@.keepout, path@[k as int])));
        }
        k += 1;
    }
    proof {
        if n == 0 {
            assert(via_halo(grid, geo@, path@, k as nat) =~= via_halo(grid, geo@, path@, 0));
        }
        assert(out@ =~= halo_cells(grid, geo@, path@));
    }
    out
}

/// `c` is among the first `k` cells of a row exactly where its column is.
proof fn lemma_row_cells(grid: &Grid, xs: Seq<u32>, y: int, l: int, k: nat, c: CellIdx)
    requires
        grid.well_formed(),
        grid.dims.has(c),
        0 <= y,
        0 <= l < grid.dims.layers,
        k <= xs.len(),
    ensures
        row_cells(grid, xs, y, l, k).contains(c) <==> grid.dims.row(c) == y && grid.dims.layer(c)
            == l && !grid.obstacle(c) && xs.take(k as int).contains(grid.dims.col(c) as u32),
    decreases k,
{
    let d = grid.dims;
    d.lemma_coords(c);
    if k == 0 {
        assert(xs.take(0) =~= Seq::<u32>::empty());
    } else {
        let rest = row_cells(grid, xs, y, l, (k - 1) as nat);
        lemma_row_cells(grid, xs, y, l, (k - 1) as nat, c);
        crate::grid::lemma_take_contains(xs, k - 1, d.col(c) as u32);
        let x = xs[k - 1] as int;
        if x < d.w && y < d.h {
            d.lemma_cell_at(x, y, l);
            let e = d.cell_at(x, y, l) as u32;
            if d.col(c) == x && d.row(c) == y && d.layer(c) == l {
                d.lemma_same_place(c, e);
            }
            lemma_push_contains(rest, e, c);
        }
    }
}

proof fn lemma_push_contains(s: Seq<CellIdx>, e: CellIdx, c: CellIdx)
    ensures
        s.push(e).contains(c) <==> s.contains(c) || c == e,
{
    let t = s.push(e);
    if s.contains(c) {
        let i = choose|i: int| 0 <= i < s.len() && s[i] == c;
        assert(t[i] == c);
    }
    if c == e {
        assert(t[s.len() as int] == c);
    }
    if t.contains(c) && c != e {
        let i = choose|i: int| 0 <= i < t.len() && t[i] == c;
        assert(s[i] == c);
    }
}

/// The members of `a + b` are those of both.
pub proof fn lemma_add_contains(a: Seq<CellIdx>, b: Seq<CellIdx>, c: CellIdx)
    ensures
        (a + b).contains(c) <==> a.contains(c) || b.contains(c),
{
    let t = a + b;
    if a.contains(c) {
        let i = choose|i: int| 0 <= i < a.len() && a[i] == c;
        assert(t[i] == c);
    }
    if b.contains(c) {
        let i = choose|i: int| 0 <= i < b.len() && b[i] == c;
        assert(t[a.len() + i] == c);
    }
    if t.contains(c) {
        let i = choose|i: int| 0 <= i < t.len() && t[i] == c;
        if i < a.len() {
            assert(a[i] == c);
        } else {
            assert(b[i - a.len()] == c);
        }
    }
}

proof fn lemma_box_cells(
    grid: &Grid,
    xs: Seq<u32>,
    ys: Seq<u32>,
    l: int,
    k: nat,
    c: CellIdx,
)
    requires
        grid.well_formed(),
        grid.dims.has(c),
        0 <= l < grid.dims.layers,
        k <= ys.len(),
    ensures
        box_cells(grid, xs, ys, l, k).contains(c) <==> grid.dims.layer(c) == l && !grid.obstacle(c)
            && xs.contains(grid.dims.col(c) as u32) && ys.take(k as int).contains(
            grid.dims.row(c) as u32,
        ),
    decreases k,
{
    grid.dims.lemma_coords(c);
    if k == 0 {
        assert(ys.take(0) =~= Seq::<u32>::empty());
    } else {
        lemma_box_cells(grid, xs, ys, l, (k - 1) as nat, c);
        lemma_row_cells(grid, xs, ys[k - 1] as int, l, xs.len(), c);
        assert(xs.take(xs.len() as int) =~= xs);
        crate::grid::lemma_take_contains(ys, k - 1, grid.dims.row(c) as u32);
        lemma_add_contains(
            box_cells(grid, xs, ys, l, (k - 1) as nat),
            row_cells(grid, xs, ys[k - 1] as int, l, xs.len()),
            c,
        );
    }
}

/// A cell is listed exactly where it is within reach and no obstacle.
pub proof fn lemma_reach_cells(grid: &Grid, reach: ReachView, s: CellIdx, c: CellIdx)
    requires
        grid.well_formed(),
        grid.dims.has(s),
        grid.dims.has(c),
    ensures
        reach_cells(grid, reach, s).contains(c) <==> reach.covers(grid.dims, s, c)
            && !grid.obstacle(c),
{
    let d = grid.dims;
    d.lemma_coords(s);
    d.lemma_coords(c);
    if d.col(s) < reach.x.len() && d.row(s) < reach.y.len() {
        let xs = reach.x[d.col(s)];
        let ys = reach.y[d.row(s)];
        lemma_box_cells(grid, xs, ys, d.layer(s), ys.len(), c);
        assert(ys.take(ys.len() as int) =~= ys);
    }
}

/// `c` is within the clearance of a cell of the path.
pub open spec fn crowds(grid: &Grid, geo: GeoView, path: Seq<CellIdx>, c: CellIdx) -> bool {
    ||| exists|i: int|
        0 <= i < path.len() && #[trigger] geo.clearance.covers(grid.dims, path[i], c)
    ||| exists|i: int|
        0 < i < path.len() && #[trigger] is_via(grid.dims, path, i) && (geo.keepout.covers(
            grid.dims,
            path[i - 1],
            c,
        ) || geo.keepout.covers(grid.dims, path[i], c))
}

proof fn lemma_planar_halo(
    grid: &Grid,
    geo: GeoView,
    path: Seq<CellIdx>,
    k: nat,
    c: CellIdx,
)
    requires
        grid.well_formed(),
        on_board(grid.dims, path),
        k <= path.len(),
        grid.dims.has(c),
    ensures
        planar_halo(grid, geo, path, k).contains(c) <==> !grid.obstacle(c) && exists|i: int|
            0 <= i < k && #[trigger] geo.clearance.covers(grid.dims, path[i], c),
    decreases k,
{
    if k > 0 {
        lemma_planar_halo(grid, geo, path, (k - 1) as nat, c);
        assert(grid.dims.has(path[k - 1]));
        lemma_reach_cells(grid, geo.clearance, path[k - 1], c);
        lemma_add_contains(
            planar_halo(grid, geo, path, (k - 1) as nat),
            reach_cells(grid, geo.clearance, path[k - 1]),
            c,
        );
    }
}

proof fn lemma_via_halo(grid: &Grid, geo: GeoView, path: Seq<CellIdx>, k: nat, c: CellIdx)
    requires
        grid.well_formed(),
        on_board(grid.dims, path),
        k <= path.len(),
        grid.dims.has(c),
    ensures
        via_halo(grid, geo, path, k).contains(c) <==> !grid.obstacle(c) && exists|i: int|
            0 < i < k && #[trigger] is_via(grid.dims, path, i) && (geo.keepout.covers(
                grid.dims,
                path[i - 1],
                c,
            ) || geo.keepout.covers(grid.dims, path[i], c)),
    decreases k,
{
    if k > 1 {
        let rest = via_halo(grid, geo, path, (k - 1) as nat);
        lemma_via_halo(grid, geo, path, (k - 1) as nat, c);
        if is_via(grid.dims, path, k - 1) {
            assert(grid.dims.has(path[k - 1]));
            assert(grid.dims.has(path[k - 2]));
            let a = reach_cells(grid, geo.keepout, path[k - 2]);
            let b = reach_cells(grid, geo.keepout, path[k - 1]);
            lemma_reach_cells(grid, geo.keepout, path[k - 2], c);
            lemma_reach_cells(grid, geo.keepout, path[k - 1], c);
            lemma_add_contains(rest, a, c);
            lemma_add_contains(rest + a, b, c);
        }
    }
}

/// A cell is in the halo exactly where it crowds the path and is no obstacle.
pub proof fn lemma_halo_cells(grid: &Grid, geo: GeoView, path: Seq<CellIdx>, c: CellIdx)
    requires
        grid.well_formed(),
        on_board(grid.dims, path),
        grid.dims.has(c),
    ensures
        halo_cells(grid, geo, path).contains(c) <==> !grid.obstacle(c) && crowds(
            grid,
            geo,
            path,
            c,
        ),
{
    lemma_planar_halo(grid, geo, path, path.len(), c);
    lemma_via_halo(grid, geo, path, path.len(), c);
    lemma_add_contains(
        planar_halo(grid, geo, path, path.len()),
        via_halo(grid, geo, path, path.len()),
        c,
    );
}

/// Counts with each of `cells` counted once more, up to the largest number.
pub open spec fn bump(counts: Seq<u32>, cells: Seq<CellIdx>) -> Seq<u32> {
    Seq::new(
        counts.len(),
        |c: int|
            crate::search::sat(
                counts[c] + crate::cells::occurrences(cells, c as u32),
            ) as u32,
    )
}

/// Counts with each of `cells` counted once less, down to zero.
pub open spec fn unbump(counts: Seq<u32>, cells: Seq<CellIdx>) -> Seq<u32> {
    Seq::new(
        counts.len(),
        |c: int|
            {
                let n = crate::cells::occurrences(cells, c as u32);
                if counts[c] < n {
                    0
                } else {
                    (counts[c] - n) as u32
                }
            },
    )
}

/// Counts each of `cells` once more, up to the largest number.
pub fn bump_all(counts: &mut Vec<u32>, cells: &Vec<CellIdx>)
    requires
        old(counts)@.len() <= u32::MAX,
        forall|i: int| 0 <= i < cells@.len() ==> #[trigger] cells@[i] < old(counts)@.len(),
    ensures
        final(counts)@ == bump(old(counts)@, cells@),
{
    let ghost was = counts@;
    let mut i: usize = 0;
    proof {
        assert(cells@.take(0) =~= Seq::<u32>::empty());
        assert(counts@ =~= bump(was, cells@.take(0)));
    }
    while i < cells.len()
        invariant
            i <= cells@.len(),
            was.len() <= u32::MAX,
            counts@ == bump(was, cells@.take(i as int)),
            forall|j: int| 0 <= j < cells@.len() ==> #[trigger] cells@[j] < was.len(),
        decreases cells@.len() - i,
    {
        let c: usize = cells[i] as usize;
        let more: u32 = counts[c].saturating_add(1);
        counts.set(c, more);
        proof {
            assert(cells@.take(i + 1).drop_last() =~= cells@.take(i as int));
            assert(counts@ =~= bump(was, cells@.take(i + 1)));
        }
        i += 1;
    }
    assert(cells@.take(cells@.len() as int) =~= cells@);
}

/// Counts each of `cells` once less, down to zero.
pub fn unbump_all(counts: &mut Vec<u32>, cells: &Vec<CellIdx>)
    requires
        old(counts)@.len() <= u32::MAX,
        forall|i: int| 0 <= i < cells@.len() ==> #[trigger] cells@[i] < old(counts)@.len(),
    ensures
        final(counts)@ == unbump(old(counts)@, cells@),
{
    let ghost was = counts@;
    let mut i: usize = 0;
    proof {
        assert(cells@.take(0) =~= Seq::<u32>::empty());
        assert(counts@ =~= unbump(was, cells@.take(0)));
    }
    while i < cells.len()
        invariant
            i <= cells@.len(),
            was.len() <= u32::MAX,
            counts@ == unbump(was, cells@.take(i as int)),
            forall|j: int| 0 <= j < cells@.len() ==> #[trigger] cells@[j] < was.len(),
        decreases cells@.len() - i,
    {
        let c: usize = cells[i] as usize;
        let less: u32 = counts[c].saturating_sub(1);
        counts.set(c, less);
        proof {
            assert(cells@.take(i + 1).drop_last() =~= cells@.take(i as int));
            assert(counts@ =~= unbump(was, cells@.take(i + 1)));
        }
        i += 1;
    }
    assert(cells@.take(cells@.len() as int) =~= cells@);
}

/// Who claims a cell.
#[derive(Clone, Copy, Debug, PartialEq, Eq, Structural)]
pub enum Claim {
    /// Nobody.
    Free,
    /// More than one connection group.
    Mixed,
    /// One connection group.
    Group(usize),
}

impl Claim {
    /// The claim is not that of group `g` alone, and somebody's.
    pub open spec fn foreign(self, g: usize) -> bool {
        match self {
            Claim::Free => false,
            Claim::Mixed => true,
            Claim::Group(h) => h != g,
        }
    }

    /// The claim with one of group `g` added.
    pub open spec fn joined(self, g: usize) -> Claim {
        if self == Claim::Free || self == Claim::Group(g) {
            Claim::Group(g)
        } else {
            Claim::Mixed
        }
    }

    /// Whether the claim is not that of group `g` alone, and somebody's.
    pub fn is_foreign(self, g: usize) -> (b: bool)
        ensures
            b == self.foreign(g),
    {
        match self {
            Claim::Free => false,
            Claim::Mixed => true,
            Claim::Group(h) => h != g,
        }
    }
}

/// The claims on the cells of a board: by copper, and by the space around it.
#[verifier::ext_equal]
pub struct Claims {
    /// Which group's copper each cell holds.
    pub owner: Seq<Claim>,
    /// Which groups keep each cell free of other copper.
    pub halo: Seq<Claim>,
}

/// Nothing is claimed.
pub open spec fn unclaimed(n: nat) -> Claims {
    Claims {
        owner: Seq::new(n, |c: int| Claim::Free),
        halo: Seq::new(n, |c: int| Claim::Free),
    }
}

/// The claims when group `g` has put down a path.
///
/// The path's cells hold its copper. Cells around it that hold no copper and are no
/// obstacles are kept free; one that another group keeps free too is mixed.
pub open spec fn stamped(
    grid: &Grid,
    geo: GeoView,
    claims: Claims,
    path: Seq<CellIdx>,
    g: usize,
) -> Claims {
    let owner = Seq::new(
        claims.owner.len(),
        |c: int|
            if path.contains(c as u32) {
                Claim::Group(g)
            } else {
                claims.owner[c]
            },
    );
    Claims {
        owner,
        halo: Seq::new(
            claims.halo.len(),
            |c: int|
                if owner[c] == Claim::Free && halo_cells(grid, geo, path).contains(c as u32) {
                    claims.halo[c].joined(g)
                } else {
                    claims.halo[c]
                },
        ),
    }
}

/// A committed path for each net that has one.
pub type Committed = Vec<Option<Vec<CellIdx>>>;

/// Committed paths as plain values.
pub open spec fn committed_view(c: Seq<Option<Vec<CellIdx>>>) -> Seq<Option<Seq<CellIdx>>> {
    Seq::new(
        c.len(),
        |i: int|
            match c[i] {
                Some(p) => Some(p@),
                None => None,
            },
    )
}

/// The claims when the first `k` nets have put down their paths, one after another.
pub open spec fn claims_of(
    grid: &Grid,
    geo: GeoView,
    committed: Seq<Option<Seq<CellIdx>>>,
    groups: Seq<usize>,
    k: nat,
) -> Claims
    decreases k,
{
    if k == 0 {
        unclaimed(grid.dims.cells() as nat)
    } else {
        let before = claims_of(grid, geo, committed, groups, (k - 1) as nat);
        match committed[k - 1] {
            Some(p) => stamped(grid, geo, before, p, groups[k - 1]),
            None => before,
        }
    }
}

/// The maps and the plain claims agree.
pub open spec fn claims_view(owner: Seq<Claim>, halo: Seq<Claim>) -> Claims {
    Claims { owner, halo }
}

/// Enters a path of group `group` into the maps.
pub fn stamp_owner(
    owner: &mut Vec<Claim>,
    halo: &mut Vec<Claim>,
    grid: &Grid,
    geo: &Geometry,
    path: &Vec<CellIdx>,
    group: usize,
)
    requires
        grid.well_formed(),
        old(owner)@.len() == grid.dims.cells(),
        old(halo)@.len() == grid.dims.cells(),
        on_board(grid.dims, path@),
    ensures
        claims_view(final(owner)@, final(halo)@) == stamped(
            grid,
            geo@,
            claims_view(old(owner)@, old(halo)@),
            path@,
            group,
        ),
{
    let ghost was = claims_view(owner@, halo@);
    let ghost now = stamped(grid, geo@, was, path@, group);
    let mut i: usize = 0;
    while i < path.len()
        invariant
            grid.well_formed(),
            on_board(grid.dims, path@),
            i <= path@.len(),
            owner@.len() == grid.dims.cells(),
            was.owner.len() == grid.dims.cells(),
            forall|c: int|
                0 <= c < owner@.len() ==> #[trigger] owner@[c] == if path@.take(
                    i as int,
                ).contains(c as u32) {
                    Claim::Group(group)
                } else {
                    was.owner[c]
                },
        decreases path@.len() - i,
    {
        assert(grid.dims.has(path@[i as int]));
        let ghost before = owner@;
        owner.set(path[i] as usize, Claim::Group(group));
        proof {
            assert forall|c: int| 0 <= c < owner@.len() implies #[trigger] owner@[c]
                == if path@.take(i + 1).contains(c as u32) {
                Claim::Group(group)
            } else {
                was.owner[c]
            } by {
                crate::grid::lemma_take_contains(path@, i as int, c as u32);
                assert(before[c] == if path@.take(i as int).contains(c as u32) {
                    Claim::Group(group)
                } else {
                    was.owner[c]
                });
            }
        }
        i += 1;
    }
    assert(path@.take(path@.len() as int) =~= path@);
    assert(owner@ =~= now.owner);
    let around = halo_list(grid, geo, path);
    let mut k: usize = 0;
    while k < around.len()
        invariant
            grid.well_formed(),
            on_board(grid.dims, around@),
            k <= around@.len(),
            owner@.len() == grid.dims.cells(),
            halo@.len() == grid.dims.cells(),
            was.halo.len() == grid.dims.cells(),
            forall|c: int|
                0 <= c < halo@.len() ==> #[trigger] halo@[c] == if owner@[c] == Claim::Free
                    && around@.take(k as int).contains(c as u32) {
                    was.halo[c].joined(group)
                } else {
                    was.halo[c]
                },
        decreases around@.len() - k,
    {
        assert(grid.dims.has(around@[k as int]));
        let c: usize = around[k] as usize;
        let ghost before = halo@;
        if owner[c] == Claim::Free {
            let h = halo[c];
            if h == Claim::Free || h == Claim::Group(group) {
                halo.set(c, Claim::Group(group));
            } else {
                halo.set(c, Claim::Mixed);
            }
        }
        proof {
            assert forall|x: int| 0 <= x < halo@.len() implies #[trigger] halo@[x] == if owner@[x]
                == Claim::Free && around@.take(k + 1).contains(x as u32) {
                was.halo[x].joined(group)
            } else {
                was.halo[x]
            } by {
                crate::grid::lemma_take_contains(around@, k as int, x as u32);
                assert(before[x] == if owner@[x] == Claim::Free && around@.take(
                    k as int,
                ).contains(x as u32) {
                    was.halo[x].joined(group)
                } else {
                    was.halo[x]
                });
            }
        }
        k += 1;
    }
    proof {
        assert(around@.take(around@.len() as int) =~= around@);
        assert(halo@ =~= now.halo);
        assert(claims_view(owner@, halo@) =~= now);
    }
}

/// Makes the maps those of the committed paths alone.
pub fn rebuild_owner_maps(
    owner: &mut Vec<Claim>,
    halo: &mut Vec<Claim>,
    grid: &Grid,
    geo: &Geometry,
    committed: &Committed,
    groups: &Vec<usize>,
)
    requires
        grid.well_formed(),
        old(owner)@.len() == grid.dims.cells(),
        old(halo)@.len() == grid.dims.cells(),
        committed@.len() == groups@.len(),
        forall|i: int|
            0 <= i < committed@.len() ==> (#[trigger] committed@[i] matches Some(p) ==> on_board(
                grid.dims,
                p@,
            )),
    ensures
        claims_view(final(owner)@, final(halo)@) == claims_of(
            grid,
            geo@,
            committed_view(committed@),
            groups@,
            committed@.len(),
        ),
{
    let n: usize = grid.dims.len();
    let ghost cv = committed_view(committed@);
    let mut k: usize = 0;
    while k < n
        invariant
            k <= n,
            n == grid.dims.cells(),
            owner@.len() == n,
            halo@.len() == n,
            forall|c: int| 0 <= c < k ==> #[trigger] owner@[c] == Claim::Free,
            forall|c: int| 0 <= c < k ==> #[trigger] halo@[c] == Claim::Free,
        decreases n - k,
    {
        owner.set(k, Claim::Free);
        halo.set(k, Claim::Free);
        k += 1;
    }
    assert(claims_view(owner@, halo@) =~= unclaimed(n as nat));
    let mut i: usize = 0;
    while i < committed.len()
        invariant
            grid.well_formed(),
            i <= committed@.len(),
            committed@.len() == groups@.len(),
            owner@.len() == grid.dims.cells(),
            halo@.len() == grid.dims.cells(),
            cv == committed_view(committed@),
            forall|i: int|
                0 <= i < committed@.len() ==> (#[trigger] committed@[i] matches Some(p)
                    ==> on_board(grid.dims, p@)),
            claims_view(owner@, halo@) == claims_of(grid, geo@, cv, groups@, i as nat),
        decreases committed@.len() - i,
    {
        if let Some(path) = &committed[i] {
            assert(committed@[i as int] == Some(*path));
            assert(cv[i as int] == Some(path@));
            stamp_owner(owner, halo, grid, geo, path, groups[i]);
            proof {
                lemma_claims_len(grid, geo@, cv, groups@, (i + 1) as nat);
                assert(claims_view(owner@, halo@).owner == owner@);
                assert(claims_view(owner@, halo@).halo == halo@);
            }
        }
        i += 1;
    }
}

/// There is one claim for each cell.
pub proof fn lemma_claims_len(
    grid: &Grid,
    geo: GeoView,
    committed: Seq<Option<Seq<CellIdx>>>,
    groups: Seq<usize>,
    k: nat,
)
    requires
        grid.well_formed(),
    ensures
        claims_of(grid, geo, committed, groups, k).owner.len() == grid.dims.cells(),
        claims_of(grid, geo, committed, groups, k).halo.len() == grid.dims.cells(),
    decreases k,
{
    if k > 0 {
        lemma_claims_len(grid, geo, committed, groups, (k - 1) as nat);
    }
}

} // verus!
