//! Distance fields by separable sweeps, and the routes that they hold.
//!
//! A row sweep runs along each row and back, a column sweep along each column and
//! back, and each lowers a cell's distance to what its neighbour on the line
//! allows. The rounds end when one changes nothing; the field is then the same as
//! that of a wavefront. A field holds no tie-break: that belongs to the walk back,
//! which keeps to the fewest steps and then to the lowest predecessor.
use vstd::prelude::*;

use crate::board::{CellIdx, Cost, Dims};
use crate::grid::Grid;
use crate::path::Graph;
use crate::search::{astar_buf, flood, SearchBuf, SearchSpace, NO_PRED};

verus! {

/// The planar steps on a grid, whatever the outline of the board.
pub open spec fn open_graph(grid: &Grid) -> Graph {
    Graph {
        cells: grid.dims.cells() as nat,
        edge: |u: CellIdx, v: CellIdx|
            {
                if grid.dims.planar_adjacent(u, v) && !grid.obstacle(v) {
                    Some(grid.cost@[v as int] as nat)
                } else {
                    None
                }
            },
    }
}

/// What it costs to get from `src` to `c`; the largest cost where it cannot be done.
pub open spec fn field_at(grid: &Grid, src: CellIdx, c: CellIdx) -> Cost {
    if !grid.dims.has(src) || grid.obstacle(src) {
        Cost::MAX
    } else {
        crate::search::distance(open_graph(grid), src, c)
    }
}

/// `dist` holds for every cell what it costs to get there from `src`.
pub open spec fn is_field(grid: &Grid, src: CellIdx, dist: Seq<Cost>) -> bool {
    &&& dist.len() == grid.dims.cells()
    &&& forall|c: CellIdx| grid.dims.has(c) ==> dist[c as int] == #[trigger] field_at(grid, src, c)
}

/// The steps that a distance field explains, each counting one.
pub open spec fn tight_graph(grid: &Grid, dist: Seq<Cost>) -> Graph {
    Graph {
        cells: grid.dims.cells() as nat,
        edge: |u: CellIdx, v: CellIdx|
            {
                if grid.dims.planar_adjacent(u, v) && !grid.obstacle(v) && dist[u as int]
                    != Cost::MAX && crate::search::sat(dist[u as int] + grid.cost@[v as int])
                    == dist[v as int] {
                    Some(1nat)
                } else {
                    None
                }
            },
    }
}

/// The route that a distance field holds: over steps that the field explains, with
/// the fewest of them and the lowest predecessors.
pub open spec fn field_path(grid: &Grid, dist: Seq<Cost>, src: CellIdx, dst: CellIdx) -> Option<
    Seq<CellIdx>,
> {
    if dist.len() != grid.dims.cells() || !grid.dims.has(src) || !grid.dims.has(dst)
        || dist[dst as int] == Cost::MAX {
        None
    } else {
        match tight_graph(grid, dist).route(src, dst, Cost::MAX as nat) {
            Some((p, _)) => Some(p),
            None => None,
        }
    }
}

/// A grid as its wavefront sees it.
struct OpenSpace<'a> {
    grid: &'a Grid,
}

impl<'a> SearchSpace for OpenSpace<'a> {
    closed spec fn extent(&self) -> Dims {
        self.grid.dims
    }

    closed spec fn valid(&self) -> bool {
        self.grid.well_formed()
    }

    closed spec fn planar_price(&self, u: CellIdx, v: CellIdx) -> Cost {
        self.grid.cost@[v as int]
    }

    closed spec fn closed(&self, c: CellIdx) -> bool {
        self.grid.obstacle(c)
    }

    closed spec fn estimate(&self, c: CellIdx) -> Cost {
        0
    }

    closed spec fn via_price(&self, u: CellIdx, v: CellIdx) -> Option<Cost> {
        None
    }

    fn cost(&self, u: CellIdx, v: CellIdx) -> (c: Cost) {
        self.grid.cost_at(v)
    }

    fn blocked(&self, c: CellIdx) -> (b: bool) {
        self.grid.is_obstacle(c)
    }

    fn heuristic(&self, c: CellIdx) -> (h: Cost) {
        0
    }

    fn via_step(&self, u: CellIdx, v: CellIdx) -> (c: Option<Cost>) {
        None
    }
}

/// The steps that a distance field explains.
struct TightSpace<'a> {
    grid: &'a Grid,
    dist: &'a [Cost],
}

impl<'a> SearchSpace for TightSpace<'a> {
    closed spec fn extent(&self) -> Dims {
        self.grid.dims
    }

    closed spec fn valid(&self) -> bool {
        self.grid.well_formed() && self.dist@.len() == self.grid.dims.cells()
    }

    closed spec fn planar_price(&self, u: CellIdx, v: CellIdx) -> Cost {
        if !self.grid.obstacle(v) && self.dist@[u as int] != Cost::MAX && crate::search::sat(
            self.dist@[u as int] + self.grid.cost@[v as int],
        ) == self.dist@[v as int] {
            1
        } else {
            Cost::MAX
        }
    }

    closed spec fn closed(&self, c: CellIdx) -> bool {
        false
    }

    closed spec fn estimate(&self, c: CellIdx) -> Cost {
        0
    }

    closed spec fn via_price(&self, u: CellIdx, v: CellIdx) -> Option<Cost> {
        None
    }

    fn cost(&self, u: CellIdx, v: CellIdx) -> (c: Cost) {
        let du: Cost = self.dist[u as usize];
        if !self.grid.is_obstacle(v) && du != Cost::MAX && du.saturating_add(self.grid.cost_at(v))
            == self.dist[v as usize] {
            1
        } else {
            Cost::MAX
        }
    }

    fn blocked(&self, c: CellIdx) -> (b: bool) {
        false
    }

    fn heuristic(&self, c: CellIdx) -> (h: Cost) {
        0
    }

    fn via_step(&self, u: CellIdx, v: CellIdx) -> (c: Option<Cost>) {
        None
    }
}

/// A distance field with the cell that each cell is entered from.
pub struct DijkstraField {
    /// What it costs to get to each cell; the largest cost where it cannot be done.
    pub dist: Vec<Cost>,
    /// The cell from which the canonical route enters each cell.
    pub pred: Vec<CellIdx>,
}

/// The distance field of a wavefront from `src`.
pub fn dijkstra(grid: &Grid, src: CellIdx) -> (f: DijkstraField)
    requires
        grid.well_formed(),
        grid.dims.has(src),
    ensures
        is_field(grid, src, f.dist@),
        f.pred@.len() == grid.dims.cells(),
        forall|c: CellIdx|
            grid.dims.has(c) ==> #[trigger] f.pred@[c as int] == if f.dist@[c as int]
                == Cost::MAX {
                NO_PRED
            } else {
                crate::search::canonical_pred(open_graph(grid), src, c)
            },
{
    let n: usize = grid.dims.len();
    let mut buf = SearchBuf::new(n);
    let space = OpenSpace { grid };
    proof {
        assert(crate::search::graph_of(&space).edge =~= open_graph(grid).edge);
    }
    flood(&mut buf, grid.dims, src, &space);
    let mut dist: Vec<Cost> = Vec::new();
    let mut pred: Vec<CellIdx> = Vec::new();
    let mut i: usize = 0;
    while i < n
        invariant
            i <= n,
            n == grid.dims.cells(),
            n <= u32::MAX,
            buf.wf(n as int),
            dist@.len() == i,
            pred@.len() == i,
            forall|c: int| 0 <= c < i ==> #[trigger] dist@[c] == buf.label(c).dist,
            forall|c: int|
                0 <= c < i ==> #[trigger] pred@[c] == if dist@[c] == Cost::MAX {
                    NO_PRED
                } else {
                    buf.label(c).pred
                },
        decreases n - i,
    {
        let d: Cost = buf.dist_of(i as u32);
        let p: CellIdx = if d == Cost::MAX {
            NO_PRED
        } else {
            buf.pred_of(i as u32)
        };
        dist.push(d);
        pred.push(p);
        i += 1;
    }
    proof {
        assert forall|c: CellIdx| grid.dims.has(c) implies dist@[c as int] == #[trigger] field_at(
            grid,
            src,
            c,
        ) by {
            assert(dist@[c as int] == buf.label(c as int).dist);
        }
        assert forall|c: CellIdx|
            grid.dims.has(c) && dist@[c as int] != Cost::MAX implies #[trigger] pred@[c as int]
            == crate::search::canonical_pred(open_graph(grid), src, c) by {
            assert(dist@[c as int] == buf.label(c as int).dist);
        }
    }
    DijkstraField { dist, pred }
}

/// The distance field of a wavefront from `src`; every cell has the largest cost
/// where `src` is off the board.
pub fn bfs_distance_field(grid: &Grid, src: CellIdx) -> (dist: Vec<Cost>)
    requires
        grid.well_formed(),
    ensures
        is_field(grid, src, dist@),
{
    if !grid.dims.contains(src) {
        return vec![Cost::MAX; grid.dims.len()];
    }
    dijkstra(grid, src).dist
}

/// The cells that predecessors lead through from `cur` back to `src`, within `fuel`
/// steps.
pub open spec fn chain(pred: Seq<CellIdx>, src: CellIdx, cur: CellIdx, fuel: nat) -> Option<
    Seq<CellIdx>,
>
    decreases fuel,
{
    if cur == src {
        Some(seq![src])
    } else if fuel == 0 || pred[cur as int] == NO_PRED || pred[cur as int] >= pred.len()
        && pred[cur as int] != src {
        None
    } else {
        match chain(pred, src, pred[cur as int], (fuel - 1) as nat) {
            Some(p) => Some(p.push(cur)),
            None => None,
        }
    }
}

/// The route that predecessors hold from `src` to `dst`. There is none where `dst`
/// has the largest cost, or where the predecessors do not lead back to `src`.
pub fn reconstruct_path(pred: &[CellIdx], src: CellIdx, dst: CellIdx, dist: &[Cost]) -> (r: Option<
    Vec<CellIdx>,
>)
    requires
        dst < dist@.len(),
        dist@.len() == pred@.len(),
        pred@.len() <= u32::MAX,
    ensures
        (match r {
            Some(p) => Some(p@),
            None => None,
        }) == if dist@[dst as int] == Cost::MAX {
            None
        } else {
            chain(pred@, src, dst, pred@.len())
        },
{
    if dist[dst as usize] == Cost::MAX {
        return None;
    }
    let mut back: Vec<CellIdx> = Vec::new();
    back.push(dst);
    let mut cur: CellIdx = dst;
    let mut left: usize = pred.len();
    proof {
        assert(back@.reverse() =~= seq![dst]);
    }
    while cur != src
        invariant
            pred@.len() <= u32::MAX,
            cur < pred@.len() || cur == src,
            left <= pred@.len(),
            back@.len() > 0,
            back@.last() == cur,
            (match chain(pred@, src, cur, left as nat) {
                Some(p) => Some(p + back@.reverse().skip(1)),
                None => None,
            }) == chain(pred@, src, dst, pred@.len()),
        decreases left,
    {
        if left == 0 {
            return None;
        }
        let p: CellIdx = pred[cur as usize];
        if p == NO_PRED || (p as usize) >= pred.len() && p != src {
            return None;
        }
        let ghost before = back@;
        let ghost fuel = left as nat;
        back.push(p);
        proof {
            let rest = chain(pred@, src, p, (fuel - 1) as nat);
            if rest is Some {
                let a = rest->0;
                assert(a.push(cur) + before.reverse().skip(1) =~= a + back@.reverse().skip(1)) by {
                    assert(back@.reverse() =~= seq![p] + before.reverse());
                    assert(before.reverse() =~= seq![cur] + before.reverse().skip(1));
                    assert(back@.reverse().skip(1) =~= before.reverse());
                }
            }
        }
        cur = p;
        left -= 1;
    }
    proof {
        assert(chain(pred@, src, cur, left as nat) == Some(seq![src]));
        assert(seq![src] + back@.reverse().skip(1) =~= back@.reverse());
    }
    let mut r: Vec<CellIdx> = Vec::new();
    let mut i: usize = back.len();
    while i > 0
        invariant
            i <= back@.len(),
            r@.len() == back@.len() - i,
            forall|j: int| 0 <= j < r@.len() ==> #[trigger] r@[j] == back@[back@.len() - 1 - j],
        decreases i,
    {
        i -= 1;
        r.push(back[i]);
    }
    assert(r@ =~= back@.reverse());
    Some(r)
}

/// A walk of cost `d` leads from `src` to `c`.
spec fn has_walk(g: Graph, src: CellIdx, c: CellIdx, d: int) -> bool {
    exists|p: Seq<CellIdx>| #[trigger] g.connects(src, c, p) && g.cost(p) == d
}

/// Every distance below the largest cost is that of some walk.
spec fn reached(g: Graph, src: CellIdx, dist: Seq<Cost>) -> bool {
    &&& dist.len() == g.cells
    &&& src < g.cells
    &&& dist[src as int] == 0
    &&& forall|c: CellIdx|
        c < dist.len() && #[trigger] dist[c as int] < Cost::MAX ==> has_walk(
            g,
            src,
            c,
            dist[c as int] as int,
        )
}

/// The step from `u` to `v` cannot lower the distance of `v`.
spec fn slackless(g: Graph, dist: Seq<Cost>, u: CellIdx, v: CellIdx) -> bool {
    g.joins(u, v) ==> dist[v as int] <= crate::search::sat(dist[u as int] + g.price(u, v))
}

/// The sum of the distances.
spec fn total(dist: Seq<Cost>) -> nat
    decreases dist.len(),
{
    if dist.len() == 0 {
        0
    } else {
        total(dist.drop_last()) + dist.last() as nat
    }
}

proof fn lemma_total_update(dist: Seq<Cost>, i: int, d: Cost)
    requires
        0 <= i < dist.len(),
    ensures
        total(dist.update(i, d)) == total(dist) - dist[i] + d,
    decreases dist.len(),
{
    if i == dist.len() - 1 {
        assert(dist.update(i, d).drop_last() =~= dist.drop_last());
    } else {
        lemma_total_update(dist.drop_last(), i, d);
        assert(dist.update(i, d).drop_last() =~= dist.drop_last().update(i, d));
    }
}

/// Where no step lowers a distance, no walk is cheaper than the distance.
proof fn lemma_walk_bound(g: Graph, src: CellIdx, dist: Seq<Cost>, p: Seq<CellIdx>)
    requires
        reached(g, src, dist),
        forall|u: CellIdx, v: CellIdx| #[trigger] g.joins(u, v) ==> slackless(g, dist, u, v),
        g.is_walk(p),
        p[0] == src,
    ensures
        p.last() < dist.len(),
        dist[p.last() as int] <= crate::search::sat(g.cost(p) as int),
    decreases p.len(),
{
    if p.len() > 1 {
        let n = p.len() as int;
        g.lemma_take(p, n - 1);
        assert(p.take(n - 1) =~= p.drop_last());
        lemma_walk_bound(g, src, dist, p.drop_last());
        assert(g.steps(p, n - 1));
        assert(slackless(g, dist, p[n - 2], p[n - 1]));
    }
}

/// Where no step lowers a distance, the distances are those of the canonical walks.
proof fn lemma_converged(g: Graph, src: CellIdx, dist: Seq<Cost>, c: CellIdx)
    requires
        reached(g, src, dist),
        forall|u: CellIdx, v: CellIdx| #[trigger] g.joins(u, v) ==> slackless(g, dist, u, v),
        c < dist.len(),
    ensures
        dist[c as int] == crate::search::distance(g, src, c),
{
    g.lemma_routable(src, c, Cost::MAX as nat);
    if dist[c as int] < Cost::MAX {
        let p = choose|p: Seq<CellIdx>| #[trigger]
            g.connects(src, c, p) && g.cost(p) == dist[c as int];
        let r = (g.route(src, c, Cost::MAX as nat)->0).0;
        assert(g.no_worse(r, p));
    }
    if g.route(src, c, Cost::MAX as nat) is Some {
        let r = (g.route(src, c, Cost::MAX as nat)->0).0;
        lemma_walk_bound(g, src, dist, r);
    }
}

/// Lowers the distance of `to` to what a step from `from` allows.
fn relax_edge(
    grid: &Grid,
    dist: &mut Vec<Cost>,
    from: CellIdx,
    to: CellIdx,
    Ghost(src): Ghost<CellIdx>,
) -> (changed: bool)
    requires
        grid.well_formed(),
        grid.dims.planar_adjacent(from, to),
        reached(open_graph(grid), src, old(dist)@),
    ensures
        reached(open_graph(grid), src, final(dist)@),
        final(dist)@ == old(dist)@.update(to as int, final(dist)@[to as int]),
        changed ==> total(final(dist)@) < total(old(dist)@),
        !changed ==> final(dist)@ == old(dist)@ && slackless(
            open_graph(grid),
            old(dist)@,
            from,
            to,
        ),
{
    let ghost g = open_graph(grid);
    let du: Cost = dist[from as usize];
    if du == Cost::MAX || grid.is_obstacle(to) {
        assert(dist@.update(to as int, dist@[to as int]) =~= dist@);
        return false;
    }
    let cand: Cost = du.saturating_add(grid.cost_at(to));
    if cand < dist[to as usize] {
        let ghost before = dist@;
        proof {
            lemma_total_update(before, to as int, cand);
            assert(has_walk(g, src, from, before[from as int] as int));
            let p = choose|p: Seq<CellIdx>| #[trigger]
                g.connects(src, from, p) && g.cost(p) == before[from as int];
            assert(g.joins(from, to));
            g.lemma_push(p, to);
            assert(g.connects(src, to, p.push(to)));
            assert(has_walk(g, src, to, cand as int));
        }
        dist.set(to as usize, cand);
        true
    } else {
        assert(dist@.update(to as int, dist@[to as int]) =~= dist@);
        false
    }
}

/// The cells of a line, each a planar step from the one before it, on one layer.
spec fn is_line(dims: Dims, line: Seq<CellIdx>, layer: int) -> bool {
    &&& forall|i: int|
        0 <= i < line.len() ==> dims.has(#[trigger] line[i]) && dims.layer(line[i]) == layer
    &&& forall|i: int| 0 < i < line.len() ==> #[trigger] neighbours(dims, line, i)
}

spec fn neighbours(dims: Dims, line: Seq<CellIdx>, i: int) -> bool {
    dims.planar_adjacent(line[i - 1], line[i]) && dims.planar_adjacent(line[i], line[i - 1])
}

/// No step along the line lowers a distance, in either direction.
spec fn line_done(g: Graph, dist: Seq<Cost>, line: Seq<CellIdx>, i: int) -> bool {
    slackless(g, dist, line[i - 1], line[i]) && slackless(g, dist, line[i], line[i - 1])
}

/// No cell off the layer was reached.
spec fn on_layer(dims: Dims, dist: Seq<Cost>, layer: int) -> bool {
    forall|c: CellIdx|
        dims.has(c) && dims.layer(c) != layer ==> #[trigger] dist[c as int] == Cost::MAX
}

/// Sweeps along a line and back.
fn sweep_line(
    grid: &Grid,
    dist: &mut Vec<Cost>,
    line: &Vec<CellIdx>,
    Ghost(src): Ghost<CellIdx>,
    Ghost(layer): Ghost<int>,
) -> (changed: bool)
    requires
        grid.well_formed(),
        is_line(grid.dims, line@, layer),
        reached(open_graph(grid), src, old(dist)@),
        on_layer(grid.dims, old(dist)@, layer),
    ensures
        reached(open_graph(grid), src, final(dist)@),
        on_layer(grid.dims, final(dist)@, layer),
        changed ==> total(final(dist)@) < total(old(dist)@),
        !changed ==> {
            &&& final(dist)@ == old(dist)@
            &&& forall|i: int|
                0 < i < line@.len() ==> #[trigger] line_done(
                    open_graph(grid),
                    old(dist)@,
                    line@,
                    i,
                )
        },
{
    let ghost g = open_graph(grid);
    let mut changed = false;
    let n: usize = line.len();
    let mut i: usize = 1;
    while i < n
        invariant
            1 <= i,
            n == line@.len(),
            g == open_graph(grid),
            grid.well_formed(),
            is_line(grid.dims, line@, layer),
            reached(g, src, dist@),
            on_layer(grid.dims, dist@, layer),
            changed ==> total(dist@) < total(old(dist)@),
            !changed ==> dist@ == old(dist)@ && forall|k: int|
                0 < k < i && k < n ==> slackless(g, old(dist)@, line@[k - 1], #[trigger] line@[k]),
        decreases n - i,
    {
        assert(neighbours(grid.dims, line@, i as int));
        let ghost before = dist@;
        if relax_edge(grid, dist, line[i - 1], line[i], Ghost(src)) {
            changed = true;
        }
        proof {
            assert forall|c: CellIdx|
                grid.dims.has(c) && grid.dims.layer(c) != layer implies #[trigger] dist@[c as int]
                == Cost::MAX by {
                assert(before[c as int] == Cost::MAX);
                assert(line@[i as int] != c);
            }
        }
        i += 1;
    }
    let mut j: usize = n;
    while j > 1
        invariant
            j <= n,
            n == line@.len(),
            g == open_graph(grid),
            grid.well_formed(),
            is_line(grid.dims, line@, layer),
            reached(g, src, dist@),
            on_layer(grid.dims, dist@, layer),
            changed ==> total(dist@) < total(old(dist)@),
            !changed ==> dist@ == old(dist)@ && (forall|k: int|
                0 < k < n ==> slackless(g, old(dist)@, line@[k - 1], #[trigger] line@[k])) && (
            forall|k: int|
                0 < k < n && k >= j ==> slackless(
                    g,
                    old(dist)@,
                    #[trigger] line@[k],
                    line@[k - 1],
                )),
        decreases j,
    {
        assert(neighbours(grid.dims, line@, j - 1));
        let ghost before = dist@;
        if relax_edge(grid, dist, line[j - 1], line[j - 2], Ghost(src)) {
            changed = true;
        }
        proof {
            assert forall|c: CellIdx|
                grid.dims.has(c) && grid.dims.layer(c) != layer implies #[trigger] dist@[c as int]
                == Cost::MAX by {
                assert(before[c as int] == Cost::MAX);
                assert(line@[j - 2] != c);
            }
        }
        j -= 1;
    }
    changed
}

/// The cells of a row, left to right.
fn row_cells(dims: Dims, y: u32, layer: u32) -> (line: Vec<CellIdx>)
    requires
        dims.indexable(),
        y < dims.h,
        layer < dims.layers,
    ensures
        is_line(dims, line@, layer as int),
        line@.len() == dims.w,
        forall|c: CellIdx|
            dims.has(c) && dims.layer(c) == layer && #[trigger] dims.row(c) == y
                ==> line@[dims.col(c)] == c,
{
    let mut line: Vec<CellIdx> = Vec::new();
    let mut x: u32 = 0;
    while x < dims.w
        invariant
            dims.indexable(),
            y < dims.h,
            layer < dims.layers,
            x <= dims.w,
            line@.len() == x,
            forall|i: int|
                0 <= i < x ==> dims.has(#[trigger] line@[i]) && dims.col(line@[i]) == i && dims.row(
                    line@[i],
                ) == y && dims.layer(line@[i]) == layer,
        decreases dims.w - x,
    {
        line.push(dims.idx3(x, y, layer));
        x += 1;
    }
    proof {
        assert forall|i: int| 0 < i < line@.len() implies #[trigger] neighbours(
            dims,
            line@,
            i,
        ) by {
            assert(dims.col(line@[i - 1]) == i - 1);
            assert(dims.col(line@[i]) == i);
        }
        assert forall|c: CellIdx|
            dims.has(c) && dims.layer(c) == layer && #[trigger] dims.row(c) == y implies line@[
            dims.col(c)] == c by {
            dims.lemma_coords(c);
            let o = line@[dims.col(c)];
            dims.lemma_same_place(c, o);
        }
    }
    line
}

/// The cells of a column, top to bottom.
fn column_cells(dims: Dims, x: u32, layer: u32) -> (line: Vec<CellIdx>)
    requires
        dims.indexable(),
        x < dims.w,
        layer < dims.layers,
    ensures
        is_line(dims, line@, layer as int),
        line@.len() == dims.h,
        forall|c: CellIdx|
            dims.has(c) && dims.layer(c) == layer && #[trigger] dims.col(c) == x
                ==> line@[dims.row(c)] == c,
{
    let mut line: Vec<CellIdx> = Vec::new();
    let mut y: u32 = 0;
    while y < dims.h
        invariant
            dims.indexable(),
            x < dims.w,
            layer < dims.layers,
            y <= dims.h,
            line@.len() == y,
            forall|i: int|
                0 <= i < y ==> dims.has(#[trigger] line@[i]) && dims.row(line@[i]) == i && dims.col(
                    line@[i],
                ) == x && dims.layer(line@[i]) == layer,
        decreases dims.h - y,
    {
        line.push(dims.idx3(x, y, layer));
        y += 1;
    }
    proof {
        assert forall|i: int| 0 < i < line@.len() implies #[trigger] neighbours(
            dims,
            line@,
            i,
        ) by {
            assert(dims.row(line@[i - 1]) == i - 1);
            assert(dims.row(line@[i]) == i);
        }
        assert forall|c: CellIdx|
            dims.has(c) && dims.layer(c) == layer && #[trigger] dims.col(c) == x implies line@[
            dims.row(c)] == c by {
            dims.lemma_coords(c);
            let o = line@[dims.row(c)];
            dims.lemma_same_place(c, o);
        }
    }
    line
}

/// The step from `u` to `v` runs along a row or a column that is done.
spec fn edge_done(g: Graph, dims: Dims, dist: Seq<Cost>, rows: int, cols: int, layer: int) -> bool {
    forall|u: CellIdx, v: CellIdx| #[trigger]
        g.joins(u, v) && dims.layer(u) == layer && (dims.row(u) == dims.row(v) && dims.row(u) < rows
            || dims.col(u) == dims.col(v) && dims.col(u) < cols) ==> slackless(g, dist, u, v)
}

proof fn lemma_row_done(
    grid: &Grid,
    dist: Seq<Cost>,
    line: Seq<CellIdx>,
    y: int,
    layer: int,
)
    requires
        grid.well_formed(),
        edge_done(open_graph(grid), grid.dims, dist, y, 0, layer),
        line.len() == grid.dims.w,
        forall|c: CellIdx|
            grid.dims.has(c) && grid.dims.layer(c) == layer && #[trigger] grid.dims.row(c) == y
                ==> line[grid.dims.col(c)] == c,
        forall|i: int|
            0 < i < line.len() ==> #[trigger] line_done(open_graph(grid), dist, line, i),
    ensures
        edge_done(open_graph(grid), grid.dims, dist, y + 1, 0, layer),
{
    let g = open_graph(grid);
    let dims = grid.dims;
    assert forall|u: CellIdx, v: CellIdx| #[trigger]
        g.joins(u, v) && dims.layer(u) == layer && (dims.row(u) == dims.row(v) && dims.row(u) < y
            + 1 || dims.col(u) == dims.col(v) && dims.col(u) < 0) implies slackless(
        g,
        dist,
        u,
        v,
    ) by {
        dims.lemma_coords(u);
        dims.lemma_coords(v);
        if dims.row(u) == y && dims.row(v) == y {
            if dims.col(v) == dims.col(u) + 1 {
                assert(line_done(g, dist, line, dims.col(v)));
            } else {
                assert(line_done(g, dist, line, dims.col(u)));
            }
        }
    }
}

proof fn lemma_column_done(
    grid: &Grid,
    dist: Seq<Cost>,
    line: Seq<CellIdx>,
    x: int,
    layer: int,
)
    requires
        grid.well_formed(),
        edge_done(open_graph(grid), grid.dims, dist, grid.dims.h as int, x, layer),
        line.len() == grid.dims.h,
        forall|c: CellIdx|
            grid.dims.has(c) && grid.dims.layer(c) == layer && #[trigger] grid.dims.col(c) == x
                ==> line[grid.dims.row(c)] == c,
        forall|i: int|
            0 < i < line.len() ==> #[trigger] line_done(open_graph(grid), dist, line, i),
    ensures
        edge_done(open_graph(grid), grid.dims, dist, grid.dims.h as int, x + 1, layer),
{
    let g = open_graph(grid);
    let dims = grid.dims;
    assert forall|u: CellIdx, v: CellIdx| #[trigger]
        g.joins(u, v) && dims.layer(u) == layer && (dims.row(u) == dims.row(v) && dims.row(u)
            < dims.h || dims.col(u) == dims.col(v) && dims.col(u) < x + 1) implies slackless(
        g,
        dist,
        u,
        v,
    ) by {
        dims.lemma_coords(u);
        dims.lemma_coords(v);
        if dims.row(u) != dims.row(v) && dims.col(u) == x && dims.col(v) == x {
            if dims.row(v) == dims.row(u) + 1 {
                assert(line_done(g, dist, line, dims.row(v)));
            } else {
                assert(line_done(g, dist, line, dims.row(u)));
            }
        }
    }
}

/// The distance field from `src` by sweeps over rows and columns, until a round
/// changes nothing.
pub fn sweep_distance_field(grid: &Grid, src: CellIdx) -> (r: Vec<Cost>)
    requires
        grid.well_formed(),
    ensures
        is_field(grid, src, r@),
{
    let dims: Dims = grid.dims;
    let n: usize = dims.len();
    let mut dist: Vec<Cost> = vec![Cost::MAX; n];
    if n == 0 || !dims.contains(src) || grid.is_obstacle(src) {
        return dist;
    }
    let ghost g = open_graph(grid);
    dist.set(src as usize, 0);
    let layer: u32 = dims.layer_of(src);
    proof {
        assert(g.connects(src, src, seq![src]));
        assert(g.cost(seq![src]) == 0);
        assert(has_walk(g, src, src, 0));
        dims.lemma_coords(src);
    }
    loop
        invariant
            grid.well_formed(),
            dims == grid.dims,
            g == open_graph(grid),
            layer < dims.layers,
            reached(g, src, dist@),
            on_layer(dims, dist@, layer as int),
        ensures
            reached(g, src, dist@),
            on_layer(dims, dist@, layer as int),
            edge_done(g, dims, dist@, dims.h as int, dims.w as int, layer as int),
        decreases total(dist@),
    {
        let ghost start = dist@;
        let mut changed = false;
        let mut y: u32 = 0;
        proof {
            assert forall|u: CellIdx, v: CellIdx| #[trigger]
                g.joins(u, v) && dims.layer(u) == layer && (dims.row(u) == dims.row(v) && dims.row(
                    u,
                ) < 0 || dims.col(u) == dims.col(v) && dims.col(u) < 0) implies slackless(
                g,
                start,
                u,
                v,
            ) by {
                dims.lemma_coords(u);
            }
        }
        while y < dims.h
            invariant
                grid.well_formed(),
                dims == grid.dims,
                g == open_graph(grid),
                layer < dims.layers,
                y <= dims.h,
                reached(g, src, dist@),
                on_layer(dims, dist@, layer as int),
                changed ==> total(dist@) < total(start),
                !changed ==> dist@ == start && edge_done(g, dims, start, y as int, 0, layer as int),
            decreases dims.h - y,
        {
            let line = row_cells(dims, y, layer);
            if sweep_line(grid, &mut dist, &line, Ghost(src), Ghost(layer as int)) {
                changed = true;
            }
            proof {
                if !changed {
                    lemma_row_done(grid, start, line@, y as int, layer as int);
                }
            }
            y += 1;
        }
        let mut x: u32 = 0;
        while x < dims.w
            invariant
                grid.well_formed(),
                dims == grid.dims,
                g == open_graph(grid),
                layer < dims.layers,
                x <= dims.w,
                reached(g, src, dist@),
                on_layer(dims, dist@, layer as int),
                changed ==> total(dist@) < total(start),
                !changed ==> dist@ == start && edge_done(
                    g,
                    dims,
                    start,
                    dims.h as int,
                    x as int,
                    layer as int,
                ),
            decreases dims.w - x,
        {
            let line = column_cells(dims, x, layer);
            if sweep_line(grid, &mut dist, &line, Ghost(src), Ghost(layer as int)) {
                changed = true;
            }
            proof {
                if !changed {
                    lemma_column_done(grid, start, line@, x as int, layer as int);
                }
            }
            x += 1;
        }
        if !changed {
            break;
        }
    }
    proof {
        assert forall|u: CellIdx, v: CellIdx| #[trigger] g.joins(u, v) implies slackless(
            g,
            dist@,
            u,
            v,
        ) by {
            dims.lemma_coords(u);
            if dims.layer(u) != layer {
                assert(dist@[u as int] == Cost::MAX);
            }
        }
        assert forall|c: CellIdx| dims.has(c) implies dist@[c as int] == #[trigger] field_at(
            grid,
            src,
            c,
        ) by {
            lemma_converged(g, src, dist@, c);
        }
    }
    dist
}

/// The route from `src` to `dst` that a distance field holds. There is none where
/// `dst` cannot be reached, or where the field does not fit the grid.
pub fn path_from_field(grid: &Grid, dist: &[Cost], src: CellIdx, dst: CellIdx) -> (r: Option<
    Vec<CellIdx>,
>)
    requires
        grid.well_formed(),
    ensures
        (match r {
            Some(p) => Some(p@),
            None => None,
        }) == field_path(grid, dist@, src, dst),
{
    let n: usize = grid.dims.len();
    if dist.len() != n || !grid.dims.contains(src) || !grid.dims.contains(dst) {
        return None;
    }
    if dist[dst as usize] == Cost::MAX {
        return None;
    }
    let space = TightSpace { grid, dist };
    let mut buf = SearchBuf::new(n);
    let found = astar_buf(&mut buf, grid.dims, src, dst, &space);
    proof {
        let g = crate::search::graph_of(&space);
        let t = tight_graph(grid, dist@);
        assert(g.thins_to(t, Cost::MAX as nat));
        g.lemma_thin_route(t, src, dst, Cost::MAX as nat);
        assert(crate::search::consistent(&space, dst));
    }
    match found {
        Some((p, _cost)) => Some(p),
        None => None,
    }
}

/// There is one distance field: sweeps and a wavefront end at the same one.
pub proof fn law_one_field(grid: &Grid, src: CellIdx, a: Seq<Cost>, b: Seq<Cost>)
    requires
        grid.well_formed(),
        is_field(grid, src, a),
        is_field(grid, src, b),
    ensures
        a == b,
{
    assert forall|i: int| 0 <= i < a.len() implies a[i] == b[i] by {
        assert(a[i] == field_at(grid, src, i as u32));
    }
    assert(a =~= b);
}

/// A walk over steps that the field explains costs what the field says.
proof fn lemma_tight_walk(grid: &Grid, dist: Seq<Cost>, src: CellIdx, q: Seq<CellIdx>)
    requires
        tight_graph(grid, dist).is_walk(q),
        q[0] == src,
        dist[src as int] == 0,
        dist[q.last() as int] < Cost::MAX,
    ensures
        open_graph(grid).is_walk(q),
        open_graph(grid).cost(q) == dist[q.last() as int],
        tight_graph(grid, dist).cost(q) == q.len() - 1,
    decreases q.len(),
{
    let (g, t) = (open_graph(grid), tight_graph(grid, dist));
    let n = q.len() as int;
    assert forall|i: int| 0 < i < n implies #[trigger] g.steps(q, i) by {
        assert(t.steps(q, i));
    }
    if n > 1 {
        let d = q.drop_last();
        assert(t.steps(q, n - 1));
        assert(d =~= q.take(n - 1));
        t.lemma_take(q, n - 1);
        lemma_tight_walk(grid, dist, src, d);
    }
}

/// The route that a true distance field holds is the canonical route over the steps that
/// the field runs on.
pub proof fn law_field_path_is_canonical(
    grid: &Grid,
    dist: Seq<Cost>,
    src: CellIdx,
    dst: CellIdx,
)
    requires
        grid.well_formed(),
        grid.dims.has(src),
        grid.dims.has(dst),
        !grid.obstacle(src),
        is_field(grid, src, dist),
    ensures
        field_path(grid, dist, src, dst) == (match open_graph(grid).route(
            src,
            dst,
            Cost::MAX as nat,
        ) {
            Some((p, _)) => Some(p),
            None => None,
        }),
{
    let (g, t) = (open_graph(grid), tight_graph(grid, dist));
    let limit = Cost::MAX as nat;
    g.lemma_routable(src, dst, limit);
    assert(dist[dst as int] == field_at(grid, src, dst));
    if g.route(src, dst, limit) is Some {
        let p = (g.route(src, dst, limit)->0).0;
        let n = p.len() as int;
        assert forall|i: int| 0 <= i < n implies grid.dims.has(p[i]) && #[trigger] dist[p[i] as int]
            == g.cost(p.take(i + 1)) && g.cost(p.take(i + 1)) < limit by {
            lemma_prefix_distance(grid, dist, src, dst, p, i);
        }
        assert(dist[p[0] as int] == g.cost(p.take(1)));
        assert(dist[src as int] == 0);
        assert forall|i: int| 0 < i < n implies #[trigger] t.steps(p, i) by {
            assert(g.steps(p, i));
            let s = p.take(i + 1);
            assert(s.drop_last() =~= p.take(i));
            assert(s[s.len() - 2] == p[i - 1] && s.last() == p[i]);
            assert(dist[p[i] as int] == g.cost(p.take(i + 1)));
            assert(dist[p[i - 1] as int] == g.cost(p.take(i)));
        }
        assert(t.connects(src, dst, p));
        lemma_tight_walk(grid, dist, src, p);
        assert forall|q: Seq<CellIdx>| #[trigger] t.connects(src, dst, q) implies t.no_worse(
            p,
            q,
        ) by {
            lemma_tight_walk(grid, dist, src, q);
            assert(g.connects(src, dst, q));
        }
        assert forall|i: int| 0 < i < n implies #[trigger] t.lowest_entry(src, p, i) by {
            assert(g.lowest_entry(src, p, i));
            let s = p.take(i + 1);
            t.lemma_take(p, i + 1);
            g.lemma_prefix_best(src, dst, p, i);
            assert(dist[p[i] as int] == g.cost(s));
            lemma_tight_walk(grid, dist, src, s);
            assert forall|q: Seq<CellIdx>| #[trigger] t.best(src, p[i], q) implies p[i - 1] <= q[
            q.len() - 2] by {
                lemma_tight_walk(grid, dist, src, q);
                assert(t.connects(src, p[i], s));
                g.lemma_as_good(src, p[i], s, q);
            }
        }
        lemma_short(grid, src, dst, p);
        t.lemma_route_is(src, dst, limit, p);
    }
}

proof fn lemma_prefix_distance(
    grid: &Grid,
    dist: Seq<Cost>,
    src: CellIdx,
    dst: CellIdx,
    p: Seq<CellIdx>,
    i: int,
)
    requires
        grid.well_formed(),
        grid.dims.has(src),
        !grid.obstacle(src),
        is_field(grid, src, dist),
        open_graph(grid).best(src, dst, p),
        open_graph(grid).cost(p) < Cost::MAX,
        0 <= i < p.len(),
    ensures
        grid.dims.has(p[i]),
        dist[p[i] as int] == open_graph(grid).cost(p.take(i + 1)),
        open_graph(grid).cost(p.take(i + 1)) < Cost::MAX,
{
    let g = open_graph(grid);
    if i > 0 {
        assert(g.steps(p, i));
    }
    g.lemma_prefix_best(src, dst, p, i);
    g.lemma_take(p, i + 1);
    g.lemma_routable(src, p[i], Cost::MAX as nat);
    assert(dist[p[i] as int] == field_at(grid, src, p[i]));
    let t = p.take(i + 1);
    assert(g.connects(src, p[i], t));
    let r = (g.route(src, p[i], Cost::MAX as nat)->0).0;
    g.lemma_best_alike(src, p[i], r, t);
}

/// A best walk visits no cell twice, so it is no longer than there are cells.
proof fn lemma_short(grid: &Grid, src: CellIdx, dst: CellIdx, p: Seq<CellIdx>)
    requires
        grid.well_formed(),
        open_graph(grid).best(src, dst, p),
    ensures
        p.len() <= grid.dims.cells(),
{
    let g = open_graph(grid);
    g.lemma_best_is_simple(src, dst, p);
    crate::search::lemma_walk_cells(g, p);
    crate::search::lemma_different_cells(p, g.cells);
}

/// On a grid without an outline, the field runs on the steps of a net without pads.
pub proof fn law_open_steps_are_lone_steps(grid: &Grid)
    requires
        grid.board is None,
    ensures
        open_graph(grid) == crate::isolated::own_graph(grid, Seq::empty()),
{
    assert(open_graph(grid).edge =~= crate::isolated::own_graph(grid, Seq::empty()).edge);
}

/// On a grid without an outline, the route that a true distance field holds is the one
/// that a wavefront finds for a net without pads.
pub proof fn law_field_path_is_the_lone_route(
    grid: &Grid,
    dist: Seq<Cost>,
    src: CellIdx,
    dst: CellIdx,
)
    requires
        grid.well_formed(),
        grid.board is None,
        grid.dims.has(src),
        grid.dims.has(dst),
        !grid.obstacle(src),
        is_field(grid, src, dist),
    ensures
        field_path(grid, dist, src, dst) == (match crate::isolated::lone_route(
            grid,
            Seq::empty(),
            src,
            dst,
        ) {
            Some((p, _)) => Some(p),
            None => None,
        }),
{
    law_field_path_is_canonical(grid, dist, src, dst);
    law_open_steps_are_lone_steps(grid);
}

} // verus!
