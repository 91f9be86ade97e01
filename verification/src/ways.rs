//! Ways over a board, told in columns, rows and layers.
//!
//! What a route has to be is said here in the plainest terms: cells have places, moves
//! join cells, and of all ways from one cell to another some are preferred.
use vstd::prelude::*;

use crate::board::{CellIdx, Dims};
use crate::path::Graph;

verus! {

/// Cell `c` stands in column `x` and row `y` of layer `l`.
pub open spec fn stands_at(d: Dims, c: CellIdx, x: int, y: int, l: int) -> bool {
    &&& 0 <= x < d.w
    &&& 0 <= y < d.h
    &&& 0 <= l < d.layers
    &&& c == (l * d.h + y) * d.w + x
}

/// `v` stands left of, right of, above or below `u` on the same layer.
pub open spec fn is_beside(d: Dims, u: CellIdx, v: CellIdx) -> bool {
    exists|x: int, y: int, l: int| #[trigger]
        stands_at(d, u, x, y, l) && (stands_at(d, v, x - 1, y, l) || stands_at(d, v, x + 1, y, l)
            || stands_at(d, v, x, y - 1, l) || stands_at(d, v, x, y + 1, l))
}

/// `u` stands on layer `a`, and `v` in the same place on the neighbouring layer `b`.
pub open spec fn is_under(d: Dims, u: CellIdx, v: CellIdx, a: int, b: int) -> bool {
    &&& a == b + 1 || b == a + 1
    &&& exists|x: int, y: int| #[trigger] stands_at(d, u, x, y, a) && stands_at(d, v, x, y, b)
}

/// Every cell of the board stands in one place.
pub proof fn law_cells_have_places(d: Dims, c: CellIdx)
    requires
        d.w * d.h * d.layers <= u32::MAX,
    ensures
        (exists|x: int, y: int, l: int| #[trigger] stands_at(d, c, x, y, l)) <==> c < d.w * d.h
            * d.layers,
        d.has(c) <==> c < d.w * d.h * d.layers,
        d.has(c) ==> stands_at(d, c, d.col(c), d.row(c), d.layer(c)),
        forall|x: int, y: int, l: int| #[trigger]
            stands_at(d, c, x, y, l) ==> d.has(c) && x == d.col(c) && y == d.row(c) && l == d.layer(
                c,
            ),
{
    if d.has(c) {
        d.lemma_coords(c);
        lemma_place(d, d.col(c), d.row(c), d.layer(c));
        assert(stands_at(d, c, d.col(c), d.row(c), d.layer(c)));
    }
    assert forall|x: int, y: int, l: int| #[trigger] stands_at(d, c, x, y, l) implies d.has(c) && x
        == d.col(c) && y == d.row(c) && l == d.layer(c) by {
        lemma_place(d, x, y, l);
        d.lemma_cell_at(x, y, l);
    }
}

/// Two ways to number a place.
proof fn lemma_place(d: Dims, x: int, y: int, l: int)
    ensures
        (l * d.h + y) * d.w + x == d.cell_at(x, y, l),
{
    let (w, h) = (d.w as int, d.h as int);
    assert((l * h + y) * w == l * (w * h) + y * w) by (nonlinear_arith);
}

/// Cells are next to each other on a layer exactly where their places are.
pub proof fn law_neighbours_are_beside(d: Dims, u: CellIdx, v: CellIdx)
    requires
        d.w * d.h * d.layers <= u32::MAX,
    ensures
        d.planar_adjacent(u, v) <==> is_beside(d, u, v),
{
    law_cells_have_places(d, u);
    law_cells_have_places(d, v);
    if d.planar_adjacent(u, v) {
        assert(stands_at(d, u, d.col(u), d.row(u), d.layer(u)));
        assert(stands_at(d, v, d.col(v), d.row(v), d.layer(v)));
    }
    if is_beside(d, u, v) {
        let (x, y, l) = choose|x: int, y: int, l: int| #[trigger]
            stands_at(d, u, x, y, l) && (stands_at(d, v, x - 1, y, l) || stands_at(
                d,
                v,
                x + 1,
                y,
                l,
            ) || stands_at(d, v, x, y - 1, l) || stands_at(d, v, x, y + 1, l));
        assert(stands_at(d, u, x, y, l));
    }
}

/// Cells lie over each other exactly where their places do.
pub proof fn law_neighbours_are_under(d: Dims, u: CellIdx, v: CellIdx, a: int, b: int)
    requires
        d.w * d.h * d.layers <= u32::MAX,
    ensures
        is_under(d, u, v, a, b) <==> d.via_adjacent(u, v) && a == d.layer(u) && b == d.layer(v),
{
    law_cells_have_places(d, u);
    law_cells_have_places(d, v);
    if d.via_adjacent(u, v) && a == d.layer(u) && b == d.layer(v) {
        assert(stands_at(d, u, d.col(u), d.row(u), a));
        assert(stands_at(d, v, d.col(v), d.row(v), b));
    }
    if is_under(d, u, v, a, b) {
        let (x, y) = choose|x: int, y: int| #[trigger]
            stands_at(d, u, x, y, a) && stands_at(d, v, x, y, b);
        assert(stands_at(d, u, x, y, a));
        assert(stands_at(d, v, x, y, b));
    }
}

/// Which moves there are from cell to cell, and what each of them costs.
pub struct Moves {
    /// One can move from the first cell to the second.
    pub can: spec_fn(CellIdx, CellIdx) -> bool,
    /// What that costs.
    pub fee: spec_fn(CellIdx, CellIdx) -> nat,
}

impl Moves {
    /// There is a move into the cell at place `k` of the way.
    pub open spec fn goes(self, q: Seq<CellIdx>, k: int) -> bool {
        (self.can)(q[k - 1], q[k])
    }

    /// The cells lead from `a` to `b`, move by move.
    pub open spec fn lead(self, a: CellIdx, b: CellIdx, q: Seq<CellIdx>) -> bool {
        &&& q.len() > 0
        &&& q[0] == a
        &&& q[q.len() - 1] == b
        &&& forall|k: int| 0 < k < q.len() ==> #[trigger] self.goes(q, k)
    }

    /// What the moves of a way cost together.
    pub open spec fn fees(self, q: Seq<CellIdx>) -> nat
        decreases q.len(),
    {
        if q.len() < 2 {
            0
        } else {
            self.fees(q.take(q.len() - 1)) + (self.fee)(q[q.len() - 2], q[q.len() - 1])
        }
    }

    /// No way from `a` to `b` is cheaper, or as cheap with fewer cells.
    pub open spec fn is_best(self, a: CellIdx, b: CellIdx, p: Seq<CellIdx>) -> bool {
        &&& self.lead(a, b, p)
        &&& forall|q: Seq<CellIdx>| #[trigger]
            self.lead(a, b, q) ==> self.fees(p) < self.fees(q) || self.fees(p) == self.fees(q)
                && p.len() <= q.len()
    }

    /// No best way to the cell at place `k` comes from a lower cell.
    pub open spec fn comes_low(self, a: CellIdx, p: Seq<CellIdx>, k: int) -> bool {
        forall|q: Seq<CellIdx>| #[trigger]
            self.is_best(a, p[k], q) && q.len() > 1 ==> p[k - 1] <= q[q.len() - 2]
    }

    /// The way from `a` to `b` that is taken: a best one, and of those the one that comes
    /// to each of its cells from the lowest.
    pub open spec fn is_taken(self, a: CellIdx, b: CellIdx, p: Seq<CellIdx>) -> bool {
        &&& self.is_best(a, b, p)
        &&& forall|k: int| 0 < k < p.len() ==> #[trigger] self.comes_low(a, p, k)
    }

    /// `b` can be reached from `a` for less than `limit`.
    pub open spec fn reach(self, a: CellIdx, b: CellIdx, limit: nat) -> bool {
        exists|q: Seq<CellIdx>| #[trigger] self.lead(a, b, q) && self.fees(q) < limit
    }

    /// The moves are the steps of the graph that cost less than `limit`.
    pub open spec fn are_steps(self, g: Graph, limit: nat) -> bool {
        forall|u: CellIdx, v: CellIdx|
            #![trigger (self.can)(u, v)]
            #![trigger g.joins(u, v)]
            ((self.can)(u, v) <==> g.joins(u, v) && g.price(u, v) < limit) && ((self.can)(u, v)
                ==> (self.fee)(u, v) == g.price(u, v))
    }

    /// Ways are walks.
    pub proof fn lemma_way_is_walk(self, g: Graph, limit: nat, q: Seq<CellIdx>)
        requires
            self.are_steps(g, limit),
            q.len() > 0,
            q[0] < g.cells,
        ensures
            (forall|k: int| 0 < k < q.len() ==> #[trigger] self.goes(q, k)) ==> g.is_walk(q)
                && g.cost(q) == self.fees(q),
            g.is_walk(q) && g.cost(q) < limit ==> g.cost(q) == self.fees(q) && forall|k: int|
                0 < k < q.len() ==> #[trigger] self.goes(q, k),
        decreases q.len(),
    {
        let n = q.len() as int;
        if n > 1 {
            let d = q.take(n - 1);
            assert(d =~= q.drop_last());
            self.lemma_way_is_walk(g, limit, d);
            if forall|k: int| 0 < k < q.len() ==> #[trigger] self.goes(q, k) {
                assert forall|k: int| 0 < k < d.len() implies #[trigger] self.goes(d, k) by {
                    assert(self.goes(q, k));
                }
                assert(self.goes(q, n - 1));
                assert forall|k: int| 0 < k < n implies #[trigger] g.steps(q, k) by {
                    assert(self.goes(q, k));
                }
            }
            if g.is_walk(q) && g.cost(q) < limit {
                g.lemma_take(q, n - 1);
                assert(g.steps(q, n - 1));
                assert forall|k: int| 0 < k < n implies #[trigger] self.goes(q, k) by {
                    if k < n - 1 {
                        assert(self.goes(d, k));
                    }
                }
            }
        }
    }

    /// A graph routes the way that is taken, wherever there is one below the limit.
    pub proof fn lemma_route_is_taken(
        self,
        g: Graph,
        a: CellIdx,
        b: CellIdx,
        limit: nat,
    )
        requires
            self.are_steps(g, limit),
            a < g.cells,
        ensures
            g.route(a, b, limit) is Some <==> self.reach(a, b, limit),
            g.route(a, b, limit) matches Some((p, c)) ==> self.is_taken(a, b, p) && c == self.fees(p)
                && c < limit,
    {
        g.lemma_routable(a, b, limit);
        if self.reach(a, b, limit) {
            let q = choose|q: Seq<CellIdx>| #[trigger] self.lead(a, b, q) && self.fees(q) < limit;
            self.lemma_way_is_walk(g, limit, q);
            assert(g.connects(a, b, q));
        }
        if g.route(a, b, limit) is Some {
            let p = (g.route(a, b, limit)->0).0;
            self.lemma_way_is_walk(g, limit, p);
            assert(self.lead(a, b, p));
            assert forall|q: Seq<CellIdx>| #[trigger] self.lead(a, b, q) implies self.fees(p)
                < self.fees(q) || self.fees(p) == self.fees(q) && p.len() <= q.len() by {
                self.lemma_way_is_walk(g, limit, q);
                assert(g.connects(a, b, q));
            }
            assert forall|k: int| 0 < k < p.len() implies #[trigger] self.comes_low(a, p, k) by {
                let t = p.take(k + 1);
                g.lemma_take(p, k + 1);
                self.lemma_way_is_walk(g, limit, t);
                assert(self.lead(a, p[k], t));
                assert(g.lowest_entry(a, p, k));
                assert forall|q: Seq<CellIdx>| #[trigger]
                    self.is_best(a, p[k], q) && q.len() > 1 implies p[k - 1] <= q[q.len() - 2] by {
                    self.lemma_way_is_walk(g, limit, q);
                    assert(g.connects(a, p[k], q));
                    assert forall|r: Seq<CellIdx>| #[trigger]
                        g.connects(a, p[k], r) implies g.no_worse(q, r) by {
                        self.lemma_way_is_walk(g, limit, r);
                        if g.cost(r) < limit {
                            assert(self.lead(a, p[k], r));
                        }
                    }
                    assert(g.best(a, p[k], q));
                }
            }
        }
    }

    /// The moves as a graph.
    spec fn graph(self) -> Graph {
        Graph {
            cells: 0x1_0000_0000,
            edge: |u: CellIdx, v: CellIdx|
                if (self.can)(u, v) {
                    Some((self.fee)(u, v))
                } else {
                    None
                },
        }
    }

    proof fn lemma_graph_walk(self, a: CellIdx, b: CellIdx, q: Seq<CellIdx>)
        ensures
            self.lead(a, b, q) <==> self.graph().connects(a, b, q),
            self.lead(a, b, q) ==> self.fees(q) == self.graph().cost(q),
        decreases q.len(),
    {
        let g = self.graph();
        let n = q.len() as int;
        if self.lead(a, b, q) {
            assert forall|k: int| 0 < k < n implies #[trigger] g.steps(q, k) by {
                assert(self.goes(q, k));
            }
        }
        if g.connects(a, b, q) {
            assert forall|k: int| 0 < k < n implies #[trigger] self.goes(q, k) by {
                assert(g.steps(q, k));
            }
        }
        if self.lead(a, b, q) && n > 1 {
            let d = q.take(n - 1);
            assert(d =~= q.drop_last());
            assert forall|k: int| 0 < k < d.len() implies #[trigger] self.goes(d, k) by {
                assert(self.goes(q, k));
            }
            assert(self.goes(q, n - 1));
            self.lemma_graph_walk(a, d.last(), d);
        }
    }

    proof fn lemma_graph_best(self, a: CellIdx, b: CellIdx, p: Seq<CellIdx>)
        ensures
            self.is_best(a, b, p) <==> self.graph().best(a, b, p),
    {
        let g = self.graph();
        self.lemma_graph_walk(a, b, p);
        if self.is_best(a, b, p) {
            assert forall|q: Seq<CellIdx>| #[trigger] g.connects(a, b, q) implies g.no_worse(
                p,
                q,
            ) by {
                self.lemma_graph_walk(a, b, q);
            }
        }
        if g.best(a, b, p) {
            assert forall|q: Seq<CellIdx>| #[trigger] self.lead(a, b, q) implies self.fees(p)
                < self.fees(q) || self.fees(p) == self.fees(q) && p.len() <= q.len() by {
                self.lemma_graph_walk(a, b, q);
                assert(g.no_worse(p, q));
            }
        }
    }

    /// Of all ways from one cell to another one is taken, no more.
    pub proof fn law_one_way_is_taken(
        self,
        a: CellIdx,
        b: CellIdx,
        p: Seq<CellIdx>,
        q: Seq<CellIdx>,
    )
        requires
            self.is_taken(a, b, p),
            self.is_taken(a, b, q),
        ensures
            p == q,
    {
        self.lemma_graph_taken(a, b, p);
        self.lemma_graph_taken(a, b, q);
        self.graph().lemma_canonical_unique(a, b, p, q);
    }

    proof fn lemma_graph_taken(self, a: CellIdx, b: CellIdx, p: Seq<CellIdx>)
        requires
            self.is_taken(a, b, p),
        ensures
            self.graph().canonical(a, b, p),
    {
        let g = self.graph();
        self.lemma_graph_best(a, b, p);
        assert forall|i: int| 0 < i < p.len() implies #[trigger] g.lowest_entry(a, p, i) by {
            assert(self.comes_low(a, p, i));
            g.lemma_prefix_best(a, b, p, i);
            assert forall|q: Seq<CellIdx>| #[trigger] g.best(a, p[i], q) implies p[i - 1] <= q[
            q.len() - 2] by {
                g.lemma_best_alike(a, p[i], q, p.take(i + 1));
                self.lemma_graph_best(a, p[i], q);
            }
        }
    }
}

} // verus!
