//! Walks through a weighted graph, and which of them is the canonical one.
//!
//! Of the walks that join two cells the cheapest win; of those, the ones with
//! the fewest cells; of those, the one that enters each of its cells from the
//! lowest predecessor.
use vstd::prelude::*;

use crate::board::CellIdx;

verus! {

/// A directed graph on the cells `0 .. cells`, with a price on each edge.
pub struct Graph {
    /// How many cells there are.
    pub cells: nat,
    /// The price of the step from one cell to another, where there is one.
    pub edge: spec_fn(CellIdx, CellIdx) -> Option<nat>,
}

impl Graph {
    /// There is a step from `u` to `v`.
    pub open spec fn joins(self, u: CellIdx, v: CellIdx) -> bool {
        u < self.cells && v < self.cells && (self.edge)(u, v) is Some
    }

    /// What the step from `u` to `v` costs.
    pub open spec fn price(self, u: CellIdx, v: CellIdx) -> nat {
        (self.edge)(u, v)->0
    }

    /// The cell at place `i` of `p` is one step after the cell before it.
    pub open spec fn steps(self, p: Seq<CellIdx>, i: int) -> bool {
        self.joins(p[i - 1], p[i])
    }

    /// `p` is a cell, or a sequence of cells with a step from each to the next.
    pub open spec fn is_walk(self, p: Seq<CellIdx>) -> bool {
        &&& p.len() > 0
        &&& p[0] < self.cells
        &&& forall|i: int| 0 < i < p.len() ==> #[trigger] self.steps(p, i)
    }

    /// What the steps of `p` cost together.
    pub open spec fn cost(self, p: Seq<CellIdx>) -> nat
        decreases p.len(),
    {
        if p.len() <= 1 {
            0
        } else {
            self.cost(p.drop_last()) + self.price(p[p.len() - 2], p.last())
        }
    }

    /// `p` is a walk from `src` to `dst`.
    pub open spec fn connects(self, src: CellIdx, dst: CellIdx, p: Seq<CellIdx>) -> bool {
        &&& self.is_walk(p)
        &&& p[0] == src
        &&& p.last() == dst
    }

    /// `p` is cheaper than `q`, or costs the same with no more cells.
    pub open spec fn no_worse(self, p: Seq<CellIdx>, q: Seq<CellIdx>) -> bool {
        self.cost(p) < self.cost(q) || self.cost(p) == self.cost(q) && p.len() <= q.len()
    }

    /// No walk from `src` to `dst` is cheaper than `p`, or as cheap with fewer cells.
    pub open spec fn best(self, src: CellIdx, dst: CellIdx, p: Seq<CellIdx>) -> bool {
        &&& self.connects(src, dst, p)
        &&& forall|q: Seq<CellIdx>| #[trigger] self.connects(src, dst, q) ==> self.no_worse(p, q)
    }

    /// No best walk enters the cell at place `i` of `p` from a lower cell than `p` does.
    pub open spec fn lowest_entry(self, src: CellIdx, p: Seq<CellIdx>, i: int) -> bool {
        forall|q: Seq<CellIdx>| #[trigger]
            self.best(src, p[i], q) ==> p[i - 1] <= q[q.len() - 2]
    }

    /// `p` is the canonical walk from `src` to `dst`.
    pub open spec fn canonical(self, src: CellIdx, dst: CellIdx, p: Seq<CellIdx>) -> bool {
        &&& self.best(src, dst, p)
        &&& forall|i: int| 0 < i < p.len() ==> #[trigger] self.lowest_entry(src, p, i)
    }

    /// The canonical walk from `src` to `dst` and its cost, where one costs less than `limit`.
    pub open spec fn route(self, src: CellIdx, dst: CellIdx, limit: nat) -> Option<
        (Seq<CellIdx>, nat),
    > {
        if exists|p: Seq<CellIdx>| #[trigger]
            self.canonical(src, dst, p) && self.cost(p) < limit {
            let p = choose|p: Seq<CellIdx>| #[trigger]
                self.canonical(src, dst, p) && self.cost(p) < limit;
            Some((p, self.cost(p)))
        } else {
            None
        }
    }

    /// A walk can be extended by a step.
    pub proof fn lemma_push(self, p: Seq<CellIdx>, v: CellIdx)
        requires
            self.is_walk(p),
            self.joins(p.last(), v),
        ensures
            self.is_walk(p.push(v)),
            self.cost(p.push(v)) == self.cost(p) + self.price(p.last(), v),
    {
        let q = p.push(v);
        assert(q.drop_last() =~= p);
        assert forall|i: int| 0 < i < q.len() implies #[trigger] self.steps(q, i) by {
            if i < p.len() {
                assert(self.steps(p, i));
            }
        }
    }

    /// The first cells of a walk are a walk, and cost no more.
    pub proof fn lemma_take(self, p: Seq<CellIdx>, n: int)
        requires
            self.is_walk(p),
            0 < n <= p.len(),
        ensures
            self.is_walk(p.take(n)),
            self.cost(p.take(n)) <= self.cost(p),
        decreases p.len(),
    {
        if n == p.len() {
            assert(p.take(n) =~= p);
        } else {
            let d = p.drop_last();
            assert forall|i: int| 0 < i < d.len() implies #[trigger] self.steps(d, i) by {
                assert(self.steps(p, i));
            }
            self.lemma_take(d, n);
            assert(d.take(n) =~= p.take(n));
        }
    }

    /// A walk can be extended at its start.
    pub proof fn lemma_prepend(self, u: CellIdx, p: Seq<CellIdx>)
        requires
            self.is_walk(p),
            self.joins(u, p[0]),
        ensures
            self.is_walk(seq![u] + p),
            (seq![u] + p).last() == p.last(),
            self.cost(seq![u] + p) == self.price(u, p[0]) + self.cost(p),
    {
        let v = p[0];
        let q = seq![u, v];
        assert(q.drop_last() =~= seq![u]);
        assert(self.cost(seq![u]) == 0);
        assert(self.cost(q) == self.price(u, v));
        assert(self.steps(q, 1));
        assert(self.is_walk(q));
        self.lemma_splice(p, 1, q);
        assert(q + p.skip(1) =~= seq![u] + p);
        assert(self.cost(p.take(1)) == 0);
    }

    /// One start of a walk can be exchanged for another one to the same cell.
    pub proof fn lemma_splice(self, p: Seq<CellIdx>, n: int, q: Seq<CellIdx>)
        requires
            self.is_walk(p),
            self.is_walk(q),
            0 < n <= p.len(),
            q.last() == p[n - 1],
        ensures
            self.is_walk(q + p.skip(n)),
            (q + p.skip(n)).last() == p.last(),
            (q + p.skip(n))[0] == q[0],
            self.cost(q + p.skip(n)) == self.cost(q) + self.cost(p) - self.cost(p.take(n)),
        decreases p.len(),
    {
        let s = q + p.skip(n);
        if n == p.len() {
            assert(p.take(n) =~= p);
            assert(s =~= q);
        } else {
            let d = p.drop_last();
            assert forall|i: int| 0 < i < d.len() implies #[trigger] self.steps(d, i) by {
                assert(self.steps(p, i));
            }
            self.lemma_splice(d, n, q);
            assert(d.take(n) =~= p.take(n));
            assert(s.drop_last() =~= q + d.skip(n));
            let last = p.last();
            assert(self.steps(p, p.len() - 1));
            assert(s.drop_last().last() == d.last());
            self.lemma_push(s.drop_last(), last);
            assert(s =~= s.drop_last().push(last));
        }
    }

    /// The start of a best walk is a best walk.
    pub proof fn lemma_prefix_best(self, src: CellIdx, dst: CellIdx, p: Seq<CellIdx>, i: int)
        requires
            self.best(src, dst, p),
            0 <= i < p.len(),
        ensures
            self.best(src, p[i], p.take(i + 1)),
    {
        let t = p.take(i + 1);
        self.lemma_take(p, i + 1);
        assert forall|q: Seq<CellIdx>| #[trigger] self.connects(src, p[i], q) implies self.no_worse(
            t,
            q,
        ) by {
            self.lemma_splice(p, i + 1, q);
            assert(self.connects(src, dst, q + p.skip(i + 1)));
        }
    }

    /// Two best walks cost the same and have equally many cells.
    pub proof fn lemma_best_alike(
        self,
        src: CellIdx,
        dst: CellIdx,
        p: Seq<CellIdx>,
        q: Seq<CellIdx>,
    )
        requires
            self.best(src, dst, p),
            self.best(src, dst, q),
        ensures
            self.cost(p) == self.cost(q),
            p.len() == q.len(),
    {
    }

    /// A walk that is no worse than a best one is a best one.
    pub proof fn lemma_as_good(
        self,
        src: CellIdx,
        dst: CellIdx,
        p: Seq<CellIdx>,
        q: Seq<CellIdx>,
    )
        requires
            self.best(src, dst, p),
            self.connects(src, dst, q),
            self.no_worse(q, p),
        ensures
            self.best(src, dst, q),
    {
    }

    /// A best walk stays best when its start is exchanged for another best one.
    pub proof fn lemma_splice_best(
        self,
        src: CellIdx,
        dst: CellIdx,
        p: Seq<CellIdx>,
        i: int,
        q: Seq<CellIdx>,
    )
        requires
            self.best(src, dst, p),
            0 <= i < p.len(),
            self.best(src, p[i], q),
        ensures
            q.len() == i + 1,
            self.best(src, dst, q + p.skip(i + 1)),
    {
        self.lemma_prefix_best(src, dst, p, i);
        self.lemma_best_alike(src, p[i], q, p.take(i + 1));
        self.lemma_splice(p, i + 1, q);
        self.lemma_as_good(src, dst, p, q + p.skip(i + 1));
    }

    /// The best walk from a cell to itself stays there.
    pub proof fn lemma_best_home(self, src: CellIdx, p: Seq<CellIdx>)
        requires
            self.best(src, src, p),
        ensures
            p == seq![src],
            self.cost(p) == 0,
    {
        assert(self.connects(src, src, seq![src]));
        assert(self.no_worse(p, seq![src]));
        assert(p =~= seq![src]);
    }

    /// A best walk visits its last cell once.
    pub proof fn lemma_best_ends_once(self, src: CellIdx, dst: CellIdx, p: Seq<CellIdx>, i: int)
        requires
            self.best(src, dst, p),
            0 <= i < p.len(),
            p[i] == dst,
        ensures
            i == p.len() - 1,
    {
        self.lemma_take(p, i + 1);
        assert(self.connects(src, dst, p.take(i + 1)));
    }

    /// A best walk visits no cell twice.
    pub proof fn lemma_best_is_simple(self, src: CellIdx, dst: CellIdx, p: Seq<CellIdx>)
        requires
            self.best(src, dst, p),
        ensures
            p.no_duplicates(),
    {
        assert forall|i: int, j: int| 0 <= i < p.len() && 0 <= j < p.len() && i != j implies p[i]
            != p[j] by {
            if p[i] == p[j] {
                let (a, b) = if i < j {
                    (i, j)
                } else {
                    (j, i)
                };
                self.lemma_prefix_best(src, dst, p, b);
                assert(p.take(b + 1)[a] == p[b]);
                self.lemma_best_ends_once(src, p[b], p.take(b + 1), a);
            }
        }
    }

    /// Where cells can be joined, there is a best walk.
    pub proof fn lemma_best_exists(self, src: CellIdx, dst: CellIdx, p: Seq<CellIdx>) -> (b: Seq<
        CellIdx,
    >)
        requires
            self.connects(src, dst, p),
        ensures
            self.best(src, dst, b),
            self.no_worse(b, p),
        decreases self.cost(p), p.len(),
    {
        if self.best(src, dst, p) {
            p
        } else {
            let q = choose|q: Seq<CellIdx>| #[trigger]
                self.connects(src, dst, q) && !self.no_worse(p, q);
            self.lemma_best_exists(src, dst, q)
        }
    }

    /// There is one canonical walk at most.
    pub proof fn lemma_canonical_unique(
        self,
        src: CellIdx,
        dst: CellIdx,
        p: Seq<CellIdx>,
        q: Seq<CellIdx>,
    )
        requires
            self.canonical(src, dst, p),
            self.canonical(src, dst, q),
        ensures
            p == q,
    {
        self.lemma_best_alike(src, dst, p, q);
        self.lemma_canonical_agree(src, dst, p, q, 0);
        assert(p =~= q);
    }

    proof fn lemma_canonical_agree(
        self,
        src: CellIdx,
        dst: CellIdx,
        p: Seq<CellIdx>,
        q: Seq<CellIdx>,
        k: int,
    )
        requires
            self.canonical(src, dst, p),
            self.canonical(src, dst, q),
            p.len() == q.len(),
            0 <= k < p.len(),
        ensures
            forall|i: int| k <= i < p.len() ==> p[i] == q[i],
        decreases p.len() - k,
    {
        if k < p.len() - 1 {
            self.lemma_canonical_agree(src, dst, p, q, k + 1);
            self.lemma_prefix_best(src, dst, p, k + 1);
            self.lemma_prefix_best(src, dst, q, k + 1);
            assert(self.lowest_entry(src, p, k + 1));
            assert(self.lowest_entry(src, q, k + 1));
            assert(p.take(k + 2)[k] == p[k]);
            assert(q.take(k + 2)[k] == q[k]);
        }
    }

    /// Where cells can be joined, there is a canonical walk.
    pub proof fn lemma_canonical_exists(self, src: CellIdx, dst: CellIdx, p: Seq<CellIdx>) -> (c:
        Seq<CellIdx>)
        requires
            self.best(src, dst, p),
        ensures
            self.canonical(src, dst, c),
            self.cost(c) == self.cost(p),
        decreases p.len(),
    {
        if p.len() == 1 {
            p
        } else {
            let enters = |u: CellIdx|
                exists|q: Seq<CellIdx>| #[trigger]
                    self.best(src, dst, q) && q[q.len() - 2] == u;
            assert(enters(p[p.len() - 2]));
            let low = self.lemma_lowest(enters, p[p.len() - 2]);
            let q = choose|q: Seq<CellIdx>| #[trigger]
                self.best(src, dst, q) && q[q.len() - 2] == low;
            let n = q.len() as int;
            self.lemma_best_alike(src, dst, p, q);
            self.lemma_prefix_best(src, dst, q, n - 2);
            let t = q.take(n - 1);
            let c = self.lemma_canonical_exists(src, low, t);
            self.lemma_splice_best(src, dst, q, n - 2, c);
            let r = c + q.skip(n - 1);
            assert(r[n - 2] == low);
            assert(r.last() == dst);
            assert forall|i: int| 0 < i < r.len() implies #[trigger] self.lowest_entry(src, r, i) by {
                if i < n - 1 {
                    assert(self.lowest_entry(src, c, i));
                    assert(r[i] == c[i] && r[i - 1] == c[i - 1]);
                } else {
                    assert forall|b: Seq<CellIdx>| #[trigger] self.best(src, r[i], b) implies r[i
                        - 1] <= b[b.len() - 2] by {
                        assert(enters(b[b.len() - 2]));
                    }
                }
            }
            self.lemma_best_alike(src, dst, p, r);
            r
        }
    }

    /// A set of cells that is not empty has a lowest member.
    proof fn lemma_lowest(self, f: spec_fn(CellIdx) -> bool, u: CellIdx) -> (low: CellIdx)
        requires
            f(u),
        ensures
            f(low),
            forall|v: CellIdx| #[trigger] f(v) ==> low <= v,
        decreases u,
    {
        if exists|v: CellIdx| #[trigger] f(v) && v < u {
            let v = choose|v: CellIdx| #[trigger] f(v) && v < u;
            self.lemma_lowest(f, v)
        } else {
            u
        }
    }

    /// The route is the canonical walk.
    pub proof fn lemma_route_is(self, src: CellIdx, dst: CellIdx, limit: nat, p: Seq<CellIdx>)
        requires
            self.canonical(src, dst, p),
            self.cost(p) < limit,
        ensures
            self.route(src, dst, limit) == Some((p, self.cost(p))),
    {
        let q = (self.route(src, dst, limit)->0).0;
        self.lemma_canonical_unique(src, dst, p, q);
    }

    /// There is a route exactly where some walk costs less than the limit.
    pub proof fn lemma_routable(self, src: CellIdx, dst: CellIdx, limit: nat)
        ensures
            self.route(src, dst, limit) is Some <==> exists|p: Seq<CellIdx>| #[trigger]
                self.connects(src, dst, p) && self.cost(p) < limit,
            self.route(src, dst, limit) matches Some((p, c)) ==> {
                &&& self.canonical(src, dst, p)
                &&& c == self.cost(p)
                &&& c < limit
            },
    {
        if exists|p: Seq<CellIdx>| #[trigger] self.connects(src, dst, p) && self.cost(p) < limit {
            let p = choose|p: Seq<CellIdx>| #[trigger]
                self.connects(src, dst, p) && self.cost(p) < limit;
            let b = self.lemma_best_exists(src, dst, p);
            let c = self.lemma_canonical_exists(src, dst, b);
            self.lemma_route_is(src, dst, limit, c);
        }
    }

    /// `b` has the steps of this graph that cost less than `limit`, and perhaps more.
    pub open spec fn thins_to(self, b: Graph, limit: nat) -> bool {
        &&& self.cells == b.cells
        &&& forall|u: CellIdx, v: CellIdx| #[trigger]
            b.joins(u, v) ==> self.joins(u, v) && self.price(u, v) == b.price(u, v)
        &&& forall|u: CellIdx, v: CellIdx| #[trigger]
            self.joins(u, v) && self.price(u, v) < limit ==> b.joins(u, v)
    }

    proof fn lemma_thin_walk(self, b: Graph, limit: nat, p: Seq<CellIdx>)
        requires
            self.thins_to(b, limit),
        ensures
            b.is_walk(p) ==> self.is_walk(p) && self.cost(p) == b.cost(p),
            self.is_walk(p) && self.cost(p) < limit ==> b.is_walk(p) && self.cost(p) == b.cost(p),
        decreases p.len(),
    {
        if p.len() > 1 {
            let d = p.drop_last();
            let n = p.len() as int;
            self.lemma_thin_walk(b, limit, d);
            assert(d =~= p.take(n - 1));
            if b.is_walk(p) {
                b.lemma_take(p, n - 1);
                assert(b.steps(p, n - 1));
                assert forall|i: int| 0 < i < n implies #[trigger] self.steps(p, i) by {
                    assert(b.steps(p, i));
                }
            }
            if self.is_walk(p) && self.cost(p) < limit {
                self.lemma_take(p, n - 1);
                assert(self.steps(p, n - 1));
                assert forall|i: int| 0 < i < n implies #[trigger] b.steps(p, i) by {
                    if i < n - 1 {
                        assert(b.steps(d, i));
                    }
                }
            }
        }
    }

    /// Steps that cost `limit` or more make no difference to routes below it.
    pub proof fn lemma_thin_route(self, b: Graph, src: CellIdx, dst: CellIdx, limit: nat)
        requires
            self.thins_to(b, limit),
        ensures
            self.route(src, dst, limit) == b.route(src, dst, limit),
    {
        self.lemma_routable(src, dst, limit);
        b.lemma_routable(src, dst, limit);
        if self.route(src, dst, limit) is Some {
            let p = (self.route(src, dst, limit)->0).0;
            self.lemma_thin_walk(b, limit, p);
            assert forall|q: Seq<CellIdx>| #[trigger] b.connects(src, dst, q) implies b.no_worse(
                p,
                q,
            ) by {
                self.lemma_thin_walk(b, limit, q);
                assert(self.connects(src, dst, q));
            }
            assert forall|i: int| 0 < i < p.len() implies #[trigger] b.lowest_entry(src, p, i) by {
                assert(self.lowest_entry(src, p, i));
                self.lemma_prefix_best(src, dst, p, i);
                self.lemma_take(p, i + 1);
                let t = p.take(i + 1);
                self.lemma_thin_walk(b, limit, t);
                assert forall|q: Seq<CellIdx>| #[trigger] b.best(src, p[i], q) implies p[i - 1]
                    <= q[q.len() - 2] by {
                    self.lemma_thin_walk(b, limit, q);
                    assert(b.connects(src, p[i], t));
                    self.lemma_as_good(src, p[i], t, q);
                }
            }
            b.lemma_route_is(src, dst, limit, p);
        } else if b.route(src, dst, limit) is Some {
            let p = (b.route(src, dst, limit)->0).0;
            self.lemma_thin_walk(b, limit, p);
            assert(self.connects(src, dst, p));
        }
    }
}

} // verus!
