//! Targeted shortest-path search with canonical tie-breaking.
//!
//! Every router of this crate searches through [`astar_buf`]. A search labels
//! cells with the cost of reaching them, the number of steps that takes and the
//! cell they were entered from. Labels are ordered by cost, then steps; among
//! equal labels the lowest predecessor stays. Fewer steps as the second key make
//! every chain of predecessors strictly shorter, so that steps of no cost cannot
//! close a cycle.
use vstd::multiset::Multiset;
use vstd::prelude::*;

use crate::board::{CellIdx, Cost, Dims};
use crate::heap::MinHeap;
use crate::path::Graph;

verus! {

/// The predecessor of a cell that has none.
pub const NO_PRED: CellIdx = u32::MAX;

/// What a search runs on: a board with prices and blocked cells.
pub trait SearchSpace {
    /// The extent of the board.
    spec fn extent(&self) -> Dims;

    /// The board is consistent in itself.
    spec fn valid(&self) -> bool;

    /// The price of the planar step from `u` to `v`.
    spec fn planar_price(&self, u: CellIdx, v: CellIdx) -> Cost;

    /// `c` cannot be entered.
    spec fn closed(&self, c: CellIdx) -> bool;

    /// An estimate of what is left to pay from `c` to the goal.
    spec fn estimate(&self, c: CellIdx) -> Cost;

    /// The price of the via from `u` to `v`, where one may be drilled.
    spec fn via_price(&self, u: CellIdx, v: CellIdx) -> Option<Cost>;

    /// The price of the planar step from `u` to `v`.
    fn cost(&self, u: CellIdx, v: CellIdx) -> (c: Cost)
        requires
            self.valid(),
            self.extent().planar_adjacent(u, v),
        ensures
            c == self.planar_price(u, v),
    ;

    /// Whether `c` cannot be entered.
    fn blocked(&self, c: CellIdx) -> (b: bool)
        requires
            self.valid(),
            self.extent().has(c),
        ensures
            b == self.closed(c),
    ;

    /// An estimate of what is left to pay from `c` to the goal.
    fn heuristic(&self, c: CellIdx) -> (h: Cost)
        requires
            self.valid(),
            self.extent().has(c),
        ensures
            h == self.estimate(c),
    ;

    /// The price of the via from `u` to `v`, where one may be drilled.
    fn via_step(&self, u: CellIdx, v: CellIdx) -> (c: Option<Cost>)
        requires
            self.valid(),
            self.extent().via_adjacent(u, v),
        ensures
            c == self.via_price(u, v),
    ;
}

/// The price of one step of a search, where it may be taken.
pub open spec fn step_price<S: SearchSpace>(s: &S, u: CellIdx, v: CellIdx) -> Option<nat> {
    if s.closed(v) {
        None
    } else if s.extent().planar_adjacent(u, v) {
        Some(s.planar_price(u, v) as nat)
    } else if s.extent().via_adjacent(u, v) {
        match s.via_price(u, v) {
            Some(c) => Some(c as nat),
            None => None,
        }
    } else {
        None
    }
}

/// The graph that a search runs on.
pub open spec fn graph_of<S: SearchSpace>(s: &S) -> Graph {
    Graph {
        cells: s.extent().cells() as nat,
        edge: |u: CellIdx, v: CellIdx| step_price(s, u, v),
    }
}

/// The estimates never exceed what is left to pay: they are nothing at the goal,
/// and no step lowers the estimate by more than its price.
pub open spec fn admits(g: Graph, est: spec_fn(CellIdx) -> Cost, dst: CellIdx) -> bool {
    &&& est(dst) == 0
    &&& forall|u: CellIdx, v: CellIdx| #[trigger]
        g.joins(u, v) ==> est(u) <= g.price(u, v) + est(v)
}

/// The estimates of a search never exceed what is left to pay.
pub open spec fn consistent<S: SearchSpace>(s: &S, dst: CellIdx) -> bool {
    admits(graph_of(s), |c: CellIdx| s.estimate(c), dst)
}

/// The canonical walk from `src` to `dst` and its cost, where one costs less than
/// the largest cost and the source itself is open.
pub open spec fn canonical_route<S: SearchSpace>(s: &S, src: CellIdx, dst: CellIdx) -> Option<
    (Seq<CellIdx>, nat),
> {
    if s.closed(src) {
        None
    } else {
        graph_of(s).route(src, dst, Cost::MAX as nat)
    }
}

/// A path and its cost as plain values.
pub open spec fn path_view(r: Option<(Vec<CellIdx>, Cost)>) -> Option<(Seq<CellIdx>, nat)> {
    match r {
        Some((p, c)) => Some((p@, c as nat)),
        None => None,
    }
}

/// What a search knows of a cell.
#[verifier::ext_equal]
pub struct Label {
    /// The cell was reached.
    pub live: bool,
    /// The cost of reaching it.
    pub dist: u32,
    /// The number of steps.
    pub hops: u32,
    /// The cell it was entered from.
    pub pred: u32,
}

/// Working memory for searches on boards up to some size, reused between them.
///
/// An entry counts only where its stamp is the current generation, so a new
/// search forgets the last one by raising the generation.
pub struct SearchBuf {
    /// Cost of reaching each cell.
    pub dist: Vec<Cost>,
    /// Fewest steps among the walks of that cost.
    pub hops: Vec<u32>,
    /// The cell that each cell was entered from.
    pub pred: Vec<CellIdx>,
    /// The generation that wrote each cell's entry.
    pub stamp: Vec<u32>,
    /// The current generation.
    pub gen: u32,
    /// How many cells the current search has.
    pub used: usize,
}

impl SearchBuf {
    /// The memory is for `n` cells or more, and nothing in it is from the future.
    pub open spec fn wf(&self, n: int) -> bool {
        &&& n <= self.stamp@.len()
        &&& self.dist@.len() == self.stamp@.len()
        &&& self.hops@.len() == self.stamp@.len()
        &&& self.pred@.len() == self.stamp@.len()
        &&& forall|i: int| 0 <= i < self.stamp@.len() ==> #[trigger] self.stamp@[i] <= self.gen
    }

    /// The memory is in use for `n` cells.
    pub open spec fn serves(&self, n: int) -> bool {
        self.wf(n) && self.used == n
    }

    /// What is known of the cell at `i`.
    pub open spec fn label(&self, i: int) -> Label {
        if self.stamp@[i] == self.gen {
            Label { live: true, dist: self.dist@[i], hops: self.hops@[i], pred: self.pred@[i] }
        } else {
            Label { live: false, dist: u32::MAX, hops: u32::MAX, pred: NO_PRED }
        }
    }

    /// What is known of each cell of the current search.
    pub open spec fn labels(&self) -> Seq<Label> {
        Seq::new(self.used as nat, |i: int| self.label(i))
    }

    /// Memory for `n` cells.
    pub fn new(n: usize) -> (b: SearchBuf)
        ensures
            b.wf(n as int),
            b.stamp@.len() == n,
            b.gen == 0,
    {
        SearchBuf {
            dist: vec![Cost::MAX; n],
            hops: vec![u32::MAX; n],
            pred: vec![NO_PRED; n],
            stamp: vec![0; n],
            gen: 0,
            used: 0,
        }
    }

    /// Forgets what the last search knew, and begins one of `n` cells.
    fn begin(&mut self, n: usize)
        requires
            old(self).wf(n as int),
        ensures
            final(self).serves(n as int),
            final(self).stamp@.len() == old(self).stamp@.len(),
            final(self).gen == if old(self).gen == u32::MAX {
                1
            } else {
                old(self).gen + 1
            },
            forall|i: int| 0 <= i < n ==> !(#[trigger] final(self).label(i)).live,
    {
        let all: usize = self.stamp.len();
        if self.gen == u32::MAX {
            let mut i: usize = 0;
            while i < all
                invariant
                    i <= all,
                    self.dist@.len() == all,
                    self.hops@.len() == all,
                    self.pred@.len() == all,
                    self.stamp@.len() == all,
                    forall|j: int| 0 <= j < i ==> self.stamp@[j] == 0,
                decreases all - i,
            {
                self.stamp.set(i, 0);
                i += 1;
            }
            self.gen = 1;
        } else {
            self.gen = self.gen + 1;
        }
        self.used = n;
    }

    fn is_live(&self, c: CellIdx) -> (b: bool)
        requires
            self.wf(self.stamp@.len() as int),
            c < self.stamp@.len(),
        ensures
            b == self.label(c as int).live,
    {
        self.stamp[c as usize] == self.gen
    }

    pub(crate) fn dist_of(&self, c: CellIdx) -> (d: Cost)
        requires
            self.wf(self.stamp@.len() as int),
            c < self.stamp@.len(),
        ensures
            d == self.label(c as int).dist,
    {
        if self.is_live(c) {
            self.dist[c as usize]
        } else {
            Cost::MAX
        }
    }

    fn hops_of(&self, c: CellIdx) -> (h: u32)
        requires
            self.wf(self.stamp@.len() as int),
            c < self.stamp@.len(),
        ensures
            h == self.label(c as int).hops,
    {
        if self.is_live(c) {
            self.hops[c as usize]
        } else {
            u32::MAX
        }
    }

    pub(crate) fn pred_of(&self, c: CellIdx) -> (p: CellIdx)
        requires
            self.wf(self.stamp@.len() as int),
            c < self.stamp@.len(),
        ensures
            p == self.label(c as int).pred,
    {
        if self.is_live(c) {
            self.pred[c as usize]
        } else {
            NO_PRED
        }
    }

    fn set(&mut self, c: CellIdx, d: Cost, hops: u32, p: CellIdx)
        requires
            old(self).serves(old(self).used as int),
            c < old(self).used,
        ensures
            final(self).serves(old(self).used as int),
            final(self).stamp@.len() == old(self).stamp@.len(),
            final(self).gen == old(self).gen,
            final(self).labels() == old(self).labels().update(
                c as int,
                Label { live: true, dist: d, hops, pred: p },
            ),
    {
        self.dist.set(c as usize, d);
        self.hops.set(c as usize, hops);
        self.pred.set(c as usize, p);
        self.stamp.set(c as usize, self.gen);
        assert(self.labels() =~= old(self).labels().update(
            c as int,
            Label { live: true, dist: d, hops, pred: p },
        ));
    }
}

/// A cost that saturates at the largest one.
pub open spec fn sat(x: int) -> int {
    if x < u32::MAX {
        x
    } else {
        u32::MAX as int
    }
}

/// The first label is no worse than the second.
spec fn lex_le(d1: int, h1: int, d2: int, h2: int) -> bool {
    d1 < d2 || d1 == d2 && h1 <= h2
}

/// The first label is better than the second.
spec fn lex_lt(d1: int, h1: int, d2: int, h2: int) -> bool {
    d1 < d2 || d1 == d2 && h1 < h2
}

/// A queue entry: lower priorities first, then lower cells.
spec fn key(prio: int, cell: CellIdx) -> u64 {
    (prio * 0x1_0000_0000 + cell) as u64
}

/// Unless its cost saturated, the cell `c` was entered from a live cell by a step
/// that explains its label.
spec fn entered(g: Graph, l: Seq<Label>, c: int) -> bool {
    let p = l[c].pred;
    l[c].dist < u32::MAX ==> {
        &&& p < l.len()
        &&& l[p as int].live
        &&& g.joins(p, c as u32)
        &&& lex_le(
            sat(l[p as int].dist + g.price(p, c as u32)),
            l[p as int].hops + 1,
            l[c].dist as int,
            l[c].hops as int,
        )
    }
}

/// The walk `w` explains the label of `c`, and no cell on it has a worse label
/// than the walk itself would give.
spec fn realized(g: Graph, src: CellIdx, l: Seq<Label>, w: Seq<CellIdx>, c: int) -> bool {
    &&& g.connects(src, c as u32, w)
    &&& w.no_duplicates()
    &&& l[c].dist == sat(g.cost(w) as int)
    &&& l[c].hops + 1 == w.len()
    &&& forall|i: int| 0 <= i < w.len() ==> #[trigger] on_time(g, l, w, i)
}

spec fn on_time(g: Graph, l: Seq<Label>, w: Seq<CellIdx>, i: int) -> bool {
    lex_le(
        l[w[i] as int].dist as int,
        l[w[i] as int].hops as int,
        sat(g.cost(w.take(i + 1)) as int),
        i,
    )
}

/// Every label stands for a walk.
#[verifier::opaque]
spec fn sound(g: Graph, src: CellIdx, l: Seq<Label>, ws: Seq<Seq<CellIdx>>) -> bool {
    &&& l.len() == g.cells
    &&& ws.len() == g.cells
    &&& g.cells <= u32::MAX
    &&& src < g.cells
    &&& l[src as int].live
    &&& l[src as int].dist == 0
    &&& l[src as int].hops == 0
    &&& l[src as int].pred == NO_PRED
    &&& forall|c: int|
        0 <= c < l.len() && (#[trigger] l[c]).live ==> realized(g, src, l, ws[c], c)
    &&& forall|c: int| 0 <= c < l.len() && (#[trigger] l[c]).live && c != src ==> entered(g, l, c)
    &&& forall|c: int|
        0 <= c < l.len() && !(#[trigger] l[c]).live ==> l[c].dist == u32::MAX && l[c].hops
            == u32::MAX
}

/// The label of `v` is no worse than the step from `u` would make it.
spec fn covers(g: Graph, l: Seq<Label>, u: CellIdx, v: CellIdx) -> bool {
    let nd = sat(l[u as int].dist + g.price(u, v));
    let nh = l[u as int].hops + 1;
    &&& lex_le(l[v as int].dist as int, l[v as int].hops as int, nd, nh)
    &&& l[v as int].dist == nd && l[v as int].hops == nh ==> l[v as int].pred <= u
}

/// No step out of `u` improves a label.
spec fn settled(g: Graph, l: Seq<Label>, u: CellIdx) -> bool {
    forall|v: CellIdx| #[trigger] g.joins(u, v) ==> covers(g, l, u, v)
}

/// The entry that stands in the queue for the label of `u`.
spec fn entry(l: Seq<Label>, est: spec_fn(CellIdx) -> Cost, u: CellIdx) -> u64 {
    key(sat(l[u as int].dist + est(u)), u)
}

/// Each live cell but the goal is settled or waits in the queue; `but` is exempt.
#[verifier::opaque]
spec fn frontier(
    g: Graph,
    l: Seq<Label>,
    q: Multiset<u64>,
    est: spec_fn(CellIdx) -> Cost,
    dst: CellIdx,
    but: Option<CellIdx>,
) -> bool {
    forall|u: CellIdx|
        u < l.len() && (#[trigger] l[u as int]).live && u != dst && but != Some(u) ==> settled(
            g,
            l,
            u,
        ) || q.contains(entry(l, est, u))
}

/// What waits in the queue was reached.
#[verifier::opaque]
spec fn queue_live(l: Seq<Label>, q: Multiset<u64>) -> bool {
    forall|k: u64| #[trigger]
        q.contains(k) ==> k % 0x1_0000_0000 < l.len() && l[(k % 0x1_0000_0000) as int].live
}

/// Nothing that waits can matter to the goal any more.
spec fn done(l: Seq<Label>, q: Multiset<u64>, dst: CellIdx) -> bool {
    forall|k: u64| #[trigger] q.contains(k) ==> k / 0x1_0000_0000 > l[dst as int].dist
}

/// How much the labels can still improve.
spec fn slack(l: Seq<Label>) -> nat
    decreases l.len(),
{
    if l.len() == 0 {
        0
    } else {
        slack(l.drop_last()) + (l.last().dist * 0x2_0000_0000 + l.last().hops) as nat
    }
}

proof fn lemma_slack_update(l: Seq<Label>, i: int, x: Label)
    requires
        0 <= i < l.len(),
    ensures
        slack(l.update(i, x)) == slack(l) - (l[i].dist * 0x2_0000_0000 + l[i].hops) + (x.dist
            * 0x2_0000_0000 + x.hops),
    decreases l.len(),
{
    let m = l.update(i, x);
    if i == l.len() - 1 {
        assert(m.drop_last() =~= l.drop_last());
    } else {
        lemma_slack_update(l.drop_last(), i, x);
        assert(m.drop_last() =~= l.drop_last().update(i, x));
    }
}

/// A sequence of different cells is no longer than there are cells.
pub proof fn lemma_different_cells(s: Seq<CellIdx>, n: nat)
    requires
        s.no_duplicates(),
        forall|i: int| 0 <= i < s.len() ==> #[trigger] s[i] < n,
    ensures
        s.len() <= n,
    decreases n,
{
    if s.len() > 0 {
        assert(s[0] < n);
        let last = (n - 1) as nat;
        if exists|i: int| 0 <= i < s.len() && s[i] == last {
            let i = choose|i: int| 0 <= i < s.len() && s[i] == last;
            let t = s.remove(i);
            assert forall|j: int| 0 <= j < t.len() implies #[trigger] t[j] < last by {
                assert(t[j] == if j < i {
                    s[j]
                } else {
                    s[j + 1]
                });
            }
            assert(t.no_duplicates());
            lemma_different_cells(t, last);
        } else {
            lemma_different_cells(s, last);
        }
    }
}

/// A walk keeps to the cells.
pub proof fn lemma_walk_cells(g: Graph, w: Seq<CellIdx>)
    requires
        g.is_walk(w),
    ensures
        forall|i: int| 0 <= i < w.len() ==> #[trigger] w[i] < g.cells,
{
    assert forall|i: int| 0 <= i < w.len() implies #[trigger] w[i] < g.cells by {
        if i > 0 {
            assert(g.steps(w, i));
        }
    }
}

/// The label of a cell that was reached stands for a walk.
proof fn lemma_live(g: Graph, src: CellIdx, l: Seq<Label>, ws: Seq<Seq<CellIdx>>, c: CellIdx)
    requires
        sound(g, src, l, ws),
        c < l.len(),
        l[c as int].live || l[c as int].dist < u32::MAX,
    ensures
        l.len() == g.cells,
        l[c as int].live,
        realized(g, src, l, ws[c as int], c as int),
        c != src ==> entered(g, l, c as int),
{
    reveal(sound);
    assert(l[c as int].live);
}

/// A label holds fewer steps than there are cells.
proof fn lemma_hops_bound(g: Graph, src: CellIdx, l: Seq<Label>, ws: Seq<Seq<CellIdx>>, u: CellIdx)
    requires
        sound(g, src, l, ws),
        u < l.len(),
        l[u as int].live,
    ensures
        l[u as int].hops + 1 <= g.cells <= u32::MAX,
        l.len() == g.cells,
        ws.len() == g.cells,
{
    reveal(sound);
    assert(realized(g, src, l, ws[u as int], u as int));
    lemma_walk_cells(g, ws[u as int]);
    lemma_different_cells(ws[u as int], g.cells);
}

/// The label that the step from `u` gives to `v`.
spec fn relaxed(g: Graph, l: Seq<Label>, u: CellIdx, v: CellIdx) -> Label {
    Label {
        live: true,
        dist: sat(l[u as int].dist + g.price(u, v)) as u32,
        hops: (l[u as int].hops + 1) as u32,
        pred: u,
    }
}

/// A better label for `v` keeps the search sound.
proof fn lemma_relax_better(
    g: Graph,
    src: CellIdx,
    l: Seq<Label>,
    ws: Seq<Seq<CellIdx>>,
    u: CellIdx,
    v: CellIdx,
)
    requires
        sound(g, src, l, ws),
        g.joins(u, v),
        l[u as int].live,
        lex_lt(
            sat(l[u as int].dist + g.price(u, v)),
            l[u as int].hops + 1,
            l[v as int].dist as int,
            l[v as int].hops as int,
        ),
    ensures
        u != v,
        v != src,
        sound(
            g,
            src,
            l.update(v as int, relaxed(g, l, u, v)),
            ws.update(v as int, ws[u as int].push(v)),
        ),
        slack(l.update(v as int, relaxed(g, l, u, v))) < slack(l),
{
    reveal(sound);
    let m = l.update(v as int, relaxed(g, l, u, v));
    let xs = ws.update(v as int, ws[u as int].push(v));
    let wu = ws[u as int];
    let nd = sat(l[u as int].dist + g.price(u, v));
    let nh = l[u as int].hops + 1;
    lemma_hops_bound(g, src, l, ws, u);
    lemma_slack_update(l, v as int, relaxed(g, l, u, v));
    assert(realized(g, src, l, wu, u as int));
    assert forall|i: int| 0 <= i < wu.len() implies wu[i] != v by {
        if wu[i] == v {
            assert(on_time(g, l, wu, i));
            g.lemma_take(wu, i + 1);
        }
    }
    assert(wu.last() == u);
    let w = wu.push(v);
    g.lemma_push(wu, v);
    assert(w.no_duplicates());
    lemma_walk_cells(g, wu);
    assert forall|i: int| 0 <= i < w.len() implies #[trigger] on_time(g, m, w, i) by {
        if i < wu.len() {
            assert(on_time(g, l, wu, i));
            assert(w.take(i + 1) =~= wu.take(i + 1));
        } else {
            assert(w.take(i + 1) =~= w);
        }
    }
    assert forall|c: int| 0 <= c < m.len() && (#[trigger] m[c]).live implies realized(
        g,
        src,
        m,
        xs[c],
        c,
    ) by {
        if c != v {
            assert(l[c].live);
            assert(realized(g, src, l, ws[c], c));
            assert forall|i: int| 0 <= i < ws[c].len() implies #[trigger] on_time(
                g,
                m,
                ws[c],
                i,
            ) by {
                assert(on_time(g, l, ws[c], i));
                lemma_walk_cells(g, ws[c]);
            }
        }
    }
    assert forall|c: int| 0 <= c < m.len() && (#[trigger] m[c]).live && c != src implies entered(
        g,
        m,
        c,
    ) by {
        if c != v {
            assert(l[c].live);
            assert(entered(g, l, c));
        }
    }
}

/// A label that a step matches belongs to a cell that was reached.
proof fn lemma_matched_is_live(
    g: Graph,
    src: CellIdx,
    l: Seq<Label>,
    ws: Seq<Seq<CellIdx>>,
    u: CellIdx,
    v: CellIdx,
)
    requires
        sound(g, src, l, ws),
        g.joins(u, v),
        l[u as int].live,
        l[u as int].hops + 1 == l[v as int].hops,
    ensures
        l[v as int].live,
{
    reveal(sound);
    if !l[v as int].live {
        // The walk to `u` would visit every cell, `v` among them.
        let w = ws[u as int];
        assert(realized(g, src, l, w, u as int));
        lemma_walk_cells(g, w);
        lemma_different_cells(w, g.cells);
        assert forall|i: int| 0 <= i < w.len() implies w[i] != v by {
            if w[i] == v {
                assert(on_time(g, l, w, i));
            }
        }
        assert(w.push(v).no_duplicates());
        lemma_different_cells(w.push(v), g.cells);
    }
}

/// A lower predecessor for `v` keeps the search sound.
proof fn lemma_relax_pred(
    g: Graph,
    src: CellIdx,
    l: Seq<Label>,
    ws: Seq<Seq<CellIdx>>,
    u: CellIdx,
    v: CellIdx,
)
    requires
        sound(g, src, l, ws),
        g.joins(u, v),
        l[u as int].live,
        sat(l[u as int].dist + g.price(u, v)) == l[v as int].dist,
        l[u as int].hops + 1 == l[v as int].hops,
    ensures
        l[v as int].live,
        sound(g, src, l.update(v as int, relaxed(g, l, u, v)), ws),
        slack(l.update(v as int, relaxed(g, l, u, v))) == slack(l),
{
    reveal(sound);
    let m = l.update(v as int, relaxed(g, l, u, v));
    lemma_hops_bound(g, src, l, ws, u);
    lemma_slack_update(l, v as int, relaxed(g, l, u, v));
    lemma_matched_is_live(g, src, l, ws, u, v);
    assert forall|c: int| 0 <= c < m.len() && (#[trigger] m[c]).live implies realized(
        g,
        src,
        m,
        ws[c],
        c,
    ) by {
        assert(l[c].live);
        assert(realized(g, src, l, ws[c], c));
        assert forall|i: int| 0 <= i < ws[c].len() implies #[trigger] on_time(g, m, ws[c], i) by {
            assert(on_time(g, l, ws[c], i));
            lemma_walk_cells(g, ws[c]);
        }
    }
    assert forall|c: int| 0 <= c < m.len() && (#[trigger] m[c]).live && c != src implies entered(
        g,
        m,
        c,
    ) by {
        assert(l[c].live);
        assert(entered(g, l, c));
    }
}

/// Labels that only improve leave what they cover covered.
proof fn lemma_frontier_kept(
    g: Graph,
    l: Seq<Label>,
    m: Seq<Label>,
    q: Multiset<u64>,
    r: Multiset<u64>,
    est: spec_fn(CellIdx) -> Cost,
    dst: CellIdx,
    but: CellIdx,
    v: CellIdx,
)
    requires
        l.len() == g.cells,
        v < l.len(),
        but < l.len(),
        v != but,
        frontier(g, l, q, est, dst, Some(but)),
        m.len() == l.len(),
        forall|c: int| 0 <= c < l.len() && c != v ==> #[trigger] m[c] == l[c],
        ({
            ||| lex_lt(
                m[v as int].dist as int,
                m[v as int].hops as int,
                l[v as int].dist as int,
                l[v as int].hops as int,
            ) && r == q.insert(entry(m, est, v))
            ||| {
                &&& m[v as int].dist == l[v as int].dist
                &&& m[v as int].hops == l[v as int].hops
                &&& m[v as int].live == l[v as int].live
                &&& m[v as int].pred <= l[v as int].pred
                &&& r == q
            }
        }),
    ensures
        frontier(g, m, r, est, dst, Some(but)),
        forall|x: CellIdx|
            x < l.len() && #[trigger] covers(g, l, but, x) ==> covers(g, m, but, x),
{
    reveal(frontier);
    assert(m[but as int] == l[but as int]);
    assert forall|u: CellIdx|
        u < m.len() && (#[trigger] m[u as int]).live && u != dst && Some(but) != Some(
            u,
        ) implies settled(g, m, u) || r.contains(entry(m, est, u)) by {
        let better = r == q.insert(entry(m, est, v));
        assert(forall|k: u64| q.contains(k) ==> r.contains(k));
        if u == v {
            if !r.contains(entry(m, est, u)) {
                assert(l[u as int].live);
                assert(entry(m, est, u) == entry(l, est, u));
                assert(settled(g, l, u));
                assert forall|x: CellIdx| #[trigger] g.joins(u, x) implies covers(g, m, u, x) by {
                    assert(covers(g, l, u, x));
                }
            }
        } else {
            assert(l[u as int].live);
            assert(entry(m, est, u) == entry(l, est, u));
            if settled(g, l, u) {
                assert forall|x: CellIdx| #[trigger] g.joins(u, x) implies covers(g, m, u, x) by {
                    assert(covers(g, l, u, x));
                }
            }
        }
    }
}

/// An estimate is at most what the rest of a walk costs.
proof fn lemma_estimate(
    g: Graph,
    est: spec_fn(CellIdx) -> Cost,
    dst: CellIdx,
    p: Seq<CellIdx>,
    i: int,
)
    requires
        admits(g, est, dst),
        g.is_walk(p),
        p.last() == dst,
        0 <= i < p.len(),
    ensures
        est(p[i]) <= g.cost(p) - g.cost(p.take(i + 1)),
    decreases p.len() - i,
{
    if i == p.len() - 1 {
        assert(p.take(i + 1) =~= p);
    } else {
        lemma_estimate(g, est, dst, p, i + 1);
        assert(g.steps(p, i + 1));
        let t = p.take(i + 2);
        assert(t.drop_last() =~= p.take(i + 1));
        assert(t[t.len() - 2] == p[i]);
        assert(t.last() == p[i + 1]);
        assert(g.cost(t) == g.cost(p.take(i + 1)) + g.price(p[i], p[i + 1]));
    }
}

/// No label is better than the best walk.
proof fn lemma_label_not_better(
    g: Graph,
    src: CellIdx,
    l: Seq<Label>,
    ws: Seq<Seq<CellIdx>>,
    c: CellIdx,
    p: Seq<CellIdx>,
)
    requires
        sound(g, src, l, ws),
        c < l.len(),
        g.best(src, c, p),
    ensures
        lex_le(sat(g.cost(p) as int), p.len() - 1, l[c as int].dist as int, l[c as int].hops as int)
            || g.cost(p) >= u32::MAX && l[c as int].dist == u32::MAX,
        l[c as int].dist >= sat(g.cost(p) as int),
{
    if l[c as int].live {
        lemma_live(g, src, l, ws, c);
        assert(g.no_worse(p, ws[c as int]));
    } else {
        reveal(sound);
    }
}

/// When the search is over, every cell on a best walk to the goal has its label.
proof fn lemma_final(
    g: Graph,
    src: CellIdx,
    dst: CellIdx,
    l: Seq<Label>,
    ws: Seq<Seq<CellIdx>>,
    q: Multiset<u64>,
    est: spec_fn(CellIdx) -> Cost,
    p: Seq<CellIdx>,
    i: int,
)
    requires
        sound(g, src, l, ws),
        frontier(g, l, q, est, dst, None),
        dst < l.len(),
        g.best(src, dst, p),
        g.cost(p) < u32::MAX,
        admits(g, est, dst) && done(l, q, dst) || forall|k: u64| !(#[trigger] q.contains(k)),
        0 <= i < p.len(),
    ensures
        p[i] < l.len(),
        l[p[i] as int].live,
        l[p[i] as int].dist == g.cost(p.take(i + 1)),
        l[p[i] as int].hops == i,
        i < p.len() - 1 ==> settled(g, l, p[i]),
    decreases i,
{
    assert(l.len() == g.cells) by {
        reveal(sound);
    }
    lemma_walk_cells(g, p);
    g.lemma_prefix_best(src, dst, p, i);
    g.lemma_take(p, i + 1);
    let u = p[i];
    if i == 0 {
        assert(p.take(1) =~= seq![src]);
        reveal(sound);
    } else {
        lemma_final(g, src, dst, l, ws, q, est, p, i - 1);
        assert(g.steps(p, i));
        assert(covers(g, l, p[i - 1], u));
        let t = p.take(i + 1);
        assert(t.drop_last() =~= p.take(i));
        assert(t[t.len() - 2] == p[i - 1]);
        assert(t.last() == u);
        assert(g.cost(t) == g.cost(p.take(i)) + g.price(p[i - 1], u));
        lemma_label_not_better(g, src, l, ws, u, t);
        lemma_live(g, src, l, ws, u);
    }
    if i < p.len() - 1 {
        if u == dst {
            g.lemma_best_ends_once(src, dst, p, i);
        }
        if !settled(g, l, u) {
            let k = entry(l, est, u);
            assert(q.contains(k)) by {
                reveal(frontier);
            }
            lemma_estimate(g, est, dst, p, i);
            lemma_label_not_better(g, src, l, ws, dst, p);
            assert(k / 0x1_0000_0000 > l[dst as int].dist);
            assert(false);
        }
    }
}

/// When the search is over, a cell on a best walk to the goal was entered from the
/// lowest cell that a best walk enters it from.
proof fn lemma_final_pred(
    g: Graph,
    src: CellIdx,
    dst: CellIdx,
    l: Seq<Label>,
    ws: Seq<Seq<CellIdx>>,
    q: Multiset<u64>,
    est: spec_fn(CellIdx) -> Cost,
    p: Seq<CellIdx>,
    i: int,
)
    requires
        sound(g, src, l, ws),
        frontier(g, l, q, est, dst, None),
        dst < l.len(),
        g.best(src, dst, p),
        g.cost(p) < u32::MAX,
        admits(g, est, dst) && done(l, q, dst) || forall|k: u64| !(#[trigger] q.contains(k)),
        0 < i < p.len(),
    ensures
        p[i] < l.len(),
        l[p[i] as int].pred < l.len(),
        g.best(src, p[i], ws[l[p[i] as int].pred as int].push(p[i])),
        ws[l[p[i] as int].pred as int].len() == i,
        ws[l[p[i] as int].pred as int].last() == l[p[i] as int].pred,
        forall|b: Seq<CellIdx>| #[trigger]
            g.best(src, p[i], b) ==> l[p[i] as int].pred <= b[b.len() - 2],
{
    lemma_final(g, src, dst, l, ws, q, est, p, i);
    g.lemma_prefix_best(src, dst, p, i);
    g.lemma_take(p, i + 1);
    let v = p[i];
    let t = p.take(i + 1);
    if v == src {
        g.lemma_best_home(src, t);
        assert(t.len() == 1);
    }
    lemma_live(g, src, l, ws, v);
    let e = l[v as int].pred;
    lemma_live(g, src, l, ws, e);
    g.lemma_push(ws[e as int], v);
    let b = ws[e as int].push(v);
    assert(g.connects(src, v, b));
    g.lemma_as_good(src, v, t, b);
    g.lemma_best_alike(src, v, t, b);
    assert forall|b: Seq<CellIdx>| #[trigger] g.best(src, v, b) implies e <= b[b.len() - 2] by {
        g.lemma_splice_best(src, dst, p, i, b);
        let r = b + p.skip(i + 1);
        g.lemma_best_alike(src, dst, p, r);
        assert(r[i - 1] == b[b.len() - 2]);
        assert(r[i] == v);
        lemma_final(g, src, dst, l, ws, q, est, r, i - 1);
        lemma_final(g, src, dst, l, ws, q, est, r, i);
        let u = r[i - 1];
        assert(g.steps(r, i));
        assert(covers(g, l, u, v));
        let s = r.take(i + 1);
        assert(s.drop_last() =~= r.take(i));
        assert(s[s.len() - 2] == u && s.last() == v);
        assert(g.cost(s) == g.cost(r.take(i)) + g.price(u, v));
    }
}

/// A step from `u` that was offered to `v` keeps the search sound.
proof fn lemma_relaxed(
    g: Graph,
    src: CellIdx,
    dst: CellIdx,
    l: Seq<Label>,
    m: Seq<Label>,
    ws: Seq<Seq<CellIdx>>,
    q: Multiset<u64>,
    r: Multiset<u64>,
    est: spec_fn(CellIdx) -> Cost,
    u: CellIdx,
    v: CellIdx,
) -> (xs: Seq<Seq<CellIdx>>)
    requires
        sound(g, src, l, ws),
        queue_live(l, q),
        frontier(g, l, q, est, dst, Some(u)),
        l.len() == g.cells,
        u < l.len(),
        l[u as int].live,
        g.joins(u, v),
        ({
            let x = relaxed(g, l, u, v);
            let o = l[v as int];
            if lex_lt(x.dist as int, x.hops as int, o.dist as int, o.hops as int) {
                m == l.update(v as int, x) && r == q.insert(key(sat(x.dist + est(v)), v))
            } else if x.dist == o.dist && x.hops == o.hops && u < o.pred {
                m == l.update(v as int, x) && r == q
            } else {
                m == l && r == q
            }
        }),
    ensures
        sound(g, src, m, xs),
        queue_live(m, r),
        frontier(g, m, r, est, dst, Some(u)),
        covers(g, m, u, v),
        m[u as int] == l[u as int],
        dst < l.len() ==> m[dst as int].dist <= l[dst as int].dist,
        slack(m) < slack(l) || slack(m) == slack(l) && r == q,
        forall|x: CellIdx| x < l.len() && #[trigger] covers(g, l, u, x) ==> covers(g, m, u, x),
{
    lemma_hops_bound(g, src, l, ws, u);
    let x = relaxed(g, l, u, v);
    let o = l[v as int];
    let mut xs = ws;
    if lex_lt(x.dist as int, x.hops as int, o.dist as int, o.hops as int) {
        lemma_relax_better(g, src, l, ws, u, v);
        assert(r == q.insert(entry(m, est, v)));
        lemma_frontier_kept(g, l, m, q, r, est, dst, u, v);
        xs = ws.update(v as int, ws[u as int].push(v));
    } else if x.dist == o.dist && x.hops == o.hops && u < o.pred {
        lemma_relax_pred(g, src, l, ws, u, v);
        if u == v {
            assert(x.hops == o.hops);
        }
        lemma_frontier_kept(g, l, m, q, r, est, dst, u, v);
    }
    assert forall|k: u64| #[trigger] r.contains(k) implies k % 0x1_0000_0000 < m.len() && m[(k
        % 0x1_0000_0000) as int].live by {
        reveal(queue_live);
        if !q.contains(k) {
            assert(k == entry(m, est, v));
        }
    }
    reveal(queue_live);
    xs
}

/// A search starts sound, with its source in the queue.
proof fn lemma_start(
    g: Graph,
    src: CellIdx,
    dst: CellIdx,
    l: Seq<Label>,
    ws: Seq<Seq<CellIdx>>,
    q: Multiset<u64>,
    est: spec_fn(CellIdx) -> Cost,
)
    requires
        l.len() == g.cells,
        ws.len() == g.cells,
        g.cells <= u32::MAX,
        src < g.cells,
        l[src as int] == (Label { live: true, dist: 0, hops: 0, pred: NO_PRED }),
        ws[src as int] == seq![src],
        forall|c: int|
            0 <= c < l.len() && c != src ==> !(#[trigger] l[c]).live && l[c].dist == u32::MAX
                && l[c].hops == u32::MAX,
        q == Multiset::<u64>::empty().insert(key(est(src) as int, src)),
    ensures
        sound(g, src, l, ws),
        frontier(g, l, q, est, dst, None),
        queue_live(l, q),
{
    reveal(sound);
    reveal(frontier);
    reveal(queue_live);
    let w = seq![src];
    assert(w.take(1) =~= w);
    assert(on_time(g, l, w, 0));
    assert(realized(g, src, l, w, src as int));
    assert(sat(l[src as int].dist + est(src)) == est(src));
    assert forall|k: u64| #[trigger] q.contains(k) implies k == key(est(src) as int, src) by {
        assert(Multiset::<u64>::empty().count(k) == 0);
    }
}

/// What is left of the queue when an entry was taken out.
proof fn lemma_popped(
    g: Graph,
    l: Seq<Label>,
    q: Multiset<u64>,
    est: spec_fn(CellIdx) -> Cost,
    dst: CellIdx,
    k: u64,
    stale: bool,
)
    requires
        q.contains(k),
        frontier(g, l, q, est, dst, None),
        queue_live(l, q),
        stale == ({
            let u = (k % 0x1_0000_0000) as u32;
            k / 0x1_0000_0000 > l[u as int].dist + est(u)
        }),
    ensures
        queue_live(l, q.remove(k)),
        stale ==> frontier(g, l, q.remove(k), est, dst, None),
        !stale ==> frontier(g, l, q.remove(k), est, dst, Some((k % 0x1_0000_0000) as u32)),
        !stale && k % 0x1_0000_0000 == dst ==> frontier(g, l, q.remove(k), est, dst, None),
{
    reveal(frontier);
    reveal(queue_live);
    let r = q.remove(k);
    assert forall|o: u64| o != k && q.contains(o) implies #[trigger] r.contains(o) by {}
    assert forall|o: u64| #[trigger] r.contains(o) implies q.contains(o) by {}
    let but = (k % 0x1_0000_0000) as u32;
    assert forall|u: CellIdx|
        u < l.len() && (#[trigger] l[u as int]).live && u != dst && (stale || u
            != but) implies settled(g, l, u) || r.contains(entry(l, est, u)) by {
        let e = entry(l, est, u);
        assert(e % 0x1_0000_0000 == u);
        assert(e / 0x1_0000_0000 == sat(l[u as int].dist + est(u)));
    }
}

/// An empty queue holds nothing.
proof fn lemma_none_left(q: Multiset<u64>, k: u64)
    requires
        q.len() == 0,
    ensures
        !q.contains(k),
{
    if q.contains(k) {
        assert(q.remove(k).len() == q.len() - 1);
    }
}

/// When the search is over, the goal has a cost exactly where a walk leads to it.
proof fn lemma_found(
    g: Graph,
    src: CellIdx,
    dst: CellIdx,
    l: Seq<Label>,
    ws: Seq<Seq<CellIdx>>,
    q: Multiset<u64>,
    est: spec_fn(CellIdx) -> Cost,
)
    requires
        sound(g, src, l, ws),
        frontier(g, l, q, est, dst, None),
        dst < l.len(),
        (forall|k: u64| !(#[trigger] q.contains(k))) || l[dst as int].dist < u32::MAX,
    ensures
        l[dst as int].dist < u32::MAX <==> exists|p: Seq<CellIdx>| #[trigger]
            g.connects(src, dst, p) && g.cost(p) < u32::MAX,
{
    if l[dst as int].dist < u32::MAX {
        lemma_live(g, src, l, ws, dst);
    } else if exists|p: Seq<CellIdx>| #[trigger] g.connects(src, dst, p) && g.cost(p) < u32::MAX {
        let p = choose|p: Seq<CellIdx>| #[trigger]
            g.connects(src, dst, p) && g.cost(p) < u32::MAX;
        let b = g.lemma_best_exists(src, dst, p);
        lemma_final(g, src, dst, l, ws, q, est, b, b.len() - 1);
        assert(b.take(b.len() as int) =~= b);
    }
}

/// Offers `v` the label that a step from `u` gives it, for `step` more.
fn relax<S: SearchSpace>(
    buf: &mut SearchBuf,
    heap: &mut MinHeap,
    space: &S,
    u: CellIdx,
    v: CellIdx,
    step: Cost,
)
    requires
        old(buf).serves(space.extent().cells()),
        old(heap).wf(),
        space.valid(),
        space.extent().has(u),
        space.extent().has(v),
        old(buf).label(u as int).hops < u32::MAX,
    ensures
        final(buf).serves(space.extent().cells()),
        final(buf).stamp@.len() == old(buf).stamp@.len(),
        final(buf).gen == old(buf).gen,
        final(heap).wf(),
        ({
            let l = old(buf).labels();
            let x = Label {
                live: true,
                dist: sat(l[u as int].dist + step) as u32,
                hops: (l[u as int].hops + 1) as u32,
                pred: u,
            };
            let o = l[v as int];
            if lex_lt(x.dist as int, x.hops as int, o.dist as int, o.hops as int) {
                &&& final(buf).labels() == l.update(v as int, x)
                &&& final(heap)@ == old(heap)@.insert(key(sat(x.dist + space.estimate(v)), v))
            } else if x.dist == o.dist && x.hops == o.hops && u < o.pred {
                &&& final(buf).labels() == l.update(v as int, x)
                &&& final(heap)@ == old(heap)@
            } else {
                &&& final(buf).labels() == l
                &&& final(heap)@ == old(heap)@
            }
        }),
{
    let nd: Cost = buf.dist_of(u).saturating_add(step);
    let nh: u32 = buf.hops_of(u) + 1;
    let od: Cost = buf.dist_of(v);
    let oh: u32 = buf.hops_of(v);
    if nd < od || (nd == od && nh < oh) {
        buf.set(v, nd, nh, u);
        let np: Cost = nd.saturating_add(space.heuristic(v));
        heap.push((np as u64) * 0x1_0000_0000 + (v as u64));
    } else if nd == od && nh == oh && u < buf.pred_of(v) {
        buf.set(v, nd, nh, u);
    }
}

/// Offers every neighbour of `u` the label that a step from `u` gives it.
fn expand<S: SearchSpace>(
    buf: &mut SearchBuf,
    heap: &mut MinHeap,
    space: &S,
    dims: Dims,
    u: CellIdx,
    Ghost(src): Ghost<CellIdx>,
    Ghost(dst): Ghost<CellIdx>,
    Ghost(walks): Ghost<Seq<Seq<CellIdx>>>,
) -> (after: Ghost<Seq<Seq<CellIdx>>>)
    requires
        space.valid(),
        space.extent() == dims,
        dims.indexable(),
        dims.has(u),
        u != dst,
        old(buf).serves(dims.cells()),
        old(heap).wf(),
        old(buf).label(u as int).live,
        sound(graph_of(space), src, old(buf).labels(), walks),
        queue_live(old(buf).labels(), old(heap)@),
        frontier(
            graph_of(space),
            old(buf).labels(),
            old(heap)@,
            |c: CellIdx| space.estimate(c),
            dst,
            Some(u),
        ),
    ensures
        final(buf).serves(dims.cells()),
        final(buf).stamp@.len() == old(buf).stamp@.len(),
        final(buf).gen == old(buf).gen,
        final(heap).wf(),
        sound(graph_of(space), src, final(buf).labels(), after@),
        queue_live(final(buf).labels(), final(heap)@),
        frontier(
            graph_of(space),
            final(buf).labels(),
            final(heap)@,
            |c: CellIdx| space.estimate(c),
            dst,
            None,
        ),
        dims.has(dst) ==> final(buf).label(dst as int).dist <= old(buf).label(dst as int).dist,
        slack(final(buf).labels()) < slack(old(buf).labels()) || slack(final(buf).labels())
            == slack(old(buf).labels()) && final(heap)@ == old(heap)@,
{
    let ghost g = graph_of(space);
    let ghost est = |c: CellIdx| space.estimate(c);
    let ghost mut ws = walks;
    let planar = dims.neighbors4(u);
    let vias = dims.via_neighbors(u);
    let np: usize = planar.len();
    let nv: usize = vias.len();
    let mut i: usize = 0;
    while i < np + nv
        invariant
            i <= np + nv,
            np == planar@.len(),
            nv == vias@.len(),
            np <= 4,
            nv <= 2,
            forall|v: CellIdx| #[trigger] planar@.contains(v) <==> dims.planar_adjacent(u, v),
            forall|v: CellIdx| #[trigger] vias@.contains(v) <==> dims.via_adjacent(u, v),
            g == graph_of(space),
            est == (|c: CellIdx| space.estimate(c)),
            space.valid(),
            space.extent() == dims,
            dims.indexable(),
            dims.has(u),
            buf.serves(dims.cells()),
            buf.stamp@.len() == old(buf).stamp@.len(),
            buf.gen == old(buf).gen,
            heap.wf(),
            buf.label(u as int).live,
            sound(g, src, buf.labels(), ws),
            queue_live(buf.labels(), heap@),
            frontier(g, buf.labels(), heap@, est, dst, Some(u)),
            dims.has(dst) ==> buf.label(dst as int).dist <= old(buf).label(dst as int).dist,
            slack(buf.labels()) < slack(old(buf).labels()) || slack(buf.labels()) == slack(
                old(buf).labels(),
            ) && heap@ == old(heap)@,
            forall|j: int|
                0 <= j < i && g.joins(u, #[trigger] (planar@ + vias@)[j]) ==> covers(
                    g,
                    buf.labels(),
                    u,
                    (planar@ + vias@)[j],
                ),
        decreases np + nv - i,
    {
        let ghost l = buf.labels();
        let ghost q = heap@;
        let v: CellIdx = if i < np {
            planar[i]
        } else {
            vias[i - np]
        };
        proof {
            assert(i < np ==> planar@.contains(v));
            assert(i >= np ==> vias@.contains(v));
            assert(v == (planar@ + vias@)[i as int]);
            lemma_hops_bound(g, src, l, ws, u);
        }
        if !space.blocked(v) {
            let step: Option<Cost> = if i < np {
                Some(space.cost(u, v))
            } else {
                space.via_step(u, v)
            };
            if let Some(step) = step {
                proof {
                    assert(dims.planar_adjacent(u, v) ==> !dims.via_adjacent(u, v));
                    assert(g.joins(u, v));
                    assert(g.price(u, v) == step);
                }
                relax(buf, heap, space, u, v, step);
                proof {
                    ws = lemma_relaxed(
                        g, src, dst, l, buf.labels(), ws, q, heap@, est, u, v,
                    );
                    assert(buf.label(u as int) == buf.labels()[u as int]);
                    if dims.has(dst) {
                        assert(buf.label(dst as int) == buf.labels()[dst as int]);
                    }
                }
            }
        }
        i += 1;
    }
    proof {
        let l = buf.labels();
        assert forall|v: CellIdx| #[trigger] g.joins(u, v) implies covers(g, l, u, v) by {
            assert(dims.adjacent(u, v));
            let all = planar@ + vias@;
            if dims.planar_adjacent(u, v) {
                assert(planar@.contains(v));
                let j = choose|j: int| 0 <= j < planar@.len() && planar@[j] == v;
                assert(all[j] == v);
            } else {
                assert(vias@.contains(v));
                let j = choose|j: int| 0 <= j < vias@.len() && vias@[j] == v;
                assert(all[np + j] == v);
            }
        }
        assert(settled(g, l, u));
        reveal(frontier);
    }
    Ghost(ws)
}

/// The search has nothing left to do.
spec fn over(
    g: Graph,
    l: Seq<Label>,
    q: Multiset<u64>,
    est: spec_fn(CellIdx) -> Cost,
    dst: CellIdx,
) -> bool {
    admits(g, est, dst) && done(l, q, dst) || forall|k: u64| !(#[trigger] q.contains(k))
}

/// A step back from `cur` to the cell that it was entered from.
proof fn lemma_step_back(
    g: Graph,
    src: CellIdx,
    dst: CellIdx,
    l: Seq<Label>,
    ws: Seq<Seq<CellIdx>>,
    tail: Seq<CellIdx>,
)
    requires
        sound(g, src, l, ws),
        g.is_walk(tail),
        tail.last() == dst,
        tail[0] != src,
        tail[0] < l.len(),
        dst < l.len(),
        l[dst as int].dist < u32::MAX,
        l[tail[0] as int].live,
        l[tail[0] as int].dist + g.cost(tail) <= l[dst as int].dist,
    ensures
        ({
            let p = l[tail[0] as int].pred;
            let t = seq![p] + tail;
            &&& p < l.len()
            &&& l[p as int].live
            &&& g.is_walk(t)
            &&& t.last() == dst
            &&& l[p as int].dist + g.cost(t) <= l[dst as int].dist
            &&& lex_lt(
                l[p as int].dist as int,
                l[p as int].hops as int,
                l[tail[0] as int].dist as int,
                l[tail[0] as int].hops as int,
            )
        }),
{
    let cur = tail[0];
    let p = l[cur as int].pred;
    lemma_live(g, src, l, ws, cur);
    g.lemma_prepend(p, tail);
}

proof fn lemma_same_entry(g: Graph, src: CellIdx, a: Seq<CellIdx>, b: Seq<CellIdx>, i: int)
    requires
        g.lowest_entry(src, a, i),
        a[i] == b[i],
        a[i - 1] == b[i - 1],
    ensures
        g.lowest_entry(src, b, i),
{
}

/// A canonical tail stays one after a step back.
proof fn lemma_step_back_best(
    g: Graph,
    src: CellIdx,
    dst: CellIdx,
    l: Seq<Label>,
    ws: Seq<Seq<CellIdx>>,
    q: Multiset<u64>,
    est: spec_fn(CellIdx) -> Cost,
    whole: Seq<CellIdx>,
    k: int,
) -> (next: Seq<CellIdx>)
    requires
        sound(g, src, l, ws),
        frontier(g, l, q, est, dst, None),
        over(g, l, q, est, dst),
        dst < l.len(),
        g.best(src, dst, whole),
        g.cost(whole) < u32::MAX,
        0 < k < whole.len(),
        forall|i: int| k < i < whole.len() ==> #[trigger] g.lowest_entry(src, whole, i),
    ensures
        g.best(src, dst, next),
        g.cost(next) == g.cost(whole),
        next.len() == whole.len(),
        next.skip(k - 1) == seq![l[whole[k] as int].pred] + whole.skip(k),
        forall|i: int| k - 1 < i < next.len() ==> #[trigger] g.lowest_entry(src, next, i),
{
    lemma_final_pred(g, src, dst, l, ws, q, est, whole, k);
    let cur = whole[k];
    let p = l[cur as int].pred;
    let w = ws[p as int].push(cur);
    assert(w[k] == cur && w[k - 1] == p);
    assert(g.lowest_entry(src, w, k));
    g.lemma_splice_best(src, dst, whole, k, w);
    let next = w + whole.skip(k + 1);
    g.lemma_best_alike(src, dst, whole, next);
    assert(next.skip(k - 1) =~= seq![p] + whole.skip(k));
    assert forall|i: int| k - 1 < i < next.len() implies #[trigger] g.lowest_entry(
        src,
        next,
        i,
    ) by {
        if i > k {
            lemma_same_entry(g, src, whole, next, i);
        } else {
            assert(g.lowest_entry(src, w, k));
            lemma_same_entry(g, src, w, next, i);
        }
    }
    next
}

/// Follows the predecessors from `dst` back to `src`.
fn trace_back(
    buf: &SearchBuf,
    src: CellIdx,
    dst: CellIdx,
    Ghost(g): Ghost<Graph>,
    Ghost(ws): Ghost<Seq<Seq<CellIdx>>>,
    Ghost(q): Ghost<Multiset<u64>>,
    Ghost(est): Ghost<spec_fn(CellIdx) -> Cost>,
) -> (p: Vec<CellIdx>)
    requires
        buf.serves(g.cells as int),
        dst < g.cells,
        sound(g, src, buf.labels(), ws),
        frontier(g, buf.labels(), q, est, dst, None),
        buf.label(dst as int).dist < u32::MAX,
    ensures
        g.connects(src, dst, p@),
        g.cost(p@) <= buf.label(dst as int).dist,
        over(g, buf.labels(), q, est, dst) ==> {
            &&& g.canonical(src, dst, p@)
            &&& g.cost(p@) == buf.label(dst as int).dist
        },
{
    let ghost l = buf.labels();
    let ghost exact = over(g, l, q, est, dst);
    let mut back: Vec<CellIdx> = Vec::new();
    back.push(dst);
    let mut cur: CellIdx = dst;
    let ghost mut whole = seq![dst];
    proof {
        assert(l[dst as int] == buf.label(dst as int));
        lemma_live(g, src, l, ws, dst);
        assert(seq![dst].reverse() =~= seq![dst]);
        assert(back@ =~= seq![dst]);
        if exact {
            whole = g.lemma_best_exists(src, dst, ws[dst as int]);
            let n = whole.len() as int;
            lemma_final(g, src, dst, l, ws, q, est, whole, n - 1);
            assert(whole.take(n) =~= whole);
            assert(whole.skip(n - 1) =~= seq![dst]);
        }
    }
    while cur != src
        invariant
            l == buf.labels(),
            buf.serves(g.cells as int),
            l.len() == g.cells,
            sound(g, src, l, ws),
            frontier(g, l, q, est, dst, None),
            exact == over(g, l, q, est, dst),
            dst < l.len(),
            l[dst as int].dist < u32::MAX,
            back@.len() > 0,
            cur < l.len(),
            back@.last() == cur,
            l[cur as int].live,
            g.is_walk(back@.reverse()),
            back@.reverse()[0] == cur,
            back@.reverse().last() == dst,
            l[cur as int].dist + g.cost(back@.reverse()) <= l[dst as int].dist,
            exact ==> {
                let k = whole.len() - back@.len();
                &&& k >= 0
                &&& g.best(src, dst, whole)
                &&& g.cost(whole) == l[dst as int].dist
                &&& whole.skip(k) == back@.reverse()
                &&& forall|i: int|
                    k < i < whole.len() ==> #[trigger] g.lowest_entry(src, whole, i)
            },
        decreases l[cur as int].dist, l[cur as int].hops,
    {
        let ghost tail = back@.reverse();
        let ghost k = whole.len() - back@.len();
        let p: CellIdx = buf.pred_of(cur);
        proof {
            lemma_step_back(g, src, dst, l, ws, tail);
            assert(p == l[cur as int].pred);
            if exact {
                assert(whole[k] == whole.skip(k)[0]);
                if k == 0 {
                    assert(whole[0] == src);
                }
                whole = lemma_step_back_best(g, src, dst, l, ws, q, est, whole, k);
            }
        }
        back.push(p);
        cur = p;
        proof {
            assert(back@.reverse() =~= seq![p] + tail);
        }
    }
    proof {
        if exact {
            let k = whole.len() - back@.len();
            assert(whole[k] == whole.skip(k)[0]);
            g.lemma_prefix_best(src, dst, whole, k);
            g.lemma_best_home(src, whole.take(k + 1));
            assert(whole.take(k + 1).len() == k + 1);
            assert(whole.skip(0) =~= whole);
        }
    }
    reversed(&back)
}

/// The cells of `v`, last one first.
fn reversed(v: &Vec<CellIdx>) -> (r: Vec<CellIdx>)
    ensures
        r@ == v@.reverse(),
{
    let mut r: Vec<CellIdx> = Vec::new();
    let mut i: usize = v.len();
    while i > 0
        invariant
            i <= v@.len(),
            r@.len() == v@.len() - i,
            forall|j: int| 0 <= j < r@.len() ==> #[trigger] r@[j] == v@[v@.len() - 1 - j],
        decreases i,
    {
        i -= 1;
        r.push(v[i]);
    }
    assert(r@ =~= v@.reverse());
    r
}

/// Searches the canonical walk from `src` to `dst`.
///
/// The walk is found exactly where one costs less than the largest cost. It is the
/// canonical one where the estimates are consistent: the cheapest; of those, one
/// with the fewest steps; of those, the one with the lowest predecessors.
pub fn astar_buf<S: SearchSpace>(
    buf: &mut SearchBuf,
    dims: Dims,
    src: CellIdx,
    dst: CellIdx,
    space: &S,
) -> (r: Option<(Vec<CellIdx>, Cost)>)
    requires
        dims.indexable(),
        dims.has(src),
        dims.has(dst),
        space.valid(),
        space.extent() == dims,
        old(buf).wf(dims.cells()),
    ensures
        final(buf).wf(dims.cells()),
        final(buf).stamp@.len() == old(buf).stamp@.len(),
        final(buf).gen == if old(buf).gen == u32::MAX {
            1
        } else {
            old(buf).gen + 1
        },
        r is Some <==> canonical_route(space, src, dst) is Some,
        r matches Some((p, c)) ==> {
            &&& graph_of(space).connects(src, dst, p@)
            &&& graph_of(space).cost(p@) <= c < Cost::MAX
        },
        consistent(space, dst) ==> path_view(r) == canonical_route(space, src, dst),
{
    let ghost g = graph_of(space);
    let ghost est = |c: CellIdx| space.estimate(c);
    let n: usize = dims.len();
    buf.begin(n);
    if space.blocked(src) {
        return None;
    }
    let ghost fresh = buf.labels();
    buf.set(src, 0, 0, NO_PRED);
    let mut heap: MinHeap = MinHeap::new();
    heap.push((space.heuristic(src) as u64) * 0x1_0000_0000 + (src as u64));
    let mut goal: Option<Cost> = None;
    let ghost mut ws: Seq<Seq<CellIdx>> = Seq::new(n as nat, |i: int| seq![src]);
    let ghost mut rest = heap@;
    proof {
        let l = buf.labels();
        assert forall|c: int| 0 <= c < l.len() && c != src implies !(#[trigger] l[c]).live && l[c].dist == u32::MAX && l[c].hops == u32::MAX by {
            assert(l[c] == fresh[c]);
        }
        lemma_start(g, src, dst, l, ws, heap@, est);
    }
    loop
        invariant_except_break
            frontier(g, buf.labels(), heap@, est, dst, None),
            queue_live(buf.labels(), heap@),
            goal matches Some(c) ==> buf.label(dst as int).dist <= c,
        invariant
            dims.indexable(),
            dims.has(src),
            dims.has(dst),
            space.valid(),
            space.extent() == dims,
            g == graph_of(space),
            est == (|c: CellIdx| space.estimate(c)),
            n == dims.cells(),
            buf.serves(dims.cells()),
            buf.stamp@.len() == old(buf).stamp@.len(),
            heap.wf(),
            buf.gen == if old(buf).gen == u32::MAX {
                1
            } else {
                old(buf).gen + 1
            },
            sound(g, src, buf.labels(), ws),
        ensures
            frontier(g, buf.labels(), rest, est, dst, None),
            done(buf.labels(), rest, dst),
            (forall|k: u64| !(#[trigger] rest.contains(k))) || buf.label(dst as int).dist < u32::MAX,
        decreases slack(buf.labels()), heap@.len(),
    {
        let ghost q = heap@;
        let ghost l = buf.labels();
        let top = heap.pop();
        if top.is_none() {
            proof {
                rest = heap@;
                assert forall|k: u64| !(#[trigger] rest.contains(k)) by {
                    lemma_none_left(rest, k);
                }
            }
            break;
        }
        let k: u64 = top.unwrap();
        let prio: Cost = (k / 0x1_0000_0000) as u32;
        let u: CellIdx = (k % 0x1_0000_0000) as u32;
        proof {
            assert(q.contains(k));
            assert(dims.has(u) && l[u as int].live) by {
                reveal(queue_live);
            }
            assert(buf.label(u as int) == l[u as int]);
            assert(buf.label(dst as int) == l[dst as int]);
        }
        if let Some(c) = goal {
            if prio > c {
                proof {
                    rest = q;
                }
                break;
            }
        }
        let du: Cost = buf.dist_of(u);
        let stale = prio.saturating_sub(space.heuristic(u)) > du;
        proof {
            lemma_popped(g, l, q, est, dst, k, stale);
        }
        if stale {
            continue;
        }
        if u == dst {
            goal = Some(du);
            continue;
        }
        let after = expand(buf, &mut heap, space, dims, u, Ghost(src), Ghost(dst), Ghost(ws));
        proof {
            ws = after@;
        }
    }
    let total: Cost = buf.dist_of(dst);
    proof {
        g.lemma_routable(src, dst, Cost::MAX as nat);
        assert(buf.label(dst as int) == buf.labels()[dst as int]);
        lemma_found(g, src, dst, buf.labels(), ws, rest, est);
    }
    if total == Cost::MAX {
        return None;
    }
    let path = trace_back(buf, src, dst, Ghost(g), Ghost(ws), Ghost(rest), Ghost(est));
    proof {
        if admits(g, est, dst) {
            g.lemma_route_is(src, dst, Cost::MAX as nat, path@);
        }
    }
    Some((path, total))
}

/// The least that it costs to get from `src` to `c`; the largest cost where no walk
/// costs less.
pub open spec fn distance(g: Graph, src: CellIdx, c: CellIdx) -> Cost {
    match g.route(src, c, Cost::MAX as nat) {
        Some((_, d)) => d as u32,
        None => Cost::MAX,
    }
}

/// The cell from which the canonical walk from `src` enters `c`.
pub open spec fn canonical_pred(g: Graph, src: CellIdx, c: CellIdx) -> CellIdx {
    match g.route(src, c, Cost::MAX as nat) {
        Some((p, _)) => if p.len() >= 2 {
            p[p.len() - 2]
        } else {
            NO_PRED
        },
        None => NO_PRED,
    }
}

/// With nothing left to do, a label is what the canonical walk gives.
proof fn lemma_field(
    g: Graph,
    src: CellIdx,
    l: Seq<Label>,
    ws: Seq<Seq<CellIdx>>,
    q: Multiset<u64>,
    est: spec_fn(CellIdx) -> Cost,
    c: CellIdx,
)
    requires
        sound(g, src, l, ws),
        frontier(g, l, q, est, NO_PRED, None),
        forall|k: u64| !(#[trigger] q.contains(k)),
        c < l.len(),
    ensures
        l[c as int].dist == distance(g, src, c),
        l[c as int].dist < u32::MAX && c != src ==> l[c as int].pred == canonical_pred(g, src, c),
{
    assert(frontier(g, l, q, est, c, None)) by {
        reveal(frontier);
        reveal(sound);
    }
    g.lemma_routable(src, c, Cost::MAX as nat);
    lemma_found(g, src, c, l, ws, q, est);
    if l[c as int].dist < u32::MAX {
        let p = (g.route(src, c, Cost::MAX as nat)->0).0;
        let n = p.len() as int;
        lemma_final(g, src, c, l, ws, q, est, p, n - 1);
        assert(p.take(n) =~= p);
        if c != src {
            assert(n >= 2);
            lemma_final_pred(g, src, c, l, ws, q, est, p, n - 1);
            assert(g.lowest_entry(src, p, n - 1));
            let e = l[c as int].pred;
            let b = ws[e as int].push(c);
            assert(b[b.len() - 2] == e);
            assert(p[n - 2] <= e);
        }
    }
}

/// Labels every cell with the cost of its canonical walk from `src` and the cell
/// that the walk enters it from.
pub fn flood<S: SearchSpace>(buf: &mut SearchBuf, dims: Dims, src: CellIdx, space: &S)
    requires
        dims.indexable(),
        dims.has(src),
        space.valid(),
        space.extent() == dims,
        old(buf).wf(dims.cells()),
    ensures
        final(buf).wf(dims.cells()),
        final(buf).stamp@.len() == old(buf).stamp@.len(),
        forall|c: CellIdx|
            dims.has(c) ==> (#[trigger] final(buf).label(c as int)).dist == if space.closed(src) {
                Cost::MAX
            } else {
                distance(graph_of(space), src, c)
            },
        forall|c: CellIdx|
            dims.has(c) && !space.closed(src) ==> (#[trigger] final(buf).label(c as int)).pred
                == canonical_pred(graph_of(space), src, c) || final(buf).label(c as int).dist
                == Cost::MAX,
{
    let ghost g = graph_of(space);
    let ghost est = |c: CellIdx| space.estimate(c);
    let n: usize = dims.len();
    buf.begin(n);
    if space.blocked(src) {
        return;
    }
    let ghost fresh = buf.labels();
    buf.set(src, 0, 0, NO_PRED);
    let mut heap: MinHeap = MinHeap::new();
    heap.push((space.heuristic(src) as u64) * 0x1_0000_0000 + (src as u64));
    let ghost mut ws: Seq<Seq<CellIdx>> = Seq::new(n as nat, |i: int| seq![src]);
    proof {
        let l = buf.labels();
        assert forall|c: int| 0 <= c < l.len() && c != src implies !(#[trigger] l[c]).live
            && l[c].dist == u32::MAX && l[c].hops == u32::MAX by {
            assert(l[c] == fresh[c]);
        }
        lemma_start(g, src, NO_PRED, l, ws, heap@, est);
    }
    loop
        invariant
            dims.indexable(),
            dims.has(src),
            space.valid(),
            space.extent() == dims,
            g == graph_of(space),
            est == (|c: CellIdx| space.estimate(c)),
            n == dims.cells(),
            buf.serves(dims.cells()),
            buf.stamp@.len() == old(buf).stamp@.len(),
            heap.wf(),
            sound(g, src, buf.labels(), ws),
            frontier(g, buf.labels(), heap@, est, NO_PRED, None),
            queue_live(buf.labels(), heap@),
        ensures
            forall|k: u64| !(#[trigger] heap@.contains(k)),
        decreases slack(buf.labels()), heap@.len(),
    {
        let ghost q = heap@;
        let ghost l = buf.labels();
        let top = heap.pop();
        if top.is_none() {
            proof {
                assert forall|k: u64| !(#[trigger] heap@.contains(k)) by {
                    lemma_none_left(heap@, k);
                }
            }
            break;
        }
        let k: u64 = top.unwrap();
        let prio: Cost = (k / 0x1_0000_0000) as u32;
        let u: CellIdx = (k % 0x1_0000_0000) as u32;
        proof {
            assert(q.contains(k));
            assert(dims.has(u) && l[u as int].live) by {
                reveal(queue_live);
            }
            assert(buf.label(u as int) == l[u as int]);
        }
        let du: Cost = buf.dist_of(u);
        let stale = prio.saturating_sub(space.heuristic(u)) > du;
        proof {
            lemma_popped(g, l, q, est, NO_PRED, k, stale);
        }
        if stale {
            continue;
        }
        let after = expand(buf, &mut heap, space, dims, u, Ghost(src), Ghost(NO_PRED), Ghost(ws));
        proof {
            ws = after@;
        }
    }
    proof {
        let l = buf.labels();
        assert forall|c: CellIdx| dims.has(c) implies (#[trigger] buf.label(c as int)).dist
            == distance(g, src, c) && (buf.label(c as int).pred == canonical_pred(g, src, c)
            || buf.label(c as int).dist == Cost::MAX) by {
            lemma_field(g, src, l, ws, heap@, est, c);
            assert(buf.label(c as int) == l[c as int]);
            if c == src {
                lemma_home(g, src, l, ws);
            }
        }
    }
}

/// The source was not entered from anywhere.
proof fn lemma_home(g: Graph, src: CellIdx, l: Seq<Label>, ws: Seq<Seq<CellIdx>>)
    requires
        sound(g, src, l, ws),
    ensures
        l[src as int].pred == canonical_pred(g, src, src),
{
    reveal(sound);
    g.lemma_routable(src, src, Cost::MAX as nat);
    if g.route(src, src, Cost::MAX as nat) is Some {
        g.lemma_best_home(src, (g.route(src, src, Cost::MAX as nat)->0).0);
    }
}

} // verus!
