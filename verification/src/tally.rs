//! What a board of routes says of each net and of each cell.
use vstd::prelude::*;

use crate::board::{CellIdx, Dims};
use crate::net::{BoardView, NetEndpoints, RoutedView};

verus! {

/// How many of the numbers below `n` are meant.
pub open spec fn how_many(meant: spec_fn(int) -> bool, n: nat) -> nat
    decreases n,
{
    if n == 0 {
        0
    } else if meant(n - 1) {
        how_many(meant, (n - 1) as nat) + 1
    } else {
        how_many(meant, (n - 1) as nat)
    }
}

/// How many of the first `n` cells of a path are `c`.
pub open spec fn seen(path: Seq<CellIdx>, c: CellIdx, n: nat) -> nat {
    how_many(|k: int| path[k] == c, n)
}

/// How often the first `n` routes pass a cell.
pub open spec fn passes(results: Seq<RoutedView>, c: CellIdx, n: nat) -> nat
    decreases n,
{
    if n == 0 {
        0
    } else {
        let path = results[n - 1].path;
        passes(results, c, (n - 1) as nat) + seen(path, c, path.len())
    }
}

/// No more are meant than there are.
pub proof fn lemma_how_many(meant: spec_fn(int) -> bool, n: nat)
    ensures
        how_many(meant, n) <= n,
    decreases n,
{
    if n > 0 {
        lemma_how_many(meant, (n - 1) as nat);
    }
}

/// More numbers, no fewer that are meant.
pub proof fn lemma_how_many_grows(meant: spec_fn(int) -> bool, m: nat, n: nat)
    requires
        m <= n,
    ensures
        how_many(meant, m) <= how_many(meant, n),
        how_many(meant, n) - how_many(meant, m) <= n - m,
    decreases n,
{
    if m < n {
        lemma_how_many_grows(meant, m, (n - 1) as nat);
    }
}

/// What is meant of the numbers below `n` alone counts.
pub proof fn lemma_how_many_same(a: spec_fn(int) -> bool, b: spec_fn(int) -> bool, n: nat)
    requires
        forall|i: int| 0 <= i < n ==> #[trigger] a(i) == b(i),
    ensures
        how_many(a, n) == how_many(b, n),
    decreases n,
{
    if n > 0 {
        lemma_how_many_same(a, b, (n - 1) as nat);
        assert(a(n - 1) == b(n - 1));
    }
}

/// Net `i` is reported as routed, in its turn among those that are.
pub open spec fn is_reported(
    b: BoardView,
    name: Seq<char>,
    done: spec_fn(int) -> bool,
    i: int,
    path: Seq<CellIdx>,
    cost: nat,
) -> bool {
    let k = how_many(done, i as nat);
    &&& k < b.results.len()
    &&& b.results[k as int].net == name
    &&& b.results[k as int].path == path
    &&& b.results[k as int].cost == cost
}

/// Net `i` is reported as not routed, in its turn among those that are not.
pub open spec fn is_missed(
    b: BoardView,
    name: Seq<char>,
    done: spec_fn(int) -> bool,
    i: int,
) -> bool {
    let k = i - how_many(done, i as nat);
    0 <= k < b.unrouted.len() && b.unrouted[k] == name
}

/// The routes and the names of the first nets.
proof fn lemma_lists(
    nets: Seq<NetEndpoints>,
    outs: Seq<Option<(Seq<CellIdx>, nat)>>,
    done: spec_fn(int) -> bool,
    n: nat,
    i: int,
)
    requires
        nets.len() == outs.len(),
        n <= nets.len(),
        forall|j: int| 0 <= j < nets.len() ==> #[trigger] done(j) == (outs[j] is Some),
    ensures
        ({
            let r = crate::net::routed_of(nets.take(n as int), outs.take(n as int));
            let u = crate::net::unrouted_of(nets.take(n as int), outs.take(n as int));
            let k = how_many(done, i as nat) as int;
            &&& r.len() == how_many(done, n)
            &&& u.len() == n - how_many(done, n)
            &&& 0 <= i < n && done(i) ==> k < r.len() && r[k].net == nets[i].net@ && r[k].path
                == (outs[i]->0).0 && r[k].cost == (outs[i]->0).1
            &&& 0 <= i < n && !done(i) ==> 0 <= i - k < u.len() && u[i - k] == nets[i].net@
        }),
    decreases n,
{
    if n > 0 {
        let n1 = (n - 1) as nat;
        lemma_lists(nets, outs, done, n1, i);
        assert(nets.take(n as int).drop_last() =~= nets.take(n1 as int));
        assert(outs.take(n as int).drop_last() =~= outs.take(n1 as int));
        assert(done(n - 1) == (outs[n - 1] is Some));
        if 0 <= i < n {
            lemma_how_many_grows(done, i as nat, n1);
            lemma_how_many(done, i as nat);
        }
    } else {
        lemma_how_many(done, 0);
    }
}

/// A board lists the nets in their order: each is among the routes with what was found
/// for it, or among the nets that were not routed.
pub proof fn law_board_lists_nets(
    dims: Dims,
    nets: Seq<NetEndpoints>,
    outs: Seq<Option<(Seq<CellIdx>, nat)>>,
    done: spec_fn(int) -> bool,
    i: int,
)
    requires
        nets.len() == outs.len(),
        0 <= i < nets.len(),
        forall|j: int| 0 <= j < nets.len() ==> #[trigger] done(j) == (outs[j] is Some),
    ensures
        ({
            let b = crate::net::board_of(dims, nets, outs);
            &&& b.results.len() == how_many(done, nets.len())
            &&& b.unrouted.len() == nets.len() - how_many(done, nets.len())
            &&& outs[i] matches Some((p, c)) ==> is_reported(b, nets[i].net@, done, i, p, c)
            &&& outs[i] is None ==> is_missed(b, nets[i].net@, done, i)
        }),
{
    lemma_lists(nets, outs, done, nets.len(), i);
    assert(nets.take(nets.len() as int) =~= nets);
    assert(outs.take(nets.len() as int) =~= outs);
    assert(done(i) == (outs[i] is Some));
}

/// How often a cell is on a path.
pub proof fn lemma_occurrences(path: Seq<CellIdx>, c: CellIdx, n: nat)
    requires
        n <= path.len(),
    ensures
        crate::cells::occurrences(path.take(n as int), c) == seen(path, c, n),
    decreases n,
{
    if n > 0 {
        lemma_occurrences(path, c, (n - 1) as nat);
        assert(path.take(n as int).drop_last() =~= path.take(n - 1));
        assert(path.take(n as int).last() == path[n - 1]);
    }
}

proof fn lemma_visits(results: Seq<RoutedView>, c: CellIdx, n: nat)
    requires
        n <= results.len(),
    ensures
        crate::net::visits(results.take(n as int), c) == passes(results, c, n),
    decreases n,
{
    if n > 0 {
        lemma_visits(results, c, (n - 1) as nat);
        assert(results.take(n as int).drop_last() =~= results.take(n - 1));
        let path = results[n - 1].path;
        lemma_occurrences(path, c, path.len());
        assert(path.take(path.len() as int) =~= path);
    }
}

/// The board says of each of its cells how often its routes pass it, up to the largest
/// number.
pub open spec fn tells_traffic(b: BoardView, cells: int) -> bool {
    &&& b.congestion.len() == cells
    &&& forall|c: int|
        0 <= c < cells ==> {
            let n = passes(b.results, c as u32, b.results.len());
            #[trigger] b.congestion[c] == if n < u32::MAX {
                n
            } else {
                u32::MAX as nat
            }
        }
}

/// A board tells the traffic on each of its cells.
pub proof fn law_congestion_is_traffic(
    dims: Dims,
    nets: Seq<NetEndpoints>,
    outs: Seq<Option<(Seq<CellIdx>, nat)>>,
)
    requires
        dims.w * dims.h * dims.layers <= u32::MAX,
    ensures
        tells_traffic(crate::net::board_of(dims, nets, outs), dims.w * dims.h * dims.layers),
{
    let b = crate::net::board_of(dims, nets, outs);
    assert(dims.w * dims.h * dims.layers >= 0) by (nonlinear_arith);
    assert forall|c: int| 0 <= c < dims.w * dims.h * dims.layers implies {
        let n = passes(b.results, c as u32, b.results.len());
        #[trigger] b.congestion[c] == if n < u32::MAX {
            n
        } else {
            u32::MAX as nat
        }
    } by {
        lemma_visits(b.results, c as u32, b.results.len());
        assert(b.results.take(b.results.len() as int) =~= b.results);
    }
}

} // verus!
