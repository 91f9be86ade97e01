//! What committed paths cost, and which of several results is the best.
use vstd::prelude::*;

use crate::board::{CellIdx, Cost};
use crate::cells::contains_cell;
use crate::grid::Grid;
use crate::halo::Committed;
use crate::net::NetEndpoints;
use crate::orders::is_lex_less;

verus! {

/// What entering `c` costs a net.
pub open spec fn entry_cost(grid: &Grid, net: &NetEndpoints, c: CellIdx) -> nat {
    if grid.obstacle(c) && net.passable_pads@.contains(c) {
        1
    } else {
        grid.cost@[c as int] as nat
    }
}

/// What the first `k` cells of a path cost a net; the cell that it starts from is free.
pub open spec fn toll(grid: &Grid, net: &NetEndpoints, path: Seq<CellIdx>, k: nat) -> nat
    decreases k,
{
    if k <= 1 {
        0
    } else {
        toll(grid, net, path, (k - 1) as nat) + entry_cost(grid, net, path[k - 1])
    }
}

/// What a path costs a net on the given grid, up to the largest cost.
pub open spec fn path_cost(grid: &Grid, net: &NetEndpoints, path: Seq<CellIdx>) -> Cost {
    crate::search::sat(toll(grid, net, path, path.len()) as int) as u32
}

/// What a path costs a net on the given grid, up to the largest cost.
///
/// A masked pad of the net's own costs one.
pub fn grid_path_cost(grid: &Grid, net: &NetEndpoints, path: &Vec<CellIdx>) -> (cost: Cost)
    requires
        grid.well_formed(),
        crate::halo::on_board(grid.dims, path@),
    ensures
        cost == path_cost(grid, net, path@),
{
    let mut acc: Cost = 0;
    let mut k: usize = 1;
    while k < path.len()
        invariant
            grid.well_formed(),
            crate::halo::on_board(grid.dims, path@),
            k >= 1,
            k <= path@.len() || path@.len() == 0 && k == 1,
            acc == crate::search::sat(toll(grid, net, path@, k as nat) as int),
        decreases path@.len() - k,
    {
        let c: CellIdx = path[k];
        assert(grid.dims.has(path@[k as int]));
        let step: Cost = if grid.is_obstacle(c) && contains_cell(&net.passable_pads, c) {
            1
        } else {
            grid.cost_at(c)
        };
        assert(step == entry_cost(grid, net, c));
        acc = acc.saturating_add(step);
        k += 1;
    }
    proof {
        if path@.len() == 0 {
            assert(k == 1);
            assert(toll(grid, net, path@, 0) == 0);
        }
    }
    acc
}

/// What the first `k` nets' committed paths cost together.
pub open spec fn cost_of(
    grid: &Grid,
    nets: Seq<NetEndpoints>,
    committed: Seq<Option<Seq<CellIdx>>>,
    k: nat,
) -> nat
    decreases k,
{
    if k == 0 {
        0
    } else {
        cost_of(grid, nets, committed, (k - 1) as nat) + match committed[k - 1] {
            Some(p) => path_cost(grid, &nets[k - 1], p) as nat,
            None => 0nat,
        }
    }
}

/// A sum, up to the largest 64-bit number.
pub open spec fn sat64(x: nat) -> u64 {
    if x <= u64::MAX {
        x as u64
    } else {
        u64::MAX
    }
}

/// What committed paths cost together.
pub open spec fn total_of(
    grid: &Grid,
    nets: Seq<NetEndpoints>,
    committed: Seq<Option<Seq<CellIdx>>>,
) -> u64 {
    sat64(cost_of(grid, nets, committed, committed.len()))
}

/// What committed paths cost together, in 64 bits.
pub fn committed_grid_cost(grid: &Grid, nets: &[NetEndpoints], committed: &Committed) -> (cost: u64)
    requires
        grid.well_formed(),
        committed@.len() == nets@.len(),
        forall|i: int|
            0 <= i < committed@.len() ==> (#[trigger] committed@[i] matches Some(p)
                ==> crate::halo::on_board(grid.dims, p@)),
    ensures
        cost == total_of(grid, nets@, crate::halo::committed_view(committed@)),
{
    let ghost cv = crate::halo::committed_view(committed@);
    let mut acc: u64 = 0;
    let mut k: usize = 0;
    while k < committed.len()
        invariant
            grid.well_formed(),
            committed@.len() == nets@.len(),
            forall|i: int|
                0 <= i < committed@.len() ==> (#[trigger] committed@[i] matches Some(p)
                    ==> crate::halo::on_board(grid.dims, p@)),
            cv == crate::halo::committed_view(committed@),
            k <= committed@.len(),
            acc == sat64(cost_of(grid, nets@, cv, k as nat)),
        decreases committed@.len() - k,
    {
        match &committed[k] {
            Some(path) => {
                assert(committed@[k as int] == Some(*path));
                assert(cv[k as int] == Some(path@));
                acc = acc.saturating_add(grid_path_cost(grid, &nets[k], path) as u64);
            },
            None => {
                assert(cv[k as int] is None);
            },
        }
        k += 1;
    }
    acc
}

/// How many of the first `k` nets are committed.
pub open spec fn routed_in(committed: Seq<Option<Seq<CellIdx>>>, k: nat) -> nat
    decreases k,
{
    if k == 0 {
        0
    } else {
        routed_in(committed, (k - 1) as nat) + if committed[k - 1] is Some {
            1nat
        } else {
            0nat
        }
    }
}

/// How many nets are committed.
pub fn routed_count(committed: &Committed) -> (n: usize)
    ensures
        n == routed_in(crate::halo::committed_view(committed@), committed@.len()),
        n <= committed@.len(),
{
    let ghost cv = crate::halo::committed_view(committed@);
    let mut n: usize = 0;
    let mut k: usize = 0;
    while k < committed.len()
        invariant
            cv == crate::halo::committed_view(committed@),
            k <= committed@.len(),
            n <= k,
            n == routed_in(cv, k as nat),
        decreases committed@.len() - k,
    {
        if committed[k].is_some() {
            assert(cv[k as int] is Some);
            n += 1;
        } else {
            assert(cv[k as int] is None);
        }
        k += 1;
    }
    n
}

/// The length of a path in steps.
pub open spec fn steps_of(path: Seq<CellIdx>) -> Cost {
    (if path.len() == 0 {
        0
    } else {
        path.len() - 1
    }) as u32
}

/// The length of a path in steps.
pub fn unit_cost(path: &Vec<CellIdx>) -> (c: Cost)
    ensures
        c == steps_of(path@),
{
    let n: usize = path.len().saturating_sub(1);
    n as u32
}

/// How good a result is: how many nets it routes, what they cost, and by which order
/// it came about.
pub struct Score {
    /// How many nets are routed.
    pub routed: nat,
    /// What they cost.
    pub cost: u64,
    /// The order.
    pub order: Seq<usize>,
}

/// `a` is better than `b`: it routes more nets, or as many at a lower cost, or as many
/// at the same cost by an order that comes before.
pub open spec fn outdoes(a: Score, b: Score) -> bool {
    ||| a.routed > b.routed
    ||| a.routed == b.routed && a.cost < b.cost
    ||| a.routed == b.routed && a.cost == b.cost && crate::orders::lex_less(a.order, b.order)
}

/// Whether one result is better than another.
pub fn legalization_candidate_is_better(
    routed: usize,
    total_cost: u64,
    order: &[usize],
    best_routed: usize,
    best_cost: u64,
    best_order: &[usize],
) -> (b: bool)
    ensures
        b == outdoes(
            Score { routed: routed as nat, cost: total_cost, order: order@ },
            Score { routed: best_routed as nat, cost: best_cost, order: best_order@ },
        ),
{
    if routed != best_routed {
        routed > best_routed
    } else if total_cost != best_cost {
        total_cost < best_cost
    } else {
        is_lex_less(order, best_order)
    }
}

/// Which of the first `k` results wins: the first one that no later one outdoes.
pub open spec fn winner(scores: Seq<Score>, k: nat) -> int
    decreases k,
{
    if k <= 1 {
        0
    } else {
        let b = winner(scores, (k - 1) as nat);
        if outdoes(scores[k - 1], scores[b]) {
            k - 1
        } else {
            b
        }
    }
}

/// An order that comes before one that comes before a third comes before the third.
proof fn lemma_lex_chain(a: Seq<usize>, b: Seq<usize>, c: Seq<usize>)
    requires
        crate::orders::lex_less(a, b),
        crate::orders::lex_less(b, c),
    ensures
        crate::orders::lex_less(a, c),
{
    let j = choose|j: int| #[trigger] crate::orders::differs(a, b, j);
    let k = choose|k: int| #[trigger] crate::orders::differs(b, c, k);
    let m = if j < k {
        j
    } else {
        k
    };
    assert forall|x: int| 0 <= x < m implies a[x] == c[x] by {
        assert(a[x] == b[x] && b[x] == c[x]);
    }
    if j < k {
        assert(b[j] == c[j]);
    } else if k < j {
        assert(a[k] == b[k]);
    }
    assert(crate::orders::differs(a, c, m));
}

/// No order comes before itself.
proof fn lemma_lex_strict(a: Seq<usize>)
    ensures
        !crate::orders::lex_less(a, a),
{
    assert forall|k: int| !#[trigger] crate::orders::differs(a, a, k) by {}
}

/// The winner is one of the results, and none of them outdoes it.
pub proof fn law_winner_is_best(scores: Seq<Score>, k: nat, x: int)
    requires
        0 < k <= scores.len(),
        0 <= x < k,
    ensures
        0 <= winner(scores, k) < k,
        !outdoes(scores[x], scores[winner(scores, k)]),
    decreases k,
{
    if k == 1 {
        lemma_lex_strict(scores[0].order);
    } else {
        let k1 = (k - 1) as nat;
        let b = winner(scores, k1);
        law_winner_is_best(scores, k1, 0);
        if x < k1 {
            law_winner_is_best(scores, k1, x);
            if outdoes(scores[k - 1], scores[b]) && outdoes(scores[x], scores[k - 1]) {
                if crate::orders::lex_less(scores[x].order, scores[k - 1].order)
                    && crate::orders::lex_less(scores[k - 1].order, scores[b].order) {
                    lemma_lex_chain(scores[x].order, scores[k - 1].order, scores[b].order);
                }
            }
        } else {
            lemma_lex_strict(scores[k - 1].order);
        }
    }
}

} // verus!
