//! One way to route a whole board: negotiate, commit in the best order, rescue what is
//! stranded.
use vstd::prelude::*;

use crate::board::{CellIdx, Cost};
use crate::groups::count_groups;
use crate::halo::{Claim, Committed};
use crate::legal::find_legal;
use crate::legalize::legalize_in_order;
use crate::negotiate::{indices, negotiate};
use crate::orders::{candidate_orders, copy_order};
use crate::pads::PadSet;
use crate::parallel::par_map;
use crate::rescue::{copy_committed, ripup_legalize};
use crate::scoring::{
    committed_grid_cost, grid_path_cost, legalization_candidate_is_better, routed_count, Score,
};
use crate::search::SearchBuf;
use crate::task::{Problem, Task};
use crate::trace::{CandidateEval, IterSnapshot};

verus! {

/// The path that each net takes if it is alone on the board; empty where it has none.
pub open spec fn alone_paths(t: Task) -> Seq<Seq<CellIdx>> {
    Seq::new(
        t.nets.len(),
        |i: int|
            match crate::legal::alone(t, i) {
                Some(p) => p,
                None => Seq::empty(),
            },
    )
}

/// What the nets of group `g` among the first `k` cost alone, up to the largest cost.
pub open spec fn group_key(
    t: Task,
    groups: Seq<usize>,
    alone: Seq<Seq<CellIdx>>,
    g: usize,
    k: nat,
) -> Cost
    decreases k,
{
    if k == 0 {
        0
    } else {
        let rest = group_key(t, groups, alone, g, (k - 1) as nat);
        if groups[k - 1] == g {
            crate::search::sat(
                rest + crate::scoring::path_cost(&t.grid, &t.nets[k - 1], alone[k - 1]),
            ) as u32
        } else {
            rest
        }
    }
}

/// What the nets of each group cost alone.
pub open spec fn group_keys(t: Task, groups: Seq<usize>, alone: Seq<Seq<CellIdx>>) -> Seq<Cost> {
    Seq::new(
        crate::groups::group_count(groups) as nat,
        |g: int| group_key(t, groups, alone, g as usize, t.nets.len()),
    )
}

/// What committing in an order comes to.
pub open spec fn score_of(
    t: Task,
    groups: Seq<usize>,
    paths: Seq<Seq<CellIdx>>,
    order: Seq<usize>,
) -> Score {
    let committed = crate::legalize::legalized(t, groups, paths, order);
    Score {
        routed: crate::scoring::routed_in(committed, committed.len()),
        cost: crate::scoring::total_of(&t.grid, t.nets, committed),
        order,
    }
}

/// What committing in each of the orders comes to.
pub open spec fn scores_of(
    t: Task,
    groups: Seq<usize>,
    paths: Seq<Seq<CellIdx>>,
    orders: Seq<Seq<usize>>,
) -> Seq<Score> {
    Seq::new(orders.len(), |x: int| score_of(t, groups, paths, orders[x]))
}

/// The order that wins.
pub open spec fn best_order(
    t: Task,
    groups: Seq<usize>,
    alone: Seq<Seq<CellIdx>>,
    parallel: bool,
) -> Seq<usize> {
    let paths = crate::negotiate::negotiated_paths(t, groups, parallel);
    let orders = crate::orders::candidates(group_keys(t, groups, alone));
    orders[crate::scoring::winner(scores_of(t, groups, paths, orders), orders.len())]
}

/// What is committed by the order that wins.
pub open spec fn best_commit(
    t: Task,
    groups: Seq<usize>,
    alone: Seq<Seq<CellIdx>>,
    parallel: bool,
) -> Seq<Option<Seq<CellIdx>>> {
    crate::legalize::legalized(
        t,
        groups,
        crate::negotiate::negotiated_paths(t, groups, parallel),
        best_order(t, groups, alone, parallel),
    )
}

/// What is committed in the end: by the order that wins, or, where that strands nets
/// and a rescue brings more of them home, by the rescue.
pub open spec fn variant(
    t: Task,
    groups: Seq<usize>,
    alone: Seq<Seq<CellIdx>>,
    parallel: bool,
) -> Seq<Option<Seq<CellIdx>>> {
    let best = best_commit(t, groups, alone, parallel);
    let routed = crate::scoring::routed_in(best, best.len());
    if routed < t.nets.len() {
        let rip = crate::rescue::rescued(
            t,
            groups,
            alone,
            crate::rescue::rescue_start(
                t,
                groups,
                best_order(t, groups, alone, parallel),
                best,
            ),
        );
        if crate::scoring::routed_in(rip, rip.len()) > routed {
            rip
        } else {
            best
        }
    } else {
        best
    }
}

/// What came of a variant.
pub struct VariantOutcome {
    /// The path of each net that is committed.
    pub committed: Committed,
    /// The rounds of negotiation, where they were recorded.
    pub snapshots: Vec<IterSnapshot>,
    /// The order that won.
    pub order: Vec<usize>,
    /// What each order came to.
    pub evals: Vec<CandidateEval>,
}

/// A cost in 64 bits as one in 32, up to the largest.
pub open spec fn narrowed(cost: u64) -> Cost {
    crate::search::sat(cost as int) as u32
}

/// The entry shows what an order came to.
pub open spec fn shows_score(e: CandidateEval, s: Score) -> bool {
    &&& e.order@ == s.order
    &&& e.routed == s.routed
    &&& e.total_cost == narrowed(s.cost)
}

/// Groups are numbered from zero, and there are no more of them than nets.
pub open spec fn groups_fit(t: Task, groups: Seq<usize>) -> bool {
    &&& groups.len() == t.nets.len()
    &&& crate::groups::group_count(groups) <= groups.len()
}

/// The winning order holds every group once.
pub proof fn lemma_best_order(
    t: Task,
    groups: Seq<usize>,
    alone: Seq<Seq<CellIdx>>,
    parallel: bool,
)
    requires
        groups_fit(t, groups),
        groups.len() <= usize::MAX,
    ensures
        crate::orders::arranges(
            crate::orders::counting(crate::groups::group_count(groups) as nat),
            best_order(t, groups, alone, parallel),
        ),
{
    let keys = group_keys(t, groups, alone);
    let orders = crate::orders::candidates(keys);
    let paths = crate::negotiate::negotiated_paths(t, groups, parallel);
    let scores = scores_of(t, groups, paths, orders);
    crate::groups::lemma_next_id(groups, groups.len());
    crate::scoring::law_winner_is_best(scores, orders.len(), 0);
    crate::orders::law_candidates_arrange(keys, crate::scoring::winner(scores, orders.len()));
}

/// However a board is routed, paths of different groups have no cell in common, and
/// every path leads its net.
pub proof fn law_variant_is_legal(
    t: Task,
    groups: Seq<usize>,
    alone: Seq<Seq<CellIdx>>,
    parallel: bool,
)
    requires
        t.wf(),
        groups_fit(t, groups),
        groups.len() <= usize::MAX,
    ensures
        crate::commit::leading(t, variant(t, groups, alone, parallel)),
        crate::commit::apart(variant(t, groups, alone, parallel), groups),
{
    let order = best_order(t, groups, alone, parallel);
    let paths = crate::negotiate::negotiated_paths(t, groups, parallel);
    lemma_best_order(t, groups, alone, parallel);
    crate::negotiate::lemma_paths_walk(t, groups, parallel);
    crate::legalize::law_committed_paths_are_disjoint(t, groups, paths, order);
    crate::rescue::law_rescue_keeps_paths_disjoint(
        t,
        groups,
        alone,
        order,
        best_commit(t, groups, alone, parallel),
    );
}

/// What is routed in the end keeps the clearance: of each two committed nets of different
/// groups, one holds no cell that crowds the other's path, but for its own ends, its own
/// masked pads, and cells that another net of its group holds too.
pub proof fn law_variant_keeps_clearance(
    t: Task,
    groups: Seq<usize>,
    alone: Seq<Seq<CellIdx>>,
    parallel: bool,
)
    requires
        t.wf(),
        groups_fit(t, groups),
        groups.len() <= usize::MAX,
    ensures
        crate::clearance::all_clear(t, variant(t, groups, alone, parallel), groups),
{
    let order = best_order(t, groups, alone, parallel);
    let paths = crate::negotiate::negotiated_paths(t, groups, parallel);
    lemma_best_order(t, groups, alone, parallel);
    crate::negotiate::lemma_paths_walk(t, groups, parallel);
    crate::legalize::law_committed_paths_are_disjoint(t, groups, paths, order);
    crate::clearance::law_commits_are_clear(t, groups, paths, order);
    crate::rescue::law_rescue_keeps_clearance(
        t,
        groups,
        alone,
        order,
        best_commit(t, groups, alone, parallel),
    );
}

/// No order that is tried routes more nets than are routed in the end.
pub proof fn law_no_order_routes_more(
    t: Task,
    groups: Seq<usize>,
    alone: Seq<Seq<CellIdx>>,
    parallel: bool,
    x: int,
)
    requires
        t.wf(),
        groups_fit(t, groups),
        groups.len() <= usize::MAX,
        0 <= x < crate::orders::candidates(group_keys(t, groups, alone)).len(),
    ensures
        ({
            let paths = crate::negotiate::negotiated_paths(t, groups, parallel);
            let tried = crate::legalize::legalized(
                t,
                groups,
                paths,
                crate::orders::candidates(group_keys(t, groups, alone))[x],
            );
            let end = variant(t, groups, alone, parallel);
            crate::scoring::routed_in(tried, tried.len()) <= crate::scoring::routed_in(
                end,
                end.len(),
            )
        }),
{
    let paths = crate::negotiate::negotiated_paths(t, groups, parallel);
    let orders = crate::orders::candidates(group_keys(t, groups, alone));
    let scores = scores_of(t, groups, paths, orders);
    crate::scoring::law_winner_is_best(scores, orders.len(), x);
}

/// The path that each net takes if it is alone on the board.
pub fn route_alone(p: &Problem) -> (paths: Vec<Vec<CellIdx>>)
    requires
        p.wf(),
    ensures
        crate::negotiate::paths_view(paths@) == alone_paths(p.task()),
        paths@.len() == p.nets@.len(),
        forall|i: int|
            0 <= i < paths@.len() ==> crate::halo::on_board(
                p.task().dims(),
                (#[trigger] paths@[i])@,
            ),
{
    let ghost t = p.task();
    let n: usize = p.grid.dims.len();
    let owner: Vec<Claim> = vec![Claim::Free; n];
    let halo: Vec<Claim> = vec![Claim::Free; n];
    proof {
        assert(crate::halo::claims_view(owner@, halo@) =~= crate::halo::unclaimed(n as nat));
    }
    let items = indices(p.nets.len());
    let work = |i: &usize| -> (r: Vec<CellIdx>)
        requires
            *i < p.nets@.len(),
            p.wf(),
            owner@.len() == p.task().dims().cells(),
            halo@.len() == p.task().dims().cells(),
            n == p.task().dims().cells(),
            crate::halo::claims_view(owner@, halo@) == crate::halo::unclaimed(n as nat),
        ensures
            r@ == alone_paths(p.task())[*i as int],
            crate::halo::on_board(p.task().dims(), r@),
        {
            let mut buf = SearchBuf::new(n);
            let mut pads = PadSet::new(n);
            proof {
                crate::legal::lemma_find_fits(
                    p.task(),
                    *i as int,
                    0,
                    crate::halo::unclaimed(n as nat),
                    true,
                );
            }
            match find_legal(&mut buf, &mut pads, p, *i, 0, &owner, &halo, true) {
                Some(path) => {
                    assert forall|k: int| 0 <= k < path@.len() implies p.task().dims().has(
                        #[trigger] path@[k],
                    ) by {
                        assert(crate::task::own_walk(p.task(), *i as int, path@));
                    }
                    path
                },
                None => {
                    let none: Vec<CellIdx> = Vec::new();
                    assert(none@ =~= Seq::<CellIdx>::empty());
                    none
                },
            }
        };
    let paths: Vec<Vec<CellIdx>> = par_map(&items, work);
    assert(crate::negotiate::paths_view(paths@) =~= alone_paths(t));
    paths
}

/// What the nets of each group cost alone.
fn keys_of(p: &Problem, groups: &Vec<usize>, alone: &Vec<Vec<CellIdx>>) -> (keys: Vec<Cost>)
    requires
        p.wf(),
        groups_fit(p.task(), groups@),
        alone@.len() == p.nets@.len(),
        forall|i: int|
            0 <= i < alone@.len() ==> crate::halo::on_board(
                p.task().dims(),
                (#[trigger] alone@[i])@,
            ),
    ensures
        keys@ == group_keys(p.task(), groups@, crate::negotiate::paths_view(alone@)),
{
    let ghost t = p.task();
    let ghost av = crate::negotiate::paths_view(alone@);
    let total: usize = p.nets.len();
    proof {
        crate::groups::lemma_next_id(groups@, groups@.len());
    }
    let m: usize = count_groups(groups);
    let mut keys: Vec<Cost> = vec![0; m];
    let mut k: usize = 0;
    while k < total
        invariant
            p.wf(),
            t == p.task(),
            total == p.nets@.len(),
            groups@.len() == total,
            alone@.len() == total,
            av == crate::negotiate::paths_view(alone@),
            forall|i: int|
                0 <= i < alone@.len() ==> crate::halo::on_board(
                    p.task().dims(),
                    (#[trigger] alone@[i])@,
                ),
            forall|i: int| 0 <= i < groups@.len() ==> #[trigger] groups@[i] < m,
            k <= total,
            keys@.len() == m,
            forall|g: int|
                0 <= g < m ==> #[trigger] keys@[g] == group_key(
                    t,
                    groups@,
                    av,
                    g as usize,
                    k as nat,
                ),
        decreases total - k,
    {
        let g: usize = groups[k];
        assert(groups@[k as int] < m);
        assert(crate::halo::on_board(t.dims(), alone@[k as int]@));
        let more: Cost = grid_path_cost(p.grid, &p.nets[k], &alone[k]);
        let ghost was = keys@;
        let now: Cost = keys[g].saturating_add(more);
        keys.set(g, now);
        proof {
            assert(av[k as int] == alone@[k as int]@);
            assert forall|h: int| 0 <= h < m implies #[trigger] keys@[h] == group_key(
                t,
                groups@,
                av,
                h as usize,
                (k + 1) as nat,
            ) by {
                assert(was[h] == group_key(t, groups@, av, h as usize, k as nat));
            }
        }
        k += 1;
    }
    assert(keys@ =~= group_keys(t, groups@, av));
    keys
}

/// Commits in each of the orders.
fn try_orders(
    p: &Problem,
    groups: &Vec<usize>,
    paths: &Vec<Vec<CellIdx>>,
    orders: &Vec<Vec<usize>>,
) -> (r: Vec<(usize, u64, Committed)>)
    requires
        p.wf(),
        groups@.len() == p.nets@.len(),
        crate::task::all_walk(p.task(), crate::negotiate::paths_view(paths@)),
        forall|x: int|
            0 <= x < orders@.len() ==> crate::legalize::no_repeats((#[trigger] orders@[x])@),
    ensures
        r@.len() == orders@.len(),
        forall|x: int|
            0 <= x < r@.len() ==> {
                let e = #[trigger] r@[x];
                let pv = crate::negotiate::paths_view(paths@);
                let s = score_of(p.task(), groups@, pv, orders@[x]@);
                &&& e.0 == s.routed
                &&& e.1 == s.cost
                &&& crate::halo::committed_view(e.2@) == crate::legalize::legalized(
                    p.task(),
                    groups@,
                    pv,
                    orders@[x]@,
                )
            },
{
    let work = |order: &Vec<usize>| -> (r: (usize, u64, Committed))
        requires
            p.wf(),
            groups@.len() == p.nets@.len(),
            crate::task::all_walk(p.task(), crate::negotiate::paths_view(paths@)),
            crate::legalize::no_repeats(order@),
        ensures
            r.0 == score_of(
                p.task(),
                groups@,
                crate::negotiate::paths_view(paths@),
                order@,
            ).routed,
            r.1 == score_of(
                p.task(),
                groups@,
                crate::negotiate::paths_view(paths@),
                order@,
            ).cost,
            crate::halo::committed_view(r.2@) == crate::legalize::legalized(
                p.task(),
                groups@,
                crate::negotiate::paths_view(paths@),
                order@,
            ),
        {
            let committed = legalize_in_order(p, groups, paths, order);
            proof {
                crate::legalize::law_committed_paths_are_disjoint(
                    p.task(),
                    groups@,
                    crate::negotiate::paths_view(paths@),
                    order@,
                );
                crate::rescue::lemma_committed_on_board(p.task(), committed@);
            }
            let routed: usize = routed_count(&committed);
            let cost: u64 = committed_grid_cost(p.grid, p.nets, &committed);
            (routed, cost, committed)
        };
    par_map(orders, work)
}

/// Routes a board: negotiates, commits in the best order, and rescues what is stranded.
pub fn route_variant(
    p: &Problem,
    groups: &Vec<usize>,
    alone: &Vec<Vec<CellIdx>>,
    parallel: bool,
    record: bool,
) -> (r: VariantOutcome)
    requires
        p.wf(),
        groups_fit(p.task(), groups@),
        alone@.len() == p.nets@.len(),
        forall|i: int|
            0 <= i < alone@.len() ==> crate::halo::on_board(
                p.task().dims(),
                (#[trigger] alone@[i])@,
            ),
    ensures
        ({
            let t = p.task();
            let av = crate::negotiate::paths_view(alone@);
            let pv = crate::negotiate::negotiated_paths(t, groups@, parallel);
            let orders = crate::orders::candidates(group_keys(t, groups@, av));
            let scores = scores_of(t, groups@, pv, orders);
            let states = crate::negotiate::rounds(
                t,
                groups@,
                parallel,
                crate::negotiate::nego_start(t),
                0,
            );
            &&& crate::halo::committed_view(r.committed@) == variant(t, groups@, av, parallel)
            &&& r.order@ == best_order(t, groups@, av, parallel)
            &&& record ==> r.snapshots@.len() == states.len() && forall|k: int|
                0 <= k < states.len() ==> crate::negotiate::shows(
                    #[trigger] r.snapshots@[k],
                    states[k],
                    k,
                )
            &&& record ==> r.evals@.len() == scores.len() && forall|x: int|
                0 <= x < scores.len() ==> shows_score(#[trigger] r.evals@[x], scores[x])
            &&& !record ==> r.snapshots@.len() == 0 && r.evals@.len() == 0
        }),
        crate::commit::leading(p.task(), crate::halo::committed_view(r.committed@)),
{
    let ghost t = p.task();
    let ghost av = crate::negotiate::paths_view(alone@);
    let (paths, snapshots) = negotiate(p, groups, parallel, record);
    let ghost pv = crate::negotiate::paths_view(paths@);
    let keys = keys_of(p, groups, alone);
    let orders = candidate_orders(&keys);
    let ghost ov = crate::orders::orders_view(orders@);
    let ghost scores = scores_of(t, groups@, pv, ov);
    let n: usize = p.nets.len();
    proof {
        crate::negotiate::lemma_paths_walk(t, groups@, parallel);
        crate::groups::lemma_next_id(groups@, groups@.len());
        assert forall|x: int| 0 <= x < orders@.len() implies crate::legalize::no_repeats(
            (#[trigger] orders@[x])@,
        ) by {
            crate::orders::law_candidates_arrange(keys@, x);
            assert(ov[x] == orders@[x]@);
        }
    }
    let tried = try_orders(p, groups, &paths, &orders);
    let mut evals: Vec<CandidateEval> = Vec::new();
    let mut best: usize = 0;
    let mut x: usize = 0;
    while x < orders.len()
        invariant
            x <= orders@.len(),
            orders@.len() > 0,
            tried@.len() == orders@.len(),
            ov == crate::orders::orders_view(orders@),
            scores == scores_of(t, groups@, pv, ov),
            forall|y: int|
                0 <= y < tried@.len() ==> (#[trigger] tried@[y]).0 == score_of(
                    t,
                    groups@,
                    pv,
                    orders@[y]@,
                ).routed && tried@[y].1 == score_of(t, groups@, pv, orders@[y]@).cost,
            best == crate::scoring::winner(scores, x as nat),
            best < orders@.len(),
            !record ==> evals@.len() == 0,
            record ==> evals@.len() == x && forall|y: int|
                0 <= y < x ==> shows_score(#[trigger] evals@[y], scores[y]),
        decreases orders@.len() - x,
    {
        assert(scores[x as int] == score_of(t, groups@, pv, orders@[x as int]@));
        assert(scores[best as int] == score_of(t, groups@, pv, orders@[best as int]@));
        if x > 0 {
            let better = legalization_candidate_is_better(
                tried[x].0,
                tried[x].1,
                orders[x].as_slice(),
                tried[best].0,
                tried[best].1,
                orders[best].as_slice(),
            );
            if better {
                best = x;
            }
        }
        if record {
            let narrow: Cost = if tried[x].1 < Cost::MAX as u64 {
                tried[x].1 as u32
            } else {
                Cost::MAX
            };
            evals.push(
                CandidateEval {
                    order: copy_order(&orders[x]),
                    routed: tried[x].0,
                    total_cost: narrow,
                },
            );
        }
        x += 1;
    }
    let routed: usize = tried[best].0;
    let order = copy_order(&orders[best]);
    let committed = copy_committed(&tried[best].2);
    proof {
        assert(ov[best as int] == orders@[best as int]@);
        assert(order@ == best_order(t, groups@, av, parallel));
        assert(crate::halo::committed_view(committed@) == best_commit(t, groups@, av, parallel));
        crate::legalize::law_committed_paths_are_disjoint(t, groups@, pv, order@);
    }
    if routed < n {
        let rip = ripup_legalize(p, groups, alone, &order, &committed);
        if routed_count(&rip) > routed {
            return VariantOutcome { committed: rip, snapshots, order, evals };
        }
    }
    VariantOutcome { committed, snapshots, order, evals }
}

} // verus!
