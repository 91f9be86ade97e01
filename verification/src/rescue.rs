//! Taking committed paths up again where they strand another net.
use std::collections::VecDeque;

use vstd::prelude::*;

use crate::board::{CellIdx, Cost};
use crate::cells::copy_cells;
use crate::halo::{rebuild_owner_maps, stamp_owner, Claim, Claims, Committed};
use crate::legal::find_legal;
use crate::pads::PadSet;
use crate::scoring::{routed_count, unit_cost};
use crate::search::SearchBuf;
use crate::task::{Problem, Task};

verus! {

/// How many groups may be taken up for each net of the board.
pub const RIPUP_GLOBAL_BUDGET_PER_NET: u128 = 20;

/// How much oftener than there are nets a net may be taken up.
pub const RIPUP_PER_NET_CAP_EXTRA: u128 = 4;

/// How many rounds may go by that end with as many nets as the best one.
pub const MAX_EVEN_ROUNDS: usize = 2;

/// Where the rescue of stranded nets stands.
#[verifier::ext_equal]
pub struct Rescue {
    /// The path of each net that is committed.
    pub committed: Seq<Option<Seq<CellIdx>>>,
    /// The claims of the committed paths.
    pub claims: Claims,
    /// How often each net was taken up.
    pub rips: Seq<u128>,
    /// How many groups were taken up.
    pub done: nat,
    /// The nets that wait to be committed; `None` ends a round.
    pub queue: Seq<Option<usize>>,
    /// The most nets that were committed at the end of a round.
    pub best: nat,
    /// How many rounds in a row ended with as many.
    pub even: nat,
    /// Nothing more is to be gained.
    pub stopped: bool,
}

/// How many groups may be taken up.
pub open spec fn budget(n: nat) -> int {
    RIPUP_GLOBAL_BUDGET_PER_NET * if n == 0 {
        1
    } else {
        n as int
    }
}

/// How often a net may be taken up.
pub open spec fn rip_cap(n: nat) -> int {
    n + RIPUP_PER_NET_CAP_EXTRA
}

/// The nets of group `g` among the first `k`; where `held`, only those that are
/// committed.
pub open spec fn members(
    groups: Seq<usize>,
    committed: Seq<Option<Seq<CellIdx>>>,
    held: bool,
    g: usize,
    k: nat,
) -> Seq<Option<usize>>
    decreases k,
{
    if k == 0 {
        Seq::empty()
    } else {
        let rest = members(groups, committed, held, g, (k - 1) as nat);
        if groups[k - 1] == g && (!held || committed[k - 1] is Some) {
            rest.push(Some((k - 1) as usize))
        } else {
            rest
        }
    }
}

/// All nets, by the first `k` groups of the order.
pub open spec fn seeds(
    groups: Seq<usize>,
    committed: Seq<Option<Seq<CellIdx>>>,
    order: Seq<usize>,
    k: nat,
) -> Seq<Option<usize>>
    decreases k,
{
    if k == 0 {
        Seq::empty()
    } else {
        seeds(groups, committed, order, (k - 1) as nat) + members(
            groups,
            committed,
            false,
            order[k - 1],
            groups.len(),
        )
    }
}

/// Where the rescue starts from.
pub open spec fn rescue_start(
    t: Task,
    groups: Seq<usize>,
    order: Seq<usize>,
    seed: Seq<Option<Seq<CellIdx>>>,
) -> Rescue {
    Rescue {
        committed: seed,
        claims: crate::halo::claims_of(&t.grid, t.geo, seed, groups, seed.len()),
        rips: Seq::new(t.nets.len(), |i: int| 0u128),
        done: 0,
        queue: seeds(groups, seed, order, order.len()).push(None),
        best: crate::scoring::routed_in(seed, seed.len()),
        even: 0,
        stopped: false,
    }
}

/// The path that net `i` takes alone leaves its window.
pub open spec fn roams(t: Task, alone: Seq<CellIdx>, i: int) -> bool {
    exists|k: int|
        0 <= k < alone.len() && !t.window(i).has(t.dims(), #[trigger] alone[k])
}

/// How long the committed paths of group `g` among the first `k` nets are together, up
/// to the largest cost.
pub open spec fn group_length(
    groups: Seq<usize>,
    committed: Seq<Option<Seq<CellIdx>>>,
    g: usize,
    k: nat,
) -> Cost
    decreases k,
{
    if k == 0 {
        0
    } else {
        let rest = group_length(groups, committed, g, (k - 1) as nat);
        if groups[k - 1] == g && committed[k - 1] is Some {
            crate::search::sat(rest + crate::scoring::steps_of(committed[k - 1]->0)) as u32
        } else {
            rest
        }
    }
}

/// Group `a` is cheaper to take up than group `b`: it is shorter, or as long with a
/// lower number.
pub open spec fn cheaper(
    groups: Seq<usize>,
    committed: Seq<Option<Seq<CellIdx>>>,
    a: usize,
    b: usize,
) -> bool {
    let la = group_length(groups, committed, a, groups.len());
    let lb = group_length(groups, committed, b, groups.len());
    la < lb || la == lb && a < b
}

/// The cheapest group, other than `g`, whose copper is on the first `k` cells of the
/// path.
pub open spec fn victim(
    groups: Seq<usize>,
    committed: Seq<Option<Seq<CellIdx>>>,
    claims: Claims,
    g: usize,
    path: Seq<CellIdx>,
    k: nat,
) -> Option<usize>
    decreases k,
{
    if k == 0 {
        None
    } else {
        let rest = victim(groups, committed, claims, g, path, (k - 1) as nat);
        match claims.owner[path[k - 1] as int] {
            Claim::Group(h) => if h == g {
                rest
            } else {
                match rest {
                    None => Some(h),
                    Some(b) => if cheaper(groups, committed, h, b) {
                        Some(h)
                    } else {
                        rest
                    },
                }
            },
            _ => rest,
        }
    }
}

/// Net `i` commits a path.
pub open spec fn settle(
    t: Task,
    groups: Seq<usize>,
    s: Rescue,
    i: int,
    p: Seq<CellIdx>,
) -> Rescue {
    Rescue {
        committed: s.committed.update(i, Some(p)),
        claims: crate::halo::stamped(&t.grid, t.geo, s.claims, p, groups[i]),
        ..s
    }
}

/// Group `v` is taken up; its nets wait to be committed again.
pub open spec fn taken_up(t: Task, groups: Seq<usize>, s: Rescue, v: usize) -> Rescue {
    let n = t.nets.len();
    let committed = Seq::new(
        n,
        |j: int|
            if groups[j] == v {
                None
            } else {
                s.committed[j]
            },
    );
    Rescue {
        committed,
        claims: crate::halo::claims_of(&t.grid, t.geo, committed, groups, n),
        rips: Seq::new(
            n,
            |j: int|
                if groups[j] == v && s.committed[j] is Some {
                    (s.rips[j] + 1) as u128
                } else {
                    s.rips[j]
                },
        ),
        done: s.done + 1,
        queue: s.queue + members(groups, s.committed, true, v, n),
        ..s
    }
}

/// A round ends. The rescue goes on if more nets are committed than ever before, or, a
/// few times, as many.
pub open spec fn round_ends(s: Rescue) -> Rescue {
    let now = crate::scoring::routed_in(s.committed, s.committed.len());
    if s.queue.len() == 0 {
        Rescue { stopped: true, ..s }
    } else if now > s.best {
        Rescue { best: now, even: 0, queue: s.queue.push(None), ..s }
    } else if now == s.best && s.even + 1 < MAX_EVEN_ROUNDS {
        Rescue { even: s.even + 1, queue: s.queue.push(None), ..s }
    } else {
        Rescue { stopped: true, ..s }
    }
}

/// The turn of net `i`.
///
/// A net that can be committed is. A stranded one has the cheapest group taken up whose
/// copper is where it would go alone, as long as the budgets last; if it still cannot
/// be committed, it waits for another turn.
pub open spec fn rescue_turn(
    t: Task,
    groups: Seq<usize>,
    alone: Seq<Seq<CellIdx>>,
    s: Rescue,
    i: int,
) -> Rescue {
    let g = groups[i];
    let wide = roams(t, alone[i], i);
    if s.committed[i] is Some || alone[i].len() == 0 {
        s
    } else {
        match crate::legal::legal_find(t, i, g, s.claims, wide) {
            Some(p) => settle(t, groups, s, i, p),
            None => {
                if s.done >= budget(t.nets.len()) || s.rips[i] >= rip_cap(t.nets.len()) {
                    s
                } else {
                    match victim(groups, s.committed, s.claims, g, alone[i], alone[i].len()) {
                        None => s,
                        Some(v) => {
                            let r = taken_up(t, groups, s, v);
                            match crate::legal::legal_find(t, i, g, r.claims, wide) {
                                Some(p) => settle(t, groups, r, i, p),
                                None => Rescue {
                                    rips: r.rips.update(i, (r.rips[i] + 1) as u128),
                                    queue: r.queue.push(Some(i as usize)),
                                    ..r
                                },
                            }
                        },
                    }
                }
            },
        }
    }
}

/// What is done about the head of the queue.
pub open spec fn rescue_step(
    t: Task,
    groups: Seq<usize>,
    alone: Seq<Seq<CellIdx>>,
    s: Rescue,
) -> Rescue {
    let r = Rescue { queue: s.queue.subrange(1, s.queue.len() as int), ..s };
    match s.queue[0] {
        None => round_ends(r),
        Some(i) => rescue_turn(t, groups, alone, r, i as int),
    }
}

/// The counters are within their bounds.
pub open spec fn bounded(t: Task, s: Rescue) -> bool {
    &&& s.committed.len() == t.nets.len()
    &&& s.rips.len() == t.nets.len()
    &&& s.done <= budget(t.nets.len())
    &&& s.best <= t.nets.len()
    &&& s.even < MAX_EVEN_ROUNDS
    &&& forall|i: int| 0 <= i < s.rips.len() ==> #[trigger] s.rips[i] <= s.done
    &&& forall|k: int|
        0 <= k < s.queue.len() ==> (#[trigger] s.queue[k] matches Some(i) ==> i < t.nets.len())
}

/// What is committed when the rescue has run its course.
pub open spec fn rescued(
    t: Task,
    groups: Seq<usize>,
    alone: Seq<Seq<CellIdx>>,
    s: Rescue,
) -> Seq<Option<Seq<CellIdx>>>
    decreases
            budget(t.nets.len()) - s.done,
            t.nets.len() - s.best,
            MAX_EVEN_ROUNDS - s.even,
            s.queue.len(),
        when bounded(t, s)
        via rescue_decreases
{
    if s.stopped || s.queue.len() == 0 {
        s.committed
    } else {
        rescued(t, groups, alone, rescue_step(t, groups, alone, s))
    }
}

#[via_fn]
proof fn rescue_decreases(
    t: Task,
    groups: Seq<usize>,
    alone: Seq<Seq<CellIdx>>,
    s: Rescue,
) {
    lemma_routed_bound(s.committed, s.committed.len());
}

/// No more nets are committed than there are.
pub proof fn lemma_routed_bound(committed: Seq<Option<Seq<CellIdx>>>, k: nat)
    ensures
        crate::scoring::routed_in(committed, k) <= k,
    decreases k,
{
    if k > 0 {
        lemma_routed_bound(committed, (k - 1) as nat);
    }
}

/// The members of a group are nets of the board.
proof fn lemma_members(
    groups: Seq<usize>,
    committed: Seq<Option<Seq<CellIdx>>>,
    held: bool,
    g: usize,
    k: nat,
)
    requires
        k <= groups.len(),
    ensures
        forall|x: int|
            0 <= x < members(groups, committed, held, g, k).len() ==> (#[trigger] members(
                groups,
                committed,
                held,
                g,
                k,
            )[x] matches Some(i) ==> i < groups.len()),
    decreases k,
{
    if k > 0 {
        let rest = members(groups, committed, held, g, (k - 1) as nat);
        lemma_members(groups, committed, held, g, (k - 1) as nat);
        let all = members(groups, committed, held, g, k);
        assert forall|x: int| 0 <= x < all.len() implies (#[trigger] all[x] matches Some(i) ==> i
            < groups.len()) by {
            if x < rest.len() {
                assert(all[x] == rest[x]);
            }
        }
    }
}

/// The nets that start out in the queue are nets of the board.
proof fn lemma_seeds(
    groups: Seq<usize>,
    committed: Seq<Option<Seq<CellIdx>>>,
    order: Seq<usize>,
    k: nat,
)
    requires
        k <= order.len(),
    ensures
        forall|x: int|
            0 <= x < seeds(groups, committed, order, k).len() ==> (#[trigger] seeds(
                groups,
                committed,
                order,
                k,
            )[x] matches Some(i) ==> i < groups.len()),
    decreases k,
{
    if k > 0 {
        let rest = seeds(groups, committed, order, (k - 1) as nat);
        let more = members(groups, committed, false, order[k - 1], groups.len());
        lemma_seeds(groups, committed, order, (k - 1) as nat);
        lemma_members(groups, committed, false, order[k - 1], groups.len());
        let all = seeds(groups, committed, order, k);
        assert forall|x: int| 0 <= x < all.len() implies (#[trigger] all[x] matches Some(i) ==> i
            < groups.len()) by {
            if x < rest.len() {
                assert(all[x] == rest[x]);
            } else {
                assert(all[x] == more[x - rest.len()]);
            }
        }
    }
}

/// The rescue starts within its bounds.
proof fn lemma_start_bounded(
    t: Task,
    groups: Seq<usize>,
    order: Seq<usize>,
    seed: Seq<Option<Seq<CellIdx>>>,
)
    requires
        groups.len() == t.nets.len(),
        seed.len() == t.nets.len(),
    ensures
        bounded(t, rescue_start(t, groups, order, seed)),
{
    let s = rescue_start(t, groups, order, seed);
    let q = seeds(groups, seed, order, order.len());
    lemma_routed_bound(seed, seed.len());
    lemma_seeds(groups, seed, order, order.len());
    assert forall|k: int| 0 <= k < s.queue.len() implies (#[trigger] s.queue[k] matches Some(i)
        ==> i < t.nets.len()) by {
        if k < q.len() {
            assert(s.queue[k] == q[k]);
        }
    }
}

/// Taking up a group stays within the bounds, as long as the budget lasts.
proof fn lemma_taken_up_bounded(t: Task, groups: Seq<usize>, s: Rescue, v: usize)
    requires
        bounded(t, s),
        groups.len() == t.nets.len(),
        s.done < budget(t.nets.len()),
        budget(t.nets.len()) < u128::MAX,
    ensures
        bounded(t, taken_up(t, groups, s, v)),
{
    let r = taken_up(t, groups, s, v);
    let more = members(groups, s.committed, true, v, t.nets.len());
    lemma_members(groups, s.committed, true, v, t.nets.len());
    assert forall|k: int| 0 <= k < r.queue.len() implies (#[trigger] r.queue[k] matches Some(i)
        ==> i < t.nets.len()) by {
        if k < s.queue.len() {
            assert(r.queue[k] == s.queue[k]);
        } else {
            assert(r.queue[k] == more[k - s.queue.len()]);
        }
    }
    assert forall|j: int| 0 <= j < r.rips.len() implies #[trigger] r.rips[j] <= r.done by {
        assert(s.rips[j] <= s.done);
    }
}

/// What is done about the head of the queue stays within the bounds.
pub proof fn lemma_step_bounded(
    t: Task,
    groups: Seq<usize>,
    alone: Seq<Seq<CellIdx>>,
    s: Rescue,
)
    requires
        bounded(t, s),
        groups.len() == t.nets.len(),
        s.queue.len() > 0,
        budget(t.nets.len()) < u128::MAX,
    ensures
        bounded(t, rescue_step(t, groups, alone, s)),
{
    let r = Rescue { queue: s.queue.subrange(1, s.queue.len() as int), ..s };
    assert forall|k: int| 0 <= k < r.queue.len() implies (#[trigger] r.queue[k] matches Some(i)
        ==> i < t.nets.len()) by {
        assert(r.queue[k] == s.queue[k + 1]);
    }
    assert(bounded(t, r));
    lemma_routed_bound(s.committed, s.committed.len());
    match s.queue[0] {
        None => {
            let e = round_ends(r);
            assert forall|k: int| 0 <= k < e.queue.len() implies (#[trigger] e.queue[k] matches Some(
                i,
            ) ==> i < t.nets.len()) by {
                if k < r.queue.len() {
                    assert(e.queue[k] == r.queue[k]);
                }
            }
        },
        Some(i) => {
            let g = groups[i as int];
            let v = victim(groups, s.committed, s.claims, g, alone[i as int], alone[i as int].len());
            if s.done < budget(t.nets.len()) && v is Some {
                let x = taken_up(t, groups, r, v->0);
                lemma_taken_up_bounded(t, groups, r, v->0);
                let e = rescue_turn(t, groups, alone, r, i as int);
                if e.queue == x.queue.push(Some(i)) {
                    lemma_victim(groups, s.committed, s.claims, g, alone[i as int], alone[i as int].len());
                    assert(r.rips[i as int] <= r.done);
                    assert forall|k: int| 0 <= k < e.queue.len() implies (
                    #[trigger] e.queue[k] matches Some(j) ==> j < t.nets.len()) by {
                        if k < x.queue.len() {
                            assert(e.queue[k] == x.queue[k]);
                        }
                    }
                    assert forall|j: int| 0 <= j < e.rips.len() implies #[trigger] e.rips[j]
                        <= e.done by {
                        assert(x.rips[j] <= x.done);
                    }
                }
            }
        },
    }
}

/// A group is never taken up for a net of its own, and holds copper on the path.
proof fn lemma_victim(
    groups: Seq<usize>,
    committed: Seq<Option<Seq<CellIdx>>>,
    claims: Claims,
    g: usize,
    path: Seq<CellIdx>,
    k: nat,
)
    ensures
        victim(groups, committed, claims, g, path, k) matches Some(v) ==> v != g,
    decreases k,
{
    if k > 0 {
        lemma_victim(groups, committed, claims, g, path, (k - 1) as nat);
    }
}

/// What is done about the head of the queue leaves committed paths that lead their
/// nets, with the claims that are theirs.
proof fn lemma_step_sound(
    t: Task,
    groups: Seq<usize>,
    alone: Seq<Seq<CellIdx>>,
    s: Rescue,
)
    requires
        t.wf(),
        bounded(t, s),
        groups.len() == t.nets.len(),
        s.queue.len() > 0,
        crate::commit::sound(t, s.committed, groups, s.claims),
    ensures
        ({
            let e = rescue_step(t, groups, alone, s);
            crate::commit::sound(t, e.committed, groups, e.claims)
        }),
{
    let n = t.nets.len();
    if let Some(i) = s.queue[0] {
        let i = i as int;
        let g = groups[i];
        let wide = roams(t, alone[i], i);
        assert(s.queue[0] == Some(i as usize));
        let found = crate::legal::legal_find(t, i, g, s.claims, wide);
        crate::legal::lemma_find_fits(t, i, g, s.claims, wide);
        if s.committed[i] is None && found is Some {
            crate::commit::lemma_sound_stamp(t, s.committed, groups, s.claims, i, found->0);
        }
        let v = victim(groups, s.committed, s.claims, g, alone[i], alone[i].len());
        if s.committed[i] is None && found is None && v is Some {
            let r = Rescue { queue: s.queue.subrange(1, s.queue.len() as int), ..s };
            let x = taken_up(t, groups, r, v->0);
            assert forall|a: int, b: int, c: CellIdx|
                #![trigger crate::commit::holds(x.committed, a, c), crate::commit::holds(x.committed, b, c)]
                crate::commit::holds(x.committed, a, c) && crate::commit::holds(
                    x.committed,
                    b,
                    c,
                ) implies groups[a] == groups[b] by {
                assert(crate::commit::holds(s.committed, a, c));
                assert(crate::commit::holds(s.committed, b, c));
            }
            crate::commit::lemma_sound_rebuilt(t, x.committed, groups, n);
            let part = Seq::new(
                x.committed.len(),
                |j: int|
                    if j < n {
                        x.committed[j]
                    } else {
                        None
                    },
            );
            assert(part =~= x.committed);
            let again = crate::legal::legal_find(t, i, g, x.claims, wide);
            crate::legal::lemma_find_fits(t, i, g, x.claims, wide);
            if again is Some {
                crate::commit::lemma_sound_stamp(t, x.committed, groups, x.claims, i, again->0);
            }
        }
    }
}

/// However the rescue goes, committed paths lead their nets.
proof fn lemma_rescued_sound(
    t: Task,
    groups: Seq<usize>,
    alone: Seq<Seq<CellIdx>>,
    s: Rescue,
)
    requires
        t.wf(),
        bounded(t, s),
        groups.len() == t.nets.len(),
        budget(t.nets.len()) < u128::MAX,
        crate::commit::sound(t, s.committed, groups, s.claims),
    ensures
        crate::commit::leading(t, rescued(t, groups, alone, s)),
        crate::commit::apart(rescued(t, groups, alone, s), groups),
    decreases
            budget(t.nets.len()) - s.done,
            t.nets.len() - s.best,
            MAX_EVEN_ROUNDS - s.even,
            s.queue.len(),
{
    if s.stopped || s.queue.len() == 0 {
    } else {
        lemma_step_bounded(t, groups, alone, s);
        lemma_step_sound(t, groups, alone, s);
        lemma_routed_bound(s.committed, s.committed.len());
        lemma_rescued_sound(t, groups, alone, rescue_step(t, groups, alone, s));
    }
}

/// Rescuing stranded nets keeps paths of different groups without a cell in common.
pub proof fn law_rescue_keeps_paths_disjoint(
    t: Task,
    groups: Seq<usize>,
    alone: Seq<Seq<CellIdx>>,
    order: Seq<usize>,
    seed: Seq<Option<Seq<CellIdx>>>,
)
    requires
        t.wf(),
        groups.len() == t.nets.len(),
        budget(t.nets.len()) < u128::MAX,
        crate::commit::leading(t, seed),
        crate::commit::apart(seed, groups),
    ensures
        crate::commit::leading(
            t,
            rescued(t, groups, alone, rescue_start(t, groups, order, seed)),
        ),
        crate::commit::apart(
            rescued(t, groups, alone, rescue_start(t, groups, order, seed)),
            groups,
        ),
{
    lemma_start_bounded(t, groups, order, seed);
    crate::commit::lemma_sound_rebuilt(t, seed, groups, seed.len());
    let part = Seq::new(
        seed.len(),
        |j: int|
            if j < seed.len() {
                seed[j]
            } else {
                None
            },
    );
    assert(part =~= seed);
    lemma_rescued_sound(t, groups, alone, rescue_start(t, groups, order, seed));
}

/// What is done about the head of the queue keeps committed paths clear of each other.
proof fn lemma_step_clear(
    t: Task,
    groups: Seq<usize>,
    alone: Seq<Seq<CellIdx>>,
    s: Rescue,
)
    requires
        t.wf(),
        bounded(t, s),
        groups.len() == t.nets.len(),
        s.queue.len() > 0,
        crate::commit::sound(t, s.committed, groups, s.claims),
        crate::legalize::watched(t, s.committed, groups, s.claims),
        crate::clearance::all_clear(t, s.committed, groups),
    ensures
        ({
            let e = rescue_step(t, groups, alone, s);
            &&& crate::legalize::watched(t, e.committed, groups, e.claims)
            &&& crate::clearance::all_clear(t, e.committed, groups)
        }),
{
    let n = t.nets.len();
    if let Some(i) = s.queue[0] {
        let i = i as int;
        let g = groups[i];
        let wide = roams(t, alone[i], i);
        assert(s.queue[0] == Some(i as usize));
        let found = crate::legal::legal_find(t, i, g, s.claims, wide);
        crate::legal::lemma_find_fits(t, i, g, s.claims, wide);
        if s.committed[i] is None && found is Some {
            let p = found->0;
            crate::legalize::lemma_stamp_watched(t, s.committed, groups, s.claims, i, p);
            crate::clearance::lemma_settled_clear(t, s.committed, groups, s.claims, i, p);
        }
        let v = victim(groups, s.committed, s.claims, g, alone[i], alone[i].len());
        if s.committed[i] is None && found is None && v is Some {
            let r = Rescue { queue: s.queue.subrange(1, s.queue.len() as int), ..s };
            let x = taken_up(t, groups, r, v->0);
            assert forall|a: int, b: int, c: CellIdx|
                #![trigger crate::commit::holds(x.committed, a, c), crate::commit::holds(x.committed, b, c)]
                crate::commit::holds(x.committed, a, c) && crate::commit::holds(
                    x.committed,
                    b,
                    c,
                ) implies groups[a] == groups[b] by {
                assert(crate::commit::holds(s.committed, a, c));
                assert(crate::commit::holds(s.committed, b, c));
            }
            crate::commit::lemma_sound_rebuilt(t, x.committed, groups, n);
            crate::clearance::lemma_watched_rebuilt(t, x.committed, groups, n);
            crate::clearance::lemma_taken_up_clear(t, s.committed, x.committed, groups, v->0);
            let part = Seq::new(
                x.committed.len(),
                |j: int|
                    if j < n {
                        x.committed[j]
                    } else {
                        None
                    },
            );
            assert(part =~= x.committed);
            let again = crate::legal::legal_find(t, i, g, x.claims, wide);
            crate::legal::lemma_find_fits(t, i, g, x.claims, wide);
            if again is Some {
                let p = again->0;
                crate::legalize::lemma_stamp_watched(t, x.committed, groups, x.claims, i, p);
                crate::clearance::lemma_settled_clear(t, x.committed, groups, x.claims, i, p);
            }
        }
    }
}

/// However the rescue goes, committed paths stay clear of each other.
proof fn lemma_rescued_clear(
    t: Task,
    groups: Seq<usize>,
    alone: Seq<Seq<CellIdx>>,
    s: Rescue,
)
    requires
        t.wf(),
        bounded(t, s),
        groups.len() == t.nets.len(),
        budget(t.nets.len()) < u128::MAX,
        crate::commit::sound(t, s.committed, groups, s.claims),
        crate::legalize::watched(t, s.committed, groups, s.claims),
        crate::clearance::all_clear(t, s.committed, groups),
    ensures
        crate::clearance::all_clear(t, rescued(t, groups, alone, s), groups),
    decreases
            budget(t.nets.len()) - s.done,
            t.nets.len() - s.best,
            MAX_EVEN_ROUNDS - s.even,
            s.queue.len(),
{
    if s.stopped || s.queue.len() == 0 {
    } else {
        lemma_step_bounded(t, groups, alone, s);
        lemma_step_sound(t, groups, alone, s);
        lemma_step_clear(t, groups, alone, s);
        lemma_routed_bound(s.committed, s.committed.len());
        lemma_rescued_clear(t, groups, alone, rescue_step(t, groups, alone, s));
    }
}

/// Rescuing stranded nets keeps the clearance: of each two nets of different groups that
/// end up committed, one holds no cell that crowds the other's path, but for its own
/// ends, its own masked pads, and cells that another net of its group holds too.
pub proof fn law_rescue_keeps_clearance(
    t: Task,
    groups: Seq<usize>,
    alone: Seq<Seq<CellIdx>>,
    order: Seq<usize>,
    seed: Seq<Option<Seq<CellIdx>>>,
)
    requires
        t.wf(),
        groups.len() == t.nets.len(),
        budget(t.nets.len()) < u128::MAX,
        crate::commit::leading(t, seed),
        crate::commit::apart(seed, groups),
        crate::clearance::all_clear(t, seed, groups),
    ensures
        crate::clearance::all_clear(
            t,
            rescued(t, groups, alone, rescue_start(t, groups, order, seed)),
            groups,
        ),
{
    lemma_start_bounded(t, groups, order, seed);
    crate::commit::lemma_sound_rebuilt(t, seed, groups, seed.len());
    crate::clearance::lemma_watched_rebuilt(t, seed, groups, seed.len());
    let part = Seq::new(
        seed.len(),
        |j: int|
            if j < seed.len() {
                seed[j]
            } else {
                None
            },
    );
    assert(part =~= seed);
    lemma_rescued_clear(t, groups, alone, rescue_start(t, groups, order, seed));
}

/// However the rescue goes, a net that nothing is known to lead stays without a path.
proof fn lemma_rescued_lost(
    t: Task,
    groups: Seq<usize>,
    alone: Seq<Seq<CellIdx>>,
    s: Rescue,
    i: int,
)
    requires
        bounded(t, s),
        groups.len() == t.nets.len(),
        budget(t.nets.len()) < u128::MAX,
        0 <= i < t.nets.len(),
        alone[i].len() == 0,
        s.committed[i] is None,
    ensures
        rescued(t, groups, alone, s)[i] is None,
    decreases
            budget(t.nets.len()) - s.done,
            t.nets.len() - s.best,
            MAX_EVEN_ROUNDS - s.even,
            s.queue.len(),
{
    if s.stopped || s.queue.len() == 0 {
    } else {
        lemma_step_bounded(t, groups, alone, s);
        lemma_routed_bound(s.committed, s.committed.len());
        lemma_rescued_lost(t, groups, alone, rescue_step(t, groups, alone, s), i);
    }
}

/// A net that was not committed, and that has no path of its own, stays without one.
pub proof fn law_lost_nets_stay_lost(
    t: Task,
    groups: Seq<usize>,
    alone: Seq<Seq<CellIdx>>,
    order: Seq<usize>,
    seed: Seq<Option<Seq<CellIdx>>>,
    i: int,
)
    requires
        groups.len() == t.nets.len(),
        budget(t.nets.len()) < u128::MAX,
        seed.len() == t.nets.len(),
        0 <= i < t.nets.len(),
        alone[i].len() == 0,
        seed[i] is None,
    ensures
        rescued(t, groups, alone, rescue_start(t, groups, order, seed))[i] is None,
{
    lemma_start_bounded(t, groups, order, seed);
    lemma_rescued_lost(t, groups, alone, rescue_start(t, groups, order, seed), i);
}

/// Where the rescue of stranded nets stands.
struct RescueState {
    committed: Committed,
    owner: Vec<Claim>,
    halo: Vec<Claim>,
    rips: Vec<u128>,
    done: u128,
    queue: VecDeque<Option<usize>>,
    best: usize,
    even: usize,
    stopped: bool,
}

impl RescueState {
    /// Where the rescue stands.
    closed spec fn state(&self) -> Rescue {
        Rescue {
            committed: crate::halo::committed_view(self.committed@),
            claims: crate::halo::claims_view(self.owner@, self.halo@),
            rips: self.rips@,
            done: self.done as nat,
            queue: self.queue@,
            best: self.best as nat,
            even: self.even as nat,
            stopped: self.stopped,
        }
    }

    /// The counters are within their bounds, and what is committed is on the board.
    closed spec fn wf(&self, t: Task) -> bool {
        &&& bounded(t, self.state())
        &&& self.owner@.len() == t.dims().cells()
        &&& self.halo@.len() == t.dims().cells()
        &&& crate::commit::leading(t, crate::halo::committed_view(self.committed@))
    }

    /// Where the rescue starts from.
    fn start(p: &Problem, groups: &Vec<usize>, order: &Vec<usize>, seed: &Committed) -> (s:
        RescueState)
        requires
            p.wf(),
            groups@.len() == p.nets@.len(),
            crate::commit::leading(p.task(), crate::halo::committed_view(seed@)),
        ensures
            s.wf(p.task()),
            s.state() == rescue_start(
                p.task(),
                groups@,
                order@,
                crate::halo::committed_view(seed@),
            ),
    {
        let ghost t = p.task();
        let ghost sv = crate::halo::committed_view(seed@);
        let n: usize = p.grid.dims.len();
        let committed = copy_committed(seed);
        let mut owner: Vec<Claim> = vec![Claim::Free; n];
        let mut halo: Vec<Claim> = vec![Claim::Free; n];
        proof {
            assert(crate::halo::committed_view(committed@) == sv);
            lemma_committed_on_board(t, committed@);
        }
        rebuild_owner_maps(&mut owner, &mut halo, p.grid, p.geo, &committed, groups);
        let mut queue: VecDeque<Option<usize>> = VecDeque::new();
        let mut k: usize = 0;
        assert(queue@ =~= seeds(groups@, sv, order@, 0));
        while k < order.len()
            invariant
                k <= order@.len(),
                queue@ == seeds(groups@, sv, order@, k as nat),
            decreases order@.len() - k,
        {
            let ghost before = queue@;
            let g: usize = order[k];
            let mut i: usize = 0;
            assert(queue@ =~= before + members(groups@, sv, false, g, 0));
            while i < groups.len()
                invariant
                    i <= groups@.len(),
                    queue@ == before + members(groups@, sv, false, g, i as nat),
                decreases groups@.len() - i,
            {
                if groups[i] == g {
                    queue.push_back(Some(i));
                    assert(queue@ =~= before + members(groups@, sv, false, g, (i + 1) as nat));
                }
                i += 1;
            }
            k += 1;
        }
        queue.push_back(None);
        let best: usize = routed_count(&committed);
        let rips: Vec<u128> = vec![0; p.nets.len()];
        let s = RescueState {
            committed,
            owner,
            halo,
            rips,
            done: 0,
            queue,
            best,
            even: 0,
            stopped: false,
        };
        proof {
            crate::halo::lemma_claims_len(&t.grid, t.geo, sv, groups@, sv.len());
            assert(s.rips@ =~= Seq::new(t.nets.len(), |i: int| 0u128));
            assert(s.state() =~= rescue_start(t, groups@, order@, sv));
            lemma_start_bounded(t, groups@, order@, sv);
            assert(s.state().claims.owner == s.owner@);
            assert(s.state().claims.halo == s.halo@);
        }
        s
    }

    /// A round ends.
    fn end_round(&mut self, p: &Problem)
        requires
            old(self).wf(p.task()),
        ensures
            final(self).state() == round_ends(old(self).state()),
            final(self).committed == old(self).committed,
            final(self).owner == old(self).owner,
            final(self).halo == old(self).halo,
    {
        let ghost was = self.state();
        let now: usize = routed_count(&self.committed);
        if self.queue.len() == 0 {
            self.stopped = true;
        } else if now > self.best {
            self.best = now;
            self.even = 0;
            self.queue.push_back(None);
        } else if now == self.best && self.even + 1 < MAX_EVEN_ROUNDS {
            self.even += 1;
            self.queue.push_back(None);
        } else {
            self.stopped = true;
        }
        assert(self.state() =~= round_ends(was));
    }

    /// Net `i` commits a path.
    fn settle(&mut self, p: &Problem, groups: &Vec<usize>, i: usize, path: Vec<CellIdx>)
        requires
            p.wf(),
            groups@.len() == p.nets@.len(),
            i < p.nets@.len(),
            old(self).committed@.len() == p.nets@.len(),
            old(self).owner@.len() == p.task().dims().cells(),
            old(self).halo@.len() == p.task().dims().cells(),
            crate::commit::leading(
                p.task(),
                crate::halo::committed_view(old(self).committed@),
            ),
            crate::task::own_walk(p.task(), i as int, path@),
        ensures
            final(self).state() == settle(
                p.task(),
                groups@,
                old(self).state(),
                i as int,
                path@,
            ),
            final(self).owner@.len() == p.task().dims().cells(),
            final(self).halo@.len() == p.task().dims().cells(),
            crate::commit::leading(
                p.task(),
                crate::halo::committed_view(final(self).committed@),
            ),
    {
        let ghost t = p.task();
        let ghost was = self.state();
        let ghost now = settle(t, groups@, was, i as int, path@);
        proof {
            assert forall|m: int| 0 <= m < path@.len() implies t.grid.dims.has(
                #[trigger] path@[m],
            ) by {
                assert(t.dims().has(path@[m]));
            }
        }
        stamp_owner(&mut self.owner, &mut self.halo, p.grid, p.geo, &path, groups[i]);
        let ghost cells = path@;
        self.committed.set(i, Some(path));
        proof {
            assert(self.state().claims == now.claims);
            assert(crate::halo::committed_view(self.committed@) =~= was.committed.update(
                i as int,
                Some(cells),
            ));
            assert(self.state() =~= now);
            assert(self.owner@ == now.claims.owner);
            assert(self.halo@ == now.claims.halo);
        }
    }

    /// How long the committed paths of a group are together, up to the largest cost.
    fn length_of(&self, groups: &Vec<usize>, g: usize) -> (c: Cost)
        requires
            groups@.len() == self.committed@.len(),
        ensures
            c == group_length(
                groups@,
                crate::halo::committed_view(self.committed@),
                g,
                groups@.len(),
            ),
    {
        let ghost cv = crate::halo::committed_view(self.committed@);
        let mut acc: Cost = 0;
        let mut k: usize = 0;
        while k < groups.len()
            invariant
                groups@.len() == self.committed@.len(),
                cv == crate::halo::committed_view(self.committed@),
                k <= groups@.len(),
                acc == group_length(groups@, cv, g, k as nat),
            decreases groups@.len() - k,
        {
            match &self.committed[k] {
                Some(path) => {
                    assert(self.committed@[k as int] == Some(*path));
                    assert(cv[k as int] == Some(path@));
                    if groups[k] == g {
                        acc = acc.saturating_add(unit_cost(path));
                    }
                },
                None => {
                    assert(cv[k as int] is None);
                },
            }
            k += 1;
        }
        acc
    }

    /// The cheapest group whose copper is on the path, other than `g`.
    fn pick_victim(&self, groups: &Vec<usize>, g: usize, path: &Vec<CellIdx>) -> (v: Option<usize>)
        requires
            groups@.len() == self.committed@.len(),
            forall|k: int| 0 <= k < path@.len() ==> #[trigger] path@[k] < self.owner@.len(),
        ensures
            v == victim(
                groups@,
                crate::halo::committed_view(self.committed@),
                crate::halo::claims_view(self.owner@, self.halo@),
                g,
                path@,
                path@.len(),
            ),
    {
        let ghost cv = crate::halo::committed_view(self.committed@);
        let ghost claims = crate::halo::claims_view(self.owner@, self.halo@);
        let mut best: Option<usize> = None;
        let mut best_len: Cost = 0;
        let mut k: usize = 0;
        while k < path.len()
            invariant
                groups@.len() == self.committed@.len(),
                cv == crate::halo::committed_view(self.committed@),
                claims == crate::halo::claims_view(self.owner@, self.halo@),
                forall|k: int| 0 <= k < path@.len() ==> #[trigger] path@[k] < self.owner@.len(),
                k <= path@.len(),
                best == victim(groups@, cv, claims, g, path@, k as nat),
                best matches Some(b) ==> best_len == group_length(groups@, cv, b, groups@.len()),
            decreases path@.len() - k,
        {
            let o = self.owner[path[k] as usize];
            if let Claim::Group(h) = o {
                if h != g {
                    let len: Cost = self.length_of(groups, h);
                    let better = match best {
                        None => true,
                        Some(b) => len < best_len || len == best_len && h < b,
                    };
                    if better {
                        best = Some(h);
                        best_len = len;
                    }
                }
            }
            k += 1;
        }
        best
    }

    /// Group `v` is taken up.
    fn take_up(&mut self, p: &Problem, groups: &Vec<usize>, v: usize)
        requires
            p.wf(),
            groups@.len() == p.nets@.len(),
            old(self).wf(p.task()),
            old(self).done < budget(p.nets@.len()),
            budget(p.nets@.len()) < u128::MAX,
        ensures
            final(self).wf(p.task()),
            final(self).state() == taken_up(p.task(), groups@, old(self).state(), v),
    {
        let ghost t = p.task();
        let ghost was = self.state();
        let ghost now = taken_up(t, groups@, was, v);
        let n: usize = groups.len();
        let mut j: usize = 0;
        assert(self.queue@ =~= was.queue + members(groups@, was.committed, true, v, 0));
        while j < n
            invariant
                t == p.task(),
                n == groups@.len(),
                n == t.nets.len(),
                j <= n,
                bounded(t, was),
                was.done < u128::MAX,
                self.done == was.done,
                self.best == was.best,
                self.even == was.even,
                self.stopped == was.stopped,
                self.owner@.len() == t.dims().cells(),
                self.halo@.len() == t.dims().cells(),
                self.committed@.len() == n,
                self.rips@.len() == n,
                crate::commit::leading(t, was.committed),
                now == taken_up(t, groups@, was, v),
                self.queue@ == was.queue + members(groups@, was.committed, true, v, j as nat),
                forall|x: int|
                    0 <= x < n ==> crate::halo::committed_view(self.committed@)[x] == if x < j {
                        now.committed[x]
                    } else {
                        was.committed[x]
                    },
                forall|x: int|
                    0 <= x < n ==> #[trigger] self.rips@[x] == if x < j {
                        now.rips[x]
                    } else {
                        was.rips[x]
                    },
            decreases n - j,
        {
            let ghost before = crate::halo::committed_view(self.committed@);
            proof {
                assert(before[j as int] == was.committed[j as int]);
                assert(was.rips[j as int] <= was.done);
                assert(self.rips@[j as int] == was.rips[j as int]);
            }
            if groups[j] == v {
                if self.committed[j].is_some() {
                    assert(before[j as int] is Some);
                    let more: u128 = self.rips[j] + 1;
                    self.rips.set(j, more);
                    self.queue.push_back(Some(j));
                    assert(self.queue@ =~= was.queue + members(
                        groups@,
                        was.committed,
                        true,
                        v,
                        (j + 1) as nat,
                    ));
                } else {
                    assert(before[j as int] is None);
                }
                self.committed.set(j, None);
                assert(crate::halo::committed_view(self.committed@) =~= before.update(
                    j as int,
                    None,
                ));
            }
            j += 1;
        }
        proof {
            assert(crate::halo::committed_view(self.committed@) =~= now.committed);
            assert(self.rips@ =~= now.rips);
            assert(crate::commit::leading(t, now.committed));
            lemma_committed_on_board(t, self.committed@);
            crate::halo::lemma_claims_len(&t.grid, t.geo, now.committed, groups@, n as nat);
        }
        rebuild_owner_maps(
            &mut self.owner,
            &mut self.halo,
            p.grid,
            p.geo,
            &self.committed,
            groups,
        );
        self.done = self.done + 1;
        proof {
            assert(self.state().claims == now.claims);
            assert(self.owner@ == now.claims.owner);
            assert(self.halo@ == now.claims.halo);
            assert(self.state() =~= now);
            lemma_taken_up_bounded(t, groups@, was, v);
        }
    }

    /// The turn of net `i`.
    fn turn(
        &mut self,
        p: &Problem,
        groups: &Vec<usize>,
        alone: &Vec<Vec<CellIdx>>,
        i: usize,
        buf: &mut SearchBuf,
        pads: &mut PadSet,
    )
        requires
            p.wf(),
            groups@.len() == p.nets@.len(),
            alone@.len() == p.nets@.len(),
            forall|k: int|
                0 <= k < alone@.len() ==> crate::halo::on_board(
                    p.task().dims(),
                    (#[trigger] alone@[k])@,
                ),
            i < p.nets@.len(),
            old(self).wf(p.task()),
            budget(p.nets@.len()) < u128::MAX,
            old(buf).wf(p.task().dims().cells()),
            old(pads).wf(),
            old(pads).cells() == p.task().dims().cells(),
        ensures
            final(buf).wf(p.task().dims().cells()),
            final(pads).wf(),
            final(pads).cells() == p.task().dims().cells(),
            final(self).owner@.len() == p.task().dims().cells(),
            final(self).halo@.len() == p.task().dims().cells(),
            crate::commit::leading(
                p.task(),
                crate::halo::committed_view(final(self).committed@),
            ),
            final(self).state() == rescue_turn(
                p.task(),
                groups@,
                crate::negotiate::paths_view(alone@),
                old(self).state(),
                i as int,
            ),
    {
        let ghost t = p.task();
        let ghost av = crate::negotiate::paths_view(alone@);
        let ghost was = self.state();
        let n: usize = p.nets.len();
        proof {
            assert(was.committed[i as int] is Some == self.committed@[i as int] is Some);
            assert(av[i as int] == alone@[i as int]@);
            assert(was.claims.owner == self.owner@);
            assert(was.claims.halo == self.halo@);
        }
        if self.committed[i].is_some() || alone[i].len() == 0 {
            return;
        }
        let g: usize = groups[i];
        let wide = leaves_window(p, i, &alone[i]);
        match find_legal(buf, pads, p, i, g, &self.owner, &self.halo, wide) {
            Some(path) => {
                proof {
                    crate::legal::lemma_find_fits(t, i as int, g, was.claims, wide);
                }
                self.settle(p, groups, i, path);
            },
            None => {
                let most: u128 = RIPUP_GLOBAL_BUDGET_PER_NET * (if n == 0 {
                    1
                } else {
                    n as u128
                });
                if self.done >= most || self.rips[i] >= (n as u128) + RIPUP_PER_NET_CAP_EXTRA {
                    return;
                }
                proof {
                    assert forall|k: int| 0 <= k < alone@[i as int]@.len() implies (
                    #[trigger] alone@[i as int]@[k]) < self.owner@.len() by {
                        assert(t.dims().has(alone@[i as int]@[k]));
                    }
                }
                let v: Option<usize> = self.pick_victim(groups, g, &alone[i]);
                match v {
                    None => {},
                    Some(h) => {
                        proof {
                            lemma_victim(
                                groups@,
                                was.committed,
                                was.claims,
                                g,
                                alone@[i as int]@,
                                alone@[i as int]@.len(),
                            );
                            assert(was.rips[i as int] <= was.done);
                        }
                        self.take_up(p, groups, h);
                        let ghost r = self.state();
                        assert(r.claims.owner == self.owner@);
                        assert(r.claims.halo == self.halo@);
                        match find_legal(buf, pads, p, i, g, &self.owner, &self.halo, wide) {
                            Some(path) => {
                                proof {
                                    crate::legal::lemma_find_fits(t, i as int, g, r.claims, wide);
                                }
                                self.settle(p, groups, i, path);
                            },
                            None => {
                                let more: u128 = self.rips[i] + 1;
                                self.rips.set(i, more);
                                self.queue.push_back(Some(i));
                                assert(self.state() =~= (Rescue {
                                    rips: r.rips.update(i as int, (r.rips[i as int] + 1) as u128),
                                    queue: r.queue.push(Some(i)),
                                    ..r
                                }));
                            },
                        }
                    },
                }
            },
        }
    }
}

/// What is committed for nets that it leads is on the board.
pub proof fn lemma_committed_on_board(t: Task, committed: Seq<Option<Vec<CellIdx>>>)
    requires
        crate::commit::leading(t, crate::halo::committed_view(committed)),
    ensures
        forall|i: int|
            0 <= i < committed.len() ==> (#[trigger] committed[i] matches Some(p)
                ==> crate::halo::on_board(t.grid.dims, p@)),
{
    let cv = crate::halo::committed_view(committed);
    assert forall|i: int| 0 <= i < committed.len() implies (#[trigger] committed[i] matches Some(p)
        ==> crate::halo::on_board(t.grid.dims, p@)) by {
        if let Some(p) = committed[i] {
            assert(cv[i] == Some(p@));
            assert forall|k: int| 0 <= k < p@.len() implies t.grid.dims.has(#[trigger] p@[k]) by {
                assert(t.dims().has(p@[k]));
            }
        }
    }
}

/// Copies committed paths.
pub fn copy_committed(c: &Committed) -> (r: Committed)
    ensures
        crate::halo::committed_view(r@) == crate::halo::committed_view(c@),
{
    let ghost cv = crate::halo::committed_view(c@);
    let mut r: Committed = Vec::new();
    let mut i: usize = 0;
    while i < c.len()
        invariant
            i <= c@.len(),
            r@.len() == i,
            cv == crate::halo::committed_view(c@),
            forall|j: int|
                0 <= j < i ==> crate::negotiate::opt_view(#[trigger] r@[j]) == cv[j],
        decreases c@.len() - i,
    {
        match &c[i] {
            Some(p) => {
                assert(c@[i as int] == Some(*p));
                r.push(Some(copy_cells(p)));
            },
            None => {
                r.push(None);
            },
        }
        i += 1;
    }
    proof {
        let rv = crate::halo::committed_view(r@);
        assert forall|j: int| 0 <= j < rv.len() implies rv[j] == cv[j] by {
            assert(crate::negotiate::opt_view(r@[j]) == cv[j]);
        }
        assert(rv =~= cv);
    }
    r
}

/// Whether the path that net `i` takes alone leaves its window.
fn leaves_window(p: &Problem, i: usize, alone: &Vec<CellIdx>) -> (b: bool)
    requires
        p.wf(),
        i < p.nets@.len(),
        crate::halo::on_board(p.task().dims(), alone@),
    ensures
        b == roams(p.task(), alone@, i as int),
{
    let ghost t = p.task();
    let mut k: usize = 0;
    while k < alone.len()
        invariant
            p.wf(),
            t == p.task(),
            i < p.nets@.len(),
            crate::halo::on_board(t.dims(), alone@),
            k <= alone@.len(),
            forall|j: int| 0 <= j < k ==> t.window(i as int).has(t.dims(), #[trigger] alone@[j]),
        decreases alone@.len() - k,
    {
        assert(t.dims().has(alone@[k as int]));
        if !p.windows[i].contains(p.grid.dims, alone[k]) {
            assert(!t.window(i as int).has(t.dims(), alone@[k as int]));
            return true;
        }
        k += 1;
    }
    false
}

/// Commits stranded nets by taking up committed groups, starting from what is
/// committed already.
pub fn ripup_legalize(
    p: &Problem,
    groups: &Vec<usize>,
    alone: &Vec<Vec<CellIdx>>,
    order: &Vec<usize>,
    seed: &Committed,
) -> (committed: Committed)
    requires
        p.wf(),
        groups@.len() == p.nets@.len(),
        alone@.len() == p.nets@.len(),
        forall|k: int|
            0 <= k < alone@.len() ==> crate::halo::on_board(
                p.task().dims(),
                (#[trigger] alone@[k])@,
            ),
        crate::commit::leading(p.task(), crate::halo::committed_view(seed@)),
    ensures
        crate::halo::committed_view(committed@) == rescued(
            p.task(),
            groups@,
            crate::negotiate::paths_view(alone@),
            rescue_start(p.task(), groups@, order@, crate::halo::committed_view(seed@)),
        ),
        crate::commit::leading(p.task(), crate::halo::committed_view(committed@)),
{
    let ghost t = p.task();
    let ghost av = crate::negotiate::paths_view(alone@);
    let n: usize = p.grid.dims.len();
    let mut buf = SearchBuf::new(n);
    let mut pads = PadSet::new(n);
    let mut s = RescueState::start(p, groups, order, seed);
    let ghost end = rescued(t, groups@, av, s.state());
    let count: usize = p.nets.len();
    assert(count == p.nets@.len() && budget(p.nets@.len()) < u128::MAX);
    while !s.stopped && s.queue.len() > 0
        invariant
            p.wf(),
            t == p.task(),
            groups@.len() == p.nets@.len(),
            alone@.len() == p.nets@.len(),
            av == crate::negotiate::paths_view(alone@),
            forall|k: int|
                0 <= k < alone@.len() ==> crate::halo::on_board(
                    t.dims(),
                    (#[trigger] alone@[k])@,
                ),
            s.wf(t),
            budget(p.nets@.len()) < u128::MAX,
            buf.wf(t.dims().cells()),
            pads.wf(),
            pads.cells() == t.dims().cells(),
            end == rescued(t, groups@, av, s.state()),
        decreases
                budget(t.nets.len()) - s.done,
                t.nets.len() - s.best,
                MAX_EVEN_ROUNDS - s.even,
                s.queue@.len(),
    {
        let ghost was = s.state();
        proof {
            lemma_step_bounded(t, groups@, av, was);
            lemma_routed_bound(was.committed, was.committed.len());
        }
        let head = s.queue.pop_front();
        let ghost r = Rescue { queue: was.queue.subrange(1, was.queue.len() as int), ..was };
        proof {
            assert(s.state() =~= r);
            assert forall|k: int| 0 <= k < r.queue.len() implies (#[trigger] r.queue[k] matches Some(
                i,
            ) ==> i < t.nets.len()) by {
                assert(r.queue[k] == was.queue[k + 1]);
            }
        }
        match head {
            Some(Some(i)) => {
                assert(was.queue[0] == Some(i));
                s.turn(p, groups, alone, i, &mut buf, &mut pads);
            },
            _ => {
                s.end_round(p);
            },
        }
        assert(s.state() == rescue_step(t, groups@, av, was));
    }
    s.committed
}

} // verus!
