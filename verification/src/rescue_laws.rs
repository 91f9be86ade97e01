//! What a rescue is for: how stranded nets are brought home, and what becomes of those that
//! make room for them.
use vstd::prelude::*;

use crate::board::CellIdx;
use crate::board_laws::Paths;
use crate::legal_laws::{come_from, is_free_way};
use crate::rescue::Rescue;
use crate::score_laws::is_in_the_way;
use crate::task::Task;

verus! {

/// Net `j` waits for a turn.
pub open spec fn waits(queue: Seq<Option<usize>>, j: int) -> bool {
    exists|k: int| 0 <= k < queue.len() && #[trigger] queue[k] == Some(j as usize)
}

/// The lone route of the net leaves the window that it is searched in first.
pub open spec fn leaves_window(t: Task, alone: Seq<CellIdx>, i: int) -> bool {
    exists|k: int|
        0 <= k < alone.len() && !crate::nego_laws::is_inside(
            t,
            t.window(i),
            #[trigger] alone[k],
        )
}

proof fn lemma_members(groups: Seq<usize>, committed: Paths, held: bool, g: usize, n: nat, j: int)
    requires
        n <= groups.len() <= usize::MAX,
        0 <= j < groups.len(),
    ensures
        crate::rescue::members(groups, committed, held, g, n).contains(Some(j as usize)) <==> j < n
            && groups[j] == g && (!held || committed[j] is Some),
    decreases n,
{
    if n > 0 {
        lemma_members(groups, committed, held, g, (n - 1) as nat, j);
        let rest = crate::rescue::members(groups, committed, held, g, (n - 1) as nat);
        let all = crate::rescue::members(groups, committed, held, g, n);
        let x = Some(j as usize);
        if rest.contains(x) {
            let k = choose|k: int| 0 <= k < rest.len() && rest[k] == x;
            assert(all[k] == x);
        }
        if groups[n - 1] == g && (!held || committed[n - 1] is Some) {
            assert(all[rest.len() as int] == Some((n - 1) as usize));
            if all.contains(x) && !rest.contains(x) {
                let k = choose|k: int| 0 <= k < all.len() && all[k] == x;
                if k < rest.len() {
                    assert(rest[k] == x);
                }
            }
        }
    }
}

/// Every net has a turn in a rescue: it starts with the nets of all groups in the order that
/// won, and what is committed.
pub proof fn law_rescue_starts_with_all(
    t: Task,
    groups: Seq<usize>,
    order: Seq<usize>,
    seed: Paths,
    n: nat,
    j: int,
)
    requires
        groups.len() <= usize::MAX,
        0 <= j < groups.len(),
        n <= order.len(),
        exists|a: int| 0 <= a < n && #[trigger] order[a] == groups[j],
    ensures
        waits(crate::rescue::seeds(groups, seed, order, n), j),
        crate::rescue::rescue_start(t, groups, order, seed).committed == seed,
        n == order.len() ==> waits(
            crate::rescue::rescue_start(t, groups, order, seed).queue,
            j,
        ),
    decreases n,
{
    let all = crate::rescue::seeds(groups, seed, order, n);
    let before = crate::rescue::seeds(groups, seed, order, (n - 1) as nat);
    let last = crate::rescue::members(groups, seed, false, order[n - 1], groups.len());
    let x = Some(j as usize);
    if order[n - 1] == groups[j] {
        lemma_members(groups, seed, false, order[n - 1], groups.len(), j);
        let k = choose|k: int| 0 <= k < last.len() && last[k] == x;
        assert(all[before.len() + k] == x);
    } else {
        let a = choose|a: int| 0 <= a < n && #[trigger] order[a] == groups[j];
        assert(0 <= a < n - 1 && order[a] == groups[j]);
        law_rescue_starts_with_all(t, groups, order, seed, (n - 1) as nat, j);
        let k = choose|k: int| 0 <= k < before.len() && #[trigger] before[k] == x;
        assert(all[k] == x);
    }
    if n == order.len() {
        let k = choose|k: int| 0 <= k < all.len() && #[trigger] all[k] == x;
        assert(all.push(None)[k] == x);
    }
}

/// A stranded net that the others leave a way is committed at its turn, where its lone route
/// leaves its window, and no other net is touched.
pub proof fn law_rescue_takes_free_ways(
    t: Task,
    groups: Seq<usize>,
    alone: Seq<Seq<CellIdx>>,
    s: Rescue,
    i: int,
    q: Seq<CellIdx>,
)
    requires
        t.wf(),
        0 <= i < t.nets.len(),
        s.committed.len() == t.nets.len(),
        s.committed[i] is None,
        alone[i].len() > 0,
        leaves_window(t, alone[i], i),
        come_from(t, s.claims, s.committed),
        is_free_way(t, i, s.committed, q),
    ensures
        ({
            let r = crate::rescue::rescue_turn(t, groups, alone, s, i);
            &&& r.committed[i] is Some
            &&& forall|j: int|
                0 <= j < t.nets.len() && j != i ==> #[trigger] r.committed[j] == s.committed[j]
            &&& r.queue == s.queue
        }),
{
    crate::legal_laws::lemma_free_way_is_found(t, i, groups[i], s.claims, s.committed, q);
    let k = choose|k: int|
        0 <= k < alone[i].len() && !crate::nego_laws::is_inside(
            t,
            t.window(i),
            #[trigger] alone[i][k],
        );
    assert(!t.window(i).has(t.dims(), alone[i][k]));
    assert(crate::rescue::roams(t, alone[i], i));
}

/// What a turn may do to the others: a net that loses its path is of the cheapest group whose
/// copper is where the stranded net would go alone; the whole group makes room, and each of
/// its nets waits for a turn of its own. The stranded net is committed, or waits as well.
pub proof fn law_rescue_takes_up_one_group(
    t: Task,
    groups: Seq<usize>,
    alone: Seq<Seq<CellIdx>>,
    s: Rescue,
    i: int,
    j: int,
)
    requires
        groups.len() == t.nets.len(),
        groups.len() <= usize::MAX,
        s.committed.len() == t.nets.len(),
        s.rips.len() == t.nets.len(),
        0 <= i < t.nets.len(),
        0 <= j < t.nets.len(),
    ensures
        ({
            let r = crate::rescue::rescue_turn(t, groups, alone, s, i);
            let lost = s.committed[j] is Some && r.committed[j] is None;
            &&& s.committed[i] is Some || alone[i].len() == 0 ==> r == s
            &&& s.committed[i] is Some ==> r.committed[i] == s.committed[i]
            &&& j != i && !lost ==> r.committed[j] == s.committed[j]
            &&& lost ==> {
                &&& is_in_the_way(s.claims, alone[i], groups[i], alone[i].len() as int, groups[j])
                &&& forall|h: usize| #[trigger]
                    is_in_the_way(
                        s.claims,
                        alone[i],
                        groups[i],
                        alone[i].len() as int,
                        h,
                    ) ==> !crate::rescue::cheaper(groups, s.committed, h, groups[j])
                &&& waits(r.queue, j)
                &&& r.committed[i] is Some || waits(r.queue, i)
                &&& r.done == s.done + 1
            }
        }),
{
    let g = groups[i];
    let path = alone[i];
    let r = crate::rescue::rescue_turn(t, groups, alone, s, i);
    let lost = s.committed[j] is Some && r.committed[j] is None;
    crate::score_laws::law_cheapest_group_gives_way(
        groups,
        s.committed,
        s.claims,
        g,
        path,
        path.len(),
    );
    if lost {
        let v = crate::rescue::victim(groups, s.committed, s.claims, g, path, path.len())->0;
        let up = crate::rescue::taken_up(t, groups, s, v);
        let back = crate::rescue::members(groups, s.committed, true, v, t.nets.len());
        assert(groups[j] == v);
        lemma_members(groups, s.committed, true, v, t.nets.len(), j);
        let x = Some(j as usize);
        let k = choose|k: int| 0 <= k < back.len() && back[k] == x;
        assert(up.queue[s.queue.len() + k] == x);
        assert(r.queue[s.queue.len() + k] == x);
        if r.committed[i] is None {
            assert(r.queue[up.queue.len() as int] == Some(i as usize));
        }
    }
}

/// A stranded net that finds no way has a group taken up, as long as no more than twenty groups
/// for each net have been, and the net itself has waited no more often than there are nets
/// and four times more: every net of a group that is in its way makes room, and the net is
/// searched anew.
pub proof fn law_stranded_nets_get_room(
    t: Task,
    groups: Seq<usize>,
    alone: Seq<Seq<CellIdx>>,
    s: Rescue,
    i: int,
    h: usize,
)
    requires
        groups.len() == t.nets.len(),
        groups.len() <= usize::MAX,
        s.committed.len() == t.nets.len(),
        s.rips.len() == t.nets.len(),
        0 <= i < t.nets.len(),
        s.committed[i] is None,
        crate::legal::legal_find(t, i, groups[i], s.claims, leaves_window(t, alone[i], i)) is None,
        s.done < 20 * t.nets.len(),
        s.rips[i] < t.nets.len() + 4,
        is_in_the_way(s.claims, alone[i], groups[i], alone[i].len() as int, h),
    ensures
        ({
            let r = crate::rescue::rescue_turn(t, groups, alone, s, i);
            &&& r.done == s.done + 1
            &&& exists|v: usize| #[trigger]
                is_in_the_way(s.claims, alone[i], groups[i], alone[i].len() as int, v) && forall|
                    j: int,
                |
                    0 <= j < t.nets.len() && groups[j] == v ==> (#[trigger] r.committed[j]) is None
            &&& r.committed[i] is Some || waits(r.queue, i) && r.rips[i] > s.rips[i]
        }),
{
    let g = groups[i];
    let path = alone[i];
    let r = crate::rescue::rescue_turn(t, groups, alone, s, i);
    crate::score_laws::law_cheapest_group_gives_way(
        groups,
        s.committed,
        s.claims,
        g,
        path,
        path.len(),
    );
    if crate::rescue::roams(t, path, i) {
        let k = choose|k: int|
            0 <= k < path.len() && !t.window(i).has(t.dims(), #[trigger] path[k]);
        assert(!crate::nego_laws::is_inside(t, t.window(i), path[k]));
    }
    if leaves_window(t, path, i) {
        let k = choose|k: int|
            0 <= k < path.len() && !crate::nego_laws::is_inside(
                t,
                t.window(i),
                #[trigger] path[k],
            );
        assert(!t.window(i).has(t.dims(), path[k]));
    }
    let v = crate::rescue::victim(groups, s.committed, s.claims, g, path, path.len())->0;
    let up = crate::rescue::taken_up(t, groups, s, v);
    assert(v != g);
    assert forall|j: int| 0 <= j < t.nets.len() && groups[j] == v implies (
    #[trigger] r.committed[j]) is None by {
        assert(j != i);
        assert(up.committed[j] is None);
    }
    if r.committed[i] is None {
        assert(r.queue[up.queue.len() as int] == Some(i as usize));
    }
}

/// A round of a rescue ends it, unless nets wait and more nets are committed than ever before,
/// or as many and not for long.
pub proof fn law_rescue_stops(s: Rescue)
    ensures
        ({
            let r = crate::rescue::round_ends(s);
            let now = crate::tally::how_many(crate::board_laws::routed(s.committed), s.committed.len());
            &&& r.committed == s.committed
            &&& s.queue.len() == 0 ==> r.stopped
            &&& s.queue.len() > 0 && now > s.best ==> r.stopped == s.stopped && r.best == now
            &&& s.queue.len() > 0 && now < s.best ==> r.stopped
        }),
{
    crate::score_laws::law_routed_nets_are_counted(s.committed, s.committed.len());
}

/// The state without the head of its queue.
pub open spec fn without_head(s: Rescue) -> Rescue {
    Rescue { queue: s.queue.subrange(1, s.queue.len() as int), ..s }
}

/// The state after it comes from what is at the head of the queue: a net has its turn, or a
/// round ends.
pub open spec fn is_next(
    t: Task,
    groups: Seq<usize>,
    alone: Seq<Seq<CellIdx>>,
    states: Seq<Rescue>,
    k: int,
) -> bool {
    let s = states[k];
    &&& !s.stopped
    &&& s.queue.len() > 0
    &&& states[k + 1] == match s.queue[0] {
        Some(i) => crate::rescue::rescue_turn(t, groups, alone, without_head(s), i as int),
        None => crate::rescue::round_ends(without_head(s)),
    }
}

/// The rescue went through these states: it goes on as long as it has not stopped and
/// something waits.
pub open spec fn is_course(
    t: Task,
    groups: Seq<usize>,
    alone: Seq<Seq<CellIdx>>,
    states: Seq<Rescue>,
) -> bool {
    &&& states.len() > 0
    &&& forall|k: int| 0 <= k < states.len() - 1 ==> #[trigger] is_next(t, groups, alone, states, k)
    &&& states[states.len() - 1].stopped || states[states.len() - 1].queue.len() == 0
}

/// A rescue runs its course: whatever waits has its turn, until it stops.
pub proof fn law_rescue_runs_its_course(
    t: Task,
    groups: Seq<usize>,
    alone: Seq<Seq<CellIdx>>,
    s: Rescue,
) -> (states: Seq<Rescue>)
    requires
        crate::rescue::bounded(t, s),
        groups.len() == t.nets.len(),
        groups.len() <= usize::MAX,
    ensures
        is_course(t, groups, alone, states),
        states[0] == s,
        crate::rescue::rescued(t, groups, alone, s) == states[states.len() - 1].committed,
    decreases
            crate::rescue::budget(t.nets.len()) - s.done,
            t.nets.len() - s.best,
            crate::rescue::MAX_EVEN_ROUNDS - s.even,
            s.queue.len(),
{
    if s.stopped || s.queue.len() == 0 {
        seq![s]
    } else {
        let next = crate::rescue::rescue_step(t, groups, alone, s);
        crate::rescue::lemma_step_bounded(t, groups, alone, s);
        crate::rescue::lemma_routed_bound(s.committed, s.committed.len());
        let rest = law_rescue_runs_its_course(t, groups, alone, next);
        let states = seq![s] + rest;
        assert forall|k: int| 0 <= k < states.len() - 1 implies #[trigger] is_next(
            t,
            groups,
            alone,
            states,
            k,
        ) by {
            if k > 0 {
                assert(is_next(t, groups, alone, rest, k - 1));
                assert(states[k] == rest[k - 1] && states[k + 1] == rest[k]);
            } else {
                assert(states[1] == rest[0]);
            }
        }
        assert(states[states.len() - 1] == rest[rest.len() - 1]);
        states
    }
}

} // verus!
