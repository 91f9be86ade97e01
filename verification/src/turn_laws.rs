//! What a turn in a negotiation is for: a net sees where the others are, and nothing else.
use vstd::prelude::*;

use crate::board::CellIdx;
use crate::negotiate::Nego;
use crate::task::Task;

verus! {

/// How often the first nets list the cell, but for net `i`.
pub open spec fn listed_by_others(
    lists: Seq<Seq<CellIdx>>,
    i: int,
    c: CellIdx,
    n: nat,
) -> nat
    decreases n,
{
    if n == 0 {
        0
    } else {
        listed_by_others(lists, i, c, (n - 1) as nat) + if n - 1 == i {
            0
        } else {
            crate::tally::seen(lists[n - 1], c, lists[n - 1].len())
        }
    }
}

/// The cells around each path that other nets keep off.
pub open spec fn surroundings(t: Task, paths: Seq<Seq<CellIdx>>) -> Seq<Seq<CellIdx>> {
    Seq::new(paths.len(), |j: int| crate::halo::halo_cells(&t.grid, t.geo, paths[j]))
}

/// The counts are exact: how many paths run through each cell, and how often it is kept free.
pub open spec fn counts_are_exact(t: Task, s: Nego) -> bool {
    let n = s.paths.len();
    &&& s.present.len() == t.dims().cells()
    &&& s.halo.len() == t.dims().cells()
    &&& forall|c: CellIdx|
        t.dims().has(c) ==> #[trigger] s.present[c as int] == listed_by_others(
            s.paths,
            -1,
            c,
            n,
        ) && s.halo[c as int] == listed_by_others(surroundings(t, s.paths), -1, c, n)
}

/// What the other nets make a cell cost: sixteen times the round for each time that one of
/// them runs through it, and for each time that one keeps it free.
pub open spec fn others_toll(t: Task, s: Nego, i: int, pfac: u32) -> spec_fn(CellIdx) -> int {
    |c: CellIdx|
        16 * pfac * (listed_by_others(s.paths, i, c, s.paths.len()) + listed_by_others(
            surroundings(t, s.paths),
            i,
            c,
            s.paths.len(),
        ))
}

proof fn lemma_all_but_one(lists: Seq<Seq<CellIdx>>, i: int, c: CellIdx, n: nat)
    requires
        n <= lists.len(),
    ensures
        listed_by_others(lists, -1, c, n) == listed_by_others(lists, i, c, n) + if 0 <= i < n {
            crate::tally::seen(lists[i], c, lists[i].len())
        } else {
            0
        },
    decreases n,
{
    if n > 0 {
        lemma_all_but_one(lists, i, c, (n - 1) as nat);
    }
}

proof fn lemma_others_same(
    a: Seq<Seq<CellIdx>>,
    b: Seq<Seq<CellIdx>>,
    i: int,
    c: CellIdx,
    n: nat,
)
    requires
        n <= a.len(),
        a.len() == b.len(),
        forall|j: int| 0 <= j < a.len() && j != i ==> #[trigger] a[j] == b[j],
    ensures
        listed_by_others(a, i, c, n) == listed_by_others(b, i, c, n),
    decreases n,
{
    if n > 0 {
        lemma_others_same(a, b, i, c, (n - 1) as nat);
        assert(n - 1 != i ==> a[n - 1] == b[n - 1]);
    }
}

proof fn lemma_lifted(t: Task, s: Nego, i: int, c: CellIdx)
    requires
        counts_are_exact(t, s),
        0 <= i < s.paths.len(),
        t.dims().has(c),
        t.dims().cells() <= u32::MAX,
    ensures
        crate::negotiate::lifted(t, s, i).present[c as int] == listed_by_others(
            s.paths,
            i,
            c,
            s.paths.len(),
        ),
        crate::negotiate::lifted(t, s, i).halo[c as int] == listed_by_others(
            surroundings(t, s.paths),
            i,
            c,
            s.paths.len(),
        ),
{
    let p = s.paths[i];
    let around = surroundings(t, s.paths);
    let h = crate::halo::halo_cells(&t.grid, t.geo, p);
    assert(around[i] == h);
    assert(s.present[c as int] == listed_by_others(s.paths, -1, c, s.paths.len()));
    lemma_all_but_one(s.paths, i, c, s.paths.len());
    lemma_all_but_one(around, i, c, s.paths.len());
    crate::tally::lemma_occurrences(p, c, p.len());
    crate::tally::lemma_occurrences(h, c, h.len());
    assert(p.take(p.len() as int) =~= p);
    assert(h.take(h.len() as int) =~= h);
}

/// At its turn in a round a net is charged for the other nets alone: where the counts are
/// exact, what it pays on top is what they make each cell cost, and its own path so far costs
/// it nothing.
pub proof fn law_nets_pay_for_others(t: Task, s: Nego, i: int, pfac: u32, c: CellIdx)
    requires
        counts_are_exact(t, s),
        0 <= i < s.paths.len(),
        t.dims().has(c),
        t.dims().cells() <= u32::MAX,
    ensures
        crate::negotiate::plain_penalty(crate::negotiate::lifted(t, s, i), pfac)(c)
            == others_toll(t, s, i, pfac)(c),
{
    lemma_lifted(t, s, i, c);
    crate::nego_laws::law_crowding_is_charged(crate::negotiate::lifted(t, s, i), pfac, c);
}

/// What a net does at its turn: it takes the path that is best for it at what the others make
/// cells cost, all the others stay where they are, and the counts stay exact.
pub proof fn law_turns_move_one_net(t: Task, s: Nego, i: int, pfac: u32)
    requires
        t.wf(),
        counts_are_exact(t, s),
        s.paths.len() == t.nets.len(),
        0 <= i < s.paths.len(),
        ({
            let after = crate::negotiate::own_turn(t, s, i, pfac).paths;
            forall|c: CellIdx|
                t.dims().has(c) ==> #[trigger] listed_by_others(after, -1, c, after.len())
                    <= u32::MAX && listed_by_others(
                    surroundings(t, after),
                    -1,
                    c,
                    after.len(),
                ) <= u32::MAX
        }),
    ensures
        ({
            let r = crate::negotiate::own_turn(t, s, i, pfac);
            &&& r.paths.len() == s.paths.len()
            &&& forall|j: int| 0 <= j < s.paths.len() && j != i ==> #[trigger] r.paths[j]
                == s.paths[j]
            &&& r.history == s.history && r.over == s.over
            &&& match crate::negotiate::find(t, i, s.history, others_toll(t, s, i, pfac)) {
                Some(p) => r.paths[i] == p,
                None => r.paths[i].len() == 0,
            }
            &&& counts_are_exact(t, r)
        }),
{
    let l = crate::negotiate::lifted(t, s, i);
    let r = crate::negotiate::own_turn(t, s, i, pfac);
    let plain = crate::negotiate::plain_penalty(l, pfac);
    let toll = others_toll(t, s, i, pfac);
    let n = s.paths.len();
    let whole = crate::geometry::IsolatedRouteWindow::whole(t.dims());
    assert forall|c: CellIdx| t.dims().has(c) implies #[trigger] plain(c) == toll(c) by {
        law_nets_pay_for_others(t, s, i, pfac, c);
    }
    crate::pricing::lemma_same_penalty(t, i, t.window(i), s.history, plain, toll);
    crate::pricing::lemma_same_penalty(t, i, whole, s.history, plain, toll);
    let found = crate::negotiate::find(t, i, s.history, toll);
    assert(found == crate::negotiate::find(t, i, l.history, plain));
    let empty = Seq::<CellIdx>::empty();
    let p = match found {
        Some(p) => p,
        None => empty,
    };
    assert(r.paths == s.paths.update(i, p)) by {
        assert(r.paths =~= s.paths.update(i, p));
    }
    let around = surroundings(t, r.paths);
    let h = crate::halo::halo_cells(&t.grid, t.geo, p);
    assert forall|j: int| 0 <= j < n && j != i implies #[trigger] around[j] == surroundings(
        t,
        s.paths,
    )[j] by {
        assert(r.paths[j] == s.paths[j]);
    }
    assert(around[i] == h);
    assert(found is None ==> h.len() == 0) by {
        if found is None {
            assert(crate::halo::halo_cells(&t.grid, t.geo, empty).len() == 0);
        }
    }
    assert forall|c: CellIdx| t.dims().has(c) implies #[trigger] r.present[c as int]
        == listed_by_others(r.paths, -1, c, n) && r.halo[c as int] == listed_by_others(
        around,
        -1,
        c,
        n,
    ) by {
        lemma_lifted(t, s, i, c);
        lemma_others_same(s.paths, r.paths, i, c, n);
        lemma_others_same(surroundings(t, s.paths), around, i, c, n);
        lemma_all_but_one(r.paths, i, c, n);
        lemma_all_but_one(around, i, c, n);
        assert(listed_by_others(r.paths, -1, c, n) <= u32::MAX);
        crate::tally::lemma_occurrences(p, c, p.len());
        crate::tally::lemma_occurrences(h, c, h.len());
        assert(p.take(p.len() as int) =~= p);
        assert(h.take(h.len() as int) =~= h);
    }
}

proof fn lemma_nothing_listed(lists: Seq<Seq<CellIdx>>, c: CellIdx, n: nat)
    requires
        n <= lists.len(),
        forall|j: int| 0 <= j < lists.len() ==> (#[trigger] lists[j]).len() == 0,
    ensures
        listed_by_others(lists, -1, c, n) == 0,
    decreases n,
{
    if n > 0 {
        lemma_nothing_listed(lists, c, (n - 1) as nat);
        assert(lists[n - 1].len() == 0);
    }
}

/// Counts are exact before the first round: nothing is routed, and nothing is counted.
pub proof fn law_counts_start_exact(t: Task)
    requires
        t.wf(),
    ensures
        counts_are_exact(t, crate::negotiate::nego_start(t)),
{
    let s = crate::negotiate::nego_start(t);
    let around = surroundings(t, s.paths);
    let empty = Seq::<CellIdx>::empty();
    assert(crate::halo::halo_cells(&t.grid, t.geo, empty).len() == 0);
    assert forall|j: int| 0 <= j < around.len() implies (#[trigger] around[j]).len() == 0 by {
        assert(s.paths[j] == empty);
    }
    assert forall|c: CellIdx| t.dims().has(c) implies #[trigger] s.present[c as int]
        == listed_by_others(s.paths, -1, c, s.paths.len()) && s.halo[c as int]
        == listed_by_others(around, -1, c, s.paths.len()) by {
        lemma_nothing_listed(s.paths, c, s.paths.len());
        lemma_nothing_listed(around, c, around.len());
    }
}

/// The net is left alone in a round: there are more than eight nets that keep no distance, it
/// is not the first round, and its path shares no cell.
pub open spec fn is_left_alone(t: Task, over: Seq<CellIdx>, path: Seq<CellIdx>, iter: u32) -> bool {
    &&& t.nets.len() > 8
    &&& !t.geo.spaced
    &&& iter > 0
    &&& path.len() > 0
    &&& forall|k: int, m: int|
        0 <= k < path.len() && 0 <= m < over.len() ==> #[trigger] path[k] != #[trigger] over[m]
}

/// The states that a round goes through, net after net.
pub open spec fn are_turns(t: Task, s: Nego, iter: u32, states: Seq<Nego>) -> bool {
    &&& states.len() == t.nets.len() + 1
    &&& states[0] == s
    &&& forall|k: int| 0 <= k < t.nets.len() ==> #[trigger] is_next(t, s, iter, states, k)
}

/// Net `k` has its turn, or is left alone.
pub open spec fn is_next(t: Task, s: Nego, iter: u32, states: Seq<Nego>, k: int) -> bool {
    states[k + 1] == if is_left_alone(t, s.over, states[k].paths[k], iter) {
        states[k]
    } else {
        crate::negotiate::own_turn(t, states[k], k, (iter + 1) as u32)
    }
}

proof fn lemma_left_alone(t: Task, over: Seq<CellIdx>, path: Seq<CellIdx>, iter: u32)
    ensures
        is_left_alone(t, over, path, iter) <==> crate::negotiate::rests(t, over, path, iter),
{
    if crate::negotiate::touches(path, over) {
        let c = choose|c: CellIdx| #[trigger] path.contains(c) && over.contains(c);
        let k = choose|k: int| 0 <= k < path.len() && path[k] == c;
        let m = choose|m: int| 0 <= m < over.len() && over[m] == c;
        assert(path[k] == over[m]);
    } else {
        assert forall|k: int, m: int|
            0 <= k < path.len() && 0 <= m < over.len() implies #[trigger] path[k]
            != #[trigger] over[m] by {
            assert(path.contains(path[k]));
            assert(over.contains(over[m]));
        }
    }
}

/// In a round that goes net after net each has its turn, in the order of the nets, unless it
/// is left alone.
pub proof fn law_every_net_has_its_turn(t: Task, s: Nego, iter: u32) -> (states: Seq<Nego>)
    ensures
        are_turns(t, s, iter, states),
        crate::negotiate::serial_round(t, s, iter, t.nets.len()) == states[t.nets.len() as int],
{
    let n = t.nets.len();
    let states = Seq::new(n + 1, |k: int| crate::negotiate::serial_round(t, s, iter, k as nat));
    assert forall|k: int| 0 <= k < n implies #[trigger] is_next(t, s, iter, states, k) by {
        lemma_left_alone(t, s.over, states[k].paths[k], iter);
    }
    states
}

/// In a round in which all nets move at once, each net that shares a cell, or has no path, or
/// keeps a distance, or moves for the first time, has its turn, and the others stay.
pub proof fn law_all_move_at_once(t: Task, s: Nego, iter: u32, n: nat, i: int)
    requires
        n <= s.paths.len(),
        0 <= i < s.paths.len(),
    ensures
        ({
            let r = crate::negotiate::jacobi_round(t, s, iter, n);
            let moves = t.geo.spaced || iter == 0 || s.paths[i].len() == 0 || exists|
                k: int,
                m: int,
            |
                0 <= k < s.paths[i].len() && 0 <= m < s.over.len() && #[trigger] s.paths[i][k]
                    == #[trigger] s.over[m];
            &&& r.paths.len() == s.paths.len()
            &&& i >= n || !moves ==> r.paths[i] == s.paths[i]
            &&& i < n && moves ==> match crate::negotiate::jacobi_path(t, s, i, iter) {
                Some(p) => r.paths[i] == p,
                None => r.paths[i].len() == 0,
            }
        }),
    decreases n,
{
    let path = s.paths[i];
    if crate::negotiate::touches(path, s.over) {
        let c = choose|c: CellIdx| #[trigger] path.contains(c) && s.over.contains(c);
        let k = choose|k: int| 0 <= k < path.len() && path[k] == c;
        let m = choose|m: int| 0 <= m < s.over.len() && s.over[m] == c;
        assert(s.paths[i][k] == s.over[m]);
    }
    if exists|k: int, m: int|
        0 <= k < s.paths[i].len() && 0 <= m < s.over.len() && #[trigger] s.paths[i][k]
            == #[trigger] s.over[m] {
        let (k, m) = choose|k: int, m: int|
            0 <= k < s.paths[i].len() && 0 <= m < s.over.len() && #[trigger] s.paths[i][k]
                == #[trigger] s.over[m];
        assert(path.contains(path[k]));
        assert(s.over.contains(s.over[m]));
        assert(crate::negotiate::touches(path, s.over));
    }
    if n > 0 {
        law_all_move_at_once(t, s, iter, (n - 1) as nat, i);
    }
}

proof fn lemma_seen_if_there(p: Seq<CellIdx>, c: CellIdx, n: nat)
    requires
        n <= p.len(),
    ensures
        crate::tally::seen(p, c, n) > 0 <==> exists|k: int| 0 <= k < n && #[trigger] p[k] == c,
    decreases n,
{
    if n > 0 {
        lemma_seen_if_there(p, c, (n - 1) as nat);
        if p[n - 1] != c && exists|k: int| 0 <= k < n && #[trigger] p[k] == c {
            let k = choose|k: int| 0 <= k < n && #[trigger] p[k] == c;
            assert(k < n - 1);
        }
    }
}

/// Where all nets move at once each is charged for the other nets alone too, in whichever of
/// the two ways its own path is taken off: what it pays on top is what the others make each
/// cell cost.
pub proof fn law_all_pay_for_others(t: Task, s: Nego, i: int, pfac: u32, fused: bool, c: CellIdx)
    requires
        counts_are_exact(t, s),
        0 <= i < s.paths.len(),
        t.dims().has(c),
        t.dims().cells() <= u32::MAX,
        crate::tally::seen(s.paths[i], c, s.paths[i].len()) <= 1,
        fused ==> s.present[c as int] + s.halo[c as int] <= u32::MAX,
    ensures
        crate::negotiate::own_penalty(t, s, i, pfac, fused)(c) == others_toll(t, s, i, pfac)(c),
{
    let p = s.paths[i];
    let around = surroundings(t, s.paths);
    let h = crate::halo::halo_cells(&t.grid, t.geo, p);
    assert(around[i] == h);
    let present = s.present[c as int] as int;
    let halo = s.halo[c as int] as int;
    let own = crate::tally::seen(p, c, p.len()) as int;
    let kept = crate::tally::seen(h, c, h.len()) as int;
    lemma_all_but_one(s.paths, i, c, s.paths.len());
    lemma_all_but_one(around, i, c, s.paths.len());
    crate::tally::lemma_occurrences(p, c, p.len());
    crate::tally::lemma_occurrences(h, c, h.len());
    assert(p.take(p.len() as int) =~= p);
    assert(h.take(h.len() as int) =~= h);
    lemma_seen_if_there(p, c, p.len());
    if p.contains(c) {
        let k = choose|k: int| 0 <= k < p.len() && p[k] == c;
        assert(p[k] == c);
    }
    assert(own <= present && kept <= halo);
    crate::pricing::law_fused_is_exact(pfac, present, halo, own, kept);
    let (a, b) = (present - own, halo - kept);
    assert(pfac * 16 * a + pfac * 16 * b == 16 * pfac * (a + b)) by (nonlinear_arith);
    assert(kept + own == own + kept);
}

} // verus!
