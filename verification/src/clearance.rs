//! The distance that committed copper of different groups keeps.
use vstd::prelude::*;

use crate::board::CellIdx;
use crate::halo::{Claim, Claims};
use crate::legalize::{guards, watched};
use crate::task::Task;

verus! {

/// Net `j` may hold `c` even where that is within the clearance of others: it ends
/// there, it is a masked pad of its own, or another net of its group holds it too.
pub open spec fn may_crowd(
    t: Task,
    committed: Seq<Option<Seq<CellIdx>>>,
    groups: Seq<usize>,
    j: int,
    c: CellIdx,
) -> bool {
    ||| t.is_end(j, c)
    ||| t.grid.obstacle(c) && t.is_pad(j, c)
    ||| exists|k: int| #[trigger]
        crate::commit::holds(committed, k, c) && k != j && groups[k] == groups[j]
}

/// The committed path of net `j` keeps clear of that of net `i`.
pub open spec fn clear_of(
    t: Task,
    committed: Seq<Option<Seq<CellIdx>>>,
    groups: Seq<usize>,
    i: int,
    j: int,
) -> bool {
    forall|c: CellIdx| #[trigger]
        crate::commit::holds(committed, j, c) && crate::halo::crowds(
            &t.grid,
            t.geo,
            committed[i]->0,
            c,
        ) ==> may_crowd(t, committed, groups, j, c)
}

/// Of each two committed nets of different groups, one keeps clear of the other.
pub open spec fn all_clear(
    t: Task,
    committed: Seq<Option<Seq<CellIdx>>>,
    groups: Seq<usize>,
) -> bool {
    forall|i: int, j: int|
        0 <= i < committed.len() && 0 <= j < committed.len() && (#[trigger] committed[i]) is Some
            && (#[trigger] committed[j]) is Some && groups[i] != groups[j] ==> clear_of(
            t,
            committed,
            groups,
            i,
            j,
        ) || clear_of(t, committed, groups, j, i)
}

/// A path that fits among the claims keeps clear of what is committed.
proof fn lemma_newcomer_is_clear(
    t: Task,
    committed: Seq<Option<Seq<CellIdx>>>,
    groups: Seq<usize>,
    claims: Claims,
    n: int,
    p: Seq<CellIdx>,
    i: int,
)
    requires
        t.wf(),
        crate::commit::sound(t, committed, groups, claims),
        watched(t, committed, groups, claims),
        0 <= n < committed.len(),
        committed[n] is None,
        crate::legal::fits_among(t, n, groups[n], claims, p),
        0 <= i < committed.len(),
        committed[i] is Some,
        groups[i] != groups[n],
    ensures
        clear_of(t, committed.update(n, Some(p)), groups, i, n),
{
    let now = committed.update(n, Some(p));
    let q = committed[i]->0;
    assert(crate::task::own_walk(t, i, q));
    assert forall|m: int| 0 <= m < q.len() implies t.grid.dims.has(#[trigger] q[m]) by {
        assert(t.dims().has(q[m]));
    }
    assert forall|c: CellIdx| #[trigger]
        crate::commit::holds(now, n, c) && crate::halo::crowds(
            &t.grid,
            t.geo,
            now[i]->0,
            c,
        ) implies may_crowd(t, now, groups, n, c) by {
        let k = choose|k: int| 0 <= k < p.len() && p[k] == c;
        assert(t.dims().has(p[k]));
        assert(!t.bars(n, p[k]));
        assert(!claims.owner[p[k] as int].foreign(groups[n]));
        crate::halo::lemma_halo_cells(&t.grid, t.geo, q, c);
        if !t.grid.obstacle(c) {
            assert(guards(t, committed, i, c));
            if claims.owner[c as int] != Claim::Free {
                let h = choose|h: int| #[trigger]
                    crate::commit::holds(committed, h, c) && claims.owner[c as int]
                        == Claim::Group(groups[h]);
                assert(crate::commit::holds(now, h, c));
            } else {
                assert(crate::legal::contested(claims, groups[n], c));
            }
        }
    }
}

/// Committing a path that fits among the claims keeps everything clear.
pub proof fn lemma_settled_clear(
    t: Task,
    committed: Seq<Option<Seq<CellIdx>>>,
    groups: Seq<usize>,
    claims: Claims,
    n: int,
    p: Seq<CellIdx>,
)
    requires
        t.wf(),
        crate::commit::sound(t, committed, groups, claims),
        watched(t, committed, groups, claims),
        all_clear(t, committed, groups),
        0 <= n < committed.len(),
        committed[n] is None,
        crate::legal::fits_among(t, n, groups[n], claims, p),
    ensures
        all_clear(t, committed.update(n, Some(p)), groups),
{
    let now = committed.update(n, Some(p));
    assert forall|i: int, j: int|
        0 <= i < now.len() && 0 <= j < now.len() && (#[trigger] now[i]) is Some && (
        #[trigger] now[j]) is Some && groups[i] != groups[j] implies clear_of(
        t,
        now,
        groups,
        i,
        j,
    ) || clear_of(t, now, groups, j, i) by {
        if j == n {
            lemma_newcomer_is_clear(t, committed, groups, claims, n, p, i);
        } else if i == n {
            lemma_newcomer_is_clear(t, committed, groups, claims, n, p, j);
        } else {
            assert(committed[i] is Some && committed[j] is Some);
            if clear_of(t, committed, groups, i, j) {
                lemma_still_clear(t, committed, now, groups, i, j);
            } else {
                lemma_still_clear(t, committed, now, groups, j, i);
            }
        }
    }
}

/// Paths stay clear of each other as long as they stay, and the nets of the group with
/// them.
pub proof fn lemma_still_clear(
    t: Task,
    before: Seq<Option<Seq<CellIdx>>>,
    now: Seq<Option<Seq<CellIdx>>>,
    groups: Seq<usize>,
    i: int,
    j: int,
)
    requires
        before.len() == now.len(),
        0 <= i < now.len(),
        0 <= j < now.len(),
        clear_of(t, before, groups, i, j),
        now[i] == before[i],
        forall|k: int|
            0 <= k < now.len() && groups[k] == groups[j] && before[k] is Some ==> (
            #[trigger] now[k]) == before[k],
        now[j] == before[j],
    ensures
        clear_of(t, now, groups, i, j),
{
    assert forall|c: CellIdx| #[trigger]
        crate::commit::holds(now, j, c) && crate::halo::crowds(
            &t.grid,
            t.geo,
            now[i]->0,
            c,
        ) implies may_crowd(t, now, groups, j, c) by {
        assert(crate::commit::holds(before, j, c));
        assert(may_crowd(t, before, groups, j, c));
        if !t.is_end(j, c) && !(t.grid.obstacle(c) && t.is_pad(j, c)) {
            let k = choose|k: int| #[trigger]
                crate::commit::holds(before, k, c) && k != j && groups[k] == groups[j];
            assert(now[k] == before[k]);
            assert(crate::commit::holds(now, k, c));
        }
    }
}

/// Taking up a group keeps the others clear.
pub proof fn lemma_taken_up_clear(
    t: Task,
    before: Seq<Option<Seq<CellIdx>>>,
    now: Seq<Option<Seq<CellIdx>>>,
    groups: Seq<usize>,
    v: usize,
)
    requires
        all_clear(t, before, groups),
        before.len() == now.len(),
        forall|k: int|
            0 <= k < now.len() ==> #[trigger] now[k] == if groups[k] == v {
                None
            } else {
                before[k]
            },
    ensures
        all_clear(t, now, groups),
{
    assert forall|i: int, j: int|
        0 <= i < now.len() && 0 <= j < now.len() && (#[trigger] now[i]) is Some && (
        #[trigger] now[j]) is Some && groups[i] != groups[j] implies clear_of(
        t,
        now,
        groups,
        i,
        j,
    ) || clear_of(t, now, groups, j, i) by {
        assert(before[i] is Some && before[j] is Some);
        if clear_of(t, before, groups, i, j) {
            lemma_still_clear(t, before, now, groups, i, j);
        } else {
            lemma_still_clear(t, before, now, groups, j, i);
        }
    }
}

/// The cells around paths are watched where their claims are put down one after another.
pub proof fn lemma_watched_rebuilt(
    t: Task,
    committed: Seq<Option<Seq<CellIdx>>>,
    groups: Seq<usize>,
    k: nat,
)
    requires
        t.wf(),
        crate::commit::leading(t, committed),
        groups.len() == committed.len(),
        crate::commit::apart(committed, groups),
        k <= committed.len(),
    ensures
        watched(
            t,
            Seq::new(
                committed.len(),
                |i: int|
                    if i < k {
                        committed[i]
                    } else {
                        None
                    },
            ),
            groups,
            crate::halo::claims_of(&t.grid, t.geo, committed, groups, k),
        ),
    decreases k,
{
    let part = |m: nat|
        Seq::new(
            committed.len(),
            |i: int|
                if i < m {
                    committed[i]
                } else {
                    None
                },
        );
    if k > 0 {
        let k1 = (k - 1) as nat;
        lemma_watched_rebuilt(t, committed, groups, k1);
        crate::commit::lemma_sound_rebuilt(t, committed, groups, k1);
        let claims = crate::halo::claims_of(&t.grid, t.geo, committed, groups, k1);
        match committed[k - 1] {
            Some(p) => {
                crate::legalize::lemma_stamp_watched(t, part(k1), groups, claims, k - 1, p);
                assert(part(k1).update(k - 1, Some(p)) =~= part(k));
            },
            None => {
                assert(part(k1) =~= part(k));
            },
        }
    }
}

/// Whatever the order, of each two committed nets of different groups one keeps clear of
/// the other.
pub proof fn law_commits_are_clear(
    t: Task,
    groups: Seq<usize>,
    paths: Seq<Seq<CellIdx>>,
    order: Seq<usize>,
)
    requires
        t.wf(),
        groups.len() == t.nets.len(),
        crate::task::all_walk(t, paths),
        crate::legalize::no_repeats(order),
    ensures
        all_clear(t, crate::legalize::legalized(t, groups, paths, order), groups),
{
    let end = crate::legalize::legalized(t, groups, paths, order);
    crate::legalize::law_committed_paths_are_disjoint(t, groups, paths, order);
    assert forall|i: int, j: int|
        0 <= i < end.len() && 0 <= j < end.len() && (#[trigger] end[i]) is Some && (
        #[trigger] end[j]) is Some && groups[i] != groups[j] implies clear_of(
        t,
        end,
        groups,
        i,
        j,
    ) || clear_of(t, end, groups, j, i) by {
        let a = crate::legalize::lemma_group_came(t, groups, paths, order, i);
        let b = crate::legalize::lemma_group_came(t, groups, paths, order, j);
        if a < b {
            lemma_later_is_clear(t, groups, paths, order, a, b, i, j);
        } else {
            lemma_later_is_clear(t, groups, paths, order, b, a, j, i);
        }
    }
}

/// A net that is committed later keeps clear.
proof fn lemma_later_is_clear(
    t: Task,
    groups: Seq<usize>,
    paths: Seq<Seq<CellIdx>>,
    order: Seq<usize>,
    a: int,
    b: int,
    i: int,
    j: int,
)
    requires
        t.wf(),
        groups.len() == t.nets.len(),
        crate::task::all_walk(t, paths),
        crate::legalize::no_repeats(order),
        0 <= a < b < order.len(),
        0 <= i < t.nets.len(),
        0 <= j < t.nets.len(),
        groups[i] == order[a],
        groups[j] == order[b],
        crate::legalize::legalized(t, groups, paths, order)[i] is Some,
        crate::legalize::legalized(t, groups, paths, order)[j] is Some,
    ensures
        clear_of(t, crate::legalize::legalized(t, groups, paths, order), groups, i, j),
{
    let end = crate::legalize::legalized(t, groups, paths, order);
    assert forall|c: CellIdx| #[trigger]
        crate::commit::holds(end, j, c) && crate::halo::crowds(
            &t.grid,
            t.geo,
            end[i]->0,
            c,
        ) implies may_crowd(t, end, groups, j, c) by {
        crate::legalize::law_later_nets_keep_clear(
            t,
            groups,
            paths,
            order,
            a,
            b,
            i,
            j,
            c,
        );
    }
}

} // verus!
