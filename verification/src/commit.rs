//! Paths that are committed to a board, and what holds of them and of the claims.
use vstd::prelude::*;

use crate::board::CellIdx;
use crate::halo::{Claim, Claims};
use crate::task::Task;

verus! {

/// Net `i` has a committed path through `c`.
pub open spec fn holds(committed: Seq<Option<Seq<CellIdx>>>, i: int, c: CellIdx) -> bool {
    0 <= i < committed.len() && committed[i] is Some && (committed[i]->0).contains(c)
}

/// Committed paths of different groups have no cell in common.
pub open spec fn apart(committed: Seq<Option<Seq<CellIdx>>>, groups: Seq<usize>) -> bool {
    forall|i: int, j: int, c: CellIdx|
        #![trigger holds(committed, i, c), holds(committed, j, c)]
        holds(committed, i, c) && holds(committed, j, c) ==> groups[i] == groups[j]
}

/// Each cell that holds copper is claimed by the group of that copper, and no other
/// cell is claimed by copper.
pub open spec fn owned(
    committed: Seq<Option<Seq<CellIdx>>>,
    groups: Seq<usize>,
    claims: Claims,
) -> bool {
    &&& forall|i: int, c: CellIdx| #[trigger]
        holds(committed, i, c) ==> claims.owner[c as int] == Claim::Group(groups[i])
    &&& forall|c: CellIdx|
        c < claims.owner.len() && (#[trigger] claims.owner[c as int]) != Claim::Free
            ==> claims.owner[c as int] is Group && exists|i: int| #[trigger]
            holds(committed, i, c) && claims.owner[c as int] == Claim::Group(groups[i])
}

/// Every committed path leads its net.
pub open spec fn leading(t: Task, committed: Seq<Option<Seq<CellIdx>>>) -> bool {
    &&& committed.len() == t.nets.len()
    &&& forall|i: int|
        0 <= i < committed.len() ==> (#[trigger] committed[i] matches Some(p)
            ==> crate::task::own_walk(t, i, p))
}

/// Every committed path leads its net, and the claims are those of the paths.
pub open spec fn sound(
    t: Task,
    committed: Seq<Option<Seq<CellIdx>>>,
    groups: Seq<usize>,
    claims: Claims,
) -> bool {
    &&& leading(t, committed)
    &&& groups.len() == committed.len()
    &&& claims.owner.len() == t.dims().cells()
    &&& claims.halo.len() == t.dims().cells()
    &&& owned(committed, groups, claims)
}

/// Nothing committed, nothing claimed.
pub proof fn lemma_sound_start(t: Task, groups: Seq<usize>)
    requires
        t.wf(),
        groups.len() == t.nets.len(),
    ensures
        sound(
            t,
            Seq::new(t.nets.len(), |i: int| None),
            groups,
            crate::halo::unclaimed(t.dims().cells() as nat),
        ),
{
}

/// A path over cells without foreign copper can be committed for a net that has none.
pub proof fn lemma_sound_stamp(
    t: Task,
    committed: Seq<Option<Seq<CellIdx>>>,
    groups: Seq<usize>,
    claims: Claims,
    i: int,
    p: Seq<CellIdx>,
)
    requires
        t.wf(),
        sound(t, committed, groups, claims),
        0 <= i < committed.len(),
        committed[i] is None,
        crate::task::own_walk(t, i, p),
        forall|k: int|
            0 <= k < p.len() ==> !claims.owner[(#[trigger] p[k]) as int].foreign(groups[i]),
    ensures
        sound(
            t,
            committed.update(i, Some(p)),
            groups,
            crate::halo::stamped(&t.grid, t.geo, claims, p, groups[i]),
        ),
{
    let now = committed.update(i, Some(p));
    let s = crate::halo::stamped(&t.grid, t.geo, claims, p, groups[i]);
    assert forall|j: int, c: CellIdx| #[trigger] holds(now, j, c) implies s.owner[c as int]
        == Claim::Group(groups[j]) by {
        if j == i {
            let k = choose|k: int| 0 <= k < p.len() && p[k] == c;
            assert(t.dims().has(p[k]));
        } else {
            assert(holds(committed, j, c));
            let q = committed[j]->0;
            let m = choose|m: int| 0 <= m < q.len() && q[m] == c;
            assert(crate::task::own_walk(t, j, q));
            assert(t.dims().has(q[m]));
            if p.contains(c) {
                let k = choose|k: int| 0 <= k < p.len() && p[k] == c;
                assert(!claims.owner[p[k] as int].foreign(groups[i]));
            }
        }
    }
    assert forall|c: CellIdx|
        c < s.owner.len() && (#[trigger] s.owner[c as int]) != Claim::Free implies s.owner[c as int] is Group
        && exists|j: int| #[trigger]
        holds(now, j, c) && s.owner[c as int] == Claim::Group(groups[j]) by {
        if p.contains(c) {
            assert(holds(now, i, c));
        } else {
            assert(claims.owner[c as int] != Claim::Free);
            let j = choose|j: int| #[trigger]
                holds(committed, j, c) && claims.owner[c as int] == Claim::Group(groups[j]);
            assert(holds(now, j, c));
        }
    }
}

/// The claims of paths that are apart, put down one after another, are sound.
pub proof fn lemma_sound_rebuilt(
    t: Task,
    committed: Seq<Option<Seq<CellIdx>>>,
    groups: Seq<usize>,
    k: nat,
)
    requires
        t.wf(),
        leading(t, committed),
        groups.len() == committed.len(),
        apart(committed, groups),
        k <= committed.len(),
    ensures
        sound(
            t,
            Seq::new(
                committed.len(),
                |i: int|
                    if i < k {
                        committed[i]
                    } else {
                        None
                    },
            ),
            groups,
            crate::halo::claims_of(&t.grid, t.geo, committed, groups, k),
        ),
    decreases k,
{
    let part = |m: nat|
        Seq::new(
            committed.len(),
            |i: int|
                if i < m {
                    committed[i]
                } else {
                    None
                },
        );
    if k == 0 {
        assert(part(0) =~= Seq::new(t.nets.len(), |i: int| None));
        lemma_sound_start(t, groups);
    } else {
        let k1 = (k - 1) as nat;
        lemma_sound_rebuilt(t, committed, groups, k1);
        let claims = crate::halo::claims_of(&t.grid, t.geo, committed, groups, k1);
        match committed[k - 1] {
            Some(p) => {
                assert(crate::task::own_walk(t, k - 1, p));
                assert forall|m: int| 0 <= m < p.len() implies !claims.owner[(
                #[trigger] p[m]) as int].foreign(groups[k - 1]) by {
                    let c = p[m];
                    assert(t.dims().has(c));
                    assert(holds(committed, k - 1, c));
                    if claims.owner[c as int] != Claim::Free {
                        let j = choose|j: int| #[trigger]
                            holds(part(k1), j, c) && claims.owner[c as int] == Claim::Group(
                                groups[j],
                            );
                        assert(holds(committed, j, c));
                    }
                }
                lemma_sound_stamp(t, part(k1), groups, claims, k - 1, p);
                assert(part(k1).update(k - 1, Some(p)) =~= part(k));
            },
            None => {
                assert(part(k1) =~= part(k));
            },
        }
    }
}

} // verus!
