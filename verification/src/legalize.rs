//! Committing paths group by group, so that no group's copper is in another's way.
use vstd::prelude::*;

use crate::board::CellIdx;
use crate::cells::copy_cells;
use crate::halo::{stamp_owner, Claim, Claims, Committed};
use crate::legal::find_legal;
use crate::pads::PadSet;
use crate::search::SearchBuf;
use crate::task::{Problem, Task};

verus! {

/// What is committed, and what is claimed by it.
#[verifier::ext_equal]
pub struct Commit {
    /// The path of each net that is committed.
    pub committed: Seq<Option<Seq<CellIdx>>>,
    /// The claims of the committed paths.
    pub claims: Claims,
}

/// Nothing is committed.
pub open spec fn commit_start(t: Task) -> Commit {
    Commit {
        committed: Seq::new(t.nets.len(), |i: int| None),
        claims: crate::halo::unclaimed(t.dims().cells() as nat),
    }
}

/// The path can be committed for group `g` as it is.
pub open spec fn clean(claims: Claims, g: usize, path: Seq<CellIdx>) -> bool {
    &&& path.len() > 0
    &&& forall|k: int|
        0 <= k < path.len() ==> !claims.owner[(#[trigger] path[k]) as int].foreign(g)
            && !claims.halo[path[k] as int].foreign(g)
}

/// The path that is committed for net `i` of group `g`: the given one where it can be,
/// else a new one, in the net's window or anywhere.
pub open spec fn choice(
    t: Task,
    paths: Seq<Seq<CellIdx>>,
    claims: Claims,
    i: int,
    g: usize,
) -> Option<Seq<CellIdx>> {
    if clean(claims, g, paths[i]) {
        Some(paths[i])
    } else {
        crate::legal::legal_find(t, i, g, claims, true)
    }
}

/// What is committed when group `g` has chosen its paths.
pub open spec fn chosen(
    t: Task,
    groups: Seq<usize>,
    paths: Seq<Seq<CellIdx>>,
    s: Commit,
    g: usize,
    k: nat,
) -> Seq<Option<Seq<CellIdx>>> {
    Seq::new(
        t.nets.len(),
        |i: int|
            if i < k && groups[i] == g {
                choice(t, paths, s.claims, i, g)
            } else {
                s.committed[i]
            },
    )
}

/// The claims when those of the first `k` nets that are of group `g` are entered.
pub open spec fn group_claims(
    t: Task,
    groups: Seq<usize>,
    committed: Seq<Option<Seq<CellIdx>>>,
    claims: Claims,
    g: usize,
    k: nat,
) -> Claims
    decreases k,
{
    if k == 0 {
        claims
    } else {
        let before = group_claims(t, groups, committed, claims, g, (k - 1) as nat);
        if groups[k - 1] == g && committed[k - 1] is Some {
            crate::halo::stamped(&t.grid, t.geo, before, committed[k - 1]->0, g)
        } else {
            before
        }
    }
}

/// Group `g` commits its paths. Its nets do not see each other.
pub open spec fn place(
    t: Task,
    groups: Seq<usize>,
    paths: Seq<Seq<CellIdx>>,
    s: Commit,
    g: usize,
) -> Commit {
    let committed = chosen(t, groups, paths, s, g, t.nets.len());
    Commit { committed, claims: group_claims(t, groups, committed, s.claims, g, t.nets.len()) }
}

/// The first `k` groups of the order commit their paths, one after another.
pub open spec fn in_order(
    t: Task,
    groups: Seq<usize>,
    paths: Seq<Seq<CellIdx>>,
    order: Seq<usize>,
    k: nat,
) -> Commit
    decreases k,
{
    if k == 0 {
        commit_start(t)
    } else {
        place(t, groups, paths, in_order(t, groups, paths, order, (k - 1) as nat), order[k - 1])
    }
}

/// What is committed when all groups have, in the given order.
pub open spec fn legalized(
    t: Task,
    groups: Seq<usize>,
    paths: Seq<Seq<CellIdx>>,
    order: Seq<usize>,
) -> Seq<Option<Seq<CellIdx>>> {
    in_order(t, groups, paths, order, order.len()).committed
}

/// A path that is chosen leads its net over cells without foreign copper, and past
/// its ends over cells that nobody else keeps free.
pub proof fn lemma_choice_fits(
    t: Task,
    paths: Seq<Seq<CellIdx>>,
    claims: Claims,
    i: int,
    g: usize,
)
    requires
        t.wf(),
        0 <= i < t.nets.len(),
        crate::task::all_walk(t, paths),
    ensures
        choice(t, paths, claims, i, g) matches Some(p) ==> crate::legal::fits_among(
            t,
            i,
            g,
            claims,
            p,
        ),
{
    crate::legal::lemma_find_fits(t, i, g, claims, true);
    if clean(claims, g, paths[i]) {
        assert(crate::task::own_walk(t, i, paths[i]));
    }
}

/// Committing a group that has not been committed keeps everything sound.
proof fn lemma_place_sound(
    t: Task,
    groups: Seq<usize>,
    paths: Seq<Seq<CellIdx>>,
    s: Commit,
    g: usize,
    k: nat,
)
    requires
        t.wf(),
        crate::task::all_walk(t, paths),
        crate::commit::sound(t, s.committed, groups, s.claims),
        forall|i: int|
            0 <= i < t.nets.len() && groups[i] == g ==> (#[trigger] s.committed[i]) is None,
        k <= t.nets.len(),
    ensures
        ({
            let all = chosen(t, groups, paths, s, g, t.nets.len());
            let claims = group_claims(t, groups, all, s.claims, g, k);
            &&& crate::commit::sound(t, chosen(t, groups, paths, s, g, k), groups, claims)
            &&& forall|c: int|
                0 <= c < claims.owner.len() && !(#[trigger] s.claims.owner[c]).foreign(g)
                    ==> !claims.owner[c].foreign(g)
        }),
    decreases k,
{
    let all = chosen(t, groups, paths, s, g, t.nets.len());
    if k == 0 {
        assert(chosen(t, groups, paths, s, g, 0) =~= s.committed);
    } else {
        let k1 = (k - 1) as nat;
        lemma_place_sound(t, groups, paths, s, g, k1);
        let before = chosen(t, groups, paths, s, g, k1);
        let after = chosen(t, groups, paths, s, g, k);
        let claims = group_claims(t, groups, all, s.claims, g, k1);
        if groups[k - 1] == g && all[k - 1] is Some {
            let p = all[k - 1]->0;
            lemma_choice_fits(t, paths, s.claims, k - 1, g);
            assert forall|m: int| 0 <= m < p.len() implies !claims.owner[(
            #[trigger] p[m]) as int].foreign(groups[k - 1]) by {
                assert(t.dims().has(p[m]));
                assert(!s.claims.owner[p[m] as int].foreign(g));
            }
            assert(s.committed[k - 1] is None);
            crate::commit::lemma_sound_stamp(t, before, groups, claims, k - 1, p);
            assert(before.update(k - 1, Some(p)) =~= after);
        } else {
            assert(before =~= after) by {
                assert forall|i: int| 0 <= i < before.len() implies before[i] == after[i] by {
                    if i == k - 1 && groups[i] == g {
                        assert(s.committed[i] is None);
                        assert(all[i] is None);
                    }
                }
            }
        }
    }
}

/// No group comes twice.
pub open spec fn no_repeats(order: Seq<usize>) -> bool {
    forall|a: int, b: int| 0 <= a < b < order.len() ==> order[a] != order[b]
}

/// A net of a group that has not come yet is not committed.
pub proof fn lemma_not_yet(
    t: Task,
    groups: Seq<usize>,
    paths: Seq<Seq<CellIdx>>,
    order: Seq<usize>,
    k: nat,
    i: int,
)
    requires
        k <= order.len(),
        0 <= i < t.nets.len(),
        forall|a: int| 0 <= a < k ==> #[trigger] order[a] != groups[i],
    ensures
        in_order(t, groups, paths, order, k).committed.len() == t.nets.len(),
        in_order(t, groups, paths, order, k).committed[i] is None,
    decreases k,
{
    if k > 0 {
        lemma_not_yet(t, groups, paths, order, (k - 1) as nat, i);
        assert(order[k - 1] != groups[i]);
    }
}

/// A net that is committed is of a group that came.
pub proof fn lemma_group_came(
    t: Task,
    groups: Seq<usize>,
    paths: Seq<Seq<CellIdx>>,
    order: Seq<usize>,
    i: int,
) -> (a: int)
    requires
        0 <= i < t.nets.len(),
        legalized(t, groups, paths, order)[i] is Some,
    ensures
        0 <= a < order.len(),
        order[a] == groups[i],
{
    if forall|a: int| 0 <= a < order.len() ==> #[trigger] order[a] != groups[i] {
        lemma_not_yet(t, groups, paths, order, order.len(), i);
    }
    choose|a: int| 0 <= a < order.len() && #[trigger] order[a] == groups[i]
}

/// Committing groups in any order keeps everything sound.
pub proof fn lemma_order_sound(
    t: Task,
    groups: Seq<usize>,
    paths: Seq<Seq<CellIdx>>,
    order: Seq<usize>,
    k: nat,
)
    requires
        t.wf(),
        groups.len() == t.nets.len(),
        crate::task::all_walk(t, paths),
        no_repeats(order),
        k <= order.len(),
    ensures
        ({
            let s = in_order(t, groups, paths, order, k);
            crate::commit::sound(t, s.committed, groups, s.claims)
        }),
    decreases k,
{
    if k == 0 {
        crate::commit::lemma_sound_start(t, groups);
    } else {
        let k1 = (k - 1) as nat;
        lemma_order_sound(t, groups, paths, order, k1);
        let s = in_order(t, groups, paths, order, k1);
        let g = order[k - 1];
        assert forall|i: int| 0 <= i < t.nets.len() && groups[i] == g implies (
        #[trigger] s.committed[i]) is None by {
            lemma_not_yet(t, groups, paths, order, k1, i);
        }
        lemma_place_sound(t, groups, paths, s, g, t.nets.len());
    }
}

/// Whatever the order, committed paths of different groups have no cell in common.
pub proof fn law_committed_paths_are_disjoint(
    t: Task,
    groups: Seq<usize>,
    paths: Seq<Seq<CellIdx>>,
    order: Seq<usize>,
)
    requires
        t.wf(),
        groups.len() == t.nets.len(),
        crate::task::all_walk(t, paths),
        no_repeats(order),
    ensures
        crate::commit::apart(legalized(t, groups, paths, order), groups),
        crate::commit::leading(t, legalized(t, groups, paths, order)),
{
    lemma_order_sound(t, groups, paths, order, order.len());
}

/// Each cell around committed copper is kept free by the group of that copper, or
/// holds copper itself.
pub open spec fn watched(
    t: Task,
    committed: Seq<Option<Seq<CellIdx>>>,
    groups: Seq<usize>,
    claims: Claims,
) -> bool {
    forall|i: int, c: CellIdx|
        #![trigger guards(t, committed, i, c)]
        guards(t, committed, i, c) ==> {
            ||| claims.owner[c as int] != Claim::Free
            ||| claims.halo[c as int] == Claim::Mixed
            ||| claims.halo[c as int] == Claim::Group(groups[i])
        }
}

/// Cell `c` is around the committed path of net `i`.
pub open spec fn guards(
    t: Task,
    committed: Seq<Option<Seq<CellIdx>>>,
    i: int,
    c: CellIdx,
) -> bool {
    &&& 0 <= i < committed.len()
    &&& committed[i] is Some
    &&& crate::halo::halo_cells(&t.grid, t.geo, committed[i]->0).contains(c)
    &&& t.dims().has(c)
}

/// Committing one more path keeps the cells around the others watched.
pub proof fn lemma_stamp_watched(
    t: Task,
    committed: Seq<Option<Seq<CellIdx>>>,
    groups: Seq<usize>,
    claims: Claims,
    i: int,
    p: Seq<CellIdx>,
)
    requires
        watched(t, committed, groups, claims),
        claims.owner.len() == t.dims().cells(),
        claims.halo.len() == t.dims().cells(),
        0 <= i < committed.len(),
    ensures
        watched(
            t,
            committed.update(i, Some(p)),
            groups,
            crate::halo::stamped(&t.grid, t.geo, claims, p, groups[i]),
        ),
{
    let now = committed.update(i, Some(p));
    let s = crate::halo::stamped(&t.grid, t.geo, claims, p, groups[i]);
    assert forall|j: int, c: CellIdx|
        #![trigger guards(t, now, j, c)]
        guards(t, now, j, c) implies {
        ||| s.owner[c as int] != Claim::Free
        ||| s.halo[c as int] == Claim::Mixed
        ||| s.halo[c as int] == Claim::Group(groups[j])
    } by {
        if j != i {
            assert(guards(t, committed, j, c));
        }
    }
}

/// Committing a group keeps the cells around all copper watched.
proof fn lemma_place_watched(
    t: Task,
    groups: Seq<usize>,
    paths: Seq<Seq<CellIdx>>,
    s: Commit,
    g: usize,
    k: nat,
)
    requires
        t.wf(),
        crate::task::all_walk(t, paths),
        crate::commit::sound(t, s.committed, groups, s.claims),
        watched(t, s.committed, groups, s.claims),
        forall|i: int|
            0 <= i < t.nets.len() && groups[i] == g ==> (#[trigger] s.committed[i]) is None,
        k <= t.nets.len(),
    ensures
        ({
            let all = chosen(t, groups, paths, s, g, t.nets.len());
            watched(
                t,
                chosen(t, groups, paths, s, g, k),
                groups,
                group_claims(t, groups, all, s.claims, g, k),
            )
        }),
    decreases k,
{
    let all = chosen(t, groups, paths, s, g, t.nets.len());
    if k == 0 {
        assert(chosen(t, groups, paths, s, g, 0) =~= s.committed);
    } else {
        let k1 = (k - 1) as nat;
        lemma_place_watched(t, groups, paths, s, g, k1);
        lemma_place_sound(t, groups, paths, s, g, k1);
        let before = chosen(t, groups, paths, s, g, k1);
        let after = chosen(t, groups, paths, s, g, k);
        let claims = group_claims(t, groups, all, s.claims, g, k1);
        if groups[k - 1] == g && all[k - 1] is Some {
            let p = all[k - 1]->0;
            lemma_stamp_watched(t, before, groups, claims, k - 1, p);
            assert(before.update(k - 1, Some(p)) =~= after);
        } else {
            assert forall|i: int| 0 <= i < before.len() implies before[i] == after[i] by {
                if i == k - 1 && groups[i] == g {
                    assert(s.committed[i] is None);
                    assert(all[i] is None);
                }
            }
            assert(before =~= after);
        }
    }
}

/// Committing groups in any order keeps the cells around all copper watched.
proof fn lemma_order_watched(
    t: Task,
    groups: Seq<usize>,
    paths: Seq<Seq<CellIdx>>,
    order: Seq<usize>,
    k: nat,
)
    requires
        t.wf(),
        groups.len() == t.nets.len(),
        crate::task::all_walk(t, paths),
        no_repeats(order),
        k <= order.len(),
    ensures
        ({
            let s = in_order(t, groups, paths, order, k);
            watched(t, s.committed, groups, s.claims)
        }),
    decreases k,
{
    if k > 0 {
        let k1 = (k - 1) as nat;
        lemma_order_watched(t, groups, paths, order, k1);
        lemma_order_sound(t, groups, paths, order, k1);
        let s = in_order(t, groups, paths, order, k1);
        let g = order[k - 1];
        assert forall|i: int| 0 <= i < t.nets.len() && groups[i] == g implies (
        #[trigger] s.committed[i]) is None by {
            lemma_not_yet(t, groups, paths, order, k1, i);
        }
        lemma_place_watched(t, groups, paths, s, g, t.nets.len());
    }
}

/// What a group has committed stays as it is.
pub proof fn lemma_kept(
    t: Task,
    groups: Seq<usize>,
    paths: Seq<Seq<CellIdx>>,
    order: Seq<usize>,
    a: int,
    k: nat,
    i: int,
)
    requires
        no_repeats(order),
        0 <= a < k <= order.len(),
        0 <= i < t.nets.len(),
        groups[i] == order[a],
    ensures
        in_order(t, groups, paths, order, k).committed[i] == choice(
            t,
            paths,
            in_order(t, groups, paths, order, a as nat).claims,
            i,
            order[a],
        ),
    decreases k,
{
    if k > a + 1 {
        lemma_kept(t, groups, paths, order, a, (k - 1) as nat, i);
        assert(order[a] != order[k - 1]);
    }
}

/// A net that is committed after one of another group keeps clear of it: none of its
/// cells is around the other's copper, but for its own ends and for masked pads of its
/// own.
pub proof fn law_later_nets_keep_clear(
    t: Task,
    groups: Seq<usize>,
    paths: Seq<Seq<CellIdx>>,
    order: Seq<usize>,
    a: int,
    b: int,
    i: int,
    j: int,
    c: CellIdx,
)
    requires
        t.wf(),
        groups.len() == t.nets.len(),
        crate::task::all_walk(t, paths),
        no_repeats(order),
        0 <= a < b < order.len(),
        0 <= i < t.nets.len(),
        0 <= j < t.nets.len(),
        groups[i] == order[a],
        groups[j] == order[b],
        legalized(t, groups, paths, order)[i] is Some,
        legalized(t, groups, paths, order)[j] is Some,
        (legalized(t, groups, paths, order)[j]->0).contains(c),
        crate::halo::crowds(&t.grid, t.geo, legalized(t, groups, paths, order)[i]->0, c),
    ensures
        t.is_end(j, c) || t.grid.obstacle(c) && t.is_pad(j, c),
{
    let n = order.len();
    let end = legalized(t, groups, paths, order);
    let s = in_order(t, groups, paths, order, b as nat);
    lemma_kept(t, groups, paths, order, a, n, i);
    lemma_kept(t, groups, paths, order, a, b as nat, i);
    lemma_kept(t, groups, paths, order, b, n, j);
    lemma_order_sound(t, groups, paths, order, b as nat);
    lemma_order_watched(t, groups, paths, order, b as nat);
    lemma_choice_fits(t, paths, s.claims, j, order[b]);
    let p = s.committed[i]->0;
    let q = end[j]->0;
    assert(crate::task::own_walk(t, i, p));
    assert forall|m: int| 0 <= m < p.len() implies t.grid.dims.has(#[trigger] p[m]) by {
        assert(t.dims().has(p[m]));
    }
    crate::halo::lemma_halo_cells(&t.grid, t.geo, p, c);
    let k = choose|k: int| 0 <= k < q.len() && q[k] == c;
    assert(t.dims().has(q[k]));
    assert(!t.bars(j, q[k]));
    assert(!t.grid.obstacle(c) ==> guards(t, s.committed, i, c));
    assert(!s.claims.owner[q[k] as int].foreign(order[b]));
    if t.grid.obstacle(c) {
    } else if s.claims.owner[c as int] != Claim::Free {
        let h = choose|h: int| #[trigger]
            crate::commit::holds(s.committed, h, c) && s.claims.owner[c as int] == Claim::Group(
                groups[h],
            );
        assert forall|x: int| 0 <= x < b implies #[trigger] order[x] != groups[h] by {
            assert(order[x] != order[b]);
        }
        lemma_not_yet(t, groups, paths, order, b as nat, h);
    } else {
        assert(order[a] != order[b]);
        assert(crate::legal::contested(s.claims, order[b], c));
    }
}

/// Whether the path can be committed for group `g` as it is.
fn is_clean(owner: &Vec<Claim>, halo: &Vec<Claim>, g: usize, path: &Vec<CellIdx>) -> (b: bool)
    requires
        owner@.len() == halo@.len(),
        forall|k: int| 0 <= k < path@.len() ==> #[trigger] path@[k] < owner@.len(),
    ensures
        b == clean(crate::halo::claims_view(owner@, halo@), g, path@),
{
    if path.len() == 0 {
        return false;
    }
    let mut k: usize = 0;
    while k < path.len()
        invariant
            k <= path@.len(),
            owner@.len() == halo@.len(),
            forall|k: int| 0 <= k < path@.len() ==> #[trigger] path@[k] < owner@.len(),
            forall|j: int|
                0 <= j < k ==> !owner@[(#[trigger] path@[j]) as int].foreign(g)
                    && !halo@[path@[j] as int].foreign(g),
        decreases path@.len() - k,
    {
        let c: usize = path[k] as usize;
        if owner[c].is_foreign(g) || halo[c].is_foreign(g) {
            assert(owner@[path@[k as int] as int].foreign(g) || halo@[path@[k as int] as int].foreign(
                g,
            ));
            return false;
        }
        k += 1;
    }
    true
}

/// Group `g` commits its paths.
fn place_group(
    p: &Problem,
    groups: &Vec<usize>,
    paths: &Vec<Vec<CellIdx>>,
    g: usize,
    committed: &mut Committed,
    owner: &mut Vec<Claim>,
    halo: &mut Vec<Claim>,
    buf: &mut SearchBuf,
    pads: &mut PadSet,
)
    requires
        p.wf(),
        groups@.len() == p.nets@.len(),
        crate::task::all_walk(p.task(), crate::negotiate::paths_view(paths@)),
        old(committed)@.len() == p.nets@.len(),
        old(owner)@.len() == p.task().dims().cells(),
        old(halo)@.len() == p.task().dims().cells(),
        old(buf).wf(p.task().dims().cells()),
        old(pads).wf(),
        old(pads).cells() == p.task().dims().cells(),
    ensures
        final(buf).wf(p.task().dims().cells()),
        final(pads).wf(),
        final(pads).cells() == p.task().dims().cells(),
        final(committed)@.len() == p.nets@.len(),
        final(owner)@.len() == p.task().dims().cells(),
        final(halo)@.len() == p.task().dims().cells(),
        (Commit {
            committed: crate::halo::committed_view(final(committed)@),
            claims: crate::halo::claims_view(final(owner)@, final(halo)@),
        }) == place(
            p.task(),
            groups@,
            crate::negotiate::paths_view(paths@),
            (Commit {
                committed: crate::halo::committed_view(old(committed)@),
                claims: crate::halo::claims_view(old(owner)@, old(halo)@),
            }),
            g,
        ),
{
    let ghost t = p.task();
    let ghost pv = crate::negotiate::paths_view(paths@);
    let ghost s = Commit {
        committed: crate::halo::committed_view(committed@),
        claims: crate::halo::claims_view(owner@, halo@),
    };
    let n: usize = p.nets.len();
    let mut i: usize = 0;
    assert(crate::halo::committed_view(committed@) =~= chosen(t, groups@, pv, s, g, 0));
    while i < n
        invariant
            p.wf(),
            t == p.task(),
            n == p.nets@.len(),
            groups@.len() == n,
            pv == crate::negotiate::paths_view(paths@),
            crate::task::all_walk(t, pv),
            owner@.len() == t.dims().cells(),
            halo@.len() == t.dims().cells(),
            s.claims == crate::halo::claims_view(owner@, halo@),
            s.committed.len() == n,
            i <= n,
            buf.wf(t.dims().cells()),
            pads.wf(),
            pads.cells() == t.dims().cells(),
            committed@.len() == n,
            crate::halo::committed_view(committed@) == chosen(t, groups@, pv, s, g, i as nat),
        decreases n - i,
    {
        let ghost before = crate::halo::committed_view(committed@);
        if groups[i] == g {
            let path = &paths[i];
            proof {
                assert(pv[i as int] == path@);
                assert forall|k: int| 0 <= k < path@.len() implies #[trigger] path@[k]
                    < owner@.len() by {
                    assert(crate::task::own_walk(t, i as int, path@));
                    assert(t.dims().has(path@[k]));
                }
            }
            let pick = if is_clean(owner, halo, g, path) {
                Some(copy_cells(path))
            } else {
                find_legal(buf, pads, p, i, g, owner, halo, true)
            };
            assert(crate::negotiate::opt_view(pick) == choice(t, pv, s.claims, i as int, g));
            let ghost pick_view = crate::negotiate::opt_view(pick);
            committed.set(i, pick);
            assert(crate::halo::committed_view(committed@) =~= before.update(i as int, pick_view));
        }
        assert(crate::halo::committed_view(committed@) =~= chosen(
            t,
            groups@,
            pv,
            s,
            g,
            (i + 1) as nat,
        ));
        i += 1;
    }
    let ghost all = crate::halo::committed_view(committed@);
    let mut k: usize = 0;
    while k < n
        invariant
            p.wf(),
            t == p.task(),
            n == p.nets@.len(),
            groups@.len() == n,
            crate::task::all_walk(t, pv),
            committed@.len() == n,
            all == crate::halo::committed_view(committed@),
            all == chosen(t, groups@, pv, s, g, n as nat),
            owner@.len() == t.dims().cells(),
            halo@.len() == t.dims().cells(),
            k <= n,
            crate::halo::claims_view(owner@, halo@) == group_claims(
                t,
                groups@,
                all,
                s.claims,
                g,
                k as nat,
            ),
        decreases n - k,
    {
        if groups[k] == g {
            if let Some(path) = &committed[k] {
                proof {
                    assert(all[k as int] == Some(path@));
                    lemma_choice_fits(t, pv, s.claims, k as int, g);
                    assert forall|m: int| 0 <= m < path@.len() implies t.grid.dims.has(
                        #[trigger] path@[m],
                    ) by {
                        assert(t.dims().has(path@[m]));
                    }
                }
                let ghost was = crate::halo::claims_view(owner@, halo@);
                stamp_owner(owner, halo, p.grid, p.geo, path, g);
                proof {
                    let now = crate::halo::stamped(&t.grid, t.geo, was, path@, g);
                    assert(crate::halo::claims_view(owner@, halo@).owner == now.owner);
                    assert(crate::halo::claims_view(owner@, halo@).halo == now.halo);
                }
            }
        }
        assert(all[k as int] is Some == committed@[k as int] is Some);
        k += 1;
    }
}

/// Commits the groups in the given order.
pub fn legalize_in_order(
    p: &Problem,
    groups: &Vec<usize>,
    paths: &Vec<Vec<CellIdx>>,
    order: &Vec<usize>,
) -> (committed: Committed)
    requires
        p.wf(),
        groups@.len() == p.nets@.len(),
        crate::task::all_walk(p.task(), crate::negotiate::paths_view(paths@)),
    ensures
        crate::halo::committed_view(committed@) == legalized(
            p.task(),
            groups@,
            crate::negotiate::paths_view(paths@),
            order@,
        ),
        committed@.len() == p.nets@.len(),
{
    let ghost t = p.task();
    let ghost pv = crate::negotiate::paths_view(paths@);
    let n: usize = p.grid.dims.len();
    let mut buf = SearchBuf::new(n);
    let mut pads = PadSet::new(n);
    let mut owner: Vec<Claim> = vec![Claim::Free; n];
    let mut halo: Vec<Claim> = vec![Claim::Free; n];
    let mut committed: Committed = no_paths(p.nets.len());
    proof {
        assert(crate::halo::committed_view(committed@) =~= commit_start(t).committed);
        assert(crate::halo::claims_view(owner@, halo@) =~= commit_start(t).claims);
    }
    let mut k: usize = 0;
    while k < order.len()
        invariant
            p.wf(),
            t == p.task(),
            groups@.len() == p.nets@.len(),
            pv == crate::negotiate::paths_view(paths@),
            crate::task::all_walk(t, pv),
            committed@.len() == p.nets@.len(),
            owner@.len() == t.dims().cells(),
            halo@.len() == t.dims().cells(),
            buf.wf(t.dims().cells()),
            pads.wf(),
            pads.cells() == t.dims().cells(),
            k <= order@.len(),
            (Commit {
                committed: crate::halo::committed_view(committed@),
                claims: crate::halo::claims_view(owner@, halo@),
            }) == in_order(t, groups@, pv, order@, k as nat),
        decreases order@.len() - k,
    {
        place_group(
            p,
            groups,
            paths,
            order[k],
            &mut committed,
            &mut owner,
            &mut halo,
            &mut buf,
            &mut pads,
        );
        k += 1;
    }
    committed
}

/// No path for any of `n` nets.
pub fn no_paths(n: usize) -> (c: Committed)
    ensures
        c@.len() == n,
        forall|i: int| 0 <= i < n ==> (#[trigger] c@[i]) is None,
{
    let mut c: Committed = Vec::new();
    let mut i: usize = 0;
    while i < n
        invariant
            i <= n,
            c@.len() == i,
            forall|j: int| 0 <= j < i ==> (#[trigger] c@[j]) is None,
        decreases n - i,
    {
        c.push(None);
        i += 1;
    }
    c
}

} // verus!
