//! What sites of vias are for: which records are of one hole.
use vstd::prelude::*;

use crate::drc_sites::Neighbour;

verus! {

/// The via is close to the other.
pub open spec fn is_beside(near: Seq<Seq<Neighbour>>, k: int, at: int) -> bool {
    exists|m: int| 0 <= m < near[k].len() && (#[trigger] near[k][m]).at == at
}

/// The via is the same as the other in everything.
pub open spec fn is_copy(near: Seq<Seq<Neighbour>>, k: int, at: int) -> bool {
    exists|m: int| 0 <= m < near[k].len() && (#[trigger] near[k][m]).at == at && near[k][m].same
}

/// Via `k` is in the site, or is the same as a via there, close to its first via either way,
/// unless it is that via itself.
pub open spec fn belongs(near: Seq<Seq<Neighbour>>, site: Seq<usize>, k: int) -> bool {
    &&& site.len() > 0
    &&& site[0] == k || is_beside(near, k, site[0] as int)
    &&& exists|m: int|
        0 <= m < site.len() && (#[trigger] site[m] == k || is_copy(near, k, site[m] as int))
}

/// Via `k` belongs to site `s`, and to no site before it.
pub open spec fn is_first_home(
    near: Seq<Seq<Neighbour>>,
    sites: Seq<Seq<usize>>,
    k: int,
    s: int,
) -> bool {
    &&& 0 <= s < sites.len()
    &&& belongs(near, sites[s], k)
    &&& forall|r: int| 0 <= r < s ==> !is_beside(near, k, (#[trigger] sites[r])[0] as int)
}

proof fn lemma_near(near: Seq<Seq<Neighbour>>, k: int, at: usize)
    ensures
        is_beside(near, k, at as int) <==> crate::drc_sites::is_close(near[k], at),
        is_copy(near, k, at as int) <==> crate::drc_sites::is_same(near[k], at),
{
    if crate::drc_sites::is_close(near[k], at) {
        let m = choose|m: int| 0 <= m < near[k].len() && (#[trigger] near[k][m]).at == at;
        assert(near[k][m].at == at as int);
    }
    if crate::drc_sites::is_same(near[k], at) {
        let m = choose|m: int|
            0 <= m < near[k].len() && (#[trigger] near[k][m]).at == at && near[k][m].same;
        assert(near[k][m].at == at as int);
    }
    if is_beside(near, k, at as int) {
        let m = choose|m: int| 0 <= m < near[k].len() && (#[trigger] near[k][m]).at == at as int;
        assert(near[k][m].at == at);
    }
    if is_copy(near, k, at as int) {
        let m = choose|m: int|
            0 <= m < near[k].len() && (#[trigger] near[k][m]).at == at as int && near[k][m].same;
        assert(near[k][m].at == at);
    }
}

proof fn lemma_some_host(sites: Seq<Seq<usize>>, mine: Seq<Neighbour>, s: int)
    requires
        0 <= s < sites.len(),
        crate::drc_sites::is_close(mine, sites[s][0]),
    ensures
        exists|h: int| crate::drc_sites::is_host(sites, mine, h),
    decreases s,
{
    if exists|t: int| 0 <= t < s && crate::drc_sites::is_close(mine, #[trigger] sites[t][0]) {
        let t = choose|t: int|
            0 <= t < s && crate::drc_sites::is_close(mine, #[trigger] sites[t][0]);
        lemma_some_host(sites, mine, t);
    } else {
        assert(crate::drc_sites::is_host(sites, mine, s));
    }
}

/// Sites only grow, and keep their first vias.
proof fn lemma_step(near: Seq<Seq<Neighbour>>, n: nat)
    requires
        0 < n <= near.len() <= usize::MAX,
    ensures
        ({
            let before = crate::drc_sites::sites_upto(near, (n - 1) as nat);
            let after = crate::drc_sites::sites_upto(near, n);
            &&& before.len() <= after.len()
            &&& forall|s: int| 0 <= s < after.len() ==> (#[trigger] after[s]).len() > 0
            &&& forall|s: int|
                0 <= s < before.len() ==> (#[trigger] before[s]).len() > 0 && before[s].len()
                    <= after[s].len() && after[s].take(before[s].len() as int) == before[s]
        }),
{
    crate::drc_sites::lemma_sites_filled(near, (n - 1) as nat);
    crate::drc_sites::lemma_sites_filled(near, n);
    let before = crate::drc_sites::sites_upto(near, (n - 1) as nat);
    let after = crate::drc_sites::sites_upto(near, n);
    assert forall|s: int| 0 <= s < before.len() implies (#[trigger] before[s]).len() > 0
        && before[s].len() <= after[s].len() && after[s].take(before[s].len() as int)
        == before[s] by {
        assert(after[s].take(before[s].len() as int) =~= before[s]);
    }
}

/// Every via has a site: the first whose first via it is close to. It stands there, unless it
/// is the same as one that does; a via that is close to no first via has a site of its own.
pub proof fn law_every_via_has_a_site(near: Seq<Seq<Neighbour>>, n: nat, k: int)
    requires
        n <= near.len() <= usize::MAX,
        0 <= k < n,
        crate::drc_sites::are_earlier(near),
    ensures
        exists|s: int| #[trigger]
            is_first_home(near, crate::drc_sites::sites_upto(near, n), k, s),
    decreases n,
{
    let before = crate::drc_sites::sites_upto(near, (n - 1) as nat);
    let after = crate::drc_sites::sites_upto(near, n);
    lemma_step(near, n);
    if k < n - 1 {
        law_every_via_has_a_site(near, (n - 1) as nat, k);
        let s = choose|s: int| #[trigger] is_first_home(near, before, k, s);
        let (a, b) = (before[s], after[s]);
        assert(a == b.take(a.len() as int));
        let m = choose|m: int|
            0 <= m < a.len() && (#[trigger] a[m] == k || is_copy(near, k, a[m] as int));
        assert(b[m] == a[m] && b[0] == a[0]);
        assert forall|r: int| 0 <= r < s implies !is_beside(
            near,
            k,
            (#[trigger] after[r])[0] as int,
        ) by {
            assert(before[r] == after[r].take(before[r].len() as int));
            assert(after[r][0] == before[r][0]);
        }
        assert(is_first_home(near, after, k, s));
    } else {
        let mine = near[k];
        if exists|h: int| crate::drc_sites::is_host(before, mine, h) {
            let h = choose|h: int| crate::drc_sites::is_host(before, mine, h);
            lemma_near(near, k, before[h][0]);
            lemma_near(near, k, before[h].last());
            assert(before[h].len() > 0);
            assert forall|r: int| 0 <= r < h implies !is_beside(
                near,
                k,
                (#[trigger] after[r])[0] as int,
            ) by {
                lemma_near(near, k, before[r][0]);
                assert(!crate::drc_sites::is_close(mine, before[r][0]));
            }
            if crate::drc_sites::is_same(mine, before[h].last()) {
                let m = before[h].len() - 1;
                assert(after[h][m] == before[h].last());
                assert(is_copy(near, k, after[h][m] as int));
            } else {
                let m = before[h].len() as int;
                assert(after[h][m] == k);
            }
            assert(is_first_home(near, after, k, h));
        } else {
            let s = before.len() as int;
            assert(after[s][0] == k);
            assert forall|r: int| 0 <= r < s implies !is_beside(
                near,
                k,
                (#[trigger] after[r])[0] as int,
            ) by {
                lemma_near(near, k, before[r][0]);
                if crate::drc_sites::is_close(mine, before[r][0]) {
                    lemma_some_host(before, mine, r);
                }
            }
            assert(is_first_home(near, after, k, s));
        }
    }
}

/// Sites are apart: the first via of none is close to that of one before it.
pub proof fn law_sites_are_apart(near: Seq<Seq<Neighbour>>, n: nat, s: int, r: int)
    requires
        n <= near.len() <= usize::MAX,
        0 <= r < s < crate::drc_sites::sites_upto(near, n).len(),
    ensures
        ({
            let sites = crate::drc_sites::sites_upto(near, n);
            !is_beside(near, sites[s][0] as int, sites[r][0] as int)
        }),
    decreases n,
{
    let before = crate::drc_sites::sites_upto(near, (n - 1) as nat);
    let after = crate::drc_sites::sites_upto(near, n);
    lemma_step(near, n);
    if s < before.len() {
        law_sites_are_apart(near, (n - 1) as nat, s, r);
        assert(before[s] == after[s].take(before[s].len() as int));
        assert(before[r] == after[r].take(before[r].len() as int));
        assert(after[s][0] == before[s][0] && after[r][0] == before[r][0]);
    } else {
        let mine = near[n - 1];
        lemma_near(near, n - 1, before[r][0]);
        if crate::drc_sites::is_close(mine, before[r][0]) {
            lemma_some_host(before, mine, r);
        }
    }
}

} // verus!
