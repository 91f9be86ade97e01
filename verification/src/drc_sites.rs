//! Which records of vias describe the same hole.
//!
//! Vias are taken in order. The first via of a site is its anchor; a later one of the
//! same net that is close enough to the anchor joins the site.
use vstd::prelude::*;

use crate::drc::Via;
use crate::sorting::{push_text, sorted_order};

verus! {

/// A via in numbers that are ordered as its measurements are.
#[derive(Clone, Copy, Debug, PartialEq, Eq)]
pub struct ViaNumbers {
    /// Where it is, across.
    pub x: i64,
    /// Where it is, up.
    pub y: i64,
    /// How wide its copper is.
    pub pad: i64,
    /// How wide its hole is.
    pub drill: i64,
    /// How wide the hole is that planes leave for it.
    pub antipad: Option<i64>,
}

/// What vias are sorted by: net, place, layers, sizes.
pub open spec fn via_key<N>(v: Via<N>, n: ViaNumbers) -> Seq<i64> {
    crate::sorting::text_key(v.net@) + seq![
        n.x,
        n.y,
        crate::drc::low(v.from_layer, v.to_layer) as i64,
        crate::drc::high(v.from_layer, v.to_layer) as i64,
        n.pad,
        n.drill,
        if n.antipad is Some {
            1i64
        } else {
            0i64
        },
        match n.antipad {
            Some(r) => r,
            None => 0i64,
        },
    ]
}

/// The keys of vias.
pub open spec fn via_keys<N>(vias: Seq<Via<N>>, numbers: Seq<ViaNumbers>) -> Seq<Seq<i64>> {
    Seq::new(vias.len(), |i: int| via_key(vias[i], numbers[i]))
}

/// The vias in order, by their places in the list.
pub fn sort_vias<N>(vias: &Vec<Via<N>>, numbers: &Vec<ViaNumbers>) -> (order: Vec<usize>)
    requires
        vias@.len() == numbers@.len(),
    ensures
        crate::sorting::is_order(via_keys(vias@, numbers@), order@),
        order@ == crate::sorting::order_of(via_keys(vias@, numbers@)),
{
    let mut keys: Vec<Vec<i64>> = Vec::new();
    let mut i: usize = 0;
    while i < vias.len()
        invariant
            i <= vias@.len(),
            vias@.len() == numbers@.len(),
            keys@.len() == i,
            forall|j: int| 0 <= j < i ==> (#[trigger] keys@[j])@ == via_key(vias@[j], numbers@[j]),
        decreases vias@.len() - i,
    {
        let v: &Via<N> = &vias[i];
        let n: ViaNumbers = numbers[i];
        let lo: u32 = if v.from_layer < v.to_layer {
            v.from_layer
        } else {
            v.to_layer
        };
        let hi: u32 = if v.from_layer < v.to_layer {
            v.to_layer
        } else {
            v.from_layer
        };
        let mut key: Vec<i64> = Vec::new();
        push_text(&mut key, &v.net);
        key.push(n.x);
        key.push(n.y);
        key.push(lo as i64);
        key.push(hi as i64);
        key.push(n.pad);
        key.push(n.drill);
        match n.antipad {
            Some(r) => {
                key.push(1);
                key.push(r);
            },
            None => {
                key.push(0);
                key.push(0);
            },
        }
        assert(key@ =~= via_key(*v, n));
        keys.push(key);
        i += 1;
    }
    assert(keys.deep_view() =~= via_keys(vias@, numbers@)) by {
        assert forall|j: int| 0 <= j < keys@.len() implies keys.deep_view()[j] == via_keys(
            vias@,
            numbers@,
        )[j] by {
            assert(keys@[j].deep_view() =~= keys@[j]@);
        }
    }
    sorted_order(&keys)
}

/// An earlier via of the same net that is close to a via.
#[derive(Clone, Copy, Debug, PartialEq, Eq)]
pub struct Neighbour {
    /// Its place in the order.
    pub at: usize,
    /// The two are the same in everything.
    pub same: bool,
}

impl DeepView for Neighbour {
    type V = Neighbour;

    open spec fn deep_view(&self) -> Neighbour {
        *self
    }
}

/// The via at that place is close.
pub open spec fn is_close(near: Seq<Neighbour>, at: usize) -> bool {
    exists|m: int| 0 <= m < near.len() && (#[trigger] near[m]).at == at
}

/// The via at that place is the same in everything.
pub open spec fn is_same(near: Seq<Neighbour>, at: usize) -> bool {
    exists|m: int| 0 <= m < near.len() && (#[trigger] near[m]).at == at && near[m].same
}

/// The first site whose anchor is close.
pub open spec fn is_host(sites: Seq<Seq<usize>>, near: Seq<Neighbour>, s: int) -> bool {
    &&& 0 <= s < sites.len()
    &&& is_close(near, sites[s][0])
    &&& forall|t: int| 0 <= t < s ==> !is_close(near, #[trigger] sites[t][0])
}

/// The sites with via `k`: it joins the first site whose anchor is close, unless it is
/// the same as the last via there, or else it makes a new site.
pub open spec fn joined(sites: Seq<Seq<usize>>, near: Seq<Neighbour>, k: usize) -> Seq<Seq<usize>> {
    if exists|s: int| is_host(sites, near, s) {
        let s = choose|s: int| is_host(sites, near, s);
        if is_same(near, sites[s].last()) {
            sites
        } else {
            sites.update(s, sites[s].push(k))
        }
    } else {
        sites.push(seq![k])
    }
}

/// The sites of the first `n` vias.
pub open spec fn sites_upto(near: Seq<Seq<Neighbour>>, n: nat) -> Seq<Seq<usize>>
    decreases n,
{
    if n == 0 {
        seq![]
    } else {
        joined(sites_upto(near, (n - 1) as nat), near[n - 1], (n - 1) as usize)
    }
}

/// Neighbours come before.
pub open spec fn are_earlier(near: Seq<Seq<Neighbour>>) -> bool {
    forall|k: int, m: int|
        0 <= k < near.len() && 0 <= m < near[k].len() ==> (#[trigger] near[k][m]).at < k
}

/// Sites are not empty, hold places below `n`, and have different anchors.
spec fn sites_ok(sites: Seq<Seq<usize>>, n: int) -> bool {
    &&& forall|s: int| 0 <= s < sites.len() ==> (#[trigger] sites[s]).len() > 0
    &&& forall|s: int, m: int|
        0 <= s < sites.len() && 0 <= m < sites[s].len() ==> (#[trigger] sites[s][m]) < n
    &&& forall|s: int, t: int|
        0 <= s < sites.len() && 0 <= t < sites.len() && s != t ==> (#[trigger] sites[s])[0] != (
        #[trigger] sites[t])[0]
}

/// Whether the via at that place is the same in everything.
fn has_same(near: &Vec<Neighbour>, at: usize) -> (r: bool)
    ensures
        r == is_same(near@, at),
{
    let mut i: usize = 0;
    while i < near.len()
        invariant
            i <= near@.len(),
            forall|m: int| 0 <= m < i ==> !((#[trigger] near@[m]).at == at && near@[m].same),
        decreases near@.len() - i,
    {
        if near[i].at == at && near[i].same {
            assert(near@[i as int].at == at && near@[i as int].same);
            return true;
        }
        i += 1;
    }
    false
}

/// For each via, the site that it is the anchor of.
spec fn knows_anchors(sites: Seq<Seq<usize>>, anchor_of: Seq<Option<usize>>) -> bool {
    &&& forall|s: int|
        0 <= s < sites.len() ==> anchor_of[(#[trigger] sites[s])[0] as int] == Some(s as usize)
    &&& forall|p: int|
        0 <= p < anchor_of.len() && (#[trigger] anchor_of[p]) is Some ==> anchor_of[p]->0
            < sites.len() && sites[anchor_of[p]->0 as int][0] == p
}

/// The first site whose anchor is close.
fn find_host(near: &Vec<Neighbour>, anchor_of: &Vec<Option<usize>>, Ghost(sites): Ghost<
    Seq<Seq<usize>>,
>) -> (r: Option<usize>)
    requires
        knows_anchors(sites, anchor_of@),
        sites_ok(sites, anchor_of@.len() as int),
        sites.len() <= usize::MAX,
        forall|m: int| 0 <= m < near@.len() ==> (#[trigger] near@[m]).at < anchor_of@.len(),
    ensures
        match r {
            Some(s) => is_host(sites, near@, s as int),
            None => forall|s: int| !is_host(sites, near@, s),
        },
{
    let mut best: Option<usize> = None;
    let mut i: usize = 0;
    while i < near.len()
        invariant
            i <= near@.len(),
            knows_anchors(sites, anchor_of@),
            sites_ok(sites, anchor_of@.len() as int),
            sites.len() <= usize::MAX,
            forall|m: int| 0 <= m < near@.len() ==> (#[trigger] near@[m]).at < anchor_of@.len(),
            match best {
                Some(s) => {
                    &&& s < sites.len()
                    &&& is_close(near@.take(i as int), sites[s as int][0])
                    &&& forall|t: int|
                        0 <= t < s ==> !is_close(near@.take(i as int), #[trigger] sites[t][0])
                },
                None => forall|t: int|
                    0 <= t < sites.len() ==> !is_close(
                        near@.take(i as int),
                        #[trigger] sites[t][0],
                    ),
            },
        decreases near@.len() - i,
    {
        let at: usize = near[i].at;
        let ghost seen = near@.take(i as int);
        let ghost now = near@.take(i + 1);
        proof {
            assert(near@[i as int].at < anchor_of@.len());
            assert forall|x: usize| is_close(now, x) <==> is_close(seen, x) || x == at by {
                if is_close(seen, x) {
                    let m = choose|m: int| 0 <= m < seen.len() && (#[trigger] seen[m]).at == x;
                    assert(now[m].at == x);
                }
                if x == at {
                    assert(now[i as int].at == x);
                }
                if is_close(now, x) && x != at {
                    let m = choose|m: int| 0 <= m < now.len() && (#[trigger] now[m]).at == x;
                    assert(seen[m].at == x);
                }
            }
        }
        match anchor_of[at] {
            Some(s) => {
                assert(sites[s as int][0] == at);
                let lower: bool = match best {
                    Some(b) => s < b,
                    None => true,
                };
                proof {
                    assert forall|t: int| 0 <= t < sites.len() && t != s implies (#[trigger] sites[t])[0]
                        != at by {
                        assert(sites[s as int][0] != sites[t][0]);
                    }
                }
                if lower {
                    best = Some(s);
                }
            },
            None => {
                proof {
                    assert forall|t: int| 0 <= t < sites.len() implies (#[trigger] sites[t])[0]
                        != at by {
                        assert(anchor_of@[sites[t][0] as int] == Some(t as usize));
                    }
                }
            },
        }
        i += 1;
    }
    assert(near@.take(i as int) =~= near@);
    best
}

/// A site that is host is the only one.
proof fn lemma_one_host(sites: Seq<Seq<usize>>, near: Seq<Neighbour>, s: int, t: int)
    requires
        is_host(sites, near, s),
        is_host(sites, near, t),
    ensures
        s == t,
{
    if s < t {
        assert(!is_close(near, sites[s][0]));
    } else if t < s {
        assert(!is_close(near, sites[t][0]));
    }
}

/// The sites of vias, each by its places in the order.
pub fn merge_sites(near: &Vec<Vec<Neighbour>>) -> (sites: Vec<Vec<usize>>)
    requires
        are_earlier(near.deep_view()),
    ensures
        sites.deep_view() == sites_upto(near.deep_view(), near@.len()),
{
    let ghost all = near.deep_view();
    let mut sites: Vec<Vec<usize>> = Vec::new();
    let mut anchor_of: Vec<Option<usize>> = Vec::new();
    let mut k: usize = 0;
    assert(sites.deep_view() =~= sites_upto(all, 0));
    while k < near.len()
        invariant
            k <= near@.len(),
            all == near.deep_view(),
            are_earlier(all),
            anchor_of@.len() == k,
            sites.deep_view() == sites_upto(all, k as nat),
            sites_ok(sites.deep_view(), k as int),
            knows_anchors(sites.deep_view(), anchor_of@),
        decreases near@.len() - k,
    {
        let ghost before = sites.deep_view();
        let ghost known = anchor_of@;
        let ghost mine = all[k as int];
        proof {
            assert(mine =~= near@[k as int]@) by {
                assert forall|m: int| 0 <= m < mine.len() implies mine[m]
                    == near@[k as int]@[m] by {}
            }
            assert forall|m: int| 0 <= m < near@[k as int]@.len() implies (
            #[trigger] near@[k as int]@[m]).at < anchor_of@.len() by {
                assert(all[k as int][m].at < k);
            }
        }
        let count: usize = sites.len();
        match find_host(&near[k], &anchor_of, Ghost(before)) {
            Some(s) => {
                proof {
                    assert forall|t: int| is_host(before, mine, t) implies t == s by {
                        lemma_one_host(before, mine, s as int, t);
                    }
                    assert(before[s as int] =~= sites@[s as int]@);
                }
                let size: usize = sites[s].len();
                let last: usize = sites[s][size - 1];
                if !has_same(&near[k], last) {
                    let mut site: Vec<usize> = copy_site(&sites[s]);
                    site.push(k);
                    sites.set(s, site);
                    proof {
                        assert(site.deep_view() =~= before[s as int].push(k));
                        assert(sites.deep_view() =~= before.update(
                            s as int,
                            before[s as int].push(k),
                        ));
                    }
                }
                anchor_of.push(None);
                proof {
                    lemma_kept(before, sites.deep_view(), s as int, k, known, anchor_of@);
                }
            },
            None => {
                let site: Vec<usize> = vec![k];
                sites.push(site);
                anchor_of.push(Some(count));
                proof {
                    assert(site.deep_view() =~= seq![k]);
                    assert(sites.deep_view() =~= before.push(seq![k]));
                    lemma_opened(before, sites.deep_view(), k, known, anchor_of@);
                }
            },
        }
        k += 1;
    }
    sites
}

/// A site that grew keeps the others and all anchors as they were.
proof fn lemma_kept(
    before: Seq<Seq<usize>>,
    after: Seq<Seq<usize>>,
    s: int,
    k: usize,
    known: Seq<Option<usize>>,
    now: Seq<Option<usize>>,
)
    requires
        sites_ok(before, k as int),
        knows_anchors(before, known),
        known.len() == k,
        now == known.push(None),
        0 <= s < before.len(),
        after == before || after == before.update(s, before[s].push(k)),
    ensures
        sites_ok(after, k + 1),
        knows_anchors(after, now),
{
    assert forall|t: int| 0 <= t < after.len() implies (#[trigger] after[t])[0] == before[t][0]
        && after[t].len() > 0 by {
        assert(before[t].len() > 0);
    }
    assert forall|t: int, m: int|
        0 <= t < after.len() && 0 <= m < after[t].len() implies (#[trigger] after[t][m]) < k
        + 1 by {
        if m < before[t].len() {
            assert(before[t][m] < k);
            assert(after[t][m] == before[t][m]);
        }
    }
    assert forall|t: int, u: int|
        0 <= t < after.len() && 0 <= u < after.len() && t != u implies (#[trigger] after[t])[0] != (
    #[trigger] after[u])[0] by {
        assert(before[t][0] != before[u][0]);
    }
    assert forall|t: int| 0 <= t < after.len() implies now[(#[trigger] after[t])[0] as int] == Some(
        t as usize,
    ) by {
        assert(before[t][0] < k);
        assert(known[before[t][0] as int] == Some(t as usize));
    }
    assert forall|p: int| 0 <= p < now.len() && (#[trigger] now[p]) is Some implies now[p]->0
        < after.len() && after[now[p]->0 as int][0] == p by {
        assert(known[p] is Some);
        assert(before[known[p]->0 as int][0] == p);
    }
}

/// A new site keeps the others as they were.
proof fn lemma_opened(
    before: Seq<Seq<usize>>,
    after: Seq<Seq<usize>>,
    k: usize,
    known: Seq<Option<usize>>,
    now: Seq<Option<usize>>,
)
    requires
        sites_ok(before, k as int),
        knows_anchors(before, known),
        known.len() == k,
        before.len() <= usize::MAX,
        after == before.push(seq![k]),
        now == known.push(Some(before.len() as usize)),
    ensures
        sites_ok(after, k + 1),
        knows_anchors(after, now),
{
    let n = before.len() as int;
    assert forall|t: int, m: int|
        0 <= t < after.len() && 0 <= m < after[t].len() implies (#[trigger] after[t][m]) < k
        + 1 by {
        if t < n {
            assert(before[t][m] < k);
        }
    }
    assert forall|t: int, u: int|
        0 <= t < after.len() && 0 <= u < after.len() && t != u implies (#[trigger] after[t])[0] != (
    #[trigger] after[u])[0] by {
        if t < n {
            assert(before[t][0] < k);
        }
        if u < n {
            assert(before[u][0] < k);
        }
        if t < n && u < n {
            assert(before[t][0] != before[u][0]);
        }
    }
    assert forall|t: int| 0 <= t < after.len() implies now[(#[trigger] after[t])[0] as int] == Some(
        t as usize,
    ) by {
        if t < n {
            assert(before[t][0] < k);
            assert(known[before[t][0] as int] == Some(t as usize));
        }
    }
    assert forall|p: int| 0 <= p < now.len() && (#[trigger] now[p]) is Some implies now[p]->0
        < after.len() && after[now[p]->0 as int][0] == p by {
        if p < k {
            assert(known[p] is Some);
            assert(before[known[p]->0 as int][0] == p);
        }
    }
}

/// The same site.
fn copy_site(site: &Vec<usize>) -> (r: Vec<usize>)
    ensures
        r@ == site@,
{
    let mut r: Vec<usize> = Vec::new();
    let mut i: usize = 0;
    while i < site.len()
        invariant
            i <= site@.len(),
            r@ == site@.take(i as int),
        decreases site@.len() - i,
    {
        r.push(site[i]);
        i += 1;
        assert(r@ =~= site@.take(i as int));
    }
    assert(site@.take(site@.len() as int) =~= site@);
    r
}

/// Every via of a site but the anchor is close to the anchor.
pub proof fn law_sites_gather_around_anchors(near: Seq<Seq<Neighbour>>, n: nat, s: int, m: int)
    requires
        are_earlier(near),
        n <= near.len() <= usize::MAX,
        0 <= s < sites_upto(near, n).len(),
        0 < m < sites_upto(near, n)[s].len(),
    ensures
        sites_upto(near, n)[s][m] < n,
        is_close(near[sites_upto(near, n)[s][m] as int], sites_upto(near, n)[s][0]),
    decreases n,
{
    let before = sites_upto(near, (n - 1) as nat);
    let mine = near[n - 1];
    lemma_sites_filled(near, (n - 1) as nat);
    if exists|h: int| is_host(before, mine, h) {
        let h = choose|h: int| is_host(before, mine, h);
        assert(before[h].len() > 0);
        if s == h && m == before[h].len() {
            assert(before[h].push((n - 1) as usize)[0] == before[h][0]);
        } else {
            law_sites_gather_around_anchors(near, (n - 1) as nat, s, m);
        }
    } else {
        law_sites_gather_around_anchors(near, (n - 1) as nat, s, m);
    }
}

/// No site is empty.
pub proof fn lemma_sites_filled(near: Seq<Seq<Neighbour>>, n: nat)
    requires
        n <= near.len(),
    ensures
        forall|s: int|
            0 <= s < sites_upto(near, n).len() ==> (#[trigger] sites_upto(near, n)[s]).len() > 0,
    decreases n,
{
    if n > 0 {
        lemma_sites_filled(near, (n - 1) as nat);
        let before = sites_upto(near, (n - 1) as nat);
        let after = sites_upto(near, n);
        assert forall|s: int| 0 <= s < after.len() implies (#[trigger] after[s]).len() > 0 by {
            if s < before.len() {
                assert(before[s].len() > 0);
            }
        }
    }
}

} // verus!
