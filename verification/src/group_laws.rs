//! What connection groups are for: which nets belong together.
use vstd::prelude::*;

use crate::net::NetEndpoints;

verus! {

/// The part of a name before its first hash sign; all of it where there is none.
pub open spec fn is_stem(name: Seq<char>, t: Seq<char>) -> bool {
    &&& t.len() <= name.len()
    &&& forall|i: int| 0 <= i < t.len() ==> #[trigger] t[i] == name[i] && t[i] != '#'
    &&& t.len() < name.len() ==> name[t.len() as int] == '#'
}

proof fn lemma_hash(s: Seq<char>, k: nat)
    requires
        k <= s.len(),
    ensures
        k <= crate::groups::hash_at(s, k) <= s.len(),
        forall|i: int| k <= i < crate::groups::hash_at(s, k) ==> #[trigger] s[i] != '#',
        crate::groups::hash_at(s, k) < s.len() ==> s[crate::groups::hash_at(s, k) as int] == '#',
    decreases s.len() - k,
{
    if k < s.len() && s[k as int] != '#' {
        lemma_hash(s, k + 1);
    }
}

/// The group that a name gives is its part before the first hash sign.
pub proof fn law_stem_ends_at_first_hash(name: Seq<char>, t: Seq<char>)
    ensures
        is_stem(name, t) <==> crate::groups::stem(name) == t,
{
    lemma_hash(name, 0);
    let k = crate::groups::hash_at(name, 0) as int;
    let s = crate::groups::stem(name);
    assert(is_stem(name, s));
    if is_stem(name, t) {
        if t.len() < k {
            assert(name[t.len() as int] != '#');
        }
        if k < t.len() {
            assert(t[k] == name[k]);
        }
        assert(t =~= s);
    }
}

/// The nets belong together: their names have the same part before a hash sign, or they have
/// an end in common.
pub open spec fn belong(a: NetEndpoints, b: NetEndpoints) -> bool {
    ||| exists|t: Seq<char>| #[trigger] is_stem(a.net@, t) && is_stem(b.net@, t)
    ||| a.src == b.src
    ||| a.src == b.dst
    ||| a.dst == b.src
    ||| a.dst == b.dst
}

proof fn lemma_belong(a: NetEndpoints, b: NetEndpoints)
    ensures
        belong(a, b) <==> crate::groups::related(a, b),
{
    let t = crate::groups::stem(a.net@);
    law_stem_ends_at_first_hash(a.net@, t);
    law_stem_ends_at_first_hash(b.net@, t);
    if exists|t: Seq<char>| #[trigger] is_stem(a.net@, t) && is_stem(b.net@, t) {
        let u = choose|t: Seq<char>| #[trigger] is_stem(a.net@, t) && is_stem(b.net@, t);
        law_stem_ends_at_first_hash(a.net@, u);
        law_stem_ends_at_first_hash(b.net@, u);
    }
}

/// Nets that belong together are called the same.
pub open spec fn keeps_together(nets: Seq<NetEndpoints>, called: spec_fn(int) -> int) -> bool {
    forall|i: int, j: int|
        0 <= i < nets.len() && 0 <= j < nets.len() && belong(nets[i], nets[j]) ==> #[trigger]
            called(i) == #[trigger] called(j)
}

/// Nets that belong together are in one group, and nets are in one group only where that
/// follows: whatever is called the same for all nets that belong together is called the same
/// for them.
pub proof fn law_groups_join_what_belongs(
    nets: Seq<NetEndpoints>,
    called: spec_fn(int) -> int,
    i: int,
    j: int,
)
    requires
        nets.len() <= usize::MAX,
        0 <= i < nets.len(),
        0 <= j < nets.len(),
    ensures
        crate::groups::groups_of(nets).len() == nets.len(),
        belong(nets[i], nets[j]) ==> crate::groups::groups_of(nets)[i] == crate::groups::groups_of(
            nets,
        )[j],
        keeps_together(nets, called) && crate::groups::groups_of(nets)[i]
            == crate::groups::groups_of(nets)[j] ==> called(i) == called(j),
{
    let ids = crate::groups::groups_of(nets);
    crate::groups::law_nets_are_grouped(nets);
    lemma_belong(nets[i], nets[j]);
    assert(ids[i] == ids[j] <==> crate::groups::linked(nets, i, j));
    if belong(nets[i], nets[j]) {
        crate::groups::lemma_linked_related(nets, i, j);
    }
    if keeps_together(nets, called) && ids[i] == ids[j] {
        let c = choose|c: Seq<int>| #[trigger]
            crate::groups::is_chain(nets, c) && c[0] == i && c.last() == j;
        lemma_chain_is_called(nets, called, c, c.len() - 1);
    }
}

proof fn lemma_chain_is_called(
    nets: Seq<NetEndpoints>,
    called: spec_fn(int) -> int,
    c: Seq<int>,
    k: int,
)
    requires
        keeps_together(nets, called),
        crate::groups::is_chain(nets, c),
        0 <= k < c.len(),
    ensures
        called(c[k]) == called(c[0]),
    decreases k,
{
    if k > 0 {
        lemma_chain_is_called(nets, called, c, k - 1);
        assert(crate::groups::relates(nets, c, k));
        assert(0 <= c[k] < nets.len() && 0 <= c[k - 1] < nets.len());
        lemma_belong(nets[c[k - 1]], nets[c[k]]);
        assert(called(c[k - 1]) == called(c[k]));
    }
}

proof fn lemma_next_is_used(ids: Seq<usize>, k: nat, v: int)
    requires
        k <= ids.len(),
        forall|i: int| 0 <= i < ids.len() ==> #[trigger] crate::groups::is_dense_at(ids, i),
        0 <= v < crate::groups::next_id(ids, k),
    ensures
        exists|j: int| 0 <= j < k && #[trigger] ids[j] == v,
    decreases k,
{
    if k > 0 {
        let before = crate::groups::next_id(ids, (k - 1) as nat);
        crate::groups::lemma_next_id(ids, (k - 1) as nat);
        if v < before {
            lemma_next_is_used(ids, (k - 1) as nat, v);
            let j = choose|j: int| 0 <= j < k - 1 && #[trigger] ids[j] == v;
            assert(ids[j] == v);
        } else {
            assert(crate::groups::is_dense_at(ids, k - 1));
            assert(ids[k - 1] == v);
        }
    }
}

/// Groups are numbered from zero on in the order in which they first come, and they are as
/// many as the numbers that are used.
pub proof fn law_groups_are_numbered(nets: Seq<NetEndpoints>, i: int, v: int)
    requires
        nets.len() <= usize::MAX,
    ensures
        0 <= i < nets.len() && 0 <= v < crate::groups::groups_of(nets)[i] ==> exists|j: int|
            0 <= j < i && #[trigger] crate::groups::groups_of(nets)[j] == v,
        0 <= v < crate::groups::group_count(crate::groups::groups_of(nets)) <==> exists|j: int|
            0 <= j < nets.len() && #[trigger] crate::groups::groups_of(nets)[j] == v,
{
    let ids = crate::groups::groups_of(nets);
    crate::groups::law_nets_are_grouped(nets);
    crate::groups::lemma_next_id(ids, ids.len());
    if 0 <= i < nets.len() && 0 <= v < ids[i] {
        assert(crate::groups::is_dense_at(ids, i));
        crate::groups::lemma_next_id(ids, i as nat);
        if ids[i] == crate::groups::next_id(ids, i as nat) {
            lemma_next_is_used(ids, i as nat, v);
        } else {
            let j = choose|j: int| 0 <= j < i && #[trigger] ids[j] == ids[i];
            assert(ids[j] < crate::groups::next_id(ids, i as nat));
            lemma_next_is_used(ids, i as nat, v);
        }
    }
    if 0 <= v < crate::groups::group_count(ids) {
        lemma_next_is_used(ids, ids.len(), v);
    }
}

/// Two nets have names with the same part before a hash sign.
pub open spec fn are_namesakes(nets: Seq<NetEndpoints>, i: int, j: int) -> bool {
    &&& 0 <= i < j < nets.len()
    &&& exists|t: Seq<char>| #[trigger] is_stem(nets[i].net@, t) && is_stem(nets[j].net@, t)
}

/// A board has nets of one name exactly where two of them have the same part before a hash
/// sign.
pub proof fn law_namesakes_are_seen(nets: Seq<NetEndpoints>)
    ensures
        crate::groups::has_namesakes(nets) <==> exists|i: int, j: int| #[trigger]
            are_namesakes(nets, i, j),
{
    assert forall|i: int, j: int| 0 <= i < j < nets.len() implies (#[trigger] are_namesakes(
        nets,
        i,
        j,
    ) <==> crate::groups::stem(nets[i].net@) == crate::groups::stem(nets[j].net@)) by {
        let t = crate::groups::stem(nets[i].net@);
        law_stem_ends_at_first_hash(nets[i].net@, t);
        law_stem_ends_at_first_hash(nets[j].net@, t);
        if are_namesakes(nets, i, j) {
            let u = choose|t: Seq<char>| #[trigger]
                is_stem(nets[i].net@, t) && is_stem(nets[j].net@, t);
            law_stem_ends_at_first_hash(nets[i].net@, u);
            law_stem_ends_at_first_hash(nets[j].net@, u);
        }
    }
    if crate::groups::has_namesakes(nets) {
        let (i, j) = choose|i: int, j: int|
            0 <= i < j < nets.len() && crate::groups::stem((#[trigger] nets[i]).net@)
                == crate::groups::stem((#[trigger] nets[j]).net@);
        assert(are_namesakes(nets, i, j));
    }
    if exists|i: int, j: int| #[trigger] are_namesakes(nets, i, j) {
        let (i, j) = choose|i: int, j: int| #[trigger] are_namesakes(nets, i, j);
        assert(nets[i] == nets[i] && nets[j] == nets[j]);
    }
}

} // verus!
