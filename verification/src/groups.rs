//! Connection groups: nets that belong together and may share cells.
use vstd::prelude::*;
use vstd::string::StrSliceExecFns;

use crate::net::NetEndpoints;
use crate::text::{chars_of, same_chars};

verus! {

/// The first place from `k` on with a hash sign, or the end.
pub open spec fn hash_at(s: Seq<char>, k: nat) -> nat
    decreases s.len() - k,
{
    if k >= s.len() || s[k as int] == '#' {
        k
    } else {
        hash_at(s, k + 1)
    }
}

/// The part of a name before its first hash sign.
pub open spec fn stem(s: Seq<char>) -> Seq<char> {
    s.take(hash_at(s, 0) as int)
}

/// Where the stem of a name ends.
fn stem_end(s: &Vec<char>) -> (k: usize)
    ensures
        k == hash_at(s@, 0),
        k <= s@.len(),
{
    let mut k: usize = 0;
    while k < s.len() && s[k] != '#'
        invariant
            k <= s@.len(),
            hash_at(s@, k as nat) == hash_at(s@, 0),
        decreases s@.len() - k,
    {
        k += 1;
    }
    k
}

/// The connection group that a name gives: the part before its first hash sign.
pub fn group_of(name: &str) -> (g: &str)
    ensures
        g@ == stem(name@),
{
    let chars = chars_of(name);
    let k: usize = stem_end(&chars);
    assert(name@.subrange(0, k as int) =~= name@.take(k as int));
    name.substring_char(0, k)
}

/// The stem of a name, character by character.
fn stem_chars(name: &str) -> (v: Vec<char>)
    ensures
        v@ == stem(name@),
{
    let mut v = chars_of(name);
    let k: usize = stem_end(&v);
    v.truncate(k);
    assert(v@ =~= name@.take(k as int));
    v
}

/// Nets belong together if their names have the same stem, or if they have an end in
/// common.
pub open spec fn related(a: NetEndpoints, b: NetEndpoints) -> bool {
    ||| stem(a.net@) == stem(b.net@)
    ||| a.src == b.src
    ||| a.src == b.dst
    ||| a.dst == b.src
    ||| a.dst == b.dst
}

/// The net at place `k` of the chain is related to the one before it.
pub open spec fn relates(nets: Seq<NetEndpoints>, chain: Seq<int>, k: int) -> bool {
    related(nets[chain[k - 1]], nets[chain[k]])
}

/// Nets, each related to the one before it.
pub open spec fn is_chain(nets: Seq<NetEndpoints>, chain: Seq<int>) -> bool {
    &&& chain.len() > 0
    &&& forall|k: int| 0 <= k < chain.len() ==> 0 <= #[trigger] chain[k] < nets.len()
    &&& forall|k: int| 0 < k < chain.len() ==> #[trigger] relates(nets, chain, k)
}

/// A chain of related nets leads from one net to another.
pub open spec fn linked(nets: Seq<NetEndpoints>, i: int, j: int) -> bool {
    exists|chain: Seq<int>| #[trigger]
        is_chain(nets, chain) && chain[0] == i && chain.last() == j
}

/// The lowest number above the first `k`.
pub open spec fn next_id(ids: Seq<usize>, k: nat) -> int
    decreases k,
{
    if k == 0 {
        0
    } else {
        let rest = next_id(ids, (k - 1) as nat);
        if ids[k - 1] < rest {
            rest
        } else {
            ids[k - 1] + 1
        }
    }
}

/// The number of net `i` is that of an earlier net, or the next one.
pub open spec fn is_dense_at(ids: Seq<usize>, i: int) -> bool {
    ids[i] == next_id(ids, i as nat) || exists|j: int| 0 <= j < i && #[trigger] ids[j] == ids[i]
}

/// Nets have the same number exactly where they are linked, and the groups are numbered
/// in the order in which they first come.
pub open spec fn is_grouping(nets: Seq<NetEndpoints>, ids: Seq<usize>) -> bool {
    &&& ids.len() == nets.len()
    &&& forall|i: int, j: int|
        0 <= i < ids.len() && 0 <= j < ids.len() ==> (#[trigger] ids[i] == #[trigger] ids[j]
            <==> linked(nets, i, j))
    &&& forall|i: int| 0 <= i < ids.len() ==> #[trigger] is_dense_at(ids, i)
}

/// The connection group of each net.
pub open spec fn groups_of(nets: Seq<NetEndpoints>) -> Seq<usize> {
    choose|ids: Seq<usize>| #[trigger] is_grouping(nets, ids)
}

/// How many groups there are.
pub open spec fn group_count(groups: Seq<usize>) -> int {
    next_id(groups, groups.len())
}

/// Every number is below the next one.
pub proof fn lemma_next_id(ids: Seq<usize>, k: nat)
    requires
        k <= ids.len(),
    ensures
        next_id(ids, k) >= 0,
        forall|j: int| 0 <= j < k ==> #[trigger] ids[j] < next_id(ids, k),
    decreases k,
{
    if k > 0 {
        lemma_next_id(ids, (k - 1) as nat);
    }
}

/// Lists that begin alike have the same next number.
proof fn lemma_same_next(a: Seq<usize>, b: Seq<usize>, k: nat)
    requires
        k <= a.len(),
        k <= b.len(),
        forall|j: int| 0 <= j < k ==> a[j] == b[j],
    ensures
        next_id(a, k) == next_id(b, k),
    decreases k,
{
    if k > 0 {
        lemma_same_next(a, b, (k - 1) as nat);
    }
}

/// There is only one way to group the nets.
pub proof fn law_one_grouping(nets: Seq<NetEndpoints>, a: Seq<usize>, b: Seq<usize>)
    requires
        is_grouping(nets, a),
        is_grouping(nets, b),
    ensures
        a == b,
{
    lemma_agree(nets, a, b, nets.len());
    assert(a =~= b);
}

/// Two groupings agree on the first `k` nets.
proof fn lemma_agree(nets: Seq<NetEndpoints>, a: Seq<usize>, b: Seq<usize>, k: nat)
    requires
        is_grouping(nets, a),
        is_grouping(nets, b),
        k <= nets.len(),
    ensures
        forall|j: int| 0 <= j < k ==> a[j] == b[j],
    decreases k,
{
    if k > 0 {
        let i = k - 1;
        lemma_agree(nets, a, b, i as nat);
        lemma_same_next(a, b, i as nat);
        lemma_next_id(a, i as nat);
        lemma_next_id(b, i as nat);
        assert(is_dense_at(a, i));
        assert(is_dense_at(b, i));
        if exists|j: int| 0 <= j < i && #[trigger] a[j] == a[i] {
            let j = choose|j: int| 0 <= j < i && #[trigger] a[j] == a[i];
            assert(linked(nets, j, i));
            assert(b[j] == b[i]);
        } else if exists|j: int| 0 <= j < i && #[trigger] b[j] == b[i] {
            let j = choose|j: int| 0 <= j < i && #[trigger] b[j] == b[i];
            assert(linked(nets, j, i));
            assert(a[j] == a[i]);
        }
    }
}

/// A net is linked to itself.
proof fn lemma_linked_self(nets: Seq<NetEndpoints>, i: int)
    requires
        0 <= i < nets.len(),
    ensures
        linked(nets, i, i),
{
    assert(is_chain(nets, seq![i]));
}

/// Related nets are linked.
pub proof fn lemma_linked_related(nets: Seq<NetEndpoints>, i: int, j: int)
    requires
        0 <= i < nets.len(),
        0 <= j < nets.len(),
        related(nets[i], nets[j]),
    ensures
        linked(nets, i, j),
{
    let c = seq![i, j];
    assert(relates(nets, c, 1));
    assert(is_chain(nets, c));
    assert(c.last() == j);
}

/// Chains can be turned round.
proof fn lemma_linked_back(nets: Seq<NetEndpoints>, i: int, j: int)
    requires
        linked(nets, i, j),
    ensures
        linked(nets, j, i),
{
    let c = choose|c: Seq<int>| #[trigger] is_chain(nets, c) && c[0] == i && c.last() == j;
    let r = Seq::new(c.len(), |k: int| c[c.len() - 1 - k]);
    assert forall|k: int| 0 <= k < r.len() implies 0 <= #[trigger] r[k] < nets.len() by {
        assert(r[k] == c[c.len() - 1 - k]);
    }
    assert forall|k: int| 0 < k < r.len() implies #[trigger] relates(nets, r, k) by {
        assert(relates(nets, c, c.len() - k));
    }
    assert(is_chain(nets, r));
    assert(r.last() == i);
}

/// Chains can be put together.
proof fn lemma_linked_on(nets: Seq<NetEndpoints>, i: int, j: int, k: int)
    requires
        linked(nets, i, j),
        linked(nets, j, k),
    ensures
        linked(nets, i, k),
{
    let a = choose|c: Seq<int>| #[trigger] is_chain(nets, c) && c[0] == i && c.last() == j;
    let b = choose|c: Seq<int>| #[trigger] is_chain(nets, c) && c[0] == j && c.last() == k;
    let c = a + b.drop_first();
    assert forall|m: int| 0 <= m < c.len() implies 0 <= #[trigger] c[m] < nets.len() by {
        if m < a.len() {
            assert(c[m] == a[m]);
        } else {
            assert(c[m] == b[m - a.len() + 1]);
        }
    }
    assert forall|m: int| 0 < m < c.len() implies #[trigger] relates(nets, c, m) by {
        if m < a.len() {
            assert(relates(nets, a, m));
        } else {
            assert(relates(nets, b, m - a.len() + 1));
        }
    }
    assert(is_chain(nets, c));
    if b.len() == 1 {
        assert(c =~= a);
    } else {
        assert(c.last() == b.last());
    }
}

/// Where related nets always have the same label, linked ones do too.
proof fn lemma_linked_label(
    nets: Seq<NetEndpoints>,
    labels: Seq<usize>,
    chain: Seq<int>,
    k: int,
)
    requires
        labels.len() == nets.len(),
        forall|a: int, b: int|
            0 <= a < nets.len() && 0 <= b < nets.len() && #[trigger] related(nets[a], nets[b])
                ==> labels[a] == labels[b],
        is_chain(nets, chain),
        0 <= k < chain.len(),
    ensures
        labels[chain[k]] == labels[chain[0]],
    decreases k,
{
    if k > 0 {
        lemma_linked_label(nets, labels, chain, k - 1);
        assert(relates(nets, chain, k));
        assert(0 <= chain[k] < nets.len());
        assert(0 <= chain[k - 1] < nets.len());
    }
}

/// Whether two nets belong together, whose stems are given.
fn are_related(a: &NetEndpoints, stem_a: &Vec<char>, b: &NetEndpoints, stem_b: &Vec<char>) -> (r:
    bool)
    requires
        stem_a@ == stem(a.net@),
        stem_b@ == stem(b.net@),
    ensures
        r == related(*a, *b),
{
    a.src == b.src || a.src == b.dst || a.dst == b.src || a.dst == b.dst || same_chars(
        stem_a,
        stem_b,
    )
}

/// The stem of each net's name.
fn stems_of(nets: &[NetEndpoints]) -> (v: Vec<Vec<char>>)
    ensures
        v@.len() == nets@.len(),
        forall|i: int| 0 <= i < v@.len() ==> (#[trigger] v@[i])@ == stem(nets@[i].net@),
{
    let mut v: Vec<Vec<char>> = Vec::new();
    let mut i: usize = 0;
    while i < nets.len()
        invariant
            i <= nets@.len(),
            v@.len() == i,
            forall|j: int| 0 <= j < i ==> (#[trigger] v@[j])@ == stem(nets@[j].net@),
        decreases nets@.len() - i,
    {
        v.push(stem_chars(nets[i].net.as_str()));
        i += 1;
    }
    v
}

/// Gives each of the labels `from` the label `to`.
fn relabel(labels: &mut Vec<usize>, from: usize, to: usize)
    ensures
        final(labels)@.len() == old(labels)@.len(),
        forall|k: int|
            0 <= k < old(labels)@.len() ==> #[trigger] final(labels)@[k] == if old(labels)@[k]
                == from {
                to
            } else {
                old(labels)@[k]
            },
{
    let ghost was = labels@;
    let mut k: usize = 0;
    while k < labels.len()
        invariant
            k <= labels@.len(),
            labels@.len() == was.len(),
            forall|j: int|
                0 <= j < k ==> #[trigger] labels@[j] == if was[j] == from {
                    to
                } else {
                    was[j]
                },
            forall|j: int| k <= j < was.len() ==> #[trigger] labels@[j] == was[j],
        decreases labels@.len() - k,
    {
        if labels[k] == from {
            labels.set(k, to);
        }
        k += 1;
    }
}

/// The related nets among the first `m` rows of pairs, and the first `k` of the next
/// row, have the same label.
spec fn merged(nets: Seq<NetEndpoints>, labels: Seq<usize>, m: int, k: int) -> bool {
    forall|a: int, b: int|
        0 <= b < a < nets.len() && (a < m || a == m && b < k) && #[trigger] related(
            nets[a],
            nets[b],
        ) ==> labels[a] == labels[b]
}

/// Nets with the same label are linked.
spec fn justified(nets: Seq<NetEndpoints>, labels: Seq<usize>) -> bool {
    forall|a: int, b: int|
        0 <= a < labels.len() && 0 <= b < labels.len() && #[trigger] labels[a]
            == #[trigger] labels[b] ==> linked(nets, a, b)
}

/// A label for each net, the same for linked nets and for no others.
fn label_nets(nets: &[NetEndpoints]) -> (labels: Vec<usize>)
    ensures
        labels@.len() == nets@.len(),
        forall|i: int, j: int|
            0 <= i < labels@.len() && 0 <= j < labels@.len() ==> (#[trigger] labels@[i]
                == #[trigger] labels@[j] <==> linked(nets@, i, j)),
{
    let n: usize = nets.len();
    let stems = stems_of(nets);
    let mut labels: Vec<usize> = crate::negotiate::indices(n);
    proof {
        assert forall|a: int, b: int|
            0 <= a < labels@.len() && 0 <= b < labels@.len() && #[trigger] labels@[a]
                == #[trigger] labels@[b] implies linked(nets@, a, b) by {
            lemma_linked_self(nets@, a);
        }
    }
    let mut a: usize = 0;
    while a < n
        invariant
            a <= n,
            n == nets@.len(),
            stems@.len() == n,
            forall|i: int| 0 <= i < n ==> (#[trigger] stems@[i])@ == stem(nets@[i].net@),
            labels@.len() == n,
            merged(nets@, labels@, a as int, 0),
            justified(nets@, labels@),
        decreases n - a,
    {
        let mut b: usize = 0;
        while b < a
            invariant
                a < n,
                b <= a,
                n == nets@.len(),
                stems@.len() == n,
                forall|i: int| 0 <= i < n ==> (#[trigger] stems@[i])@ == stem(nets@[i].net@),
                labels@.len() == n,
                merged(nets@, labels@, a as int, b as int),
                justified(nets@, labels@),
            decreases a - b,
        {
            if are_related(&nets[a], &stems[a], &nets[b], &stems[b]) {
                let ghost was = labels@;
                let from: usize = labels[a];
                let to: usize = labels[b];
                relabel(&mut labels, from, to);
                proof {
                    lemma_linked_related(nets@, a as int, b as int);
                    assert forall|x: int, y: int|
                        0 <= x < n && 0 <= y < n && #[trigger] labels@[x]
                            == #[trigger] labels@[y] implies linked(nets@, x, y) by {
                        if was[x] == was[y] {
                        } else if was[x] == from {
                            assert(was[a as int] == from && was[y] == was[b as int]);
                            lemma_linked_on(nets@, x, a as int, b as int);
                            lemma_linked_on(nets@, x, b as int, y);
                        } else {
                            assert(was[a as int] == from && was[x] == was[b as int]);
                            lemma_linked_back(nets@, a as int, b as int);
                            lemma_linked_on(nets@, x, b as int, a as int);
                            lemma_linked_on(nets@, x, a as int, y);
                        }
                    }
                }
            }
            b += 1;
        }
        a += 1;
    }
    proof {
        assert forall|x: int, y: int|
            0 <= x < n && 0 <= y < n && #[trigger] related(nets@[x], nets@[y]) implies labels@[x]
            == labels@[y] by {
            if x < y {
                assert(related(nets@[y], nets@[x]));
            }
        }
        assert forall|i: int, j: int| 0 <= i < n && 0 <= j < n implies (#[trigger] labels@[i]
            == #[trigger] labels@[j] <==> linked(nets@, i, j)) by {
            if linked(nets@, i, j) {
                let c = choose|c: Seq<int>| #[trigger]
                    is_chain(nets@, c) && c[0] == i && c.last() == j;
                lemma_linked_label(nets@, labels@, c, c.len() - 1);
            }
        }
    }
    labels
}

/// The connection group of each net.
///
/// Nets belong together if their names have the same stem, or if they have an end in
/// common; what is linked through other nets belongs together too. Groups are numbered
/// in the order in which they first come.
pub fn connection_group_ids(nets: &[NetEndpoints]) -> (ids: Vec<usize>)
    ensures
        is_grouping(nets@, ids@),
        ids@ == groups_of(nets@),
{
    let n: usize = nets.len();
    let labels = label_nets(nets);
    let mut ids: Vec<usize> = Vec::new();
    let mut next: usize = 0;
    let mut i: usize = 0;
    while i < n
        invariant
            n == nets@.len(),
            labels@.len() == n,
            i <= n,
            ids@.len() == i,
            next <= i,
            next == next_id(ids@, i as nat),
            forall|a: int, b: int|
                0 <= a < i && 0 <= b < i ==> (#[trigger] ids@[a] == #[trigger] ids@[b]
                    <==> labels@[a] == labels@[b]),
            forall|a: int| 0 <= a < i ==> #[trigger] is_dense_at(ids@, a),
        decreases n - i,
    {
        let ghost was = ids@;
        let mut j: usize = 0;
        while j < i && labels[j] != labels[i]
            invariant
                j <= i,
                i < n,
                labels@.len() == n,
                forall|x: int| 0 <= x < j ==> labels@[x] != labels@[i as int],
            decreases i - j,
        {
            j += 1;
        }
        let id: usize = if j < i { ids[j] } else { next };
        ids.push(id);
        proof {
            lemma_next_id(was, i as nat);
            lemma_same_next(was, ids@, i as nat);
            assert(next_id(ids@, (i + 1) as nat) == if id < next {
                next as int
            } else {
                id + 1
            });
            assert forall|a: int| 0 <= a < i + 1 implies #[trigger] is_dense_at(ids@, a) by {
                if a < i {
                    assert(is_dense_at(was, a));
                    lemma_same_next(was, ids@, a as nat);
                    if exists|x: int| 0 <= x < a && #[trigger] was[x] == was[a] {
                        let x = choose|x: int| 0 <= x < a && #[trigger] was[x] == was[a];
                        assert(ids@[x] == ids@[a]);
                    }
                } else if j < i {
                    assert(ids@[j as int] == ids@[a]);
                }
            }
            assert forall|a: int, b: int| 0 <= a < i + 1 && 0 <= b < i + 1 implies (
            #[trigger] ids@[a] == #[trigger] ids@[b] <==> labels@[a] == labels@[b]) by {
                if a < i && b < i {
                    assert(was[a] == ids@[a] && was[b] == ids@[b]);
                } else if a < i {
                    assert(was[a] == ids@[a]);
                    if j < i {
                        assert(was[j as int] == id);
                    }
                } else if b < i {
                    assert(was[b] == ids@[b]);
                    if j < i {
                        assert(was[j as int] == id);
                    }
                }
            }
        }
        if id == next {
            next += 1;
        }
        i += 1;
    }
    proof {
        assert(is_grouping(nets@, ids@));
        law_one_grouping(nets@, ids@, groups_of(nets@));
    }
    ids
}

/// How many groups there are.
pub fn count_groups(groups: &Vec<usize>) -> (n: usize)
    requires
        forall|i: int| 0 <= i < groups@.len() ==> #[trigger] groups@[i] < usize::MAX,
    ensures
        n == group_count(groups@),
{
    let mut n: usize = 0;
    let mut i: usize = 0;
    while i < groups.len()
        invariant
            i <= groups@.len(),
            n == next_id(groups@, i as nat),
            forall|i: int| 0 <= i < groups@.len() ==> #[trigger] groups@[i] < usize::MAX,
        decreases groups@.len() - i,
    {
        if groups[i] >= n {
            n = groups[i] + 1;
        }
        i += 1;
    }
    n
}

/// Dense numbers are below how many there are of them so far.
pub proof fn lemma_dense_bound(ids: Seq<usize>, k: nat)
    requires
        k <= ids.len(),
        forall|i: int| 0 <= i < ids.len() ==> #[trigger] is_dense_at(ids, i),
    ensures
        next_id(ids, k) <= k,
    decreases k,
{
    if k > 0 {
        lemma_dense_bound(ids, (k - 1) as nat);
        lemma_next_id(ids, (k - 1) as nat);
        assert(is_dense_at(ids, k - 1));
    }
}

/// Two nets have names with the same stem.
pub open spec fn has_namesakes(nets: Seq<NetEndpoints>) -> bool {
    exists|i: int, j: int|
        0 <= i < j < nets.len() && stem(#[trigger] nets[i].net@) == stem(#[trigger] nets[j].net@)
}

/// Whether two nets have names with the same stem.
pub fn has_named_subnet_group(nets: &[NetEndpoints]) -> (b: bool)
    ensures
        b == has_namesakes(nets@),
{
    let stems = stems_of(nets);
    let mut j: usize = 0;
    while j < nets.len()
        invariant
            j <= nets@.len(),
            stems@.len() == nets@.len(),
            forall|i: int| 0 <= i < stems@.len() ==> (#[trigger] stems@[i])@ == stem(nets@[i].net@),
            forall|x: int, y: int|
                0 <= x < y < j ==> stem(#[trigger] nets@[x].net@) != stem(
                    #[trigger] nets@[y].net@,
                ),
        decreases nets@.len() - j,
    {
        let mut i: usize = 0;
        while i < j
            invariant
                i <= j,
                j < nets@.len(),
                stems@.len() == nets@.len(),
                forall|i: int|
                    0 <= i < stems@.len() ==> (#[trigger] stems@[i])@ == stem(nets@[i].net@),
                forall|x: int|
                    0 <= x < i ==> stem(#[trigger] nets@[x].net@) != stem(nets@[j as int].net@),
            decreases j - i,
        {
            if same_chars(&stems[i], &stems[j]) {
                assert(stem(nets@[i as int].net@) == stem(nets@[j as int].net@));
                return true;
            }
            i += 1;
        }
        j += 1;
    }
    false
}

/// A number for each of the first `k` nets, found net by net.
spec fn numbered(nets: Seq<NetEndpoints>, k: nat) -> Seq<usize>
    decreases k,
{
    if k == 0 {
        Seq::empty()
    } else {
        let s = numbered(nets, (k - 1) as nat);
        if exists|j: int| 0 <= j < k - 1 && #[trigger] linked(nets, j, k - 1) {
            let j = choose|j: int| 0 <= j < k - 1 && #[trigger] linked(nets, j, k - 1);
            s.push(s[j])
        } else {
            s.push(next_id(s, (k - 1) as nat) as usize)
        }
    }
}

/// Numbers that are found net by net group the nets.
proof fn lemma_numbered(nets: Seq<NetEndpoints>, k: nat)
    requires
        k <= nets.len(),
        nets.len() <= usize::MAX,
    ensures
        numbered(nets, k).len() == k,
        next_id(numbered(nets, k), k) <= k,
        forall|a: int, b: int|
            0 <= a < k && 0 <= b < k ==> (#[trigger] numbered(nets, k)[a] == #[trigger] numbered(
                nets,
                k,
            )[b] <==> linked(nets, a, b)),
        forall|a: int| 0 <= a < k ==> #[trigger] is_dense_at(numbered(nets, k), a),
    decreases k,
{
    if k > 0 {
        let i = k - 1;
        let was = numbered(nets, i as nat);
        let ids = numbered(nets, k);
        lemma_numbered(nets, i as nat);
        lemma_next_id(was, i as nat);
        lemma_same_next(was, ids, i as nat);
        let found = exists|j: int| 0 <= j < i && #[trigger] linked(nets, j, i);
        let j = choose|j: int| 0 <= j < i && #[trigger] linked(nets, j, i);
        assert forall|a: int| 0 <= a < k implies #[trigger] is_dense_at(ids, a) by {
            if a < i {
                assert(is_dense_at(was, a));
                lemma_same_next(was, ids, a as nat);
                if exists|x: int| 0 <= x < a && #[trigger] was[x] == was[a] {
                    let x = choose|x: int| 0 <= x < a && #[trigger] was[x] == was[a];
                    assert(ids[x] == ids[a]);
                }
            } else if found {
                assert(ids[j] == ids[a]);
            }
        }
        lemma_linked_self(nets, i);
        assert forall|a: int| 0 <= a < i implies (ids[a] == ids[i] <==> linked(nets, a, i)) by {
            assert(was[a] == ids[a]);
            if found {
                assert(was[j] == ids[i]);
                assert(was[a] == was[j] <==> linked(nets, a, j));
                if linked(nets, a, j) {
                    lemma_linked_on(nets, a, j, i);
                }
                if linked(nets, a, i) {
                    lemma_linked_back(nets, j, i);
                    lemma_linked_on(nets, a, i, j);
                }
            }
        }
        assert forall|a: int, b: int| 0 <= a < k && 0 <= b < k implies (#[trigger] ids[a]
            == #[trigger] ids[b] <==> linked(nets, a, b)) by {
            if a < i && b < i {
                assert(was[a] == ids[a] && was[b] == ids[b]);
            } else if a < i {
            } else if b < i {
                assert(ids[b] == ids[i] <==> linked(nets, b, i));
                if linked(nets, b, i) {
                    lemma_linked_back(nets, b, i);
                }
                if linked(nets, i, b) {
                    lemma_linked_back(nets, i, b);
                }
            }
        }
    }
}

/// The nets of a board can be grouped, into no more groups than there are nets.
pub proof fn law_nets_are_grouped(nets: Seq<NetEndpoints>)
    requires
        nets.len() <= usize::MAX,
    ensures
        is_grouping(nets, groups_of(nets)),
        group_count(groups_of(nets)) <= nets.len(),
{
    lemma_numbered(nets, nets.len());
    assert(is_grouping(nets, numbered(nets, nets.len())));
    lemma_dense_bound(groups_of(nets), nets.len());
}

} // verus!
