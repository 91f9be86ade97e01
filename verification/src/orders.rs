//! Orders in which groups can be committed.
use vstd::prelude::*;

use crate::board::Cost;

verus! {

/// Up to how many groups every order is tried.
pub const EXHAUSTIVE_GROUPS: usize = 5;

/// All ways to go on from `cur` with items that are not used yet.
pub open spec fn perms(items: Seq<usize>, used: Seq<bool>, cur: Seq<usize>) -> Seq<Seq<usize>>
    decreases items.len() - cur.len(), items.len() + 1,
{
    if cur.len() >= items.len() {
        seq![cur]
    } else {
        perms_upto(items, used, cur, items.len())
    }
}

/// All ways to go on from `cur` with one of the first `k` items, if it is not used yet.
pub open spec fn perms_upto(
    items: Seq<usize>,
    used: Seq<bool>,
    cur: Seq<usize>,
    k: nat,
) -> Seq<Seq<usize>>
    decreases items.len() - cur.len(), k,
{
    if k == 0 || cur.len() >= items.len() {
        Seq::empty()
    } else {
        let rest = perms_upto(items, used, cur, (k - 1) as nat);
        if used[k - 1] {
            rest
        } else {
            rest + perms(items, used.update(k - 1, true), cur.push(items[k - 1]))
        }
    }
}

/// All orders of the items, the items that come first varying slowest.
pub open spec fn all_orders(items: Seq<usize>) -> Seq<Seq<usize>> {
    perms(items, Seq::new(items.len(), |i: int| false), Seq::empty())
}

/// Orders as plain values.
pub open spec fn orders_view(v: Seq<Vec<usize>>) -> Seq<Seq<usize>> {
    Seq::new(v.len(), |i: int| v[i]@)
}

/// The items are different and ascending.
pub open spec fn rising(items: Seq<usize>) -> bool {
    forall|a: int, b: int| 0 <= a < b < items.len() ==> items[a] < items[b]
}

/// `q` begins with `cur` and goes on with different items that are not used.
spec fn goes_on(items: Seq<usize>, used: Seq<bool>, cur: Seq<usize>, q: Seq<usize>) -> bool {
    &&& q.len() == items.len()
    &&& cur.len() <= q.len()
    &&& q.take(cur.len() as int) == cur
    &&& forall|k: int| cur.len() <= k < q.len() ==> #[trigger] unused_at(items, used, q, k)
    &&& forall|a: int, b: int| cur.len() <= a < b < q.len() ==> q[a] != q[b]
}

spec fn unused_at(items: Seq<usize>, used: Seq<bool>, q: Seq<usize>, k: int) -> bool {
    exists|i: int| 0 <= i < items.len() && !used[i] && #[trigger] items[i] == q[k]
}

/// What holds of the orders that go on from `cur`.
proof fn lemma_perms(items: Seq<usize>, used: Seq<bool>, cur: Seq<usize>, q: Seq<usize>)
    requires
        rising(items),
        used.len() == items.len(),
        cur.len() <= items.len(),
    ensures
        perms(items, used, cur).contains(q) <==> goes_on(items, used, cur, q),
    decreases items.len() - cur.len(), items.len() + 1,
{
    let m = cur.len() as int;
    if cur.len() == items.len() {
        assert(seq![cur][0] == cur);
        if goes_on(items, used, cur, q) {
            assert(q.take(m) =~= q);
        }
        if q == cur {
            assert(q.take(m) =~= q);
        }
    } else {
        lemma_perms_upto(items, used, cur, items.len(), q);
        if goes_on(items, used, cur, q) {
            assert(unused_at(items, used, q, m));
            let i = choose|i: int|
                0 <= i < items.len() && !used[i] && #[trigger] items[i] == q[m];
            lemma_first_step(items, used, cur, q, i);
        }
        if exists|i: int|
            0 <= i < items.len() && !used[i] && #[trigger] goes_on(
                items,
                used.update(i, true),
                cur.push(items[i]),
                q,
            ) {
            let i = choose|i: int|
                0 <= i < items.len() && !used[i] && #[trigger] goes_on(
                    items,
                    used.update(i, true),
                    cur.push(items[i]),
                    q,
                );
            lemma_first_step_back(items, used, cur, q, i);
        }
    }
}

/// An order that goes on with item `i` goes on from `cur` and that item.
proof fn lemma_first_step(
    items: Seq<usize>,
    used: Seq<bool>,
    cur: Seq<usize>,
    q: Seq<usize>,
    i: int,
)
    requires
        rising(items),
        used.len() == items.len(),
        cur.len() < items.len(),
        goes_on(items, used, cur, q),
        0 <= i < items.len(),
        !used[i],
        items[i] == q[cur.len() as int],
    ensures
        goes_on(items, used.update(i, true), cur.push(items[i]), q),
{
    let m = cur.len() as int;
    assert(q.take(m + 1) =~= cur.push(items[i])) by {
        assert forall|k: int| 0 <= k < m implies q[k] == cur[k] by {
            assert(q.take(m)[k] == cur[k]);
        }
    }
    assert forall|k: int| m + 1 <= k < q.len() implies #[trigger] unused_at(
        items,
        used.update(i, true),
        q,
        k,
    ) by {
        assert(unused_at(items, used, q, k));
        let j = choose|j: int| 0 <= j < items.len() && !used[j] && #[trigger] items[j] == q[k];
        assert(q[m] != q[k]);
        assert(items[j] == q[k] && !used.update(i, true)[j]);
    }
}

/// An order that goes on from `cur` and item `i` goes on from `cur`.
proof fn lemma_first_step_back(
    items: Seq<usize>,
    used: Seq<bool>,
    cur: Seq<usize>,
    q: Seq<usize>,
    i: int,
)
    requires
        rising(items),
        used.len() == items.len(),
        cur.len() < items.len(),
        0 <= i < items.len(),
        !used[i],
        goes_on(items, used.update(i, true), cur.push(items[i]), q),
    ensures
        goes_on(items, used, cur, q),
{
    let m = cur.len() as int;
    let next = used.update(i, true);
    assert(q.take(m + 1)[m] == items[i]);
    assert(q[m] == items[i]);
    assert(q.take(m) =~= cur) by {
        assert forall|k: int| 0 <= k < m implies q[k] == cur[k] by {
            assert(q.take(m + 1)[k] == cur.push(items[i])[k]);
        }
    }
    assert forall|k: int| m <= k < q.len() implies #[trigger] unused_at(items, used, q, k) by {
        if k == m {
            assert(items[i] == q[k]);
        } else {
            assert(unused_at(items, next, q, k));
            let j = choose|j: int| 0 <= j < items.len() && !next[j] && #[trigger] items[j] == q[k];
            assert(items[j] == q[k] && !used[j]);
        }
    }
    assert forall|a: int, b: int| m <= a < b < q.len() implies q[a] != q[b] by {
        if a == m {
            assert(unused_at(items, next, q, b));
            let j = choose|j: int| 0 <= j < items.len() && !next[j] && #[trigger] items[j] == q[b];
            assert(items[i] != items[j]);
        }
    }
}

/// What holds of the orders that go on with one of the first `k` items.
proof fn lemma_perms_upto(
    items: Seq<usize>,
    used: Seq<bool>,
    cur: Seq<usize>,
    k: nat,
    q: Seq<usize>,
)
    requires
        rising(items),
        used.len() == items.len(),
        cur.len() < items.len(),
        k <= items.len(),
    ensures
        perms_upto(items, used, cur, k).contains(q) <==> exists|i: int|
            0 <= i < k && !used[i] && #[trigger] goes_on(
                items,
                used.update(i, true),
                cur.push(items[i]),
                q,
            ),
    decreases items.len() - cur.len(), k,
{
    if k > 0 {
        let k1 = (k - 1) as nat;
        lemma_perms_upto(items, used, cur, k1, q);
        if !used[k - 1] {
            let next = used.update(k - 1, true);
            lemma_perms(items, next, cur.push(items[k - 1]), q);
            lemma_either(
                perms_upto(items, used, cur, k1),
                perms(items, next, cur.push(items[k - 1])),
                q,
            );
        }
    }
}

/// What two lists hold together.
proof fn lemma_either(a: Seq<Seq<usize>>, b: Seq<Seq<usize>>, q: Seq<usize>)
    ensures
        (a + b).contains(q) <==> a.contains(q) || b.contains(q),
{
    let s = a + b;
    if a.contains(q) {
        let k = choose|k: int| 0 <= k < a.len() && a[k] == q;
        assert(s[k] == q);
    }
    if b.contains(q) {
        let k = choose|k: int| 0 <= k < b.len() && b[k] == q;
        assert(s[a.len() + k] == q);
    }
    if s.contains(q) {
        let k = choose|k: int| 0 <= k < s.len() && s[k] == q;
        if k < a.len() {
            assert(a[k] == q);
        } else {
            assert(b[k - a.len()] == q);
        }
    }
}

/// `q` holds each of the items once.
pub open spec fn arranges(items: Seq<usize>, q: Seq<usize>) -> bool {
    &&& q.len() == items.len()
    &&& forall|k: int| 0 <= k < q.len() ==> items.contains(#[trigger] q[k])
    &&& crate::legalize::no_repeats(q)
}

/// The orders of different items are exactly the lists that hold each of them once.
pub proof fn law_orders_are_complete(items: Seq<usize>, q: Seq<usize>)
    requires
        rising(items),
    ensures
        all_orders(items).contains(q) <==> arranges(items, q),
{
    let used = Seq::new(items.len(), |i: int| false);
    lemma_perms(items, used, Seq::empty(), q);
    if arranges(items, q) {
        assert(q.take(0) =~= Seq::<usize>::empty());
        assert forall|k: int| 0 <= k < q.len() implies #[trigger] unused_at(items, used, q, k) by {
            assert(items.contains(q[k]));
            let i = choose|i: int| 0 <= i < items.len() && items[i] == q[k];
            assert(!used[i] && items[i] == q[k]);
        }
        assert(goes_on(items, used, Seq::empty(), q));
    }
    if goes_on(items, used, Seq::empty(), q) {
        assert forall|k: int| 0 <= k < q.len() implies items.contains(#[trigger] q[k]) by {
            assert(unused_at(items, used, q, k));
        }
    }
}

/// `a` comes before `b`: the first item in which they differ is lower in `a`, or `a`
/// ends there.
pub open spec fn lex_less(a: Seq<usize>, b: Seq<usize>) -> bool {
    exists|k: int| #[trigger] differs(a, b, k)
}

/// `a` and `b` agree up to `k`, and `a` is lower there or ends there.
pub open spec fn differs(a: Seq<usize>, b: Seq<usize>, k: int) -> bool {
    &&& 0 <= k <= a.len()
    &&& k < b.len()
    &&& forall|j: int| 0 <= j < k ==> a[j] == b[j]
    &&& k == a.len() || a[k] < b[k]
}

/// Each list comes before the ones after it.
spec fn lex_rising(s: Seq<Seq<usize>>) -> bool {
    forall|x: int, y: int| 0 <= x < y < s.len() ==> lex_less(#[trigger] s[x], #[trigger] s[y])
}

/// The orders that go on from `cur` are in lexicographic order.
proof fn lemma_perms_rising(items: Seq<usize>, used: Seq<bool>, cur: Seq<usize>)
    requires
        rising(items),
        used.len() == items.len(),
        cur.len() <= items.len(),
    ensures
        lex_rising(perms(items, used, cur)),
    decreases items.len() - cur.len(), items.len() + 1,
{
    if cur.len() < items.len() {
        lemma_upto_rising(items, used, cur, items.len());
    }
}

/// The orders that go on with one of the first `k` items are in lexicographic order.
proof fn lemma_upto_rising(items: Seq<usize>, used: Seq<bool>, cur: Seq<usize>, k: nat)
    requires
        rising(items),
        used.len() == items.len(),
        cur.len() < items.len(),
        k <= items.len(),
    ensures
        lex_rising(perms_upto(items, used, cur, k)),
    decreases items.len() - cur.len(), k,
{
    if k > 0 {
        let k1 = (k - 1) as nat;
        lemma_upto_rising(items, used, cur, k1);
        if !used[k - 1] {
            let next = used.update(k - 1, true);
            let m = cur.len() as int;
            let a = perms_upto(items, used, cur, k1);
            let b = perms(items, next, cur.push(items[k - 1]));
            lemma_perms_rising(items, next, cur.push(items[k - 1]));
            let s = a + b;
            assert forall|x: int, y: int| 0 <= x < y < s.len() implies lex_less(
                #[trigger] s[x],
                #[trigger] s[y],
            ) by {
                if y < a.len() {
                    assert(lex_less(a[x], a[y]));
                } else if x >= a.len() {
                    assert(lex_less(b[x - a.len()], b[y - a.len()]));
                } else {
                    let p = s[x];
                    let q = s[y];
                    assert(a[x] == p);
                    assert(b[y - a.len()] == q);
                    lemma_perms_upto(items, used, cur, k1, p);
                    lemma_perms(items, next, cur.push(items[k - 1]), q);
                    let i = choose|i: int|
                        0 <= i < k1 && !used[i] && #[trigger] goes_on(
                            items,
                            used.update(i, true),
                            cur.push(items[i]),
                            p,
                        );
                    assert(p.take(m + 1)[m] == cur.push(items[i])[m]);
                    assert(q.take(m + 1)[m] == cur.push(items[k - 1])[m]);
                    assert forall|j: int| 0 <= j < m implies p[j] == q[j] by {
                        assert(p.take(m + 1)[j] == cur.push(items[i])[j]);
                        assert(q.take(m + 1)[j] == cur.push(items[k - 1])[j]);
                    }
                    assert(items[i] < items[k - 1]);
                    assert(differs(p, q, m));
                }
            }
        }
    }
}

/// The orders of ascending items are in lexicographic order.
pub proof fn law_orders_are_ordered(items: Seq<usize>, x: int, y: int)
    requires
        rising(items),
        0 <= x < y < all_orders(items).len(),
    ensures
        lex_less(all_orders(items)[x], all_orders(items)[y]),
{
    lemma_perms_rising(items, Seq::new(items.len(), |i: int| false), Seq::empty());
}

/// All orders of the items, the items that come first varying slowest.
pub fn permutations(items: &[usize]) -> (out: Vec<Vec<usize>>)
    ensures
        orders_view(out@) == all_orders(items@),
{
    let mut out: Vec<Vec<usize>> = Vec::new();
    let mut cur: Vec<usize> = Vec::new();
    let mut used: Vec<bool> = vec![false; items.len()];
    proof {
        assert(used@ =~= Seq::new(items@.len(), |i: int| false));
        assert(cur@ =~= Seq::<usize>::empty());
    }
    permute_rec(items, &mut used, &mut cur, &mut out);
    assert(orders_view(out@) =~= all_orders(items@));
    out
}

/// Copies an order.
pub fn copy_order(v: &Vec<usize>) -> (r: Vec<usize>)
    ensures
        r@ == v@,
{
    let mut r: Vec<usize> = Vec::new();
    let mut i: usize = 0;
    while i < v.len()
        invariant
            i <= v@.len(),
            r@ == v@.take(i as int),
        decreases v@.len() - i,
    {
        r.push(v[i]);
        assert(r@ =~= v@.take(i + 1));
        i += 1;
    }
    assert(v@.take(v@.len() as int) =~= v@);
    r
}

/// Appends all ways to go on from `cur` with items that are not used yet.
fn permute_rec(
    items: &[usize],
    used: &mut Vec<bool>,
    cur: &mut Vec<usize>,
    out: &mut Vec<Vec<usize>>,
)
    requires
        old(used)@.len() == items@.len(),
        old(cur)@.len() <= items@.len(),
    ensures
        final(used)@ == old(used)@,
        final(cur)@ == old(cur)@,
        orders_view(final(out)@) == orders_view(old(out)@) + perms(
            items@,
            old(used)@,
            old(cur)@,
        ),
    decreases items@.len() - old(cur)@.len(),
{
    let ghost u0 = used@;
    let ghost c0 = cur@;
    let ghost o0 = orders_view(out@);
    if cur.len() == items.len() {
        out.push(copy_order(cur));
        assert(orders_view(out@) =~= o0 + seq![c0]);
        return;
    }
    let mut i: usize = 0;
    assert(o0 =~= o0 + perms_upto(items@, u0, c0, 0));
    while i < items.len()
        invariant
            i <= items@.len(),
            used@ == u0,
            cur@ == c0,
            u0.len() == items@.len(),
            c0.len() < items@.len(),
            c0 == old(cur)@,
            orders_view(out@) == o0 + perms_upto(items@, u0, c0, i as nat),
        decreases items@.len() - i,
    {
        if !used[i] {
            let ghost b = orders_view(out@);
            used.set(i, true);
            cur.push(items[i]);
            permute_rec(items, used, cur, out);
            let _ = cur.pop();
            used.set(i, false);
            proof {
                assert(cur@ =~= c0);
                assert(used@ =~= u0);
                assert(orders_view(out@) =~= o0 + perms_upto(items@, u0, c0, (i + 1) as nat));
            }
        }
        i += 1;
    }
}

/// Whether `a` comes before `b`.
pub fn is_lex_less(a: &[usize], b: &[usize]) -> (r: bool)
    ensures
        r == lex_less(a@, b@),
{
    let mut k: usize = 0;
    while k < a.len() && k < b.len() && a[k] == b[k]
        invariant
            k <= a@.len(),
            k <= b@.len(),
            forall|j: int| 0 <= j < k ==> a@[j] == b@[j],
        decreases a@.len() - k,
    {
        k += 1;
    }
    let r = if k == b.len() {
        false
    } else if k == a.len() {
        true
    } else {
        a[k] < b[k]
    };
    proof {
        if r {
            assert(differs(a@, b@, k as int));
        }
        assert forall|m: int| #[trigger] differs(a@, b@, m) implies r by {
            if m < k {
                assert(a@[m] == b@[m]);
            } else if m > k {
                assert(a@[k as int] == b@[k as int]);
            }
        }
    }
    r
}

/// Group `a` is to come before group `b`, which precedes it by number.
pub open spec fn overtakes(keys: Seq<Cost>, down: bool, a: usize, b: usize) -> bool {
    if down {
        keys[a as int] > keys[b as int]
    } else {
        keys[a as int] < keys[b as int]
    }
}

/// Group `g` put into a sorted order: behind the last group that it does not overtake.
pub open spec fn inserted(s: Seq<usize>, keys: Seq<Cost>, down: bool, g: usize) -> Seq<usize>
    decreases s.len(),
{
    if s.len() > 0 && overtakes(keys, down, g, s.last()) {
        inserted(s.drop_last(), keys, down, g).push(s.last())
    } else {
        s.push(g)
    }
}

/// The first `k` groups by their keys, those with equal keys by number.
pub open spec fn by_key(keys: Seq<Cost>, down: bool, k: nat) -> Seq<usize>
    decreases k,
{
    if k == 0 {
        Seq::empty()
    } else {
        inserted(by_key(keys, down, (k - 1) as nat), keys, down, (k - 1) as usize)
    }
}

/// `a` is where it should be with respect to `b` behind it.
pub open spec fn in_place(keys: Seq<Cost>, down: bool, a: usize, b: usize) -> bool {
    !overtakes(keys, down, b, a) && (keys[a as int] == keys[b as int] ==> a < b)
}

/// What an order by keys is.
pub open spec fn is_by_key(keys: Seq<Cost>, down: bool, k: nat, s: Seq<usize>) -> bool {
    &&& s.len() == k
    &&& forall|x: int| 0 <= x < s.len() ==> #[trigger] s[x] < k
    &&& forall|x: int, y: int|
        0 <= x < y < s.len() ==> #[trigger] s[x] != #[trigger] s[y] && in_place(
            keys,
            down,
            s[x],
            s[y],
        )
}

/// Putting a group into a sorted order leaves it sorted.
proof fn lemma_inserted(s: Seq<usize>, keys: Seq<Cost>, down: bool, g: usize)
    requires
        forall|x: int| 0 <= x < s.len() ==> #[trigger] s[x] < g,
        forall|x: int, y: int|
            0 <= x < y < s.len() ==> #[trigger] s[x] != #[trigger] s[y] && in_place(
                keys,
                down,
                s[x],
                s[y],
            ),
    ensures
        is_by_key_of(s, keys, down, g, inserted(s, keys, down, g)),
    decreases s.len(),
{
    if s.len() > 0 && overtakes(keys, down, g, s.last()) {
        let d = s.drop_last();
        lemma_inserted(d, keys, down, g);
        let i = inserted(d, keys, down, g);
        let r = i.push(s.last());
        assert forall|x: int, y: int| 0 <= x < y < r.len() implies #[trigger] r[x]
            != #[trigger] r[y] && in_place(keys, down, r[x], r[y]) by {
            if y == r.len() - 1 {
                assert(i[x] == g || d.contains(i[x]));
                if i[x] != g {
                    let k = choose|k: int| 0 <= k < d.len() && d[k] == i[x];
                    assert(s[k] == i[x]);
                    assert(s[s.len() - 1] == s.last());
                }
            } else {
                assert(i[x] != i[y]);
            }
        }
        assert forall|x: int| 0 <= x < r.len() implies #[trigger] r[x] == g || s.contains(r[x]) by {
            if x < i.len() {
                assert(i[x] == g || d.contains(i[x]));
                if i[x] != g {
                    let k = choose|k: int| 0 <= k < d.len() && d[k] == i[x];
                    assert(s[k] == i[x]);
                }
            } else {
                assert(s[s.len() - 1] == r[x]);
            }
        }
    } else {
        let r = s.push(g);
        assert forall|x: int, y: int| 0 <= x < y < r.len() implies #[trigger] r[x]
            != #[trigger] r[y] && in_place(keys, down, r[x], r[y]) by {
            if y == r.len() - 1 {
                assert(s[x] < g);
                assert(s[s.len() - 1] == s.last());
                if x < s.len() - 1 {
                    assert(s[x] != s[s.len() - 1]);
                }
            } else {
                assert(s[x] != s[y]);
            }
        }
        assert forall|x: int| 0 <= x < r.len() implies #[trigger] r[x] == g || s.contains(r[x]) by {
            if x < s.len() {
                assert(s[x] == r[x]);
            }
        }
    }
}

/// `r` is the order `s` with `g` put in.
spec fn is_by_key_of(
    s: Seq<usize>,
    keys: Seq<Cost>,
    down: bool,
    g: usize,
    r: Seq<usize>,
) -> bool {
    &&& r.len() == s.len() + 1
    &&& forall|x: int| 0 <= x < r.len() ==> #[trigger] r[x] == g || s.contains(r[x])
    &&& forall|x: int, y: int|
        0 <= x < y < r.len() ==> #[trigger] r[x] != #[trigger] r[y] && in_place(
            keys,
            down,
            r[x],
            r[y],
        )
}

/// An order by keys holds every group once; groups come by their keys, and those with
/// equal keys by number.
pub proof fn law_by_key_is_sorted(keys: Seq<Cost>, down: bool, k: nat)
    requires
        k <= usize::MAX,
    ensures
        is_by_key(keys, down, k, by_key(keys, down, k)),
    decreases k,
{
    if k > 0 {
        let k1 = (k - 1) as nat;
        law_by_key_is_sorted(keys, down, k1);
        let s = by_key(keys, down, k1);
        lemma_inserted(s, keys, down, k1 as usize);
        let r = by_key(keys, down, k);
        assert forall|x: int| 0 <= x < r.len() implies #[trigger] r[x] < k by {
            if r[x] != k1 as usize {
                let y = choose|y: int| 0 <= y < s.len() && s[y] == r[x];
                assert(s[y] < k1);
            }
        }
    }
}

/// Putting a group in at the right place.
proof fn lemma_insert_at(s: Seq<usize>, keys: Seq<Cost>, down: bool, g: usize, pos: int)
    requires
        0 <= pos <= s.len(),
        pos == 0 || !overtakes(keys, down, g, s[pos - 1]),
        forall|x: int| pos <= x < s.len() ==> overtakes(keys, down, g, #[trigger] s[x]),
    ensures
        inserted(s, keys, down, g) == s.insert(pos, g),
    decreases s.len(),
{
    if pos < s.len() {
        let d = s.drop_last();
        assert(s[s.len() - 1] == s.last());
        lemma_insert_at(d, keys, down, g, pos);
        assert(d.insert(pos, g).push(s.last()) =~= s.insert(pos, g));
    } else {
        assert(s.push(g) =~= s.insert(pos, g));
    }
}

/// The groups by their keys, those with equal keys by number.
pub fn order_by_key(keys: &Vec<Cost>, down: bool) -> (r: Vec<usize>)
    ensures
        r@ == by_key(keys@, down, keys@.len()),
{
    let mut r: Vec<usize> = Vec::new();
    let mut g: usize = 0;
    assert(r@ =~= by_key(keys@, down, 0));
    while g < keys.len()
        invariant
            g <= keys@.len(),
            r@ == by_key(keys@, down, g as nat),
            forall|x: int| 0 <= x < r@.len() ==> #[trigger] r@[x] < g,
        decreases keys@.len() - g,
    {
        let mut pos: usize = r.len();
        let mut on = true;
        while pos > 0 && on
            invariant
                g < keys@.len(),
                pos <= r@.len(),
                forall|x: int| 0 <= x < r@.len() ==> #[trigger] r@[x] < g,
                forall|x: int| pos <= x < r@.len() ==> overtakes(keys@, down, g, #[trigger] r@[x]),
                !on ==> pos > 0 && !overtakes(keys@, down, g, r@[pos - 1]),
            decreases pos, on as int,
        {
            let e: usize = r[pos - 1];
            let before = if down { keys[g] > keys[e] } else { keys[g] < keys[e] };
            if before {
                pos -= 1;
            } else {
                on = false;
            }
        }
        proof {
            lemma_insert_at(r@, keys@, down, g, pos as int);
            law_by_key_is_sorted(keys@, down, (g + 1) as nat);
        }
        r.insert(pos, g);
        g += 1;
        assert(forall|x: int| 0 <= x < r@.len() ==> #[trigger] r@[x] < g);
    }
    r
}

/// The numbers below `n`.
pub open spec fn counting(n: nat) -> Seq<usize> {
    Seq::new(n, |i: int| i as usize)
}

/// The orders that are tried: by number, by rising and by falling key, and every order
/// where there are few groups.
pub open spec fn candidates(keys: Seq<Cost>) -> Seq<Seq<usize>> {
    let n = keys.len();
    let base = counting(n);
    let three = seq![base, by_key(keys, false, n), by_key(keys, true, n)];
    if n <= EXHAUSTIVE_GROUPS {
        three + all_orders(base)
    } else {
        three
    }
}

/// The orders that are tried.
pub fn candidate_orders(keys: &Vec<Cost>) -> (out: Vec<Vec<usize>>)
    ensures
        orders_view(out@) == candidates(keys@),
{
    let n: usize = keys.len();
    let base = crate::negotiate::indices(n);
    assert(base@ =~= counting(n as nat));
    let mut out: Vec<Vec<usize>> = Vec::new();
    out.push(copy_order(&base));
    out.push(order_by_key(keys, false));
    out.push(order_by_key(keys, true));
    let ghost three = orders_view(out@);
    assert(three =~= seq![
        base@,
        by_key(keys@, false, n as nat),
        by_key(keys@, true, n as nat),
    ]);
    if n <= EXHAUSTIVE_GROUPS {
        let all = permutations(base.as_slice());
        let mut k: usize = 0;
        assert(orders_view(out@) =~= three + orders_view(all@).take(0));
        while k < all.len()
            invariant
                k <= all@.len(),
                orders_view(out@) == three + orders_view(all@).take(k as int),
            decreases all@.len() - k,
        {
            let ghost b = orders_view(out@);
            out.push(copy_order(&all[k]));
            proof {
                assert(orders_view(out@) =~= b.push(all@[k as int]@));
                assert(orders_view(out@) =~= three + orders_view(all@).take(k + 1));
            }
            k += 1;
        }
        assert(orders_view(all@).take(all@.len() as int) =~= orders_view(all@));
    }
    out
}

/// Every order that is tried holds every group once.
pub proof fn law_candidates_arrange(keys: Seq<Cost>, x: int)
    requires
        keys.len() <= usize::MAX,
        0 <= x < candidates(keys).len(),
    ensures
        arranges(counting(keys.len()), candidates(keys)[x]),
{
    let n = keys.len();
    let base = counting(n);
    let q = candidates(keys)[x];
    law_by_key_is_sorted(keys, false, n);
    law_by_key_is_sorted(keys, true, n);
    if x < 3 {
        assert forall|k: int| 0 <= k < q.len() implies base.contains(#[trigger] q[k]) by {
            assert(base[q[k] as int] == q[k]);
        }
    } else {
        assert(q == all_orders(base)[x - 3]);
        assert(all_orders(base).contains(q));
        law_orders_are_complete(base, q);
    }
}

} // verus!
