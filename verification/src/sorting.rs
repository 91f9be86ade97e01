//! Putting things in order by keys.
//!
//! A key is a list of numbers, and keys compare like words in a dictionary. A text goes
//! into a key as its characters and an end mark below all characters, so that keys
//! compare as the texts do.
use vstd::prelude::*;

use crate::text::chars_of;

verus! {

/// The keys agree before place `k`, and there the first ends or has the lower number.
pub open spec fn parts_at(a: Seq<i64>, b: Seq<i64>, k: int) -> bool {
    &&& 0 <= k <= a.len()
    &&& k < b.len()
    &&& forall|j: int| 0 <= j < k ==> #[trigger] a[j] == b[j]
    &&& k < a.len() ==> a[k] < b[k]
}

/// The first key comes before the second.
pub open spec fn key_less(a: Seq<i64>, b: Seq<i64>) -> bool {
    exists|k: int| parts_at(a, b, k)
}

/// No key comes before itself, nor do two before each other.
pub proof fn lemma_less_asymmetric(a: Seq<i64>, b: Seq<i64>)
    requires
        key_less(a, b),
    ensures
        !key_less(b, a),
{
    let k = choose|k: int| parts_at(a, b, k);
    assert forall|m: int| !parts_at(b, a, m) by {
        if parts_at(b, a, m) {
            if k < m {
                assert(b[k] == a[k]);
            } else if m < k {
                assert(a[m] == b[m]);
            }
        }
    }
}

/// The order goes on from key to key.
proof fn lemma_less_transitive(a: Seq<i64>, b: Seq<i64>, c: Seq<i64>)
    requires
        key_less(a, b),
        key_less(b, c),
    ensures
        key_less(a, c),
{
    let k = choose|k: int| parts_at(a, b, k);
    let m = choose|m: int| parts_at(b, c, m);
    let least = if k < m {
        k
    } else {
        m
    };
    assert forall|j: int| 0 <= j < least implies #[trigger] a[j] == c[j] by {
        assert(a[j] == b[j]);
        assert(b[j] == c[j]);
    }
    if m < k {
        assert(a[m] == b[m]);
    } else if k < m {
        assert(b[k] == c[k]);
    }
    assert(parts_at(a, c, least));
}

/// Of two different keys one comes before the other.
pub proof fn lemma_less_total(a: Seq<i64>, b: Seq<i64>)
    requires
        a != b,
    ensures
        key_less(a, b) || key_less(b, a),
{
    let k = first_difference(a, b, 0);
    lemma_first_difference(a, b, 0);
    if k >= a.len() && k >= b.len() {
        assert(a =~= b);
    } else if k >= a.len() {
        assert(parts_at(a, b, k));
    } else if k >= b.len() {
        assert(parts_at(b, a, k));
    } else if a[k] < b[k] {
        assert(parts_at(a, b, k));
    } else {
        assert(parts_at(b, a, k));
    }
}

/// The first place from `k` on where the keys differ or one of them ends.
spec fn first_difference(a: Seq<i64>, b: Seq<i64>, k: int) -> int
    decreases a.len() - k,
{
    if 0 <= k < a.len() && k < b.len() && a[k] == b[k] {
        first_difference(a, b, k + 1)
    } else {
        k
    }
}

proof fn lemma_first_difference(a: Seq<i64>, b: Seq<i64>, k: int)
    requires
        0 <= k <= a.len(),
        k <= b.len(),
        forall|j: int| 0 <= j < k ==> a[j] == b[j],
    ensures
        k <= first_difference(a, b, k) <= a.len(),
        first_difference(a, b, k) <= b.len(),
        forall|j: int| 0 <= j < first_difference(a, b, k) ==> #[trigger] a[j] == b[j],
        first_difference(a, b, k) < a.len() && first_difference(a, b, k) < b.len()
            ==> a[first_difference(a, b, k)] != b[first_difference(a, b, k)],
    decreases a.len() - k,
{
    if k < a.len() && k < b.len() && a[k] == b[k] {
        lemma_first_difference(a, b, k + 1);
    }
}

/// Whether the first key comes before the second.
pub fn is_key_less(a: &Vec<i64>, b: &Vec<i64>) -> (r: bool)
    ensures
        r == key_less(a@, b@),
{
    let mut k: usize = 0;
    while k < a.len() && k < b.len() && a[k] == b[k]
        invariant
            k <= a@.len(),
            k <= b@.len(),
            forall|j: int| 0 <= j < k ==> #[trigger] a@[j] == b@[j],
        decreases a@.len() - k,
    {
        k += 1;
    }
    let r: bool = k < b.len() && (k == a.len() || a[k] < b[k]);
    proof {
        if r {
            assert(parts_at(a@, b@, k as int));
        } else if k < b@.len() {
            assert(parts_at(b@, a@, k as int));
            lemma_less_asymmetric(b@, a@);
        } else if k < a@.len() {
            assert(parts_at(b@, a@, k as int));
            lemma_less_asymmetric(b@, a@);
        } else {
            assert forall|m: int| !parts_at(a@, b@, m) by {}
        }
    }
    r
}

/// Thing `x` comes before thing `y`: its key does, or the keys are the same and it was
/// there first.
pub open spec fn precedes(keys: Seq<Seq<i64>>, x: int, y: int) -> bool {
    key_less(keys[x], keys[y]) || (keys[x] == keys[y] && x < y)
}

/// Every thing once, each before those that it precedes.
pub open spec fn is_order(keys: Seq<Seq<i64>>, order: Seq<usize>) -> bool {
    &&& order.len() == keys.len()
    &&& forall|i: int| 0 <= i < order.len() ==> (#[trigger] order[i]) < keys.len()
    &&& forall|x: usize| x < keys.len() ==> #[trigger] order.contains(x)
    &&& forall|i: int, j: int|
        0 <= i < j < order.len() ==> precedes(
            keys,
            #[trigger] order[i] as int,
            #[trigger] order[j] as int,
        )
}

/// The things in order.
pub open spec fn order_of(keys: Seq<Seq<i64>>) -> Seq<usize> {
    choose|order: Seq<usize>| is_order(keys, order)
}

proof fn lemma_precedes_transitive(keys: Seq<Seq<i64>>, x: int, y: int, z: int)
    requires
        precedes(keys, x, y),
        precedes(keys, y, z),
    ensures
        precedes(keys, x, z),
{
    if key_less(keys[x], keys[y]) && key_less(keys[y], keys[z]) {
        lemma_less_transitive(keys[x], keys[y], keys[z]);
    }
}

pub proof fn lemma_precedes_asymmetric(keys: Seq<Seq<i64>>, x: int, y: int)
    requires
        precedes(keys, x, y),
    ensures
        !precedes(keys, y, x),
{
    if key_less(keys[x], keys[y]) {
        lemma_less_asymmetric(keys[x], keys[y]);
    } else if key_less(keys[y], keys[x]) {
        lemma_less_asymmetric(keys[y], keys[x]);
    }
}

/// The things come in order.
pub open spec fn is_rising(keys: Seq<Seq<i64>>, list: Seq<usize>) -> bool {
    forall|i: int, j: int|
        0 <= i < j < list.len() ==> precedes(
            keys,
            #[trigger] list[i] as int,
            #[trigger] list[j] as int,
        )
}

/// Lists of the same things in order are the same.
pub proof fn lemma_same_list(keys: Seq<Seq<i64>>, a: Seq<usize>, b: Seq<usize>)
    requires
        is_rising(keys, a),
        is_rising(keys, b),
        forall|x: usize| #[trigger] a.contains(x) <==> b.contains(x),
    ensures
        a == b,
    decreases a.len(),
{
    if a.len() == 0 {
        if b.len() > 0 {
            assert(b.contains(b[0]));
            assert(a.contains(b[0]));
        }
        assert(a =~= b);
    } else {
        assert(a.contains(a[0]));
        let m = choose|m: int| 0 <= m < b.len() && b[m] == a[0];
        assert(b.contains(b[0]));
        assert(a.contains(b[0]));
        let l = choose|l: int| 0 <= l < a.len() && a[l] == b[0];
        if m > 0 {
            assert(precedes(keys, b[0] as int, b[m] as int));
            if l > 0 {
                assert(precedes(keys, a[0] as int, a[l] as int));
            }
            lemma_precedes_asymmetric(keys, b[0] as int, a[0] as int);
        }
        assert(a[0] == b[0]);
        let x = a.skip(1);
        let y = b.skip(1);
        assert forall|u: usize| #[trigger] x.contains(u) <==> y.contains(u) by {
            lemma_skip_first(keys, a, u);
            lemma_skip_first(keys, b, u);
            assert(a.contains(u) <==> b.contains(u));
        }
        assert forall|i: int, j: int| 0 <= i < j < x.len() implies precedes(
            keys,
            #[trigger] x[i] as int,
            #[trigger] x[j] as int,
        ) by {
            assert(precedes(keys, a[i + 1] as int, a[j + 1] as int));
        }
        assert forall|i: int, j: int| 0 <= i < j < y.len() implies precedes(
            keys,
            #[trigger] y[i] as int,
            #[trigger] y[j] as int,
        ) by {
            assert(precedes(keys, b[i + 1] as int, b[j + 1] as int));
        }
        lemma_same_list(keys, x, y);
        assert(a =~= seq![a[0]] + x);
        assert(b =~= seq![b[0]] + y);
    }
}

/// What is left of a list in order without its first thing.
proof fn lemma_skip_first(keys: Seq<Seq<i64>>, a: Seq<usize>, u: usize)
    requires
        is_rising(keys, a),
        a.len() > 0,
    ensures
        a.skip(1).contains(u) <==> a.contains(u) && u != a[0],
{
    let x = a.skip(1);
    if x.contains(u) {
        let i = choose|i: int| 0 <= i < x.len() && x[i] == u;
        assert(a[i + 1] == u);
        assert(precedes(keys, a[0] as int, a[i + 1] as int));
        lemma_precedes_asymmetric(keys, a[0] as int, a[i + 1] as int);
    }
    if a.contains(u) && u != a[0] {
        let i = choose|i: int| 0 <= i < a.len() && a[i] == u;
        assert(x[i - 1] == u);
    }
}

/// There is only one order.
pub proof fn law_one_order(keys: Seq<Seq<i64>>, a: Seq<usize>, b: Seq<usize>)
    requires
        is_order(keys, a),
        is_order(keys, b),
    ensures
        a == b,
{
    assert forall|x: usize| #[trigger] a.contains(x) <==> b.contains(x) by {
        if a.contains(x) {
            let i = choose|i: int| 0 <= i < a.len() && a[i] == x;
            assert(a[i] < keys.len());
        }
        if b.contains(x) {
            let i = choose|i: int| 0 <= i < b.len() && b[i] == x;
            assert(b[i] < keys.len());
        }
    }
    lemma_same_list(keys, a, b);
}

/// Where thing `g` goes among the things before it, which are in order.
fn place_for(keys: &Vec<Vec<i64>>, order: &Vec<usize>, g: usize) -> (pos: usize)
    requires
        g < keys@.len(),
        forall|i: int| 0 <= i < order@.len() ==> (#[trigger] order@[i]) < g,
        forall|i: int, j: int|
            0 <= i < j < order@.len() ==> precedes(
                keys.deep_view(),
                #[trigger] order@[i] as int,
                #[trigger] order@[j] as int,
            ),
    ensures
        pos <= order@.len(),
        forall|i: int|
            0 <= i < pos ==> precedes(keys.deep_view(), #[trigger] order@[i] as int, g as int),
        forall|i: int|
            pos <= i < order@.len() ==> precedes(
                keys.deep_view(),
                g as int,
                #[trigger] order@[i] as int,
            ),
{
    let ghost all = keys.deep_view();
    let mut lo: usize = 0;
    let mut hi: usize = order.len();
    while lo < hi
        invariant
            g < keys@.len(),
            all == keys.deep_view(),
            lo <= hi <= order@.len(),
            forall|i: int| 0 <= i < order@.len() ==> (#[trigger] order@[i]) < g,
            forall|i: int, j: int|
                0 <= i < j < order@.len() ==> precedes(
                    all,
                    #[trigger] order@[i] as int,
                    #[trigger] order@[j] as int,
                ),
            forall|i: int| 0 <= i < lo ==> precedes(all, #[trigger] order@[i] as int, g as int),
            forall|i: int|
                hi <= i < order@.len() ==> precedes(all, g as int, #[trigger] order@[i] as int),
        decreases hi - lo,
    {
        let mid: usize = lo + (hi - lo) / 2;
        let e: usize = order[mid];
        assert(all[g as int] =~= keys@[g as int]@);
        assert(all[e as int] =~= keys@[e as int]@);
        if is_key_less(&keys[g], &keys[e]) {
            proof {
                assert forall|i: int| mid <= i < order@.len() implies precedes(
                    all,
                    g as int,
                    #[trigger] order@[i] as int,
                ) by {
                    if mid < i {
                        assert(precedes(all, order@[mid as int] as int, order@[i] as int));
                        lemma_precedes_transitive(all, g as int, e as int, order@[i] as int);
                    }
                }
            }
            hi = mid;
        } else {
            proof {
                if all[e as int] != all[g as int] {
                    lemma_less_total(all[e as int], all[g as int]);
                }
                assert(precedes(all, e as int, g as int));
                assert forall|i: int| 0 <= i < mid + 1 implies precedes(
                    all,
                    #[trigger] order@[i] as int,
                    g as int,
                ) by {
                    if i < mid {
                        assert(precedes(all, order@[i] as int, order@[mid as int] as int));
                        lemma_precedes_transitive(all, order@[i] as int, e as int, g as int);
                    }
                }
            }
            lo = mid + 1;
        }
    }
    lo
}

/// The things in order.
pub fn sorted_order(keys: &Vec<Vec<i64>>) -> (order: Vec<usize>)
    ensures
        is_order(keys.deep_view(), order@),
        order@ == order_of(keys.deep_view()),
{
    let ghost all = keys.deep_view();
    let mut order: Vec<usize> = Vec::new();
    let mut g: usize = 0;
    while g < keys.len()
        invariant
            g <= keys@.len(),
            all == keys.deep_view(),
            order@.len() == g,
            forall|i: int| 0 <= i < order@.len() ==> (#[trigger] order@[i]) < g,
            forall|x: usize| x < g ==> #[trigger] order@.contains(x),
            forall|i: int, j: int|
                0 <= i < j < order@.len() ==> precedes(
                    all,
                    #[trigger] order@[i] as int,
                    #[trigger] order@[j] as int,
                ),
        decreases keys@.len() - g,
    {
        let pos: usize = place_for(keys, &order, g);
        let ghost before = order@;
        order.insert(pos, g);
        proof {
            assert forall|x: usize| x < g + 1 implies #[trigger] order@.contains(x) by {
                if x == g {
                    assert(order@[pos as int] == x);
                } else {
                    assert(before.contains(x));
                    let i = choose|i: int| 0 <= i < before.len() && before[i] == x;
                    if i < pos {
                        assert(order@[i] == x);
                    } else {
                        assert(order@[i + 1] == x);
                    }
                }
            }
            assert forall|i: int, j: int| 0 <= i < j < order@.len() implies precedes(
                all,
                #[trigger] order@[i] as int,
                #[trigger] order@[j] as int,
            ) by {
                let a = if i < pos {
                    i
                } else {
                    i - 1
                };
                let b = if j < pos {
                    j
                } else {
                    j - 1
                };
                if i != pos && j != pos {
                    assert(precedes(all, before[a] as int, before[b] as int));
                } else if i == pos {
                    assert(precedes(all, g as int, before[b] as int));
                } else {
                    assert(precedes(all, before[a] as int, g as int));
                }
            }
        }
        g += 1;
    }
    proof {
        assert(is_order(all, order@));
        law_one_order(all, order@, order_of(all));
    }
    order
}

/// The keys in order.
pub open spec fn sorted_keys(keys: Seq<Seq<i64>>) -> Seq<Seq<i64>> {
    Seq::new(keys.len(), |i: int| keys[order_of(keys)[i] as int])
}

/// Each of the first `n` numbers once.
pub open spec fn is_permutation(order: Seq<usize>, n: nat) -> bool {
    &&& order.len() == n
    &&& order.no_duplicates()
    &&& forall|i: int| 0 <= i < order.len() ==> (#[trigger] order[i]) < n
    &&& forall|x: usize| x < n ==> #[trigger] order.contains(x)
}

/// An order has each thing once.
pub proof fn lemma_order_permutes(keys: Seq<Seq<i64>>, order: Seq<usize>)
    requires
        is_order(keys, order),
    ensures
        is_permutation(order, keys.len()),
{
    assert forall|i: int, j: int|
        0 <= i < order.len() && 0 <= j < order.len() && i != j implies order[i] != order[j] by {
        if i < j {
            assert(precedes(keys, order[i] as int, order[j] as int));
            lemma_precedes_asymmetric(keys, order[i] as int, order[j] as int);
        } else {
            assert(precedes(keys, order[j] as int, order[i] as int));
            lemma_precedes_asymmetric(keys, order[j] as int, order[i] as int);
        }
    }
}

/// Rearranging a list does not change how often anything is in it.
pub proof fn lemma_permuted<A>(s: Seq<A>, order: Seq<usize>)
    requires
        is_permutation(order, s.len()),
        s.len() <= usize::MAX,
    ensures
        Seq::new(s.len(), |i: int| s[order[i] as int]).to_multiset() == s.to_multiset(),
    decreases s.len(),
{
    let t = Seq::new(s.len(), |i: int| s[order[i] as int]);
    if s.len() == 0 {
        assert(t =~= s);
    } else {
        let n = s.len();
        let top = (n - 1) as usize;
        assert(order.contains(top));
        let p = choose|p: int| 0 <= p < order.len() && order[p] == top;
        let rest = order.remove(p);
        let front = s.drop_last();
        assert forall|i: int| 0 <= i < rest.len() implies (#[trigger] rest[i]) < n - 1 by {
            let k = if i < p {
                i
            } else {
                i + 1
            };
            assert(rest[i] == order[k]);
        }
        assert forall|x: usize| x < n - 1 implies #[trigger] rest.contains(x) by {
            assert(order.contains(x));
            let q = choose|q: int| 0 <= q < order.len() && order[q] == x;
            if q < p {
                assert(rest[q] == x);
            } else {
                assert(rest[q - 1] == x);
            }
        }
        assert(rest.no_duplicates());
        lemma_permuted(front, rest);
        let u = Seq::new(front.len(), |i: int| front[rest[i] as int]);
        assert(t.remove(p) =~= u);
        t.to_multiset_ensures();
        assert(t.to_multiset() =~= u.to_multiset().insert(t[p])) by {
            assert(t.remove(p).to_multiset() =~= t.to_multiset().remove(t[p]));
            assert(t.to_multiset().contains(t[p]));
        }
        front.to_multiset_ensures();
        assert(front.push(s.last()) =~= s);
    }
}

/// How many of the things in order come before thing `g`.
spec fn place(keys: Seq<Seq<i64>>, order: Seq<usize>, g: int) -> int
    decreases order.len(),
{
    if order.len() == 0 {
        0
    } else if precedes(keys, order.last() as int, g) {
        order.len() as int
    } else {
        place(keys, order.drop_last(), g)
    }
}

proof fn lemma_place(keys: Seq<Seq<i64>>, order: Seq<usize>, g: int)
    requires
        forall|i: int| 0 <= i < order.len() ==> (#[trigger] order[i]) != g,
        forall|i: int, j: int|
            0 <= i < j < order.len() ==> precedes(
                keys,
                #[trigger] order[i] as int,
                #[trigger] order[j] as int,
            ),
    ensures
        0 <= place(keys, order, g) <= order.len(),
        forall|i: int|
            0 <= i < place(keys, order, g) ==> precedes(keys, #[trigger] order[i] as int, g),
        forall|i: int|
            place(keys, order, g) <= i < order.len() ==> precedes(
                keys,
                g,
                #[trigger] order[i] as int,
            ),
    decreases order.len(),
{
    if order.len() > 0 {
        let n = order.len() - 1;
        let last = order[n] as int;
        let front = order.drop_last();
        if precedes(keys, last, g) {
            assert forall|i: int| 0 <= i < order.len() implies precedes(
                keys,
                #[trigger] order[i] as int,
                g,
            ) by {
                if i < n {
                    assert(precedes(keys, order[i] as int, order[n] as int));
                    lemma_precedes_transitive(keys, order[i] as int, last, g);
                }
            }
        } else {
            assert forall|i: int, j: int| 0 <= i < j < front.len() implies precedes(
                keys,
                #[trigger] front[i] as int,
                #[trigger] front[j] as int,
            ) by {
                assert(precedes(keys, order[i] as int, order[j] as int));
            }
            lemma_place(keys, front, g);
            if keys[last] != keys[g] {
                lemma_less_total(keys[last], keys[g]);
            }
            assert forall|i: int| place(keys, order, g) <= i < order.len() implies precedes(
                keys,
                g,
                #[trigger] order[i] as int,
            ) by {
                if i < n {
                    assert(front[i] == order[i]);
                }
            }
            assert forall|i: int| 0 <= i < place(keys, order, g) implies precedes(
                keys,
                #[trigger] order[i] as int,
                g,
            ) by {
                assert(front[i] == order[i]);
            }
        }
    }
}

/// Things can always be put in order.
pub proof fn law_an_order_exists(keys: Seq<Seq<i64>>)
    requires
        keys.len() <= usize::MAX,
    ensures
        is_order(keys, order_of(keys)),
{
    let order = lemma_order_upto(keys, keys.len());
    assert(is_order(keys, order));
}

/// The first `n` things in order.
proof fn lemma_order_upto(keys: Seq<Seq<i64>>, n: nat) -> (order: Seq<usize>)
    requires
        n <= keys.len() <= usize::MAX,
    ensures
        order.len() == n,
        forall|i: int| 0 <= i < order.len() ==> (#[trigger] order[i]) < n,
        forall|x: usize| x < n ==> #[trigger] order.contains(x),
        forall|i: int, j: int|
            0 <= i < j < order.len() ==> precedes(
                keys,
                #[trigger] order[i] as int,
                #[trigger] order[j] as int,
            ),
    decreases n,
{
    if n == 0 {
        seq![]
    } else {
        let g = n - 1;
        let before = lemma_order_upto(keys, g as nat);
        lemma_place(keys, before, g);
        let pos = place(keys, before, g);
        let order = before.insert(pos, g as usize);
        assert forall|x: usize| x < n implies #[trigger] order.contains(x) by {
            if x == g {
                assert(order[pos] == x);
            } else {
                assert(before.contains(x));
                let i = choose|i: int| 0 <= i < before.len() && before[i] == x;
                if i < pos {
                    assert(order[i] == x);
                } else {
                    assert(order[i + 1] == x);
                }
            }
        }
        assert forall|i: int, j: int| 0 <= i < j < order.len() implies precedes(
            keys,
            #[trigger] order[i] as int,
            #[trigger] order[j] as int,
        ) by {
            let a = if i < pos {
                i
            } else {
                i - 1
            };
            let b = if j < pos {
                j
            } else {
                j - 1
            };
            if i != pos && j != pos {
                assert(precedes(keys, before[a] as int, before[b] as int));
            } else if i == pos {
                assert(precedes(keys, g, before[b] as int));
            } else {
                assert(precedes(keys, before[a] as int, g));
            }
        }
        order
    }
}

/// What the keys in order are does not depend on the order in which they came.
pub proof fn law_order_ignores_shuffling(a: Seq<Seq<i64>>, b: Seq<Seq<i64>>)
    requires
        a.to_multiset() == b.to_multiset(),
        a.len() <= usize::MAX,
        b.len() <= usize::MAX,
    ensures
        sorted_keys(a) == sorted_keys(b),
{
    let leq = |x: Seq<i64>, y: Seq<i64>| x == y || key_less(x, y);
    assert(vstd::relations::total_ordering(leq)) by {
        assert forall|x: Seq<i64>, y: Seq<i64>| #[trigger] leq(x, y) && #[trigger] leq(
            y,
            x,
        ) implies x == y by {
            if x != y {
                lemma_less_asymmetric(x, y);
            }
        }
        assert forall|x: Seq<i64>, y: Seq<i64>, z: Seq<i64>| #[trigger] leq(x, y) && #[trigger] leq(
            y,
            z,
        ) implies leq(x, z) by {
            if x != y && y != z {
                lemma_less_transitive(x, y, z);
            }
        }
        assert forall|x: Seq<i64>, y: Seq<i64>| #[trigger] leq(x, y) || #[trigger] leq(y, x) by {
            if x != y {
                lemma_less_total(x, y);
            }
        }
    }
    lemma_sorted_keys(a, leq);
    lemma_sorted_keys(b, leq);
    vstd::seq_lib::lemma_sorted_unique(sorted_keys(a), sorted_keys(b), leq);
}

/// The keys in order are in order, and are the same keys.
proof fn lemma_sorted_keys(keys: Seq<Seq<i64>>, leq: spec_fn(Seq<i64>, Seq<i64>) -> bool)
    requires
        keys.len() <= usize::MAX,
        leq == (|x: Seq<i64>, y: Seq<i64>| x == y || key_less(x, y)),
    ensures
        vstd::relations::sorted_by(sorted_keys(keys), leq),
        sorted_keys(keys).to_multiset() == keys.to_multiset(),
{
    let order = order_of(keys);
    law_an_order_exists(keys);
    lemma_order_permutes(keys, order);
    lemma_permuted(keys, order);
    let s = sorted_keys(keys);
    assert forall|i: int, j: int| 0 <= i < j < s.len() implies #[trigger] leq(s[i], s[j]) by {
        assert(precedes(keys, order[i] as int, order[j] as int));
    }
}

/// A text as part of a key: its characters, and an end mark below them all.
pub open spec fn text_key(s: Seq<char>) -> Seq<i64> {
    s.map_values(|c: char| c as u32 as i64).push(-1i64)
}

/// A text as part of a key, put at the end of one.
pub fn push_text(key: &mut Vec<i64>, text: &str)
    ensures
        final(key)@ == old(key)@ + text_key(text@),
{
    let chars: Vec<char> = chars_of(text);
    let mut i: usize = 0;
    let ghost before = key@;
    assert(key@ =~= before + chars@.take(0).map_values(|c: char| c as u32 as i64));
    while i < chars.len()
        invariant
            i <= chars@.len(),
            key@ == before + chars@.take(i as int).map_values(|c: char| c as u32 as i64),
        decreases chars@.len() - i,
    {
        let c: char = chars[i];
        key.push(c as u32 as i64);
        i += 1;
        assert(key@ =~= before + chars@.take(i as int).map_values(|c: char| c as u32 as i64));
    }
    key.push(-1);
    assert(chars@.take(chars@.len() as int) =~= text@);
    assert(key@ =~= before + text_key(text@));
}

/// The texts agree before place `k`, and there the first ends or has the lower
/// character.
pub open spec fn text_parts_at(a: Seq<char>, b: Seq<char>, k: int) -> bool {
    &&& 0 <= k <= a.len()
    &&& k < b.len()
    &&& forall|j: int| 0 <= j < k ==> #[trigger] a[j] == b[j]
    &&& k < a.len() ==> a[k] < b[k]
}

/// The first text comes before the second in a dictionary.
pub open spec fn text_less(a: Seq<char>, b: Seq<char>) -> bool {
    exists|k: int| text_parts_at(a, b, k)
}

/// The number of a character in a key is its own.
pub proof fn lemma_char_number(c: char)
    ensures
        c as u32 as i64 == c as int,
        c as int >= 0,
{
}

/// Places where texts part are places where keys that begin with them part.
proof fn lemma_text_parts(a: Seq<char>, b: Seq<char>, x: Seq<i64>, y: Seq<i64>)
    requires
        text_less(a, b),
    ensures
        key_less(text_key(a) + x, text_key(b) + y),
{
    let k = choose|k: int| text_parts_at(a, b, k);
    let p = text_key(a) + x;
    let q = text_key(b) + y;
    assert forall|j: int| 0 <= j < k implies #[trigger] p[j] == q[j] by {
        assert(a[j] == b[j]);
    }
    lemma_char_number(b[k]);
    assert(q[k] == b[k] as u32 as i64);
    if k < a.len() {
        lemma_char_number(a[k]);
        assert(p[k] == a[k] as u32 as i64);
    } else {
        assert(p[k] == -1);
    }
    assert(parts_at(p, q, k));
}

/// Of two different texts one comes before the other.
pub proof fn lemma_text_total(a: Seq<char>, b: Seq<char>, k: int)
    requires
        0 <= k <= a.len(),
        k <= b.len(),
        forall|j: int| 0 <= j < k ==> a[j] == b[j],
    ensures
        a == b || text_less(a, b) || text_less(b, a),
    decreases a.len() - k,
{
    if k == a.len() && k == b.len() {
        assert(a =~= b);
    } else if k == a.len() {
        assert(text_parts_at(a, b, k));
    } else if k == b.len() {
        assert(text_parts_at(b, a, k));
    } else if a[k] == b[k] {
        lemma_text_total(a, b, k + 1);
    } else if a[k] < b[k] {
        assert(text_parts_at(a, b, k));
    } else {
        assert(text_parts_at(b, a, k));
    }
}

/// Keys that begin with texts compare as the texts do, and as what follows where the
/// texts are the same.
pub proof fn law_keys_compare_as_texts(a: Seq<char>, b: Seq<char>, x: Seq<i64>, y: Seq<i64>)
    ensures
        key_less(text_key(a) + x, text_key(b) + y) <==> text_less(a, b) || (a == b && key_less(
            x,
            y,
        )),
{
    let p = text_key(a) + x;
    let q = text_key(b) + y;
    lemma_text_total(a, b, 0);
    if text_less(a, b) {
        lemma_text_parts(a, b, x, y);
    } else if a == b {
        let n = text_key(a).len() as int;
        if key_less(x, y) {
            let k = choose|k: int| parts_at(x, y, k);
            assert forall|j: int| 0 <= j < n + k implies #[trigger] p[j] == q[j] by {
                if j >= n {
                    assert(x[j - n] == y[j - n]);
                }
            }
            assert(parts_at(p, q, n + k));
        }
        if key_less(p, q) {
            let k = choose|k: int| parts_at(p, q, k);
            assert(k >= n) by {
                if k < n {
                    assert(p[k] == q[k]);
                }
            }
            assert forall|j: int| 0 <= j < k - n implies #[trigger] x[j] == y[j] by {
                assert(p[n + j] == q[n + j]);
            }
            assert(parts_at(x, y, k - n));
        }
    } else {
        lemma_text_parts(b, a, y, x);
        lemma_less_asymmetric(q, p);
    }
}

/// A text is a key of its own.
pub proof fn lemma_text_is_key(a: Seq<char>, b: Seq<char>)
    ensures
        key_less(text_key(a), text_key(b))
            <==> text_less(a, b),
        text_key(a) == text_key(b) ==> a == b,
{
    let none = Seq::<i64>::empty();
    law_keys_compare_as_texts(a, b, none, none);
    assert(text_key(a) + none =~= text_key(a));
    assert(text_key(b) + none =~= text_key(b));
    if text_key(a) == text_key(b) {
        let x = text_key(a);
        let y = text_key(b);
        assert(x.len() == a.len() + 1 && y.len() == b.len() + 1);
        assert forall|k: int| 0 <= k < a.len() implies a[k] == b[k] by {
            assert(x[k] == y[k]);
            lemma_char_number(a[k]);
            lemma_char_number(b[k]);
        }
        assert(a =~= b);
    }
}

/// Keys that begin with texts are the same only where the texts are, and what follows.
pub proof fn lemma_text_prefix(a: Seq<char>, b: Seq<char>, x: Seq<i64>, y: Seq<i64>)
    requires
        text_key(a) + x == text_key(b) + y,
    ensures
        a == b,
        x == y,
{
    law_keys_compare_as_texts(a, b, x, y);
    law_keys_compare_as_texts(b, a, y, x);
    lemma_text_total(a, b, 0);
    let p = text_key(a) + x;
    if key_less(p, p) {
        lemma_less_asymmetric(p, p);
    }
    assert(p.skip(text_key(a).len() as int) =~= x);
    assert((text_key(b) + y).skip(text_key(b).len() as int) =~= y);
}

} // verus!
