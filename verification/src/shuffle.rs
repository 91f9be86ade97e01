//! Lists that hold the same things in another order.
use vstd::prelude::*;

verus! {

/// What `f` gives for each of the items, one after the other.
pub open spec fn flat<A, B>(items: Seq<A>, f: spec_fn(A) -> Seq<B>) -> Seq<B>
    decreases items.len(),
{
    if items.len() == 0 {
        seq![]
    } else {
        flat(items.drop_last(), f) + f(items.last())
    }
}

/// Two lists together hold what each of them holds.
pub proof fn lemma_together<A>(a: Seq<A>, b: Seq<A>)
    ensures
        (a + b).to_multiset() == a.to_multiset().add(b.to_multiset()),
{
    vstd::seq_lib::lemma_multiset_commutative(a, b);
}

/// One item more at the end.
pub proof fn lemma_flat_push<A, B>(items: Seq<A>, x: A, f: spec_fn(A) -> Seq<B>)
    ensures
        flat(items.push(x), f) == flat(items, f) + f(x),
{
    assert(items.push(x).drop_last() =~= items);
}

/// More items at the end.
pub proof fn lemma_flat_joined<A, B>(a: Seq<A>, b: Seq<A>, f: spec_fn(A) -> Seq<B>)
    ensures
        flat(a + b, f) == flat(a, f) + flat(b, f),
    decreases b.len(),
{
    if b.len() == 0 {
        assert(a + b =~= a);
        assert(flat(a, f) + flat(b, f) =~= flat(a, f));
    } else {
        lemma_flat_joined(a, b.drop_last(), f);
        assert((a + b).drop_last() =~= a + b.drop_last());
        assert((flat(a, f) + flat(b.drop_last(), f)) + f(b.last()) =~= flat(a, f) + flat(b, f));
    }
}

/// An item can be taken out.
pub proof fn lemma_flat_remove<A, B>(items: Seq<A>, f: spec_fn(A) -> Seq<B>, i: int)
    requires
        0 <= i < items.len(),
    ensures
        flat(items, f).to_multiset() == flat(items.remove(i), f).to_multiset().add(
            f(items[i]).to_multiset(),
        ),
    decreases items.len(),
{
    let front = items.drop_last();
    let last = items.last();
    lemma_together(flat(front, f), f(last));
    if i == items.len() - 1 {
        assert(items.remove(i) =~= front);
    } else {
        lemma_flat_remove(front, f, i);
        assert(items.remove(i) =~= front.remove(i).push(last));
        lemma_flat_push(front.remove(i), last, f);
        lemma_together(flat(front.remove(i), f), f(last));
        assert(flat(items, f).to_multiset() =~= flat(items.remove(i), f).to_multiset().add(
            f(items[i]).to_multiset(),
        ));
    }
}

/// Where a list of the same things holds the last of them, and what is left of it.
pub proof fn lemma_take_out<A>(a: Seq<A>, b: Seq<A>) -> (i: int)
    requires
        a.to_multiset() == b.to_multiset(),
        a.len() > 0,
    ensures
        0 <= i < b.len(),
        b[i] == a.last(),
        a.drop_last().to_multiset() == b.remove(i).to_multiset(),
{
    a.to_multiset_ensures();
    b.to_multiset_ensures();
    assert(a.contains(a.last()));
    assert(b.to_multiset().count(a.last()) > 0);
    let i = choose|i: int| 0 <= i < b.len() && b[i] == a.last();
    assert(a.remove(a.len() - 1) =~= a.drop_last());
    i
}

/// What a list gives does not depend on its order.
pub proof fn lemma_flat_shuffled<A, B>(a: Seq<A>, b: Seq<A>, f: spec_fn(A) -> Seq<B>)
    requires
        a.to_multiset() == b.to_multiset(),
    ensures
        flat(a, f).to_multiset() == flat(b, f).to_multiset(),
    decreases a.len(),
{
    a.to_multiset_ensures();
    b.to_multiset_ensures();
    if a.len() == 0 {
        assert(b.len() == 0);
    } else {
        let i = lemma_take_out(a, b);
        lemma_flat_shuffled(a.drop_last(), b.remove(i), f);
        lemma_flat_remove(b, f, i);
        lemma_together(flat(a.drop_last(), f), f(a.last()));
    }
}

/// Giving one thing for each item is to map it.
pub proof fn lemma_flat_map<A, B>(items: Seq<A>, f: spec_fn(A) -> B)
    ensures
        flat(items, |x: A| seq![f(x)]) == items.map_values(f),
    decreases items.len(),
{
    let g = |x: A| seq![f(x)];
    if items.len() > 0 {
        lemma_flat_map(items.drop_last(), f);
        assert(items.drop_last().map_values(f) + seq![f(items.last())] =~= items.map_values(f));
    } else {
        assert(flat(items, g) =~= items.map_values(f));
    }
}

/// Mapping a list does not depend on its order.
pub proof fn lemma_map_shuffled<A, B>(a: Seq<A>, b: Seq<A>, f: spec_fn(A) -> B)
    requires
        a.to_multiset() == b.to_multiset(),
    ensures
        a.map_values(f).to_multiset() == b.map_values(f).to_multiset(),
{
    lemma_flat_map(a, f);
    lemma_flat_map(b, f);
    lemma_flat_shuffled(a, b, |x: A| seq![f(x)]);
}

/// What `g` gives for each two of the items, one after the other.
pub open spec fn cross<A, B>(items: Seq<A>, g: spec_fn(A, A) -> Seq<B>) -> Seq<B>
    decreases items.len(),
{
    if items.len() == 0 {
        seq![]
    } else {
        let last = items.last();
        cross(items.drop_last(), g) + flat(items.drop_last(), |x: A| g(x, last))
    }
}

/// It does not matter which of two items comes first.
pub open spec fn is_mutual<A, B>(g: spec_fn(A, A) -> Seq<B>) -> bool {
    forall|x: A, y: A| #[trigger] g(x, y) == g(y, x)
}

/// An item can be taken out of the pairs.
proof fn lemma_cross_remove<A, B>(items: Seq<A>, g: spec_fn(A, A) -> Seq<B>, i: int)
    requires
        0 <= i < items.len(),
        is_mutual(g),
    ensures
        cross(items, g).to_multiset() == cross(items.remove(i), g).to_multiset().add(
            flat(items.remove(i), |x: A| g(x, items[i])).to_multiset(),
        ),
    decreases items.len(),
{
    let front = items.drop_last();
    let last = items.last();
    let y = items[i];
    let to_last = |x: A| g(x, last);
    let to_y = |x: A| g(x, y);
    assert(cross(items, g) == cross(front, g) + flat(front, to_last));
    lemma_together(cross(front, g), flat(front, to_last));
    if i == items.len() - 1 {
        assert(items.remove(i) =~= front);
    } else {
        let rest = front.remove(i);
        lemma_cross_remove(front, g, i);
        lemma_flat_remove(front, to_last, i);
        assert(items.remove(i) =~= rest.push(last));
        assert(rest.push(last).drop_last() =~= rest);
        assert(cross(rest.push(last), g) == cross(rest, g) + flat(rest, to_last));
        lemma_together(cross(rest, g), flat(rest, to_last));
        lemma_flat_push(rest, last, to_y);
        lemma_together(flat(rest, to_y), g(last, y));
        assert(g(y, last) == g(last, y));
        assert(cross(items, g).to_multiset() =~= cross(items.remove(i), g).to_multiset().add(
            flat(items.remove(i), to_y).to_multiset(),
        ));
    }
}

/// What each two items of a list give does not depend on its order.
pub proof fn lemma_cross_shuffled<A, B>(a: Seq<A>, b: Seq<A>, g: spec_fn(A, A) -> Seq<B>)
    requires
        a.to_multiset() == b.to_multiset(),
        is_mutual(g),
    ensures
        cross(a, g).to_multiset() == cross(b, g).to_multiset(),
    decreases a.len(),
{
    a.to_multiset_ensures();
    b.to_multiset_ensures();
    if a.len() == 0 {
        assert(b.len() == 0);
    } else {
        let i = lemma_take_out(a, b);
        let last = a.last();
        let to_last = |x: A| g(x, last);
        lemma_cross_shuffled(a.drop_last(), b.remove(i), g);
        lemma_flat_shuffled(a.drop_last(), b.remove(i), to_last);
        lemma_cross_remove(b, g, i);
        lemma_together(cross(a.drop_last(), g), flat(a.drop_last(), to_last));
    }
}

/// The pairs of the first `i` places with place `j`.
pub open spec fn row_pairs(i: nat, j: nat) -> Seq<(usize, usize)> {
    Seq::new(i, |k: int| (k as usize, j as usize))
}

/// All pairs of two of the first `n` places, the lower one first.
pub open spec fn place_pairs(n: nat) -> Seq<(usize, usize)>
    decreases n,
{
    if n == 0 {
        seq![]
    } else {
        place_pairs((n - 1) as nat) + row_pairs((n - 1) as nat, (n - 1) as nat)
    }
}

/// Each pair of places comes once.
pub proof fn lemma_place_pairs(n: nat)
    requires
        n <= usize::MAX,
    ensures
        place_pairs(n).no_duplicates(),
        forall|i: usize, j: usize| #[trigger] place_pairs(n).contains((i, j)) <==> i < j < n,
    decreases n,
{
    if n > 0 {
        let m = (n - 1) as nat;
        lemma_place_pairs(m);
        let before = place_pairs(m);
        let row = row_pairs(m, m);
        let all = place_pairs(n);
        assert forall|i: usize, j: usize| #[trigger] all.contains((i, j)) <==> i < j < n by {
            if before.contains((i, j)) {
                let k = choose|k: int| 0 <= k < before.len() && before[k] == (i, j);
                assert(all[k] == (i, j));
            }
            if i < j && j == m {
                assert(row[i as int] == (i, j));
                assert(all[before.len() + i] == (i, j));
            }
            if all.contains((i, j)) {
                let k = choose|k: int| 0 <= k < all.len() && all[k] == (i, j);
                if k < before.len() {
                    assert(before[k] == (i, j));
                    assert(before.contains((i, j)));
                } else {
                    assert(row[k - before.len()] == (i, j));
                }
            }
        }
        assert forall|a: int, b: int|
            0 <= a < all.len() && 0 <= b < all.len() && a != b implies all[a] != all[b] by {
            if a < before.len() {
                assert(all[a] == before[a]);
                assert(before.contains((before[a].0, before[a].1)));
            } else {
                assert(all[a] == row[a - before.len()]);
            }
            if b < before.len() {
                assert(all[b] == before[b]);
                assert(before.contains((before[b].0, before[b].1)));
            } else {
                assert(all[b] == row[b - before.len()]);
            }
        }
    }
}

/// What the pairs of the first `i` places with place `j` give.
proof fn lemma_row_is_flat<A, B>(items: Seq<A>, g: spec_fn(A, A) -> Seq<B>, i: nat, j: nat)
    requires
        i <= j < items.len() <= usize::MAX,
    ensures
        flat(
            row_pairs(i, j),
            |p: (usize, usize)| g(items[p.0 as int], items[p.1 as int]),
        ) == flat(items.take(i as int), |x: A| g(x, items[j as int])),
    decreases i,
{
    let of_pair = |p: (usize, usize)| g(items[p.0 as int], items[p.1 as int]);
    let y = items[j as int];
    let of_item = |x: A| g(x, y);
    if i == 0 {
        assert(items.take(0) =~= seq![]);
    } else {
        lemma_row_is_flat(items, g, (i - 1) as nat, j);
        assert(row_pairs(i, j).drop_last() =~= row_pairs((i - 1) as nat, j));
        assert(items.take(i as int).drop_last() =~= items.take(i - 1));
        assert(of_pair(row_pairs(i, j).last()) == of_item(items.take(i as int).last()));
    }
}

/// What all pairs of places give is what each two items give.
pub proof fn lemma_pairs_are_cross<A, B>(items: Seq<A>, g: spec_fn(A, A) -> Seq<B>, n: nat)
    requires
        n <= items.len() <= usize::MAX,
    ensures
        flat(
            place_pairs(n),
            |p: (usize, usize)| g(items[p.0 as int], items[p.1 as int]),
        ) == cross(items.take(n as int), g),
    decreases n,
{
    let of_pair = |p: (usize, usize)| g(items[p.0 as int], items[p.1 as int]);
    if n == 0 {
        assert(items.take(0) =~= seq![]);
    } else {
        let m = (n - 1) as nat;
        let y = items[m as int];
        lemma_pairs_are_cross(items, g, m);
        lemma_row_is_flat(items, g, m, m);
        lemma_flat_joined(place_pairs(m), row_pairs(m, m), of_pair);
        assert(items.take(n as int).drop_last() =~= items.take(m as int));
        assert(items.take(n as int).last() == y);
    }
}

/// Where each item gives one thing, all of them are given.
pub proof fn lemma_flat_singles<A, B>(items: Seq<A>, f: spec_fn(A) -> Seq<B>, given: Seq<B>)
    requires
        items.len() == given.len(),
        forall|k: int| 0 <= k < items.len() ==> f(#[trigger] items[k]) == seq![given[k]],
    ensures
        flat(items, f) == given,
    decreases items.len(),
{
    if items.len() == 0 {
        assert(given =~= seq![]);
    } else {
        lemma_flat_singles(items.drop_last(), f, given.drop_last());
        assert(items.last() == items[items.len() - 1]);
        assert(given.drop_last() + seq![given.last()] =~= given);
    }
}

/// Items that give nothing can be left out.
pub proof fn lemma_flat_support<A, B>(a: Seq<A>, b: Seq<A>, f: spec_fn(A) -> Seq<B>)
    requires
        a.no_duplicates(),
        b.no_duplicates(),
        forall|x: A| #[trigger] a.contains(x) ==> b.contains(x),
        forall|x: A| #[trigger] b.contains(x) && !a.contains(x) ==> f(x).len() == 0,
    ensures
        flat(a, f).to_multiset() == flat(b, f).to_multiset(),
    decreases b.len(),
{
    if b.len() == 0 {
        if a.len() > 0 {
            assert(a.contains(a[0]));
            assert(b.contains(a[0]));
        }
    } else {
        let x = b.last();
        let rest = b.drop_last();
        assert(b.contains(x));
        assert(!rest.contains(x));
        lemma_together(flat(rest, f), f(x));
        assert forall|y: A| #[trigger] b.contains(y) <==> y == x || rest.contains(y) by {
            if rest.contains(y) {
                let k = choose|k: int| 0 <= k < rest.len() && rest[k] == y;
                assert(b[k] == y);
            }
            if b.contains(y) && y != x {
                let k = choose|k: int| 0 <= k < b.len() && b[k] == y;
                assert(rest[k] == y);
            }
        }
        if a.contains(x) {
            let i = choose|i: int| 0 <= i < a.len() && a[i] == x;
            let left = a.remove(i);
            assert forall|y: A| #[trigger] left.contains(y) <==> a.contains(y) && y != x by {
                if left.contains(y) {
                    let k = choose|k: int| 0 <= k < left.len() && left[k] == y;
                    let m = if k < i {
                        k
                    } else {
                        k + 1
                    };
                    assert(a[m] == y);
                }
                if a.contains(y) && y != x {
                    let k = choose|k: int| 0 <= k < a.len() && a[k] == y;
                    let m = if k < i {
                        k
                    } else {
                        k - 1
                    };
                    assert(left[m] == y);
                }
            }
            assert forall|y: A| #[trigger] rest.contains(y) && !left.contains(y) implies f(y).len()
                == 0 by {
                assert(b.contains(y));
            }
            lemma_flat_support(left, rest, f);
            lemma_flat_remove(a, f, i);
        } else {
            assert forall|y: A| #[trigger] a.contains(y) implies rest.contains(y) by {
                assert(b.contains(y));
            }
            assert forall|y: A| #[trigger] rest.contains(y) && !a.contains(y) implies f(y).len()
                == 0 by {
                assert(b.contains(y));
            }
            lemma_flat_support(a, rest, f);
            assert(flat(b, f) =~= flat(rest, f));
        }
    }
}

} // verus!
