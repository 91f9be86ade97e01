//! Picking values out of a sequence.
use vstd::prelude::*;

verus! {

/// The values that `pick` gives for the items, in their order.
pub open spec fn collect<A, B>(items: Seq<A>, pick: spec_fn(A) -> Option<B>) -> Seq<B>
    decreases items.len(),
{
    if items.len() == 0 {
        seq![]
    } else {
        let rest = collect(items.drop_last(), pick);
        match pick(items.last()) {
            Some(b) => rest.push(b),
            None => rest,
        }
    }
}

/// The first value that `pick` gives for an item.
pub open spec fn first<A, B>(items: Seq<A>, pick: spec_fn(A) -> Option<B>) -> Option<B> {
    let found = collect(items, pick);
    if found.len() > 0 {
        Some(found[0])
    } else {
        None
    }
}

/// One item more.
pub proof fn lemma_collect_next<A, B>(items: Seq<A>, pick: spec_fn(A) -> Option<B>, i: int)
    requires
        0 <= i < items.len(),
    ensures
        collect(items.take(i + 1), pick) == match pick(items[i]) {
            Some(b) => collect(items.take(i), pick).push(b),
            None => collect(items.take(i), pick),
        },
{
    assert(items.take(i + 1).drop_last() =~= items.take(i));
}

/// All the items.
pub proof fn lemma_collect_all<A, B>(items: Seq<A>, pick: spec_fn(A) -> Option<B>)
    ensures
        collect(items.take(items.len() as int), pick) == collect(items, pick),
        collect(items.take(0), pick) == Seq::<B>::empty(),
{
    assert(items.take(items.len() as int) =~= items);
}

/// What the first items give comes first.
pub proof fn lemma_collect_front<A, B>(items: Seq<A>, pick: spec_fn(A) -> Option<B>, i: int)
    requires
        0 <= i <= items.len(),
    ensures
        collect(items.take(i), pick).len() <= collect(items, pick).len(),
        collect(items, pick).take(collect(items.take(i), pick).len() as int) == collect(
            items.take(i),
            pick,
        ),
    decreases items.len(),
{
    if i == items.len() {
        assert(items.take(i) =~= items);
    } else {
        lemma_collect_front(items.drop_last(), pick, i);
        assert(items.drop_last().take(i) =~= items.take(i));
    }
    let front = collect(items.take(i), pick);
    assert(collect(items, pick).take(front.len() as int) =~= front);
}

/// An item that gives a value, where the items before it give none, gives the first.
pub proof fn lemma_first<A, B>(items: Seq<A>, pick: spec_fn(A) -> Option<B>, i: int)
    requires
        0 <= i < items.len(),
        collect(items.take(i), pick).len() == 0,
        pick(items[i]) is Some,
    ensures
        first(items, pick) == pick(items[i]),
{
    lemma_collect_next(items, pick, i);
    lemma_collect_front(items, pick, i + 1);
    let front = collect(items.take(i + 1), pick);
    assert(collect(items, pick).take(front.len() as int)[0] == front[0]);
}

/// There are no more values than items.
pub proof fn lemma_collect_len<A, B>(items: Seq<A>, pick: spec_fn(A) -> Option<B>)
    ensures
        collect(items, pick).len() <= items.len(),
    decreases items.len(),
{
    if items.len() > 0 {
        lemma_collect_len(items.drop_last(), pick);
    }
}

/// Each value comes from an item.
pub proof fn lemma_collect_origin<A, B>(items: Seq<A>, pick: spec_fn(A) -> Option<B>, j: int)
    requires
        0 <= j < collect(items, pick).len(),
    ensures
        exists|i: int|
            0 <= i < items.len() && #[trigger] pick(items[i]) == Some(collect(items, pick)[j]),
    decreases items.len(),
{
    if items.len() > 0 {
        let n = items.len() - 1;
        let rest = collect(items.drop_last(), pick);
        if j < rest.len() {
            lemma_collect_origin(items.drop_last(), pick, j);
            let i = choose|i: int|
                0 <= i < items.drop_last().len() && #[trigger] pick(items.drop_last()[i]) == Some(
                    rest[j],
                );
            assert(items[i] == items.drop_last()[i]);
            assert(pick(items[i]) == Some(collect(items, pick)[j]));
        } else {
            assert(pick(items[n]) == Some(collect(items, pick)[j]));
        }
    }
}

} // verus!
