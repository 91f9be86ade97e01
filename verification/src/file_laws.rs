//! What a document says, told by the words and the lists that stand in it.
use vstd::prelude::*;

use crate::design::Fault;
use crate::sexpr::Tree;

verus! {

/// The places of the items that the values come from: in order, and all the others tell
/// nothing.
pub open spec fn are_places<A, B>(
    items: Seq<A>,
    out: Seq<B>,
    tells: spec_fn(A, B) -> bool,
    at: Seq<int>,
) -> bool {
    &&& at.len() == out.len()
    &&& forall|j: int|
        0 <= j < at.len() ==> 0 <= #[trigger] at[j] < items.len() && tells(items[at[j]], out[j])
    &&& forall|j: int, k: int| 0 <= j < k < at.len() ==> #[trigger] at[j] < #[trigger] at[k]
    &&& forall|i: int, b: B|
        0 <= i < items.len() && #[trigger] tells(items[i], b) ==> at.contains(i)
}

/// The values are those that the items tell, in the order of the items.
pub open spec fn are_told<A, B>(
    items: Seq<A>,
    out: Seq<B>,
    tells: spec_fn(A, B) -> bool,
) -> bool {
    exists|at: Seq<int>| #[trigger] are_places(items, out, tells, at)
}

/// The item is the first that tells a value, and tells this one.
pub open spec fn is_first_at<A, B>(
    items: Seq<A>,
    b: B,
    tells: spec_fn(A, B) -> bool,
    i: int,
) -> bool {
    &&& 0 <= i < items.len()
    &&& tells(items[i], b)
    &&& forall|j: int, c: B| 0 <= j < i ==> !(#[trigger] tells(items[j], c))
}

/// The value is that of the first item that tells one.
pub open spec fn is_first_of<A, B>(items: Seq<A>, b: B, tells: spec_fn(A, B) -> bool) -> bool {
    exists|i: int| #[trigger] is_first_at(items, b, tells, i)
}

/// No item tells a value.
pub open spec fn none_tells<A, B>(items: Seq<A>, tells: spec_fn(A, B) -> bool) -> bool {
    forall|j: int, c: B| 0 <= j < items.len() ==> !(#[trigger] tells(items[j], c))
}

/// The value is that of the first item that tells one; there is none where no item does.
pub open spec fn is_first_told<A, B>(
    items: Seq<A>,
    out: Option<B>,
    tells: spec_fn(A, B) -> bool,
) -> bool {
    match out {
        Some(b) => is_first_of(items, b, tells),
        None => none_tells(items, tells),
    }
}

proof fn lemma_places<A, B>(
    items: Seq<A>,
    pick: spec_fn(A) -> Option<B>,
    tells: spec_fn(A, B) -> bool,
) -> (at: Seq<int>)
    requires
        forall|a: A, b: B| #[trigger] tells(a, b) <==> pick(a) == Some(b),
    ensures
        are_places(items, crate::collect::collect(items, pick), tells, at),
    decreases items.len(),
{
    let out = crate::collect::collect(items, pick);
    if items.len() == 0 {
        let at = Seq::<int>::empty();
        assert(are_places(items, out, tells, at));
        at
    } else {
        let front = items.drop_last();
        let n = front.len() as int;
        let was = lemma_places(front, pick, tells);
        let rest = crate::collect::collect(front, pick);
        let at = match pick(items.last()) {
            Some(_) => was.push(n),
            None => was,
        };
        assert forall|j: int| 0 <= j < at.len() implies 0 <= #[trigger] at[j] < items.len()
            && tells(items[at[j]], out[j]) by {
            if j < was.len() {
                assert(at[j] == was[j]);
                assert(tells(front[was[j]], rest[j]));
                assert(front[was[j]] == items[was[j]]);
            } else {
                assert(tells(items.last(), out[j]));
            }
        }
        assert forall|i: int, b: B|
            0 <= i < items.len() && #[trigger] tells(items[i], b) implies at.contains(i) by {
            if i < n {
                assert(front[i] == items[i]);
                assert(tells(front[i], b));
                let j = choose|j: int| 0 <= j < was.len() && was[j] == i;
                assert(at[j] == i);
            } else {
                assert(at[was.len() as int] == i);
            }
        }
        assert forall|j: int, k: int| 0 <= j < k < at.len() implies #[trigger] at[j]
            < #[trigger] at[k] by {
            assert(at[j] == was[j]);
            assert(0 <= was[j] < front.len());
            if k < was.len() {
                assert(at[k] == was[k]);
            }
        }
        at
    }
}

/// What is picked is what the items tell.
pub proof fn lemma_told<A, B>(
    items: Seq<A>,
    pick: spec_fn(A) -> Option<B>,
    tells: spec_fn(A, B) -> bool,
)
    requires
        forall|a: A, b: B| #[trigger] tells(a, b) <==> pick(a) == Some(b),
    ensures
        are_told(items, crate::collect::collect(items, pick), tells),
        is_first_told(items, crate::collect::first(items, pick), tells),
{
    let at = lemma_places(items, pick, tells);
    let out = crate::collect::collect(items, pick);
    assert(are_told(items, out, tells));
    if out.len() > 0 {
        let i = at[0];
        assert(tells(items[i], out[0]));
        assert forall|j: int, c: B| 0 <= j < i implies !(#[trigger] tells(items[j], c)) by {
            if tells(items[j], c) {
                assert(at.contains(j));
                let k = choose|k: int| 0 <= k < at.len() && at[k] == j;
                if k > 0 {
                    assert(at[0] < at[k]);
                }
            }
        }
        assert(is_first_at(items, out[0], tells, i));
        assert(is_first_of(items, out[0], tells));
    } else {
        assert forall|j: int, c: B| 0 <= j < items.len() implies !(#[trigger] tells(
            items[j],
            c,
        )) by {
            if tells(items[j], c) {
                assert(at.contains(j));
            }
        }
        assert(none_tells(items, tells));
    }
}

/// Picks what `pick` gives for the lists that begin with the word.
spec fn within<B>(name: Seq<char>, pick: spec_fn(Tree) -> Option<B>) -> spec_fn(Tree) -> Option<
    B,
> {
    |n: Tree|
        if crate::sexpr::word(n, 0) == Some(name) {
            pick(n)
        } else {
            None
        }
}

proof fn lemma_within<B>(items: Seq<Tree>, name: Seq<char>, pick: spec_fn(Tree) -> Option<B>)
    ensures
        crate::collect::collect(
            crate::collect::collect(items, crate::sexpr::named(name)),
            pick,
        ) == crate::collect::collect(items, within(name, pick)),
    decreases items.len(),
{
    if items.len() > 0 {
        lemma_within(items.drop_last(), name, pick);
        let rest = crate::collect::collect(items.drop_last(), crate::sexpr::named(name));
        let all = crate::collect::collect(items, crate::sexpr::named(name));
        if crate::sexpr::word(items.last(), 0) == Some(name) {
            assert(all == rest.push(items.last()));
            assert(all.drop_last() =~= rest);
        } else {
            assert(all == rest);
        }
    }
}

/// What is picked from the lists of a name is what those lists tell.
pub proof fn lemma_children_tell<B>(
    n: Tree,
    name: Seq<char>,
    pick: spec_fn(Tree) -> Option<B>,
    tells: spec_fn(Tree, B) -> bool,
)
    requires
        forall|a: Tree, b: B| #[trigger]
            tells(a, b) <==> begins(a, name) && pick(a) == Some(b),
    ensures
        are_told(parts(n), crate::collect::collect(crate::sexpr::children(n, name), pick), tells),
        is_first_told(
            parts(n),
            crate::collect::first(crate::sexpr::children(n, name), pick),
            tells,
        ),
{
    lemma_within(parts(n), name, pick);
    assert forall|a: Tree, b: B| #[trigger] tells(a, b) <==> within(name, pick)(a) == Some(b) by {
        lemma_begins(a, name);
    }
    lemma_told(parts(n), within(name, pick), tells);
    assert(crate::collect::collect(crate::sexpr::children(n, name), pick)
        == crate::collect::collect(parts(n), within(name, pick)));
}

/// The nodes of a list.
pub open spec fn parts(n: Tree) -> Seq<Tree> {
    match n {
        Tree::List(v) => v,
        Tree::Atom(_) => Seq::empty(),
    }
}

/// The list begins with the word.
pub open spec fn begins(n: Tree, name: Seq<char>) -> bool {
    says(n, 0, name)
}

/// The node of the list at that place is the word.
pub open spec fn says(n: Tree, k: int, text: Seq<char>) -> bool {
    n matches Tree::List(v) && 0 <= k < v.len() && v[k] == Tree::Atom(text)
}

/// The node is that number.
pub open spec fn is_figure(n: Tree, text: Seq<char>) -> bool {
    n == Tree::Atom(text) && crate::number::is_number(text)
}

/// Lists of a name, as they stand.
pub open spec fn lists(name: Seq<char>) -> spec_fn(Tree, Tree) -> bool {
    |n: Tree, b: Tree| begins(n, name) && n == b
}

/// The list is the first of its name in the other.
pub open spec fn is_in(n: Tree, name: Seq<char>, b: Tree) -> bool {
    is_first_told(parts(n), Some(b), lists(name))
}

/// The list has none of that name.
pub open spec fn has_no(n: Tree, name: Seq<char>) -> bool {
    forall|i: int| 0 <= i < parts(n).len() ==> !begins(#[trigger] parts(n)[i], name)
}

/// Numbers.
pub open spec fn figures() -> spec_fn(Tree, Seq<char>) -> bool {
    |n: Tree, t: Seq<char>| is_figure(n, t)
}

/// The nodes of a list from that place on.
pub open spec fn parts_from(n: Tree, k: int) -> Seq<Tree> {
    let v = parts(n);
    Seq::new(
        if v.len() > k {
            (v.len() - k) as nat
        } else {
            0
        },
        |i: int| v[k + i],
    )
}

/// A list begins with its first word.
pub proof fn lemma_begins(n: Tree, name: Seq<char>)
    ensures
        begins(n, name) <==> crate::sexpr::word(n, 0) == Some(name),
{
}

/// A list says its words.
pub proof fn lemma_says(n: Tree, k: int, text: Seq<char>)
    ensures
        says(n, k, text) <==> crate::sexpr::word(n, k) == Some(text),
{
}

/// What is looked up by name is the first list of that name.
pub proof fn law_lists_are_found_by_name(n: Tree, name: Seq<char>)
    ensures
        are_told(parts(n), crate::sexpr::children(n, name), lists(name)),
        is_first_told(parts(n), crate::sexpr::child(n, name), lists(name)),
        crate::sexpr::child(n, name) is None <==> has_no(n, name),
        forall|b: Tree| #[trigger] is_in(n, name, b) ==> crate::sexpr::child(n, name) == Some(b),
{
    let tells = lists(name);
    assert forall|a: Tree, b: Tree| #[trigger] tells(a, b) <==> crate::sexpr::named(name)(a)
        == Some(b) by {
        lemma_begins(a, name);
    }
    lemma_told(parts(n), crate::sexpr::named(name), tells);
    let c = crate::sexpr::child(n, name);
    if c is None {
        assert forall|i: int| 0 <= i < parts(n).len() implies !begins(
            #[trigger] parts(n)[i],
            name,
        ) by {
            assert(!tells(parts(n)[i], parts(n)[i]));
        }
    } else {
        let i = choose|i: int| #[trigger] is_first_at(parts(n), c->0, tells, i);
        assert(begins(parts(n)[i], name));
        assert forall|b: Tree| #[trigger] is_in(n, name, b) implies c == Some(b) by {
            lemma_one_first(parts(n), c->0, b, tells);
            assert(tells(parts(n)[i], c->0));
        }
    }
    if c is None {
        assert forall|b: Tree| #[trigger] is_in(n, name, b) implies c == Some(b) by {
            let i = choose|i: int| #[trigger] is_first_at(parts(n), b, tells, i);
            assert(begins(parts(n)[i], name));
        }
    }
}

proof fn lemma_one_first<A, B>(items: Seq<A>, b: B, c: B, tells: spec_fn(A, B) -> bool)
    requires
        is_first_told(items, Some(b), tells),
        is_first_told(items, Some(c), tells),
        forall|a: A, x: B, y: B| #[trigger] tells(a, x) && #[trigger] tells(a, y) ==> x == y,
    ensures
        b == c,
{
    let i = choose|i: int| #[trigger] is_first_at(items, b, tells, i);
    let k = choose|i: int| #[trigger] is_first_at(items, c, tells, i);
    assert(tells(items[i], b) && tells(items[k], c));
}

/// Nothing but the first is told first.
pub proof fn lemma_only_first<A, B>(
    items: Seq<A>,
    r: Option<B>,
    b: B,
    tells: spec_fn(A, B) -> bool,
)
    requires
        is_first_told(items, r, tells),
        is_first_told(items, Some(b), tells),
        forall|a: A, x: B, y: B| #[trigger] tells(a, x) && #[trigger] tells(a, y) ==> x == y,
    ensures
        r == Some(b),
{
    assert(is_first_of(items, b, tells));
    match r {
        Some(c) => {
            lemma_one_first(items, c, b, tells);
        },
        None => {
            let i = choose|i: int| #[trigger] is_first_at(items, b, tells, i);
            assert(none_tells(items, tells));
            assert(tells(items[i], b));
        },
    }
}

/// The numbers of a list are told by its nodes.
pub proof fn lemma_figures(n: Tree, k: int)
    requires
        k >= 0,
    ensures
        are_told(parts_from(n, k), crate::dsn::numbers_after(n, k), figures()),
{
    assert(parts_from(n, k) =~= crate::dsn::nodes_after(n, k));
    lemma_told(parts_from(n, k), crate::dsn::numbers(), figures());
}

/// What items tell is one list.
pub proof fn lemma_one_telling<A, B>(
    items: Seq<A>,
    f: Seq<B>,
    g: Seq<B>,
    tells: spec_fn(A, B) -> bool,
)
    requires
        are_told(items, f, tells),
        are_told(items, g, tells),
        forall|a: A, x: B, y: B| #[trigger] tells(a, x) && #[trigger] tells(a, y) ==> x == y,
    ensures
        f == g,
{
    let a = choose|at: Seq<int>| #[trigger] are_places(items, f, tells, at);
    let b = choose|at: Seq<int>| #[trigger] are_places(items, g, tells, at);
    assert forall|i: int| #[trigger] a.contains(i) implies b.contains(i) by {
        let j = choose|j: int| 0 <= j < a.len() && a[j] == i;
        assert(tells(items[a[j]], f[j]));
    }
    assert forall|i: int| #[trigger] b.contains(i) implies a.contains(i) by {
        let j = choose|j: int| 0 <= j < b.len() && b[j] == i;
        assert(tells(items[b[j]], g[j]));
    }
    lemma_same_places(a, b);
    assert forall|j: int| 0 <= j < f.len() implies f[j] == g[j] by {
        assert(tells(items[a[j]], f[j]));
        assert(tells(items[b[j]], g[j]));
    }
    assert(f =~= g);
}

/// Rising lists of the same numbers are the same.
pub proof fn lemma_same_places(a: Seq<int>, b: Seq<int>)
    requires
        forall|j: int, k: int| 0 <= j < k < a.len() ==> #[trigger] a[j] < #[trigger] a[k],
        forall|j: int, k: int| 0 <= j < k < b.len() ==> #[trigger] b[j] < #[trigger] b[k],
        forall|i: int| #[trigger] a.contains(i) ==> b.contains(i),
        forall|i: int| #[trigger] b.contains(i) ==> a.contains(i),
    ensures
        a == b,
    decreases a.len(),
{
    if a.len() == 0 {
        if b.len() > 0 {
            assert(b.contains(b[0]));
        }
        assert(a =~= b);
    } else {
        assert(a.contains(a.last()));
        let j = choose|j: int| 0 <= j < b.len() && b[j] == a.last();
        assert(b.contains(b.last()));
        let k = choose|k: int| 0 <= k < a.len() && a[k] == b.last();
        if j < b.len() - 1 {
            assert(b[j] < b[b.len() - 1]);
        }
        if k < a.len() - 1 {
            assert(a[k] < a[a.len() - 1]);
        }
        assert(a.last() == b.last());
        let (c, d) = (a.drop_last(), b.drop_last());
        assert forall|i: int| #[trigger] c.contains(i) implies d.contains(i) by {
            let m = choose|m: int| 0 <= m < c.len() && c[m] == i;
            assert(a[m] == i);
            assert(a[m] < a[a.len() - 1]);
            assert(a.contains(i));
            let q = choose|q: int| 0 <= q < b.len() && b[q] == i;
            assert(d[q] == i);
        }
        assert forall|i: int| #[trigger] d.contains(i) implies c.contains(i) by {
            let m = choose|m: int| 0 <= m < d.len() && d[m] == i;
            assert(b[m] == i);
            assert(b[m] < b[b.len() - 1]);
            assert(b.contains(i));
            let q = choose|q: int| 0 <= q < a.len() && a[q] == i;
            assert(c[q] == i);
        }
        lemma_same_places(c, d);
        assert(a =~= c.push(a.last()));
        assert(b =~= d.push(b.last()));
    }
}

/// The points are the numbers two by two.
pub open spec fn are_points(points: Seq<(Seq<char>, Seq<char>)>, f: Seq<Seq<char>>) -> bool {
    &&& points.len() == f.len() / 2
    &&& forall|i: int|
        0 <= i < points.len() ==> (#[trigger] points[i]).0 == f[2 * i] && points[i].1 == f[2 * i
            + 1]
}

/// The points that bound a board are, where its boundary is a path, all the numbers of the
/// path that follow the aperture, two by two, however many they are; where it is a
/// rectangle, the first four of its numbers. There must be a boundary, with a point.
pub proof fn law_bounds_are_all_the_points(structure: Tree, b: Tree, p: Tree)
    ensures
        has_no(structure, "boundary"@) <==> crate::design::boundary(structure) == Err::<
            Seq<(Seq<char>, Seq<char>)>,
            Fault,
        >(Fault::NoBoundary),
        is_in(structure, "boundary"@, b) && is_in(b, "path"@, p) ==> exists|f: Seq<Seq<char>>|
            {
                &&& #[trigger] are_told(parts_from(p, 3), f, figures())
                &&& match crate::design::boundary(structure) {
                    Ok(points) => points.len() > 0 && are_points(points, f),
                    Err(e) => e == Fault::NoCoordinates && f.len() < 2,
                }
            },
        is_in(structure, "boundary"@, b) && has_no(b, "path"@) && is_in(b, "rect"@, p)
            ==> exists|f: Seq<Seq<char>>|
            {
                &&& #[trigger] are_told(parts_from(p, 2), f, figures())
                &&& match crate::design::boundary(structure) {
                    Ok(points) => f.len() >= 4 && are_points(points, f.take(4)),
                    Err(e) => e == Fault::NoCoordinates && f.len() < 4,
                }
            },
        is_in(structure, "boundary"@, b) && has_no(b, "path"@) && has_no(b, "rect"@)
            ==> crate::design::boundary(structure) == Err::<
            Seq<(Seq<char>, Seq<char>)>,
            Fault,
        >(Fault::NoCoordinates),
{
    law_lists_are_found_by_name(structure, "boundary"@);
    law_lists_are_found_by_name(b, "path"@);
    law_lists_are_found_by_name(b, "rect"@);
    lemma_figures(p, 3);
    lemma_figures(p, 2);
    if is_in(structure, "boundary"@, b) && is_in(b, "path"@, p) {
        let f = crate::dsn::numbers_after(p, 3);
        assert(are_told(parts_from(p, 3), f, figures()));
    }
    if is_in(structure, "boundary"@, b) && has_no(b, "path"@) && is_in(b, "rect"@, p) {
        let f = crate::dsn::numbers_after(p, 2);
        assert(are_told(parts_from(p, 2), f, figures()));
    }
}

/// Where only numbers follow the aperture of a path, the points of the boundary are half as
/// many, and each is the next two: no vertex is left out.
pub proof fn law_no_vertex_is_left_out(structure: Tree, b: Tree, p: Tree)
    requires
        is_in(structure, "boundary"@, b),
        is_in(b, "path"@, p),
        parts(p).len() >= 5,
        forall|k: int|
            3 <= k < parts(p).len() ==> (#[trigger] parts(p)[k] matches Tree::Atom(t)
                && crate::number::is_number(t)),
    ensures
        crate::design::boundary(structure) is Ok,
        ({
            let points = crate::design::boundary(structure)->Ok_0;
            &&& points.len() == (parts(p).len() - 3) / 2
            &&& forall|i: int|
                0 <= i < points.len() ==> Tree::Atom((#[trigger] points[i]).0) == parts(p)[3 + 2
                    * i] && Tree::Atom(points[i].1) == parts(p)[4 + 2 * i]
        }),
{
    law_bounds_are_all_the_points(structure, b, p);
    let q = parts_from(p, 3);
    let f = choose|f: Seq<Seq<char>>|
        {
            &&& #[trigger] are_told(q, f, figures())
            &&& match crate::design::boundary(structure) {
                Ok(points) => points.len() > 0 && are_points(points, f),
                Err(e) => e == Fault::NoCoordinates && f.len() < 2,
            }
        };
    let at = choose|at: Seq<int>| #[trigger] are_places(q, f, figures(), at);
    assert forall|i: int| 0 <= i < q.len() implies at.contains(i) by {
        let n = parts(p)[3 + i];
        assert(n matches Tree::Atom(t) && crate::number::is_number(t));
        assert(figures()(q[i], n->Atom_0));
    }
    lemma_every_place(at, q.len());
    assert forall|i: int| 0 <= i < q.len() implies Tree::Atom(#[trigger] f[i]) == q[i] by {
        assert(figures()(q[at[i]], f[i]));
    }
    let points = crate::design::boundary(structure)->Ok_0;
    assert forall|i: int| 0 <= i < points.len() implies Tree::Atom((#[trigger] points[i]).0)
        == parts(p)[3 + 2 * i] && Tree::Atom(points[i].1) == parts(p)[4 + 2 * i] by {
        assert(Tree::Atom(f[2 * i]) == q[2 * i]);
        assert(Tree::Atom(f[2 * i + 1]) == q[2 * i + 1]);
    }
}

proof fn lemma_every_place(at: Seq<int>, n: nat)
    requires
        forall|j: int, k: int| 0 <= j < k < at.len() ==> #[trigger] at[j] < #[trigger] at[k],
        forall|j: int| 0 <= j < at.len() ==> 0 <= #[trigger] at[j] < n,
        forall|i: int| 0 <= i < n ==> at.contains(i),
    ensures
        at.len() == n,
        forall|j: int| 0 <= j < n ==> #[trigger] at[j] == j,
    decreases n,
{
    if n > 0 {
        assert(at.contains(n - 1));
        let j = choose|j: int| 0 <= j < at.len() && at[j] == n - 1;
        if j < at.len() - 1 {
            assert(at[j] < at[at.len() - 1]);
        }
        let front = at.drop_last();
        assert forall|i: int| 0 <= i < n - 1 implies front.contains(i) by {
            assert(at.contains(i));
            let k = choose|k: int| 0 <= k < at.len() && at[k] == i;
            assert(front[k] == i);
        }
        assert forall|j: int| 0 <= j < front.len() implies 0 <= #[trigger] front[j] < n - 1 by {
            assert(front[j] == at[j]);
            assert(at[j] < at[at.len() - 1]);
        }
        lemma_every_place(front, (n - 1) as nat);
        assert forall|j: int| 0 <= j < n implies #[trigger] at[j] == j by {
            if j < n - 1 {
                assert(front[j] == j);
            }
        }
    } else {
        if at.len() > 0 {
            assert(0 <= at[0] < n);
        }
    }
}

} // verus!
