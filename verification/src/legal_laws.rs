//! What committing paths is for: a net gets one wherever the nets before it leave it a way.
use vstd::prelude::*;

use crate::board::CellIdx;
use crate::board_laws::{task_moves, Paths};
use crate::geometry::IsolatedRouteWindow;
use crate::halo::{Claim, Claims};
use crate::task::Task;

verus! {

/// A net holds the cell.
pub open spec fn is_held(others: Paths, c: CellIdx) -> bool {
    exists|j: int| 0 <= j < others.len() && (#[trigger] others[j]) is Some && (
    others[j]->0).contains(c)
}

/// The path changes layers into the cell at place `k`.
pub open spec fn dives_at(t: Task, p: Seq<CellIdx>, k: int) -> bool {
    exists|x: int, y: int, a: int, b: int|
        {
            &&& #[trigger] crate::ways::stands_at(t.dims(), p[k - 1], x, y, a)
            &&& #[trigger] crate::ways::stands_at(t.dims(), p[k], x, y, b)
            &&& a != b
        }
}

/// The cell is within the clearance of the path, or within the keepout of a via of it.
pub open spec fn is_too_near(t: Task, p: Seq<CellIdx>, c: CellIdx) -> bool {
    ||| exists|k: int|
        0 <= k < p.len() && t.geo.clearance.covers(t.dims(), #[trigger] p[k], c)
    ||| exists|k: int|
        0 < k < p.len() && #[trigger] dives_at(t, p, k) && (t.geo.keepout.covers(
            t.dims(),
            p[k - 1],
            c,
        ) || t.geo.keepout.covers(t.dims(), p[k], c))
}

/// A net keeps the cell free.
pub open spec fn is_kept_free(t: Task, others: Paths, c: CellIdx) -> bool {
    exists|j: int| 0 <= j < others.len() && (#[trigger] others[j]) is Some && is_too_near(
        t,
        others[j]->0,
        c,
    )
}

/// Net `i` may lie in the cell beside the others: none of them holds it, and none keeps it
/// free, unless it is an end of the net.
pub open spec fn is_left(t: Task, i: int, others: Paths, c: CellIdx) -> bool {
    &&& !is_held(others, c)
    &&& c == t.nets[i].src || c == t.nets[i].dst || !is_kept_free(t, others, c)
}

/// A via may be at the cell beside the others: what it keeps free none of them holds or
/// keeps free.
pub open spec fn has_room(t: Task, others: Paths, s: CellIdx) -> bool {
    forall|c: CellIdx| #[trigger]
        t.geo.keepout.covers(t.dims(), s, c) ==> !is_held(others, c) && !is_kept_free(t, others, c)
}

/// The cells are a way of net `i` beside the others.
pub open spec fn is_free_way(t: Task, i: int, others: Paths, q: Seq<CellIdx>) -> bool {
    &&& task_moves(t, i).lead(t.nets[i].src, t.nets[i].dst, q)
    &&& task_moves(t, i).fees(q) < u32::MAX
    &&& forall|k: int| 0 <= k < q.len() ==> is_left(t, i, others, #[trigger] q[k])
    &&& forall|k: int|
        0 < k < q.len() && #[trigger] dives_at(t, q, k) ==> has_room(t, others, q[k - 1])
            && has_room(t, others, q[k])
}

/// Whatever is claimed, a committed net claims it.
pub open spec fn come_from(t: Task, claims: Claims, others: Paths) -> bool {
    &&& claims.owner.len() == t.dims().cells()
    &&& claims.halo.len() == t.dims().cells()
    &&& forall|c: CellIdx|
        #![trigger claims.owner[c as int]]
        t.dims().has(c) && claims.owner[c as int] != Claim::Free ==> is_held(others, c)
    &&& forall|c: CellIdx|
        #![trigger claims.halo[c as int]]
        t.dims().has(c) && claims.halo[c as int] != Claim::Free ==> is_kept_free(t, others, c)
}

proof fn lemma_too_near(t: Task, p: Seq<CellIdx>, c: CellIdx)
    requires
        t.wf(),
        crate::halo::on_board(t.dims(), p),
        crate::halo::crowds(&t.grid, t.geo, p, c),
    ensures
        is_too_near(t, p, c),
{
    let d = t.dims();
    if exists|i: int| 0 <= i < p.len() && #[trigger] t.geo.clearance.covers(d, p[i], c) {
        let i = choose|i: int| 0 <= i < p.len() && #[trigger] t.geo.clearance.covers(d, p[i], c);
        assert(t.geo.clearance.covers(d, p[i], c));
    } else {
        let i = choose|i: int|
            0 < i < p.len() && #[trigger] crate::halo::is_via(d, p, i) && (t.geo.keepout.covers(
                d,
                p[i - 1],
                c,
            ) || t.geo.keepout.covers(d, p[i], c));
        assert(d.has(p[i - 1]) && d.has(p[i]));
        crate::ways::law_cells_have_places(d, p[i - 1]);
        crate::ways::law_cells_have_places(d, p[i]);
        assert(crate::ways::stands_at(d, p[i - 1], d.col(p[i]), d.row(p[i]), d.layer(p[i - 1])));
        assert(crate::ways::stands_at(d, p[i], d.col(p[i]), d.row(p[i]), d.layer(p[i])));
        assert(dives_at(t, p, i));
    }
}

proof fn lemma_stamp_comes(t: Task, claims: Claims, others: Paths, j: int, g: usize)
    requires
        t.wf(),
        come_from(t, claims, others),
        0 <= j < others.len(),
        others[j] is Some,
        crate::halo::on_board(t.dims(), others[j]->0),
    ensures
        come_from(t, crate::halo::stamped(&t.grid, t.geo, claims, others[j]->0, g), others),
{
    let p = others[j]->0;
    let next = crate::halo::stamped(&t.grid, t.geo, claims, p, g);
    assert forall|c: CellIdx|
        #![trigger next.owner[c as int]]
        t.dims().has(c) && next.owner[c as int] != Claim::Free implies is_held(others, c) by {
        if !p.contains(c) {
            assert(claims.owner[c as int] != Claim::Free);
        }
    }
    assert forall|c: CellIdx|
        #![trigger next.halo[c as int]]
        t.dims().has(c) && next.halo[c as int] != Claim::Free implies is_kept_free(
        t,
        others,
        c,
    ) by {
        if crate::halo::halo_cells(&t.grid, t.geo, p).contains(c) {
            crate::halo::lemma_halo_cells(&t.grid, t.geo, p, c);
            lemma_too_near(t, p, c);
        } else {
            assert(claims.halo[c as int] != Claim::Free);
        }
    }
}

proof fn lemma_group_comes(
    t: Task,
    groups: Seq<usize>,
    committed: Paths,
    claims: Claims,
    g: usize,
    k: nat,
)
    requires
        t.wf(),
        come_from(t, claims, committed),
        k <= committed.len(),
        forall|j: int|
            0 <= j < committed.len() && groups[j] == g && (#[trigger] committed[j]) is Some
                ==> crate::halo::on_board(t.dims(), committed[j]->0),
    ensures
        come_from(
            t,
            crate::legalize::group_claims(t, groups, committed, claims, g, k),
            committed,
        ),
    decreases k,
{
    if k > 0 {
        lemma_group_comes(t, groups, committed, claims, g, (k - 1) as nat);
        if groups[k - 1] == g && committed[k - 1] is Some {
            lemma_stamp_comes(
                t,
                crate::legalize::group_claims(t, groups, committed, claims, g, (k - 1) as nat),
                committed,
                k - 1,
                g,
            );
        }
    }
}

proof fn lemma_order_comes(
    t: Task,
    groups: Seq<usize>,
    paths: Seq<Seq<CellIdx>>,
    order: Seq<usize>,
    k: nat,
)
    requires
        t.wf(),
        groups.len() == t.nets.len(),
        crate::task::all_walk(t, paths),
        crate::legalize::no_repeats(order),
        k <= order.len(),
    ensures
        ({
            let s = crate::legalize::in_order(t, groups, paths, order, k);
            s.committed.len() == t.nets.len() && come_from(t, s.claims, s.committed)
        }),
    decreases k,
{
    if k > 0 {
        let k1 = (k - 1) as nat;
        lemma_order_comes(t, groups, paths, order, k1);
        let s = crate::legalize::in_order(t, groups, paths, order, k1);
        let g = order[k - 1];
        let n = t.nets.len();
        let committed = crate::legalize::chosen(t, groups, paths, s, g, n);
        assert forall|j: int| 0 <= j < n && (#[trigger] s.committed[j]) is Some implies committed[j]
            == s.committed[j] by {
            if groups[j] == g {
                crate::legalize::lemma_not_yet(t, groups, paths, order, k1, j);
            }
        }
        assert forall|c: CellIdx| #[trigger] is_held(s.committed, c) implies is_held(
            committed,
            c,
        ) by {
            let j = choose|j: int| 0 <= j < s.committed.len() && (#[trigger] s.committed[j]) is Some
                && (s.committed[j]->0).contains(c);
            assert(committed[j] == s.committed[j]);
        }
        assert forall|c: CellIdx| #[trigger] is_kept_free(t, s.committed, c) implies is_kept_free(
            t,
            committed,
            c,
        ) by {
            let j = choose|j: int| 0 <= j < s.committed.len() && (#[trigger] s.committed[j]) is Some
                && is_too_near(t, s.committed[j]->0, c);
            assert(committed[j] == s.committed[j]);
        }
        assert(come_from(t, s.claims, committed));
        assert forall|j: int|
            0 <= j < committed.len() && groups[j] == g && (
            #[trigger] committed[j]) is Some implies crate::halo::on_board(
            t.dims(),
            committed[j]->0,
        ) by {
            crate::legalize::lemma_choice_fits(t, paths, s.claims, j, g);
            let p = committed[j]->0;
            assert(crate::task::own_walk(t, j, p));
        }
        lemma_group_comes(t, groups, committed, s.claims, g, n);
    }
}

/// What the nets of the groups before place `a` of the order end up with.
pub open spec fn before(end: Paths, groups: Seq<usize>, order: Seq<usize>, a: int) -> Paths {
    Seq::new(
        end.len(),
        |j: int|
            if exists|b: int| 0 <= b < a && #[trigger] order[b] == groups[j] {
                end[j]
            } else {
                None
            },
    )
}

/// A net gets a path wherever the nets of the groups before its own leave it a way: a net
/// without one has none.
pub proof fn law_lost_nets_have_no_way(
    t: Task,
    groups: Seq<usize>,
    paths: Seq<Seq<CellIdx>>,
    order: Seq<usize>,
    a: int,
    i: int,
    q: Seq<CellIdx>,
)
    requires
        t.wf(),
        groups.len() == t.nets.len(),
        crate::task::all_walk(t, paths),
        crate::legalize::no_repeats(order),
        0 <= a < order.len(),
        0 <= i < t.nets.len(),
        groups[i] == order[a],
        crate::legalize::legalized(t, groups, paths, order)[i] is None,
    ensures
        !is_free_way(
            t,
            i,
            before(crate::legalize::legalized(t, groups, paths, order), groups, order, a),
            q,
        ),
{
    let end = crate::legalize::legalized(t, groups, paths, order);
    let others = before(end, groups, order, a);
    let s = crate::legalize::in_order(t, groups, paths, order, a as nat);
    let g = order[a];
    crate::legalize::lemma_kept(t, groups, paths, order, a, order.len(), i);
    lemma_order_comes(t, groups, paths, order, a as nat);
    lemma_order_comes(t, groups, paths, order, order.len());
    assert forall|j: int| 0 <= j < t.nets.len() && (#[trigger] s.committed[j]) is Some implies
        others[j] == s.committed[j] by {
        if forall|b: int| 0 <= b < a ==> #[trigger] order[b] != groups[j] {
            crate::legalize::lemma_not_yet(t, groups, paths, order, a as nat, j);
        }
        let b = choose|b: int| 0 <= b < a && #[trigger] order[b] == groups[j];
        crate::legalize::lemma_kept(t, groups, paths, order, b, a as nat, j);
        crate::legalize::lemma_kept(t, groups, paths, order, b, order.len(), j);
    }
    assert forall|c: CellIdx| #[trigger] is_held(s.committed, c) implies is_held(others, c) by {
        let j = choose|j: int| 0 <= j < s.committed.len() && (#[trigger] s.committed[j]) is Some
            && (s.committed[j]->0).contains(c);
        assert(others[j] == s.committed[j]);
    }
    assert forall|c: CellIdx| #[trigger] is_kept_free(t, s.committed, c) implies is_kept_free(
        t,
        others,
        c,
    ) by {
        let j = choose|j: int| 0 <= j < s.committed.len() && (#[trigger] s.committed[j]) is Some
            && is_too_near(t, s.committed[j]->0, c);
        assert(others[j] == s.committed[j]);
    }
    assert(come_from(t, s.claims, others));
    if is_free_way(t, i, others, q) {
        lemma_free_way_is_found(t, i, g, s.claims, others, q);
    }
}

/// A way that the others leave is found.
pub proof fn lemma_free_way_is_found(
    t: Task,
    i: int,
    g: usize,
    claims: Claims,
    others: Paths,
    q: Seq<CellIdx>,
)
    requires
        t.wf(),
        0 <= i < t.nets.len(),
        come_from(t, claims, others),
        is_free_way(t, i, others, q),
    ensures
        crate::legal::legal_find(t, i, g, claims, true) is Some,
{
    let whole = IsolatedRouteWindow::whole(t.dims());
    let graph = crate::legal::legal_graph(t, i, g, whole, claims);
    let d = t.dims();
    let (src, dst) = (t.nets[i].src, t.nets[i].dst);
    assert(t.net_fits(i));
    lemma_free_walk(t, i, g, claims, others, q, q.len());
    assert(q.take(q.len() as int) =~= q);
    assert(graph.connects(src, dst, q));
    graph.lemma_routable(src, dst, u32::MAX as nat);
    assert(!crate::legal::legal_shut(t, i, g, whole, claims, src)) by {
        d.lemma_coords(src);
        assert(is_left(t, i, others, q[0]));
        assert(claims.owner[src as int] == Claim::Free);
    }
}

proof fn lemma_free_walk(
    t: Task,
    i: int,
    g: usize,
    claims: Claims,
    others: Paths,
    q: Seq<CellIdx>,
    n: nat,
)
    requires
        t.wf(),
        0 <= i < t.nets.len(),
        come_from(t, claims, others),
        is_free_way(t, i, others, q),
        0 < n <= q.len(),
    ensures
        ({
            let graph = crate::legal::legal_graph(
                t,
                i,
                g,
                IsolatedRouteWindow::whole(t.dims()),
                claims,
            );
            let p = q.take(n as int);
            graph.is_walk(p) && graph.cost(p) == task_moves(t, i).fees(p)
        }),
    decreases n,
{
    let m = task_moves(t, i);
    let d = t.dims();
    let whole = IsolatedRouteWindow::whole(d);
    let graph = crate::legal::legal_graph(t, i, g, whole, claims);
    let p = q.take(n as int);
    assert(t.net_fits(i));
    if n > 1 {
        lemma_free_walk(t, i, g, claims, others, q, (n - 1) as nat);
        let r = q.take(n - 1);
        assert(p.drop_last() =~= r);
        assert(p.take(n - 1) =~= r);
        let (u, v) = (q[n - 2], q[n - 1]);
        assert(m.goes(q, n - 1));
        crate::board_laws::lemma_steps(t, i, u, v);
        assert(is_left(t, i, others, q[n - 1]));
        assert(is_left(t, i, others, q[n - 2]));
        crate::ways::law_neighbours_are_beside(d, u, v);
        assert(d.has(u) && d.has(v));
        d.lemma_coords(v);
        assert(claims.owner[v as int] == Claim::Free);
        assert(!crate::legal::legal_shut(t, i, g, whole, claims, v)) by {
            if !t.is_end(i, v) {
                assert(claims.halo[v as int] == Claim::Free);
            }
        }
        if d.via_adjacent(u, v) {
            crate::ways::law_cells_have_places(d, u);
            crate::ways::law_cells_have_places(d, v);
            crate::ways::law_neighbours_are_under(d, u, v, d.layer(u), d.layer(v));
            assert(crate::ways::stands_at(d, u, d.col(u), d.row(u), d.layer(u)));
            assert(crate::ways::stands_at(d, v, d.col(u), d.row(u), d.layer(v)));
            assert(dives_at(t, q, n - 1));
            lemma_no_conflict(t, g, claims, others, u);
            lemma_no_conflict(t, g, claims, others, v);
        }
        assert(graph.joins(u, v));
        assert forall|k: int| 0 < k < p.len() implies #[trigger] graph.steps(p, k) by {
            if k < n - 1 {
                assert(graph.steps(r, k));
            }
        }
    } else {
        assert(p.len() == 1);
        assert(q[0] == t.nets[i].src);
    }
}

proof fn lemma_no_conflict(t: Task, g: usize, claims: Claims, others: Paths, s: CellIdx)
    requires
        come_from(t, claims, others),
        has_room(t, others, s),
    ensures
        !crate::legal::ring_conflict(t, g, claims, s),
{
    if crate::legal::ring_conflict(t, g, claims, s) {
        let c = choose|c: CellIdx| #[trigger]
            t.geo.keepout.covers(t.dims(), s, c) && crate::legal::contested(claims, g, c);
        assert(t.dims().has(c));
        assert(claims.owner[c as int] == Claim::Free);
        assert(claims.halo[c as int] == Claim::Free);
    }
}

} // verus!
