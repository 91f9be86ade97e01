//! What checking a board is for: which copper is compared, and what is reported.
use vstd::prelude::*;

use crate::drc::{Copper, DrcBoard, LayerKind, PadClearances, Violation, ViolationClass};
use crate::drc_pairs::{Bin, Stamp};
use crate::drc_report::{CloseCall, Entry, Findings, ViaCheck};

verus! {

/// The piece is copper of the net of that name.
pub open spec fn is_named<N>(board: DrcBoard<N>, s: Stamp, name: Seq<char>) -> bool {
    match s.kind {
        Copper::Trace => board.segments@[s.index as int].net@ == name,
        Copper::Pad => board.pads@[s.index as int].net matches Some(n) && n@ == name,
        Copper::Via => board.vias@[s.index as int].net@ == name,
    }
}

/// Nets whose names are known conflict exactly where the names are different texts, and a
/// net that is not known conflicts with every other.
pub proof fn law_names_decide(x: Seq<char>, y: Seq<char>, a: Option<Seq<char>>)
    ensures
        crate::drc::conflict(Some(x), Some(y)) <==> x != y,
        crate::drc::conflict(None, a),
        crate::drc::conflict(a, None),
{
}

/// Two pieces of copper are looked at exactly where their squares are on one layer and at
/// most one square apart each way, they belong to different things that are not both
/// holes of known sites, and no one name is that of both.
pub proof fn law_suspects_differ_in_name<N>(
    board: DrcBoard<N>,
    stamps: Seq<Stamp>,
    bins: Seq<Bin>,
    i: usize,
    j: usize,
)
    ensures
        crate::drc_pairs::is_suspect(board, stamps, bins, i, j) <==> {
            let (a, b) = (stamps[i as int], stamps[j as int]);
            let (p, q) = (bins[i as int], bins[j as int]);
            &&& i < j < bins.len()
            &&& p.layer == q.layer
            &&& p.x <= q.x + 1 && q.x <= p.x + 1
            &&& p.y <= q.y + 1 && q.y <= p.y + 1
            &&& a.logical != b.logical
            &&& !a.sited || !b.sited
            &&& forall|name: Seq<char>| #[trigger]
                is_named(board, a, name) ==> !is_named(board, b, name)
        },
{
    let (a, b) = (stamps[i as int], stamps[j as int]);
    let (x, y) = (
        crate::drc_pairs::piece_net(board, a),
        crate::drc_pairs::piece_net(board, b),
    );
    assert forall|name: Seq<char>| #[trigger] is_named(board, a, name) <==> x == Some(name) by {}
    assert forall|name: Seq<char>| #[trigger] is_named(board, b, name) <==> y == Some(name) by {}
    if crate::drc::conflict(x, y) {
        assert forall|name: Seq<char>| #[trigger] is_named(board, a, name) implies !is_named(
            board,
            b,
            name,
        ) by {
            assert(x == Some(name));
        }
    } else {
        assert(is_named(board, a, x->0));
        assert(is_named(board, b, x->0));
    }
}

/// The clearance between two pieces of copper: between a trace and a pad or a via the rule
/// for traces, between a via and a pad the rule for vias, between pads the rule for pads,
/// and otherwise, or where there are no such rules, the general one.
pub proof fn law_clearance_of_pieces<N>(generic: N, rules: PadClearances<N>, a: Copper, b: Copper)
    ensures
        crate::drc::clearance_between(generic, None, a, b) == generic,
        a is Trace && b is Trace ==> crate::drc::clearance_between(generic, Some(rules), a, b)
            == generic,
        a is Via && b is Via ==> crate::drc::clearance_between(generic, Some(rules), a, b)
            == generic,
        a is Pad && b is Pad ==> crate::drc::clearance_between(generic, Some(rules), a, b)
            == rules.pad_to_pad,
        (a is Trace && !(b is Trace)) || (b is Trace && !(a is Trace))
            ==> crate::drc::clearance_between(generic, Some(rules), a, b) == rules.trace_to_pad,
        (a is Via && b is Pad) || (a is Pad && b is Via) ==> crate::drc::clearance_between(
            generic,
            Some(rules),
            a,
            b,
        ) == rules.via_to_pad,
{
}

/// The via is on a layer of the stack: the layer is one of the board's, and neither above
/// nor below both ends of the via.
pub open spec fn is_on<N>(board: DrcBoard<N>, v: int, layer: u32) -> bool {
    let w = board.vias@[v];
    &&& layer < board.layers@.len()
    &&& layer >= w.from_layer || layer >= w.to_layer
    &&& layer <= w.from_layer || layer <= w.to_layer
}

/// The stamp shows a trace or a pad of the board, or a via on a layer that it is on.
pub open spec fn shows_copper<N>(board: DrcBoard<N>, s: Stamp) -> bool {
    match s.kind {
        Copper::Trace => s.index < board.segments@.len() && s.layer
            == board.segments@[s.index as int].layer,
        Copper::Pad => s.index < board.pads@.len() && s.layer == board.pads@[s.index as int].layer,
        Copper::Via => s.index < board.vias@.len() && is_on(board, s.index as int, s.layer),
    }
}

/// Some stamp shows that piece of copper on that layer.
pub open spec fn is_stamped(stamps: Seq<Stamp>, kind: Copper, index: int, layer: u32) -> bool {
    exists|k: int|
        0 <= k < stamps.len() && (#[trigger] stamps[k]).kind == kind && stamps[k].index == index
            && stamps[k].layer == layer
}

proof fn lemma_lone_vias<N>(board: DrcBoard<N>, n: nat)
    requires
        board.layers@.len() <= u32::MAX,
        n <= board.vias@.len() <= usize::MAX,
    ensures
        forall|k: int|
            0 <= k < crate::drc_pairs::lone_vias(board, n).len() ==> (
            #[trigger] crate::drc_pairs::lone_vias(board, n)[k]).kind is Via && shows_copper(
                board,
                crate::drc_pairs::lone_vias(board, n)[k],
            ),
        forall|v: int, layer: u32|
            0 <= v < n && is_on(board, v, layer) ==> #[trigger] is_stamped(
                crate::drc_pairs::lone_vias(board, n),
                Copper::Via,
                v,
                layer,
            ),
    decreases n,
{
    if n > 0 {
        let n1 = (n - 1) as nat;
        lemma_lone_vias(board, n1);
        let before = crate::drc_pairs::lone_vias(board, n1);
        let w = board.vias@[n - 1];
        let new = crate::drc_pairs::stamps_of_via(
            w,
            board.layers@.len() as u32,
            (n - 1) as usize,
            (board.segments@.len() + board.pads@.len() + n - 1) as usize,
            false,
        );
        let all = crate::drc_pairs::lone_vias(board, n);
        assert(all == before + new);
        assert forall|k: int| 0 <= k < all.len() implies (#[trigger] all[k]).kind is Via
            && shows_copper(board, all[k]) by {
            if k < before.len() {
                assert(all[k] == before[k]);
            } else {
                assert(all[k] == new[k - before.len()]);
            }
        }
        assert forall|v: int, layer: u32| 0 <= v < n && is_on(board, v, layer) implies
            #[trigger] is_stamped(all, Copper::Via, v, layer) by {
            if v < n1 {
                assert(is_stamped(before, Copper::Via, v, layer));
                let k = choose|k: int|
                    0 <= k < before.len() && (#[trigger] before[k]).kind == Copper::Via
                        && before[k].index == v && before[k].layer == layer;
                assert(all[k] == before[k]);
            } else {
                let lo = crate::drc::low(w.from_layer, w.to_layer);
                let m = layer - lo;
                assert(new[m].layer == layer);
                assert(all[before.len() + m] == new[m]);
            }
        }
    }
}

/// All copper is looked at, and nothing else: every trace and every pad on its layer, and
/// every via on each layer of the stack between its ends.
pub proof fn law_all_copper_is_stamped<N>(board: DrcBoard<N>)
    requires
        crate::drc_pairs::countable(board, 0),
    ensures
        ({
            let s = crate::drc_pairs::all_stamps(board, None);
            &&& forall|k: int| 0 <= k < s.len() ==> shows_copper(board, #[trigger] s[k])
            &&& forall|i: int|
                0 <= i < board.segments@.len() ==> is_stamped(
                    s,
                    Copper::Trace,
                    i,
                    (#[trigger] board.segments@[i]).layer,
                )
            &&& forall|i: int|
                0 <= i < board.pads@.len() ==> is_stamped(
                    s,
                    Copper::Pad,
                    i,
                    (#[trigger] board.pads@[i]).layer,
                )
            &&& forall|v: int, layer: u32|
                0 <= v < board.vias@.len() && is_on(board, v, layer) ==> #[trigger] is_stamped(
                    s,
                    Copper::Via,
                    v,
                    layer,
                )
        }),
{
    let a = crate::drc_pairs::trace_stamps(board, board.segments@.len());
    let b = crate::drc_pairs::pad_stamps(board, board.pads@.len());
    let c = crate::drc_pairs::lone_vias(board, board.vias@.len());
    let s = crate::drc_pairs::all_stamps(board, None);
    assert(s == a + b + c);
    lemma_lone_vias(board, board.vias@.len());
    assert forall|k: int| 0 <= k < s.len() implies shows_copper(board, #[trigger] s[k]) by {
        if k < a.len() {
            assert(s[k] == a[k]);
        } else if k < a.len() + b.len() {
            assert(s[k] == b[k - a.len()]);
        } else {
            assert(s[k] == c[k - a.len() - b.len()]);
        }
    }
    assert forall|i: int| 0 <= i < board.segments@.len() implies is_stamped(
        s,
        Copper::Trace,
        i,
        (#[trigger] board.segments@[i]).layer,
    ) by {
        assert(s[i] == a[i]);
    }
    assert forall|i: int| 0 <= i < board.pads@.len() implies is_stamped(
        s,
        Copper::Pad,
        i,
        (#[trigger] board.pads@[i]).layer,
    ) by {
        assert(s[a.len() + i] == b[i]);
    }
    assert forall|v: int, layer: u32| 0 <= v < board.vias@.len() && is_on(board, v, layer) implies
        #[trigger] is_stamped(s, Copper::Via, v, layer) by {
        assert(is_stamped(c, Copper::Via, v, layer));
        let k = choose|k: int|
            0 <= k < c.len() && (#[trigger] c[k]).kind == Copper::Via && c[k].index == v
                && c[k].layer == layer;
        assert(s[a.len() + b.len() + k] == c[k]);
    }
}

/// The text comes before the other in a dictionary.
pub open spec fn is_before(a: Seq<char>, b: Seq<char>) -> bool {
    exists|k: int|
        {
            &&& 0 <= k <= a.len()
            &&& k < b.len()
            &&& #[trigger] a.take(k) == b.take(k)
            &&& k == a.len() || (a[k] as int) < (b[k] as int)
        }
}

/// The pair of names of a violation: both names, and the second not before the first.
pub proof fn law_names_in_order(a: Seq<char>, b: Seq<char>)
    ensures
        ({
            let (x, y) = crate::drc::nets_in_order(a, b);
            &&& (x == a && y == b) || (x == b && y == a)
            &&& !is_before(y, x)
        }),
{
    let (x, y) = crate::drc::nets_in_order(a, b);
    crate::sorting::lemma_text_is_key(a, b);
    crate::sorting::lemma_text_is_key(b, a);
    if is_before(y, x) {
        lemma_before(y, x);
        crate::sorting::lemma_text_is_key(y, x);
        if x == b && y == a && !(x == a && y == b) {
            crate::sorting::lemma_less_asymmetric(
                crate::sorting::text_key(b),
                crate::sorting::text_key(a),
            );
        }
    }
}

/// What comes before in a dictionary comes before in reports.
pub proof fn lemma_before(a: Seq<char>, b: Seq<char>)
    requires
        is_before(a, b),
    ensures
        crate::sorting::text_less(a, b),
{
    let k = choose|k: int|
        {
            &&& 0 <= k <= a.len()
            &&& k < b.len()
            &&& #[trigger] a.take(k) == b.take(k)
            &&& k == a.len() || (a[k] as int) < (b[k] as int)
        };
    assert forall|j: int| 0 <= j < k implies #[trigger] a[j] == b[j] by {
        assert(a.take(k)[j] == b.take(k)[j]);
    }
    assert(crate::sorting::text_parts_at(a, b, k));
}

/// The things that are meant, in order.
proof fn lemma_pick(
    keys: Seq<Seq<i64>>,
    order: Seq<usize>,
    meant: spec_fn(usize) -> bool,
    n: nat,
) -> (r: Seq<usize>)
    requires
        crate::sorting::is_order(keys, order),
        n <= order.len(),
    ensures
        crate::sorting::is_rising(keys, r),
        forall|x: usize| #[trigger]
            r.contains(x) <==> meant(x) && exists|i: int| 0 <= i < n && #[trigger] order[i] == x,
    decreases n,
{
    if n == 0 {
        Seq::empty()
    } else {
        let q = lemma_pick(keys, order, meant, (n - 1) as nat);
        let x = order[n - 1];
        if meant(x) {
            let r = q.push(x);
            assert forall|i: int, j: int| 0 <= i < j < r.len() implies crate::sorting::precedes(
                keys,
                #[trigger] r[i] as int,
                #[trigger] r[j] as int,
            ) by {
                assert(r[i] == q[i]);
                if j < q.len() {
                    assert(r[j] == q[j]);
                } else {
                    assert(q.contains(q[i]));
                    let k = choose|k: int| 0 <= k < n - 1 && #[trigger] order[k] == q[i];
                    assert(crate::sorting::precedes(keys, order[k] as int, order[n - 1] as int));
                }
            }
            assert forall|y: usize| #[trigger] r.contains(y) <==> meant(y) && exists|i: int|
                0 <= i < n && #[trigger] order[i] == y by {
                if r.contains(y) {
                    let i = choose|i: int| 0 <= i < r.len() && r[i] == y;
                    if i < q.len() {
                        assert(q[i] == y);
                        assert(q.contains(y));
                    } else {
                        assert(order[n - 1] == y);
                    }
                }
                if meant(y) && exists|i: int| 0 <= i < n && #[trigger] order[i] == y {
                    let i = choose|i: int| 0 <= i < n && #[trigger] order[i] == y;
                    if i < n - 1 {
                        assert(q.contains(y));
                        let k = choose|k: int| 0 <= k < q.len() && q[k] == y;
                        assert(r[k] == y);
                    } else {
                        assert(r[q.len() as int] == y);
                    }
                }
            }
            r
        } else {
            assert forall|y: usize| #[trigger] q.contains(y) <==> meant(y) && exists|i: int|
                0 <= i < n && #[trigger] order[i] == y by {
                if meant(y) && exists|i: int| 0 <= i < n && #[trigger] order[i] == y {
                    let i = choose|i: int| 0 <= i < n && #[trigger] order[i] == y;
                    assert(i < n - 1);
                }
            }
            q
        }
    }
}

proof fn lemma_leaders(keys: Seq<Seq<i64>>, width: int)
    requires
        keys.len() <= usize::MAX,
    ensures
        crate::drc_rank::are_leaders(keys, width, crate::drc_rank::leaders(keys, width)),
{
    crate::sorting::law_an_order_exists(keys);
    let order = crate::sorting::order_of(keys);
    let meant = |x: usize| crate::drc_rank::leads(keys, width, x as int);
    let r = lemma_pick(keys, order, meant, order.len());
    assert forall|x: usize| #[trigger] r.contains(x) <==> crate::drc_rank::leads(
        keys,
        width,
        x as int,
    ) by {
        if crate::drc_rank::leads(keys, width, x as int) {
            assert(order.contains(x));
            let i = choose|i: int| 0 <= i < order.len() && order[i] == x;
            assert(order[i] == x);
            assert(meant(x));
        }
    }
    assert(crate::drc_rank::are_leaders(keys, width, r));
}

/// What is reported of rows is a list of its kind.
pub proof fn lemma_reported(rows: Seq<crate::drc_rank::ViaRank>)
    requires
        rows.len() <= usize::MAX,
    ensures
        crate::drc_rank::are_reported(rows, crate::drc_rank::reported(rows)),
{
    let keys = crate::drc_rank::via_row_keys(rows);
    crate::sorting::law_an_order_exists(keys);
    let order = crate::sorting::order_of(keys);
    let meant = |x: usize| crate::drc_rank::is_reported(rows, x as int);
    let r = lemma_pick(keys, order, meant, order.len());
    assert forall|x: usize| #[trigger] r.contains(x) <==> crate::drc_rank::is_reported(
        rows,
        x as int,
    ) by {
        if crate::drc_rank::is_reported(rows, x as int) {
            assert(order.contains(x));
            let i = choose|i: int| 0 <= i < order.len() && order[i] == x;
            assert(order[i] == x);
            assert(meant(x));
        }
    }
    assert(crate::drc_rank::are_reported(rows, r));
}

/// The entry tells of two pieces of copper that are too close.
pub open spec fn tells_close<N>(
    board: DrcBoard<N>,
    stamps: Seq<Stamp>,
    c: CloseCall<N>,
    e: Entry<N>,
) -> bool {
    let (a, b) = (stamps[c.i as int], stamps[c.j as int]);
    &&& e.class is Clearance
    &&& e.layer == a.layer
    &&& e.place == c.place
    &&& e.short == c.short
    &&& !is_before(e.nets.1, e.nets.0)
    &&& (goes_by(board, a, e.nets.0) && goes_by(board, b, e.nets.1)) || (goes_by(
        board,
        a,
        e.nets.1,
    ) && goes_by(board, b, e.nets.0))
}

/// The name stands for the piece: it is that of its net, or empty where that is not known.
pub open spec fn goes_by<N>(board: DrcBoard<N>, s: Stamp, name: Seq<char>) -> bool {
    is_named(board, s, name) || name.len() == 0 && forall|x: Seq<char>| !(#[trigger] is_named(
        board,
        s,
        x,
    ))
}

/// Two calls are of the same two things on one layer.
pub open spec fn same_things<N>(stamps: Seq<Stamp>, c: CloseCall<N>, d: CloseCall<N>) -> bool {
    let (a, b) = (stamps[c.i as int], stamps[c.j as int]);
    let (x, y) = (stamps[d.i as int], stamps[d.j as int]);
    &&& a.layer == x.layer
    &&& (a.logical == x.logical && b.logical == y.logical) || (a.logical == y.logical && b.logical
        == x.logical)
}

/// An entry tells of the same two things as the call, and of no less a shortfall.
pub open spec fn is_told<N>(
    board: DrcBoard<N>,
    stamps: Seq<Stamp>,
    calls: Seq<CloseCall<N>>,
    r: Seq<Entry<N>>,
    k: int,
) -> bool {
    exists|m: int, x: int|
        {
            &&& 0 <= m < r.len()
            &&& 0 <= x < calls.len()
            &&& #[trigger] tells_close(board, stamps, calls[x], r[m])
            &&& same_things(stamps, calls[x], calls[k])
            &&& calls[x].short.deficit <= calls[k].short.deficit
        }
}

/// The entry tells of one of the calls.
pub open spec fn tells_some<N>(
    board: DrcBoard<N>,
    stamps: Seq<Stamp>,
    calls: Seq<CloseCall<N>>,
    r: Seq<Entry<N>>,
    m: int,
) -> bool {
    exists|x: int| 0 <= x < calls.len() && #[trigger] tells_close(board, stamps, calls[x], r[m])
}

proof fn lemma_goes_by<N>(board: DrcBoard<N>, s: Stamp)
    ensures
        goes_by(board, s, crate::drc::name_of(crate::drc_pairs::piece_net(board, s))),
{
    let net = crate::drc_pairs::piece_net(board, s);
    assert forall|x: Seq<char>| #[trigger] is_named(board, s, x) <==> net == Some(x) by {}
}

proof fn lemma_close_entry<N>(board: DrcBoard<N>, stamps: Seq<Stamp>, c: CloseCall<N>)
    ensures
        tells_close(board, stamps, c, crate::drc_report::close_entry(board, stamps, c)),
{
    let (a, b) = (stamps[c.i as int], stamps[c.j as int]);
    lemma_goes_by(board, a);
    lemma_goes_by(board, b);
    law_names_in_order(
        crate::drc::name_of(crate::drc_pairs::piece_net(board, a)),
        crate::drc::name_of(crate::drc_pairs::piece_net(board, b)),
    );
}

/// Whatever is found too close is reported: for each two things on a layer the worst that
/// was found of them, and nothing else.
pub proof fn law_close_copper_is_reported<N>(
    board: DrcBoard<N>,
    stamps: Seq<Stamp>,
    calls: Seq<CloseCall<N>>,
)
    requires
        calls.len() <= usize::MAX,
        crate::drc_pairs::are_pieces(board, stamps),
        crate::drc_report::calls_fit(stamps, calls),
    ensures
        ({
            let r = crate::drc_report::close_entries(board, stamps, calls);
            &&& forall|k: int| 0 <= k < calls.len() ==> #[trigger] is_told(board, stamps, calls, r, k)
            &&& forall|m: int| 0 <= m < r.len() ==> #[trigger] tells_some(board, stamps, calls, r, m)
        }),
{
    let keys = calls.map_values(|c: CloseCall<N>| crate::drc_report::close_key(board, stamps, c));
    let lead = crate::drc_rank::leaders(keys, 3);
    let r = crate::drc_report::close_entries(board, stamps, calls);
    lemma_leaders(keys, 3);
    assert forall|k: int| 0 <= k < calls.len() implies #[trigger] is_told(
        board,
        stamps,
        calls,
        r,
        k,
    ) by {
        crate::drc_rank::law_one_leader(keys, 3, k);
        let x = choose|x: int|
            crate::drc_rank::leads(keys, 3, x) && crate::drc_rank::same_group(keys[x], keys[k], 3);
        assert(lead.contains(x as usize));
        let m = choose|m: int| 0 <= m < lead.len() && lead[m] == x as usize;
        lemma_close_entry(board, stamps, calls[x]);
        assert(r[m] == crate::drc_report::close_entry(board, stamps, calls[x]));
        lemma_same_things(board, stamps, calls, x, k);
        assert(tells_close(board, stamps, calls[x], r[m]));
    }
    assert forall|m: int| 0 <= m < r.len() implies #[trigger] tells_some(
        board,
        stamps,
        calls,
        r,
        m,
    ) by {
        let x = lead[m];
        assert(lead.contains(x));
        assert(crate::drc_rank::leads(keys, 3, x as int));
        lemma_close_entry(board, stamps, calls[x as int]);
        assert(tells_close(board, stamps, calls[x as int], r[m]));
    }
}

proof fn lemma_same_things<N>(
    board: DrcBoard<N>,
    stamps: Seq<Stamp>,
    calls: Seq<CloseCall<N>>,
    x: int,
    k: int,
)
    requires
        crate::drc_pairs::are_pieces(board, stamps),
        crate::drc_report::calls_fit(stamps, calls),
        0 <= x < calls.len(),
        0 <= k < calls.len(),
        ({
            let keys = calls.map_values(
                |c: CloseCall<N>| crate::drc_report::close_key(board, stamps, c),
            );
            crate::drc_rank::leads(keys, 3, x) && crate::drc_rank::same_group(keys[x], keys[k], 3)
        }),
    ensures
        same_things(stamps, calls[x], calls[k]),
        calls[x].short.deficit <= calls[k].short.deficit,
{
    let keys = calls.map_values(|c: CloseCall<N>| crate::drc_report::close_key(board, stamps, c));
    let (p, q) = (
        crate::drc_report::close_key(board, stamps, calls[x]),
        crate::drc_report::close_key(board, stamps, calls[k]),
    );
    assert(keys[x] == p && keys[k] == q);
    assert(p[0] == q[0] && p[1] == q[1] && p[2] == q[2]);
    assert(p[3] == calls[x].short.deficit && q[3] == calls[k].short.deficit);
    assert(calls[x].i < stamps.len() && calls[k].i < stamps.len());
    assert(crate::drc_pairs::is_piece(board, stamps[calls[x].i as int]));
    assert(crate::drc_pairs::is_piece(board, stamps[calls[x].j as int]));
    assert(crate::drc_pairs::is_piece(board, stamps[calls[k].i as int]));
    assert(crate::drc_pairs::is_piece(board, stamps[calls[k].j as int]));
    if x != k {
        assert(crate::drc_rank::same_group(keys[k], keys[x], 3)) by {
            assert forall|t: int| 0 <= t < 3 implies #[trigger] keys[k][t] == keys[x][t] by {
                assert(keys[x][t] == keys[k][t]);
            }
        }
        assert(crate::sorting::precedes(keys, x, k));
        if crate::sorting::key_less(p, q) {
            let t = choose|t: int| crate::sorting::parts_at(p, q, t);
            if t > 3 {
                assert(p[3] == q[3]);
            }
        }
    }
}

proof fn lemma_plane_entries<N>(board: DrcBoard<N>, checks: Seq<ViaCheck<N>>, n: int, e: Entry<N>)
    requires
        board.layers@.len() <= u32::MAX,
        0 <= n <= checks.len(),
        checks.len() == board.vias@.len(),
    ensures
        crate::drc_report::plane_entries(board, checks, n).contains(e) <==> exists|v: int|
            0 <= v < n && #[trigger] tells_crossing(board, checks, v, e),
    decreases n,
{
    if n > 0 {
        lemma_plane_entries(board, checks, n - 1, e);
        let before = crate::drc_report::plane_entries(board, checks, n - 1);
        let via = board.vias@[n - 1];
        let new = crate::drc_report::plane_entries_of(board, via, checks[n - 1]);
        let all = before + new;
        assert(crate::drc_report::plane_entries(board, checks, n) == all);
        lemma_crossing(board, checks, n - 1, e);
        assert(all.contains(e) <==> before.contains(e) || new.contains(e)) by {
            if before.contains(e) {
                let k = choose|k: int| 0 <= k < before.len() && before[k] == e;
                assert(all[k] == e);
            }
            if new.contains(e) {
                let k = choose|k: int| 0 <= k < new.len() && new[k] == e;
                assert(all[before.len() + k] == e);
            }
        }
    }
}

/// The entry tells that a via goes without room enough through a plane of another net.
pub open spec fn tells_crossing<N>(
    board: DrcBoard<N>,
    checks: Seq<ViaCheck<N>>,
    v: int,
    e: Entry<N>,
) -> bool {
    &&& e.class is ViaThroughPlane
    &&& is_on(board, v, e.layer)
    &&& board.layers@[e.layer as int] matches LayerKind::Plane { net } && net@
        != board.vias@[v].net@ && e.nets == (board.vias@[v].net@, net@)
    &&& e.place == checks[v].place
    &&& checks[v].plane == Some(e.short)
}

proof fn lemma_crossing<N>(board: DrcBoard<N>, checks: Seq<ViaCheck<N>>, v: int, e: Entry<N>)
    requires
        board.layers@.len() <= u32::MAX,
        0 <= v < board.vias@.len(),
    ensures
        crate::drc_report::plane_entries_of(board, board.vias@[v], checks[v]).contains(e)
            <==> tells_crossing(board, checks, v, e),
{
    let via = board.vias@[v];
    let n = board.layers@.len() as u32;
    let new = crate::drc_report::plane_entries_of(board, via, checks[v]);
    let planes = crate::drc_report::planes_of(board, via);
    let span = crate::drc::stack_span(via.from_layer, via.to_layer, n);
    assert forall|k: u32| #[trigger] planes.contains(k) <==> is_on(board, v, k)
        && crate::drc::is_foreign_plane(board.layers@[k as int], via.net@) by {
        if let Some((lo, hi)) = span {
            crate::drc::law_crossed_planes(board.layers@, via.net@, lo as int, hi + 1, k);
        }
    }
    if new.contains(e) {
        let k = choose|k: int| 0 <= k < new.len() && new[k] == e;
        assert(planes.contains(planes[k]));
        assert(tells_crossing(board, checks, v, e));
    }
    if tells_crossing(board, checks, v, e) {
        assert(planes.contains(e.layer));
        let k = choose|k: int| 0 <= k < planes.len() && planes[k] == e.layer;
        assert(new[k] =~= e);
    }
}

/// The entry tells that there is too little copper around the hole of a via.
pub open spec fn tells_ring<N>(
    board: DrcBoard<N>,
    checks: Seq<ViaCheck<N>>,
    v: int,
    e: Entry<N>,
) -> bool {
    let w = board.vias@[v];
    &&& e.class is AnnularRing
    &&& e.layer == if w.from_layer < w.to_layer {
        w.from_layer
    } else {
        w.to_layer
    }
    &&& e.nets == (w.net@, Seq::<char>::empty())
    &&& e.place == checks[v].place
    &&& checks[v].ring == Some(e.short)
}

proof fn lemma_ring_entries<N>(board: DrcBoard<N>, checks: Seq<ViaCheck<N>>, n: int, e: Entry<N>)
    requires
        0 <= n <= checks.len(),
        checks.len() == board.vias@.len(),
    ensures
        crate::drc_report::ring_entries(board, checks, n).contains(e) <==> exists|v: int|
            0 <= v < n && #[trigger] tells_ring(board, checks, v, e),
    decreases n,
{
    if n > 0 {
        lemma_ring_entries(board, checks, n - 1, e);
        let before = crate::drc_report::ring_entries(board, checks, n - 1);
        let new = crate::drc_report::ring_entries_of(board.vias@[n - 1], checks[n - 1]);
        let all = before + new;
        assert(crate::drc_report::ring_entries(board, checks, n) == all);
        if before.contains(e) {
            let k = choose|k: int| 0 <= k < before.len() && before[k] == e;
            assert(all[k] == e);
        }
        if tells_ring(board, checks, n - 1, e) {
            assert(new[0] =~= e);
            assert(all[before.len() as int] == e);
        }
        if all.contains(e) && !before.contains(e) {
            let k = choose|k: int| 0 <= k < all.len() && all[k] == e;
            if k < before.len() {
                assert(before[k] == e);
            }
            assert(e == new[0]);
            assert(tells_ring(board, checks, n - 1, e));
        }
    }
}

/// What is reported of single vias: each plane of another net that a via goes through
/// without room enough, each hole with too little copper around it, and nothing else.
pub proof fn law_faulty_vias_are_reported<N>(
    board: DrcBoard<N>,
    checks: Seq<ViaCheck<N>>,
    e: Entry<N>,
)
    requires
        crate::drc_report::checks_fit(board, checks),
    ensures
        crate::drc_report::plane_entries(board, checks, checks.len() as int).contains(e)
            <==> exists|v: int|
            0 <= v < board.vias@.len() && #[trigger] tells_crossing(board, checks, v, e),
        crate::drc_report::ring_entries(board, checks, checks.len() as int).contains(e)
            <==> exists|v: int|
            0 <= v < board.vias@.len() && #[trigger] tells_ring(board, checks, v, e),
{
    lemma_plane_entries(board, checks, checks.len() as int, e);
    lemma_ring_entries(board, checks, checks.len() as int, e);
}

/// A report has everything that was found, of each class, and nothing else.
pub proof fn law_report_has_everything<N>(
    board: DrcBoard<N>,
    stamps: Seq<Stamp>,
    f: Findings<N>,
    e: Entry<N>,
)
    requires
        crate::drc_report::all_entries(board, stamps, f).len() <= usize::MAX,
    ensures
        ({
            let r = crate::drc_report::in_report_order(
                crate::drc_report::all_entries(board, stamps, f),
            );
            let n = f.checks@.len() as int;
            &&& r.len() == crate::drc_report::close_entries(board, stamps, f.close@).len()
                + crate::drc_report::via_entries(board, f.records@, f.vias@).len()
                + crate::drc_report::plane_entries(board, f.checks@, n).len()
                + crate::drc_report::ring_entries(board, f.checks@, n).len()
            &&& r.contains(e) <==> crate::drc_report::close_entries(
                board,
                stamps,
                f.close@,
            ).contains(e) || crate::drc_report::via_entries(board, f.records@, f.vias@).contains(e)
                || crate::drc_report::plane_entries(board, f.checks@, n).contains(e)
                || crate::drc_report::ring_entries(board, f.checks@, n).contains(e)
        }),
{
    let n = f.checks@.len() as int;
    let a = crate::drc_report::close_entries(board, stamps, f.close@);
    let b = crate::drc_report::via_entries(board, f.records@, f.vias@);
    let c = crate::drc_report::plane_entries(board, f.checks@, n);
    let d = crate::drc_report::ring_entries(board, f.checks@, n);
    let all = crate::drc_report::all_entries(board, stamps, f);
    let keys = all.map_values(|e: Entry<N>| crate::drc_report::entry_key(e));
    let order = crate::sorting::order_of(keys);
    let r = crate::drc_report::in_report_order(all);
    crate::sorting::law_an_order_exists(keys);
    lemma_either(a, b, e);
    lemma_either(a + b, c, e);
    lemma_either(a + b + c, d, e);
    if r.contains(e) {
        let k = choose|k: int| 0 <= k < r.len() && r[k] == e;
        assert(order[k] < all.len());
        assert(all[order[k] as int] == e);
    }
    if all.contains(e) {
        let x = choose|x: int| 0 <= x < all.len() && all[x] == e;
        assert(order.contains(x as usize));
        let k = choose|k: int| 0 <= k < order.len() && order[k] == x as usize;
        assert(r[k] == e);
    }
}

proof fn lemma_either<A>(a: Seq<A>, b: Seq<A>, x: A)
    ensures
        (a + b).contains(x) <==> a.contains(x) || b.contains(x),
{
    let all = a + b;
    if a.contains(x) {
        let k = choose|k: int| 0 <= k < a.len() && a[k] == x;
        assert(all[k] == x);
    }
    if b.contains(x) {
        let k = choose|k: int| 0 <= k < b.len() && b[k] == x;
        assert(all[a.len() + k] == x);
    }
    if all.contains(x) {
        let k = choose|k: int| 0 <= k < all.len() && all[k] == x;
        if k < a.len() {
            assert(a[k] == x);
        } else {
            assert(b[k - a.len()] == x);
        }
    }
}

/// A summary counts the violations of each class.
pub proof fn law_summary_counts<N>(violations: Seq<Violation<N>>, class: ViolationClass)
    ensures
        crate::drc::count_of(violations, class) == crate::tally::how_many(
            |k: int| violations[k].class == class,
            violations.len(),
        ),
    decreases violations.len(),
{
    if violations.len() > 0 {
        let d = violations.drop_last();
        law_summary_counts(d, class);
        crate::tally::lemma_how_many_same(
            |k: int| d[k].class == class,
            |k: int| violations[k].class == class,
            d.len(),
        );
    }
}

} // verus!
