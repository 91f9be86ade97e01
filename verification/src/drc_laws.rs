//! What holds of the report on a board, whatever measures it.
//!
//! Here no rule asks for the distance of holes, so that each via is by itself.
use vstd::prelude::*;

use crate::drc::{Copper, DrcBoard, LayerKind, Pad, Segment, Via, ViolationClass};
use crate::drc_pairs::{Bin, Stamp};
use crate::drc_report::{CloseCall, Entry, Findings, Place, Shortfall, ViaCheck};

verus! {

/// The outline of a piece of copper.
pub enum Outline<N> {
    /// A trace.
    Trace {
        /// One end.
        a: (N, N),
        /// The other end.
        b: (N, N),
        /// How wide it is.
        width: N,
    },
    /// A pad.
    Pad {
        /// The middle.
        center: (N, N),
        /// How wide it is.
        width: N,
        /// How high it is.
        height: N,
    },
    /// The copper of a via.
    Via {
        /// The middle.
        center: (N, N),
        /// How wide it is.
        diameter: N,
    },
}

/// A piece of copper on a layer.
pub struct Piece<N> {
    /// The layer.
    pub layer: u32,
    /// The net, where it is known.
    pub net: Option<Seq<char>>,
    /// The outline.
    pub outline: Outline<N>,
}

/// A via, whichever end comes first.
pub struct Barrel<N> {
    /// The net.
    pub net: Seq<char>,
    /// The middle.
    pub center: (N, N),
    /// How wide its copper is.
    pub pad_diameter: N,
    /// How wide its hole is.
    pub drill_diameter: N,
    /// The layer at its upper end.
    pub top: u32,
    /// The layer at its lower end.
    pub bottom: u32,
    /// How wide the hole is that planes leave for it.
    pub antipad_radius: Option<N>,
}

/// How copper is measured.
#[verifier::reject_recursive_types(N)]
pub struct Gauge<N> {
    /// How two pieces are too close, if they are.
    pub gap: spec_fn(Piece<N>, Piece<N>) -> Option<(Place<N>, Shortfall<N>)>,
    /// What is found of a via by itself.
    pub via: spec_fn(Barrel<N>) -> ViaCheck<N>,
}

/// It does not matter which of two pieces is measured first.
pub open spec fn is_even_handed<N>(gauge: Gauge<N>) -> bool {
    forall|x: Piece<N>, y: Piece<N>| #[trigger] (gauge.gap)(x, y) == (gauge.gap)(y, x)
}

/// The copper of a trace.
pub open spec fn trace_piece<N>() -> spec_fn(Segment<N>) -> Piece<N> {
    |s: Segment<N>|
        Piece {
            layer: s.layer,
            net: Some(s.net@),
            outline: Outline::Trace { a: s.a, b: s.b, width: s.width },
        }
}

/// The copper of a pad.
pub open spec fn pad_piece<N>() -> spec_fn(Pad<N>) -> Piece<N> {
    |p: Pad<N>|
        Piece {
            layer: p.layer,
            net: p.net.deep_view(),
            outline: Outline::Pad { center: p.center, width: p.width, height: p.height },
        }
}

/// A via, whichever end comes first.
pub open spec fn barrel<N>() -> spec_fn(Via<N>) -> Barrel<N> {
    |v: Via<N>|
        Barrel {
            net: v.net@,
            center: v.center,
            pad_diameter: v.pad_diameter,
            drill_diameter: v.drill_diameter,
            top: crate::drc::low(v.from_layer, v.to_layer),
            bottom: crate::drc::high(v.from_layer, v.to_layer),
            antipad_radius: v.antipad_radius,
        }
}

/// The copper of a via on a layer.
pub open spec fn ring_piece<N>(v: Barrel<N>, layer: u32) -> Piece<N> {
    Piece {
        layer,
        net: Some(v.net),
        outline: Outline::Via { center: v.center, diameter: v.pad_diameter },
    }
}

/// The copper of a via on each layer of the stack that it is on.
pub open spec fn ring_pieces<N>(layer_count: u32) -> spec_fn(Barrel<N>) -> Seq<Piece<N>> {
    |v: Barrel<N>|
        match crate::drc::stack_span(v.top, v.bottom, layer_count) {
            Some((lo, hi)) => Seq::new(
                (hi + 1 - lo) as nat,
                |k: int| ring_piece(v, (lo + k) as u32),
            ),
            None => seq![],
        }
}

/// The vias of a board, whichever ends come first.
pub open spec fn barrels<N>(board: DrcBoard<N>) -> Seq<Barrel<N>> {
    board.vias@.map_values(barrel())
}

/// All the copper of a board, layer by layer.
pub open spec fn pieces<N>(board: DrcBoard<N>) -> Seq<Piece<N>> {
    board.segments@.map_values(trace_piece()) + board.pads@.map_values(pad_piece())
        + crate::shuffle::flat(barrels(board), ring_pieces(board.layers@.len() as u32))
}

/// The copper of a stamp.
pub open spec fn piece_at<N>(board: DrcBoard<N>, s: Stamp) -> Piece<N> {
    match s.kind {
        Copper::Trace => Piece {
            layer: s.layer,
            ..trace_piece()(board.segments@[s.index as int])
        },
        Copper::Pad => Piece { layer: s.layer, ..pad_piece()(board.pads@[s.index as int]) },
        Copper::Via => ring_piece(barrel()(board.vias@[s.index as int]), s.layer),
    }
}

/// The copper of the stamps.
pub open spec fn pieces_at<N>(board: DrcBoard<N>, stamps: Seq<Stamp>) -> Seq<Piece<N>> {
    stamps.map_values(|s: Stamp| piece_at(board, s))
}

/// The stamps of the first vias are their copper.
proof fn lemma_via_pieces<N>(board: DrcBoard<N>, n: nat)
    requires
        n <= board.vias@.len() <= usize::MAX,
        board.layers@.len() <= u32::MAX,
    ensures
        pieces_at(board, crate::drc_pairs::lone_vias(board, n)) == crate::shuffle::flat(
            barrels(board).take(n as int),
            ring_pieces(board.layers@.len() as u32),
        ),
    decreases n,
{
    let count = board.layers@.len() as u32;
    let stamps = crate::drc_pairs::lone_vias(board, n);
    let all = barrels(board).take(n as int);
    if n == 0 {
        assert(pieces_at(board, stamps) =~= seq![]);
    } else {
        let m = (n - 1) as nat;
        lemma_via_pieces(board, m);
        let before = crate::drc_pairs::lone_vias(board, m);
        let more = crate::drc_pairs::stamps_of_via(
            board.vias@[m as int],
            count,
            m as usize,
            (board.segments@.len() + board.pads@.len() + n - 1) as usize,
            false,
        );
        assert(all.drop_last() =~= barrels(board).take(m as int));
        assert(pieces_at(board, more) =~= ring_pieces(count)(all.last()));
        assert(pieces_at(board, stamps) =~= pieces_at(board, before) + pieces_at(board, more));
    }
}

/// The stamps of a board are its copper.
proof fn lemma_pieces<N>(board: DrcBoard<N>)
    requires
        crate::drc_pairs::countable(board, 0),
    ensures
        pieces_at(board, crate::drc_pairs::all_stamps(board, None)) == pieces(board),
{
    let traces = crate::drc_pairs::trace_stamps(board, board.segments@.len());
    let pads = crate::drc_pairs::pad_stamps(board, board.pads@.len());
    let vias = crate::drc_pairs::lone_vias(board, board.vias@.len());
    lemma_via_pieces(board, board.vias@.len());
    assert(barrels(board).take(board.vias@.len() as int) =~= barrels(board));
    assert(pieces_at(board, traces) =~= board.segments@.map_values(trace_piece()));
    assert(pieces_at(board, pads) =~= board.pads@.map_values(pad_piece()));
    assert(pieces_at(board, traces + pads + vias) =~= pieces_at(board, traces) + pieces_at(
        board,
        pads,
    ) + pieces_at(board, vias));
}

/// Stamps on a layer belong to different things, and none belongs to a site.
pub open spec fn are_single(stamps: Seq<Stamp>) -> bool {
    &&& forall|i: int| 0 <= i < stamps.len() ==> !(#[trigger] stamps[i]).sited
    &&& forall|i: int, j: int|
        0 <= i < j < stamps.len() && (#[trigger] stamps[i]).layer == (#[trigger] stamps[j]).layer
            ==> stamps[i].logical != stamps[j].logical
}

/// The numbers of the stamps are from `a` up to `b`.
spec fn numbered(stamps: Seq<Stamp>, a: int, b: int) -> bool {
    forall|i: int| 0 <= i < stamps.len() ==> a <= (#[trigger] stamps[i]).logical < b
}

/// Stamps with other numbers can be added.
proof fn lemma_single_joined(s: Seq<Stamp>, t: Seq<Stamp>, a: int, b: int, c: int)
    requires
        are_single(s),
        are_single(t),
        numbered(s, a, b),
        numbered(t, b, c),
        a <= b <= c,
    ensures
        are_single(s + t),
        numbered(s + t, a, c),
{
    let all = s + t;
    assert forall|i: int| 0 <= i < all.len() implies !(#[trigger] all[i]).sited && a
        <= all[i].logical < c by {
        if i < s.len() {
            assert(all[i] == s[i]);
        } else {
            assert(all[i] == t[i - s.len()]);
        }
    }
    assert forall|i: int, j: int|
        0 <= i < j < all.len() && (#[trigger] all[i]).layer == (#[trigger] all[j]).layer implies
        all[i].logical != all[j].logical by {
        if j < s.len() {
            assert(all[i] == s[i] && all[j] == s[j]);
        } else if i >= s.len() {
            assert(all[i] == t[i - s.len()] && all[j] == t[j - s.len()]);
        } else {
            assert(all[i] == s[i] && all[j] == t[j - s.len()]);
        }
    }
}

/// The stamps of the first vias are single.
proof fn lemma_vias_single<N>(board: DrcBoard<N>, n: nat)
    requires
        n <= board.vias@.len(),
        crate::drc_pairs::countable(board, 0),
    ensures
        are_single(crate::drc_pairs::lone_vias(board, n)),
        numbered(
            crate::drc_pairs::lone_vias(board, n),
            (board.segments@.len() + board.pads@.len()) as int,
            (board.segments@.len() + board.pads@.len() + n) as int,
        ),
    decreases n,
{
    if n > 0 {
        let m = (n - 1) as nat;
        let first = (board.segments@.len() + board.pads@.len()) as int;
        lemma_vias_single(board, m);
        let more = crate::drc_pairs::stamps_of_via(
            board.vias@[m as int],
            board.layers@.len() as u32,
            m as usize,
            (board.segments@.len() + board.pads@.len() + n - 1) as usize,
            false,
        );
        lemma_single_joined(
            crate::drc_pairs::lone_vias(board, m),
            more,
            first,
            first + m,
            first + n,
        );
    }
}

/// The stamps of a board are single.
proof fn lemma_single<N>(board: DrcBoard<N>)
    requires
        crate::drc_pairs::countable(board, 0),
    ensures
        are_single(crate::drc_pairs::all_stamps(board, None)),
{
    let a = board.segments@.len();
    let b = board.pads@.len();
    let c = board.vias@.len();
    let traces = crate::drc_pairs::trace_stamps(board, a);
    let pads = crate::drc_pairs::pad_stamps(board, b);
    lemma_vias_single(board, c);
    lemma_single_joined(traces, pads, 0, a as int, (a + b) as int);
    lemma_single_joined(
        traces + pads,
        crate::drc_pairs::lone_vias(board, c),
        0,
        (a + b) as int,
        (a + b + c) as int,
    );
}

/// What is wrong with two pieces of copper: on one layer, of nets that conflict, and too
/// close.
pub open spec fn clash<N>(gauge: Gauge<N>) -> spec_fn(Piece<N>, Piece<N>) -> Seq<Entry<N>> {
    |x: Piece<N>, y: Piece<N>|
        if x.layer == y.layer && crate::drc::conflict(x.net, y.net) {
            match (gauge.gap)(x, y) {
                Some((place, short)) => seq![
                    Entry {
                        class: ViolationClass::Clearance,
                        layer: x.layer,
                        nets: crate::drc::nets_in_order(
                            crate::drc::name_of(x.net),
                            crate::drc::name_of(y.net),
                        ),
                        place,
                        short,
                    },
                ],
                None => seq![],
            }
        } else {
            seq![]
        }
}

/// What is wrong with each two pieces of copper of a board.
pub open spec fn clashes<N>(board: DrcBoard<N>, gauge: Gauge<N>) -> Seq<Entry<N>> {
    crate::shuffle::cross(pieces(board), clash(gauge))
}

/// It does not matter which of two pieces comes first.
proof fn lemma_clash_is_mutual<N>(gauge: Gauge<N>)
    requires
        is_even_handed(gauge),
    ensures
        crate::shuffle::is_mutual(clash(gauge)),
{
    let f = clash(gauge);
    assert forall|x: Piece<N>, y: Piece<N>| #[trigger] f(x, y) == f(y, x) by {
        assert((gauge.gap)(x, y) == (gauge.gap)(y, x));
        let a = crate::drc::name_of(x.net);
        let b = crate::drc::name_of(y.net);
        let p = crate::sorting::text_key(a);
        let q = crate::sorting::text_key(b);
        assert(crate::drc::nets_in_order(a, b) == crate::drc::nets_in_order(b, a)) by {
            crate::sorting::lemma_text_is_key(a, b);
            if p != q {
                crate::sorting::lemma_less_total(p, q);
                if crate::sorting::key_less(p, q) {
                    crate::sorting::lemma_less_asymmetric(p, q);
                } else {
                    crate::sorting::lemma_less_asymmetric(q, p);
                }
            }
        }
        assert(f(x, y) =~= f(y, x));
    }
}

/// The pieces that were found too close, by their places.
pub open spec fn places_of<N>(calls: Seq<CloseCall<N>>) -> Seq<(usize, usize)> {
    calls.map_values(|c: CloseCall<N>| (c.i, c.j))
}

/// What the gauge finds of two stamps.
pub open spec fn found<N>(
    board: DrcBoard<N>,
    stamps: Seq<Stamp>,
    gauge: Gauge<N>,
    i: usize,
    j: usize,
) -> Option<(Place<N>, Shortfall<N>)> {
    (gauge.gap)(piece_at(board, stamps[i as int]), piece_at(board, stamps[j as int]))
}

/// Every stamp is in a square of its layer, and stamps of a layer that are too close are
/// in squares that touch.
pub open spec fn squares_fit<N>(
    board: DrcBoard<N>,
    stamps: Seq<Stamp>,
    bins: Seq<Bin>,
    gauge: Gauge<N>,
) -> bool {
    &&& bins.len() == stamps.len()
    &&& forall|i: int| 0 <= i < bins.len() ==> (#[trigger] bins[i]).layer == stamps[i].layer
    &&& forall|i: usize, j: usize|
        i < j < stamps.len() && stamps[i as int].layer == stamps[j as int].layer
            && (#[trigger] found(board, stamps, gauge, i, j)) is Some
            ==> crate::drc_pairs::touches(bins[i as int], bins[j as int])
}

/// The calls are those of the suspect pairs that are too close, each once, in any order.
pub open spec fn are_calls<N>(
    board: DrcBoard<N>,
    stamps: Seq<Stamp>,
    bins: Seq<Bin>,
    gauge: Gauge<N>,
    calls: Seq<CloseCall<N>>,
) -> bool {
    &&& places_of(calls).no_duplicates()
    &&& forall|i: usize, j: usize| #[trigger]
        places_of(calls).contains((i, j)) <==> crate::drc_pairs::is_suspect(
            board,
            stamps,
            bins,
            i,
            j,
        ) && found(board, stamps, gauge, i, j) is Some
    &&& forall|k: int|
        0 <= k < calls.len() ==> found(
            board,
            stamps,
            gauge,
            (#[trigger] calls[k]).i,
            calls[k].j,
        ) == Some((calls[k].place, calls[k].short))
}

/// The calls give what all pairs of pieces would.
proof fn lemma_calls_are_clashes<N>(
    board: DrcBoard<N>,
    stamps: Seq<Stamp>,
    bins: Seq<Bin>,
    gauge: Gauge<N>,
    calls: Seq<CloseCall<N>>,
)
    requires
        crate::drc_pairs::countable(board, 0),
        stamps == crate::drc_pairs::all_stamps(board, None),
        stamps.len() <= usize::MAX,
        squares_fit(board, stamps, bins, gauge),
        are_calls(board, stamps, bins, gauge, calls),
    ensures
        calls.map_values(
            |c: CloseCall<N>| crate::drc_report::close_entry(board, stamps, c),
        ).to_multiset() == clashes(board, gauge).to_multiset(),
{
    let entries = calls.map_values(
        |c: CloseCall<N>| crate::drc_report::close_entry(board, stamps, c),
    );
    let items = pieces(board);
    let g = clash(gauge);
    let pairs = places_of(calls);
    let all = crate::shuffle::place_pairs(stamps.len());
    let of_pair = |p: (usize, usize)| g(items[p.0 as int], items[p.1 as int]);
    lemma_pieces(board);
    lemma_single(board);
    crate::drc_pairs::lemma_all_pieces(board, None);
    crate::shuffle::lemma_place_pairs(stamps.len());
    assert forall|i: int| 0 <= i < stamps.len() implies #[trigger] items[i] == piece_at(
        board,
        stamps[i],
    ) && items[i].net == crate::drc_pairs::piece_net(board, stamps[i]) && items[i].layer
        == stamps[i].layer by {
        assert(pieces_at(board, stamps)[i] == piece_at(board, stamps[i]));
        assert(crate::drc_pairs::is_piece(board, stamps[i]));
    }
    assert forall|k: int| 0 <= k < calls.len() implies of_pair(#[trigger] pairs[k])
        == seq![entries[k]] by {
        let (i, j) = (calls[k].i, calls[k].j);
        assert(pairs.contains(pairs[k]));
        assert(pairs.contains((i, j)));
        assert(bins[i as int].layer == stamps[i as int].layer);
        assert(bins[j as int].layer == stamps[j as int].layer);
        assert(items[i as int] == piece_at(board, stamps[i as int]));
        assert(items[j as int] == piece_at(board, stamps[j as int]));
        assert(of_pair(pairs[k]) =~= seq![entries[k]]);
    }
    crate::shuffle::lemma_flat_singles(pairs, of_pair, entries);
    assert forall|p: (usize, usize)| #[trigger] pairs.contains(p) implies all.contains(p) by {
        assert(pairs.contains((p.0, p.1)));
        assert(all.contains((p.0, p.1)));
    }
    assert forall|p: (usize, usize)| #[trigger]
        all.contains(p) && !pairs.contains(p) implies of_pair(p).len() == 0 by {
        let (i, j) = p;
        assert(all.contains((i, j)));
        assert(!pairs.contains((i, j)));
        assert(items[i as int] == piece_at(board, stamps[i as int]));
        assert(items[j as int] == piece_at(board, stamps[j as int]));
        if of_pair(p).len() > 0 {
            assert(found(board, stamps, gauge, i, j) is Some);
            assert(stamps[i as int].layer == stamps[j as int].layer);
            assert(!stamps[i as int].sited);
            assert(stamps[i as int].logical != stamps[j as int].logical);
        }
    }
    crate::shuffle::lemma_flat_support(pairs, all, of_pair);
    crate::shuffle::lemma_pairs_are_cross(items, g, items.len());
    assert(items.take(items.len() as int) =~= items);
}

/// Where no two keys begin alike, all of them lead.
proof fn lemma_all_lead<A>(keys: Seq<Seq<i64>>, items: Seq<A>)
    requires
        keys.len() == items.len() <= usize::MAX,
        forall|x: int, y: int|
            0 <= x < keys.len() && 0 <= y < keys.len() && x != y
                ==> !#[trigger] crate::drc_rank::same_group(keys[y], keys[x], 3),
    ensures
        crate::drc_report::chosen(items, crate::drc_rank::leaders(keys, 3)).to_multiset()
            == items.to_multiset(),
{
    let order = crate::sorting::order_of(keys);
    crate::sorting::law_an_order_exists(keys);
    assert forall|x: usize| #[trigger] order.contains(x) <==> crate::drc_rank::leads(
        keys,
        3,
        x as int,
    ) by {
        if order.contains(x) {
            let i = choose|i: int| 0 <= i < order.len() && order[i] == x;
            assert(order[i] < keys.len());
            assert forall|y: int|
                0 <= y < keys.len() && y != x && #[trigger] crate::drc_rank::same_group(
                    keys[y],
                    keys[x as int],
                    3,
                ) implies crate::sorting::precedes(keys, x as int, y) by {}
        }
    }
    assert(crate::drc_rank::are_leaders(keys, 3, order));
    crate::drc_rank::law_one_list_of_leaders(
        keys,
        3,
        order,
        crate::drc_rank::leaders(keys, 3),
    );
    crate::sorting::lemma_order_permutes(keys, order);
    crate::sorting::lemma_permuted(items, order);
    assert(crate::drc_report::chosen(items, order) =~= Seq::new(
        items.len(),
        |i: int| items[order[i] as int],
    ));
}

/// No two calls are of the same two things on a layer.
proof fn lemma_calls_are_apart<N>(
    board: DrcBoard<N>,
    stamps: Seq<Stamp>,
    bins: Seq<Bin>,
    gauge: Gauge<N>,
    calls: Seq<CloseCall<N>>,
    x: int,
    y: int,
)
    requires
        crate::drc_pairs::countable(board, 0),
        stamps == crate::drc_pairs::all_stamps(board, None),
        squares_fit(board, stamps, bins, gauge),
        are_calls(board, stamps, bins, gauge, calls),
        0 <= x < calls.len(),
        0 <= y < calls.len(),
        crate::drc_rank::same_group(
            crate::drc_report::close_key(board, stamps, calls[y]),
            crate::drc_report::close_key(board, stamps, calls[x]),
            3,
        ),
    ensures
        x == y,
{
    lemma_single(board);
    crate::drc_pairs::lemma_all_pieces(board, None);
    let pairs = places_of(calls);
    let a = calls[x];
    let b = calls[y];
    assert(pairs.contains(pairs[x]) && pairs.contains(pairs[y]));
    assert(pairs.contains((a.i, a.j)) && pairs.contains((b.i, b.j)));
    assert(bins[a.i as int].layer == stamps[a.i as int].layer);
    assert(bins[a.j as int].layer == stamps[a.j as int].layer);
    assert(bins[b.i as int].layer == stamps[b.i as int].layer);
    assert(bins[b.j as int].layer == stamps[b.j as int].layer);
    let p = crate::drc_report::close_key(board, stamps, b);
    let q = crate::drc_report::close_key(board, stamps, a);
    assert(p[0] == q[0] && p[1] == q[1] && p[2] == q[2]);
    assert(crate::drc_pairs::is_piece(board, stamps[a.i as int]));
    assert(crate::drc_pairs::is_piece(board, stamps[a.j as int]));
    assert(crate::drc_pairs::is_piece(board, stamps[b.i as int]));
    assert(crate::drc_pairs::is_piece(board, stamps[b.j as int]));
    assert(stamps[a.i as int].layer == stamps[b.i as int].layer);
    if stamps[a.i as int].logical == stamps[b.i as int].logical {
        assert(a.i == b.i);
        assert(a.j == b.j);
        assert(pairs[x] == pairs[y]);
    } else {
        assert(stamps[a.i as int].logical == stamps[b.j as int].logical);
        assert(a.i == b.j);
        assert(stamps[a.j as int].logical == stamps[b.i as int].logical);
        assert(a.j == b.i);
    }
}

/// Nothing that is too close is missed, and nothing else is reported: looking at squares
/// that touch gives what looking at each two pieces of copper would.
pub proof fn law_clearance_misses_nothing<N>(
    board: DrcBoard<N>,
    stamps: Seq<Stamp>,
    bins: Seq<Bin>,
    gauge: Gauge<N>,
    calls: Seq<CloseCall<N>>,
)
    requires
        crate::drc_pairs::countable(board, 0),
        stamps == crate::drc_pairs::all_stamps(board, None),
        stamps.len() <= usize::MAX,
        calls.len() <= usize::MAX,
        squares_fit(board, stamps, bins, gauge),
        are_calls(board, stamps, bins, gauge, calls),
    ensures
        crate::drc_report::close_entries(board, stamps, calls).to_multiset() == clashes(
            board,
            gauge,
        ).to_multiset(),
{
    let keys = calls.map_values(
        |c: CloseCall<N>| crate::drc_report::close_key(board, stamps, c),
    );
    let entries = calls.map_values(
        |c: CloseCall<N>| crate::drc_report::close_entry(board, stamps, c),
    );
    lemma_calls_are_clashes(board, stamps, bins, gauge, calls);
    assert forall|x: int, y: int|
        0 <= x < keys.len() && 0 <= y < keys.len() && x
            != y implies !#[trigger] crate::drc_rank::same_group(keys[y], keys[x], 3) by {
        if crate::drc_rank::same_group(keys[y], keys[x], 3) {
            lemma_calls_are_apart(board, stamps, bins, gauge, calls, x, y);
        }
    }
    lemma_all_lead(keys, entries);
}

/// The planes of other nets that a via goes through.
pub open spec fn planes_crossed<N>(layers: Seq<LayerKind>, v: Barrel<N>) -> Seq<u32> {
    match crate::drc::stack_span(v.top, v.bottom, layers.len() as u32) {
        Some((lo, hi)) => crate::drc::foreign_planes(layers, v.net, lo as int, hi + 1),
        None => seq![],
    }
}

/// What is wrong with a via on a plane.
pub open spec fn plane_entry<N>(
    layers: Seq<LayerKind>,
    v: Barrel<N>,
    place: Place<N>,
    short: Shortfall<N>,
    layer: u32,
) -> Entry<N> {
    Entry {
        class: ViolationClass::ViaThroughPlane,
        layer,
        nets: (v.net, crate::drc_report::plane_net(layers[layer as int])),
        place,
        short,
    }
}

/// What is wrong with a via and the planes that it goes through.
pub open spec fn plane_clash<N>(layers: Seq<LayerKind>, gauge: Gauge<N>) -> spec_fn(
    Barrel<N>,
) -> Seq<Entry<N>> {
    |v: Barrel<N>|
        {
            let check = (gauge.via)(v);
            match check.plane {
                Some(short) => planes_crossed(layers, v).map_values(
                    |layer: u32| plane_entry(layers, v, check.place, short, layer),
                ),
                None => seq![],
            }
        }
}

/// What is wrong with the copper around the hole of a via.
pub open spec fn ring_clash<N>(gauge: Gauge<N>) -> spec_fn(Barrel<N>) -> Seq<Entry<N>> {
    |v: Barrel<N>|
        {
            let check = (gauge.via)(v);
            match check.ring {
                Some(short) => seq![
                    Entry {
                        class: ViolationClass::AnnularRing,
                        layer: v.top,
                        nets: (v.net, seq![]),
                        place: check.place,
                        short,
                    },
                ],
                None => seq![],
            }
        }
}

/// Everything that is wrong with a board.
pub open spec fn faults<N>(board: DrcBoard<N>, gauge: Gauge<N>) -> Seq<Entry<N>> {
    clashes(board, gauge) + crate::shuffle::flat(
        barrels(board),
        plane_clash(board.layers@, gauge),
    ) + crate::shuffle::flat(barrels(board), ring_clash(gauge))
}

/// The findings are what the gauge finds on the board.
pub open spec fn is_measured<N>(
    board: DrcBoard<N>,
    stamps: Seq<Stamp>,
    bins: Seq<Bin>,
    gauge: Gauge<N>,
    f: Findings<N>,
) -> bool {
    &&& crate::drc_pairs::countable(board, 0)
    &&& stamps == crate::drc_pairs::all_stamps(board, None)
    &&& stamps.len() <= usize::MAX
    &&& f.close@.len() <= usize::MAX
    &&& squares_fit(board, stamps, bins, gauge)
    &&& are_calls(board, stamps, bins, gauge, f.close@)
    &&& f.vias@.len() == 0
    &&& f.checks@.len() == board.vias@.len()
    &&& forall|i: int|
        0 <= i < f.checks@.len() ==> #[trigger] f.checks@[i] == (gauge.via)(barrels(board)[i])
}

/// The first vias give what the gauge finds of them.
proof fn lemma_via_faults<N>(
    board: DrcBoard<N>,
    gauge: Gauge<N>,
    checks: Seq<ViaCheck<N>>,
    n: nat,
)
    requires
        board.layers@.len() <= u32::MAX,
        n <= checks.len() == board.vias@.len(),
        forall|i: int|
            0 <= i < checks.len() ==> #[trigger] checks[i] == (gauge.via)(barrels(board)[i]),
    ensures
        crate::drc_report::plane_entries(board, checks, n as int) == crate::shuffle::flat(
            barrels(board).take(n as int),
            plane_clash(board.layers@, gauge),
        ),
        crate::drc_report::ring_entries(board, checks, n as int) == crate::shuffle::flat(
            barrels(board).take(n as int),
            ring_clash(gauge),
        ),
    decreases n,
{
    if n > 0 {
        let m = (n - 1) as nat;
        lemma_via_faults(board, gauge, checks, m);
        let all = barrels(board).take(n as int);
        let via = board.vias@[m as int];
        let v = all.last();
        let check = checks[m as int];
        assert(all.drop_last() =~= barrels(board).take(m as int));
        assert(check == (gauge.via)(v));
        assert(crate::drc_report::planes_of(board, via) == planes_crossed(board.layers@, v));
        assert(crate::drc_report::plane_entries_of(board, via, check) =~= plane_clash(
            board.layers@,
            gauge,
        )(v));
        assert(crate::drc_report::ring_entries_of(via, check) =~= ring_clash(gauge)(v));
    }
}

/// The findings add up to everything that is wrong with the board.
proof fn lemma_all_faults<N>(
    board: DrcBoard<N>,
    stamps: Seq<Stamp>,
    bins: Seq<Bin>,
    gauge: Gauge<N>,
    f: Findings<N>,
)
    requires
        is_measured(board, stamps, bins, gauge, f),
    ensures
        crate::drc_report::all_entries(board, stamps, f).to_multiset() == faults(
            board,
            gauge,
        ).to_multiset(),
{
    let close = crate::drc_report::close_entries(board, stamps, f.close@);
    let vias = crate::drc_report::via_entries(board, f.records@, f.vias@);
    let n = f.checks@.len();
    let planes = crate::drc_report::plane_entries(board, f.checks@, n as int);
    let rings = crate::drc_report::ring_entries(board, f.checks@, n as int);
    law_clearance_misses_nothing(board, stamps, bins, gauge, f.close@);
    lemma_via_faults(board, gauge, f.checks@, n);
    assert(barrels(board).take(n as int) =~= barrels(board));
    assert(vias =~= seq![]) by {
        let cands = crate::drc_report::all_candidates(board, f.records@, f.vias@);
        let ranks = crate::drc_report::ranks_of(cands);
        let none = Seq::<usize>::empty();
        assert(cands.len() == 0);
        assert(crate::drc_rank::are_reported(ranks, none));
        crate::drc_rank::law_one_list_of_reports(
            ranks,
            none,
            crate::drc_rank::reported(ranks),
        );
    }
    assert(close + vias =~= close);
    crate::shuffle::lemma_together(close, planes);
    crate::shuffle::lemma_together(close + planes, rings);
    crate::shuffle::lemma_together(clashes(board, gauge), planes);
    crate::shuffle::lemma_together(clashes(board, gauge) + planes, rings);
}

/// The boards have the same layers, and the same traces, pads and vias in any order,
/// whichever end of a via comes first.
pub open spec fn are_shuffled<N>(a: DrcBoard<N>, b: DrcBoard<N>) -> bool {
    &&& a.layers@.len() == b.layers@.len()
    &&& forall|i: int|
        0 <= i < a.layers@.len() ==> crate::drc::same_layer(#[trigger] a.layers@[i], b.layers@[i])
    &&& a.segments@.map_values(trace_piece()).to_multiset() == b.segments@.map_values(
        trace_piece(),
    ).to_multiset()
    &&& a.pads@.map_values(pad_piece()).to_multiset() == b.pads@.map_values(
        pad_piece(),
    ).to_multiset()
    &&& barrels(a).to_multiset() == barrels(b).to_multiset()
}

/// The same layers are planes of other nets.
proof fn lemma_same_planes(
    a: Seq<LayerKind>,
    b: Seq<LayerKind>,
    net: Seq<char>,
    lo: int,
    hi: int,
)
    requires
        a.len() == b.len(),
        0 <= lo,
        hi <= a.len(),
        forall|i: int| 0 <= i < a.len() ==> crate::drc::same_layer(#[trigger] a[i], b[i]),
    ensures
        crate::drc::foreign_planes(a, net, lo, hi) == crate::drc::foreign_planes(b, net, lo, hi),
    decreases hi - lo,
{
    if lo < hi {
        lemma_same_planes(a, b, net, lo, hi - 1);
        assert(crate::drc::same_layer(a[hi - 1], b[hi - 1]));
    }
}

/// The same layers give the same.
proof fn lemma_same_plane_clash<N>(a: Seq<LayerKind>, b: Seq<LayerKind>, gauge: Gauge<N>)
    requires
        a.len() == b.len() <= u32::MAX,
        forall|i: int| 0 <= i < a.len() ==> crate::drc::same_layer(#[trigger] a[i], b[i]),
    ensures
        plane_clash(a, gauge) == plane_clash(b, gauge),
{
    let f = plane_clash(a, gauge);
    let g = plane_clash(b, gauge);
    assert forall|v: Barrel<N>| #[trigger] f(v) == g(v) by {
        if let Some((lo, hi)) = crate::drc::stack_span(v.top, v.bottom, a.len() as u32) {
            lemma_same_planes(a, b, v.net, lo as int, hi + 1);
            let planes = planes_crossed(a, v);
            assert forall|k: int| 0 <= k < planes.len() implies (#[trigger] planes[k]) < a.len() by {
                assert(planes.contains(planes[k]));
                crate::drc::law_crossed_planes(a, v.net, lo as int, hi + 1, planes[k]);
            }
        }
        assert(f(v) =~= g(v));
    }
    assert(f =~= g);
}

/// The same copper has the same wrong with it.
proof fn lemma_same_faults<N>(a: DrcBoard<N>, b: DrcBoard<N>, gauge: Gauge<N>)
    requires
        are_shuffled(a, b),
        is_even_handed(gauge),
        a.layers@.len() <= u32::MAX,
    ensures
        faults(a, gauge).to_multiset() == faults(b, gauge).to_multiset(),
{
    let rings = ring_pieces::<N>(a.layers@.len() as u32);
    let planes = plane_clash(a.layers@, gauge);
    let ring = ring_clash(gauge);
    crate::shuffle::lemma_flat_shuffled(barrels(a), barrels(b), rings);
    crate::shuffle::lemma_together(
        a.segments@.map_values(trace_piece()),
        a.pads@.map_values(pad_piece()),
    );
    crate::shuffle::lemma_together(
        b.segments@.map_values(trace_piece()),
        b.pads@.map_values(pad_piece()),
    );
    crate::shuffle::lemma_together(
        a.segments@.map_values(trace_piece()) + a.pads@.map_values(pad_piece()),
        crate::shuffle::flat(barrels(a), rings),
    );
    crate::shuffle::lemma_together(
        b.segments@.map_values(trace_piece()) + b.pads@.map_values(pad_piece()),
        crate::shuffle::flat(barrels(b), rings),
    );
    lemma_clash_is_mutual(gauge);
    crate::shuffle::lemma_cross_shuffled(pieces(a), pieces(b), clash(gauge));
    lemma_same_plane_clash(a.layers@, b.layers@, gauge);
    crate::shuffle::lemma_flat_shuffled(barrels(a), barrels(b), planes);
    crate::shuffle::lemma_flat_shuffled(barrels(a), barrels(b), ring);
    crate::shuffle::lemma_together(clashes(a, gauge), crate::shuffle::flat(barrels(a), planes));
    crate::shuffle::lemma_together(clashes(b, gauge), crate::shuffle::flat(barrels(b), planes));
    crate::shuffle::lemma_together(
        clashes(a, gauge) + crate::shuffle::flat(barrels(a), planes),
        crate::shuffle::flat(barrels(a), ring),
    );
    crate::shuffle::lemma_together(
        clashes(b, gauge) + crate::shuffle::flat(barrels(b), planes),
        crate::shuffle::flat(barrels(b), ring),
    );
}

/// The numbers of the entries tell their measurements apart.
pub open spec fn are_faithful<N>(entries: Seq<Entry<N>>) -> bool {
    forall|e: Entry<N>, f: Entry<N>| #[trigger]
        entries.contains(e) && #[trigger] entries.contains(f) && crate::drc_report::numbers_of(
            e.place,
            e.short,
        ) == crate::drc_report::numbers_of(f.place, f.short) ==> e.place == f.place && e.short
            == f.short
}

/// Keys of entries tell everything but what the numbers do not.
proof fn lemma_entry_keys<N>(e: Entry<N>, f: Entry<N>)
    requires
        crate::drc_report::entry_key(e) == crate::drc_report::entry_key(f),
    ensures
        e.class == f.class,
        e.layer == f.layer,
        e.nets == f.nets,
        crate::drc_report::numbers_of(e.place, e.short) == crate::drc_report::numbers_of(
            f.place,
            f.short,
        ),
{
    let m = crate::drc_report::numbers_of(e.place, e.short);
    let n = crate::drc_report::numbers_of(f.place, f.short);
    let p = crate::drc_report::entry_key(e);
    let q = crate::drc_report::entry_key(f);
    let last_e = seq![m.x, m.y, m.measured, m.required];
    let last_f = seq![n.x, n.y, n.measured, n.required];
    let next_e = crate::sorting::text_key(e.nets.1) + last_e;
    let next_f = crate::sorting::text_key(f.nets.1) + last_f;
    assert(p[0] == q[0] && p[1] == q[1] && p[2] == q[2] && p[3] == q[3]);
    assert(p.skip(4) =~= crate::sorting::text_key(e.nets.0) + next_e);
    assert(q.skip(4) =~= crate::sorting::text_key(f.nets.0) + next_f);
    crate::sorting::lemma_text_prefix(e.nets.0, f.nets.0, next_e, next_f);
    crate::sorting::lemma_text_prefix(e.nets.1, f.nets.1, last_e, last_f);
    assert(last_e[0] == last_f[0] && last_e[1] == last_f[1] && last_e[2] == last_f[2] && last_e[3]
        == last_f[3]);
    assert(crate::drc::class_rank(e.class) == crate::drc::class_rank(f.class));
}

/// The report comes by class, layer, place on the grid, nets, and then by exact numbers.
pub proof fn law_reports_are_sorted<N>(entries: Seq<Entry<N>>, i: int, j: int)
    requires
        entries.len() <= usize::MAX,
        0 <= i < j < entries.len(),
    ensures
        !crate::sorting::key_less(
            crate::drc_report::entry_key(crate::drc_report::in_report_order(entries)[j]),
            crate::drc_report::entry_key(crate::drc_report::in_report_order(entries)[i]),
        ),
        crate::drc_report::in_report_order(entries).len() == entries.len(),
{
    let keys = entries.map_values(|e: Entry<N>| crate::drc_report::entry_key(e));
    let order = crate::sorting::order_of(keys);
    crate::sorting::law_an_order_exists(keys);
    assert(crate::sorting::precedes(keys, order[i] as int, order[j] as int));
    let p = keys[order[i] as int];
    let q = keys[order[j] as int];
    if crate::sorting::key_less(q, p) {
        crate::sorting::lemma_less_asymmetric(q, p);
    }
}

/// The same entries in another order are reported alike.
proof fn lemma_report_shuffled<N>(a: Seq<Entry<N>>, b: Seq<Entry<N>>)
    requires
        a.to_multiset() == b.to_multiset(),
        a.len() <= usize::MAX,
        are_faithful(a),
    ensures
        crate::drc_report::in_report_order(a) == crate::drc_report::in_report_order(b),
{
    let key = |e: Entry<N>| crate::drc_report::entry_key(e);
    let keys_a = a.map_values(key);
    let keys_b = b.map_values(key);
    let order_a = crate::sorting::order_of(keys_a);
    let order_b = crate::sorting::order_of(keys_b);
    a.to_multiset_ensures();
    b.to_multiset_ensures();
    crate::shuffle::lemma_map_shuffled(a, b, key);
    crate::sorting::law_an_order_exists(keys_a);
    crate::sorting::law_an_order_exists(keys_b);
    crate::sorting::law_order_ignores_shuffling(keys_a, keys_b);
    let r = crate::drc_report::in_report_order(a);
    let s = crate::drc_report::in_report_order(b);
    assert forall|i: int| 0 <= i < r.len() implies r[i] == s[i] by {
        assert(crate::sorting::sorted_keys(keys_a)[i] == crate::sorting::sorted_keys(keys_b)[i]);
        assert(order_a[i] < a.len() && order_b[i] < b.len());
        assert(a.contains(r[i]));
        assert(b.contains(s[i]));
        assert(b.to_multiset().count(s[i]) > 0);
        assert(a.contains(s[i]));
        lemma_entry_keys(r[i], s[i]);
    }
    assert(r =~= s);
}

/// The report does not depend on the order in which traces, pads and vias come, nor on
/// which end of a via comes first.
pub proof fn law_reports_ignore_order<N>(
    a: DrcBoard<N>,
    b: DrcBoard<N>,
    stamps_a: Seq<Stamp>,
    stamps_b: Seq<Stamp>,
    bins_a: Seq<Bin>,
    bins_b: Seq<Bin>,
    gauge: Gauge<N>,
    found_a: Findings<N>,
    found_b: Findings<N>,
)
    requires
        are_shuffled(a, b),
        is_even_handed(gauge),
        is_measured(a, stamps_a, bins_a, gauge, found_a),
        is_measured(b, stamps_b, bins_b, gauge, found_b),
        crate::drc_report::all_entries(a, stamps_a, found_a).len() <= usize::MAX,
        are_faithful(crate::drc_report::all_entries(a, stamps_a, found_a)),
    ensures
        crate::drc_report::in_report_order(
            crate::drc_report::all_entries(a, stamps_a, found_a),
        ) == crate::drc_report::in_report_order(
            crate::drc_report::all_entries(b, stamps_b, found_b),
        ),
{
    lemma_all_faults(a, stamps_a, bins_a, gauge, found_a);
    lemma_all_faults(b, stamps_b, bins_b, gauge, found_b);
    lemma_same_faults(a, b, gauge);
    lemma_report_shuffled(
        crate::drc_report::all_entries(a, stamps_a, found_a),
        crate::drc_report::all_entries(b, stamps_b, found_b),
    );
}

} // verus!
