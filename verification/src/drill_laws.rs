//! What checking vias against each other is for: which of two that are too close is reported.
use vstd::prelude::*;

use crate::check_laws::{is_before, is_on};
use crate::drc::DrcBoard;
use crate::drc_report::{Candidate, Entry, Record, ViaCall};

verus! {

/// The lowest of the layers that two vias reach.
pub open spec fn is_top_of<N>(board: DrcBoard<N>, a: int, b: int, layer: u32) -> bool {
    let (v, w) = (board.vias@[a], board.vias@[b]);
    &&& layer == v.from_layer || layer == v.to_layer || layer == w.from_layer || layer
        == w.to_layer
    &&& layer <= v.from_layer && layer <= v.to_layer && layer <= w.from_layer && layer
        <= w.to_layer
}

/// The first layer that two vias are both on.
pub open spec fn is_first_meeting<N>(board: DrcBoard<N>, a: int, b: int, layer: u32) -> bool {
    &&& is_on(board, a, layer) && is_on(board, b, layer)
    &&& forall|l: u32| l < layer ==> !(#[trigger] is_on(board, a, l) && is_on(board, b, l))
}

/// The entry names the nets of two vias, the second not before the first.
pub open spec fn names_nets<N>(board: DrcBoard<N>, a: int, b: int, e: Entry<N>) -> bool {
    let (x, y) = (board.vias@[a].net@, board.vias@[b].net@);
    &&& e.nets == (x, y) || e.nets == (y, x)
    &&& !is_before(e.nets.1, e.nets.0)
}

/// The call is of vias of two sites that are not records of one hole.
pub open spec fn is_of_two<N>(records: Seq<Record>, c: ViaCall<N>) -> bool {
    records[c.i as int].site != records[c.j as int].site && !c.same_place
}

/// The entry tells that the holes of two vias are too close.
pub open spec fn tells_holes<N>(
    board: DrcBoard<N>,
    records: Seq<Record>,
    c: ViaCall<N>,
    e: Entry<N>,
) -> bool {
    let (a, b) = (records[c.i as int].via as int, records[c.j as int].via as int);
    &&& is_of_two(records, c)
    &&& c.hole == Some(e.short)
    &&& e.class is Clearance
    &&& is_top_of(board, a, b, e.layer)
    &&& names_nets(board, a, b, e)
    &&& e.place == c.place
}

/// The entry tells that the copper of two vias is too close on a layer that both are on.
pub open spec fn tells_copper<N>(
    board: DrcBoard<N>,
    records: Seq<Record>,
    c: ViaCall<N>,
    e: Entry<N>,
) -> bool {
    let (a, b) = (records[c.i as int].via as int, records[c.j as int].via as int);
    &&& is_of_two(records, c)
    &&& c.copper == Some(e.short)
    &&& board.vias@[a].net@ != board.vias@[b].net@
    &&& e.class is Clearance
    &&& is_first_meeting(board, a, b, e.layer)
    &&& names_nets(board, a, b, e)
    &&& e.place == c.place
}

/// The vias of the call are too close: their holes, or their copper on a layer that both are
/// on.
pub open spec fn is_too_close<N>(board: DrcBoard<N>, records: Seq<Record>, c: ViaCall<N>) -> bool {
    let (a, b) = (records[c.i as int].via as int, records[c.j as int].via as int);
    &&& is_of_two(records, c)
    &&& c.hole is Some || c.copper is Some && board.vias@[a].net@ != board.vias@[b].net@
        && exists|l: u32| #[trigger] is_on(board, a, l) && is_on(board, b, l)
}

/// The calls are of the same two sites.
pub open spec fn same_sites<N>(records: Seq<Record>, c: ViaCall<N>, d: ViaCall<N>) -> bool {
    let (a, b) = (records[c.i as int].site, records[c.j as int].site);
    let (x, y) = (records[d.i as int].site, records[d.j as int].site);
    a == x && b == y || a == y && b == x
}

/// The candidate comes from the call.
spec fn is_from<N>(
    board: DrcBoard<N>,
    records: Seq<Record>,
    c: ViaCall<N>,
    x: Candidate<N>,
) -> bool {
    let (a, b) = (records[c.i as int].site, records[c.j as int].site);
    &&& x.rank.hole ==> tells_holes(board, records, c, x.entry)
    &&& !x.rank.hole ==> tells_copper(board, records, c, x.entry)
    &&& x.rank.low == crate::drc_rank::lesser(a, b)
    &&& x.rank.high == crate::drc_rank::greater(a, b)
}

proof fn lemma_meeting<N>(board: DrcBoard<N>, a: Record, b: Record)
    requires
        board.layers@.len() <= u32::MAX,
        a.via < board.vias@.len(),
        b.via < board.vias@.len(),
    ensures
        crate::drc_report::meeting_layer(board, a, b) matches Some(l) ==> is_first_meeting(
            board,
            a.via as int,
            b.via as int,
            l,
        ) && board.vias@[a.via as int].net@ != board.vias@[b.via as int].net@,
        crate::drc_report::meeting_layer(board, a, b) is None && board.vias@[a.via as int].net@
            != board.vias@[b.via as int].net@ ==> forall|l: u32|
            !(#[trigger] is_on(board, a.via as int, l) && is_on(board, b.via as int, l)),
{
}

proof fn lemma_candidates<N>(board: DrcBoard<N>, records: Seq<Record>, c: ViaCall<N>)
    requires
        board.layers@.len() <= u32::MAX,
        records[c.i as int].via < board.vias@.len(),
        records[c.j as int].via < board.vias@.len(),
    ensures
        ({
            let r = crate::drc_report::candidates_of(board, records, c);
            &&& forall|k: int| 0 <= k < r.len() ==> is_from(board, records, c, #[trigger] r[k])
            &&& is_too_close(board, records, c) ==> r.len() > 0
        }),
{
    let (a, b) = (records[c.i as int], records[c.j as int]);
    let r = crate::drc_report::candidates_of(board, records, c);
    lemma_meeting(board, a, b);
    crate::check_laws::law_names_in_order(
        board.vias@[a.via as int].net@,
        board.vias@[b.via as int].net@,
    );
    assert forall|k: int| 0 <= k < r.len() implies is_from(board, records, c, #[trigger] r[k]) by {
        if r[k].rank.hole {
            assert(tells_holes(board, records, c, r[k].entry));
        } else {
            assert(tells_copper(board, records, c, r[k].entry));
        }
    }
}

proof fn lemma_all_candidates<N>(
    board: DrcBoard<N>,
    records: Seq<Record>,
    calls: Seq<ViaCall<N>>,
) -> (who: Seq<int>)
    requires
        crate::drc_report::via_calls_fit(board, records, calls),
    ensures
        ({
            let r = crate::drc_report::all_candidates(board, records, calls);
            &&& who.len() == r.len()
            &&& forall|m: int|
                0 <= m < r.len() ==> 0 <= #[trigger] who[m] < calls.len() && is_from(
                    board,
                    records,
                    calls[who[m]],
                    r[m],
                )
            &&& forall|k: int|
                0 <= k < calls.len() && is_too_close(board, records, #[trigger] calls[k])
                    ==> who.contains(k)
        }),
    decreases calls.len(),
{
    let r = crate::drc_report::all_candidates(board, records, calls);
    if calls.len() == 0 {
        Seq::empty()
    } else {
        let front = calls.drop_last();
        let n = front.len() as int;
        let c = calls.last();
        assert(calls[n] == c);
        assert forall|k: int| 0 <= k < front.len() implies (#[trigger] front[k]).i < records.len()
            && front[k].j < records.len() by {
            assert(front[k] == calls[k]);
        }
        let was = lemma_all_candidates(board, records, front);
        let before = crate::drc_report::all_candidates(board, records, front);
        let new = crate::drc_report::candidates_of(board, records, c);
        lemma_candidates(board, records, c);
        let who = was + Seq::new(new.len(), |m: int| n);
        assert forall|m: int| 0 <= m < r.len() implies 0 <= #[trigger] who[m] < calls.len()
            && is_from(board, records, calls[who[m]], r[m]) by {
            if m < was.len() {
                assert(who[m] == was[m]);
                assert(r[m] == before[m]);
                assert(front[was[m]] == calls[was[m]]);
            } else {
                assert(r[m] == new[m - was.len()]);
            }
        }
        assert forall|k: int|
            0 <= k < calls.len() && is_too_close(
                board,
                records,
                #[trigger] calls[k],
            ) implies who.contains(k) by {
            if k < n {
                assert(front[k] == calls[k]);
                assert(was.contains(k));
                let m = choose|m: int| 0 <= m < was.len() && was[m] == k;
                assert(who[m] == k);
            } else {
                assert(who[was.len() as int] == k);
            }
        }
        who
    }
}

/// Of each two sites whose vias are too close one violation is reported, of their holes or of
/// their copper, and nothing else.
pub proof fn law_close_vias_are_reported<N>(
    board: DrcBoard<N>,
    records: Seq<Record>,
    calls: Seq<ViaCall<N>>,
) -> (who: Seq<int>)
    requires
        crate::drc_report::via_calls_fit(board, records, calls),
        crate::drc_report::all_candidates(board, records, calls).len() <= usize::MAX,
    ensures
        ({
            let r = crate::drc_report::via_entries(board, records, calls);
            &&& who.len() == r.len()
            &&& forall|m: int|
                0 <= m < r.len() ==> 0 <= #[trigger] who[m] < calls.len() && (tells_holes(
                    board,
                    records,
                    calls[who[m]],
                    r[m],
                ) || tells_copper(board, records, calls[who[m]], r[m]))
            &&& forall|k: int|
                0 <= k < calls.len() && is_too_close(board, records, #[trigger] calls[k])
                    ==> exists|m: int|
                    0 <= m < r.len() && same_sites(records, calls[#[trigger] who[m]], calls[k])
            &&& forall|m: int, n: int|
                0 <= m < n < r.len() ==> !same_sites(
                    records,
                    calls[#[trigger] who[m]],
                    calls[#[trigger] who[n]],
                )
        }),
{
    let cands = crate::drc_report::all_candidates(board, records, calls);
    let ranks = crate::drc_report::ranks_of(cands);
    let picked = crate::drc_rank::reported(ranks);
    let r = crate::drc_report::via_entries(board, records, calls);
    let from = lemma_all_candidates(board, records, calls);
    crate::check_laws::lemma_reported(ranks);
    assert forall|i: int| 0 <= i < ranks.len() implies (#[trigger] ranks[i]).low <= i64::MAX
        && ranks[i].high <= i64::MAX by {
        assert(is_from(board, records, calls[from[i]], cands[i]));
        let c = calls[from[i]];
        assert(c.i < records.len() && c.j < records.len());
        assert(records[c.i as int].site <= i64::MAX && records[c.j as int].site <= i64::MAX);
    }
    let who = Seq::new(picked.len(), |m: int| from[picked[m] as int]);
    assert forall|m: int| 0 <= m < picked.len() implies crate::drc_rank::is_reported(
        ranks,
        #[trigger] picked[m] as int,
    ) by {
        assert(picked.contains(picked[m]));
    }
    assert forall|m: int| 0 <= m < r.len() implies 0 <= #[trigger] who[m] < calls.len() && (
    tells_holes(board, records, calls[who[m]], r[m]) || tells_copper(
        board,
        records,
        calls[who[m]],
        r[m],
    )) by {
        let x = picked[m] as int;
        assert(crate::drc_rank::is_reported(ranks, picked[m] as int));
        assert(is_from(board, records, calls[from[x]], cands[x]));
        assert(r[m] == cands[x].entry);
    }
    assert forall|k: int|
        0 <= k < calls.len() && is_too_close(
            board,
            records,
            #[trigger] calls[k],
        ) implies exists|m: int|
        0 <= m < r.len() && same_sites(records, calls[#[trigger] who[m]], calls[k]) by {
        let x = choose|x: int| 0 <= x < from.len() && from[x] == k;
        assert(is_from(board, records, calls[from[x]], cands[x]));
        crate::drc_rank::law_some_report(ranks, x);
        let y = choose|y: int|
            crate::drc_rank::is_reported(ranks, y) && ranks[y].low == ranks[x].low && ranks[y].high
                == ranks[x].high;
        assert(is_from(board, records, calls[from[y]], cands[y]));
        assert(picked.contains(y as usize));
        let m = choose|m: int| 0 <= m < picked.len() && picked[m] == y as usize;
        assert(who[m] == from[y]);
        assert(ranks[x] == cands[x].rank && ranks[y] == cands[y].rank);
    }
    assert forall|m: int, n: int| 0 <= m < n < r.len() implies !same_sites(
        records,
        calls[#[trigger] who[m]],
        calls[#[trigger] who[n]],
    ) by {
        let (x, y) = (picked[m] as int, picked[n] as int);
        assert(crate::drc_rank::is_reported(ranks, picked[m] as int));
        assert(crate::drc_rank::is_reported(ranks, picked[n] as int));
        assert(is_from(board, records, calls[from[x]], cands[x]));
        assert(is_from(board, records, calls[from[y]], cands[y]));
        assert(ranks[x] == cands[x].rank && ranks[y] == cands[y].rank);
        if same_sites(records, calls[who[m]], calls[who[n]]) {
            crate::drc_rank::law_one_report(ranks, x, y);
            assert(crate::sorting::precedes(
                crate::drc_rank::via_row_keys(ranks),
                picked[m] as int,
                picked[n] as int,
            ));
            crate::sorting::lemma_precedes_asymmetric(
                crate::drc_rank::via_row_keys(ranks),
                x,
                x,
            );
        }
    }
    who
}

/// The vias of sites are recorded site by site, each with its site, and none is left out.
pub proof fn law_vias_are_recorded(sites: Seq<Seq<usize>>, n: nat, site: int, k: int)
    requires
        n <= sites.len() <= usize::MAX,
        0 <= site < n,
        0 <= k < sites[site].len(),
    ensures
        exists|m: int|
            {
                &&& 0 <= m < crate::drc_report::records_upto(sites, n).len()
                &&& (#[trigger] crate::drc_report::records_upto(sites, n)[m]).site == site
                &&& crate::drc_report::records_upto(sites, n)[m].via == sites[site][k]
            },
    decreases n,
{
    let all = crate::drc_report::records_upto(sites, n);
    let before = crate::drc_report::records_upto(sites, (n - 1) as nat);
    if site < n - 1 {
        law_vias_are_recorded(sites, (n - 1) as nat, site, k);
        let m = choose|m: int|
            {
                &&& 0 <= m < before.len()
                &&& (#[trigger] before[m]).site == site
                &&& before[m].via == sites[site][k]
            };
        assert(all[m] == before[m]);
    } else {
        let m = before.len() + k;
        assert(all[m].site == site && all[m].via == sites[site][k]);
    }
}

/// What is reported for two sites asks for most: of the same kind none asks for its middles to
/// be further apart, and of those that ask for as much none is worse.
pub proof fn law_strictest_is_reported(rows: Seq<crate::drc_rank::ViaRank>, x: int, y: int)
    requires
        crate::drc_rank::via_rows_fit(rows),
        crate::drc_rank::is_reported(rows, x),
        0 <= y < rows.len(),
        rows[y].low == rows[x].low,
        rows[y].high == rows[x].high,
        rows[y].hole == rows[x].hole,
    ensures
        rows[y].centre <= rows[x].centre,
        rows[y].centre == rows[x].centre ==> rows[x].deficit <= rows[y].deficit,
{
    let keys = crate::drc_rank::via_row_keys(rows);
    let (p, q) = (keys[x], keys[y]);
    assert(p == crate::drc_rank::via_row_key(rows[x]));
    assert(q == crate::drc_rank::via_row_key(rows[y]));
    assert(p.len() >= 5 && q.len() >= 5);
    assert(p[0] == q[0] && p[1] == q[1] && p[2] == q[2]);
    assert(p[3] == -1 - rows[x].centre && q[3] == -1 - rows[y].centre);
    assert(p[4] == rows[x].deficit && q[4] == rows[y].deficit);
    if x != y {
        assert(crate::drc_rank::same_group(keys[y], keys[x], 3));
        assert(crate::sorting::precedes(keys, x, y));
        if crate::sorting::key_less(p, q) {
            let k = choose|k: int| crate::sorting::parts_at(p, q, k);
            if k > 3 {
                assert(p[3] == q[3]);
            }
            if k > 4 {
                assert(p[4] == q[4]);
            }
        }
    }
}

/// Of the holes and the copper of two sites the copper is reported where it asks for more than
/// a trifle more room than the holes do, and the holes otherwise.
pub proof fn law_holes_come_before_copper(
    rows: Seq<crate::drc_rank::ViaRank>,
    x: int,
    y: int,
)
    requires
        crate::drc_rank::is_reported(rows, x),
        0 <= y < rows.len(),
        crate::drc_rank::is_strictest(rows, y),
        rows[y].low == rows[x].low,
        rows[y].high == rows[x].high,
        rows[y].hole != rows[x].hole,
    ensures
        rows[x].hole ==> rows[y].centre <= rows[x].slack,
        !rows[x].hole ==> rows[x].centre > rows[y].slack,
{
    assert(crate::drc_rank::are_rivals(rows[x], rows[y]));
}

} // verus!
