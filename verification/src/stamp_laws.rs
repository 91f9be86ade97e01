//! What copper is compared by: every piece on its layer, as part of its thing; and the order of
//! reports.
use vstd::prelude::*;

use crate::check_laws::{is_before, is_on, is_stamped, shows_copper};
use crate::drc::{Copper, DrcBoard, ViolationClass};
use crate::drc_pairs::Stamp;
use crate::drc_report::Entry;

verus! {

/// The via of the site is on the layer, and a stamp shows that as part of the site.
pub open spec fn is_stamped_in<N>(
    board: DrcBoard<N>,
    stamps: Seq<Stamp>,
    v: usize,
    site: int,
    layer: u32,
) -> bool {
    exists|k: int|
        {
            &&& 0 <= k < stamps.len()
            &&& (#[trigger] stamps[k]).kind is Via
            &&& stamps[k].index == v
            &&& stamps[k].layer == layer
            &&& stamps[k].logical == board.segments@.len() + board.pads@.len() + site
            &&& stamps[k].sited
        }
}

/// The stamp shows a via of some site as part of that site.
pub open spec fn is_of_a_site<N>(board: DrcBoard<N>, sites: Seq<Seq<usize>>, s: Stamp) -> bool {
    &&& s.kind is Via
    &&& s.sited
    &&& shows_copper(board, s)
    &&& exists|r: int, k: int|
        {
            &&& 0 <= r < sites.len()
            &&& 0 <= k < sites[r].len()
            &&& #[trigger] sites[r][k] == s.index
            &&& s.logical == board.segments@.len() + board.pads@.len() + r
        }
}

proof fn lemma_via_stamps<N>(board: DrcBoard<N>, v: usize, logical: usize, sited: bool)
    requires
        board.layers@.len() <= u32::MAX,
        v < board.vias@.len(),
    ensures
        ({
            let new = crate::drc_pairs::stamps_of_via(
                board.vias@[v as int],
                board.layers@.len() as u32,
                v,
                logical,
                sited,
            );
            &&& forall|k: int|
                0 <= k < new.len() ==> (#[trigger] new[k]).kind is Via && new[k].index == v
                    && new[k].logical == logical && new[k].sited == sited && shows_copper(
                    board,
                    new[k],
                )
            &&& forall|layer: u32| #[trigger]
                is_on(board, v as int, layer) ==> exists|k: int|
                    0 <= k < new.len() && (#[trigger] new[k]).layer == layer
        }),
{
    let w = board.vias@[v as int];
    let new = crate::drc_pairs::stamps_of_via(w, board.layers@.len() as u32, v, logical, sited);
    assert forall|layer: u32| #[trigger] is_on(board, v as int, layer) implies exists|k: int|
        0 <= k < new.len() && (#[trigger] new[k]).layer == layer by {
        let lo = crate::drc::low(w.from_layer, w.to_layer);
        let m = layer - lo;
        assert(new[m].layer == layer);
    }
}

proof fn lemma_site<N>(board: DrcBoard<N>, site: Seq<usize>, logical: usize, n: nat)
    requires
        board.layers@.len() <= u32::MAX,
        n <= site.len(),
        forall|k: int| 0 <= k < site.len() ==> (#[trigger] site[k]) < board.vias@.len(),
    ensures
        ({
            let all = crate::drc_pairs::vias_of_site(board, site, logical, n);
            &&& forall|m: int|
                0 <= m < all.len() ==> (#[trigger] all[m]).kind is Via && all[m].logical == logical
                    && all[m].sited && shows_copper(board, all[m]) && site.contains(all[m].index)
            &&& forall|k: int, layer: u32|
                0 <= k < n && #[trigger] is_on(board, site[k] as int, layer) ==> exists|m: int|
                    0 <= m < all.len() && (#[trigger] all[m]).index == site[k] && all[m].layer
                        == layer
        }),
    decreases n,
{
    if n > 0 {
        lemma_site(board, site, logical, (n - 1) as nat);
        let before = crate::drc_pairs::vias_of_site(board, site, logical, (n - 1) as nat);
        let v = site[n - 1];
        lemma_via_stamps(board, v, logical, true);
        let new = crate::drc_pairs::stamps_of_via(
            board.vias@[v as int],
            board.layers@.len() as u32,
            v,
            logical,
            true,
        );
        let all = crate::drc_pairs::vias_of_site(board, site, logical, n);
        assert(all == before + new);
        assert forall|m: int| 0 <= m < all.len() implies (#[trigger] all[m]).kind is Via
            && all[m].logical == logical && all[m].sited && shows_copper(board, all[m])
            && site.contains(all[m].index) by {
            if m < before.len() {
                assert(all[m] == before[m]);
            } else {
                assert(all[m] == new[m - before.len()]);
                assert(site.contains(site[n - 1]));
            }
        }
        assert forall|k: int, layer: u32|
            0 <= k < n && #[trigger] is_on(board, site[k] as int, layer) implies exists|m: int|
            0 <= m < all.len() && (#[trigger] all[m]).index == site[k] && all[m].layer
                == layer by {
            if k < n - 1 {
                let m = choose|m: int|
                    0 <= m < before.len() && (#[trigger] before[m]).index == site[k]
                        && before[m].layer == layer;
                assert(all[m] == before[m]);
            } else {
                let m = choose|m: int| 0 <= m < new.len() && (#[trigger] new[m]).layer == layer;
                assert(all[before.len() + m] == new[m]);
            }
        }
    }
}

proof fn lemma_sites<N>(board: DrcBoard<N>, sites: Seq<Seq<usize>>, n: nat)
    requires
        crate::drc_pairs::countable(board, sites.len()),
        crate::drc_pairs::are_sites(board, sites),
        n <= sites.len(),
    ensures
        ({
            let all = crate::drc_pairs::sited_vias(board, sites, n);
            &&& forall|m: int| 0 <= m < all.len() ==> is_of_a_site(board, sites, #[trigger] all[m])
            &&& forall|r: int, k: int, layer: u32|
                0 <= r < n && 0 <= k < sites[r].len() && is_on(
                    board,
                    sites[r][k] as int,
                    layer,
                ) ==> #[trigger] is_stamped_in(board, all, sites[r][k], r, layer)
        }),
    decreases n,
{
    if n > 0 {
        lemma_sites(board, sites, (n - 1) as nat);
        let before = crate::drc_pairs::sited_vias(board, sites, (n - 1) as nat);
        let site = sites[n - 1];
        let logical = (board.segments@.len() + board.pads@.len() + n - 1) as usize;
        assert forall|k: int| 0 <= k < site.len() implies (#[trigger] site[k])
            < board.vias@.len() by {
            assert(sites[n - 1][k] < board.vias@.len());
        }
        lemma_site(board, site, logical, site.len());
        let new = crate::drc_pairs::vias_of_site(board, site, logical, site.len());
        let all = crate::drc_pairs::sited_vias(board, sites, n);
        assert(all == before + new);
        assert forall|m: int| 0 <= m < all.len() implies is_of_a_site(
            board,
            sites,
            #[trigger] all[m],
        ) by {
            if m < before.len() {
                assert(all[m] == before[m]);
            } else {
                let s = new[m - before.len()];
                assert(all[m] == s);
                assert(site.contains(s.index));
                let k = choose|k: int| 0 <= k < site.len() && site[k] == s.index;
                assert(sites[n - 1][k] == s.index);
            }
        }
        assert forall|r: int, k: int, layer: u32|
            0 <= r < n && 0 <= k < sites[r].len() && is_on(
                board,
                sites[r][k] as int,
                layer,
            ) implies #[trigger] is_stamped_in(board, all, sites[r][k], r, layer) by {
            if r < n - 1 {
                assert(is_stamped_in(board, before, sites[r][k], r, layer));
                let m = choose|m: int|
                    {
                        &&& 0 <= m < before.len()
                        &&& (#[trigger] before[m]).kind is Via
                        &&& before[m].index == sites[r][k]
                        &&& before[m].layer == layer
                        &&& before[m].logical == board.segments@.len() + board.pads@.len() + r
                        &&& before[m].sited
                    };
                assert(all[m] == before[m]);
            } else {
                assert(is_on(board, site[k] as int, layer));
                let m = choose|m: int|
                    0 <= m < new.len() && (#[trigger] new[m]).index == site[k] && new[m].layer
                        == layer;
                assert(all[before.len() + m] == new[m]);
            }
        }
    }
}

/// Where the sites of vias are known, every via of a site is looked at on every layer that it
/// is on, as part of its site, beside every trace and every pad; nothing else is.
pub proof fn law_sited_copper_is_stamped<N>(board: DrcBoard<N>, sites: Seq<Seq<usize>>)
    requires
        crate::drc_pairs::countable(board, sites.len()),
        crate::drc_pairs::are_sites(board, sites),
    ensures
        ({
            let s = crate::drc_pairs::all_stamps(board, Some(sites));
            &&& forall|k: int|
                0 <= k < s.len() ==> if (#[trigger] s[k]).kind is Via {
                    is_of_a_site(board, sites, s[k])
                } else {
                    shows_copper(board, s[k]) && !s[k].sited
                }
            &&& forall|i: int|
                0 <= i < board.segments@.len() ==> is_stamped(
                    s,
                    Copper::Trace,
                    i,
                    (#[trigger] board.segments@[i]).layer,
                )
            &&& forall|i: int|
                0 <= i < board.pads@.len() ==> is_stamped(
                    s,
                    Copper::Pad,
                    i,
                    (#[trigger] board.pads@[i]).layer,
                )
            &&& forall|r: int, k: int, layer: u32|
                0 <= r < sites.len() && 0 <= k < sites[r].len() && is_on(
                    board,
                    sites[r][k] as int,
                    layer,
                ) ==> #[trigger] is_stamped_in(board, s, sites[r][k], r, layer)
        }),
{
    let a = crate::drc_pairs::trace_stamps(board, board.segments@.len());
    let b = crate::drc_pairs::pad_stamps(board, board.pads@.len());
    let c = crate::drc_pairs::sited_vias(board, sites, sites.len());
    let s = crate::drc_pairs::all_stamps(board, Some(sites));
    assert(s == a + b + c);
    lemma_sites(board, sites, sites.len());
    assert forall|k: int| 0 <= k < s.len() implies if (#[trigger] s[k]).kind is Via {
        is_of_a_site(board, sites, s[k])
    } else {
        shows_copper(board, s[k]) && !s[k].sited
    } by {
        if k < a.len() {
            assert(s[k] == a[k]);
        } else if k < a.len() + b.len() {
            assert(s[k] == b[k - a.len()]);
        } else {
            assert(s[k] == c[k - a.len() - b.len()]);
        }
    }
    assert forall|i: int| 0 <= i < board.segments@.len() implies is_stamped(
        s,
        Copper::Trace,
        i,
        (#[trigger] board.segments@[i]).layer,
    ) by {
        assert(s[i] == a[i]);
    }
    assert forall|i: int| 0 <= i < board.pads@.len() implies is_stamped(
        s,
        Copper::Pad,
        i,
        (#[trigger] board.pads@[i]).layer,
    ) by {
        assert(s[a.len() + i] == b[i]);
    }
    assert forall|r: int, k: int, layer: u32|
        0 <= r < sites.len() && 0 <= k < sites[r].len() && is_on(
            board,
            sites[r][k] as int,
            layer,
        ) implies #[trigger] is_stamped_in(board, s, sites[r][k], r, layer) by {
        assert(is_stamped_in(board, c, sites[r][k], r, layer));
        let m = choose|m: int|
            {
                &&& 0 <= m < c.len()
                &&& (#[trigger] c[m]).kind is Via
                &&& c[m].index == sites[r][k]
                &&& c[m].layer == layer
                &&& c[m].logical == board.segments@.len() + board.pads@.len() + r
                &&& c[m].sited
            };
        assert(s[a.len() + b.len() + m] == c[m]);
    }
}

/// Pieces are of one thing exactly where they are the same piece: traces and pads stand for
/// themselves.
pub proof fn law_traces_and_pads_are_things<N>(
    board: DrcBoard<N>,
    sites: Option<Seq<Seq<usize>>>,
    i: int,
)
    requires
        board.segments@.len() + board.pads@.len() <= usize::MAX,
        0 <= i < board.segments@.len() + board.pads@.len(),
    ensures
        crate::drc_pairs::all_stamps(board, sites)[i].logical == i,
        crate::drc_pairs::all_stamps(board, sites)[i].kind == if i < board.segments@.len() {
            Copper::Trace
        } else {
            Copper::Pad
        },
{
    let a = crate::drc_pairs::trace_stamps(board, board.segments@.len());
    let b = crate::drc_pairs::pad_stamps(board, board.pads@.len());
    let s = crate::drc_pairs::all_stamps(board, sites);
    if i < a.len() {
        assert(s[i] == a[i]);
    } else {
        assert(s[i] == b[i - a.len()]);
    }
}

/// Where a class comes: clearances first, then planes that vias go through, then rings.
pub open spec fn comes_at(class: ViolationClass) -> int {
    match class {
        ViolationClass::Clearance => 0,
        ViolationClass::ViaThroughPlane => 1,
        ViolationClass::AnnularRing => 2,
    }
}

/// A report comes by class, then by layer, then by place, across and up.
pub proof fn law_reports_come_in_order<N>(entries: Seq<Entry<N>>, i: int, j: int)
    requires
        entries.len() <= usize::MAX,
        0 <= i < j < entries.len(),
    ensures
        ({
            let a = crate::drc_report::in_report_order(entries)[i];
            let b = crate::drc_report::in_report_order(entries)[j];
            &&& comes_at(a.class) <= comes_at(b.class)
            &&& a.class == b.class ==> a.layer <= b.layer
            &&& a.class == b.class && a.layer == b.layer ==> a.place.grid_x <= b.place.grid_x
            &&& a.class == b.class && a.layer == b.layer && a.place.grid_x == b.place.grid_x
                ==> a.place.grid_y <= b.place.grid_y
            &&& a.class == b.class && a.layer == b.layer && a.place.grid_x == b.place.grid_x
                && a.place.grid_y == b.place.grid_y ==> !is_before(b.nets.0, a.nets.0)
        }),
{
    let a = crate::drc_report::in_report_order(entries)[i];
    let b = crate::drc_report::in_report_order(entries)[j];
    crate::drc_laws::law_reports_are_sorted(entries, i, j);
    let p = crate::drc_report::entry_key(a);
    let q = crate::drc_report::entry_key(b);
    assert(p.len() >= 4 && q.len() >= 4);
    if comes_at(b.class) < comes_at(a.class) {
        assert(crate::sorting::parts_at(q, p, 0));
    }
    if a.class == b.class && b.layer < a.layer {
        assert(crate::sorting::parts_at(q, p, 1));
    }
    if a.class == b.class && a.layer == b.layer {
        if b.place.grid_x < a.place.grid_x {
            assert(crate::sorting::parts_at(q, p, 2));
        }
        if a.place.grid_x == b.place.grid_x && b.place.grid_y < a.place.grid_y {
            assert(crate::sorting::parts_at(q, p, 3));
        }
        if a.place.grid_x == b.place.grid_x && a.place.grid_y == b.place.grid_y && is_before(
            b.nets.0,
            a.nets.0,
        ) {
            lemma_named_before(a, b);
        }
    }
}

proof fn lemma_named_before<N>(a: Entry<N>, b: Entry<N>)
    requires
        a.class == b.class,
        a.layer == b.layer,
        a.place.grid_x == b.place.grid_x,
        a.place.grid_y == b.place.grid_y,
        is_before(b.nets.0, a.nets.0),
    ensures
        crate::sorting::key_less(
            crate::drc_report::entry_key(b),
            crate::drc_report::entry_key(a),
        ),
{
    let p = crate::drc_report::entry_key(a);
    let q = crate::drc_report::entry_key(b);
    let (m, n) = (
        crate::drc_report::numbers_of(a.place, a.short),
        crate::drc_report::numbers_of(b.place, b.short),
    );
    let rest_a = crate::sorting::text_key(a.nets.1) + seq![m.x, m.y, m.measured, m.required];
    let rest_b = crate::sorting::text_key(b.nets.1) + seq![n.x, n.y, n.measured, n.required];
    let u = crate::sorting::text_key(b.nets.0) + rest_b;
    let v = crate::sorting::text_key(a.nets.0) + rest_a;
    assert(q.skip(4) =~= u);
    assert(p.skip(4) =~= v);
    crate::check_laws::lemma_before(b.nets.0, a.nets.0);
    crate::sorting::law_keys_compare_as_texts(b.nets.0, a.nets.0, rest_b, rest_a);
    let t = choose|t: int| crate::sorting::parts_at(u, v, t);
    assert forall|k: int| 0 <= k < 4 + t implies #[trigger] q[k] == p[k] by {
        if k >= 4 {
            assert(u[k - 4] == v[k - 4]);
            assert(q[k] == q.skip(4)[k - 4] && p[k] == p.skip(4)[k - 4]);
        }
    }
    assert(p[4 + t] == p.skip(4)[t]);
    if t < u.len() {
        assert(q[4 + t] == q.skip(4)[t]);
    }
    assert(crate::sorting::parts_at(q, p, 4 + t));
}

} // verus!
