//! Which pieces of copper may be too close to each other.
//!
//! Copper is sorted into square bins; pieces whose bins do not touch are not looked at.
use vstd::prelude::*;

use crate::drc::{in_stack_via_span, nets_conflict, Copper, DrcBoard, Via};
use crate::sorting::sorted_order;

verus! {

/// A piece of copper on one layer.
#[derive(Clone, Copy, Debug, PartialEq, Eq)]
pub struct Stamp {
    /// The layer.
    pub layer: u32,
    /// What it is.
    pub kind: Copper,
    /// Its place among the traces, the pads or the vias of the board.
    pub index: usize,
    /// Pieces with the same number belong together.
    pub logical: usize,
    /// It belongs to a via whose place is known.
    pub sited: bool,
}

/// A via on each layer from `lo` to `hi`.
pub open spec fn via_stamps(lo: u32, hi: u32, index: usize, logical: usize, sited: bool) -> Seq<
    Stamp,
> {
    Seq::new(
        (hi + 1 - lo) as nat,
        |k: int| Stamp { layer: (lo + k) as u32, kind: Copper::Via, index, logical, sited },
    )
}

/// A via on each layer of the stack that it is on.
pub open spec fn stamps_of_via<N>(
    via: Via<N>,
    layer_count: u32,
    index: usize,
    logical: usize,
    sited: bool,
) -> Seq<Stamp> {
    match crate::drc::stack_span(via.from_layer, via.to_layer, layer_count) {
        Some((lo, hi)) => via_stamps(lo, hi, index, logical, sited),
        None => seq![],
    }
}

/// The first `n` traces.
pub open spec fn trace_stamps<N>(board: DrcBoard<N>, n: nat) -> Seq<Stamp> {
    Seq::new(
        n,
        |i: int|
            Stamp {
                layer: board.segments@[i].layer,
                kind: Copper::Trace,
                index: i as usize,
                logical: i as usize,
                sited: false,
            },
    )
}

/// The first `n` pads.
pub open spec fn pad_stamps<N>(board: DrcBoard<N>, n: nat) -> Seq<Stamp> {
    Seq::new(
        n,
        |i: int|
            Stamp {
                layer: board.pads@[i].layer,
                kind: Copper::Pad,
                index: i as usize,
                logical: (board.segments@.len() + i) as usize,
                sited: false,
            },
    )
}

/// The first `n` vias, each by itself.
pub open spec fn lone_vias<N>(board: DrcBoard<N>, n: nat) -> Seq<Stamp>
    decreases n,
{
    if n == 0 {
        seq![]
    } else {
        lone_vias(board, (n - 1) as nat) + stamps_of_via(
            board.vias@[n - 1],
            board.layers@.len() as u32,
            (n - 1) as usize,
            (board.segments@.len() + board.pads@.len() + n - 1) as usize,
            false,
        )
    }
}

/// The first `n` vias of a site, which belong together.
pub open spec fn vias_of_site<N>(board: DrcBoard<N>, site: Seq<usize>, logical: usize, n: nat) -> Seq<
    Stamp,
>
    decreases n,
{
    if n == 0 {
        seq![]
    } else {
        vias_of_site(board, site, logical, (n - 1) as nat) + stamps_of_via(
            board.vias@[site[n - 1] as int],
            board.layers@.len() as u32,
            site[n - 1],
            logical,
            true,
        )
    }
}

/// The vias of the first `n` sites.
pub open spec fn sited_vias<N>(board: DrcBoard<N>, sites: Seq<Seq<usize>>, n: nat) -> Seq<Stamp>
    decreases n,
{
    if n == 0 {
        seq![]
    } else {
        sited_vias(board, sites, (n - 1) as nat) + vias_of_site(
            board,
            sites[n - 1],
            (board.segments@.len() + board.pads@.len() + n - 1) as usize,
            sites[n - 1].len(),
        )
    }
}

/// All the copper of a board, layer by layer. Where the sites of vias are given, the
/// vias of a site belong together; otherwise each via is by itself.
pub open spec fn all_stamps<N>(board: DrcBoard<N>, sites: Option<Seq<Seq<usize>>>) -> Seq<Stamp> {
    trace_stamps(board, board.segments@.len()) + pad_stamps(board, board.pads@.len()) + match sites {
        Some(s) => sited_vias(board, s, s.len()),
        None => lone_vias(board, board.vias@.len()),
    }
}

/// The sites are lists of vias of the board.
pub open spec fn are_sites<N>(board: DrcBoard<N>, sites: Seq<Seq<usize>>) -> bool {
    forall|s: int, k: int|
        0 <= s < sites.len() && 0 <= k < sites[s].len() ==> (#[trigger] sites[s][k])
            < board.vias@.len()
}

/// There are few enough pieces to number them.
pub open spec fn countable<N>(board: DrcBoard<N>, sites: nat) -> bool {
    &&& board.layers@.len() <= u32::MAX
    &&& board.segments@.len() + board.pads@.len() + board.vias@.len() <= usize::MAX
    &&& board.segments@.len() + board.pads@.len() + board.vias@.len() <= i64::MAX
    &&& board.segments@.len() + board.pads@.len() + sites <= usize::MAX
    &&& board.segments@.len() + board.pads@.len() + sites <= i64::MAX
}

/// Puts a via on each layer of the stack that it is on.
fn stamp_via<N>(
    out: &mut Vec<Stamp>,
    via: &Via<N>,
    layer_count: u32,
    index: usize,
    logical: usize,
    sited: bool,
)
    ensures
        final(out)@ == old(out)@ + stamps_of_via(*via, layer_count, index, logical, sited),
{
    if let Some((lo, hi)) = in_stack_via_span(via, layer_count) {
        let ghost before = out@;
        let ghost all = via_stamps(lo, hi, index, logical, sited);
        let mut layer: u32 = lo;
        assert(out@ =~= before + all.take(0));
        while layer <= hi
            invariant
                lo <= layer <= hi + 1,
                hi < layer_count,
                all == via_stamps(lo, hi, index, logical, sited),
                out@ == before + all.take(layer - lo),
            decreases hi + 1 - layer,
        {
            out.push(Stamp { layer, kind: Copper::Via, index, logical, sited });
            layer += 1;
            assert(out@ =~= before + all.take(layer - lo));
        }
        assert(all.take(layer - lo) =~= all);
    } else {
        assert(out@ =~= out@ + Seq::<Stamp>::empty());
    }
}

/// All the copper of a board, layer by layer.
pub fn stamp_board<N>(board: &DrcBoard<N>, sites: &Option<Vec<Vec<usize>>>) -> (r: Vec<Stamp>)
    requires
        countable(
            *board,
            match *sites {
                Some(s) => s@.len(),
                None => 0,
            },
        ),
        sites is Some ==> are_sites(*board, sites->0.deep_view()),
    ensures
        r@ == all_stamps(*board, sites.deep_view()),
        are_pieces(*board, r@),
{
    let mut r: Vec<Stamp> = Vec::new();
    let traces: usize = board.segments.len();
    let pads: usize = board.pads.len();
    let layer_count: u32 = board.layers.len() as u32;
    let mut i: usize = 0;
    while i < traces
        invariant
            i <= traces,
            traces == board.segments@.len(),
            r@ == trace_stamps(*board, i as nat),
        decreases traces - i,
    {
        r.push(
            Stamp {
                layer: board.segments[i].layer,
                kind: Copper::Trace,
                index: i,
                logical: i,
                sited: false,
            },
        );
        i += 1;
        assert(r@ =~= trace_stamps(*board, i as nat));
    }
    let ghost t = trace_stamps(*board, traces as nat);
    let mut i: usize = 0;
    assert(r@ =~= t + pad_stamps(*board, 0));
    while i < pads
        invariant
            i <= pads,
            traces == board.segments@.len(),
            pads == board.pads@.len(),
            traces + pads <= usize::MAX,
            r@ == t + pad_stamps(*board, i as nat),
        decreases pads - i,
    {
        r.push(
            Stamp {
                layer: board.pads[i].layer,
                kind: Copper::Pad,
                index: i,
                logical: traces + i,
                sited: false,
            },
        );
        i += 1;
        assert(r@ =~= t + pad_stamps(*board, i as nat));
    }
    let ghost base = t + pad_stamps(*board, pads as nat);
    let first: usize = traces + pads;
    match sites {
        None => {
            let mut i: usize = 0;
            assert(r@ =~= base + lone_vias(*board, 0));
            while i < board.vias.len()
                invariant
                    i <= board.vias@.len(),
                    first == board.segments@.len() + board.pads@.len(),
                    first + board.vias@.len() <= usize::MAX,
                    layer_count == board.layers@.len(),
                    r@ == base + lone_vias(*board, i as nat),
                decreases board.vias@.len() - i,
            {
                let ghost before = lone_vias(*board, i as nat);
                stamp_via(&mut r, &board.vias[i], layer_count, i, first + i, false);
                i += 1;
                assert(r@ =~= base + lone_vias(*board, i as nat));
            }
        },
        Some(list) => {
            let ghost all = list.deep_view();
            let mut s: usize = 0;
            assert(r@ =~= base + sited_vias(*board, all, 0));
            while s < list.len()
                invariant
                    s <= list@.len(),
                    first == board.segments@.len() + board.pads@.len(),
                    first + list@.len() <= usize::MAX,
                    layer_count == board.layers@.len(),
                    all == list.deep_view(),
                    are_sites(*board, all),
                    r@ == base + sited_vias(*board, all, s as nat),
                decreases list@.len() - s,
            {
                let ghost site = all[s as int];
                assert(site =~= list@[s as int]@);
                let ghost before = r@;
                let mut k: usize = 0;
                assert(r@ =~= before + vias_of_site(*board, site, (first + s) as usize, 0));
                while k < list[s].len()
                    invariant
                        k <= list@[s as int]@.len(),
                        s < list@.len(),
                        first + list@.len() <= usize::MAX,
                        layer_count == board.layers@.len(),
                        all == list.deep_view(),
                        site == all[s as int],
                        site == list@[s as int]@,
                        are_sites(*board, all),
                        r@ == before + vias_of_site(
                            *board,
                            site,
                            (first + s) as usize,
                            k as nat,
                        ),
                    decreases list@[s as int]@.len() - k,
                {
                    let v: usize = list[s][k];
                    assert(all[s as int][k as int] == v);
                    stamp_via(&mut r, &board.vias[v], layer_count, v, first + s, true);
                    k += 1;
                    assert(r@ =~= before + vias_of_site(
                        *board,
                        site,
                        (first + s) as usize,
                        k as nat,
                    ));
                }
                s += 1;
                assert(r@ =~= base + sited_vias(*board, all, s as nat));
            }
        },
    }
    proof {
        lemma_all_pieces(*board, sites.deep_view());
    }
    r
}

/// A square of a layer.
#[derive(Clone, Copy, Debug, PartialEq, Eq)]
pub struct Bin {
    /// The layer.
    pub layer: u32,
    /// The column.
    pub x: i64,
    /// The row.
    pub y: i64,
}

/// The squares are the same or touch.
pub open spec fn touches(a: Bin, b: Bin) -> bool {
    &&& a.layer == b.layer
    &&& -1 <= a.x - b.x <= 1
    &&& -1 <= a.y - b.y <= 1
}

/// The first square comes before the second: by layer, then by column, then by row.
pub open spec fn bin_less(a: Bin, b: Bin) -> bool {
    ||| a.layer < b.layer
    ||| a.layer == b.layer && a.x < b.x
    ||| a.layer == b.layer && a.x == b.x && a.y < b.y
}

/// The square as a key.
spec fn bin_key(b: Bin) -> Seq<i64> {
    seq![b.layer as i64, b.x, b.y]
}

/// Squares compare as their keys do.
proof fn lemma_bin_key(a: Bin, b: Bin)
    ensures
        crate::sorting::key_less(bin_key(a), bin_key(b)) == bin_less(a, b),
{
    let x = bin_key(a);
    let y = bin_key(b);
    if bin_less(a, b) {
        let k: int = if a.layer < b.layer {
            0
        } else if a.x < b.x {
            1
        } else {
            2
        };
        assert(crate::sorting::parts_at(x, y, k));
    }
    assert forall|k: int| #[trigger] crate::sorting::parts_at(x, y, k) implies bin_less(a, b) by {
        assert(k == 0 || k == 1 || k == 2);
        if k > 0 {
            assert(x[0] == y[0]);
        }
        if k > 1 {
            assert(x[1] == y[1]);
        }
    }
}

/// The squares in order.
pub open spec fn bins_sorted(bins: Seq<Bin>, order: Seq<usize>) -> bool {
    &&& order.len() == bins.len()
    &&& order.no_duplicates()
    &&& forall|p: int| 0 <= p < order.len() ==> (#[trigger] order[p]) < bins.len()
    &&& forall|x: usize| x < bins.len() ==> #[trigger] order.contains(x)
    &&& forall|p: int, q: int|
        0 <= p < q < order.len() ==> !bin_less(
            bins[#[trigger] order[q] as int],
            bins[#[trigger] order[p] as int],
        )
}

/// The squares in order.
fn sort_bins(bins: &Vec<Bin>) -> (order: Vec<usize>)
    ensures
        bins_sorted(bins@, order@),
{
    let mut keys: Vec<Vec<i64>> = Vec::new();
    let mut i: usize = 0;
    while i < bins.len()
        invariant
            i <= bins@.len(),
            keys@.len() == i,
            forall|j: int| 0 <= j < i ==> (#[trigger] keys@[j])@ == bin_key(bins@[j]),
        decreases bins@.len() - i,
    {
        let b: Bin = bins[i];
        let key: Vec<i64> = vec![b.layer as i64, b.x, b.y];
        assert(key@ =~= bin_key(b));
        keys.push(key);
        i += 1;
    }
    let order: Vec<usize> = sorted_order(&keys);
    proof {
        let all = keys.deep_view();
        assert forall|j: int| 0 <= j < all.len() implies all[j] == bin_key(bins@[j]) by {
            assert(keys@[j].deep_view() =~= keys@[j]@);
        }
        assert forall|p: int, q: int| 0 <= p < q < order@.len() implies !bin_less(
            bins@[#[trigger] order@[q] as int],
            bins@[#[trigger] order@[p] as int],
        ) && order@[p] != order@[q] by {
            let x = order@[p] as int;
            let y = order@[q] as int;
            assert(crate::sorting::precedes(all, x, y));
            crate::sorting::lemma_precedes_asymmetric(all, x, y);
            lemma_bin_key(bins@[y], bins@[x]);
        }
    }
    order
}

/// Whether the first square comes before the second.
fn is_bin_less(a: &Bin, b: &Bin) -> (r: bool)
    ensures
        r == bin_less(*a, *b),
{
    a.layer < b.layer || (a.layer == b.layer && (a.x < b.x || (a.x == b.x && a.y < b.y)))
}

/// The first place in the order that does not come before the square.
fn lower_bound(bins: &Vec<Bin>, order: &Vec<usize>, t: &Bin) -> (at: usize)
    requires
        bins_sorted(bins@, order@),
    ensures
        at <= order@.len(),
        forall|p: int| 0 <= p < at ==> bin_less(bins@[#[trigger] order@[p] as int], *t),
        forall|p: int|
            at <= p < order@.len() ==> !bin_less(bins@[#[trigger] order@[p] as int], *t),
{
    let mut lo: usize = 0;
    let mut hi: usize = order.len();
    while lo < hi
        invariant
            bins_sorted(bins@, order@),
            lo <= hi <= order@.len(),
            forall|p: int| 0 <= p < lo ==> bin_less(bins@[#[trigger] order@[p] as int], *t),
            forall|p: int|
                hi <= p < order@.len() ==> !bin_less(bins@[#[trigger] order@[p] as int], *t),
        decreases hi - lo,
    {
        let mid: usize = lo + (hi - lo) / 2;
        let o: usize = order[mid];
        if is_bin_less(&bins[o], t) {
            assert forall|p: int| 0 <= p < mid + 1 implies bin_less(
                bins@[#[trigger] order@[p] as int],
                *t,
            ) by {
                if p < mid {
                    assert(!bin_less(
                        bins@[order@[mid as int] as int],
                        bins@[order@[p] as int],
                    ));
                }
            }
            lo = mid + 1;
        } else {
            assert forall|p: int| mid <= p < order@.len() implies !bin_less(
                bins@[#[trigger] order@[p] as int],
                *t,
            ) by {
                if p > mid {
                    assert(!bin_less(
                        bins@[order@[p] as int],
                        bins@[order@[mid as int] as int],
                    ));
                }
            }
            hi = mid;
        }
    }
    lo
}

/// The square is neither before the first nor after the last of these.
pub open spec fn is_between(b: Bin, first: Bin, last: Bin) -> bool {
    !bin_less(b, first) && !bin_less(last, b)
}

/// Those after `i` whose squares are between these.
fn between(bins: &Vec<Bin>, order: &Vec<usize>, first: &Bin, last: &Bin, i: usize) -> (r: Vec<
    usize,
>)
    requires
        bins_sorted(bins@, order@),
    ensures
        r@.no_duplicates(),
        forall|j: usize| #[trigger]
            r@.contains(j) <==> i < j < bins@.len() && is_between(bins@[j as int], *first, *last),
{
    let start: usize = lower_bound(bins, order, first);
    let mut r: Vec<usize> = Vec::new();
    let mut p: usize = start;
    let n: usize = order.len();
    while p < n && !is_bin_less(last, &bins[order[p]])
        invariant
            bins_sorted(bins@, order@),
            n == order@.len(),
            start <= p <= n,
            r@.no_duplicates(),
            forall|q: int| 0 <= q < start ==> bin_less(bins@[#[trigger] order@[q] as int], *first),
            forall|q: int|
                start <= q < n ==> !bin_less(bins@[#[trigger] order@[q] as int], *first),
            forall|q: int|
                start <= q < p ==> !bin_less(*last, bins@[#[trigger] order@[q] as int]),
            forall|j: usize| #[trigger]
                r@.contains(j) <==> i < j && order@.subrange(start as int, p as int).contains(j),
        decreases n - p,
    {
        let o: usize = order[p];
        let ghost before = r@;
        let ghost seen = order@.subrange(start as int, p as int);
        proof {
            if seen.contains(o) {
                let q = choose|q: int| 0 <= q < seen.len() && seen[q] == o;
                assert(order@[start + q] == order@[p as int]);
            }
        }
        if o > i {
            r.push(o);
        }
        proof {
            let now = order@.subrange(start as int, p + 1);
            assert(now =~= seen.push(o));
            assert forall|j: usize| #[trigger] r@.contains(j) <==> i < j && now.contains(j) by {
                lemma_push_contains(seen, o, j);
                if o > i {
                    lemma_push_contains(before, o, j);
                }
                assert(before.contains(j) <==> i < j && seen.contains(j));
            }
            assert(before.contains(o) <==> i < o && seen.contains(o));
        }
        p += 1;
    }
    proof {
        let seen = order@.subrange(start as int, p as int);
        assert forall|j: usize| #[trigger] r@.contains(j) <==> i < j < bins@.len() && is_between(
            bins@[j as int],
            *first,
            *last,
        ) by {
            if seen.contains(j) {
                let q = choose|q: int| 0 <= q < seen.len() && seen[q] == j;
                assert(order@[start + q] == j);
            }
            if i < j < bins@.len() && is_between(bins@[j as int], *first, *last) {
                assert(order@.contains(j));
                let q = choose|q: int| 0 <= q < order@.len() && order@[q] == j;
                if q >= p {
                    let e = order@[p as int] as int;
                    assert(bin_less(*last, bins@[e]));
                    if q > p {
                        assert(!bin_less(bins@[order@[q] as int], bins@[order@[p as int] as int]));
                    }
                }
                assert(start <= q < p);
                assert(seen[q - start] == j);
            }
        }
    }
    r
}

/// What a list with one more item contains.
pub proof fn lemma_push_contains(s: Seq<usize>, x: usize, y: usize)
    ensures
        s.push(x).contains(y) <==> s.contains(y) || x == y,
{
    let t = s.push(x);
    if s.contains(y) {
        let i = choose|i: int| 0 <= i < s.len() && s[i] == y;
        assert(t[i] == y);
    }
    if x == y {
        assert(t[s.len() as int] == y);
    }
    if t.contains(y) && x != y {
        let i = choose|i: int| 0 <= i < t.len() && t[i] == y;
        assert(s[i] == y);
    }
}

/// Those after `i` whose squares touch its own.
fn touching(bins: &Vec<Bin>, order: &Vec<usize>, i: usize) -> (r: Vec<usize>)
    requires
        bins_sorted(bins@, order@),
        i < bins@.len(),
    ensures
        r@.no_duplicates(),
        forall|j: usize| #[trigger]
            r@.contains(j) <==> i < j < bins@.len() && touches(bins@[i as int], bins@[j as int]),
{
    let b: Bin = bins[i];
    let y0: i64 = if b.y > i64::MIN {
        b.y - 1
    } else {
        b.y
    };
    let y1: i64 = if b.y < i64::MAX {
        b.y + 1
    } else {
        b.y
    };
    let mut r: Vec<usize> = Vec::new();
    let mut col: i64 = if b.x > i64::MIN {
        b.x - 1
    } else {
        b.x
    };
    let end: i64 = if b.x < i64::MAX {
        b.x + 1
    } else {
        b.x
    };
    let mut more: bool = true;
    let ghost from = col as int;
    while more
        invariant
            bins_sorted(bins@, order@),
            i < bins@.len(),
            b == bins@[i as int],
            y0 == b.y - 1 || (y0 == b.y && b.y == i64::MIN),
            y1 == b.y + 1 || (y1 == b.y && b.y == i64::MAX),
            from == b.x - 1 || (from == b.x && b.x == i64::MIN),
            end == b.x + 1 || (end == b.x && b.x == i64::MAX),
            from <= col <= end,
            r@.no_duplicates(),
            forall|j: usize| #[trigger]
                r@.contains(j) <==> i < j < bins@.len() && touches(b, bins@[j as int])
                    && bins@[j as int].x < col + if more {
                    0int
                } else {
                    1
                },
            !more ==> col == end,
        decreases end - col, more as int,
    {
        let first = Bin { layer: b.layer, x: col, y: y0 };
        let last = Bin { layer: b.layer, x: col, y: y1 };
        let mut found: Vec<usize> = between(bins, order, &first, &last, i);
        let ghost before = r@;
        let ghost added = found@;
        r.append(&mut found);
        proof {
            assert(r@ =~= before + added);
            assert forall|j: usize| #[trigger] r@.contains(j) <==> before.contains(j)
                || added.contains(j) by {
                lemma_joined_contains(before, added, j);
            }
            assert forall|j: usize| #[trigger] added.contains(j) <==> i < j < bins@.len()
                && touches(b, bins@[j as int]) && bins@[j as int].x == col by {
                if j < bins@.len() {
                    let t = bins@[j as int];
                    assert(is_between(t, first, last) <==> t.layer == b.layer && t.x == col && y0
                        <= t.y <= y1);
                }
            }
            assert(r@.no_duplicates()) by {
                assert forall|p: int, q: int|
                    0 <= p < r@.len() && 0 <= q < r@.len() && p != q implies r@[p] != r@[q] by {
                    let m = before.len() as int;
                    if p < m && q >= m {
                        assert(before.contains(before[p]));
                        assert(added.contains(added[q - m]));
                    } else if q < m && p >= m {
                        assert(before.contains(before[q]));
                        assert(added.contains(added[p - m]));
                    } else if p < m {
                        assert(before[p] != before[q]);
                    } else {
                        assert(added[p - m] != added[q - m]);
                    }
                }
            }
        }
        if col < end {
            col += 1;
        } else {
            more = false;
        }
    }
    r
}

/// What two lists one after the other contain.
proof fn lemma_joined_contains(a: Seq<usize>, b: Seq<usize>, y: usize)
    ensures
        (a + b).contains(y) <==> a.contains(y) || b.contains(y),
{
    let t = a + b;
    if a.contains(y) {
        let i = choose|i: int| 0 <= i < a.len() && a[i] == y;
        assert(t[i] == y);
    }
    if b.contains(y) {
        let i = choose|i: int| 0 <= i < b.len() && b[i] == y;
        assert(t[a.len() + i] == y);
    }
    if t.contains(y) {
        let i = choose|i: int| 0 <= i < t.len() && t[i] == y;
        if i < a.len() {
            assert(a[i] == y);
        } else {
            assert(b[i - a.len()] == y);
        }
    }
}

/// Two of the things, the earlier first, whose squares are the same or touch.
pub open spec fn is_near_pair(bins: Seq<Bin>, i: usize, j: usize) -> bool {
    i < j < bins.len() && touches(bins[i as int], bins[j as int])
}

/// The pairs of things whose squares are the same or touch, each once.
pub fn near_pairs(bins: &Vec<Bin>) -> (r: Vec<(usize, usize)>)
    ensures
        r@.no_duplicates(),
        forall|i: usize, j: usize| #[trigger] r@.contains((i, j)) <==> is_near_pair(bins@, i, j),
{
    let order: Vec<usize> = sort_bins(bins);
    let mut r: Vec<(usize, usize)> = Vec::new();
    let mut i: usize = 0;
    while i < bins.len()
        invariant
            i <= bins@.len(),
            bins_sorted(bins@, order@),
            r@.no_duplicates(),
            forall|a: usize, b: usize| #[trigger]
                r@.contains((a, b)) <==> a < i && is_near_pair(bins@, a, b),
        decreases bins@.len() - i,
    {
        let found: Vec<usize> = touching(bins, &order, i);
        let ghost start = r@;
        let mut k: usize = 0;
        assert(found@.take(0) =~= seq![]);
        while k < found.len()
            invariant
                k <= found@.len(),
                found@.no_duplicates(),
                r@.no_duplicates(),
                forall|a: usize, b: usize| #[trigger] start.contains((a, b)) ==> a < i,
                forall|a: usize, b: usize| #[trigger]
                    r@.contains((a, b)) <==> start.contains((a, b)) || (a == i && found@.take(
                        k as int,
                    ).contains(b)),
            decreases found@.len() - k,
        {
            let j: usize = found[k];
            let ghost before = r@;
            let ghost seen = found@.take(k as int);
            proof {
                if seen.contains(j) {
                    let q = choose|q: int| 0 <= q < seen.len() && seen[q] == j;
                    assert(found@[q] == found@[k as int]);
                }
                assert(!before.contains((i, j)));
            }
            r.push((i, j));
            proof {
                let now = found@.take(k + 1);
                assert(now =~= seen.push(j));
                assert forall|a: usize, b: usize| #[trigger] r@.contains((a, b)) <==> start.contains(
                    (a, b),
                ) || (a == i && now.contains(b)) by {
                    lemma_push_contains(seen, j, b);
                    lemma_push_pair(before, (i, j), (a, b));
                    assert(before.contains((a, b)) <==> start.contains((a, b)) || (a == i
                        && seen.contains(b)));
                }
            }
            k += 1;
        }
        proof {
            assert(found@.take(k as int) =~= found@);
            assert forall|a: usize, b: usize| #[trigger] r@.contains((a, b)) <==> a < i + 1
                && is_near_pair(bins@, a, b) by {
                assert(start.contains((a, b)) <==> a < i && is_near_pair(bins@, a, b));
                if a == i {
                    assert(found@.contains(b) <==> is_near_pair(bins@, i, b));
                }
            }
        }
        i += 1;
    }
    r
}

/// What a list with one more pair contains.
proof fn lemma_push_pair(s: Seq<(usize, usize)>, x: (usize, usize), y: (usize, usize))
    ensures
        s.push(x).contains(y) <==> s.contains(y) || x == y,
{
    let t = s.push(x);
    if s.contains(y) {
        let i = choose|i: int| 0 <= i < s.len() && s[i] == y;
        assert(t[i] == y);
    }
    if x == y {
        assert(t[s.len() as int] == y);
    }
    if t.contains(y) && x != y {
        let i = choose|i: int| 0 <= i < t.len() && t[i] == y;
        assert(s[i] == y);
    }
}

/// Things that are no further apart than a square is wide are in squares that touch.
pub proof fn law_close_things_touch(a: int, b: int, side: int)
    requires
        side > 0,
        -side <= a - b <= side,
    ensures
        -1 <= a / side - b / side <= 1,
{
    assert(-1 <= a / side - b / side <= 1) by (nonlinear_arith)
        requires
            side > 0,
            -side <= a - b <= side,
    ;
}

/// The piece is one of the board's, and its number fits into keys.
pub open spec fn is_piece<N>(board: DrcBoard<N>, s: Stamp) -> bool {
    &&& s.logical <= i64::MAX
    &&& match s.kind {
        Copper::Trace => s.index < board.segments@.len(),
        Copper::Pad => s.index < board.pads@.len(),
        Copper::Via => s.index < board.vias@.len(),
    }
}

/// The net of a piece, where it is known.
pub open spec fn piece_net<N>(board: DrcBoard<N>, s: Stamp) -> Option<Seq<char>> {
    match s.kind {
        Copper::Trace => Some(board.segments@[s.index as int].net@),
        Copper::Pad => board.pads@[s.index as int].net.deep_view(),
        Copper::Via => Some(board.vias@[s.index as int].net@),
    }
}

/// The net of a piece, where it is known.
pub fn net_of_piece<N>(board: &DrcBoard<N>, s: &Stamp) -> (r: Option<String>)
    requires
        is_piece(*board, *s),
    ensures
        r.deep_view() == piece_net(*board, *s),
{
    match s.kind {
        Copper::Trace => Some(board.segments[s.index].net.clone()),
        Copper::Pad => match &board.pads[s.index].net {
            Some(n) => Some(n.clone()),
            None => None,
        },
        Copper::Via => Some(board.vias[s.index].net.clone()),
    }
}

/// The pieces must keep apart: they do not belong together, their nets conflict, and
/// they are not two vias whose places are known.
pub open spec fn must_keep_apart<N>(board: DrcBoard<N>, a: Stamp, b: Stamp) -> bool {
    &&& a.logical != b.logical
    &&& !(a.sited && b.sited)
    &&& crate::drc::conflict(piece_net(board, a), piece_net(board, b))
}

/// The pieces are in squares that touch, and must keep apart.
pub open spec fn is_suspect<N>(
    board: DrcBoard<N>,
    stamps: Seq<Stamp>,
    bins: Seq<Bin>,
    i: usize,
    j: usize,
) -> bool {
    is_near_pair(bins, i, j) && must_keep_apart(board, stamps[i as int], stamps[j as int])
}

/// The pairs of pieces that are in squares that touch and must keep apart, each once.
pub fn suspect_pairs<N>(board: &DrcBoard<N>, stamps: &Vec<Stamp>, bins: &Vec<Bin>) -> (r: Vec<
    (usize, usize),
>)
    requires
        stamps@.len() == bins@.len(),
        are_pieces(*board, stamps@),
    ensures
        r@.no_duplicates(),
        forall|i: usize, j: usize| #[trigger]
            r@.contains((i, j)) <==> is_suspect(*board, stamps@, bins@, i, j),
{
    let near: Vec<(usize, usize)> = near_pairs(bins);
    let mut r: Vec<(usize, usize)> = Vec::new();
    let mut k: usize = 0;
    while k < near.len()
        invariant
            k <= near@.len(),
            stamps@.len() == bins@.len(),
            are_pieces(*board, stamps@),
            near@.no_duplicates(),
            forall|i: usize, j: usize| #[trigger]
                near@.contains((i, j)) <==> is_near_pair(bins@, i, j),
            r@.no_duplicates(),
            forall|i: usize, j: usize| #[trigger]
                r@.contains((i, j)) <==> near@.take(k as int).contains((i, j))
                    && must_keep_apart(*board, stamps@[i as int], stamps@[j as int]),
        decreases near@.len() - k,
    {
        let (i, j) = near[k];
        let ghost before = r@;
        let ghost seen = near@.take(k as int);
        proof {
            assert(near@.contains(near@[k as int]));
            assert(is_near_pair(bins@, i, j));
            if seen.contains((i, j)) {
                let q = choose|q: int| 0 <= q < seen.len() && seen[q] == (i, j);
                assert(near@[q] == near@[k as int]);
            }
            assert(!before.contains((i, j)));
        }
        let a: Stamp = stamps[i];
        let b: Stamp = stamps[j];
        assert(is_piece(*board, stamps@[i as int]) && is_piece(*board, stamps@[j as int]));
        let apart: bool = a.logical != b.logical && !(a.sited && b.sited) && nets_conflict(
            &net_of_piece(board, &a),
            &net_of_piece(board, &b),
        );
        if apart {
            r.push((i, j));
        }
        proof {
            let now = near@.take(k + 1);
            assert(now =~= seen.push((i, j)));
            assert forall|x: usize, y: usize| #[trigger] r@.contains((x, y)) <==> now.contains(
                (x, y),
            ) && must_keep_apart(*board, stamps@[x as int], stamps@[y as int]) by {
                lemma_push_pair(seen, (i, j), (x, y));
                if apart {
                    lemma_push_pair(before, (i, j), (x, y));
                }
                assert(before.contains((x, y)) <==> seen.contains((x, y)) && must_keep_apart(
                    *board,
                    stamps@[x as int],
                    stamps@[y as int],
                ));
            }
        }
        k += 1;
    }
    assert(near@.take(k as int) =~= near@);
    r
}

/// All of them are pieces of the board.
pub open spec fn are_pieces<N>(board: DrcBoard<N>, s: Seq<Stamp>) -> bool {
    forall|i: int| 0 <= i < s.len() ==> is_piece(board, #[trigger] s[i])
}

proof fn lemma_joined_pieces<N>(board: DrcBoard<N>, a: Seq<Stamp>, b: Seq<Stamp>)
    requires
        are_pieces(board, a),
        are_pieces(board, b),
    ensures
        are_pieces(board, a + b),
{
    assert forall|i: int| 0 <= i < (a + b).len() implies is_piece(board, #[trigger] (a + b)[i]) by {
        if i < a.len() {
            assert((a + b)[i] == a[i]);
        } else {
            assert((a + b)[i] == b[i - a.len()]);
        }
    }
}

/// All the pieces of a board are its own.
pub proof fn lemma_all_pieces<N>(board: DrcBoard<N>, sites: Option<Seq<Seq<usize>>>)
    requires
        countable(
            board,
            match sites {
                Some(s) => s.len(),
                None => 0,
            },
        ),
        sites is Some ==> are_sites(board, sites->0),
    ensures
        are_pieces(board, all_stamps(board, sites)),
{
    let traces = trace_stamps(board, board.segments@.len());
    let pads = pad_stamps(board, board.pads@.len());
    lemma_joined_pieces(board, traces, pads);
    match sites {
        Some(s) => {
            lemma_sited_pieces(board, s, s.len());
            lemma_joined_pieces(board, traces + pads, sited_vias(board, s, s.len()));
        },
        None => {
            lemma_lone_pieces(board, board.vias@.len());
            lemma_joined_pieces(board, traces + pads, lone_vias(board, board.vias@.len()));
        },
    }
}

proof fn lemma_lone_pieces<N>(board: DrcBoard<N>, n: nat)
    requires
        n <= board.vias@.len() <= usize::MAX,
        board.segments@.len() + board.pads@.len() + board.vias@.len() <= usize::MAX,
        board.segments@.len() + board.pads@.len() + board.vias@.len() <= i64::MAX,
    ensures
        are_pieces(board, lone_vias(board, n)),
    decreases n,
{
    if n > 0 {
        lemma_lone_pieces(board, (n - 1) as nat);
        lemma_joined_pieces(
            board,
            lone_vias(board, (n - 1) as nat),
            stamps_of_via(
                board.vias@[n - 1],
                board.layers@.len() as u32,
                (n - 1) as usize,
                (board.segments@.len() + board.pads@.len() + n - 1) as usize,
                false,
            ),
        );
    }
}

proof fn lemma_site_pieces<N>(board: DrcBoard<N>, site: Seq<usize>, logical: usize, n: nat)
    requires
        n <= site.len(),
        logical <= i64::MAX,
        forall|k: int| 0 <= k < site.len() ==> (#[trigger] site[k]) < board.vias@.len(),
    ensures
        are_pieces(board, vias_of_site(board, site, logical, n)),
    decreases n,
{
    if n > 0 {
        lemma_site_pieces(board, site, logical, (n - 1) as nat);
        lemma_joined_pieces(
            board,
            vias_of_site(board, site, logical, (n - 1) as nat),
            stamps_of_via(
                board.vias@[site[n - 1] as int],
                board.layers@.len() as u32,
                site[n - 1],
                logical,
                true,
            ),
        );
    }
}

proof fn lemma_sited_pieces<N>(board: DrcBoard<N>, sites: Seq<Seq<usize>>, n: nat)
    requires
        n <= sites.len(),
        are_sites(board, sites),
        board.segments@.len() + board.pads@.len() + sites.len() <= usize::MAX,
        board.segments@.len() + board.pads@.len() + sites.len() <= i64::MAX,
    ensures
        are_pieces(board, sited_vias(board, sites, n)),
    decreases n,
{
    if n > 0 {
        lemma_sited_pieces(board, sites, (n - 1) as nat);
        let site = sites[n - 1];
        let logical = (board.segments@.len() + board.pads@.len() + n - 1) as usize;
        assert forall|k: int| 0 <= k < site.len() implies (#[trigger] site[k])
            < board.vias@.len() by {
            assert(sites[n - 1][k] < board.vias@.len());
        }
        lemma_site_pieces(board, site, logical, site.len());
        lemma_joined_pieces(
            board,
            sited_vias(board, sites, (n - 1) as nat),
            vias_of_site(board, site, logical, site.len()),
        );
    }
}

} // verus!
