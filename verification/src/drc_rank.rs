//! Which broken rules are reported, and in what order.
//!
//! What is measured comes as numbers that are ordered as the measurements are.
use vstd::prelude::*;

use crate::drc::{class_order, Violation};
use crate::sorting::{push_text, sorted_order};

verus! {

/// A violation in numbers.
#[derive(Clone, Copy, Debug, PartialEq, Eq)]
pub struct RowNumbers {
    /// Where it is, across, on the grid of reports.
    pub grid_x: i64,
    /// Where it is, up, on the grid of reports.
    pub grid_y: i64,
    /// Where it is, across.
    pub x: i64,
    /// Where it is, up.
    pub y: i64,
    /// What was found.
    pub measured: i64,
    /// What the rule asks for.
    pub required: i64,
}

/// What violations are sorted by: class, layer, place on the grid of reports, nets, and
/// then the exact place and the measurements.
pub open spec fn row_key<N>(v: Violation<N>, n: RowNumbers) -> Seq<i64> {
    seq![crate::drc::class_rank(v.class) as i64, v.layer as i64, n.grid_x, n.grid_y]
        + crate::sorting::text_key(v.nets.0@) + crate::sorting::text_key(v.nets.1@) + seq![
        n.x,
        n.y,
        n.measured,
        n.required,
    ]
}

/// What violations are sorted by.
pub fn violation_key<N>(v: &Violation<N>, n: &RowNumbers) -> (key: Vec<i64>)
    ensures
        key@ == row_key(*v, *n),
{
    let mut key: Vec<i64> = vec![
        class_order(v.class) as i64,
        v.layer as i64,
        n.grid_x,
        n.grid_y,
    ];
    let ghost head = key@;
    assert(head =~= seq![
        crate::drc::class_rank(v.class) as i64,
        v.layer as i64,
        n.grid_x,
        n.grid_y,
    ]);
    push_text(&mut key, &v.nets.0);
    push_text(&mut key, &v.nets.1);
    key.push(n.x);
    key.push(n.y);
    key.push(n.measured);
    key.push(n.required);
    assert(key@ =~= row_key(*v, *n));
    key
}

/// The keys of violations.
pub open spec fn row_keys<N>(rows: Seq<Violation<N>>, numbers: Seq<RowNumbers>) -> Seq<Seq<i64>> {
    Seq::new(rows.len(), |i: int| row_key(rows[i], numbers[i]))
}

/// The violations in the order of reports, by their places in the list.
pub fn sort_violations<N>(rows: &Vec<Violation<N>>, numbers: &Vec<RowNumbers>) -> (order: Vec<
    usize,
>)
    requires
        rows@.len() == numbers@.len(),
    ensures
        crate::sorting::is_order(row_keys(rows@, numbers@), order@),
        order@ == crate::sorting::order_of(row_keys(rows@, numbers@)),
{
    let mut keys: Vec<Vec<i64>> = Vec::new();
    let mut i: usize = 0;
    while i < rows.len()
        invariant
            i <= rows@.len(),
            rows@.len() == numbers@.len(),
            keys@.len() == i,
            forall|j: int| 0 <= j < i ==> (#[trigger] keys@[j])@ == row_key(rows@[j], numbers@[j]),
        decreases rows@.len() - i,
    {
        keys.push(violation_key(&rows[i], &numbers[i]));
        i += 1;
    }
    assert(keys.deep_view() =~= row_keys(rows@, numbers@)) by {
        assert forall|j: int| 0 <= j < keys@.len() implies keys.deep_view()[j] == row_keys(
            rows@,
            numbers@,
        )[j] by {
            assert(keys@[j].deep_view() =~= keys@[j]@);
        }
    }
    sorted_order(&keys)
}

/// The keys begin with the same `width` numbers.
pub open spec fn same_group(a: Seq<i64>, b: Seq<i64>, width: int) -> bool {
    forall|k: int| 0 <= k < width ==> #[trigger] a[k] == b[k]
}

/// The first of its group.
pub open spec fn leads(keys: Seq<Seq<i64>>, width: int, x: int) -> bool {
    &&& 0 <= x < keys.len()
    &&& forall|y: int|
        0 <= y < keys.len() && y != x && #[trigger] same_group(keys[y], keys[x], width)
            ==> crate::sorting::precedes(keys, x, y)
}

/// All keys are at least that long.
pub open spec fn all_long(keys: Seq<Seq<i64>>, width: int) -> bool {
    forall|i: int| 0 <= i < keys.len() ==> (#[trigger] keys[i]).len() >= width
}

/// What is between two things of a group is of that group.
proof fn lemma_group_between(keys: Seq<Seq<i64>>, width: int, x: int, y: int, z: int)
    requires
        0 <= x < keys.len(),
        0 <= y < keys.len(),
        0 <= z < keys.len(),
        all_long(keys, width),
        crate::sorting::precedes(keys, x, y),
        crate::sorting::precedes(keys, y, z),
        same_group(keys[x], keys[z], width),
    ensures
        same_group(keys[x], keys[y], width),
        same_group(keys[y], keys[z], width),
{
    let a = keys[x];
    let b = keys[y];
    let c = keys[z];
    assert(a.len() >= width && b.len() >= width && c.len() >= width);
    if a != b {
        let k = choose|k: int| crate::sorting::parts_at(a, b, k);
        assert(crate::sorting::parts_at(a, b, k));
        if k < width {
            assert(a[k] == c[k]);
            assert forall|j: int| 0 <= j < k implies #[trigger] c[j] == b[j] by {
                assert(a[j] == c[j]);
                assert(a[j] == b[j]);
            }
            assert(crate::sorting::parts_at(c, b, k));
            crate::sorting::lemma_precedes_asymmetric(keys, y, z);
            assert(crate::sorting::key_less(c, b));
            assert(crate::sorting::precedes(keys, z, y));
        }
        assert forall|j: int| 0 <= j < width implies #[trigger] a[j] == b[j] by {}
    }
    assert forall|j: int| 0 <= j < width implies #[trigger] b[j] == c[j] by {
        assert(a[j] == b[j]);
        assert(a[j] == c[j]);
    }
}

/// The first things of the groups, in order.
pub open spec fn are_leaders(keys: Seq<Seq<i64>>, width: int, r: Seq<usize>) -> bool {
    &&& forall|x: usize| #[trigger] r.contains(x) <==> leads(keys, width, x as int)
    &&& crate::sorting::is_rising(keys, r)
}

/// The first things of the groups, in order.
pub open spec fn leaders(keys: Seq<Seq<i64>>, width: int) -> Seq<usize> {
    choose|r: Seq<usize>| are_leaders(keys, width, r)
}

/// There is only one list of the first things of the groups.
pub proof fn law_one_list_of_leaders(
    keys: Seq<Seq<i64>>,
    width: int,
    a: Seq<usize>,
    b: Seq<usize>,
)
    requires
        are_leaders(keys, width, a),
        are_leaders(keys, width, b),
    ensures
        a == b,
{
    assert forall|x: usize| #[trigger] a.contains(x) <==> b.contains(x) by {
        assert(a.contains(x) <==> leads(keys, width, x as int));
        assert(b.contains(x) <==> leads(keys, width, x as int));
    }
    crate::sorting::lemma_same_list(keys, a, b);
}

/// Whether the keys begin with the same `width` numbers.
fn is_same_group(a: &Vec<i64>, b: &Vec<i64>, width: usize) -> (r: bool)
    requires
        a@.len() >= width,
        b@.len() >= width,
    ensures
        r == same_group(a@, b@, width as int),
{
    let mut k: usize = 0;
    while k < width
        invariant
            k <= width,
            a@.len() >= width,
            b@.len() >= width,
            forall|j: int| 0 <= j < k ==> #[trigger] a@[j] == b@[j],
        decreases width - k,
    {
        if a[k] != b[k] {
            assert(a@[k as int] != b@[k as int]);
            return false;
        }
        k += 1;
    }
    true
}

/// The first things of the groups, in order.
pub fn group_leaders(keys: &Vec<Vec<i64>>, width: usize) -> (r: Vec<usize>)
    requires
        all_long(keys.deep_view(), width as int),
    ensures
        are_leaders(keys.deep_view(), width as int, r@),
        r@ == leaders(keys.deep_view(), width as int),
{
    let ghost all = keys.deep_view();
    let ghost w = width as int;
    let order: Vec<usize> = sorted_order(keys);
    let mut r: Vec<usize> = Vec::new();
    let mut p: usize = 0;
    while p < order.len()
        invariant
            p <= order@.len(),
            all == keys.deep_view(),
            w == width,
            all_long(all, w),
            crate::sorting::is_order(all, order@),
            forall|i: int, j: int|
                0 <= i < j < r@.len() ==> crate::sorting::precedes(
                    all,
                    #[trigger] r@[i] as int,
                    #[trigger] r@[j] as int,
                ),
            forall|x: usize| #[trigger]
                r@.contains(x) <==> leads(all, w, x as int) && order@.take(p as int).contains(x),
        decreases order@.len() - p,
    {
        let o: usize = order[p];
        assert(order@[p as int] < all.len());
        assert(all[o as int] =~= keys@[o as int]@);
        let ghost before = r@;
        let ghost seen = order@.take(p as int);
        let fresh: bool = if p == 0 {
            true
        } else {
            let q: usize = order[p - 1];
            assert(order@[p - 1] < all.len());
            assert(all[q as int] =~= keys@[q as int]@);
            !is_same_group(&keys[q], &keys[o], width)
        };
        proof {
            if fresh {
                assert forall|y: int|
                    0 <= y < all.len() && y != o && #[trigger] same_group(
                        all[y],
                        all[o as int],
                        w,
                    ) implies crate::sorting::precedes(all, o as int, y) by {
                    assert(order@.contains(y as usize));
                    let m = choose|m: int| 0 <= m < order@.len() && order@[m] == y as usize;
                    if m > p {
                        assert(crate::sorting::precedes(
                            all,
                            order@[p as int] as int,
                            order@[m] as int,
                        ));
                    } else if m < p {
                        let q = order@[p - 1] as int;
                        if m < p - 1 {
                            assert(crate::sorting::precedes(
                                all,
                                order@[m] as int,
                                order@[p - 1] as int,
                            ));
                            assert(crate::sorting::precedes(
                                all,
                                order@[p - 1] as int,
                                order@[p as int] as int,
                            ));
                            lemma_group_between(all, w, y, q, o as int);
                        }
                        assert(false);
                    }
                }
                assert(leads(all, w, o as int));
            } else {
                let q = order@[p - 1] as int;
                assert(crate::sorting::precedes(
                    all,
                    order@[p - 1] as int,
                    order@[p as int] as int,
                ));
                crate::sorting::lemma_precedes_asymmetric(all, q, o as int);
                assert(same_group(all[q], all[o as int], w));
                assert(!leads(all, w, o as int));
            }
        }
        if fresh {
            r.push(o);
        }
        proof {
            let now = order@.take(p + 1);
            assert(now =~= seen.push(o));
            assert forall|x: usize| #[trigger] r@.contains(x) <==> leads(all, w, x as int)
                && now.contains(x) by {
                crate::drc_pairs::lemma_push_contains(seen, o, x);
                if fresh {
                    crate::drc_pairs::lemma_push_contains(before, o, x);
                }
                assert(before.contains(x) <==> leads(all, w, x as int) && seen.contains(x));
            }
            assert forall|i: int, j: int| 0 <= i < j < r@.len() implies crate::sorting::precedes(
                all,
                #[trigger] r@[i] as int,
                #[trigger] r@[j] as int,
            ) by {
                if j == before.len() {
                    assert(before.contains(before[i]));
                    assert(seen.contains(before[i]));
                    let m = choose|m: int| 0 <= m < seen.len() && seen[m] == before[i];
                    assert(crate::sorting::precedes(
                        all,
                        order@[m] as int,
                        order@[p as int] as int,
                    ));
                }
            }
        }
        p += 1;
    }
    proof {
        assert(order@.take(p as int) =~= order@);
        assert forall|x: usize| #[trigger] r@.contains(x) <==> leads(all, w, x as int) by {
            if leads(all, w, x as int) {
                assert(order@.contains(x));
            }
        }
        assert(are_leaders(all, w, r@));
        law_one_list_of_leaders(all, w, r@, leaders(all, w));
    }
    r
}

/// In each group exactly one thing is first.
pub proof fn law_one_leader(keys: Seq<Seq<i64>>, width: int, x: int)
    requires
        0 <= x < keys.len() <= usize::MAX,
        width >= 0,
    ensures
        exists|y: int| leads(keys, width, y) && same_group(keys[y], keys[x], width),
        forall|y: int, z: int|
            leads(keys, width, y) && leads(keys, width, z) && same_group(
                keys[y],
                keys[x],
                width,
            ) && same_group(keys[z], keys[x], width) ==> y == z,
{
    assert forall|y: int, z: int|
        leads(keys, width, y) && leads(keys, width, z) && same_group(keys[y], keys[x], width)
            && same_group(keys[z], keys[x], width) implies y == z by {
        if y != z {
            assert(same_group(keys[y], keys[z], width)) by {
                assert forall|k: int| 0 <= k < width implies #[trigger] keys[y][k]
                    == keys[z][k] by {
                    assert(keys[y][k] == keys[x][k]);
                    assert(keys[z][k] == keys[x][k]);
                }
            }
            assert(same_group(keys[z], keys[y], width)) by {
                assert forall|k: int| 0 <= k < width implies #[trigger] keys[z][k]
                    == keys[y][k] by {
                    assert(keys[y][k] == keys[z][k]);
                }
            }
            crate::sorting::lemma_precedes_asymmetric(keys, y, z);
        }
    }
    crate::sorting::law_an_order_exists(keys);
    let order = crate::sorting::order_of(keys);
    assert(order.contains(x as usize));
    let m = choose|m: int| 0 <= m < order.len() && order[m] == x as usize;
    lemma_leader_upto(keys, width, order, m, x);
}

/// Among the things up to place `m` there is the first of the group of `x`.
proof fn lemma_leader_upto(keys: Seq<Seq<i64>>, width: int, order: Seq<usize>, m: int, x: int)
    requires
        crate::sorting::is_order(keys, order),
        0 <= x < keys.len() <= usize::MAX,
        0 <= m < order.len(),
        same_group(keys[order[m] as int], keys[x], width),
    ensures
        exists|y: int| leads(keys, width, y) && same_group(keys[y], keys[x], width),
    decreases m,
{
    let o = order[m] as int;
    if exists|k: int| 0 <= k < m && same_group(keys[#[trigger] order[k] as int], keys[x], width) {
        let k = choose|k: int|
            0 <= k < m && same_group(keys[#[trigger] order[k] as int], keys[x], width);
        lemma_leader_upto(keys, width, order, k, x);
    } else {
        assert(order[m] < keys.len());
        assert forall|y: int|
            0 <= y < keys.len() && y != o && #[trigger] same_group(
                keys[y],
                keys[o],
                width,
            ) implies crate::sorting::precedes(keys, o, y) by {
            assert(order.contains(y as usize));
            let q = choose|q: int| 0 <= q < order.len() && order[q] == y as usize;
            if q < m {
                assert(same_group(keys[order[q] as int], keys[x], width)) by {
                    assert forall|k: int| 0 <= k < width implies #[trigger] keys[y][k]
                        == keys[x][k] by {
                        assert(keys[y][k] == keys[o][k]);
                        assert(keys[order[m] as int][k] == keys[x][k]);
                    }
                }
            } else {
                assert(crate::sorting::precedes(keys, order[m] as int, order[q] as int));
            }
        }
        assert(leads(keys, width, o));
    }
}

/// Two pieces of copper on a layer that are too close.
#[derive(Clone, Debug, PartialEq, Eq)]
pub struct PairRow {
    /// The layer.
    pub layer: u32,
    /// What one piece belongs to.
    pub a: usize,
    /// What the other belongs to.
    pub b: usize,
    /// How much is missing: lower is worse.
    pub deficit: i64,
    /// What the violation is sorted by.
    pub row: Vec<i64>,
}

/// The lower of two numbers.
pub open spec fn lesser(a: usize, b: usize) -> usize {
    if a < b {
        a
    } else {
        b
    }
}

/// The higher of two numbers.
pub open spec fn greater(a: usize, b: usize) -> usize {
    if a < b {
        b
    } else {
        a
    }
}

/// By layer, by what belongs together, by how bad it is, and then as in reports.
pub open spec fn pair_key(p: PairRow) -> Seq<i64> {
    seq![p.layer as i64, lesser(p.a, p.b) as i64, greater(p.a, p.b) as i64, p.deficit] + p.row@
}

/// The keys of pairs.
pub open spec fn pair_keys(pairs: Seq<PairRow>) -> Seq<Seq<i64>> {
    pairs.map_values(|p: PairRow| pair_key(p))
}

/// The numbers of what belongs together fit into keys.
pub open spec fn pairs_fit(pairs: Seq<PairRow>) -> bool {
    forall|i: int|
        0 <= i < pairs.len() ==> (#[trigger] pairs[i]).a <= i64::MAX && pairs[i].b <= i64::MAX
}

/// Of each two things that are too close on a layer, the worst pair of their pieces.
pub fn worst_pairs(pairs: &Vec<PairRow>) -> (r: Vec<usize>)
    requires
        pairs_fit(pairs@),
    ensures
        are_leaders(pair_keys(pairs@), 3, r@),
        r@ == leaders(pair_keys(pairs@), 3),
{
    let mut keys: Vec<Vec<i64>> = Vec::new();
    let mut i: usize = 0;
    while i < pairs.len()
        invariant
            i <= pairs@.len(),
            pairs_fit(pairs@),
            keys@.len() == i,
            forall|j: int| 0 <= j < i ==> (#[trigger] keys@[j])@ == pair_key(pairs@[j]),
        decreases pairs@.len() - i,
    {
        let p: &PairRow = &pairs[i];
        let lo: usize = if p.a < p.b {
            p.a
        } else {
            p.b
        };
        let hi: usize = if p.a < p.b {
            p.b
        } else {
            p.a
        };
        assert(pairs@[i as int].a <= i64::MAX);
        let key: Vec<i64> = with_tail(
            vec![p.layer as i64, lo as i64, hi as i64, p.deficit],
            &p.row,
        );
        assert(key@ =~= pair_key(*p));
        keys.push(key);
        i += 1;
    }
    proof {
        assert forall|j: int| 0 <= j < keys@.len() implies keys.deep_view()[j] == pair_keys(
            pairs@,
        )[j] by {
            assert(keys@[j].deep_view() =~= keys@[j]@);
        }
        assert(keys.deep_view() =~= pair_keys(pairs@));
    }
    group_leaders(&keys, 3)
}

/// A key with more numbers at its end.
fn with_tail(head: Vec<i64>, tail: &Vec<i64>) -> (r: Vec<i64>)
    ensures
        r@ == head@ + tail@,
{
    let mut r: Vec<i64> = head;
    let ghost front = r@;
    let mut i: usize = 0;
    assert(r@ =~= front + tail@.take(0));
    while i < tail.len()
        invariant
            i <= tail@.len(),
            r@ == front + tail@.take(i as int),
        decreases tail@.len() - i,
    {
        r.push(tail[i]);
        i += 1;
        assert(r@ =~= front + tail@.take(i as int));
    }
    assert(tail@.take(tail@.len() as int) =~= tail@);
    r
}

/// Two vias that are too close: their holes, or their copper.
#[derive(Clone, Debug, PartialEq, Eq)]
pub struct ViaRow {
    /// The site of one via.
    pub low: usize,
    /// The site of the other, which is not before the first.
    pub high: usize,
    /// It is their holes that are too close.
    pub hole: bool,
    /// How far apart the middles have to be.
    pub centre: i64,
    /// As far, and a trifle further.
    pub slack: i64,
    /// How much is missing: lower is worse.
    pub deficit: i64,
    /// What the violation is sorted by.
    pub row: Vec<i64>,
}

/// Two vias that are too close: their holes, or their copper.
#[verifier::ext_equal]
pub struct ViaRank {
    /// The site of one via.
    pub low: usize,
    /// The site of the other, which is not before the first.
    pub high: usize,
    /// It is their holes that are too close.
    pub hole: bool,
    /// How far apart the middles have to be.
    pub centre: i64,
    /// As far, and a trifle further.
    pub slack: i64,
    /// How much is missing: lower is worse.
    pub deficit: i64,
    /// What the violation is sorted by.
    pub row: Seq<i64>,
}

impl DeepView for ViaRow {
    type V = ViaRank;

    open spec fn deep_view(&self) -> ViaRank {
        ViaRank {
            low: self.low,
            high: self.high,
            hole: self.hole,
            centre: self.centre,
            slack: self.slack,
            deficit: self.deficit,
            row: self.row@,
        }
    }
}

/// By sites, by what is too close, by how far apart the middles have to be with the
/// furthest first, by how bad it is, and then as in reports.
pub open spec fn via_row_key(v: ViaRank) -> Seq<i64> {
    seq![
        v.low as i64,
        v.high as i64,
        if v.hole {
            0i64
        } else {
            1i64
        },
        (-1 - v.centre) as i64,
        v.deficit,
    ] + v.row
}

/// The keys of vias that are too close.
pub open spec fn via_row_keys(rows: Seq<ViaRank>) -> Seq<Seq<i64>> {
    rows.map_values(|v: ViaRank| via_row_key(v))
}

/// The numbers of sites fit into keys.
pub open spec fn via_rows_fit(rows: Seq<ViaRank>) -> bool {
    forall|i: int|
        0 <= i < rows.len() ==> (#[trigger] rows[i]).low <= i64::MAX && rows[i].high <= i64::MAX
}

/// The strictest for its two sites, of the holes or of the copper.
pub open spec fn is_strictest(rows: Seq<ViaRank>, x: int) -> bool {
    leads(via_row_keys(rows), 3, x)
}

/// The same two sites, one by its holes and the other by its copper.
pub open spec fn are_rivals(a: ViaRank, b: ViaRank) -> bool {
    a.low == b.low && a.high == b.high && a.hole != b.hole
}

/// The first is reported and not the second: copper where it asks for more than a
/// trifle more room than the holes do, otherwise the holes.
pub open spec fn outweighs(a: ViaRank, b: ViaRank) -> bool {
    if a.hole {
        b.centre <= a.slack
    } else {
        a.centre > b.slack
    }
}

/// The one that is reported for its two sites.
pub open spec fn is_reported(rows: Seq<ViaRank>, x: int) -> bool {
    &&& is_strictest(rows, x)
    &&& forall|y: int|
        0 <= y < rows.len() && #[trigger] is_strictest(rows, y) && are_rivals(rows[x], rows[y])
            ==> outweighs(rows[x], rows[y])
}

/// Those that are reported, in the order of their sites.
pub open spec fn are_reported(rows: Seq<ViaRank>, r: Seq<usize>) -> bool {
    &&& forall|x: usize| #[trigger] r.contains(x) <==> is_reported(rows, x as int)
    &&& crate::sorting::is_rising(via_row_keys(rows), r)
}

/// Those that are reported, in the order of their sites.
pub open spec fn reported(rows: Seq<ViaRank>) -> Seq<usize> {
    choose|r: Seq<usize>| are_reported(rows, r)
}

/// There is only one list of what is reported.
pub proof fn law_one_list_of_reports(rows: Seq<ViaRank>, a: Seq<usize>, b: Seq<usize>)
    requires
        are_reported(rows, a),
        are_reported(rows, b),
    ensures
        a == b,
{
    assert forall|x: usize| #[trigger] a.contains(x) <==> b.contains(x) by {
        assert(a.contains(x) <==> is_reported(rows, x as int));
        assert(b.contains(x) <==> is_reported(rows, x as int));
    }
    crate::sorting::lemma_same_list(via_row_keys(rows), a, b);
}

/// Rows with the same sites and kind are of one group.
proof fn lemma_via_group(rows: Seq<ViaRank>, x: int, y: int)
    requires
        0 <= x < rows.len(),
        0 <= y < rows.len(),
        via_rows_fit(rows),
    ensures
        same_group(via_row_keys(rows)[x], via_row_keys(rows)[y], 2) <==> rows[x].low == rows[y].low
            && rows[x].high == rows[y].high,
        same_group(via_row_keys(rows)[x], via_row_keys(rows)[y], 3) <==> rows[x].low == rows[y].low
            && rows[x].high == rows[y].high && rows[x].hole == rows[y].hole,
{
    let a = via_row_keys(rows)[x];
    let b = via_row_keys(rows)[y];
    assert(a == via_row_key(rows[x]) && b == via_row_key(rows[y]));
    assert(rows[x].low <= i64::MAX && rows[y].low <= i64::MAX);
    if same_group(a, b, 2) {
        assert(a[0] == b[0] && a[1] == b[1]);
    }
    if same_group(a, b, 3) {
        assert(a[0] == b[0] && a[1] == b[1] && a[2] == b[2]);
    }
}

/// Rivals stand next to each other among the strictest.
proof fn lemma_rivals_adjacent(rows: Seq<ViaRank>, best: Seq<usize>, p: int, q: int)
    requires
        via_rows_fit(rows),
        are_leaders(via_row_keys(rows), 3, best),
        0 <= p < q < best.len(),
        are_rivals(rows[best[p] as int], rows[best[q] as int]),
    ensures
        q == p + 1,
{
    let keys = via_row_keys(rows);
    let x = best[p] as int;
    let y = best[q] as int;
    assert(best.contains(best[p]) && best.contains(best[q]));
    if q > p + 1 {
        let z = best[p + 1] as int;
        assert(best.contains(best[p + 1]));
        assert(crate::sorting::precedes(keys, best[p] as int, best[p + 1] as int));
        assert(crate::sorting::precedes(keys, best[p + 1] as int, best[q] as int));
        lemma_via_group(rows, x, y);
        assert(all_long(keys, 2)) by {
            assert forall|i: int| 0 <= i < keys.len() implies (#[trigger] keys[i]).len() >= 2 by {
                assert(keys[i] == via_row_key(rows[i]));
            }
        }
        lemma_group_between(keys, 2, x, z, y);
        lemma_via_group(rows, x, z);
        lemma_via_group(rows, z, x);
        lemma_via_group(rows, z, y);
        lemma_via_group(rows, y, z);
        crate::sorting::lemma_precedes_asymmetric(keys, x, z);
        crate::sorting::lemma_precedes_asymmetric(keys, z, y);
        if rows[z].hole == rows[x].hole {
            assert(same_group(keys[x], keys[z], 3));
            assert(same_group(keys[z], keys[x], 3));
            assert(leads(keys, 3, z));
        } else {
            assert(same_group(keys[z], keys[y], 3));
            assert(same_group(keys[y], keys[z], 3));
            assert(leads(keys, 3, y));
        }
    }
}

/// Whether two rows are of the same two sites, one by its holes and the other by its
/// copper.
fn is_rival(a: &ViaRow, b: &ViaRow) -> (r: bool)
    ensures
        r == are_rivals(a.deep_view(), b.deep_view()),
{
    a.low == b.low && a.high == b.high && a.hole != b.hole
}

/// Whether the first is reported and not the second.
fn is_weightier(a: &ViaRow, b: &ViaRow) -> (r: bool)
    ensures
        r == outweighs(a.deep_view(), b.deep_view()),
{
    if a.hole {
        b.centre <= a.slack
    } else {
        a.centre > b.slack
    }
}

/// For each two sites whose vias are too close, the row that is reported.
pub fn arbitrate(rows: &Vec<ViaRow>) -> (r: Vec<usize>)
    requires
        via_rows_fit(rows.deep_view()),
    ensures
        are_reported(rows.deep_view(), r@),
        r@ == reported(rows.deep_view()),
{
    let ghost ranks = rows.deep_view();
    let mut keys: Vec<Vec<i64>> = Vec::new();
    let mut i: usize = 0;
    while i < rows.len()
        invariant
            i <= rows@.len(),
            ranks == rows.deep_view(),
            via_rows_fit(ranks),
            keys@.len() == i,
            forall|j: int| 0 <= j < i ==> (#[trigger] keys@[j])@ == via_row_key(ranks[j]),
        decreases rows@.len() - i,
    {
        let v: &ViaRow = &rows[i];
        assert(ranks[i as int].low <= i64::MAX);
        let kind: i64 = if v.hole {
            0
        } else {
            1
        };
        let far: i64 = -1 - v.centre;
        let key: Vec<i64> = with_tail(
            vec![v.low as i64, v.high as i64, kind, far, v.deficit],
            &v.row,
        );
        assert(key@ =~= via_row_key(ranks[i as int]));
        keys.push(key);
        i += 1;
    }
    let ghost all = via_row_keys(ranks);
    proof {
        assert forall|j: int| 0 <= j < keys@.len() implies keys.deep_view()[j] == all[j] by {
            assert(keys@[j].deep_view() =~= keys@[j]@);
        }
        assert(keys.deep_view() =~= all);
    }
    let best: Vec<usize> = group_leaders(&keys, 3);
    let mut r: Vec<usize> = Vec::new();
    let count: usize = rows.len();
    let mut p: usize = 0;
    while p < best.len()
        invariant
            p <= best@.len(),
            count == rows@.len(),
            ranks == rows.deep_view(),
            via_rows_fit(ranks),
            all == via_row_keys(ranks),
            are_leaders(all, 3, best@),
            forall|x: usize| #[trigger]
                r@.contains(x) <==> is_reported(ranks, x as int) && best@.take(p as int).contains(
                    x,
                ),
            forall|i: int, j: int|
                0 <= i < j < r@.len() ==> crate::sorting::precedes(
                    all,
                    #[trigger] r@[i] as int,
                    #[trigger] r@[j] as int,
                ),
        decreases best@.len() - p,
    {
        let o: usize = best[p];
        assert(best@.contains(best@[p as int]));
        assert(leads(all, 3, o as int));
        let ghost before = r@;
        let ghost seen = best@.take(p as int);
        let mut wins: bool = true;
        if p > 0 {
            let q: usize = best[p - 1];
            assert(best@.contains(best@[p - 1]));
            assert(leads(all, 3, q as int));
            if is_rival(&rows[o], &rows[q]) && !is_weightier(&rows[o], &rows[q]) {
                assert(is_strictest(ranks, q as int));
                wins = false;
            }
        }
        if p + 1 < best.len() {
            let q: usize = best[p + 1];
            assert(best@.contains(best@[p + 1]));
            assert(leads(all, 3, q as int));
            if is_rival(&rows[o], &rows[q]) && !is_weightier(&rows[o], &rows[q]) {
                assert(is_strictest(ranks, q as int));
                wins = false;
            }
        }
        proof {
            if wins {
                assert forall|y: int|
                    0 <= y < ranks.len() && #[trigger] is_strictest(ranks, y) && are_rivals(
                        ranks[o as int],
                        ranks[y],
                    ) implies outweighs(ranks[o as int], ranks[y]) by {
                    assert(best@.contains(y as usize));
                    let q = choose|q: int| 0 <= q < best@.len() && best@[q] == y as usize;
                    if q < p {
                        lemma_rivals_adjacent(ranks, best@, q, p as int);
                    } else if q > p {
                        lemma_rivals_adjacent(ranks, best@, p as int, q);
                    }
                }
                assert(is_reported(ranks, o as int));
            }
        }
        if wins {
            r.push(o);
        }
        proof {
            let now = best@.take(p + 1);
            assert(now =~= seen.push(o));
            assert forall|x: usize| #[trigger] r@.contains(x) <==> is_reported(ranks, x as int)
                && now.contains(x) by {
                crate::drc_pairs::lemma_push_contains(seen, o, x);
                if wins {
                    crate::drc_pairs::lemma_push_contains(before, o, x);
                }
                assert(before.contains(x) <==> is_reported(ranks, x as int) && seen.contains(x));
            }
            assert forall|i: int, j: int| 0 <= i < j < r@.len() implies crate::sorting::precedes(
                all,
                #[trigger] r@[i] as int,
                #[trigger] r@[j] as int,
            ) by {
                if j == before.len() {
                    assert(before.contains(before[i]));
                    assert(seen.contains(before[i]));
                    let m = choose|m: int| 0 <= m < seen.len() && seen[m] == before[i];
                    assert(crate::sorting::precedes(
                        all,
                        best@[m] as int,
                        best@[p as int] as int,
                    ));
                }
            }
        }
        p += 1;
    }
    proof {
        assert(best@.take(p as int) =~= best@);
        assert forall|x: usize| #[trigger] r@.contains(x) <==> is_reported(ranks, x as int) by {
            if is_reported(ranks, x as int) {
                assert(best@.contains(x));
            }
        }
        assert(are_reported(ranks, r@));
        law_one_list_of_reports(ranks, r@, reported(ranks));
    }
    r
}

/// For two sites at most one row is reported.
pub proof fn law_one_report(rows: Seq<ViaRank>, x: int, y: int)
    requires
        via_rows_fit(rows),
        is_reported(rows, x),
        is_reported(rows, y),
        rows[x].low == rows[y].low,
        rows[x].high == rows[y].high,
    ensures
        x == y,
{
    let keys = via_row_keys(rows);
    lemma_via_group(rows, x, y);
    lemma_via_group(rows, y, x);
    if x != y {
        if rows[x].hole == rows[y].hole {
            crate::sorting::lemma_precedes_asymmetric(keys, x, y);
        } else {
            assert(is_strictest(rows, x) && is_strictest(rows, y));
            assert(outweighs(rows[x], rows[y]));
            assert(outweighs(rows[y], rows[x]));
        }
    }
}

/// For two sites whose vias are too close, a row is reported.
pub proof fn law_some_report(rows: Seq<ViaRank>, x: int)
    requires
        via_rows_fit(rows),
        0 <= x < rows.len() <= usize::MAX,
    ensures
        exists|y: int|
            is_reported(rows, y) && rows[y].low == rows[x].low && rows[y].high == rows[x].high,
{
    let keys = via_row_keys(rows);
    law_one_leader(keys, 3, x);
    let a = choose|a: int| leads(keys, 3, a) && same_group(keys[a], keys[x], 3);
    lemma_via_group(rows, a, x);
    assert(is_strictest(rows, a));
    if !is_reported(rows, a) {
        let b = choose|b: int|
            0 <= b < rows.len() && #[trigger] is_strictest(rows, b) && are_rivals(rows[a], rows[b])
                && !outweighs(rows[a], rows[b]);
        assert forall|c: int|
            0 <= c < rows.len() && #[trigger] is_strictest(rows, c) && are_rivals(
                rows[b],
                rows[c],
            ) implies outweighs(rows[b], rows[c]) by {
            lemma_via_group(rows, a, c);
            lemma_via_group(rows, c, a);
            if a != c {
                crate::sorting::lemma_precedes_asymmetric(keys, a, c);
            }
        }
        assert(is_reported(rows, b));
    }
}

} // verus!
