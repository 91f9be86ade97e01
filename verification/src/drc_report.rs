//! The report on a board: what was measured, made into violations.
use vstd::prelude::*;

use crate::drc::{
    crossed_planes, ordered_nets, shared_layer, top_layer, DrcBoard, LayerKind, Via, Violation,
    ViolationClass,
};
use crate::drc_pairs::{net_of_piece, Stamp};
use crate::drc_rank::{
    arbitrate, sort_violations, violation_key, worst_pairs, PairRow, RowNumbers, ViaRank, ViaRow,
};
use crate::text::same_text;

verus! {

/// Where something was found.
#[derive(Clone, Copy, Debug, PartialEq)]
pub struct Place<N> {
    /// Across.
    pub across: N,
    /// Up.
    pub up: N,
    /// Across, on the grid of reports.
    pub grid_x: i64,
    /// Up, on the grid of reports.
    pub grid_y: i64,
    /// Across, as a number that is ordered as places are.
    pub x: i64,
    /// Up, as a number that is ordered as places are.
    pub y: i64,
}

/// How a measurement falls short of a rule.
#[derive(Clone, Copy, Debug, PartialEq)]
pub struct Shortfall<N> {
    /// What was found.
    pub measured: N,
    /// What the rule asks for.
    pub required: N,
    /// What was found, as a number that is ordered as measurements are.
    pub measured_rank: i64,
    /// What the rule asks for, as a number that is ordered as measurements are.
    pub required_rank: i64,
    /// How much is missing, as a number: lower is worse.
    pub deficit: i64,
}

/// A violation and what it is sorted by.
#[derive(Debug, PartialEq)]
pub struct Row<N> {
    /// The violation.
    pub violation: Violation<N>,
    /// The violation in numbers.
    pub numbers: RowNumbers,
}

/// A violation and what it is sorted by.
#[verifier::ext_equal]
pub struct Entry<N> {
    /// How the rule was broken.
    pub class: ViolationClass,
    /// On which layer.
    pub layer: u32,
    /// Between which nets.
    pub nets: (Seq<char>, Seq<char>),
    /// Where.
    pub place: Place<N>,
    /// By how much.
    pub short: Shortfall<N>,
}

/// A violation in numbers.
pub open spec fn numbers_of<N>(place: Place<N>, short: Shortfall<N>) -> RowNumbers {
    RowNumbers {
        grid_x: place.grid_x,
        grid_y: place.grid_y,
        x: place.x,
        y: place.y,
        measured: short.measured_rank,
        required: short.required_rank,
    }
}

/// The violation is what the entry says.
pub open spec fn tells<N>(v: Violation<N>, e: Entry<N>) -> bool {
    &&& v.class == e.class
    &&& v.layer == e.layer
    &&& v.location == (e.place.across, e.place.up)
    &&& v.nets.0@ == e.nets.0
    &&& v.nets.1@ == e.nets.1
    &&& v.measured == e.short.measured
    &&& v.required == e.short.required
}

impl<N> Row<N> {
    /// The row says what the entry says.
    pub open spec fn says(&self, e: Entry<N>) -> bool {
        &&& tells(self.violation, e)
        &&& self.numbers == numbers_of(e.place, e.short)
    }
}

/// The rows say what the entries say.
pub open spec fn all_say<N>(rows: Seq<Row<N>>, entries: Seq<Entry<N>>) -> bool {
    &&& rows.len() == entries.len()
    &&& forall|i: int| 0 <= i < rows.len() ==> (#[trigger] rows[i]).says(entries[i])
}

/// What an entry is sorted by.
pub open spec fn entry_key<N>(e: Entry<N>) -> Seq<i64> {
    let n = numbers_of(e.place, e.short);
    seq![crate::drc::class_rank(e.class) as i64, e.layer as i64, n.grid_x, n.grid_y]
        + crate::sorting::text_key(e.nets.0) + crate::sorting::text_key(e.nets.1) + seq![
        n.x,
        n.y,
        n.measured,
        n.required,
    ]
}

/// A violation with these nets.
fn make_row<N: Copy>(
    class: ViolationClass,
    layer: u32,
    nets: (String, String),
    place: &Place<N>,
    short: &Shortfall<N>,
) -> (r: Row<N>)
    ensures
        r.says(
            Entry {
                class,
                layer,
                nets: (nets.0@, nets.1@),
                place: *place,
                short: *short,
            },
        ),
{
    Row {
        violation: Violation {
            class,
            layer,
            location: (place.across, place.up),
            nets,
            measured: short.measured,
            required: short.required,
        },
        numbers: RowNumbers {
            grid_x: place.grid_x,
            grid_y: place.grid_y,
            x: place.x,
            y: place.y,
            measured: short.measured_rank,
            required: short.required_rank,
        },
    }
}

/// The same violation.
fn copy_row<N: Copy>(row: &Row<N>) -> (r: Row<N>)
    ensures
        forall|e: Entry<N>| row.says(e) ==> #[trigger] r.says(e),
{
    Row {
        violation: Violation {
            class: row.violation.class,
            layer: row.violation.layer,
            location: row.violation.location,
            nets: (row.violation.nets.0.clone(), row.violation.nets.1.clone()),
            measured: row.violation.measured,
            required: row.violation.required,
        },
        numbers: row.numbers,
    }
}

/// The chosen ones, in the order in which they are chosen.
pub open spec fn chosen<A>(items: Seq<A>, order: Seq<usize>) -> Seq<A> {
    Seq::new(order.len(), |i: int| items[order[i] as int])
}

/// The chosen rows, in the order in which they are chosen.
fn choose_rows<N: Copy>(
    rows: &Vec<Row<N>>,
    order: &Vec<usize>,
    Ghost(entries): Ghost<Seq<Entry<N>>>,
) -> (r: Vec<Row<N>>)
    requires
        all_say(rows@, entries),
        forall|i: int| 0 <= i < order@.len() ==> (#[trigger] order@[i]) < rows@.len(),
    ensures
        all_say(r@, chosen(entries, order@)),
{
    let mut r: Vec<Row<N>> = Vec::new();
    let mut i: usize = 0;
    while i < order.len()
        invariant
            i <= order@.len(),
            all_say(rows@, entries),
            forall|j: int| 0 <= j < order@.len() ==> (#[trigger] order@[j]) < rows@.len(),
            r@.len() == i,
            forall|j: int|
                0 <= j < i ==> (#[trigger] r@[j]).says(chosen(entries, order@)[j]),
        decreases order@.len() - i,
    {
        let o: usize = order[i];
        assert(order@[i as int] < rows@.len());
        assert(rows@[o as int].says(entries[o as int]));
        r.push(copy_row(&rows[o]));
        i += 1;
    }
    r
}

/// Two pieces of copper that are too close.
#[derive(Clone, Copy, Debug, PartialEq)]
pub struct CloseCall<N> {
    /// One piece.
    pub i: usize,
    /// The other.
    pub j: usize,
    /// Where.
    pub place: Place<N>,
    /// By how much.
    pub short: Shortfall<N>,
}

/// The pieces are in the list.
pub open spec fn calls_fit<N>(stamps: Seq<Stamp>, calls: Seq<CloseCall<N>>) -> bool {
    forall|k: int|
        0 <= k < calls.len() ==> (#[trigger] calls[k]).i < stamps.len() && calls[k].j
            < stamps.len()
}

/// Two pieces of copper that are too close.
pub open spec fn close_entry<N>(board: DrcBoard<N>, stamps: Seq<Stamp>, c: CloseCall<N>) -> Entry<
    N,
> {
    let a = stamps[c.i as int];
    let b = stamps[c.j as int];
    Entry {
        class: ViolationClass::Clearance,
        layer: a.layer,
        nets: crate::drc::nets_in_order(
            crate::drc::name_of(crate::drc_pairs::piece_net(board, a)),
            crate::drc::name_of(crate::drc_pairs::piece_net(board, b)),
        ),
        place: c.place,
        short: c.short,
    }
}

/// By layer, by what belongs together, by how bad it is, and then as in reports.
pub open spec fn close_key<N>(board: DrcBoard<N>, stamps: Seq<Stamp>, c: CloseCall<N>) -> Seq<i64> {
    let a = stamps[c.i as int];
    let b = stamps[c.j as int];
    seq![
        a.layer as i64,
        crate::drc_rank::lesser(a.logical, b.logical) as i64,
        crate::drc_rank::greater(a.logical, b.logical) as i64,
        c.short.deficit,
    ] + entry_key(close_entry(board, stamps, c))
}

/// For each two things that are too close on a layer, the worst of their pieces, in the
/// order of the layers and of the things.
pub open spec fn close_entries<N>(
    board: DrcBoard<N>,
    stamps: Seq<Stamp>,
    calls: Seq<CloseCall<N>>,
) -> Seq<Entry<N>> {
    let keys = calls.map_values(|c: CloseCall<N>| close_key(board, stamps, c));
    chosen(
        calls.map_values(|c: CloseCall<N>| close_entry(board, stamps, c)),
        crate::drc_rank::leaders(keys, 3),
    )
}

/// For each two things that are too close on a layer, the worst of their pieces.
pub fn clearance_rows<N: Copy>(
    board: &DrcBoard<N>,
    stamps: &Vec<Stamp>,
    calls: &Vec<CloseCall<N>>,
) -> (r: Vec<Row<N>>)
    requires
        crate::drc_pairs::are_pieces(*board, stamps@),
        calls_fit(stamps@, calls@),
    ensures
        all_say(r@, close_entries(*board, stamps@, calls@)),
        r@.len() == 0 <==> calls@.len() == 0,
{
    let mut rows: Vec<Row<N>> = Vec::new();
    let mut pairs: Vec<PairRow> = Vec::new();
    let ghost entries = calls@.map_values(|c: CloseCall<N>| close_entry(*board, stamps@, c));
    let ghost keys = calls@.map_values(|c: CloseCall<N>| close_key(*board, stamps@, c));
    let mut k: usize = 0;
    while k < calls.len()
        invariant
            k <= calls@.len(),
            crate::drc_pairs::are_pieces(*board, stamps@),
            calls_fit(stamps@, calls@),
            entries == calls@.map_values(|c: CloseCall<N>| close_entry(*board, stamps@, c)),
            keys == calls@.map_values(|c: CloseCall<N>| close_key(*board, stamps@, c)),
            rows@.len() == k,
            pairs@.len() == k,
            forall|m: int| 0 <= m < k ==> (#[trigger] rows@[m]).says(entries[m]),
            forall|m: int|
                0 <= m < k ==> crate::drc_rank::pair_key(#[trigger] pairs@[m]) == keys[m],
            crate::drc_rank::pairs_fit(pairs@),
        decreases calls@.len() - k,
    {
        let c: &CloseCall<N> = &calls[k];
        assert(calls@[k as int].i < stamps@.len());
        let a: Stamp = stamps[c.i];
        let b: Stamp = stamps[c.j];
        assert(crate::drc_pairs::is_piece(*board, stamps@[c.i as int]));
        assert(crate::drc_pairs::is_piece(*board, stamps@[c.j as int]));
        let nets: (String, String) = ordered_nets(
            &net_of_piece(board, &a),
            &net_of_piece(board, &b),
        );
        let row: Row<N> = make_row(ViolationClass::Clearance, a.layer, nets, &c.place, &c.short);
        let key: Vec<i64> = violation_key(&row.violation, &row.numbers);
        let pair = PairRow {
            layer: a.layer,
            a: a.logical,
            b: b.logical,
            deficit: c.short.deficit,
            row: key,
        };
        proof {
            assert(row.says(entries[k as int]));
            assert(key@ =~= entry_key(entries[k as int]));
            assert(crate::drc_rank::pair_key(pair) =~= keys[k as int]);
        }
        rows.push(row);
        pairs.push(pair);
        k += 1;
    }
    let lead: Vec<usize> = worst_pairs(&pairs);
    proof {
        assert(crate::drc_rank::pair_keys(pairs@) =~= keys);
        assert forall|m: int| 0 <= m < lead@.len() implies (#[trigger] lead@[m]) < rows@.len() by {
            assert(lead@.contains(lead@[m]));
        }
        if lead@.len() > 0 {
            assert(lead@[0] < rows@.len());
        }
        if calls@.len() > 0 {
            crate::drc_rank::law_one_leader(keys, 3, 0);
            let x = choose|x: int|
                crate::drc_rank::leads(keys, 3, x) && crate::drc_rank::same_group(
                    keys[x],
                    keys[0],
                    3,
                );
            assert(lead@.contains(x as usize));
        }
    }
    choose_rows(&rows, &lead, Ghost(entries))
}

/// Two vias in squares that touch.
#[derive(Clone, Copy, Debug, PartialEq)]
pub struct ViaCall<N> {
    /// One record of a via.
    pub i: usize,
    /// The other.
    pub j: usize,
    /// They are records of one hole.
    pub same_place: bool,
    /// In the middle between them.
    pub place: Place<N>,
    /// How their holes are too close, if they are.
    pub hole: Option<Shortfall<N>>,
    /// How far apart the rule for holes wants the middles, as a number.
    pub hole_centre: i64,
    /// As far, and a trifle further.
    pub hole_slack: i64,
    /// How their copper is too close, if it is.
    pub copper: Option<Shortfall<N>>,
    /// How far apart the rule for copper wants the middles, as a number.
    pub copper_centre: i64,
    /// As far, and a trifle further.
    pub copper_slack: i64,
}

/// A record of a via: its site and its place among the vias of the board.
#[derive(Clone, Copy, Debug, PartialEq, Eq)]
pub struct Record {
    /// The site.
    pub site: usize,
    /// The via.
    pub via: usize,
}

/// The vias of the first `n` sites in turn, each with its site.
pub open spec fn records_upto(sites: Seq<Seq<usize>>, n: nat) -> Seq<Record>
    decreases n,
{
    if n == 0 {
        Seq::empty()
    } else {
        let site = sites[n - 1];
        records_upto(sites, (n - 1) as nat) + Seq::new(
            site.len(),
            |k: int| Record { site: (n - 1) as usize, via: site[k] },
        )
    }
}

/// The vias of the sites, each with its site: site by site, and as they stand in each.
pub fn via_records(sites: &Vec<Vec<usize>>) -> (r: Vec<Record>)
    ensures
        r@ == records_upto(sites.deep_view(), sites@.len()),
{
    let ghost all = sites.deep_view();
    let mut r: Vec<Record> = Vec::new();
    let mut i: usize = 0;
    while i < sites.len()
        invariant
            i <= sites@.len(),
            all == sites.deep_view(),
            r@ == records_upto(all, i as nat),
        decreases sites@.len() - i,
    {
        let vias: &Vec<usize> = &sites[i];
        let ghost before = r@;
        let ghost site = all[i as int];
        proof {
            assert(site == vias.deep_view());
            assert(site =~= vias@);
        }
        let mut k: usize = 0;
        while k < vias.len()
            invariant
                k <= vias@.len(),
                site == vias@,
                r@ == before + Seq::new(k as nat, |j: int| Record { site: i, via: site[j] }),
            decreases vias@.len() - k,
        {
            r.push(Record { site: i, via: vias[k] });
            assert(r@ =~= before + Seq::new(
                (k + 1) as nat,
                |j: int| Record { site: i, via: site[j] },
            ));
            k += 1;
        }
        assert(r@ =~= records_upto(all, (i + 1) as nat));
        i += 1;
    }
    r
}

/// The records are of vias of the board, and the calls are of records.
pub open spec fn via_calls_fit<N>(
    board: DrcBoard<N>,
    records: Seq<Record>,
    calls: Seq<ViaCall<N>>,
) -> bool {
    &&& board.layers@.len() <= u32::MAX
    &&& forall|k: int|
        0 <= k < records.len() ==> (#[trigger] records[k]).via < board.vias@.len()
            && records[k].site <= i64::MAX
    &&& forall|k: int|
        0 <= k < calls.len() ==> (#[trigger] calls[k]).i < records.len() && calls[k].j
            < records.len()
}

/// A candidate for the report on two sites.
#[verifier::ext_equal]
pub struct Candidate<N> {
    /// The violation.
    pub entry: Entry<N>,
    /// What decides between the candidates.
    pub rank: ViaRank,
}

/// The candidate for the holes of two vias, or for their copper.
pub open spec fn candidate<N>(
    board: DrcBoard<N>,
    a: Record,
    b: Record,
    c: ViaCall<N>,
    hole: bool,
    layer: u32,
    short: Shortfall<N>,
) -> Candidate<N> {
    let entry = Entry {
        class: ViolationClass::Clearance,
        layer,
        nets: crate::drc::nets_in_order(
            board.vias@[a.via as int].net@,
            board.vias@[b.via as int].net@,
        ),
        place: c.place,
        short,
    };
    Candidate {
        entry,
        rank: ViaRank {
            low: crate::drc_rank::lesser(a.site, b.site),
            high: crate::drc_rank::greater(a.site, b.site),
            hole,
            centre: if hole {
                c.hole_centre
            } else {
                c.copper_centre
            },
            slack: if hole {
                c.hole_slack
            } else {
                c.copper_slack
            },
            deficit: short.deficit,
            row: entry_key(entry),
        },
    }
}

/// The layer on which the copper of two vias of different nets meets.
pub open spec fn meeting_layer<N>(board: DrcBoard<N>, a: Record, b: Record) -> Option<u32> {
    let v = board.vias@[a.via as int];
    let w = board.vias@[b.via as int];
    let n = board.layers@.len() as u32;
    if v.net@ == w.net@ {
        None
    } else {
        crate::drc::first_shared(
            crate::drc::stack_span(v.from_layer, v.to_layer, n),
            crate::drc::stack_span(w.from_layer, w.to_layer, n),
        )
    }
}

/// The candidates from two vias: of different sites and not records of one hole, their
/// holes where these are too close, and their copper where it is too close on a layer
/// that both are on.
pub open spec fn candidates_of<N>(
    board: DrcBoard<N>,
    records: Seq<Record>,
    c: ViaCall<N>,
) -> Seq<Candidate<N>> {
    let a = records[c.i as int];
    let b = records[c.j as int];
    let v = board.vias@[a.via as int];
    let w = board.vias@[b.via as int];
    if a.site == b.site || c.same_place {
        seq![]
    } else {
        (match c.hole {
            Some(short) => seq![
                candidate(
                    board,
                    a,
                    b,
                    c,
                    true,
                    crate::drc::low(
                        crate::drc::low(v.from_layer, v.to_layer),
                        crate::drc::low(w.from_layer, w.to_layer),
                    ),
                    short,
                ),
            ],
            None => seq![],
        }) + match (c.copper, meeting_layer(board, a, b)) {
            (Some(short), Some(layer)) => seq![candidate(board, a, b, c, false, layer, short)],
            _ => seq![],
        }
    }
}

/// The candidates from all the calls.
pub open spec fn all_candidates<N>(
    board: DrcBoard<N>,
    records: Seq<Record>,
    calls: Seq<ViaCall<N>>,
) -> Seq<Candidate<N>>
    decreases calls.len(),
{
    if calls.len() == 0 {
        seq![]
    } else {
        all_candidates(board, records, calls.drop_last()) + candidates_of(
            board,
            records,
            calls.last(),
        )
    }
}

/// The violations of candidates.
pub open spec fn entries_of<N>(cands: Seq<Candidate<N>>) -> Seq<Entry<N>> {
    cands.map_values(|c: Candidate<N>| c.entry)
}

/// What decides between candidates.
pub open spec fn ranks_of<N>(cands: Seq<Candidate<N>>) -> Seq<ViaRank> {
    cands.map_values(|c: Candidate<N>| c.rank)
}

/// For each two sites whose vias are too close, the violation that is reported.
pub open spec fn via_entries<N>(
    board: DrcBoard<N>,
    records: Seq<Record>,
    calls: Seq<ViaCall<N>>,
) -> Seq<Entry<N>> {
    let cands = all_candidates(board, records, calls);
    chosen(entries_of(cands), crate::drc_rank::reported(ranks_of(cands)))
}

/// Adds a candidate.
fn push_candidate<N: Copy>(
    board: &DrcBoard<N>,
    a: &Record,
    b: &Record,
    c: &ViaCall<N>,
    hole: bool,
    layer: u32,
    short: &Shortfall<N>,
    rows: &mut Vec<Row<N>>,
    weights: &mut Vec<ViaRow>,
    Ghost(cands): Ghost<Seq<Candidate<N>>>,
)
    requires
        a.via < board.vias@.len(),
        b.via < board.vias@.len(),
        a.site <= i64::MAX,
        b.site <= i64::MAX,
        all_say(old(rows)@, entries_of(cands)),
        old(weights).deep_view() == ranks_of(cands),
        crate::drc_rank::via_rows_fit(ranks_of(cands)),
    ensures
        all_say(
            final(rows)@,
            entries_of(cands.push(candidate(*board, *a, *b, *c, hole, layer, *short))),
        ),
        final(weights).deep_view() == ranks_of(
            cands.push(candidate(*board, *a, *b, *c, hole, layer, *short)),
        ),
        crate::drc_rank::via_rows_fit(final(weights).deep_view()),
{
    let ghost new = candidate(*board, *a, *b, *c, hole, layer, *short);
    let nets: (String, String) = ordered_nets(
        &Some(board.vias[a.via].net.clone()),
        &Some(board.vias[b.via].net.clone()),
    );
    let row: Row<N> = make_row(ViolationClass::Clearance, layer, nets, &c.place, short);
    let key: Vec<i64> = violation_key(&row.violation, &row.numbers);
    let weight = ViaRow {
        low: if a.site < b.site {
            a.site
        } else {
            b.site
        },
        high: if a.site < b.site {
            b.site
        } else {
            a.site
        },
        hole,
        centre: if hole {
            c.hole_centre
        } else {
            c.copper_centre
        },
        slack: if hole {
            c.hole_slack
        } else {
            c.copper_slack
        },
        deficit: short.deficit,
        row: key,
    };
    proof {
        assert(row.says(new.entry));
        assert(key@ =~= entry_key(new.entry));
        assert(weight.deep_view() =~= new.rank);
    }
    let ghost before_rows = rows@;
    let ghost before_weights = weights@;
    rows.push(row);
    weights.push(weight);
    proof {
        let now = cands.push(new);
        assert forall|m: int| 0 <= m < rows@.len() implies (#[trigger] rows@[m]).says(
            entries_of(now)[m],
        ) by {
            if m < before_rows.len() {
                assert(before_rows[m].says(entries_of(cands)[m]));
            }
        }
        assert(old(weights).deep_view().len() == cands.len());
        assert(before_weights.len() == cands.len());
        assert forall|m: int| 0 <= m < weights@.len() implies weights@[m].deep_view()
            == #[trigger] ranks_of(now)[m] by {
            if m < before_weights.len() {
                assert(old(weights).deep_view()[m] == ranks_of(cands)[m]);
                assert(weights@[m] == before_weights[m]);
                assert(now[m] == cands[m]);
            } else {
                assert(now[m] == new);
                assert(weights@[m].deep_view() =~= new.rank);
            }
        }
        assert(weights.deep_view() =~= ranks_of(now));
        assert forall|m: int| 0 <= m < now.len() implies (#[trigger] ranks_of(now)[m]).low
            <= i64::MAX && ranks_of(now)[m].high <= i64::MAX by {
            if m < cands.len() {
                assert(ranks_of(cands)[m].low <= i64::MAX);
            }
        }
    }
}

/// For each two sites whose vias are too close, the violation that is reported.
pub fn via_rows<N: Copy>(
    board: &DrcBoard<N>,
    records: &Vec<Record>,
    calls: &Vec<ViaCall<N>>,
) -> (r: Vec<Row<N>>)
    requires
        via_calls_fit(*board, records@, calls@),
    ensures
        all_say(r@, via_entries(*board, records@, calls@)),
        r@.len() == 0 <==> all_candidates(*board, records@, calls@).len() == 0,
{
    let mut rows: Vec<Row<N>> = Vec::new();
    let mut weights: Vec<ViaRow> = Vec::new();
    let layer_count: u32 = board.layers.len() as u32;
    let mut k: usize = 0;
    let ghost mut cands: Seq<Candidate<N>> = seq![];
    assert(calls@.take(0) =~= seq![]);
    while k < calls.len()
        invariant
            k <= calls@.len(),
            layer_count == board.layers@.len(),
            via_calls_fit(*board, records@, calls@),
            cands == all_candidates(*board, records@, calls@.take(k as int)),
            all_say(rows@, entries_of(cands)),
            weights.deep_view() == ranks_of(cands),
            crate::drc_rank::via_rows_fit(weights.deep_view()),
        decreases calls@.len() - k,
    {
        let c: &ViaCall<N> = &calls[k];
        assert(calls@[k as int].i < records@.len());
        let a: Record = records[c.i];
        let b: Record = records[c.j];
        assert(records@[c.i as int].via < board.vias@.len());
        assert(records@[c.j as int].via < board.vias@.len());
        let ghost before = cands;
        let ghost added = candidates_of(*board, records@, *c);
        proof {
            assert(calls@.take(k + 1).drop_last() =~= calls@.take(k as int));
            assert(calls@.take(k + 1).last() == *c);
        }
        if a.site != b.site && !c.same_place {
            let v: &Via<N> = &board.vias[a.via];
            let w: &Via<N> = &board.vias[b.via];
            if let Some(short) = c.hole {
                let layer: u32 = top_layer(v, w);
                push_candidate(
                    board,
                    &a,
                    &b,
                    c,
                    true,
                    layer,
                    &short,
                    &mut rows,
                    &mut weights,
                    Ghost(cands),
                );
                proof {
                    cands = cands.push(candidate(*board, a, b, *c, true, layer, short));
                }
            }
            if !same_text(&v.net, &w.net) {
                if let (Some(short), Some(layer)) = (c.copper, shared_layer(v, w, layer_count)) {
                    push_candidate(
                        board,
                        &a,
                        &b,
                        c,
                        false,
                        layer,
                        &short,
                        &mut rows,
                        &mut weights,
                        Ghost(cands),
                    );
                    proof {
                        cands = cands.push(candidate(*board, a, b, *c, false, layer, short));
                    }
                }
            }
        }
        proof {
            assert(cands =~= before + added);
        }
        k += 1;
    }
    let picked: Vec<usize> = arbitrate(&weights);
    let count: usize = weights.len();
    proof {
        assert(calls@.take(k as int) =~= calls@);
        assert forall|m: int| 0 <= m < picked@.len() implies (#[trigger] picked@[m])
            < rows@.len() by {
            assert(picked@.contains(picked@[m]));
        }
        if picked@.len() > 0 {
            assert(picked@[0] < rows@.len());
        }
        if cands.len() > 0 {
            let ranks = ranks_of(cands);
            assert(ranks.len() == count);
            crate::drc_rank::law_some_report(ranks, 0);
            let y = choose|y: int|
                crate::drc_rank::is_reported(ranks, y) && ranks[y].low == ranks[0].low
                    && ranks[y].high == ranks[0].high;
            assert(picked@.contains(y as usize));
        }
    }
    choose_rows(&rows, &picked, Ghost(entries_of(cands)))
}

/// What was measured of a via by itself.
#[derive(Clone, Copy, Debug, PartialEq)]
pub struct ViaCheck<N> {
    /// Where it is.
    pub place: Place<N>,
    /// How planes of other nets leave too little room for it, if they do.
    pub plane: Option<Shortfall<N>>,
    /// How there is too little copper around its hole, if there is.
    pub ring: Option<Shortfall<N>>,
}

/// The planes of other nets that a via goes through.
pub open spec fn planes_of<N>(board: DrcBoard<N>, via: Via<N>) -> Seq<u32> {
    match crate::drc::stack_span(via.from_layer, via.to_layer, board.layers@.len() as u32) {
        Some((lo, hi)) => crate::drc::foreign_planes(
            board.layers@,
            via.net@,
            lo as int,
            hi + 1,
        ),
        None => seq![],
    }
}

/// The net that a layer is poured with.
pub open spec fn plane_net(layer: LayerKind) -> Seq<char> {
    match layer {
        LayerKind::Signal => seq![],
        LayerKind::Plane { net } => net@,
    }
}

/// A via goes through these planes without room enough.
pub open spec fn crossings<N>(
    board: DrcBoard<N>,
    via: Via<N>,
    place: Place<N>,
    short: Shortfall<N>,
    planes: Seq<u32>,
) -> Seq<Entry<N>> {
    planes.map_values(
        |layer: u32|
            Entry {
                class: ViolationClass::ViaThroughPlane,
                layer,
                nets: (via.net@, plane_net(board.layers@[layer as int])),
                place,
                short,
            },
    )
}

/// What is wrong with a via and the planes that it goes through.
pub open spec fn plane_entries_of<N>(board: DrcBoard<N>, via: Via<N>, check: ViaCheck<N>) -> Seq<
    Entry<N>,
> {
    match check.plane {
        Some(short) => crossings(board, via, check.place, short, planes_of(board, via)),
        None => seq![],
    }
}

/// What is wrong with the first vias and the planes that they go through.
pub open spec fn plane_entries<N>(board: DrcBoard<N>, checks: Seq<ViaCheck<N>>, n: int) -> Seq<
    Entry<N>,
>
    decreases n,
{
    if n <= 0 {
        seq![]
    } else {
        plane_entries(board, checks, n - 1) + plane_entries_of(
            board,
            board.vias@[n - 1],
            checks[n - 1],
        )
    }
}

/// What is wrong with the copper around the hole of a via.
pub open spec fn ring_entries_of<N>(via: Via<N>, check: ViaCheck<N>) -> Seq<Entry<N>> {
    match check.ring {
        Some(short) => seq![
            Entry {
                class: ViolationClass::AnnularRing,
                layer: crate::drc::low(via.from_layer, via.to_layer),
                nets: (via.net@, seq![]),
                place: check.place,
                short,
            },
        ],
        None => seq![],
    }
}

/// What is wrong with the copper around the holes of the first vias.
pub open spec fn ring_entries<N>(board: DrcBoard<N>, checks: Seq<ViaCheck<N>>, n: int) -> Seq<
    Entry<N>,
>
    decreases n,
{
    if n <= 0 {
        seq![]
    } else {
        ring_entries(board, checks, n - 1) + ring_entries_of(board.vias@[n - 1], checks[n - 1])
    }
}

/// There is a check for each via of the board.
pub open spec fn checks_fit<N>(board: DrcBoard<N>, checks: Seq<ViaCheck<N>>) -> bool {
    &&& board.layers@.len() <= u32::MAX
    &&& checks.len() == board.vias@.len()
}

/// The layers of crossed planes are layers of the board, and poured.
proof fn lemma_planes_are_layers<N>(board: DrcBoard<N>, via: Via<N>, i: int)
    requires
        board.layers@.len() <= u32::MAX,
        0 <= i < planes_of(board, via).len(),
    ensures
        planes_of(board, via)[i] < board.layers@.len(),
        board.layers@[planes_of(board, via)[i] as int] is Plane,
{
    let k = planes_of(board, via)[i];
    assert(planes_of(board, via).contains(k));
    match crate::drc::stack_span(via.from_layer, via.to_layer, board.layers@.len() as u32) {
        Some((lo, hi)) => {
            crate::drc::law_crossed_planes(board.layers@, via.net@, lo as int, hi + 1, k);
        },
        None => {},
    }
}

/// Adds a row.
fn push_row<N>(
    rows: &mut Vec<Row<N>>,
    row: Row<N>,
    Ghost(entries): Ghost<Seq<Entry<N>>>,
    Ghost(new): Ghost<Entry<N>>,
)
    requires
        all_say(old(rows)@, entries),
        row.says(new),
    ensures
        all_say(final(rows)@, entries.push(new)),
{
    rows.push(row);
    assert forall|m: int| 0 <= m < rows@.len() implies (#[trigger] rows@[m]).says(
        entries.push(new)[m],
    ) by {
        if m < entries.len() {
            assert(old(rows)@[m].says(entries[m]));
        }
    }
}

/// The vias that go through planes of other nets without room enough.
pub fn plane_rows<N: Copy>(board: &DrcBoard<N>, checks: &Vec<ViaCheck<N>>) -> (r: Vec<Row<N>>)
    requires
        checks_fit(*board, checks@),
    ensures
        all_say(r@, plane_entries(*board, checks@, checks@.len() as int)),
{
    let mut rows: Vec<Row<N>> = Vec::new();
    let mut i: usize = 0;
    while i < checks.len()
        invariant
            i <= checks@.len(),
            checks_fit(*board, checks@),
            all_say(rows@, plane_entries(*board, checks@, i as int)),
        decreases checks@.len() - i,
    {
        let via: &Via<N> = &board.vias[i];
        let check: &ViaCheck<N> = &checks[i];
        let ghost before = plane_entries(*board, checks@, i as int);
        let ghost mut entries = before;
        if let Some(short) = check.plane {
            let planes: Vec<u32> = crossed_planes(board, via);
            assert(planes@ == planes_of(*board, *via));
            let ghost added = crossings(*board, *via, check.place, short, planes@);
            let mut k: usize = 0;
            assert(entries =~= before + added.take(0));
            while k < planes.len()
                invariant
                    k <= planes@.len(),
                    board.layers@.len() <= u32::MAX,
                    planes@ == planes_of(*board, *via),
                    added == crossings(*board, *via, check.place, short, planes@),
                    entries == before + added.take(k as int),
                    all_say(rows@, entries),
                decreases planes@.len() - k,
            {
                let layer: u32 = planes[k];
                proof {
                    lemma_planes_are_layers(*board, *via, k as int);
                }
                if let LayerKind::Plane { net } = &board.layers[layer as usize] {
                    let row: Row<N> = make_row(
                        ViolationClass::ViaThroughPlane,
                        layer,
                        (via.net.clone(), net.clone()),
                        &check.place,
                        &short,
                    );
                    push_row(&mut rows, row, Ghost(entries), Ghost(added[k as int]));
                    proof {
                        entries = entries.push(added[k as int]);
                        assert(entries =~= before + added.take(k + 1));
                    }
                }
                k += 1;
            }
            assert(added.take(k as int) =~= added);
        } else {
            assert(entries =~= before + plane_entries_of(*board, *via, *check));
        }
        i += 1;
    }
    rows
}

/// The vias with too little copper around their holes.
pub fn ring_rows<N: Copy>(board: &DrcBoard<N>, checks: &Vec<ViaCheck<N>>) -> (r: Vec<Row<N>>)
    requires
        checks_fit(*board, checks@),
    ensures
        all_say(r@, ring_entries(*board, checks@, checks@.len() as int)),
{
    let mut rows: Vec<Row<N>> = Vec::new();
    let mut i: usize = 0;
    while i < checks.len()
        invariant
            i <= checks@.len(),
            checks_fit(*board, checks@),
            all_say(rows@, ring_entries(*board, checks@, i as int)),
        decreases checks@.len() - i,
    {
        let via: &Via<N> = &board.vias[i];
        let check: &ViaCheck<N> = &checks[i];
        let ghost before = ring_entries(*board, checks@, i as int);
        let ghost added = ring_entries_of(*via, *check);
        if let Some(short) = check.ring {
            let row: Row<N> = make_row(
                ViolationClass::AnnularRing,
                top_layer(via, via),
                (via.net.clone(), String::new()),
                &check.place,
                &short,
            );
            push_row(&mut rows, row, Ghost(before), Ghost(added[0]));
            assert(before.push(added[0]) =~= before + added);
        } else {
            assert(before =~= before + added);
        }
        i += 1;
    }
    rows
}

/// The violations in the order of reports.
pub open spec fn in_report_order<N>(entries: Seq<Entry<N>>) -> Seq<Entry<N>> {
    let keys = entries.map_values(|e: Entry<N>| entry_key(e));
    chosen(entries, crate::sorting::order_of(keys))
}

/// What was measured on a board.
#[derive(Clone, Debug, PartialEq)]
pub struct Findings<N> {
    /// The pieces of copper that are too close.
    pub close: Vec<CloseCall<N>>,
    /// The vias of each hole, where there is a rule for holes.
    pub records: Vec<Record>,
    /// The vias that were compared.
    pub vias: Vec<ViaCall<N>>,
    /// What was measured of each via by itself.
    pub checks: Vec<ViaCheck<N>>,
}

/// The findings are on this board.
pub open spec fn findings_fit<N>(board: DrcBoard<N>, stamps: Seq<Stamp>, f: Findings<N>) -> bool {
    &&& crate::drc_pairs::are_pieces(board, stamps)
    &&& calls_fit(stamps, f.close@)
    &&& via_calls_fit(board, f.records@, f.vias@)
    &&& checks_fit(board, f.checks@)
}

/// Everything that is wrong with a board, before it is put in order.
pub open spec fn all_entries<N>(board: DrcBoard<N>, stamps: Seq<Stamp>, f: Findings<N>) -> Seq<
    Entry<N>,
> {
    close_entries(board, stamps, f.close@) + via_entries(board, f.records@, f.vias@)
        + plane_entries(board, f.checks@, f.checks@.len() as int) + ring_entries(
        board,
        f.checks@,
        f.checks@.len() as int,
    )
}

/// Both lists, one after the other.
fn join_rows<N: Copy>(
    rows: &mut Vec<Row<N>>,
    more: &Vec<Row<N>>,
    Ghost(entries): Ghost<Seq<Entry<N>>>,
    Ghost(added): Ghost<Seq<Entry<N>>>,
)
    requires
        all_say(old(rows)@, entries),
        all_say(more@, added),
    ensures
        all_say(final(rows)@, entries + added),
{
    let mut i: usize = 0;
    assert(entries + added.take(0) =~= entries);
    while i < more.len()
        invariant
            i <= more@.len(),
            all_say(more@, added),
            all_say(rows@, entries + added.take(i as int)),
        decreases more@.len() - i,
    {
        assert(more@[i as int].says(added[i as int]));
        push_row(
            rows,
            copy_row(&more[i]),
            Ghost(entries + added.take(i as int)),
            Ghost(added[i as int]),
        );
        i += 1;
        assert((entries + added.take(i - 1)).push(added[i - 1]) =~= entries + added.take(i as int));
    }
    assert(added.take(i as int) =~= added);
}

/// The violations are what the entries say.
pub open spec fn all_tell<N>(rows: Seq<Violation<N>>, entries: Seq<Entry<N>>) -> bool {
    &&& rows.len() == entries.len()
    &&& forall|i: int| 0 <= i < rows.len() ==> tells(#[trigger] rows[i], entries[i])
}

/// Nothing that was measured breaks a rule.
pub open spec fn nothing_found<N>(board: DrcBoard<N>, f: Findings<N>) -> bool {
    &&& f.close@.len() == 0
    &&& all_candidates(board, f.records@, f.vias@).len() == 0
    &&& plane_entries(board, f.checks@, f.checks@.len() as int).len() == 0
    &&& ring_entries(board, f.checks@, f.checks@.len() as int).len() == 0
}

/// The report on a board: everything that is wrong with it, in the order of reports.
pub fn report<N: Copy>(board: &DrcBoard<N>, stamps: &Vec<Stamp>, found: &Findings<N>) -> (r: Vec<
    Violation<N>,
>)
    requires
        findings_fit(*board, stamps@, *found),
    ensures
        all_tell(r@, in_report_order(all_entries(*board, stamps@, *found))),
        r@.len() == 0 <==> nothing_found(*board, *found),
{
    let ghost close = close_entries(*board, stamps@, found.close@);
    let ghost vias = via_entries(*board, found.records@, found.vias@);
    let ghost n = found.checks@.len() as int;
    let ghost planes = plane_entries(*board, found.checks@, n);
    let ghost rings = ring_entries(*board, found.checks@, n);
    let mut rows: Vec<Row<N>> = clearance_rows(board, stamps, &found.close);
    let more: Vec<Row<N>> = via_rows(board, &found.records, &found.vias);
    join_rows(&mut rows, &more, Ghost(close), Ghost(vias));
    let more: Vec<Row<N>> = plane_rows(board, &found.checks);
    join_rows(&mut rows, &more, Ghost(close + vias), Ghost(planes));
    let more: Vec<Row<N>> = ring_rows(board, &found.checks);
    join_rows(&mut rows, &more, Ghost(close + vias + planes), Ghost(rings));
    let ghost entries = all_entries(*board, stamps@, *found);
    let mut violations: Vec<Violation<N>> = Vec::new();
    let mut numbers: Vec<RowNumbers> = Vec::new();
    let mut i: usize = 0;
    while i < rows.len()
        invariant
            i <= rows@.len(),
            all_say(rows@, entries),
            violations@.len() == i,
            numbers@.len() == i,
            forall|j: int|
                0 <= j < i ==> crate::drc_rank::row_key(#[trigger] violations@[j], numbers@[j])
                    == entry_key(entries[j]),
        decreases rows@.len() - i,
    {
        assert(rows@[i as int].says(entries[i as int]));
        let row: Row<N> = copy_row(&rows[i]);
        assert(row.says(entries[i as int]));
        proof {
            assert(crate::drc_rank::row_key(row.violation, row.numbers) =~= entry_key(
                entries[i as int],
            ));
        }
        violations.push(row.violation);
        numbers.push(row.numbers);
        i += 1;
    }
    let order: Vec<usize> = sort_violations(&violations, &numbers);
    proof {
        assert(crate::drc_rank::row_keys(violations@, numbers@) =~= entries.map_values(
            |e: Entry<N>| entry_key(e),
        ));
        assert forall|m: int| 0 <= m < order@.len() implies (#[trigger] order@[m])
            < rows@.len() by {
            assert(order@.contains(order@[m]));
        }
    }
    let sorted: Vec<Row<N>> = choose_rows(&rows, &order, Ghost(entries));
    let ghost last = in_report_order(entries);
    let mut r: Vec<Violation<N>> = Vec::new();
    let mut i: usize = 0;
    while i < sorted.len()
        invariant
            i <= sorted@.len(),
            all_say(sorted@, last),
            r@.len() == i,
            forall|j: int| 0 <= j < i ==> tells(#[trigger] r@[j], last[j]),
        decreases sorted@.len() - i,
    {
        assert(sorted@[i as int].says(last[i as int]));
        let row: Row<N> = copy_row(&sorted[i]);
        assert(row.says(last[i as int]));
        r.push(row.violation);
        i += 1;
    }
    r
}

} // verus!
