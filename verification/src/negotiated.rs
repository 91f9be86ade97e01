//! The router for whole boards.
use vstd::prelude::*;

use crate::board::{CellIdx, Dims};
use crate::cells::{contains_cell, copy_cells};
use crate::geometry::{copy_line, GeoView, Geometry, GridLines, Reach, ReachView};
use crate::grid::Grid;
use crate::groups::{connection_group_ids, count_groups, has_named_subnet_group};
use crate::halo::Committed;
use crate::negotiate::PARALLEL_NEGOTIATION_THRESHOLD;
use crate::net::{
    assemble, BoardRoute, BoardView, FaultView, Found, NetEndpoints, RouterError,
};
use crate::provider::{accept_batch, ask_provider, net_pad_lists_are_valid, IsolatedRouteProvider};
use crate::router::Router;
use crate::scoring::grid_path_cost;
use crate::task::{Problem, Task};
use crate::trace::{LegalizationTrace, RouteTrace, TracedNet};
use crate::variant::{route_alone, route_variant, VariantOutcome};
use crate::via::ViaModel;

verus! {

/// From how many nets on a board is routed a second time.
pub const PORTFOLIO_MIN_NETS: usize = 17;

/// Up to how many nets a board is routed a second time.
pub const PORTFOLIO_MAX_NETS: usize = 179;

/// Up to how many cells a board is routed a second time.
pub const PORTFOLIO_CELL_CAP: usize = 250_000;

/// A router that lets nets negotiate about cells, and then commits them so that no two
/// connection groups share one.
///
/// Without a via model every layer can be reached from the next. Without lines the grid
/// lines are evenly spaced, one unit apart. Nets keep the clearance apart, and vias keep
/// off as many units as their model says, or the given keepout where that is wider; both
/// are measured over the lines.
#[derive(Clone, Debug)]
pub struct NegotiatedRouter {
    /// Where vias may be drilled.
    pub via_model: Option<ViaModel>,
    /// Where the grid lines are.
    pub lines: Option<GridLines>,
    /// How far nets keep apart.
    pub clearance: Clearance,
    /// The lines that a via keeps off, where that is no whole number of units.
    pub keepout: Option<Reach>,
}

/// How far nets keep apart.
#[derive(Clone, Debug, PartialEq, Eq)]
pub enum Clearance {
    /// This many units, measured over the grid lines.
    Units(u32),
    /// The lines within the clearance of each line.
    Within(Reach),
}

impl Clearance {
    /// The lines within the clearance of each line.
    pub open spec fn reach(self, dims: Dims, lines: Option<GridLines>) -> ReachView {
        match self {
            Clearance::Units(n) => ReachView::over(dims, lines, n),
            Clearance::Within(r) => r@,
        }
    }

    /// Nets keep any distance at all.
    pub open spec fn keeps(self) -> bool {
        match self {
            Clearance::Units(n) => n > 0,
            Clearance::Within(r) => r@.reaches(),
        }
    }
}

/// Which way nets negotiate.
#[derive(Clone, Copy, Debug, PartialEq, Eq, Structural)]
pub enum NegotiationMode {
    /// All at once where there are many, else one after another.
    Adaptive,
    /// One after another.
    ForceSerial,
}

/// What routing a board came to, and which nets could be routed alone.
#[derive(Clone, Debug, PartialEq, Eq)]
pub struct NegotiatedOutcome {
    /// The board.
    pub board: BoardRoute,
    /// Whether each net can be routed if it is alone.
    pub alone_routable: Vec<bool>,
}

/// A [`NegotiatedOutcome`] as plain values.
#[verifier::ext_equal]
pub struct OutcomeView {
    /// The board.
    pub board: BoardView,
    /// Whether each net can be routed if it is alone.
    pub alone_routable: Seq<bool>,
}

impl View for NegotiatedOutcome {
    type V = OutcomeView;

    open spec fn view(&self) -> OutcomeView {
        OutcomeView { board: self.board@, alone_routable: self.alone_routable@ }
    }
}

/// What routing came to, as plain values.
pub open spec fn result_view(r: Result<NegotiatedOutcome, RouterError>) -> Result<
    OutcomeView,
    FaultView,
> {
    match r {
        Ok(o) => Ok(o@),
        Err(e) => Err(e@),
    }
}

/// What routing with a trace came to, as plain values.
pub open spec fn traced_view(r: Result<(BoardRoute, RouteTrace), RouterError>) -> Result<
    BoardView,
    FaultView,
> {
    match r {
        Ok((b, _)) => Ok(b@),
        Err(e) => Err(e@),
    }
}

/// The board of an outcome.
pub open spec fn board_part(r: Result<OutcomeView, FaultView>) -> Result<BoardView, FaultView> {
    match r {
        Ok(o) => Ok(o.board),
        Err(e) => Err(e),
    }
}

/// The first net that is not in order, if there is one.
pub open spec fn first_unfit(grid: &Grid, nets: Seq<NetEndpoints>) -> Option<Seq<char>>
    decreases nets.len(),
{
    if nets.len() == 0 {
        None
    } else {
        match first_unfit(grid, nets.drop_last()) {
            Some(name) => Some(name),
            None => if crate::task::net_fits(grid, &nets.last()) {
                None
            } else {
                Some(nets.last().net@)
            },
        }
    }
}

/// The committed paths with what they cost.
pub open spec fn priced(t: Task, committed: Seq<Option<Seq<CellIdx>>>) -> Seq<
    Option<(Seq<CellIdx>, nat)>,
> {
    Seq::new(
        committed.len(),
        |i: int|
            match committed[i] {
                Some(p) => Some((p, crate::scoring::path_cost(&t.grid, &t.nets[i], p) as nat)),
                None => None,
            },
    )
}

/// The groups of the first `k` nets, as far as they are committed.
pub open spec fn routed_groups(
    groups: Seq<usize>,
    committed: Seq<Option<Seq<CellIdx>>>,
    k: nat,
) -> Seq<u32>
    decreases k,
{
    if k == 0 {
        Seq::empty()
    } else {
        let rest = routed_groups(groups, committed, (k - 1) as nat);
        if committed[k - 1] is Some {
            rest.push(groups[k - 1] as u32)
        } else {
            rest
        }
    }
}

/// The outcome of committed paths.
pub open spec fn outcome_of(
    t: Task,
    groups: Seq<usize>,
    alone: Seq<Seq<CellIdx>>,
    committed: Seq<Option<Seq<CellIdx>>>,
) -> OutcomeView {
    OutcomeView {
        board: BoardView {
            groups: routed_groups(groups, committed, committed.len()),
            ..crate::net::board_of(t.dims(), t.nets, priced(t, committed))
        },
        alone_routable: Seq::new(alone.len(), |i: int| alone[i].len() > 0),
    }
}

/// A board of this size is routed a second time, net after net.
pub open spec fn is_in_portfolio(cells: int, nets: nat, namesakes: bool) -> bool {
    PORTFOLIO_MIN_NETS <= nets <= PORTFOLIO_MAX_NETS && namesakes && cells <= PORTFOLIO_CELL_CAP
}

/// The second board is better: it has more nets, or as many at a lower cost.
pub open spec fn beats(primary: BoardView, serial: BoardView) -> bool {
    let a = crate::scoring::sat64(crate::net::cost_sum(primary.results));
    let b = crate::scoring::sat64(crate::net::cost_sum(serial.results));
    serial.results.len() > primary.results.len() || serial.results.len() == primary.results.len()
        && b < a
}

/// The first variant moves all nets at once where there are many.
pub open spec fn is_parallel(t: Task) -> bool {
    t.nets.len() > PARALLEL_NEGOTIATION_THRESHOLD
}

/// The outcome of a variant.
pub open spec fn variant_outcome(t: Task, alone: Seq<Seq<CellIdx>>, parallel: bool) -> OutcomeView {
    let groups = crate::groups::groups_of(t.nets);
    outcome_of(t, groups, alone, crate::variant::variant(t, groups, alone, parallel))
}

/// The variant that is kept is the one that moves net after net.
pub open spec fn keeps_serial(t: Task, alone: Seq<Seq<CellIdx>>) -> bool {
    is_in_portfolio(t.dims().cells(), t.nets.len(), crate::groups::has_namesakes(t.nets)) && beats(
        variant_outcome(t, alone, is_parallel(t)).board,
        variant_outcome(t, alone, false).board,
    )
}

/// The outcome of a board whose lone routes are given.
pub open spec fn portfolio(t: Task, alone: Seq<Seq<CellIdx>>) -> OutcomeView {
    variant_outcome(t, alone, is_parallel(t) && !keeps_serial(t, alone))
}

/// The trace shows how a board was routed.
pub open spec fn shows_route(
    trace: RouteTrace,
    t: Task,
    alone: Seq<Seq<CellIdx>>,
    parallel: bool,
) -> bool {
    let groups = crate::groups::groups_of(t.nets);
    let paths = crate::negotiate::negotiated_paths(t, groups, parallel);
    let orders = crate::orders::candidates(crate::variant::group_keys(t, groups, alone));
    let scores = crate::variant::scores_of(t, groups, paths, orders);
    let states = crate::negotiate::rounds(
        t,
        groups,
        parallel,
        crate::negotiate::nego_start(t),
        0,
    );
    &&& trace.dims == t.dims()
    &&& trace.n_groups == crate::groups::group_count(groups)
    &&& trace.nets@.len() == t.nets.len()
    &&& forall|i: int|
        0 <= i < t.nets.len() ==> shows_net(#[trigger] trace.nets@[i], t.nets[i], groups[i], alone[i])
    &&& trace.iterations@.len() == states.len()
    &&& forall|k: int|
        0 <= k < states.len() ==> crate::negotiate::shows(
            #[trigger] trace.iterations@[k],
            states[k],
            k,
        )
    &&& trace.legalization matches Some(l) && {
        &&& l.chosen_order@ == crate::variant::best_order(t, groups, alone, parallel)
        &&& l.candidates@.len() == scores.len()
        &&& forall|x: int|
            0 <= x < scores.len() ==> crate::variant::shows_score(
                #[trigger] l.candidates@[x],
                scores[x],
            )
        &&& crate::halo::committed_view(l.committed@) == crate::variant::variant(
            t,
            groups,
            alone,
            parallel,
        )
    }
}

/// The entry shows a net.
pub open spec fn shows_net(
    e: TracedNet,
    net: NetEndpoints,
    group: usize,
    alone: Seq<CellIdx>,
) -> bool {
    &&& e.net@ == net.net@
    &&& e.src == net.src
    &&& e.dst == net.dst
    &&& e.group == group as u32
    &&& e.alone_path@ == alone
}

/// Whether a net's lists and ends are in order.
fn is_net_fit(grid: &Grid, net: &NetEndpoints) -> (b: bool)
    requires
        grid.well_formed(),
    ensures
        b == crate::task::net_fits(grid, net),
{
    if !net_pad_lists_are_valid(grid.dims, net) {
        return false;
    }
    if !grid.dims.contains(net.src) || !grid.dims.contains(net.dst) {
        return false;
    }
    if grid.is_obstacle(net.src) && !contains_cell(&net.passable_pads, net.src) {
        return false;
    }
    if grid.is_obstacle(net.dst) && !contains_cell(&net.passable_pads, net.dst) {
        return false;
    }
    true
}

/// Refuses a malformed grid, or the first net that is not in order.
fn check_input(grid: &Grid, nets: &[NetEndpoints]) -> (r: Result<(), RouterError>)
    ensures
        r matches Ok(_) ==> grid.well_formed() && first_unfit(grid, nets@) is None && forall|i: int|
            0 <= i < nets@.len() ==> crate::task::net_fits(grid, &#[trigger] nets@[i]),
        r matches Err(e) ==> e@ == if !grid.well_formed() {
            FaultView::MalformedGrid
        } else {
            FaultView::InvalidEndpoint(first_unfit(grid, nets@)->0)
        },
        r is Err ==> !grid.well_formed() || first_unfit(grid, nets@) is Some,
{
    if !grid.is_well_formed() {
        return Err(RouterError::MalformedGrid);
    }
    let mut i: usize = 0;
    assert(nets@.take(0) =~= Seq::<NetEndpoints>::empty());
    while i < nets.len()
        invariant
            grid.well_formed(),
            i <= nets@.len(),
            first_unfit(grid, nets@.take(i as int)) is None,
            forall|j: int| 0 <= j < i ==> crate::task::net_fits(grid, &#[trigger] nets@[j]),
        decreases nets@.len() - i,
    {
        proof {
            assert(nets@.take(i + 1).drop_last() =~= nets@.take(i as int));
            assert(nets@.take(i + 1).last() == nets@[i as int]);
        }
        if !is_net_fit(grid, &nets[i]) {
            let net = nets[i].net.clone();
            proof {
                lemma_unfit_stays(grid, nets@, (i + 1) as nat);
            }
            return Err(RouterError::InvalidEndpoint { net });
        }
        i += 1;
    }
    assert(nets@.take(nets@.len() as int) =~= nets@);
    Ok(())
}

/// The first net that is not in order stays the first, whatever comes after it.
proof fn lemma_unfit_stays(grid: &Grid, nets: Seq<NetEndpoints>, k: nat)
    requires
        k <= nets.len(),
        first_unfit(grid, nets.take(k as int)) is Some,
    ensures
        first_unfit(grid, nets) == first_unfit(grid, nets.take(k as int)),
    decreases nets.len() - k,
{
    if k == nets.len() {
        assert(nets.take(k as int) =~= nets);
    } else {
        assert(nets.take((k + 1) as int).drop_last() =~= nets.take(k as int));
        lemma_unfit_stays(grid, nets, k + 1);
    }
}

/// A net that is not in order is one of those given.
proof fn lemma_unfit_is_given(grid: &Grid, nets: Seq<NetEndpoints>)
    requires
        first_unfit(grid, nets) is Some,
    ensures
        exists|i: int| 0 <= i < nets.len() && Some(#[trigger] nets[i].net@) == first_unfit(grid, nets),
    decreases nets.len(),
{
    let d = nets.drop_last();
    if first_unfit(grid, d) is Some {
        lemma_unfit_is_given(grid, d);
        let i = choose|i: int|
            0 <= i < d.len() && Some(#[trigger] d[i].net@) == first_unfit(grid, d);
        assert(nets[i].net@ == d[i].net@);
    } else {
        assert(nets[nets.len() - 1].net@ == nets.last().net@);
    }
}

/// Whether a board of this size is routed a second time.
pub fn should_try_serial_candidate(
    dims: Dims,
    n_nets: usize,
    has_named_group: bool,
    primary: &BoardRoute,
) -> (b: bool)
    requires
        dims.indexable(),
        primary.results@.len() <= n_nets,
    ensures
        b == is_in_portfolio(dims.cells(), n_nets as nat, has_named_group),
{
    PORTFOLIO_MIN_NETS <= n_nets && n_nets <= PORTFOLIO_MAX_NETS && has_named_group && dims.len()
        <= PORTFOLIO_CELL_CAP
}

/// Whether the second board is better: it has more nets, or as many at a lower cost.
pub fn serial_candidate_is_better(primary: &BoardRoute, serial: &BoardRoute) -> (b: bool)
    ensures
        b == beats(primary@, serial@),
{
    serial.results.len() > primary.results.len() || serial.results.len() == primary.results.len()
        && serial.total_cost() < primary.total_cost()
}

/// The outcome of committed paths.
fn make_outcome(
    p: &Problem,
    groups: &Vec<usize>,
    alone: &Vec<Vec<CellIdx>>,
    committed: &Committed,
) -> (o: NegotiatedOutcome)
    requires
        p.wf(),
        groups@.len() == p.nets@.len(),
        crate::commit::leading(p.task(), crate::halo::committed_view(committed@)),
    ensures
        o@ == outcome_of(
            p.task(),
            groups@,
            crate::negotiate::paths_view(alone@),
            crate::halo::committed_view(committed@),
        ),
{
    let ghost t = p.task();
    let ghost cv = crate::halo::committed_view(committed@);
    let ghost av = crate::negotiate::paths_view(alone@);
    let n: usize = p.nets.len();
    let mut outs: Vec<Found> = Vec::new();
    let mut ids: Vec<u32> = Vec::new();
    let mut i: usize = 0;
    proof {
        crate::rescue::lemma_committed_on_board(t, committed@);
    }
    while i < n
        invariant
            p.wf(),
            t == p.task(),
            n == p.nets@.len(),
            groups@.len() == n,
            committed@.len() == n,
            cv == crate::halo::committed_view(committed@),
            forall|j: int|
                0 <= j < n ==> (#[trigger] committed@[j] matches Some(q) ==> crate::halo::on_board(
                    t.grid.dims,
                    q@,
                )),
            i <= n,
            outs@.len() == i,
            forall|j: int|
                0 <= j < i ==> crate::search::path_view(#[trigger] outs@[j]) == priced(t, cv)[j],
            forall|j: int|
                0 <= j < i ==> (#[trigger] outs@[j] matches Some((q, _)) ==> forall|k: int|
                    0 <= k < q@.len() ==> t.dims().has(#[trigger] q@[k])),
            ids@ == routed_groups(groups@, cv, i as nat),
        decreases n - i,
    {
        match &committed[i] {
            Some(path) => {
                assert(committed@[i as int] == Some(*path));
                assert(cv[i as int] == Some(path@));
                let cost = grid_path_cost(p.grid, &p.nets[i], path);
                outs.push(Some((copy_cells(path), cost)));
                ids.push(groups[i] as u32);
            },
            None => {
                assert(cv[i as int] is None);
                outs.push(None);
            },
        }
        i += 1;
    }
    assert(crate::net::found_view(outs@) =~= priced(t, cv));
    let mut board = assemble(p.grid.dims, p.nets, &outs);
    let ghost plain = board@;
    board.groups = ids;
    let mut alone_routable: Vec<bool> = Vec::new();
    let mut k: usize = 0;
    while k < alone.len()
        invariant
            k <= alone@.len(),
            alone_routable@.len() == k,
            forall|j: int| 0 <= j < k ==> #[trigger] alone_routable@[j] == (alone@[j]@.len() > 0),
        decreases alone@.len() - k,
    {
        alone_routable.push(alone[k].len() > 0);
        k += 1;
    }
    let o = NegotiatedOutcome { board, alone_routable };
    proof {
        let e = outcome_of(t, groups@, av, cv);
        assert(o@.board.results =~= plain.results);
        assert(o@.board.unrouted =~= plain.unrouted);
        assert(o@.board =~= e.board);
        assert(o@.alone_routable =~= e.alone_routable);
        assert(o@ =~= e);
    }
    o
}

/// A trace that shows nothing yet.
pub fn empty_route_trace(dims: Dims) -> (t: RouteTrace)
    ensures
        t.dims == dims,
        t.nets@.len() == 0,
        t.n_groups == 0,
        t.iterations@.len() == 0,
        t.legalization is None,
{
    RouteTrace {
        dims,
        nets: Vec::new(),
        n_groups: 0,
        iterations: Vec::new(),
        legalization: None,
    }
}

/// A trace of how a board was routed.
fn make_trace(
    p: &Problem,
    groups: &Vec<usize>,
    alone: &Vec<Vec<CellIdx>>,
    Ghost(parallel): Ghost<bool>,
    v: VariantOutcome,
) -> (trace: RouteTrace)
    requires
        p.wf(),
        groups@ == crate::groups::groups_of(p.nets@),
        crate::variant::groups_fit(p.task(), groups@),
        alone@.len() == p.nets@.len(),
        ({
            let t = p.task();
            let av = crate::negotiate::paths_view(alone@);
            let pv = crate::negotiate::negotiated_paths(t, groups@, parallel);
            let orders = crate::orders::candidates(crate::variant::group_keys(t, groups@, av));
            let scores = crate::variant::scores_of(t, groups@, pv, orders);
            let states = crate::negotiate::rounds(
                t,
                groups@,
                parallel,
                crate::negotiate::nego_start(t),
                0,
            );
            &&& crate::halo::committed_view(v.committed@) == crate::variant::variant(
                t,
                groups@,
                av,
                parallel,
            )
            &&& v.order@ == crate::variant::best_order(t, groups@, av, parallel)
            &&& v.snapshots@.len() == states.len()
            &&& forall|k: int|
                0 <= k < states.len() ==> crate::negotiate::shows(
                    #[trigger] v.snapshots@[k],
                    states[k],
                    k,
                )
            &&& v.evals@.len() == scores.len()
            &&& forall|x: int|
                0 <= x < scores.len() ==> crate::variant::shows_score(
                    #[trigger] v.evals@[x],
                    scores[x],
                )
        }),
    ensures
        shows_route(trace, p.task(), crate::negotiate::paths_view(alone@), parallel),
{
    let ghost av = crate::negotiate::paths_view(alone@);
    let mut nets: Vec<TracedNet> = Vec::new();
    let mut i: usize = 0;
    while i < p.nets.len()
        invariant
            i <= p.nets@.len(),
            groups@.len() == p.nets@.len(),
            alone@.len() == p.nets@.len(),
            av == crate::negotiate::paths_view(alone@),
            nets@.len() == i,
            forall|j: int|
                0 <= j < i ==> shows_net(#[trigger] nets@[j], p.nets@[j], groups@[j], av[j]),
        decreases p.nets@.len() - i,
    {
        let net = &p.nets[i];
        nets.push(
            TracedNet {
                net: net.net.clone(),
                src: net.src,
                dst: net.dst,
                group: groups[i] as u32,
                alone_path: copy_cells(&alone[i]),
            },
        );
        i += 1;
    }
    proof {
        crate::groups::lemma_next_id(groups@, groups@.len());
    }
    let n_groups: usize = count_groups(groups);
    RouteTrace {
        dims: p.grid.dims,
        nets,
        n_groups,
        iterations: v.snapshots,
        legalization: Some(
            LegalizationTrace {
                chosen_order: v.order,
                candidates: v.evals,
                committed: v.committed,
            },
        ),
    }
}

/// Routes a board whose lone routes are given.
fn route_portfolio(p: &Problem, alone: &Vec<Vec<CellIdx>>, record: bool) -> (r: (
    NegotiatedOutcome,
    RouteTrace,
))
    requires
        p.wf(),
        alone@.len() == p.nets@.len(),
        forall|i: int|
            0 <= i < alone@.len() ==> crate::halo::on_board(
                p.task().dims(),
                (#[trigger] alone@[i])@,
            ),
    ensures
        r.0@ == portfolio(p.task(), crate::negotiate::paths_view(alone@)),
        record ==> shows_route(
            r.1,
            p.task(),
            crate::negotiate::paths_view(alone@),
            is_parallel(p.task()) && !keeps_serial(
                p.task(),
                crate::negotiate::paths_view(alone@),
            ),
        ),
{
    let ghost t = p.task();
    let ghost av = crate::negotiate::paths_view(alone@);
    let groups = connection_group_ids(p.nets);
    let named = has_named_subnet_group(p.nets);
    let n: usize = p.nets.len();
    let parallel = n > PARALLEL_NEGOTIATION_THRESHOLD;
    proof {
        crate::groups::lemma_dense_bound(groups@, groups@.len());
    }
    let first = route_variant(p, &groups, alone, parallel, record);
    let primary = make_outcome(p, &groups, alone, &first.committed);
    proof {
        let committed = crate::halo::committed_view(first.committed@);
        crate::net::law_every_net_counted(p.nets@, priced(t, committed));
        assert(primary@.board.results.len() == primary.board.results@.len());
    }
    if should_try_serial_candidate(p.grid.dims, n, named, &primary.board) {
        let second = route_variant(p, &groups, alone, false, record);
        let serial = make_outcome(p, &groups, alone, &second.committed);
        if serial_candidate_is_better(&primary.board, &serial.board) {
            let trace = if record {
                make_trace(p, &groups, alone, Ghost(false), second)
            } else {
                empty_route_trace(p.grid.dims)
            };
            return (serial, trace);
        }
    }
    let trace = if record {
        make_trace(p, &groups, alone, Ghost(parallel), first)
    } else {
        empty_route_trace(p.grid.dims)
    };
    (primary, trace)
}

/// What a provider gave, as plain values.
pub open spec fn batch_of(batch: Result<Vec<Option<Vec<CellIdx>>>, RouterError>) -> Option<
    Seq<Option<Seq<CellIdx>>>,
> {
    match batch {
        Ok(b) => Some(crate::provider::batch_view(b@)),
        Err(_) => None,
    }
}

/// The lone routes: those that are given, if all of them can be used, else the router's
/// own.
pub open spec fn lone(t: Task, batch: Option<Seq<Option<Seq<CellIdx>>>>) -> Seq<Seq<CellIdx>> {
    match batch {
        Some(b) => if crate::provider::batch_is_valid(&t.grid, t.nets, &t.via, b) {
            crate::provider::batch_paths(b)
        } else {
            crate::variant::alone_paths(t)
        },
        None => crate::variant::alone_paths(t),
    }
}

/// Takes the lone routes that are given, if all of them can be used, else finds them.
fn lone_routes_of(
    p: &Problem,
    batch: &Result<Vec<Option<Vec<CellIdx>>>, RouterError>,
) -> (alone: Vec<Vec<CellIdx>>)
    requires
        p.wf(),
    ensures
        crate::negotiate::paths_view(alone@) == lone(p.task(), batch_of(*batch)),
        alone@.len() == p.nets@.len(),
        forall|i: int|
            0 <= i < alone@.len() ==> crate::halo::on_board(
                p.task().dims(),
                (#[trigger] alone@[i])@,
            ),
{
    match accept_batch(p.grid, p.nets, p.via, batch) {
        Some(paths) => {
            proof {
                assert(crate::negotiate::paths_view(paths@).len() == paths@.len());
            }
            paths
        },
        None => route_alone(p),
    }
}

impl NegotiatedRouter {
    /// Where vias may be drilled.
    pub open spec fn via_of(&self, dims: Dims) -> ViaModel {
        match self.via_model {
            Some(v) => v,
            None => ViaModel {
                layers: dims.layers,
                step_cost: ViaModel::DEFAULT_STEP_COST,
                allowed: None,
                keepout_cells: 0,
            },
        }
    }

    /// The lines that a via keeps off, as far as it is given.
    pub open spec fn keepout_of(&self) -> ReachView {
        match self.keepout {
            Some(r) => r@,
            None => ReachView::nothing(),
        }
    }

    /// The spacing of the grid lines.
    pub open spec fn geo_of(&self, dims: Dims) -> GeoView {
        let clearance = self.clearance.reach(dims, self.lines);
        let own = ReachView::over(dims, self.lines, self.via_of(dims).keepout_cells);
        GeoView {
            x_gaps: match self.lines {
                Some(l) => l.x_gaps@,
                None => Seq::empty(),
            },
            y_gaps: match self.lines {
                Some(l) => l.y_gaps@,
                None => Seq::empty(),
            },
            clearance,
            keepout: clearance.wider(own.wider(self.keepout_of())),
            spaced: self.clearance.keeps() || self.via_of(dims).keepout_cells > 0
                || self.keepout_of().reaches(),
        }
    }

    /// What is to be routed.
    pub open spec fn task_of(&self, grid: &Grid, nets: Seq<NetEndpoints>) -> Task {
        Task { grid: *grid, nets, via: self.via_of(grid.dims), geo: self.geo_of(grid.dims) }
    }

    /// What routing comes to, with the lone routes that are given.
    ///
    /// A malformed grid is refused, and so is the first net that is not in order.
    pub open spec fn answer(
        &self,
        grid: &Grid,
        nets: Seq<NetEndpoints>,
        batch: Option<Seq<Option<Seq<CellIdx>>>>,
    ) -> Result<OutcomeView, FaultView> {
        if !grid.well_formed() {
            Err(FaultView::MalformedGrid)
        } else {
            match first_unfit(grid, nets) {
                Some(name) => Err(FaultView::InvalidEndpoint(name)),
                None => {
                    let t = self.task_of(grid, nets);
                    Ok(portfolio(t, lone(t, batch)))
                },
            }
        }
    }

    /// The trace shows how a board was routed, with the lone routes that are given.
    pub open spec fn explains(
        &self,
        grid: &Grid,
        nets: Seq<NetEndpoints>,
        batch: Option<Seq<Option<Seq<CellIdx>>>>,
        trace: RouteTrace,
    ) -> bool {
        let t = self.task_of(grid, nets);
        let alone = lone(t, batch);
        shows_route(trace, t, alone, is_parallel(t) && !keeps_serial(t, alone))
    }

    /// A router for evenly spaced lines, without clearance.
    pub fn new() -> (r: NegotiatedRouter)
        ensures
            r == (NegotiatedRouter {
                via_model: None,
                lines: None,
                clearance: Clearance::Units(0),
                keepout: None,
            }),
    {
        NegotiatedRouter {
            via_model: None,
            lines: None,
            clearance: Clearance::Units(0),
            keepout: None,
        }
    }

    /// The router with the given via model.
    pub fn with_via_model(self, vm: ViaModel) -> (r: NegotiatedRouter)
        ensures
            r == (NegotiatedRouter { via_model: Some(vm), ..self }),
    {
        NegotiatedRouter { via_model: Some(vm), ..self }
    }

    /// The router with the given grid lines.
    pub fn with_coords(self, lines: GridLines) -> (r: NegotiatedRouter)
        ensures
            r == (NegotiatedRouter { lines: Some(lines), ..self }),
    {
        NegotiatedRouter { lines: Some(lines), ..self }
    }

    /// The router with the given lines within the clearance of each line.
    pub fn with_clearance_mm(self, reach: Reach) -> (r: NegotiatedRouter)
        ensures
            r == (NegotiatedRouter { clearance: Clearance::Within(reach), ..self }),
    {
        NegotiatedRouter { clearance: Clearance::Within(reach), ..self }
    }

    /// The router with a clearance of `n` units, measured over its grid lines.
    pub fn with_clearance_cells(self, n: u32) -> (r: NegotiatedRouter)
        ensures
            r == (NegotiatedRouter { clearance: Clearance::Units(n), ..self }),
    {
        NegotiatedRouter { clearance: Clearance::Units(n), ..self }
    }

    /// The router with vias that keep the given lines off.
    pub fn with_keepout(self, reach: Reach) -> (r: NegotiatedRouter)
        ensures
            r == (NegotiatedRouter { keepout: Some(reach), ..self }),
    {
        NegotiatedRouter { keepout: Some(reach), ..self }
    }

    /// The spacing of the grid lines, for vias that keep `keep` units off.
    fn spacing(&self, dims: Dims, keep: u32) -> (g: Geometry)
        requires
            keep == self.via_of(dims).keepout_cells,
        ensures
            g@ == self.geo_of(dims),
    {
        let clearance: Reach = match &self.clearance {
            Clearance::Units(n) => Reach::over(dims, &self.lines, *n),
            Clearance::Within(r) => r.copy(),
        };
        let keeps: bool = match &self.clearance {
            Clearance::Units(n) => *n > 0,
            Clearance::Within(r) => r.reaches(),
        };
        let given: Reach = match &self.keepout {
            Some(r) => r.copy(),
            None => Reach::none(),
        };
        let keepout = clearance.wider(&Reach::over(dims, &self.lines, keep).wider(&given));
        let spaced: bool = keeps || keep > 0 || given.reaches();
        let (x_gaps, y_gaps) = match &self.lines {
            Some(l) => (copy_line(&l.x_gaps), copy_line(&l.y_gaps)),
            None => (Vec::new(), Vec::new()),
        };
        let g = Geometry { x_gaps, y_gaps, clearance, keepout, spaced };
        assert(g@ =~= self.geo_of(dims));
        g
    }

    /// Routes a board with the lone routes that are given, if all of them can be used.
    fn route_impl(
        &self,
        grid: &Grid,
        nets: &[NetEndpoints],
        batch: &Result<Vec<Option<Vec<CellIdx>>>, RouterError>,
        record: bool,
    ) -> (r: Result<(NegotiatedOutcome, RouteTrace), RouterError>)
        ensures
            match r {
                Ok((o, trace)) => {
                    &&& self.answer(grid, nets@, batch_of(*batch)) == Ok::<
                        OutcomeView,
                        FaultView,
                    >(o@)
                    &&& record ==> self.explains(grid, nets@, batch_of(*batch), trace)
                },
                Err(e) => self.answer(grid, nets@, batch_of(*batch)) == Err::<
                    OutcomeView,
                    FaultView,
                >(e@),
            },
    {
        match check_input(grid, nets) {
            Err(e) => Err(e),
            Ok(_) => {
                let through = ViaModel::through_hole(grid.dims.layers);
                let via: &ViaModel = match &self.via_model {
                    Some(v) => v,
                    None => &through,
                };
                let geo = self.spacing(grid.dims, via.keepout_cells);
                let ghost t = self.task_of(grid, nets@);
                proof {
                    assert forall|i: int| 0 <= i < nets@.len() implies #[trigger] t.net_fits(i) by {
                        assert(crate::task::net_fits(grid, &nets@[i]));
                    }
                }
                let p = Problem::new(grid, nets, via, &geo);
                let alone = lone_routes_of(&p, batch);
                Ok(route_portfolio(&p, &alone, record))
            },
        }
    }

    /// What routing comes to if nets negotiate in the given way.
    pub open spec fn variant_answer(
        &self,
        grid: &Grid,
        nets: Seq<NetEndpoints>,
        mode: NegotiationMode,
    ) -> Result<OutcomeView, FaultView> {
        if !grid.well_formed() {
            Err(FaultView::MalformedGrid)
        } else {
            match first_unfit(grid, nets) {
                Some(name) => Err(FaultView::InvalidEndpoint(name)),
                None => {
                    let t = self.task_of(grid, nets);
                    Ok(
                        variant_outcome(
                            t,
                            crate::variant::alone_paths(t),
                            mode == NegotiationMode::Adaptive && is_parallel(t),
                        ),
                    )
                },
            }
        }
    }

    /// Routes a board in the given way only.
    pub fn route_variant(
        &self,
        grid: &Grid,
        nets: &[NetEndpoints],
        mode: NegotiationMode,
    ) -> (r: Result<(NegotiatedOutcome, RouteTrace), RouterError>)
        ensures
            match r {
                Ok((o, trace)) => {
                    let t = self.task_of(grid, nets@);
                    &&& self.variant_answer(grid, nets@, mode) == Ok::<OutcomeView, FaultView>(o@)
                    &&& shows_route(
                        trace,
                        t,
                        crate::variant::alone_paths(t),
                        mode == NegotiationMode::Adaptive && is_parallel(t),
                    )
                },
                Err(e) => self.variant_answer(grid, nets@, mode) == Err::<OutcomeView, FaultView>(
                    e@,
                ),
            },
    {
        match check_input(grid, nets) {
            Err(e) => Err(e),
            Ok(_) => {
                let through = ViaModel::through_hole(grid.dims.layers);
                let via: &ViaModel = match &self.via_model {
                    Some(v) => v,
                    None => &through,
                };
                let geo = self.spacing(grid.dims, via.keepout_cells);
                let ghost t = self.task_of(grid, nets@);
                proof {
                    assert forall|i: int| 0 <= i < nets@.len() implies #[trigger] t.net_fits(i) by {
                        assert(crate::task::net_fits(grid, &nets@[i]));
                    }
                }
                let p = Problem::new(grid, nets, via, &geo);
                let alone = route_alone(&p);
                let groups = connection_group_ids(nets);
                proof {
                    crate::groups::lemma_dense_bound(groups@, groups@.len());
                }
                let parallel = mode == NegotiationMode::Adaptive && nets.len()
                    > PARALLEL_NEGOTIATION_THRESHOLD;
                let v = route_variant(&p, &groups, &alone, parallel, true);
                let outcome = make_outcome(&p, &groups, &alone, &v.committed);
                let trace = make_trace(&p, &groups, &alone, Ghost(parallel), v);
                Ok((outcome, trace))
            },
        }
    }

    /// The provider may give this for a board, which it is asked about only where the
    /// board is in order.
    pub open spec fn was_asked<P: IsolatedRouteProvider>(
        &self,
        grid: &Grid,
        nets: Seq<NetEndpoints>,
        provider: &P,
        reply: Result<Vec<Option<Vec<CellIdx>>>, RouterError>,
    ) -> bool {
        grid.well_formed() && first_unfit(grid, nets) is None ==> crate::provider::replies(
            provider,
            self.task_of(grid, nets),
            reply,
        )
    }

    /// What a provider gives for a board that is in order.
    fn ask<P: IsolatedRouteProvider>(
        &self,
        grid: &Grid,
        nets: &[NetEndpoints],
        provider: &P,
    ) -> (r: Result<Vec<Option<Vec<CellIdx>>>, RouterError>)
        ensures
            self.was_asked(grid, nets@, provider, r),
    {
        match check_input(grid, nets) {
            Err(e) => Err(e),
            Ok(_) => {
                let through = ViaModel::through_hole(grid.dims.layers);
                let via: &ViaModel = match &self.via_model {
                    Some(v) => v,
                    None => &through,
                };
                let geo = self.spacing(grid.dims, via.keepout_cells);
                let ghost t = self.task_of(grid, nets@);
                proof {
                    assert forall|i: int| 0 <= i < nets@.len() implies #[trigger] t.net_fits(i) by {
                        assert(crate::task::net_fits(grid, &nets@[i]));
                    }
                }
                let p = Problem::new(grid, nets, via, &geo);
                ask_provider(&p, provider)
            },
        }
    }

    /// Routes a board, and says which nets could be routed alone.
    pub fn route_with_outcome(&self, grid: &Grid, nets: &[NetEndpoints]) -> (r: Result<
        NegotiatedOutcome,
        RouterError,
    >)
        ensures
            result_view(r) == self.answer(grid, nets@, None),
    {
        match self.route_impl(grid, nets, &no_batch(), false) {
            Ok((o, _)) => Ok(o),
            Err(e) => Err(e),
        }
    }

    /// Routes a board with the lone routes that a provider gave, if all of them can be
    /// used.
    pub fn route_with_batch(
        &self,
        grid: &Grid,
        nets: &[NetEndpoints],
        batch: &Result<Vec<Option<Vec<CellIdx>>>, RouterError>,
    ) -> (r: Result<NegotiatedOutcome, RouterError>)
        ensures
            result_view(r) == self.answer(grid, nets@, batch_of(*batch)),
    {
        match self.route_impl(grid, nets, batch, false) {
            Ok((o, _)) => Ok(o),
            Err(e) => Err(e),
        }
    }

    /// Routes a board with the lone routes that a provider gives.
    ///
    /// The provider is asked once, and only about a board that is in order.
    pub fn route_with_isolated_provider<P: IsolatedRouteProvider>(
        &self,
        grid: &Grid,
        nets: &[NetEndpoints],
        provider: &P,
    ) -> (r: Result<NegotiatedOutcome, RouterError>)
        ensures
            exists|reply: Result<Vec<Option<Vec<CellIdx>>>, RouterError>| #[trigger]
                self.was_asked(grid, nets@, provider, reply) && result_view(r) == self.answer(
                    grid,
                    nets@,
                    batch_of(reply),
                ),
    {
        let batch = self.ask(grid, nets, provider);
        self.route_with_batch(grid, nets, &batch)
    }

    /// Routes a board with the lone routes that a provider gave, if all of them can be
    /// used, and records how.
    pub fn route_traced_with_batch(
        &self,
        grid: &Grid,
        nets: &[NetEndpoints],
        batch: &Result<Vec<Option<Vec<CellIdx>>>, RouterError>,
    ) -> (r: Result<(BoardRoute, RouteTrace), RouterError>)
        ensures
            traced_view(r) == board_part(self.answer(grid, nets@, batch_of(*batch))),
            r matches Ok((_, trace)) ==> self.explains(grid, nets@, batch_of(*batch), trace),
    {
        match self.route_impl(grid, nets, batch, true) {
            Ok((o, trace)) => Ok((o.board, trace)),
            Err(e) => Err(e),
        }
    }

    /// Routes a board and records how.
    pub fn route_traced(&self, grid: &Grid, nets: &[NetEndpoints]) -> (r: Result<
        (BoardRoute, RouteTrace),
        RouterError,
    >)
        ensures
            traced_view(r) == board_part(self.answer(grid, nets@, None)),
            r matches Ok((_, trace)) ==> self.explains(grid, nets@, None, trace),
    {
        self.route_traced_with_batch(grid, nets, &no_batch())
    }

    /// Routes a board with the lone routes that a provider gives, and records how.
    pub fn route_traced_with_isolated_provider<P: IsolatedRouteProvider>(
        &self,
        grid: &Grid,
        nets: &[NetEndpoints],
        provider: &P,
    ) -> (r: Result<(BoardRoute, RouteTrace), RouterError>)
        ensures
            exists|reply: Result<Vec<Option<Vec<CellIdx>>>, RouterError>|
                {
                    &&& #[trigger] self.was_asked(grid, nets@, provider, reply)
                    &&& traced_view(r) == board_part(self.answer(grid, nets@, batch_of(reply)))
                    &&& r matches Ok((_, trace)) ==> self.explains(
                        grid,
                        nets@,
                        batch_of(reply),
                        trace,
                    )
                },
    {
        let batch = self.ask(grid, nets, provider);
        self.route_traced_with_batch(grid, nets, &batch)
    }
}

/// No lone routes.
fn no_batch() -> (b: Result<Vec<Option<Vec<CellIdx>>>, RouterError>)
    ensures
        batch_of(b) is None,
{
    Err(RouterError::MalformedGrid)
}

impl Default for NegotiatedRouter {
    fn default() -> (r: Self)
        ensures
            r == (NegotiatedRouter {
                via_model: None,
                lines: None,
                clearance: Clearance::Units(0),
                keepout: None,
            }),
    {
        NegotiatedRouter::new()
    }
}

impl Router for NegotiatedRouter {
    fn route(&self, grid: &Grid, nets: &[NetEndpoints]) -> (r: Result<BoardRoute, RouterError>)
        ensures
            crate::net::outcome_view(r) == board_part(self.answer(grid, nets@, None)),
    {
        let r = match self.route_with_outcome(grid, nets) {
            Ok(o) => Ok(o.board),
            Err(e) => Err(e),
        };
        proof {
            let n: usize = nets.len();
            self.lemma_answers(grid, nets@, r);
        }
        r
    }
}

impl NegotiatedRouter {
    /// The router answers as a router should.
    proof fn lemma_answers(
        &self,
        grid: &Grid,
        nets: Seq<NetEndpoints>,
        r: Result<BoardRoute, RouterError>,
    )
        requires
            nets.len() <= usize::MAX,
            crate::net::outcome_view(r) == board_part(self.answer(grid, nets, None)),
        ensures
            crate::router::answers(grid, nets, r),
    {
        if grid.well_formed() {
            match first_unfit(grid, nets) {
                Some(name) => {
                    lemma_unfit_is_given(grid, nets);
                },
                None => {
                    let t = self.task_of(grid, nets);
                    lemma_all_fit(grid, nets);
                    assert forall|i: int| 0 <= i < nets.len() implies #[trigger] t.net_fits(i) by {
                        assert(crate::task::net_fits(grid, &nets[i]));
                    }
                    let alone = lone(t, None);
                    let groups = crate::groups::groups_of(nets);
                    let parallel = is_parallel(t) && !keeps_serial(t, alone);
                    crate::groups::law_nets_are_grouped(nets);
                    crate::variant::law_variant_is_legal(t, groups, alone, parallel);
                    let committed = crate::variant::variant(t, groups, alone, parallel);
                    let outs = priced(t, committed);
                    assert forall|i: int| 0 <= i < outs.len() implies (
                    #[trigger] outs[i] matches Some((p, _)) ==> crate::router::leads(
                        grid,
                        &nets[i],
                        p,
                    )) by {
                        if let Some((p, _)) = outs[i] {
                            assert(committed[i] == Some(p));
                            assert forall|k: int| 0 < k < p.len() implies #[trigger] crate::router::follows(
                                grid,
                                p,
                                k,
                            ) by {
                                assert(crate::task::stride(t, i, p, k));
                            }
                        }
                    }
                    assert(crate::router::routes_fit(grid, nets, outs));
                },
            }
        }
    }
}

/// Where no net is out of order, all are in order.
proof fn lemma_all_fit(grid: &Grid, nets: Seq<NetEndpoints>)
    requires
        first_unfit(grid, nets) is None,
    ensures
        forall|i: int| 0 <= i < nets.len() ==> crate::task::net_fits(grid, &#[trigger] nets[i]),
    decreases nets.len(),
{
    if nets.len() > 0 {
        let d = nets.drop_last();
        lemma_all_fit(grid, d);
        assert forall|i: int| 0 <= i < nets.len() implies crate::task::net_fits(
            grid,
            &#[trigger] nets[i],
        ) by {
            if i < d.len() {
                assert(d[i] == nets[i]);
            }
        }
    }
}

/// Each route of a board is that of a net, and stands beside the group of that net.
proof fn lemma_route_is_a_nets(
    t: Task,
    groups: Seq<usize>,
    committed: Seq<Option<Seq<CellIdx>>>,
    k: nat,
)
    requires
        k <= t.nets.len(),
        committed.len() == t.nets.len(),
        groups.len() == t.nets.len(),
    ensures
        ({
            let r = crate::net::routed_of(
                t.nets.take(k as int),
                priced(t, committed).take(k as int),
            );
            let g = routed_groups(groups, committed, k);
            &&& r.len() == g.len()
            &&& forall|a: int|
                0 <= a < r.len() ==> #[trigger] is_some_route(groups, committed, r[a].path, g[a])
        }),
    decreases k,
{
    let outs = priced(t, committed);
    let r = crate::net::routed_of(t.nets.take(k as int), outs.take(k as int));
    let g = routed_groups(groups, committed, k);
    if k > 0 {
        let k1 = (k - 1) as nat;
        lemma_route_is_a_nets(t, groups, committed, k1);
        assert(t.nets.take(k as int).drop_last() =~= t.nets.take(k1 as int));
        assert(outs.take(k as int).drop_last() =~= outs.take(k1 as int));
        let r1 = crate::net::routed_of(t.nets.take(k1 as int), outs.take(k1 as int));
        let g1 = routed_groups(groups, committed, k1);
        assert(outs.take(k as int).last() == outs[k - 1]);
        assert forall|a: int| 0 <= a < r.len() implies #[trigger] is_some_route(
            groups,
            committed,
            r[a].path,
            g[a],
        ) by {
            if a < r1.len() {
                assert(r1[a] == r[a] && g1[a] == g[a]);
                assert(is_some_route(groups, committed, r1[a].path, g1[a]));
            } else {
                assert(is_route_of(groups, committed, r[a].path, g[a], k - 1));
            }
        }
    } else {
        assert(r =~= Seq::empty());
    }
}

/// `path` is what net `i` has committed, and `group` is its group.
pub open spec fn is_route_of(
    groups: Seq<usize>,
    committed: Seq<Option<Seq<CellIdx>>>,
    path: Seq<CellIdx>,
    group: u32,
    i: int,
) -> bool {
    0 <= i < committed.len() && committed[i] == Some(path) && group == groups[i] as u32
}

/// `path` is what some net has committed, and `group` is its group.
pub open spec fn is_some_route(
    groups: Seq<usize>,
    committed: Seq<Option<Seq<CellIdx>>>,
    path: Seq<CellIdx>,
    group: u32,
) -> bool {
    exists|i: int| #[trigger] is_route_of(groups, committed, path, group, i)
}

/// On a routed board each route stands beside its group, and routes of different groups
/// have no cell in common.
pub proof fn law_board_groups_are_apart(
    t: Task,
    alone: Seq<Seq<CellIdx>>,
    a: int,
    b: int,
    c: CellIdx,
)
    requires
        t.wf(),
        t.nets.len() <= usize::MAX,
        0 <= a < portfolio(t, alone).board.results.len(),
        0 <= b < portfolio(t, alone).board.results.len(),
    ensures
        portfolio(t, alone).board.groups.len() == portfolio(t, alone).board.results.len(),
        portfolio(t, alone).board.groups[a] != portfolio(t, alone).board.groups[b] ==> !(portfolio(
            t,
            alone,
        ).board.results[a].path.contains(c) && portfolio(
            t,
            alone,
        ).board.results[b].path.contains(c)),
{
    let board = portfolio(t, alone).board;
    let groups = crate::groups::groups_of(t.nets);
    let parallel = is_parallel(t) && !keeps_serial(t, alone);
    let committed = crate::variant::variant(t, groups, alone, parallel);
    crate::groups::law_nets_are_grouped(t.nets);
    crate::variant::law_variant_is_legal(t, groups, alone, parallel);
    lemma_route_is_a_nets(t, groups, committed, t.nets.len());
    assert(t.nets.take(t.nets.len() as int) =~= t.nets);
    assert(priced(t, committed).take(t.nets.len() as int) =~= priced(t, committed));
    let ra = board.results[a].path;
    let rb = board.results[b].path;
    assert(is_some_route(groups, committed, board.results[a].path, board.groups[a]));
    assert(is_some_route(groups, committed, board.results[b].path, board.groups[b]));
    let i = choose|i: int| #[trigger] is_route_of(groups, committed, ra, board.groups[a], i);
    let j = choose|j: int| #[trigger] is_route_of(groups, committed, rb, board.groups[b], j);
    if ra.contains(c) && rb.contains(c) {
        assert(crate::commit::holds(committed, i, c));
        assert(crate::commit::holds(committed, j, c));
    }
}

/// The routes `a` and `b` are those of nets `i` and `j`, one of which holds no cell that
/// crowds the other's path, but for its own ends, its own masked pads, and cells that
/// another net of its group holds too.
pub open spec fn nets_keep_distance(
    t: Task,
    committed: Seq<Option<Seq<CellIdx>>>,
    board: BoardView,
    a: int,
    b: int,
    i: int,
    j: int,
) -> bool {
    let groups = crate::groups::groups_of(t.nets);
    &&& is_route_of(groups, committed, board.results[a].path, board.groups[a], i)
    &&& is_route_of(groups, committed, board.results[b].path, board.groups[b], j)
    &&& crate::clearance::clear_of(t, committed, groups, i, j) || crate::clearance::clear_of(
        t,
        committed,
        groups,
        j,
        i,
    )
}

/// The routes `a` and `b` are those of two nets that keep their distance.
pub open spec fn routes_keep_distance(
    t: Task,
    committed: Seq<Option<Seq<CellIdx>>>,
    board: BoardView,
    a: int,
    b: int,
) -> bool {
    exists|i: int, j: int| #[trigger] nets_keep_distance(t, committed, board, a, b, i, j)
}

/// Whichever way a board is routed, routes of different groups keep the clearance: one of
/// the two holds no cell that crowds the other, but for the ends and the masked pads of its
/// net, and cells that another net of its group holds too.
pub proof fn law_board_keeps_clearance(
    t: Task,
    alone: Seq<Seq<CellIdx>>,
    parallel: bool,
    a: int,
    b: int,
)
    requires
        t.wf(),
        t.nets.len() <= usize::MAX,
        0 <= a < variant_outcome(t, alone, parallel).board.results.len(),
        0 <= b < variant_outcome(t, alone, parallel).board.results.len(),
        variant_outcome(t, alone, parallel).board.groups[a] != variant_outcome(
            t,
            alone,
            parallel,
        ).board.groups[b],
    ensures
        routes_keep_distance(
            t,
            crate::variant::variant(t, crate::groups::groups_of(t.nets), alone, parallel),
            variant_outcome(t, alone, parallel).board,
            a,
            b,
        ),
{
    let board = variant_outcome(t, alone, parallel).board;
    let groups = crate::groups::groups_of(t.nets);
    let committed = crate::variant::variant(t, groups, alone, parallel);
    crate::groups::law_nets_are_grouped(t.nets);
    crate::variant::law_variant_is_legal(t, groups, alone, parallel);
    crate::variant::law_variant_keeps_clearance(t, groups, alone, parallel);
    lemma_route_is_a_nets(t, groups, committed, t.nets.len());
    assert(t.nets.take(t.nets.len() as int) =~= t.nets);
    assert(priced(t, committed).take(t.nets.len() as int) =~= priced(t, committed));
    let ra = board.results[a].path;
    let rb = board.results[b].path;
    assert(is_some_route(groups, committed, ra, board.groups[a]));
    assert(is_some_route(groups, committed, rb, board.groups[b]));
    let i = choose|i: int| #[trigger] is_route_of(groups, committed, ra, board.groups[a], i);
    let j = choose|j: int| #[trigger] is_route_of(groups, committed, rb, board.groups[b], j);
    assert(committed[i] is Some && committed[j] is Some);
    assert(nets_keep_distance(t, committed, board, a, b, i, j));
}

/// A board that a router answers with keeps the clearance, whatever lone routes it was
/// given: of each two of its routes of different groups, one holds no cell that crowds
/// the other, but for the ends and the masked pads of its net, and cells that another net
/// of its group holds too.
pub proof fn law_answer_keeps_clearance(
    router: &NegotiatedRouter,
    grid: &Grid,
    nets: Seq<NetEndpoints>,
    batch: Option<Seq<Option<Seq<CellIdx>>>>,
    a: int,
    b: int,
)
    requires
        nets.len() <= usize::MAX,
        router.answer(grid, nets, batch) is Ok,
        0 <= a < router.answer(grid, nets, batch)->Ok_0.board.results.len(),
        0 <= b < router.answer(grid, nets, batch)->Ok_0.board.results.len(),
        router.answer(grid, nets, batch)->Ok_0.board.groups[a] != router.answer(
            grid,
            nets,
            batch,
        )->Ok_0.board.groups[b],
    ensures
        ({
            let t = router.task_of(grid, nets);
            let alone = lone(t, batch);
            routes_keep_distance(
                t,
                crate::variant::variant(
                    t,
                    crate::groups::groups_of(nets),
                    alone,
                    is_parallel(t) && !keeps_serial(t, alone),
                ),
                router.answer(grid, nets, batch)->Ok_0.board,
                a,
                b,
            )
        }),
{
    let t = router.task_of(grid, nets);
    let alone = lone(t, batch);
    lemma_all_fit(grid, nets);
    assert forall|i: int| 0 <= i < nets.len() implies #[trigger] t.net_fits(i) by {
        assert(crate::task::net_fits(grid, &nets[i]));
    }
    law_board_keeps_clearance(t, alone, is_parallel(t) && !keeps_serial(t, alone), a, b);
}

/// A board that is routed in one way only keeps the clearance in the same way.
pub proof fn law_variant_answer_keeps_clearance(
    router: &NegotiatedRouter,
    grid: &Grid,
    nets: Seq<NetEndpoints>,
    mode: NegotiationMode,
    a: int,
    b: int,
)
    requires
        nets.len() <= usize::MAX,
        router.variant_answer(grid, nets, mode) is Ok,
        0 <= a < router.variant_answer(grid, nets, mode)->Ok_0.board.results.len(),
        0 <= b < router.variant_answer(grid, nets, mode)->Ok_0.board.results.len(),
        router.variant_answer(grid, nets, mode)->Ok_0.board.groups[a] != router.variant_answer(
            grid,
            nets,
            mode,
        )->Ok_0.board.groups[b],
    ensures
        ({
            let t = router.task_of(grid, nets);
            routes_keep_distance(
                t,
                crate::variant::variant(
                    t,
                    crate::groups::groups_of(nets),
                    crate::variant::alone_paths(t),
                    mode == NegotiationMode::Adaptive && is_parallel(t),
                ),
                router.variant_answer(grid, nets, mode)->Ok_0.board,
                a,
                b,
            )
        }),
{
    let t = router.task_of(grid, nets);
    let alone = crate::variant::alone_paths(t);
    lemma_all_fit(grid, nets);
    assert forall|i: int| 0 <= i < nets.len() implies #[trigger] t.net_fits(i) by {
        assert(crate::task::net_fits(grid, &nets[i]));
    }
    law_board_keeps_clearance(
        t,
        alone,
        mode == NegotiationMode::Adaptive && is_parallel(t),
        a,
        b,
    );
}

/// Without lines, and with distances of whole units, lines are evenly spaced.
pub proof fn law_even_spacing(router: &NegotiatedRouter, dims: Dims, n: u32)
    requires
        router.lines is None,
        router.keepout is None,
        router.clearance == Clearance::Units(n),
    ensures
        router.geo_of(dims) == GeoView::even(dims, n, router.via_of(dims).keepout_cells),
{
    let keep = router.via_of(dims).keepout_cells;
    let own = ReachView::even(dims, keep);
    let alone = own.wider(ReachView::nothing());
    assert(alone.x =~= own.x);
    assert(alone.y =~= own.y);
    assert(alone == own);
    crate::geometry::law_wider_is_larger(dims, n, keep);
    assert(router.geo_of(dims) =~= GeoView::even(dims, n, keep));
}

/// A second variant never loses nets: the board that is kept has at least as many as
/// either.
pub proof fn law_portfolio_keeps_the_better(t: Task, alone: Seq<Seq<CellIdx>>)
    ensures
        portfolio(t, alone).board.results.len() >= variant_outcome(
            t,
            alone,
            is_parallel(t),
        ).board.results.len(),
        is_in_portfolio(t.dims().cells(), t.nets.len(), crate::groups::has_namesakes(t.nets))
            ==> portfolio(t, alone).board.results.len() >= variant_outcome(
            t,
            alone,
            false,
        ).board.results.len(),
{
}

} // verus!
