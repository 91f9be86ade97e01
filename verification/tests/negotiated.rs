use metalroute::fixtures::obstacle_battery;
use metalroute::geometry::{
    axis_cost_prefix, axis_leg_cost, net_window, Geometry, GridLines, IsolatedRouteWindow, Reach,
    SCALE,
};
use metalroute::groups::has_named_subnet_group;
use metalroute::halo::{halo_list, rebuild_owner_maps, Claim, Committed};
use metalroute::legal::route_legal;
use metalroute::legalize::legalize_in_order;
use metalroute::negotiate::PARALLEL_NEGOTIATION_THRESHOLD;
use metalroute::negotiated::{
    serial_candidate_is_better, should_try_serial_candidate, NegotiatedRouter, NegotiationMode,
    PORTFOLIO_MAX_NETS, PORTFOLIO_MIN_NETS,
};
use metalroute::orders::permutations;
use metalroute::pads::{CountedCellSet, PadSet};
use metalroute::pricing::{route_negotiated, Pricing, MAX_ITERS};
use metalroute::provider::{normalize_via_exemptions, provider_path_is_valid};
use metalroute::scoring::{committed_grid_cost, legalization_candidate_is_better};
use metalroute::search::SearchBuf;
use metalroute::task::{sorted_contains, Problem, Ranked};
use metalroute::{
    BoardRoute, CellIdx, Cost, Dims, Grid, GridBuilder, IsolatedRouteProvider,
    IsolatedRouteRequest, LeeRouter, NetEndpoints, RouteResult, RouteTrace, Router, RouterError,
    ViaModel, OBSTACLE,
};
use rayon::iter::{IntoParallelIterator, ParallelIterator};
use std::sync::atomic::{AtomicUsize, Ordering};

const COST_SCALE: f64 = 16.0;

/// What a length costs.
fn edge_cost(length: f64) -> Cost {
    let scaled = (length * COST_SCALE).round();
    if !length.is_finite() || scaled <= 0.0 {
        0
    } else if scaled >= Cost::MAX as f64 {
        Cost::MAX
    } else {
        scaled as Cost
    }
}

/// Where a line is; one without a position is where its number says.
fn at(lines: &[f64], k: u32) -> f64 {
    lines.get(k as usize).copied().unwrap_or(k as f64)
}

/// What the gaps between lines cost.
fn gaps(lines: &[f64]) -> Vec<Cost> {
    (0..lines.len() as u32)
        .map(|k| edge_cost((at(lines, k + 1) - at(lines, k)).abs()))
        .collect()
}

/// The lines within a radius of each line.
fn within(lines: &[f64], count: u32, r: f64) -> Vec<Vec<u32>> {
    if r <= 0.0 {
        return Vec::new();
    }
    (0..count)
        .map(|i| {
            (0..count)
                .filter(|&j| (at(lines, j) - at(lines, i)).abs() <= r)
                .collect()
        })
        .collect()
}

/// The spacing of lines at the given positions.
fn spacing(dims: Dims, x: &[f64], y: &[f64], clearance: f64, keepout: f64) -> Geometry {
    let wide = clearance.max(keepout);
    Geometry {
        x_gaps: gaps(x),
        y_gaps: gaps(y),
        clearance: Reach {
            x: within(x, dims.w, clearance),
            y: within(y, dims.h, clearance),
        },
        keepout: Reach {
            x: within(x, dims.w, wide),
            y: within(y, dims.h, wide),
        },
        spaced: wide > 0.0,
    }
}

/// How many units each line is from each, the last of them begun.
fn apart(lines: &[f64], count: u32) -> Vec<Vec<u64>> {
    let units = |i: u32, j: u32| (at(lines, j) - at(lines, i)).abs().ceil() as u64;
    (0..count)
        .map(|i| (0..count).map(|j| units(i, j)).collect())
        .collect()
}

/// Lines at the given positions.
fn lines_at(dims: Dims, x: &[f64], y: &[f64]) -> GridLines {
    GridLines {
        x_gaps: gaps(x),
        y_gaps: gaps(y),
        x_apart: apart(x, dims.w),
        y_apart: apart(y, dims.h),
    }
}

/// The lines within a radius of each line.
fn reach_at(dims: Dims, x: &[f64], y: &[f64], r: f64) -> Reach {
    Reach {
        x: within(x, dims.w, r),
        y: within(y, dims.h, r),
    }
}

/// What the planar steps between two cells cost, by the positions of the lines.
fn length_between(dims: Dims, x: &[f64], y: &[f64], a: CellIdx, b: CellIdx) -> f64 {
    let (ax, ay) = dims.xy(a);
    let (bx, by) = dims.xy(b);
    (at(x, ax) - at(x, bx)).abs() + (at(y, ay) - at(y, by)).abs()
}

enum MockProviderReply {
    Paths(Vec<Option<Vec<CellIdx>>>),
    Error,
}

struct MockProvider {
    calls: AtomicUsize,
    reply: MockProviderReply,
}

impl MockProvider {
    fn paths(paths: Vec<Option<Vec<CellIdx>>>) -> Self {
        Self {
            calls: AtomicUsize::new(0),
            reply: MockProviderReply::Paths(paths),
        }
    }

    fn error() -> Self {
        Self {
            calls: AtomicUsize::new(0),
            reply: MockProviderReply::Error,
        }
    }

    fn calls(&self) -> usize {
        self.calls.load(Ordering::Relaxed)
    }
}

impl IsolatedRouteProvider for MockProvider {
    fn route_isolated_batch(
        &self,
        _request: IsolatedRouteRequest<'_>,
    ) -> Result<Vec<Option<Vec<CellIdx>>>, RouterError> {
        self.calls.fetch_add(1, Ordering::Relaxed);
        match &self.reply {
            MockProviderReply::Paths(paths) => Ok(paths.clone()),
            MockProviderReply::Error => Err(RouterError::BackendUnavailable("mock".into())),
        }
    }
}

fn net(name: &str, src: CellIdx, dst: CellIdx) -> NetEndpoints {
    NetEndpoints {
        net: name.into(),
        src,
        dst,
        passable_pads: Vec::new(),
        via_passable_pads: Vec::new(),
    }
}

fn disjoint(a: &[CellIdx], b: &[CellIdx]) -> bool {
    let sa: std::collections::HashSet<_> = a.iter().copied().collect();
    b.iter().all(|c| !sa.contains(c))
}

fn board_with_costs(costs: &[Cost], n_total: usize) -> BoardRoute {
    let results = costs
        .iter()
        .enumerate()
        .map(|(i, &cost)| RouteResult {
            net: format!("n{i}"),
            path: Vec::new(),
            cost,
        })
        .collect();
    BoardRoute {
        results,
        unrouted: (costs.len()..n_total).map(|i| format!("n{i}")).collect(),
        congestion: Vec::new(),
        groups: Vec::new(),
    }
}

fn assert_trace_eq(actual: &RouteTrace, expected: &RouteTrace) {
    assert_eq!(actual.dims, expected.dims);
    assert_eq!(actual.n_groups, expected.n_groups);
    assert_eq!(actual.nets.len(), expected.nets.len());
    for (a, b) in actual.nets.iter().zip(&expected.nets) {
        assert_eq!(
            (&a.net, a.src, a.dst, a.group, &a.alone_path),
            (&b.net, b.src, b.dst, b.group, &b.alone_path)
        );
    }
    assert_eq!(actual.iterations.len(), expected.iterations.len());
    for (a, b) in actual.iterations.iter().zip(&expected.iterations) {
        assert_eq!(
            (a.iter, a.pfac, a.any_overuse),
            (b.iter, b.pfac, b.any_overuse)
        );
        assert_eq!(a.paths, b.paths);
        assert_eq!(a.overused_cells, b.overused_cells);
    }
    let a = actual.legalization.as_ref().unwrap();
    let b = expected.legalization.as_ref().unwrap();
    assert_eq!(a.chosen_order, b.chosen_order);
    assert_eq!(a.committed, b.committed);
    assert_eq!(a.candidates.len(), b.candidates.len());
    for (a, b) in a.candidates.iter().zip(&b.candidates) {
        assert_eq!(
            (&a.order, a.routed, a.total_cost),
            (&b.order, b.routed, b.total_cost)
        );
    }
}

fn provider_paths_from_trace(trace: &RouteTrace) -> Vec<Option<Vec<CellIdx>>> {
    trace
        .nets
        .iter()
        .map(|net| (!net.alone_path.is_empty()).then(|| net.alone_path.clone()))
        .collect()
}

#[test]
fn isolated_provider_matches_cpu_for_reachable_unreachable_and_zero_hop_nets() {
    let dims = Dims::new(5, 5);
    let mut builder = GridBuilder::new(dims, 1);
    for (x, y) in [(2, 1), (1, 2), (3, 2), (2, 3)] {
        builder.mark_cell(x, y);
    }
    let grid = builder.build();
    let nets = vec![
        net("open", dims.idx(0, 4), dims.idx(4, 4)),
        net("blocked", dims.idx(0, 0), dims.idx(2, 2)),
        net("zero", dims.idx(4, 0), dims.idx(4, 0)),
    ];
    let router = NegotiatedRouter::new();
    let cpu_outcome = router.route_with_outcome(&grid, &nets).unwrap();
    let (cpu_board, cpu_trace) = router.route_traced(&grid, &nets).unwrap();
    assert_eq!(cpu_outcome.board, cpu_board);
    assert_eq!(cpu_outcome.alone_routable, [true, false, true]);
    assert_eq!(cpu_trace.nets[1].alone_path, Vec::<CellIdx>::new());
    assert_eq!(cpu_trace.nets[2].alone_path, vec![nets[2].src]);

    let provider = MockProvider::paths(provider_paths_from_trace(&cpu_trace));
    let accelerated = router
        .route_with_isolated_provider(&grid, &nets, &provider)
        .unwrap();
    assert_eq!(accelerated, cpu_outcome);

    let (traced_board, accelerated_trace) = router
        .route_traced_with_isolated_provider(&grid, &nets, &provider)
        .unwrap();
    assert_eq!(traced_board, cpu_board);
    assert_trace_eq(&accelerated_trace, &cpu_trace);
    assert_eq!(provider.calls(), 2, "one batch call per public route call");
}

#[test]
fn isolated_provider_rejection_falls_back_for_the_whole_batch() {
    let dims = Dims::new(5, 5);
    let grid = Grid::filled(dims, 1);
    let nets = vec![
        net("top", dims.idx(0, 0), dims.idx(4, 0)),
        net("bottom", dims.idx(0, 4), dims.idx(4, 4)),
    ];
    let router = NegotiatedRouter::new();
    let (expected_board, expected_trace) = router.route_traced(&grid, &nets).unwrap();

    let providers = [
        MockProvider::error(),
        MockProvider::paths(vec![Some(vec![nets[0].src, nets[0].dst])]),
        MockProvider::paths(vec![
            Some(vec![0, 5, 6, 7, 8, 9, 4]),
            Some(vec![nets[1].src, nets[1].dst]),
        ]),
    ];

    for provider in &providers {
        let (board, trace) = router
            .route_traced_with_isolated_provider(&grid, &nets, provider)
            .unwrap();
        assert_eq!(board, expected_board);
        assert_trace_eq(&trace, &expected_trace);
        assert_eq!(provider.calls(), 1);
    }
}

#[test]
fn isolated_provider_path_validation_covers_obstacles_repeats_and_vias() {
    let planar_dims = Dims::new(3, 2);
    let mut planar = Grid::filled(planar_dims, 1);
    planar.set(planar_dims.idx(1, 0), OBSTACLE);
    let planar_net = net("p", planar_dims.idx(0, 0), planar_dims.idx(2, 0));
    let through = ViaModel::through_hole(1);
    assert!(!provider_path_is_valid(
        &planar,
        &planar_net,
        &through,
        &[planar_net.src, planar_dims.idx(1, 0), planar_net.dst]
    ));
    assert!(!provider_path_is_valid(
        &Grid::filled(planar_dims, 1),
        &planar_net,
        &through,
        &[
            planar_net.src,
            planar_dims.idx(0, 1),
            planar_net.src,
            planar_net.dst
        ]
    ));

    let via_dims = Dims::with_layers(1, 1, 2);
    let via_grid = Grid::filled(via_dims, 1);
    let via_net = net("v", via_dims.idx3(0, 0, 0), via_dims.idx3(0, 0, 1));
    let forbidden = ViaModel::with_allowed_steps(2, 7, Vec::new());
    assert!(!provider_path_is_valid(
        &via_grid,
        &via_net,
        &forbidden,
        &[via_net.src, via_net.dst]
    ));

    let mut masked_grid = via_grid.clone();
    masked_grid.via_forbidden = vec![true; via_dims.len()];
    let owned_via = NetEndpoints {
        passable_pads: vec![via_net.dst, via_net.src],
        via_passable_pads: vec![via_net.dst, via_net.src],
        ..via_net.clone()
    };
    assert!(provider_path_is_valid(
        &masked_grid,
        &owned_via,
        &ViaModel::through_hole(2),
        &[owned_via.src, owned_via.dst]
    ));
    let layer_local_only = NetEndpoints {
        via_passable_pads: vec![via_net.src],
        ..owned_via
    };
    assert!(!provider_path_is_valid(
        &masked_grid,
        &layer_local_only,
        &ViaModel::through_hole(2),
        &[layer_local_only.src, layer_local_only.dst]
    ));
}

#[derive(Clone)]
struct CountedCell {
    value: CellIdx,
    comparisons: std::sync::Arc<AtomicUsize>,
}

impl Ranked for CountedCell {
    fn rank(&self) -> u64 {
        self.value as u64
    }

    fn is_before(&self, other: &Self) -> bool {
        self.comparisons.fetch_add(1, Ordering::Relaxed);
        self.value < other.value
    }
}

#[test]
fn via_exemption_lookup_is_logarithmic_by_comparison_count() {
    let comparisons = std::sync::Arc::new(AtomicUsize::new(0));
    let cells: Vec<_> = (0..80_000)
        .map(|value| CountedCell {
            value,
            comparisons: comparisons.clone(),
        })
        .collect();
    let needle = CountedCell {
        value: 79_999,
        comparisons: comparisons.clone(),
    };
    assert!(sorted_contains(&cells, &needle));
    let count = comparisons.load(Ordering::Relaxed);
    assert!(
        count <= 18,
        "80k-entry lookup must remain logarithmic, got {count} comparisons"
    );
}

#[test]
fn unsorted_large_via_exemption_list_is_normalized_once_and_routes_identically() {
    let dims = Dims::with_layers(1, 1, 2);
    let mut grid = Grid::filled(dims, 1);
    grid.via_forbidden = vec![true; dims.len()];
    let src = dims.idx3(0, 0, 0);
    let dst = dims.idx3(0, 0, 1);

    let mut repeated_unsorted = Vec::with_capacity(80_000);
    for _ in 0..40_000 {
        repeated_unsorted.extend([dst, src]);
    }
    let unsorted = NetEndpoints {
        net: "via".into(),
        src,
        dst,
        passable_pads: vec![src, dst],
        via_passable_pads: repeated_unsorted,
    };
    let normalized = normalize_via_exemptions(std::slice::from_ref(&unsorted));
    assert!(normalized.is_some());
    let normalized = normalized.unwrap();
    assert_eq!(normalized[0].via_passable_pads, [src, dst]);

    let canonical = NetEndpoints {
        via_passable_pads: vec![src, dst],
        ..unsorted.clone()
    };
    let router = NegotiatedRouter::new();
    let expected = router.route(&grid, &[canonical]).unwrap();
    let actual = router.route(&grid, &[unsorted]).unwrap();
    assert_eq!(actual, expected);
    assert_eq!(actual.results[0].path, [src, dst]);
}

struct InspectingFallbackProvider {
    calls: AtomicUsize,
}

impl IsolatedRouteProvider for InspectingFallbackProvider {
    fn route_isolated_batch(
        &self,
        request: IsolatedRouteRequest<'_>,
    ) -> Result<Vec<Option<Vec<CellIdx>>>, RouterError> {
        self.calls.fetch_add(1, Ordering::Relaxed);
        assert_eq!(request.grid.dims, Dims::with_layers(4, 3, 3));
        assert_eq!(request.nets.len(), 1);
        assert_eq!(
            request.windows,
            [IsolatedRouteWindow::full(request.grid.dims)]
        );
        assert_eq!(request.x_edge_costs, [144, 16, 16]);
        assert_eq!(request.y_edge_costs, [16, 16]);
        assert_eq!(request.via_edge_costs, [Some(7), None]);
        Err(RouterError::BackendUnavailable(
            "inspect then fallback".into(),
        ))
    }
}

#[test]
fn isolated_provider_request_uses_exact_short_coordinate_and_via_costs() {
    let dims = Dims::with_layers(4, 3, 3);
    let grid = Grid::filled(dims, 1);
    let nets = vec![net("n", dims.idx3(0, 0, 0), dims.idx3(3, 2, 0))];
    let router = NegotiatedRouter::new()
        .with_coords(lines_at(dims, &[10.0], &[]))
        .with_via_model(ViaModel::with_allowed_steps(3, 7, vec![(0, 1)]));
    let provider = InspectingFallbackProvider {
        calls: AtomicUsize::new(0),
    };

    let expected = router.route_with_outcome(&grid, &nets).unwrap();
    let actual = router
        .route_with_isolated_provider(&grid, &nets, &provider)
        .unwrap();
    assert_eq!(actual, expected);
    assert_eq!(provider.calls.load(Ordering::Relaxed), 1);
}

#[test]
fn serial_portfolio_score_is_completion_then_u64_cost_with_primary_ties() {
    let primary = board_with_costs(&[u32::MAX, u32::MAX], 3);
    let fewer = board_with_costs(&[1], 3);
    let equal_but_cheaper = board_with_costs(&[u32::MAX, u32::MAX - 1], 3);
    let equal_exact = primary.clone();
    let more = board_with_costs(&[u32::MAX, u32::MAX, u32::MAX], 3);

    assert!(!serial_candidate_is_better(&primary, &fewer));
    assert!(serial_candidate_is_better(&primary, &equal_but_cheaper));
    assert!(!serial_candidate_is_better(&primary, &equal_exact));
    assert!(serial_candidate_is_better(&primary, &more));
    assert_eq!(primary.total_cost(), 2 * u32::MAX as u64);
}

#[test]
fn legalization_candidate_score_distinguishes_totals_above_cost_max() {
    let dims = Dims::new(3, 2);
    let mut grid = Grid::filled(dims, 1);
    grid.set(dims.idx(1, 0), 100);
    grid.set(dims.idx(2, 0), Cost::MAX / 2);
    let nets = vec![net("a", 0, 2), net("b", 0, 2)];

    let costly: Committed = vec![Some(vec![0, 1, 2]), Some(vec![0, 1, 2])];
    let cheaper: Committed = vec![Some(vec![0, 3, 4, 5, 2]), Some(vec![0, 3, 4, 5, 2])];
    let costly_total = committed_grid_cost(&grid, &nets, &costly);
    let cheaper_total = committed_grid_cost(&grid, &nets, &cheaper);

    assert!(cheaper_total > Cost::MAX as u64);
    assert!(cheaper_total < costly_total);
    assert_eq!(costly_total.min(Cost::MAX as u64) as Cost, Cost::MAX);
    assert_eq!(cheaper_total.min(Cost::MAX as u64) as Cost, Cost::MAX);
    assert!(legalization_candidate_is_better(
        2,
        cheaper_total,
        &[1, 0],
        2,
        costly_total,
        &[0, 1],
    ));
}

#[test]
fn serial_portfolio_trigger_enforces_group_net_and_cell_bounds() {
    let incomplete = |n| board_with_costs(&[1], n);
    let complete = |n| board_with_costs(&vec![1; n], n);
    let at_cap = Dims::new(500, 500);
    let above_cap = Dims::new(501, 500);

    assert!(!should_try_serial_candidate(
        at_cap,
        PORTFOLIO_MIN_NETS - 1,
        true,
        &incomplete(PORTFOLIO_MIN_NETS - 1)
    ));
    assert!(!should_try_serial_candidate(
        above_cap,
        PORTFOLIO_MIN_NETS,
        true,
        &incomplete(PORTFOLIO_MIN_NETS)
    ));
    assert!(should_try_serial_candidate(
        at_cap,
        PORTFOLIO_MAX_NETS,
        true,
        &incomplete(PORTFOLIO_MAX_NETS)
    ));
    assert!(!should_try_serial_candidate(
        at_cap,
        PORTFOLIO_MAX_NETS + 1,
        true,
        &incomplete(PORTFOLIO_MAX_NETS + 1)
    ));
    assert!(!should_try_serial_candidate(
        at_cap,
        PORTFOLIO_MIN_NETS,
        false,
        &incomplete(PORTFOLIO_MIN_NETS)
    ));
    assert!(should_try_serial_candidate(
        at_cap,
        PORTFOLIO_MIN_NETS,
        true,
        &complete(PORTFOLIO_MIN_NETS)
    ));
    assert!(!should_try_serial_candidate(
        above_cap,
        PORTFOLIO_MIN_NETS,
        true,
        &complete(PORTFOLIO_MIN_NETS)
    ));

    let named_group = vec![net("g#0", 0, 1), net("g#1", 2, 3)];
    let shared_cell_only = vec![net("a", 0, 1), net("b", 1, 2)];
    assert!(has_named_subnet_group(&named_group));
    assert!(!has_named_subnet_group(&shared_cell_only));
}

#[test]
fn crossing_nets_route_disjoint() {
    let dims = Dims::new(5, 5);
    let grid = GridBuilder::new(dims, 1).build();
    let a = net("a", dims.idx(2, 1), dims.idx(2, 3));
    let b = net("b", dims.idx(1, 2), dims.idx(3, 2));

    let centre = dims.idx(2, 2);
    let fa = LeeRouter::route_one(&grid, a.src, a.dst).unwrap().0;
    let fb = LeeRouter::route_one(&grid, b.src, b.dst).unwrap().0;
    assert!(
        fa.contains(&centre) && fb.contains(&centre),
        "precondition: naive paths collide at centre"
    );

    let br = NegotiatedRouter::new()
        .route(&grid, &[a.clone(), b.clone()])
        .unwrap();
    assert!(br.unrouted.is_empty(), "both nets must route: {br:?}");
    assert_eq!(br.results.len(), 2);

    let pa = &br.results[0].path;
    let pb = &br.results[1].path;
    assert!(
        disjoint(pa, pb),
        "paths must be cell-disjoint: {pa:?} {pb:?}"
    );
    assert_eq!(pa.first().copied(), Some(a.src));
    assert_eq!(pa.last().copied(), Some(a.dst));
    assert_eq!(pb.first().copied(), Some(b.src));
    assert_eq!(pb.last().copied(), Some(b.dst));
}

#[test]
fn route_exports_aligned_group_ids() {
    let dims = Dims::new(8, 8);
    let grid = GridBuilder::new(dims, 1).build();
    let s0 = net("g#0", dims.idx(0, 0), dims.idx(7, 0));
    let s1 = net("g#1", dims.idx(0, 2), dims.idx(7, 2));
    let f = net("foreign", dims.idx(0, 5), dims.idx(7, 5));
    let br = NegotiatedRouter::new().route(&grid, &[s0, s1, f]).unwrap();
    assert!(br.unrouted.is_empty(), "all nets must route: {br:?}");
    assert_eq!(
        br.groups.len(),
        br.results.len(),
        "groups align 1:1 with results"
    );
    let g_of = |name: &str| {
        let i = br.results.iter().position(|r| r.net == name).unwrap();
        br.groups[i]
    };
    assert_eq!(g_of("g#0"), g_of("g#1"), "`#`-siblings share a group id");
    assert_ne!(
        g_of("g#0"),
        g_of("foreign"),
        "a foreign net is a distinct group"
    );
}

#[test]
fn detours_around_foreign_pad() {
    let dims = Dims::new(7, 3);
    let grid = GridBuilder::new(dims, 1).mark_rect(3, 0, 3, 1).build();

    let a_pad: Vec<CellIdx> = vec![dims.idx(3, 0), dims.idx(3, 1)];
    let net_a = NetEndpoints {
        net: "a".into(),
        src: dims.idx(3, 0),
        dst: dims.idx(3, 1),
        passable_pads: a_pad.clone(),
        via_passable_pads: Vec::new(),
    };
    let net_b = NetEndpoints {
        net: "b".into(),
        src: dims.idx(0, 1),
        dst: dims.idx(6, 1),
        passable_pads: Vec::new(),
        via_passable_pads: Vec::new(),
    };

    let br = NegotiatedRouter::new()
        .route(&grid, &[net_a, net_b])
        .unwrap();
    assert!(br.unrouted.is_empty(), "both nets must route: {br:?}");
    assert_eq!(br.results.len(), 2);

    let pa = &br.results[0].path;
    let pb = &br.results[1].path;
    for c in pb {
        assert!(!a_pad.contains(c), "B must route around A's pad; cell {c}");
    }
    assert!(disjoint(pa, pb), "paths must be cell-disjoint");
}

#[test]
fn over_constrained_corridor_one_unrouted() {
    let dims = Dims::new(3, 3);
    let mut b = GridBuilder::new(dims, 1);
    b.mark_cell(1, 0);
    b.mark_cell(1, 2);
    let grid = b.build();
    let nets = vec![
        net("a", dims.idx(0, 1), dims.idx(2, 1)),
        net("b", dims.idx(0, 2), dims.idx(2, 2)),
    ];
    let br = NegotiatedRouter::new().route(&grid, &nets).unwrap();
    assert_eq!(
        br.results.len() + br.unrouted.len(),
        2,
        "every net accounted for"
    );
    assert_eq!(br.unrouted.len(), 1, "both cannot fit the single corridor");
    assert_eq!(br.results.len(), 1);
}

#[test]
fn deterministic_results() {
    let dims = Dims::new(5, 5);
    let grid = GridBuilder::new(dims, 1).build();
    let nets = vec![
        net("a", dims.idx(0, 0), dims.idx(4, 4)),
        net("b", dims.idx(4, 0), dims.idx(0, 4)),
        net("c", dims.idx(0, 2), dims.idx(4, 2)),
    ];
    let br1 = NegotiatedRouter::new().route(&grid, &nets).unwrap();
    let br2 = NegotiatedRouter::new().route(&grid, &nets).unwrap();
    assert_eq!(br1.results, br2.results);
    assert_eq!(br1.unrouted, br2.unrouted);
    assert_eq!(br1.congestion, br2.congestion);
}

#[test]
fn lightweight_outcome_matches_route_and_solo_routability() {
    let router = NegotiatedRouter::new();
    let mut saw_routable = false;
    let mut saw_unroutable = false;

    for fixture in obstacle_battery() {
        let outcome = router
            .route_with_outcome(&fixture.grid, &fixture.nets)
            .unwrap();
        assert_eq!(
            outcome.board,
            router.route(&fixture.grid, &fixture.nets).unwrap(),
            "{}: outcome board must equal the Router API",
            fixture.name
        );

        let solo: Vec<bool> = fixture
            .nets
            .iter()
            .map(|net| {
                let board = router
                    .route(&fixture.grid, std::slice::from_ref(net))
                    .unwrap();
                !board.results.is_empty() && board.unrouted.is_empty()
            })
            .collect();
        assert_eq!(
            outcome.alone_routable, solo,
            "{}: cached isolation result must equal a real solo route",
            fixture.name
        );
        saw_routable |= solo.iter().any(|&routable| routable);
        saw_unroutable |= solo.iter().any(|&routable| !routable);
    }

    assert!(saw_routable && saw_unroutable);

    let dims = Dims::new(1, 1);
    let zero = vec![net("zero", 0, 0)];
    let outcome = router
        .route_with_outcome(&Grid::filled(dims, 1), &zero)
        .unwrap();
    assert_eq!(outcome.alone_routable, [true]);
    assert_eq!(outcome.board.results[0].cost, 0);
}

#[test]
fn same_connection_subnets_may_share() {
    let dims = Dims::new(3, 1);
    let grid = GridBuilder::new(dims, 1).build();
    let nets = vec![
        net("X#0", dims.idx(0, 0), dims.idx(1, 0)),
        net("X#1", dims.idx(1, 0), dims.idx(2, 0)),
    ];
    let br = NegotiatedRouter::new().route(&grid, &nets).unwrap();
    assert!(br.unrouted.is_empty(), "both sub-nets must route: {br:?}");
    assert_eq!(br.results.len(), 2);
    let mid = dims.idx(1, 0);
    assert!(br.results[0].path.contains(&mid));
    assert!(br.results[1].path.contains(&mid));
    assert_eq!(br.congestion[mid as usize], 2);
}

#[test]
fn co_dependent_both_must_deviate() {
    let dims = Dims::new(5, 5);
    let mut gb = GridBuilder::new(dims, 1);
    gb.mark_cell(2, 2);
    gb.mark_cell(2, 3);
    gb.mark_cell(2, 4);
    let grid = gb.build();

    let a = net("a", dims.idx(0, 1), dims.idx(4, 1));
    let b = net("b", dims.idx(0, 3), dims.idx(4, 3));

    let ga = LeeRouter::route_one(&grid, a.src, a.dst).unwrap().0;
    let gb_path = LeeRouter::route_one(&grid, b.src, b.dst).unwrap().0;
    assert!(
        ga.iter().any(|c| gb_path.contains(c)) || {
            ga.contains(&a.src) && gb_path.contains(&a.src)
        },
        "precondition: greedy paths are in mutual conflict"
    );

    let br = NegotiatedRouter::new()
        .route(&grid, &[a.clone(), b.clone()])
        .unwrap();
    assert!(
        br.unrouted.is_empty(),
        "both co-dependent nets must route: {br:?}"
    );
    assert_eq!(br.results.len(), 2);
    let pa = &br.results[0].path;
    let pb = &br.results[1].path;
    assert!(
        disjoint(pa, pb),
        "paths must be cell-disjoint: {pa:?} {pb:?}"
    );
    assert_eq!(pa.first().copied(), Some(a.src));
    assert_eq!(pa.last().copied(), Some(a.dst));
    assert_eq!(pb.first().copied(), Some(b.src));
    assert_eq!(pb.last().copied(), Some(b.dst));
}

#[test]
fn ripup_rescues_third_net() {
    let dims = Dims::new(6, 6);
    let mut gb = GridBuilder::new(dims, 1);
    gb.mark_cell(4, 1);
    let grid = gb.build();

    let nets = vec![
        net("a", dims.idx(3, 0), dims.idx(4, 3)),
        net("b", dims.idx(0, 4), dims.idx(5, 4)),
        net("c", dims.idx(2, 1), dims.idx(5, 3)),
    ];

    let br = NegotiatedRouter::new().route(&grid, &nets).unwrap();
    assert!(
        br.unrouted.is_empty(),
        "rip-up must route all three nets: {br:?}"
    );
    assert_eq!(br.results.len(), 3);

    for i in 0..br.results.len() {
        for j in (i + 1)..br.results.len() {
            assert!(
                disjoint(&br.results[i].path, &br.results[j].path),
                "group paths must be cell-disjoint: {} vs {}",
                br.results[i].net,
                br.results[j].net
            );
        }
    }
    for (r, n) in br.results.iter().zip(nets.iter()) {
        assert_eq!(r.path.first().copied(), Some(n.src));
        assert_eq!(r.path.last().copied(), Some(n.dst));
    }
}

#[test]
fn ripup_terminates_when_unsolvable() {
    let dims = Dims::new(3, 3);
    let mut b = GridBuilder::new(dims, 1);
    b.mark_cell(1, 0);
    b.mark_cell(1, 2);
    let grid = b.build();
    let nets = vec![
        net("a", dims.idx(0, 1), dims.idx(2, 1)),
        net("b", dims.idx(0, 2), dims.idx(2, 2)),
    ];
    let br = NegotiatedRouter::new().route(&grid, &nets).unwrap();
    assert_eq!(br.results.len() + br.unrouted.len(), 2);
    assert_eq!(br.unrouted.len(), 1, "single corridor fits only one net");
    let br2 = NegotiatedRouter::new().route(&grid, &nets).unwrap();
    assert_eq!(br.results, br2.results);
    assert_eq!(br.unrouted, br2.unrouted);
}

#[test]
fn permutations_are_complete_and_ordered() {
    let perms = permutations(&[0, 1, 2]);
    assert_eq!(
        perms,
        vec![
            vec![0, 1, 2],
            vec![0, 2, 1],
            vec![1, 0, 2],
            vec![1, 2, 0],
            vec![2, 0, 1],
            vec![2, 1, 0],
        ]
    );
    let p4 = permutations(&[0, 1, 2, 3]);
    assert_eq!(p4.len(), 24);
    let uniq: std::collections::HashSet<_> = p4.iter().cloned().collect();
    assert_eq!(uniq.len(), 24);
}

#[test]
fn net_routes_via_full_board_retry_when_path_leaves_window() {
    let dims = Dims::new(40, 6);
    let mut gb = GridBuilder::new(dims, 1);
    for x in 0..=37 {
        gb.mark_cell(x, 1);
    }
    let grid = gb.build();

    let a = net("a", dims.idx(0, 0), dims.idx(2, 2));

    let win = net_window(dims, a.src, a.dst, &Vec::new());
    assert!(
        win.x1 < 38,
        "precondition: gap column is outside the window"
    );

    let br = NegotiatedRouter::new()
        .route(&grid, std::slice::from_ref(&a))
        .unwrap();
    assert!(
        br.unrouted.is_empty(),
        "net must route via the full-board retry: {br:?}"
    );
    assert_eq!(br.results.len(), 1);
    let path = &br.results[0].path;
    assert_eq!(path.first().copied(), Some(a.src));
    assert_eq!(path.last().copied(), Some(a.dst));
    assert!(
        path.iter().any(|&c| {
            let (x, _) = dims.xy(c);
            x > win.x1
        }),
        "optimal path must exit the window (reach the far gap)"
    );
}

#[test]
fn legalization_is_order_robust() {
    let dims = Dims::new(5, 5);
    let grid = GridBuilder::new(dims, 1).build();

    let a = net("a", dims.idx(0, 2), dims.idx(4, 2));
    let b = net("b", dims.idx(2, 1), dims.idx(2, 3));

    let group_ids = vec![0usize, 1usize];
    let nets_ab = [a.clone(), b.clone()];
    let crafted = vec![
        vec![
            dims.idx(0, 2),
            dims.idx(1, 2),
            dims.idx(2, 2),
            dims.idx(3, 2),
            dims.idx(4, 2),
        ],
        vec![dims.idx(2, 1), dims.idx(2, 2), dims.idx(2, 3)],
    ];
    let via_model = ViaModel::through_hole(dims.layers);
    let geometry = Geometry::uniform(dims, 0, 0);
    let problem = Problem::new(&grid, &nets_ab, &via_model, &geometry);

    let c_ab = legalize_in_order(&problem, &group_ids, &crafted, &vec![0, 1]);
    assert!(c_ab[0].is_some(), "A commits in A-first order");
    assert!(
        c_ab[1].is_none(),
        "B must be stranded when A claims the middle row first"
    );

    let c_ba = legalize_in_order(&problem, &group_ids, &crafted, &vec![1, 0]);
    assert!(
        c_ba[0].is_some() && c_ba[1].is_some(),
        "both route when B claims the middle column first"
    );

    let br = NegotiatedRouter::new()
        .route(&grid, &[a.clone(), b.clone()])
        .unwrap();
    assert!(
        br.unrouted.is_empty(),
        "order-robust router must route both nets: {br:?}"
    );
    assert_eq!(br.results.len(), 2);
    let pa = &br.results[0].path;
    let pb = &br.results[1].path;
    assert!(
        disjoint(pa, pb),
        "paths must be cell-disjoint: {pa:?} {pb:?}"
    );
}

#[test]
fn vias_route_around_a_full_layer0_wall() {
    let dims = Dims::with_layers(3, 1, 2);
    let mut gb = GridBuilder::new(dims, 1);
    gb.mark_cell(1, 0);
    let grid = gb.build();

    assert!(grid.is_obstacle(dims.idx3(1, 0, 0)));
    assert!(
        !grid.is_obstacle(dims.idx3(1, 0, 1)),
        "layer 1 must be open"
    );

    let a = net("a", dims.idx3(0, 0, 0), dims.idx3(2, 0, 0));
    let br = NegotiatedRouter::new()
        .route(&grid, std::slice::from_ref(&a))
        .unwrap();
    assert!(
        br.unrouted.is_empty(),
        "net must route by changing layers: {br:?}"
    );
    assert_eq!(br.results.len(), 1);

    let path = &br.results[0].path;
    assert_eq!(path.first().copied(), Some(a.src));
    assert_eq!(path.last().copied(), Some(a.dst));
    assert!(
        path.iter().any(|&c| dims.layer_of(c) == 0),
        "path must touch layer 0: {path:?}"
    );
    assert!(
        path.iter().any(|&c| dims.layer_of(c) == 1),
        "path must via onto layer 1 to cross the wall: {path:?}"
    );
    for w in path.windows(2) {
        let planar = dims.neighbors4(w[0]).contains(&w[1]);
        let via = dims.via_neighbors(w[0]).contains(&w[1]);
        assert!(planar || via, "illegal step {} -> {}", w[0], w[1]);
    }
}

#[test]
fn forbidden_via_step_leaves_net_unrouted() {
    let dims = Dims::with_layers(3, 1, 2);
    let mut gb = GridBuilder::new(dims, 1);
    gb.mark_cell(1, 0);
    let grid = gb.build();

    let vm = ViaModel::with_allowed_steps(2, ViaModel::DEFAULT_STEP_COST, Vec::new());
    let a = net("a", dims.idx3(0, 0, 0), dims.idx3(2, 0, 0));
    let br = NegotiatedRouter::new()
        .with_via_model(vm)
        .route(&grid, std::slice::from_ref(&a))
        .unwrap();
    assert_eq!(br.results.len(), 0, "no route exists without a legal via");
    assert_eq!(br.unrouted, vec!["a".to_string()]);
}

#[test]
fn single_layer_routes_identically_with_vias_available() {
    let dims = Dims::new(5, 5);
    let grid = GridBuilder::new(dims, 1).build();
    let a = net("a", dims.idx(0, 0), dims.idx(4, 0));

    let br_default = NegotiatedRouter::new()
        .route(&grid, std::slice::from_ref(&a))
        .unwrap();
    let br_vm = NegotiatedRouter::new()
        .with_via_model(ViaModel::through_hole(1))
        .route(&grid, std::slice::from_ref(&a))
        .unwrap();

    assert!(br_default.unrouted.is_empty());
    assert_eq!(br_default.results.len(), 1);
    assert_eq!(br_default.results[0].cost, 4, "straight 5-wide run costs 4");
    assert!(br_default.results[0]
        .path
        .iter()
        .all(|&c| dims.layer_of(c) == 0));
    assert_eq!(br_default.results, br_vm.results);
    assert_eq!(br_default.congestion, br_vm.congestion);
}

fn within_one(dims: Dims, a: &[CellIdx], b: &[CellIdx]) -> bool {
    let sb: std::collections::HashSet<_> = b.iter().copied().collect();
    a.iter().any(|&c| {
        let (x, y, l) = dims.xyz(c);
        for dy in -1i64..=1 {
            for dx in -1i64..=1 {
                let nx = x as i64 + dx;
                let ny = y as i64 + dy;
                if nx < 0 || ny < 0 || nx as u32 >= dims.w || ny as u32 >= dims.h {
                    continue;
                }
                if sb.contains(&dims.idx3(nx as u32, ny as u32, l)) {
                    return true;
                }
            }
        }
        false
    })
}

#[test]
fn clearance_halo_prefers_spacing_when_room() {
    let dims = Dims::new(8, 6);
    let grid = GridBuilder::new(dims, 1).build();
    let a = net("a", dims.idx(0, 1), dims.idx(7, 1));
    let b = net("b", dims.idx(0, 4), dims.idx(7, 4));

    let br = NegotiatedRouter::new()
        .with_clearance_cells(1)
        .route(&grid, &[a.clone(), b.clone()])
        .unwrap();
    assert!(
        br.unrouted.is_empty(),
        "soft clearance: both nets must still route on a roomy board: {br:?}"
    );
    assert_eq!(br.results.len(), 2);
    let (pa, pb) = (&br.results[0].path, &br.results[1].path);
    assert!(disjoint(pa, pb), "copper must stay hard-disjoint");
    assert!(
        !within_one(dims, pa, pb),
        "soft clearance: on a roomy board the router PREFERS a clearance-legal \
         layout (no shared 8-neighbour cell): {pa:?} {pb:?}"
    );
}

#[test]
fn hard_clearance_drops_net_rather_than_violate() {
    let dims = Dims::new(3, 5);
    let a = NetEndpoints {
        net: "a".into(),
        src: dims.idx(1, 0),
        dst: dims.idx(1, 3),
        passable_pads: Vec::new(),
        via_passable_pads: Vec::new(),
    };
    let grid = GridBuilder::new(dims, 1).build();
    let b = net("b", dims.idx(0, 2), dims.idx(2, 2));

    let br = NegotiatedRouter::new()
        .with_clearance_cells(1)
        .route(&grid, &[a.clone(), b.clone()])
        .unwrap();

    assert!(
        !br.unrouted.is_empty(),
        "hard clearance must leave the congested net unrouted, not violate: {br:?}"
    );

    for r1 in &br.results {
        for r2 in &br.results {
            if r1.net == r2.net {
                continue;
            }
            assert!(
                !within_one(dims, &r1.path, &r2.path),
                "committed copper must never violate clearance: {r1:?} vs {r2:?}"
            );
        }
    }
}

#[test]
fn hard_clearance_fast_path_unchanged_when_clearance_zero() {
    let dims = Dims::new(3, 5);
    let a = NetEndpoints {
        net: "a".into(),
        src: dims.idx(1, 0),
        dst: dims.idx(1, 3),
        passable_pads: Vec::new(),
        via_passable_pads: Vec::new(),
    };
    let grid = GridBuilder::new(dims, 1).build();
    let b = net("b", dims.idx(0, 2), dims.idx(2, 2));

    let br = NegotiatedRouter::new()
        .with_clearance_cells(0)
        .route(&grid, &[a.clone(), b.clone()])
        .unwrap();

    assert!(
        br.unrouted.is_empty(),
        "clearance-0 fast path: both nets must route (halo inert): {br:?}"
    );
    assert_eq!(br.results.len(), 2);
    let ra = br.results.iter().find(|r| r.net == "a").expect("A routes");
    let rb = br.results.iter().find(|r| r.net == "b").expect("B routes");
    assert!(
        disjoint(&ra.path, &rb.path),
        "distinct nets must never overlap copper: {ra:?} {rb:?}"
    );
}

#[test]
fn via_forbidden_endpoint_exemption_is_layer_local() {
    let dims = Dims::with_layers(2, 1, 2);
    let mut gb = GridBuilder::new(dims, 1);
    gb.mark_cell_layer(1, 0, 0);
    let mut grid = gb.build();
    let top_src = dims.idx3(0, 0, 0);
    let bottom_under_src = dims.idx3(0, 0, 1);
    let bottom_dst = dims.idx3(1, 0, 1);
    grid.via_forbidden = vec![false; dims.len()];
    grid.via_forbidden[top_src as usize] = true;
    grid.via_forbidden[bottom_under_src as usize] = true;

    let top_smd = NetEndpoints {
        net: "top_smd".into(),
        src: top_src,
        dst: bottom_dst,
        passable_pads: vec![top_src],
        via_passable_pads: vec![top_src],
    };
    let blocked = NegotiatedRouter::new()
        .route(&grid, std::slice::from_ref(&top_smd))
        .unwrap();
    assert_eq!(blocked.unrouted, ["top_smd"]);

    let through_pad = NetEndpoints {
        net: "through".into(),
        passable_pads: vec![top_src, bottom_under_src],
        via_passable_pads: vec![bottom_under_src, top_src],
        ..top_smd
    };
    let allowed = NegotiatedRouter::new()
        .route(&grid, std::slice::from_ref(&through_pad))
        .unwrap();
    assert!(allowed.unrouted.is_empty());

    let invalid_subset = NetEndpoints {
        net: "bad-subset".into(),
        passable_pads: vec![top_src],
        via_passable_pads: vec![bottom_under_src],
        ..through_pad.clone()
    };
    assert!(matches!(
        NegotiatedRouter::new().route(&grid, &[invalid_subset]),
        Err(RouterError::InvalidEndpoint { .. })
    ));
    let invalid_index = NetEndpoints {
        net: "bad-index".into(),
        via_passable_pads: vec![dims.len() as CellIdx],
        ..through_pad
    };
    assert!(matches!(
        NegotiatedRouter::new().route(&grid, &[invalid_index]),
        Err(RouterError::InvalidEndpoint { .. })
    ));
}

#[test]
fn via_keepout_prefers_clear_neighbourhood_when_room() {
    let dims = Dims::with_layers(5, 5, 2);
    let mut gb = GridBuilder::new(dims, 1);
    for y in 0..5 {
        gb.mark_cell(2, y);
    }
    let grid = gb.build();
    for y in 0..5 {
        assert!(grid.is_obstacle(dims.idx3(2, y, 0)));
        assert!(!grid.is_obstacle(dims.idx3(2, y, 1)));
    }

    let a = net("a", dims.idx3(0, 0, 0), dims.idx3(4, 0, 0));
    let b = net("b", dims.idx3(0, 4, 0), dims.idx3(4, 4, 0));

    let vm = {
        let mut m = ViaModel::through_hole(2);
        m.keepout_cells = 1;
        m
    };
    let br = NegotiatedRouter::new()
        .with_via_model(vm)
        .with_clearance_cells(0)
        .route(&grid, &[a.clone(), b.clone()])
        .unwrap();

    assert!(
        br.unrouted.is_empty(),
        "soft via keepout: both nets must route: {br:?}"
    );
    let ra = br
        .results
        .iter()
        .find(|r| r.net == "a")
        .expect("A must route");
    let rb = br
        .results
        .iter()
        .find(|r| r.net == "b")
        .expect("B must route");
    let mut via_neigh: std::collections::HashSet<CellIdx> = std::collections::HashSet::new();
    for w in ra.path.windows(2) {
        let (ax, ay, al) = dims.xyz(w[0]);
        let (bx, by, bl) = dims.xyz(w[1]);
        if ax == bx && ay == by && al != bl {
            for &l in &[al, bl] {
                for dy in -1i64..=1 {
                    for dx in -1i64..=1 {
                        let nx = ax as i64 + dx;
                        let ny = ay as i64 + dy;
                        if nx < 0 || ny < 0 || nx as u32 >= dims.w || ny as u32 >= dims.h {
                            continue;
                        }
                        let nc = dims.idx3(nx as u32, ny as u32, l);
                        if !grid.is_obstacle(nc) {
                            via_neigh.insert(nc);
                        }
                    }
                }
            }
        }
    }
    assert!(
        !via_neigh.is_empty(),
        "A must place at least one via: {ra:?}"
    );

    for &c in &rb.path {
        assert!(
            !via_neigh.contains(&c) || ra.path.contains(&c),
            "soft via keepout (roomy board): B's copper should avoid A's reserved \
             via neighbourhood at cell {c}: {rb:?}"
        );
    }
}

#[test]
fn clearance_zero_reproduces_golden() {
    let dims = Dims::new(5, 5);
    let grid = GridBuilder::new(dims, 1).build();
    let a = net("a", dims.idx(2, 1), dims.idx(2, 3));
    let b = net("b", dims.idx(1, 2), dims.idx(3, 2));

    let br_default = NegotiatedRouter::new()
        .route(&grid, &[a.clone(), b.clone()])
        .unwrap();
    let br_zero = NegotiatedRouter::new()
        .with_clearance_cells(0)
        .route(&grid, &[a.clone(), b.clone()])
        .unwrap();

    assert_eq!(br_default.results, br_zero.results);
    assert_eq!(br_default.unrouted, br_zero.unrouted);
    assert_eq!(br_default.congestion, br_zero.congestion);

    assert!(br_zero.unrouted.is_empty());
    assert_eq!(br_zero.results.len(), 2);
    assert!(disjoint(&br_zero.results[0].path, &br_zero.results[1].path));
}

#[test]
fn counted_halo_stamp_removes_exact_parallel_self_cost() {
    let dims = Dims::new(7, 5);
    let grid = GridBuilder::new(dims, 1).build();
    let geometry = Geometry::uniform(dims, 1, 0);
    let via_model = ViaModel::through_hole(1);
    let src = dims.idx(1, 2);
    let dst = dims.idx(5, 2);
    let nets = [net("own", src, dst)];
    let problem = Problem::new(&grid, &nets, &via_model, &geometry);
    let old_path: Vec<_> = (1..=5).map(|x| dims.idx(x, 2)).collect();
    let mut present = vec![0u32; dims.len()];
    for &c in &old_path {
        present[c as usize] += 1;
    }
    let mut present_halo = vec![0u32; dims.len()];
    for c in halo_list(&grid, &geometry, &old_path) {
        present_halo[c as usize] += 1;
    }

    let mut pads = PadSet::new(dims.len());
    pads.load(&Vec::new());
    let mut own_path = PadSet::new(dims.len());
    own_path.load(&old_path);
    let mut own_halo = CountedCellSet::new(dims.len());
    own_halo.clear();
    for c in halo_list(&grid, &geometry, &old_path) {
        own_halo.increment(c);
    }
    let centre = dims.idx(3, 2);
    assert!(present_halo[centre as usize] > 1, "fixture needs overlap");
    for c in 0..dims.len() as CellIdx {
        assert_eq!(own_halo.count(c), present_halo[c as usize], "cell {c}");
    }

    let zeros = vec![0u32; dims.len()];
    let full = IsolatedRouteWindow::full(dims);
    let mut with_snapshot_buf = SearchBuf::new(dims.len());
    let with_snapshot = route_negotiated(
        &mut with_snapshot_buf,
        &problem,
        0,
        &pads,
        full,
        &zeros,
        7,
        &Pricing::Own {
            present: &present,
            halo: &present_halo,
            own_path: &own_path,
            own_halo: &own_halo,
        },
    );

    let pfac = 7u32;
    let shared: Vec<u64> = present
        .iter()
        .zip(&present_halo)
        .map(|(&p, &h)| {
            (pfac as u64) * (SCALE as u64) * p as u64 + (pfac as u64) * (SCALE as u64) * h as u64
        })
        .collect();
    let mut combined_self = CountedCellSet::new(dims.len());
    combined_self.clear();
    for c in halo_list(&grid, &geometry, &old_path) {
        combined_self.increment(c);
    }
    for &c in &old_path {
        combined_self.increment(c);
    }
    let mut fused_buf = SearchBuf::new(dims.len());
    let fused = route_negotiated(
        &mut fused_buf,
        &problem,
        0,
        &pads,
        full,
        &zeros,
        pfac,
        &Pricing::Fused {
            shared: &shared,
            own: &combined_self,
        },
    );
    assert_eq!(fused, with_snapshot, "fused Jacobi pricing must be exact");

    let mut empty_buf = SearchBuf::new(dims.len());
    let without_snapshot = route_negotiated(
        &mut empty_buf,
        &problem,
        0,
        &pads,
        full,
        &zeros,
        7,
        &Pricing::Plain {
            present: &zeros,
            halo: &zeros,
        },
    );
    assert_eq!(
        with_snapshot, without_snapshot,
        "a net's old copper and repeated halo visits must contribute zero self-cost"
    );
}

#[test]
fn fused_jacobi_pricing_matches_unfused_randomized() {
    struct Rng(u64);

    impl Rng {
        fn next(&mut self) -> u64 {
            self.0 = self
                .0
                .wrapping_mul(6364136223846793005)
                .wrapping_add(1442695040888963407);
            self.0
        }

        fn below(&mut self, bound: u32) -> u32 {
            ((self.next() >> 32) as u32) % bound.max(1)
        }
    }

    fn random_axis(rng: &mut Rng, count: u32) -> Vec<f64> {
        let mut out = Vec::with_capacity(count as usize);
        let mut value = 0.0;
        for _ in 0..count {
            out.push(value);
            value += (rng.below(40) + 1) as f64 / 10.0;
        }
        out
    }

    let mut rng = Rng(0x4d59_5df4_d0f3_3173);
    let mut saw_zero = false;
    let mut saw_weighted = false;
    let mut saw_obstacle = false;
    let mut saw_multilayer = false;
    let mut saw_restricted_via = false;
    let mut saw_partial_window = false;
    let mut saw_pad = false;
    let mut saw_high_count = false;

    for case in 0..512 {
        let dims = Dims::with_layers(2 + rng.below(6), 2 + rng.below(6), 1 + rng.below(4));
        saw_multilayer |= dims.layers > 1;

        let mut grid = Grid::filled(dims, 1);
        for cell in 0..dims.len() as CellIdx {
            let cost = match rng.below(12) {
                0 | 1 => {
                    saw_obstacle = true;
                    OBSTACLE
                }
                2 => {
                    saw_zero = true;
                    0
                }
                3 | 4 => 1,
                _ => {
                    saw_weighted = true;
                    2 + rng.below(2_000)
                }
            };
            grid.set(cell, cost);
        }

        let src = rng.below(dims.len() as u32);
        let dst = rng.below(dims.len() as u32);
        let (sx, sy) = dims.xy(src);
        let (dx, dy) = dims.xy(dst);
        let min_x = sx.min(dx);
        let min_y = sy.min(dy);
        let max_x = sx.max(dx);
        let max_y = sy.max(dy);
        let window = IsolatedRouteWindow {
            x0: rng.below(min_x + 1),
            y0: rng.below(min_y + 1),
            x1: max_x + rng.below(dims.w - max_x),
            y1: max_y + rng.below(dims.h - max_y),
        };
        saw_partial_window |= window != IsolatedRouteWindow::full(dims);

        let mut pad_cells = Vec::new();
        for cell in 0..dims.len() as CellIdx {
            if window.contains(dims, cell)
                && (grid.is_obstacle(cell) || rng.below(19) == 0)
                && rng.below(5) == 0
            {
                pad_cells.push(cell);
            }
        }
        if grid.is_obstacle(src) {
            pad_cells.push(src);
        }
        if grid.is_obstacle(dst) {
            pad_cells.push(dst);
        }
        pad_cells.sort_unstable();
        pad_cells.dedup();
        saw_pad |= !pad_cells.is_empty();
        let mut pads = PadSet::new(dims.len());
        pads.load(&pad_cells);

        let geometry = if case % 3 == 0 {
            Geometry::uniform(dims, 0, 0)
        } else {
            let x = random_axis(&mut rng, dims.w);
            let y = random_axis(&mut rng, dims.h);
            spacing(dims, &x, &y, 0.0, 0.0)
        };

        let via_model = if dims.layers > 1 && case % 2 == 0 {
            saw_restricted_via = true;
            let allowed = (0..dims.layers - 1)
                .filter(|_| rng.below(2) == 0)
                .map(|layer| (layer, layer + 1))
                .collect();
            ViaModel::with_allowed_steps(
                dims.layers,
                1 + rng.below(ViaModel::DEFAULT_STEP_COST * 3),
                allowed,
            )
        } else {
            let mut model = ViaModel::through_hole(dims.layers);
            model.step_cost = 1 + rng.below(ViaModel::DEFAULT_STEP_COST * 3);
            model
        };

        let pfac = 1 + rng.below(MAX_ITERS);
        let mut present = vec![0u32; dims.len()];
        let mut present_halo = vec![0u32; dims.len()];
        let mut history = vec![0u32; dims.len()];
        let mut own_cells = Vec::new();
        let mut own_halo_counts = vec![0u32; dims.len()];

        for cell in 0..dims.len() as CellIdx {
            let ci = cell as usize;
            let self_present = u32::from(rng.below(7) == 0);
            if self_present != 0 {
                own_cells.push(cell);
            }
            let self_halo = if rng.below(31) == 0 {
                saw_high_count = true;
                1_000_000 + rng.below(1_000_000)
            } else {
                rng.below(9)
            };
            own_halo_counts[ci] = self_halo;

            let high_present = rng.below(23) == 0;
            let high_halo = rng.below(23) == 0;
            saw_high_count |= high_present || high_halo;
            let foreign_present = if high_present {
                u32::MAX - self_present - rng.below(4_096)
            } else {
                rng.below(32)
            };
            let foreign_halo = if high_halo {
                u32::MAX - self_halo - rng.below(4_096)
            } else {
                rng.below(64)
            };
            present[ci] = foreign_present + self_present;
            present_halo[ci] = foreign_halo + self_halo;
            history[ci] = if rng.below(29) == 0 {
                u32::MAX - rng.below(4_096)
            } else {
                rng.below(100_000)
            };
        }

        let mut own_path = PadSet::new(dims.len());
        own_path.load(&own_cells);
        let mut own_halo = CountedCellSet::new(dims.len());
        let mut combined_self = CountedCellSet::new(dims.len());
        own_halo.clear();
        combined_self.clear();
        for cell in 0..dims.len() as CellIdx {
            let ci = cell as usize;
            let halo = own_halo_counts[ci];
            let copper = u32::from(own_cells.binary_search(&cell).is_ok());
            if halo != 0 {
                own_halo.stamp[ci] = own_halo.gen;
                own_halo.count[ci] = halo;
            }
            let combined = halo + copper;
            if combined != 0 {
                combined_self.stamp[ci] = combined_self.gen;
                combined_self.count[ci] = combined;
            }
        }

        let present_factor = (pfac as u64) * (SCALE as u64);
        let halo_factor = (pfac as u64) * (SCALE as u64);
        let shared_congestion: Vec<u64> = present
            .iter()
            .zip(&present_halo)
            .map(|(&p, &h)| (present_factor * p as u64).saturating_add(halo_factor * h as u64))
            .collect();
        let own = NetEndpoints {
            passable_pads: pad_cells.clone(),
            ..net("own", src, dst)
        };
        let own_nets = [own];
        let problem = Problem::new(&grid, &own_nets, &via_model, &geometry);

        let mut unfused_buf = SearchBuf::new(dims.len());
        let unfused = route_negotiated(
            &mut unfused_buf,
            &problem,
            0,
            &pads,
            window,
            &history,
            pfac,
            &Pricing::Own {
                present: &present,
                halo: &present_halo,
                own_path: &own_path,
                own_halo: &own_halo,
            },
        );
        let mut fused_buf = SearchBuf::new(dims.len());
        let fused = route_negotiated(
            &mut fused_buf,
            &problem,
            0,
            &pads,
            window,
            &history,
            pfac,
            &Pricing::Fused {
                shared: &shared_congestion,
                own: &combined_self,
            },
        );
        assert_eq!(fused, unfused, "randomized pricing mismatch in case {case}");
    }

    assert!(saw_zero && saw_weighted && saw_obstacle);
    assert!(saw_multilayer && saw_restricted_via && saw_partial_window);
    assert!(saw_pad && saw_high_count);
}

#[test]
fn clearance_active_route_is_deterministic() {
    let dims = Dims::new(12, 12);
    let grid = GridBuilder::new(dims, 1).build();
    let nets = vec![
        net("a", dims.idx(0, 0), dims.idx(11, 11)),
        net("b", dims.idx(11, 0), dims.idx(0, 11)),
        net("c", dims.idx(0, 5), dims.idx(11, 5)),
        net("d", dims.idx(5, 0), dims.idx(5, 11)),
        net("e", dims.idx(0, 9), dims.idx(11, 2)),
    ];

    let router = NegotiatedRouter::new().with_clearance_cells(1);
    let br1 = router.route(&grid, &nets).unwrap();
    let br2 = router.route(&grid, &nets).unwrap();

    assert_eq!(br1.results, br2.results);
    assert_eq!(br1.unrouted, br2.unrouted);
    assert_eq!(br1.congestion, br2.congestion);
}

#[test]
fn clearance_active_routes_all_on_roomy_board() {
    let dims = Dims::new(10, 10);
    let grid = GridBuilder::new(dims, 1).build();
    let nets = vec![
        net("a", dims.idx(0, 1), dims.idx(9, 1)),
        net("b", dims.idx(0, 5), dims.idx(9, 5)),
        net("c", dims.idx(0, 8), dims.idx(9, 8)),
    ];

    let br = NegotiatedRouter::new()
        .with_clearance_cells(1)
        .route(&grid, &nets)
        .unwrap();

    assert!(
        br.unrouted.is_empty(),
        "clearance route must place all nets on a roomy board: {br:?}"
    );
    assert_eq!(br.results.len(), 3);
    for i in 0..br.results.len() {
        for j in (i + 1)..br.results.len() {
            assert!(
                disjoint(&br.results[i].path, &br.results[j].path),
                "distinct nets must be cell-disjoint"
            );
        }
    }
}

#[test]
fn nonuniform_stage_enforces_geometric_clearance() {
    let dims = Dims::new(80, 1);
    let grid = GridBuilder::new(dims, 1).build();
    let lines: Vec<f64> = (0..dims.w).map(|i| i as f64 * 0.01).collect();
    let nets = vec![net("a", 0, 2), net("b", 40, 42)];
    let board = NegotiatedRouter::new()
        .with_coords(lines_at(dims, &lines, &[0.0]))
        .with_clearance_mm(reach_at(dims, &lines, &[0.0], 0.5))
        .route(&grid, &nets)
        .unwrap();
    assert_eq!(
        board.results.len(),
        1,
        "both straight 1-D routes are too close"
    );
    assert_eq!(board.unrouted.len(), 1);
}

#[test]
fn a_clearance_in_cells_is_measured_over_given_lines() {
    let dims = Dims::new(80, 1);
    let grid = GridBuilder::new(dims, 1).build();
    let nets = vec![net("a", 0, 2), net("b", 40, 42)];
    let near: Vec<f64> = (0..dims.w).map(|i| i as f64 * 0.01).collect();
    let routed = |router: NegotiatedRouter| router.route(&grid, &nets).unwrap().results.len();
    let lines = || lines_at(dims, &near, &[0.0]);
    assert_eq!(routed(NegotiatedRouter::new().with_coords(lines()).with_clearance_cells(1)), 1);
    assert_eq!(routed(NegotiatedRouter::new().with_clearance_cells(1).with_coords(lines())), 1);
    assert_eq!(routed(NegotiatedRouter::new().with_coords(lines()).with_clearance_cells(0)), 2);
    assert_eq!(routed(NegotiatedRouter::new().with_clearance_cells(1)), 2);
    // The last clearance that is given counts.
    let wide = || reach_at(dims, &near, &[0.0], 0.5);
    let both = NegotiatedRouter::new()
        .with_coords(lines())
        .with_clearance_mm(wide())
        .with_clearance_cells(0);
    assert_eq!(routed(both), 2);
    let both = NegotiatedRouter::new()
        .with_coords(lines())
        .with_clearance_cells(0)
        .with_clearance_mm(wide());
    assert_eq!(routed(both), 1);
}

#[test]
fn lines_far_apart_are_not_within_a_cell_of_clearance() {
    let dims = Dims::new(6, 2);
    let grid = GridBuilder::new(dims, 1).build();
    let nets = vec![
        net("a", dims.idx(0, 0), dims.idx(5, 0)),
        net("b", dims.idx(0, 1), dims.idx(5, 1)),
    ];
    let router = NegotiatedRouter::new().with_clearance_cells(1);
    assert_eq!(router.route(&grid, &nets).unwrap().results.len(), 1);
    let x: Vec<f64> = (0..dims.w).map(f64::from).collect();
    let router = router.with_coords(lines_at(dims, &x, &[0.0, 1.5]));
    assert_eq!(router.route(&grid, &nets).unwrap().results.len(), 2);
}

#[test]
fn a_keepout_of_vias_is_measured_over_given_lines() {
    let dims = Dims::with_layers(5, 1, 2);
    let grid = Grid::filled(dims, 1);
    let nets = vec![
        net("a", dims.idx3(0, 0, 0), dims.idx3(1, 0, 1)),
        net("b", dims.idx3(3, 0, 0), dims.idx3(4, 0, 1)),
    ];
    let x: Vec<f64> = (0..dims.w).map(|i| i as f64 * 0.1).collect();
    let via = || ViaModel {
        keepout_cells: 1,
        ..ViaModel::through_hole(2)
    };
    let routed = |router: NegotiatedRouter| router.route(&grid, &nets).unwrap().results.len();
    assert_eq!(routed(NegotiatedRouter::new().with_via_model(via())), 2);
    let close = NegotiatedRouter::new()
        .with_via_model(via())
        .with_coords(lines_at(dims, &x, &[0.0]));
    assert_eq!(routed(close), 1);
    let given = |r: f64| {
        NegotiatedRouter::new()
            .with_coords(lines_at(dims, &x, &[0.0]))
            .with_keepout(reach_at(dims, &x, &[0.0], r))
    };
    assert_eq!(routed(given(0.45)), 1);
    assert_eq!(routed(given(0.15)), 2);
}

#[test]
fn short_coordinate_arrays_fall_back_to_uniform_for_clearance() {
    let dims = Dims::new(3, 5);
    let grid = GridBuilder::new(dims, 1).build();
    let nets = vec![
        net("a", dims.idx(1, 0), dims.idx(1, 3)),
        net("b", dims.idx(0, 2), dims.idx(2, 2)),
    ];
    let xs: Vec<f64> = (0..dims.w).map(|k| k as f64).collect();
    let ys: Vec<f64> = (0..dims.h).map(|k| k as f64).collect();
    let uniform = NegotiatedRouter::new()
        .with_coords(lines_at(dims, &xs, &ys))
        .with_clearance_mm(reach_at(dims, &xs, &ys, 1.0))
        .route(&grid, &nets)
        .unwrap();
    let defensive = NegotiatedRouter::new()
        .with_coords(lines_at(dims, &[], &[]))
        .with_clearance_mm(reach_at(dims, &[], &[], 1.0))
        .route(&grid, &nets)
        .unwrap();
    assert_eq!(
        defensive, uniform,
        "missing lines use x_of/y_of unit fallback"
    );
}

#[test]
fn roomy_clearance_crossing_converges_before_iteration_cap() {
    let dims = Dims::new(9, 9);
    let grid = GridBuilder::new(dims, 1).build();
    let nets = vec![
        net("a", dims.idx(4, 1), dims.idx(4, 7)),
        net("b", dims.idx(1, 4), dims.idx(7, 4)),
    ];
    let (_board, trace) = NegotiatedRouter::new()
        .with_clearance_cells(1)
        .route_traced(&grid, &nets)
        .unwrap();
    assert!(
        trace.iterations.len() < MAX_ITERS as usize,
        "a two-net open board must not oscillate for all {MAX_ITERS} iterations"
    );
    assert!(!trace.iterations.last().unwrap().any_overuse);
}

#[test]
fn large_parallel_route_is_identical_across_rayon_pool_sizes() {
    let dims = Dims::new(24, 24);
    let grid = GridBuilder::new(dims, 1).build();
    let nets: Vec<_> = (0..18u32)
        .map(|i| net(&format!("n{i}"), dims.idx(0, i + 2), dims.idx(23, i + 2)))
        .collect();
    let route_in = |threads| {
        rayon::ThreadPoolBuilder::new()
            .num_threads(threads)
            .build()
            .unwrap()
            .install(|| NegotiatedRouter::new().route(&grid, &nets).unwrap())
    };
    let one = route_in(1);
    assert_eq!(route_in(2), one);
    assert_eq!(route_in(4), one);
}

#[test]
fn parallel_clearance_route_is_identical_across_rayon_pool_sizes() {
    let dims = Dims::new(40, 40);
    let grid = GridBuilder::new(dims, 1).build();
    let mut nets = vec![
        net("cross-v", dims.idx(25, 12), dims.idx(25, 28)),
        net("cross-h", dims.idx(17, 20), dims.idx(33, 20)),
    ];
    nets.extend((0..15u32).map(|i| {
        let y = i * 2;
        net(&format!("filler-{i}"), dims.idx(0, y), dims.idx(4, y))
    }));

    let route_in = |threads| {
        rayon::ThreadPoolBuilder::new()
            .num_threads(threads)
            .build()
            .unwrap()
            .install(|| {
                NegotiatedRouter::new()
                    .with_clearance_cells(1)
                    .route_traced(&grid, &nets)
                    .unwrap()
            })
    };
    let one = route_in(1);
    assert!(
        one.1.iterations.len() > 1,
        "fixture must exercise old-path self-halo subtraction"
    );
    let assert_same = |got: (BoardRoute, RouteTrace)| {
        assert_eq!(got.0, one.0);
        assert_eq!(got.1.iterations.len(), one.1.iterations.len());
        for (a, b) in got.1.iterations.iter().zip(&one.1.iterations) {
            assert_eq!(
                (a.iter, a.pfac, a.any_overuse),
                (b.iter, b.pfac, b.any_overuse)
            );
            assert_eq!(a.paths, b.paths);
            assert_eq!(a.overused_cells, b.overused_cells);
        }
    };
    assert_same(route_in(2));
    assert_same(route_in(4));
}

const MULTILAYER_PORTFOLIO_ENDPOINTS: [(u32, u32, u32, u32, u32, u32); 17] = [
    (9, 0, 0, 0, 10, 0),
    (6, 13, 1, 13, 0, 1),
    (0, 3, 1, 13, 9, 1),
    (0, 4, 1, 10, 13, 0),
    (7, 0, 1, 4, 13, 1),
    (3, 0, 0, 8, 13, 0),
    (0, 13, 1, 13, 4, 1),
    (8, 0, 1, 3, 13, 1),
    (2, 0, 1, 13, 13, 1),
    (0, 8, 0, 13, 7, 0),
    (0, 4, 0, 10, 13, 1),
    (0, 6, 0, 13, 7, 1),
    (4, 13, 0, 3, 0, 1),
    (13, 2, 1, 2, 13, 0),
    (2, 13, 0, 13, 0, 0),
    (12, 0, 0, 0, 10, 0),
    (4, 0, 0, 12, 13, 0),
];

fn multilayer_portfolio_nets(dims: Dims, grouped_first_pair: bool) -> Vec<NetEndpoints> {
    MULTILAYER_PORTFOLIO_ENDPOINTS
        .into_iter()
        .enumerate()
        .map(|(i, (sx, sy, sl, dx, dy, dl))| {
            let name = if grouped_first_pair && i < 2 {
                format!("group#{i}")
            } else {
                format!("n{i}")
            };
            net(&name, dims.idx3(sx, sy, sl), dims.idx3(dx, dy, dl))
        })
        .collect()
}

#[test]
fn multilayer_parallel_clearance_preserves_better_jacobi_seed() {
    let dims = Dims::with_layers(14, 14, 2);
    let grid = GridBuilder::new(dims, 1).build();
    let nets = multilayer_portfolio_nets(dims, false);
    assert!(nets.len() > PARALLEL_NEGOTIATION_THRESHOLD);

    let route_in = |threads| {
        rayon::ThreadPoolBuilder::new()
            .num_threads(threads)
            .build()
            .unwrap()
            .install(|| {
                NegotiatedRouter::new()
                    .with_clearance_cells(1)
                    .route_variant(&grid, &nets, NegotiationMode::Adaptive)
                    .unwrap()
                    .0
                    .board
            })
    };
    let one = route_in(1);
    assert_eq!(
        one.results
            .iter()
            .map(|result| result.net.as_str())
            .collect::<Vec<_>>(),
        ["n0", "n1", "n2", "n3", "n15"],
        "the unpolished multilayer Jacobi seed must retain its fifth legal net"
    );
    assert_eq!(route_in(2), one);
    assert_eq!(route_in(4), one);
}

#[test]
fn concurrent_routes_give_the_same_board_and_trace() {
    let dims = Dims::with_layers(14, 14, 2);
    let grid = GridBuilder::new(dims, 1).build();
    let nets = multilayer_portfolio_nets(dims, false);
    let router = NegotiatedRouter::new().with_clearance_cells(1);
    let pool = rayon::ThreadPoolBuilder::new()
        .num_threads(4)
        .build()
        .unwrap();
    let outcomes: Vec<_> = pool.install(|| {
        (0..8)
            .into_par_iter()
            .map(|_| router.route_traced(&grid, &nets).unwrap())
            .collect()
    });
    assert!(outcomes[0].1.iterations.len() > 1);
    for (board, trace) in &outcomes[1..] {
        assert_eq!(board, &outcomes[0].0);
        assert_trace_eq(trace, &outcomes[0].1);
    }
}

#[test]
fn serial_portfolio_selects_lower_cost_candidate_with_identical_trace() {
    let dims = Dims::with_layers(14, 14, 2);
    let grid = GridBuilder::new(dims, 1).build();
    let nets = multilayer_portfolio_nets(dims, true);
    let router = NegotiatedRouter::new().with_clearance_cells(1);

    let primary = router
        .route_variant(&grid, &nets, NegotiationMode::Adaptive)
        .unwrap()
        .0
        .board;
    let (serial_outcome, serial_trace) = router
        .route_variant(&grid, &nets, NegotiationMode::ForceSerial)
        .unwrap();
    let serial = serial_outcome.board;
    assert_eq!((primary.results.len(), primary.total_cost()), (5, 108));
    assert_eq!((serial.results.len(), serial.total_cost()), (5, 88));
    assert!(serial_candidate_is_better(&primary, &serial));
    assert_eq!(router.route(&grid, &nets).unwrap(), serial);

    let route_in = |threads| {
        rayon::ThreadPoolBuilder::new()
            .num_threads(threads)
            .build()
            .unwrap()
            .install(|| router.route_traced(&grid, &nets).unwrap())
    };
    let one = route_in(1);
    assert_eq!(one.0, serial);
    assert_trace_eq(&one.1, &serial_trace);
    for threads in [2, 4] {
        let got = route_in(threads);
        assert_eq!(got.0, one.0);
        assert_trace_eq(&got.1, &one.1);
    }
}

#[test]
fn isolated_provider_batch_is_reused_across_bounded_portfolio_variants() {
    let dims = Dims::with_layers(14, 14, 2);
    let grid = GridBuilder::new(dims, 1).build();
    let nets = multilayer_portfolio_nets(dims, true);
    let router = NegotiatedRouter::new().with_clearance_cells(1);

    let (expected_board, expected_trace) = router.route_traced(&grid, &nets).unwrap();
    assert_eq!(
        (expected_board.results.len(), expected_board.total_cost()),
        (5, 88)
    );
    let provider = MockProvider::paths(provider_paths_from_trace(&expected_trace));
    let (board, trace) = router
        .route_traced_with_isolated_provider(&grid, &nets, &provider)
        .unwrap();

    assert_eq!(board, expected_board);
    assert_trace_eq(&trace, &expected_trace);
    assert_eq!(
        provider.calls(),
        1,
        "primary and serial variants must borrow one precomputed batch"
    );
}

#[test]
fn serial_portfolio_retains_primary_when_serial_routes_fewer() {
    let dims = Dims::with_layers(14, 14, 2);
    let grid = GridBuilder::new(dims, 1).build();
    let endpoints = [
        (97, 381),
        (176, 32),
        (271, 326),
        (169, 20),
        (131, 284),
        (110, 261),
        (213, 253),
        (128, 13),
        (115, 388),
        (86, 264),
        (356, 233),
        (77, 58),
        (236, 151),
        (380, 215),
        (62, 156),
        (104, 107),
        (276, 218),
    ];
    let nets: Vec<_> = endpoints
        .into_iter()
        .enumerate()
        .map(|(i, (src, dst))| {
            let name = if i < 2 {
                format!("group#{i}")
            } else {
                format!("n{i}")
            };
            net(&name, src, dst)
        })
        .collect();
    let router = NegotiatedRouter::new().with_clearance_cells(1);
    let primary = router
        .route_variant(&grid, &nets, NegotiationMode::Adaptive)
        .unwrap()
        .0
        .board;
    let serial = router
        .route_variant(&grid, &nets, NegotiationMode::ForceSerial)
        .unwrap()
        .0
        .board;

    assert_eq!((primary.results.len(), primary.total_cost()), (9, 120));
    assert_eq!((serial.results.len(), serial.total_cost()), (8, 81));
    assert!(!serial_candidate_is_better(&primary, &serial));
    assert_eq!(router.route(&grid, &nets).unwrap(), primary);
}

#[test]
fn truncated_coordinates_scan_every_geometric_witness() {
    let dims = Dims::new(4, 1);
    let geometry = spacing(dims, &[0.0, 100.0], &[0.0], 3.0, 0.0);
    let grid = Grid::filled(dims, 1);
    let mut visited = halo_list(&grid, &geometry, &vec![dims.idx(3, 0)]);
    visited.sort_unstable();
    visited.dedup();
    assert_eq!(
        visited,
        vec![dims.idx(0, 0), dims.idx(2, 0), dims.idx(3, 0)]
    );
}

#[test]
fn maximum_passable_weight_is_not_confused_with_obstacle() {
    let dims = Dims::new(2, 1);
    let mut grid = Grid::filled(dims, 1);
    grid.set(dims.idx(1, 0), OBSTACLE - 1);
    let nets = vec![net("high", dims.idx(0, 0), dims.idx(1, 0))];

    let mut buf = SearchBuf::new(dims.len());
    let mut pads = PadSet::new(dims.len());
    pads.load(&Vec::new());
    let via_model = ViaModel::through_hole(dims.layers);
    let geometry = Geometry::uniform(dims, 0, 0);
    let problem = Problem::new(&grid, &nets, &via_model, &geometry);
    let free = vec![Claim::Free; dims.len()];
    let legal = route_legal(
        &mut buf,
        &problem,
        0,
        &pads,
        0,
        &free,
        &free,
        IsolatedRouteWindow::full(dims),
    );
    assert_eq!(legal, Some(vec![0, 1]));

    let routed = NegotiatedRouter::new().route(&grid, &nets).unwrap();
    assert_eq!(routed.results.len(), 1);
    assert_eq!(routed.results[0].path, vec![dims.idx(0, 0), dims.idx(1, 0)]);
    assert_eq!(routed.results[0].cost, OBSTACLE - 1);

    grid.set(dims.idx(1, 0), OBSTACLE);
    assert!(matches!(
        NegotiatedRouter::new().route(&grid, &nets),
        Err(RouterError::InvalidEndpoint { .. })
    ));
}

fn summed_path_base(dims: Dims, x: &[f64], y: &[f64], path: &[CellIdx]) -> Cost {
    path.windows(2)
        .map(|w| edge_cost(length_between(dims, x, y, w[0], w[1])))
        .fold(0u32, Cost::saturating_add)
}

fn old_manhattan_planar(dims: Dims, x: &[f64], y: &[f64], a: CellIdx, b: CellIdx) -> Cost {
    edge_cost(length_between(dims, x, y, a, b))
}

/// The bound on an open board without vias.
fn bound_between(dims: Dims, x: &[f64], y: &[f64], a: CellIdx, b: CellIdx) -> Cost {
    let grid = Grid::filled(dims, 1);
    let mut via_model = ViaModel::through_hole(dims.layers);
    via_model.step_cost = 0;
    let geometry = spacing(dims, x, y, 0.0, 0.0);
    Problem::new(&grid, &[], &via_model, &geometry).bound(a, b)
}

fn scanned_axis_leg_cost(lines: &[f64], i: u32, j: u32) -> Cost {
    let (lo, hi) = if i <= j { (i, j) } else { (j, i) };
    let mut total: Cost = 0;
    for k in lo..hi {
        total = total.saturating_add(edge_cost((at(lines, k + 1) - at(lines, k)).abs()));
    }
    total
}

#[test]
fn heuristic_prefix_exactly_matches_gap_scan_and_saturation() {
    let cases: &[(u32, &[f64])] = &[
        (6, &[0.0, 0.03125, 0.5, 2.25, 2.25, 9.0]),
        (7, &[10.0, 10.125]),
        (5, &[]),
        (6, &[0.0, 4.0, -2.0]),
        (5, &[0.0, 1.0e20, 2.0e20, 3.0e20, 4.0e20]),
    ];
    for &(count, lines) in cases {
        let prefix = axis_cost_prefix(&gaps(lines), count);
        assert_eq!(prefix.len(), count as usize);
        for i in 0..count {
            for j in 0..count {
                assert_eq!(
                    axis_leg_cost(&prefix, i, j),
                    scanned_axis_leg_cost(lines, i, j),
                    "count={count} lines={lines:?} interval=({i},{j})"
                );
            }
        }
    }

    assert_eq!(axis_cost_prefix(&Vec::new(), 0), vec![0]);
}

#[test]
fn heuristic_is_lower_bound_collinear_and_l_shaped() {
    let gap_sets: &[&[f64]] = &[
        &[0.5, 0.5, 0.5, 0.5],
        &[0.03125, 0.03125, 0.03125],
        &[1.5, 2.5, 0.5, 3.5],
        &[0.1, 0.2, 0.3, 0.4, 0.5, 0.6],
        &[0.46875, 0.46875, 0.46875],
        &[2.0, 2.0, 2.0],
    ];
    for xs in gap_sets {
        for ys in gap_sets {
            let x_lines = cumsum(xs);
            let y_lines = cumsum(ys);
            let dims = Dims::new(x_lines.len() as u32, y_lines.len() as u32);
            let a = dims.idx(0, 0);
            let b = dims.idx(dims.w - 1, dims.h - 1);

            let h = bound_between(dims, &x_lines, &y_lines, a, b);

            let x_only = bound_between(
                dims,
                &x_lines,
                &y_lines,
                dims.idx(0, 0),
                dims.idx(dims.w - 1, 0),
            );
            let x_path: Vec<CellIdx> = (0..dims.w).map(|x| dims.idx(x, 0)).collect();
            assert!(
                x_only <= summed_path_base(dims, &x_lines, &y_lines, &x_path),
                "collinear-x heuristic must be a lower bound: h={x_only} > path"
            );

            let mut l_path: Vec<CellIdx> = (0..dims.w).map(|x| dims.idx(x, 0)).collect();
            l_path.extend((1..dims.h).map(|y| dims.idx(dims.w - 1, y)));
            let l_cost = summed_path_base(dims, &x_lines, &y_lines, &l_path);
            assert!(
                h <= l_cost,
                "L-shaped heuristic must be a lower bound: h={h} > path={l_cost} \
                 (xs={xs:?}, ys={ys:?})"
            );

            let mut l_path2: Vec<CellIdx> = (0..dims.h).map(|y| dims.idx(0, y)).collect();
            l_path2.extend((1..dims.w).map(|x| dims.idx(x, dims.h - 1)));
            let l_cost2 = summed_path_base(dims, &x_lines, &y_lines, &l_path2);
            assert!(
                h <= l_cost2,
                "L-shaped(2) heuristic must be a lower bound: h={h} > path={l_cost2}"
            );
        }
    }
}

#[test]
fn old_heuristic_could_overestimate_but_new_does_not() {
    let g = 0.4 / COST_SCALE;
    let x_lines = cumsum(&[g, g, g]);
    let dims = Dims::new(x_lines.len() as u32, 1);
    let a = dims.idx(0, 0);
    let b = dims.idx(dims.w - 1, 0);
    let path: Vec<CellIdx> = (0..dims.w).map(|x| dims.idx(x, 0)).collect();
    let summed = summed_path_base(dims, &x_lines, &[0.0], &path);

    let old = old_manhattan_planar(dims, &x_lines, &[0.0], a, b);
    let new = bound_between(dims, &x_lines, &[0.0], a, b);

    assert_eq!(summed, 0, "search pays 0 per-step here");
    assert!(
        old > summed,
        "old heuristic must overestimate in this witness: old={old} summed={summed}"
    );
    assert!(
        new <= summed,
        "new heuristic must stay a lower bound: new={new} summed={summed}"
    );
}

#[test]
fn heuristic_uniform_grid_byte_identical() {
    let dims = Dims::new(7, 5);
    let xs: Vec<f64> = (0..dims.w).map(|k| k as f64).collect();
    let ys: Vec<f64> = (0..dims.h).map(|k| k as f64).collect();
    for &(ax, ay, bx, by) in &[(0u32, 0u32, 6u32, 4u32), (3, 1, 3, 4), (0, 2, 6, 2)] {
        let a = dims.idx(ax, ay);
        let b = dims.idx(bx, by);
        let new = bound_between(dims, &xs, &ys, a, b);
        let old = old_manhattan_planar(dims, &xs, &ys, a, b);
        let expected = (ax.abs_diff(bx) + ay.abs_diff(by)) * SCALE;
        assert_eq!(new, old, "uniform: new must equal old aggregate form");
        assert_eq!(new, expected, "uniform: new must equal (dx+dy)*SCALE");
    }
}

#[test]
fn overlapping_halo_survives_owner_rip_deterministically() {
    let dims = Dims::new(5, 1);
    let grid = GridBuilder::new(dims, 1).build();
    let geometry = Geometry::uniform(dims, 1, 0);
    let mut committed: Committed = vec![Some(vec![dims.idx(1, 0)]), Some(vec![dims.idx(3, 0)])];
    let group_ids = vec![0, 1];
    let mut owner = vec![Claim::Free; dims.len()];
    let mut halo = vec![Claim::Free; dims.len()];

    rebuild_owner_maps(&mut owner, &mut halo, &grid, &geometry, &committed, &group_ids);
    let overlap = dims.idx(2, 0) as usize;
    assert_eq!(halo[overlap], Claim::Mixed);
    assert!(halo[overlap].is_foreign(0));
    assert!(halo[overlap].is_foreign(1));

    committed[0] = None;
    rebuild_owner_maps(&mut owner, &mut halo, &grid, &geometry, &committed, &group_ids);
    assert_eq!(
        halo[overlap],
        Claim::Group(1),
        "surviving reservation must transfer"
    );
    assert!(halo[overlap].is_foreign(0));
    assert!(!halo[overlap].is_foreign(1));
}

fn cumsum(gaps: &[f64]) -> Vec<f64> {
    let mut lines = Vec::with_capacity(gaps.len() + 1);
    let mut acc = 0.0;
    lines.push(acc);
    for &g in gaps {
        acc += g;
        lines.push(acc);
    }
    lines
}

#[test]
fn route_traced_matches_route_byte_for_byte() {
    let mut cases: Vec<(String, Grid, Vec<NetEndpoints>)> = Vec::new();
    for f in obstacle_battery() {
        cases.push((f.name.to_string(), f.grid, f.nets));
    }
    {
        let dims = Dims::new(5, 5);
        let grid = GridBuilder::new(dims, 1).build();
        cases.push((
            "crossing".into(),
            grid,
            vec![
                net("a", dims.idx(2, 1), dims.idx(2, 3)),
                net("b", dims.idx(1, 2), dims.idx(3, 2)),
            ],
        ));
    }
    {
        let dims = Dims::new(8, 8);
        let grid = GridBuilder::new(dims, 1).build();
        cases.push((
            "grouped".into(),
            grid,
            vec![
                net("g#0", dims.idx(0, 0), dims.idx(7, 0)),
                net("g#1", dims.idx(0, 2), dims.idx(7, 2)),
                net("foreign", dims.idx(0, 5), dims.idx(7, 5)),
            ],
        ));
    }

    for (name, grid, nets) in &cases {
        let router = NegotiatedRouter::new();
        let plain = router.route(grid, nets).unwrap();
        let (traced_board, trace) = router.route_traced(grid, nets).unwrap();
        assert_eq!(
            plain, traced_board,
            "fixture `{name}`: route_traced must yield an identical BoardRoute"
        );

        assert_eq!(trace.dims, grid.dims, "fixture `{name}`: trace dims");
        assert_eq!(
            trace.nets.len(),
            nets.len(),
            "fixture `{name}`: one TracedNet per input net"
        );
        let leg = trace
            .legalization
            .as_ref()
            .unwrap_or_else(|| panic!("fixture `{name}`: legalization recorded"));
        assert_eq!(
            leg.committed.len(),
            nets.len(),
            "fixture `{name}`: committed has one slot per net"
        );
        for (i, ep) in nets.iter().enumerate() {
            let in_board = traced_board.results.iter().find(|r| r.net == ep.net);
            match (&leg.committed[i], in_board) {
                (Some(path), Some(r)) => assert_eq!(
                    path, &r.path,
                    "fixture `{name}`: committed path matches result for `{}`",
                    ep.net
                ),
                (None, None) => {}
                other => panic!(
                    "fixture `{name}`: committed/result disagree for `{}`: {other:?}",
                    ep.net
                ),
            }
        }
        if let Some(last) = trace.iterations.last() {
            assert!(
                !last.any_overuse || last.iter == MAX_ITERS - 1,
                "fixture `{name}`: trace should end converged or at MAX_ITERS"
            );
            for snap in &trace.iterations {
                assert_eq!(snap.paths.len(), nets.len());
            }
        }
    }
}

#[test]
fn negotiated_geometric_clearance_boundary_is_inclusive() {
    let dims = Dims::new(6, 1);
    let x = [0.0, 0.2, 0.5, 1.0, 1.51, 2.1];
    assert_eq!(spacing(dims, &x, &[0.0], 0.5, 0.0).clearance.x[3], vec![2, 3]);
    assert_eq!(spacing(dims, &x, &[0.0], 0.51, 0.0).clearance.x[3], vec![2, 3, 4]);
}

#[test]
fn costs_of_huge_lengths_are_the_largest() {
    assert_eq!(edge_cost(f64::MAX), Cost::MAX);
    assert_eq!(edge_cost(f64::INFINITY), 0);
    assert_eq!(edge_cost(1.5), 24);
}
