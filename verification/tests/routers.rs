use metalroute::fixtures::{hand_32x32_wall, obstacle_battery, tie_break_2x2};
use metalroute::search::{astar_buf, SearchBuf, SearchSpace};
use metalroute::sweep::{dijkstra, path_from_field, reconstruct_path};
use metalroute::{
    bfs_distance_field, sweep_distance_field, AStarRouter, BoardMask, BoardRoute, CellIdx, Cost,
    Dims, Grid, GridBuilder, LeeRouter, NegotiatedRouter, NetEndpoints, RipUpRouter, Router, RouterError,
    MAX_PASSES, OBSTACLE,
};
use std::cell::Cell;

fn net(name: &str, src: CellIdx, dst: CellIdx) -> NetEndpoints {
    NetEndpoints {
        net: name.into(),
        src,
        dst,
        passable_pads: Vec::new(),
        via_passable_pads: Vec::new(),
    }
}

/// A search over the cells of a grid, with an estimate.
struct Space<'a, H: Fn(CellIdx) -> Cost> {
    grid: &'a Grid,
    masked: bool,
    estimate: H,
}

impl<'a, H: Fn(CellIdx) -> Cost> SearchSpace for Space<'a, H> {
    fn extent(&self) -> Dims {
        self.grid.dims
    }

    fn valid(&self) -> bool {
        true
    }

    fn planar_price(&self, _u: CellIdx, v: CellIdx) -> Cost {
        self.grid.cost_at(v)
    }

    fn closed(&self, c: CellIdx) -> bool {
        self.masked && self.grid.is_obstacle(c)
    }

    fn estimate(&self, c: CellIdx) -> Cost {
        (self.estimate)(c)
    }

    fn via_price(&self, _u: CellIdx, _v: CellIdx) -> Option<Cost> {
        None
    }

    fn cost(&self, _u: CellIdx, v: CellIdx) -> Cost {
        self.grid.cost_at(v)
    }

    fn blocked(&self, c: CellIdx) -> bool {
        self.masked && self.grid.is_obstacle(c)
    }

    fn heuristic(&self, c: CellIdx) -> Cost {
        (self.estimate)(c)
    }

    fn via_step(&self, _u: CellIdx, _v: CellIdx) -> Option<Cost> {
        None
    }
}

#[test]
fn astar_total_cost_equals_lee_on_battery() {
    for f in obstacle_battery() {
        let lee = LeeRouter.route(&f.grid, &f.nets).unwrap();
        let astar = AStarRouter.route(&f.grid, &f.nets).unwrap();
        assert_eq!(
            astar.total_cost(),
            lee.total_cost(),
            "{}: A* cost must equal Lee cost",
            f.name
        );
        assert_eq!(
            astar.unrouted, lee.unrouted,
            "{}: same nets unrouted",
            f.name
        );
    }
}

#[test]
fn astar_matches_lee_canonical_path_on_asymmetric_tie() {
    let dims = Dims::new(4, 3);
    let grid = GridBuilder::new(dims, 1).mark_cell(2, 1).build();
    let n = NetEndpoints {
        net: "tie".into(),
        src: dims.idx(0, 1),
        dst: dims.idx(3, 1),
        passable_pads: Vec::new(),
        via_passable_pads: Vec::new(),
    };
    let lee = LeeRouter.route(&grid, std::slice::from_ref(&n)).unwrap();
    let astar = AStarRouter.route(&grid, std::slice::from_ref(&n)).unwrap();
    assert_eq!(lee.results[0].path, vec![4, 0, 1, 2, 3, 7]);
    assert_eq!(astar, lee);
}

#[test]
fn astar_equals_lee_on_every_3x3_obstacle_mask_and_endpoint_pair() {
    let dims = Dims::new(3, 3);
    for src in 0..dims.len() as u32 {
        for dst in 0..dims.len() as u32 {
            if src == dst {
                continue;
            }
            let candidates: Vec<_> = (0..dims.len() as u32)
                .filter(|&c| c != src && c != dst)
                .collect();
            for mask in 0usize..(1usize << candidates.len()) {
                let mut builder = GridBuilder::new(dims, 1);
                for (bit, &c) in candidates.iter().enumerate() {
                    if mask & (1 << bit) != 0 {
                        let (x, y) = dims.xy(c);
                        builder.mark_cell(x, y);
                    }
                }
                let grid = builder.build();
                let n = NetEndpoints {
                    net: "n".into(),
                    src,
                    dst,
                    passable_pads: Vec::new(),
                    via_passable_pads: Vec::new(),
                };
                let lee = LeeRouter.route(&grid, std::slice::from_ref(&n)).unwrap();
                let astar = AStarRouter.route(&grid, std::slice::from_ref(&n)).unwrap();
                assert_eq!(astar, lee, "src={src} dst={dst} mask={mask:#09b}");
            }
        }
    }
}

#[test]
fn astar_buf_matches_dijkstra_on_obstacle_grid() {
    let dims = Dims::new(8, 8);
    let mut gb = GridBuilder::new(dims, 1);
    for y in 0..6 {
        gb.mark_cell(4, y);
    }
    gb.mark_cell(2, 5);
    gb.mark_cell(6, 2);
    let grid = gb.build();

    let pairs = [
        (dims.idx(0, 0), dims.idx(7, 7)),
        (dims.idx(0, 7), dims.idx(7, 0)),
        (dims.idx(1, 1), dims.idx(6, 6)),
        (dims.idx(3, 0), dims.idx(5, 7)),
        (dims.idx(0, 3), dims.idx(7, 3)),
    ];

    let mut buf = SearchBuf::new(dims.len());
    for &(src, dst) in &pairs {
        let field = dijkstra(&grid, src);
        let ref_path = reconstruct_path(&field.pred, src, dst, &field.dist);

        let h = |c: CellIdx| {
            let (ax, ay) = dims.xy(c);
            let (bx, by) = dims.xy(dst);
            (ax.abs_diff(bx) + ay.abs_diff(by)) as Cost
        };
        let space = Space {
            grid: &grid,
            masked: true,
            estimate: h,
        };
        let got = astar_buf(&mut buf, dims, src, dst, &space);

        match (ref_path, got) {
            (None, None) => {}
            (Some(rp), Some((gp, gcost))) => {
                let ref_cost = field.dist[dst as usize];
                assert_eq!(gcost, ref_cost, "cost mismatch {src}->{dst}");
                assert_eq!(gp.first().copied(), Some(src));
                assert_eq!(gp.last().copied(), Some(dst));
                let mut walked: Cost = 0;
                for w in gp.windows(2) {
                    assert!(dims.neighbors4(w[0]).contains(&w[1]), "non-adjacent step");
                    assert!(!grid.is_obstacle(w[1]), "path enters obstacle");
                    walked = walked.saturating_add(grid.cost_at(w[1]));
                }
                assert_eq!(walked, gcost, "summed path cost mismatch");
                assert_eq!(gp.len(), rp.len(), "path length mismatch {src}->{dst}");
            }
            (a, b) => panic!("reachability mismatch {src}->{dst}: {a:?} vs {b:?}"),
        }
    }
}

#[test]
fn targeted_astar_stops_before_exhausting_connected_component() {
    let dims = Dims::new(64, 64);
    let grid = GridBuilder::new(dims, 1).build();
    let src = dims.idx(0, 0);
    let dst = dims.idx(10, 0);
    let calls = Cell::new(0usize);
    let mut buf = SearchBuf::new(dims.len());
    let space = Space {
        grid: &grid,
        masked: true,
        estimate: |c: CellIdx| {
            calls.set(calls.get() + 1);
            let (x, y) = dims.xy(c);
            x.abs_diff(10) + y
        },
    };
    let got = astar_buf(&mut buf, dims, src, dst, &space).unwrap();
    assert_eq!(got.1, 10);
    assert_eq!(got.0, (0..=10).collect::<Vec<_>>());
    assert!(
        calls.get() < 256,
        "targeted A* should prune a 4096-cell board; heuristic calls={}",
        calls.get()
    );
}

#[test]
fn search_buffer_generation_wrap_cannot_resurrect_stale_state() {
    let dims = Dims::new(4, 1);
    let grid = GridBuilder::new(dims, 1).build();
    let mut buf = SearchBuf::new(dims.len());
    buf.gen = u32::MAX;
    buf.stamp.fill(1);
    buf.dist.fill(0);
    buf.hops.fill(0);
    buf.pred.fill(0);
    let space = Space {
        grid: &grid,
        masked: false,
        estimate: |_: CellIdx| 0,
    };
    let got = astar_buf(&mut buf, dims, 0, 3, &space).unwrap();
    assert_eq!(got, (vec![0, 1, 2, 3], 3));
    assert_eq!(buf.gen, 1);
}

#[test]
fn astar_buf_handles_zero_cost_edges_without_heuristic_overestimate() {
    let dims = Dims::new(3, 2);
    let mut grid = GridBuilder::new(dims, 1).build();
    grid.set(1, 0);
    grid.set(2, 0);
    let mut buf = SearchBuf::new(dims.len());
    let space = Space {
        grid: &grid,
        masked: false,
        estimate: |_: CellIdx| 0,
    };
    let got = astar_buf(&mut buf, dims, 0, 2, &space).unwrap();
    assert_eq!(got, (vec![0, 1, 2], 0));
}

fn assert_valid_path(grid: &Grid, path: &[CellIdx], src: CellIdx, dst: CellIdx) {
    assert_eq!(path.first().copied(), Some(src), "path must start at src");
    assert_eq!(path.last().copied(), Some(dst), "path must end at dst");
    for &c in path {
        assert_ne!(grid.cost_at(c), OBSTACLE, "path cell {c} is an obstacle");
    }
    for w in path.windows(2) {
        let neigh = grid.dims.neighbors4(w[0]);
        assert!(
            neigh.contains(&w[1]),
            "cells {} and {} are not 4-neighbours",
            w[0],
            w[1]
        );
    }
}

#[test]
fn hand_32x32_wall_costs_93_and_valid() {
    let f = hand_32x32_wall();
    let br = LeeRouter.route(&f.grid, &f.nets).unwrap();
    assert!(br.unrouted.is_empty());
    assert_eq!(br.results.len(), 1);
    let r = &br.results[0];
    assert_eq!(r.cost, 93);
    assert_valid_path(&f.grid, &r.path, f.nets[0].src, f.nets[0].dst);
    assert_eq!(
        r.cost as usize,
        r.path.len() - 1,
        "unit grid: cost == moves"
    );
}

#[test]
fn tie_break_2x2_exact_path() {
    let f = tie_break_2x2();
    let br = LeeRouter.route(&f.grid, &f.nets).unwrap();
    let r = &br.results[0];
    assert_eq!(r.path, vec![0, 1, 3], "LowerCellIdx pins [0,1,3]");
    assert_eq!(r.cost, 2);
    assert_eq!(f.expected_path.unwrap(), r.path);
}

#[test]
fn obstacle_battery_pinned_costs_match() {
    for f in obstacle_battery() {
        if let Some(expected) = f.expected_total_cost {
            let br = LeeRouter.route(&f.grid, &f.nets).unwrap();
            assert_eq!(
                br.total_cost(),
                expected,
                "{}: expected total cost {expected}",
                f.name
            );
        }
    }
}

#[test]
fn blocked_gap_target_unrouted() {
    let f = obstacle_battery()
        .into_iter()
        .find(|f| f.name == "blocked_gap")
        .expect("blocked_gap fixture present");
    let br = LeeRouter.route(&f.grid, &f.nets).unwrap();
    assert!(br.results.is_empty(), "enclosed target yields no result");
    assert_eq!(br.unrouted, vec!["n0".to_string()]);
}

fn routers() -> Vec<(&'static str, Box<dyn Router>)> {
    vec![
        ("lee", Box::new(LeeRouter)),
        ("astar", Box::new(AStarRouter)),
        ("ripup", Box::new(RipUpRouter)),
        ("negotiated", Box::new(NegotiatedRouter::new())),
    ]
}

#[test]
fn every_router_unmasks_own_pad_endpoints() {
    let dims = Dims::new(2, 1);
    let grid = GridBuilder::new(dims, 1).mark_rect(0, 0, 1, 0).build();
    let n = NetEndpoints {
        net: "pad-net".into(),
        src: 0,
        dst: 1,
        passable_pads: vec![0, 1],
        via_passable_pads: Vec::new(),
    };
    for (name, router) in routers() {
        let board = router.route(&grid, std::slice::from_ref(&n)).unwrap();
        assert!(board.unrouted.is_empty(), "{name}: own pads must open");
        assert_eq!(board.results[0].path, vec![0, 1], "{name}");
        assert_eq!(board.results[0].cost, 1, "{name}");
    }
}

#[test]
fn every_router_rejects_out_of_bounds_pad_without_panicking() {
    let dims = Dims::new(2, 1);
    let grid = GridBuilder::new(dims, 1).build();
    let n = NetEndpoints {
        net: "bad-pad".into(),
        src: 0,
        dst: 1,
        passable_pads: vec![dims.len() as u32 + 17],
        via_passable_pads: Vec::new(),
    };
    for (name, router) in routers() {
        assert_eq!(
            router.route(&grid, std::slice::from_ref(&n)),
            Err(RouterError::InvalidEndpoint {
                net: "bad-pad".into()
            }),
            "{name}"
        );
    }
}

#[test]
fn every_router_honors_weighted_grid_costs() {
    let dims = Dims::new(3, 2);
    let mut grid = GridBuilder::new(dims, 1).build();
    grid.set(dims.idx(1, 0), 100);
    let n = net("weighted", dims.idx(0, 0), dims.idx(2, 0));
    for (name, router) in routers() {
        let board = router.route(&grid, std::slice::from_ref(&n)).unwrap();
        let result = &board.results[0];
        assert_eq!(result.path, vec![0, 3, 4, 5, 2], "{name}");
        assert_eq!(result.cost, 4, "{name}: cost is the enter-cost sum");
    }
}

#[test]
fn public_shortest_path_routers_are_cycle_free_on_zero_cost_plateau() {
    let dims = Dims::new(3, 2);
    let grid = Grid::filled(dims, 0);
    let n = net("zero", 5, 3);
    let expected = vec![5, 4, 3];
    for (name, router) in [
        ("lee", Box::new(LeeRouter) as Box<dyn Router>),
        ("astar", Box::new(AStarRouter) as Box<dyn Router>),
    ] {
        let board = router.route(&grid, std::slice::from_ref(&n)).unwrap();
        assert_eq!(board.results[0].path, expected, "{name}");
        assert_eq!(board.results[0].cost, 0, "{name}");
    }
}

#[test]
fn every_router_handles_zero_length_net() {
    let dims = Dims::new(3, 3);
    let grid = GridBuilder::new(dims, 1).build();
    let n = net("point", dims.idx(1, 1), dims.idx(1, 1));
    for (name, router) in routers() {
        let board = router.route(&grid, std::slice::from_ref(&n)).unwrap();
        assert_eq!(board.results[0].path, vec![dims.idx(1, 1)], "{name}");
        assert_eq!(board.results[0].cost, 0, "{name}");
    }
}

#[test]
fn every_router_validates_grid_before_indexing_endpoints() {
    let dims = Dims::new(2, 2);
    let malformed = Grid {
        dims,
        cost: vec![1],
        via_forbidden: Vec::new(),
        board: None,
    };
    let n = net("n", 999, 1000);
    for (name, router) in routers() {
        assert_eq!(
            router.route(&malformed, std::slice::from_ref(&n)),
            Err(RouterError::MalformedGrid),
            "{name}"
        );
    }
}

#[test]
fn every_router_rejects_malformed_via_mask_length() {
    let dims = Dims::new(2, 2);
    let malformed = Grid {
        dims,
        cost: vec![1; dims.len()],
        via_forbidden: vec![false; dims.len() - 1],
        board: None,
    };
    let n = net("n", 0, 1);
    for (name, router) in routers() {
        assert_eq!(
            router.route(&malformed, std::slice::from_ref(&n)),
            Err(RouterError::MalformedGrid),
            "{name}"
        );
    }
}

#[test]
fn every_router_rejects_foreign_obstacle_endpoint() {
    let dims = Dims::new(2, 1);
    let mut grid = Grid::filled(dims, 1);
    grid.set(1, OBSTACLE);
    let n = net("foreign", 0, 1);
    for (name, router) in routers() {
        assert!(
            matches!(
                router.route(&grid, std::slice::from_ref(&n)),
                Err(RouterError::InvalidEndpoint { .. })
            ),
            "{name}"
        );
    }
}

#[test]
fn board_route_accounting_and_congestion_are_exact() {
    let dims = Dims::new(5, 3);
    let grid = GridBuilder::new(dims, 1).build();
    let nets = vec![
        net("a", dims.idx(0, 0), dims.idx(4, 0)),
        net("b", dims.idx(0, 2), dims.idx(4, 2)),
    ];
    for (name, router) in routers() {
        let board = router.route(&grid, &nets).unwrap();
        assert!(board.unrouted.is_empty(), "{name}");
        assert_eq!(
            board
                .results
                .iter()
                .map(|r| r.net.as_str())
                .collect::<Vec<_>>(),
            vec!["a", "b"],
            "{name}: results retain input order"
        );
        assert_eq!(
            board.congestion,
            BoardRoute::congestion_from(dims, &board.results),
            "{name}"
        );
        assert_eq!(
            board.results.iter().map(|r| r.cost).sum::<u32>(),
            8,
            "{name}"
        );
    }
}

#[test]
fn two_nonconflicting_nets_both_route() {
    let dims = Dims::new(5, 2);
    let grid = GridBuilder::new(dims, 1).build();
    let nets = vec![
        net("a", dims.idx(0, 0), dims.idx(4, 0)),
        net("b", dims.idx(0, 1), dims.idx(4, 1)),
    ];
    let br = RipUpRouter.route(&grid, &nets).unwrap();
    assert!(br.unrouted.is_empty(), "both nets should route");
    assert_eq!(br.results.len(), 2);
    assert!(
        br.congestion.iter().all(|&c| c <= 1),
        "non-conflicting nets must not overlap"
    );
}

#[test]
fn two_nets_compete_for_single_corridor() {
    let dims = Dims::new(5, 3);
    let mut b = GridBuilder::new(dims, 1);
    b.mark_rect(0, 0, 4, 0);
    b.mark_rect(0, 2, 4, 2);
    let grid = b.build();
    let nets = vec![
        net("a", dims.idx(0, 1), dims.idx(4, 1)),
        net("b", dims.idx(2, 1), dims.idx(4, 1)),
    ];

    let br = RipUpRouter.route(&grid, &nets).unwrap();

    assert!(
        !br.results.is_empty(),
        "at least one net must route through the corridor"
    );
    assert_eq!(
        br.results.len() + br.unrouted.len(),
        2,
        "every net accounted for"
    );
    assert!(
        !br.unrouted.is_empty(),
        "both cannot fit the single corridor"
    );
    assert_eq!(br.results[0].net, "a");
    assert_eq!(br.unrouted, vec!["b".to_string()]);

    let br2 = RipUpRouter.route(&grid, &nets).unwrap();
    assert_eq!(br.unrouted, br2.unrouted);
    assert_eq!(
        br.results.iter().map(|r| &r.net).collect::<Vec<_>>(),
        br2.results.iter().map(|r| &r.net).collect::<Vec<_>>(),
    );
}

#[test]
fn contention_executes_real_displacement_and_preserves_priority() {
    let dims = Dims::new(5, 3);
    let mut b = GridBuilder::new(dims, 1);
    b.mark_rect(0, 0, 4, 0);
    b.mark_rect(0, 2, 4, 2);
    let grid = b.build();
    let nets = vec![
        net("a", dims.idx(0, 1), dims.idx(4, 1)),
        net("b", dims.idx(2, 1), dims.idx(4, 1)),
    ];
    let (board, rips) = RipUpRouter.route_with_stats(&grid, &nets).unwrap();
    assert!(rips >= 1, "the higher-priority net must actually rip b up");
    assert_eq!(
        board
            .results
            .iter()
            .map(|r| r.net.as_str())
            .collect::<Vec<_>>(),
        vec!["a"]
    );
    assert_eq!(board.unrouted, vec!["b"]);
}

#[test]
fn repeated_contention_is_byte_deterministic() {
    let dims = Dims::new(7, 5);
    let grid = GridBuilder::new(dims, 1).mark_cell(3, 2).build();
    let nets = vec![
        net("a", dims.idx(0, 1), dims.idx(6, 3)),
        net("b", dims.idx(0, 3), dims.idx(6, 1)),
        net("c", dims.idx(1, 0), dims.idx(5, 4)),
    ];
    let first = RipUpRouter.route(&grid, &nets).unwrap();
    for _ in 0..32 {
        assert_eq!(RipUpRouter.route(&grid, &nets).unwrap(), first);
    }
}

#[test]
fn pass_bound_is_k_and_router_terminates() {
    let dims = Dims::new(3, 3);
    let mut b = GridBuilder::new(dims, 1);
    b.mark_cell(1, 0);
    b.mark_cell(1, 2);
    let grid = b.build();
    let nets = vec![
        net("a", dims.idx(0, 1), dims.idx(2, 1)),
        net("b", dims.idx(0, 1), dims.idx(2, 1)),
    ];
    let br = RipUpRouter.route(&grid, &nets).unwrap();
    assert_eq!(br.results.len() + br.unrouted.len(), 2);
    assert_eq!(MAX_PASSES, 20);
}

#[test]
fn net_routes_around_foreign_pad() {
    let dims = Dims::new(7, 3);
    let grid = GridBuilder::new(dims, 1)
        .mark_rect(3, 0, 3, 1)
        .build();

    let a_pad: Vec<CellIdx> = vec![dims.idx(3, 0), dims.idx(3, 1)];
    let net_a = NetEndpoints {
        net: "a".into(),
        src: dims.idx(3, 0),
        dst: dims.idx(3, 1),
        passable_pads: a_pad.clone(),
        via_passable_pads: Vec::new(),
    };
    let net_b = NetEndpoints {
        net: "b".into(),
        src: dims.idx(0, 1),
        dst: dims.idx(6, 1),
        passable_pads: Vec::new(),
        via_passable_pads: Vec::new(),
    };
    let nets = vec![net_a, net_b];

    let br = RipUpRouter.route(&grid, &nets).unwrap();
    assert!(br.unrouted.is_empty(), "both nets must route: {br:?}");
    assert_eq!(br.results.len(), 2);

    let a_path = &br.results[0].path;
    let b_path = &br.results[1].path;

    for c in b_path {
        assert!(
            !a_pad.contains(c),
            "B must route around A's pad; cell {c} is A's pad"
        );
    }
    assert!(a_path.contains(&dims.idx(3, 0)));
    assert!(a_path.contains(&dims.idx(3, 1)));

    for c in b_path {
        assert!(
            !a_path.contains(c),
            "paths must be cell-disjoint; shared cell {c}"
        );
    }
}

#[test]
fn sweep_field_equals_bfs_field_on_battery() {
    for f in obstacle_battery() {
        let src = f.nets[0].src;
        let sweep = sweep_distance_field(&f.grid, src);
        let bfs = bfs_distance_field(&f.grid, src);
        assert_eq!(sweep.len(), bfs.len(), "{}", f.name);
        for i in 0..sweep.len() {
            assert_eq!(
                sweep[i], bfs[i],
                "{}: cell {i} sweep={} bfs={} (Cost::MAX==unreachable)",
                f.name, sweep[i], bfs[i]
            );
        }
    }
}

#[test]
fn sweep_tie_break_reproduces_path() {
    let f = tie_break_2x2();
    let src = f.nets[0].src;
    let dst = f.nets[0].dst;
    let dist = sweep_distance_field(&f.grid, src);
    let path = path_from_field(&f.grid, &dist, src, dst).unwrap();
    assert_eq!(
        path,
        vec![0, 1, 3],
        "greedy descent reproduces BFS tie-break path on 2x2"
    );
    assert_eq!(Some(path), f.expected_path);
}

#[test]
fn sweep_matches_bfs_from_every_layer() {
    let dims = Dims::with_layers(4, 3, 3);
    let mut builder = GridBuilder::new(dims, 1);
    builder.mark_cell_layer(1, 1, 0);
    builder.mark_cell_layer(2, 0, 1);
    builder.mark_cell_layer(0, 2, 2);
    let grid = builder.build();
    for src in 0..dims.len() as u32 {
        if grid.is_obstacle(src) {
            continue;
        }
        assert_eq!(
            sweep_distance_field(&grid, src),
            bfs_distance_field(&grid, src),
            "source {src} on layer {}",
            dims.layer_of(src)
        );
    }
}

#[test]
fn sweep_and_greedy_path_match_lee_exhaustively_on_3x3_masks() {
    let dims = Dims::new(3, 3);
    for mask in 0usize..(1usize << dims.len()) {
        let mut builder = GridBuilder::new(dims, 1);
        for c in 0..dims.len() as u32 {
            if mask & (1 << c) != 0 {
                let (x, y) = dims.xy(c);
                builder.mark_cell(x, y);
            }
        }
        let grid = builder.build();
        for src in 0..dims.len() as u32 {
            if grid.is_obstacle(src) {
                continue;
            }
            let sweep = sweep_distance_field(&grid, src);
            let bfs = bfs_distance_field(&grid, src);
            assert_eq!(sweep, bfs, "mask={mask:#011b} src={src}");
            for dst in 0..dims.len() as u32 {
                if grid.is_obstacle(dst) {
                    continue;
                }
                let got = path_from_field(&grid, &sweep, src, dst);
                let lee = LeeRouter::route_one(&grid, src, dst).map(|x| x.0);
                assert_eq!(got, lee, "mask={mask:#011b} src={src} dst={dst}");
            }
        }
    }
}

#[test]
fn sweep_matches_bfs_on_weighted_and_zero_cost_cells() {
    let dims = Dims::new(5, 4);
    let mut grid = GridBuilder::new(dims, 1).build();
    for (cell, cost) in [(1, 7), (2, 0), (7, 3), (13, 11), (18, 0)] {
        grid.set(cell, cost);
    }
    grid.set(8, OBSTACLE);
    for src in 0..dims.len() as u32 {
        if !grid.is_obstacle(src) {
            assert_eq!(
                sweep_distance_field(&grid, src),
                bfs_distance_field(&grid, src)
            );
        }
    }
}

#[test]
fn path_from_field_is_cycle_free_on_zero_cost_plateau() {
    let dims = Dims::new(3, 2);
    let grid = Grid::filled(dims, 0);
    let src = 5;
    let dst = 3;
    let dist = sweep_distance_field(&grid, src);
    let expected = vec![5, 4, 3];
    for _ in 0..8 {
        assert_eq!(
            path_from_field(&grid, &dist, src, dst),
            Some(expected.clone())
        );
    }
    assert_eq!(
        path_from_field(&grid, &dist, src, dst),
        LeeRouter::route_one(&grid, src, dst).map(|(path, _)| path)
    );
}

#[test]
fn public_field_helpers_handle_out_of_range_source() {
    let dims = Dims::new(3, 2);
    let grid = GridBuilder::new(dims, 1).build();
    let expected = vec![Cost::MAX; dims.len()];
    assert_eq!(sweep_distance_field(&grid, 99), expected);
    assert_eq!(bfs_distance_field(&grid, 99), expected);
    assert_eq!(path_from_field(&grid, &[0], 0, 1), None);
}

#[test]
fn a_chain_may_end_at_a_source_off_the_list() {
    assert_eq!(reconstruct_path(&[5], 5, 0, &[0]), Some(vec![5, 0]));
    assert_eq!(reconstruct_path(&[6], 5, 0, &[0]), None);
    assert_eq!(reconstruct_path(&[u32::MAX], u32::MAX, 0, &[0]), None);
    assert_eq!(reconstruct_path(&[0, 0], 1, 0, &[0, 0]), None);
}

/// Every router that keeps to the outline.
fn every_router(grid: &Grid, nets: &[NetEndpoints]) -> Vec<Result<BoardRoute, RouterError>> {
    vec![
        LeeRouter.route(grid, nets),
        AStarRouter.route(grid, nets),
        RipUpRouter.route(grid, nets),
    ]
}

/// A board of 5 by 3 with a notch: column 2 is off it but for the last row.
fn notched() -> Grid {
    let dims = Dims::new(5, 3);
    let mut grid = GridBuilder::new(dims, 1).build();
    let mut outside = vec![false; dims.len()];
    outside[dims.idx(2, 0) as usize] = true;
    outside[dims.idx(2, 1) as usize] = true;
    grid.board = Some(BoardMask {
        outside,
        cuts: Vec::new(),
    });
    grid
}

#[test]
fn routes_stay_within_the_outline() {
    let grid = notched();
    let dims = grid.dims;
    let nets = [net("n", dims.idx(0, 0), dims.idx(4, 0))];
    for board in every_router(&grid, &nets) {
        let board = board.unwrap();
        assert_eq!(board.results.len(), 1);
        let path = &board.results[0].path;
        assert_eq!(path.len(), 9);
        assert!(path.contains(&dims.idx(2, 2)));
        assert!(!path.contains(&dims.idx(2, 0)) && !path.contains(&dims.idx(2, 1)));
    }
    // Without the outline the way is straight.
    let mut open = notched();
    open.board = None;
    for board in every_router(&open, &nets) {
        assert_eq!(board.unwrap().results[0].path.len(), 5);
    }
}

#[test]
fn routes_do_not_cross_the_outline_between_cells() {
    let mut grid = notched();
    let dims = grid.dims;
    let (a, b) = (dims.idx(2, 2), dims.idx(3, 2));
    if let Some(mask) = &mut grid.board {
        mask.cuts = vec![(a, b), (b, a)];
    }
    let nets = [net("n", dims.idx(0, 0), dims.idx(4, 0))];
    for board in every_router(&grid, &nets) {
        let board = board.unwrap();
        assert_eq!(board.results.len(), 0);
        assert_eq!(board.unrouted.len(), 1);
    }
}

#[test]
fn ends_off_the_board_are_not_reached() {
    let grid = notched();
    let dims = grid.dims;
    let nets = [net("n", dims.idx(0, 0), dims.idx(2, 1))];
    for board in [LeeRouter.route(&grid, &nets), AStarRouter.route(&grid, &nets)] {
        assert!(matches!(board, Err(RouterError::InvalidEndpoint { .. })));
    }
    let board = RipUpRouter.route(&grid, &nets).unwrap();
    assert_eq!(board.results.len(), 0);
    assert_eq!(board.unrouted, vec!["n".to_string()]);
}

#[test]
fn nets_share_a_masked_board_without_touching() {
    let mut grid = notched();
    let dims = grid.dims;
    // Two rows are open past the notch now.
    if let Some(mask) = &mut grid.board {
        mask.outside[dims.idx(2, 1) as usize] = false;
    }
    let nets = [
        net("a", dims.idx(0, 0), dims.idx(4, 0)),
        net("b", dims.idx(0, 2), dims.idx(4, 2)),
    ];
    let board = RipUpRouter.route(&grid, &nets).unwrap();
    assert_eq!(board.results.len(), 2);
    let (a, b) = (&board.results[0].path, &board.results[1].path);
    assert!(a.iter().all(|c| !b.contains(c)));
    assert!(a.iter().chain(b).all(|c| *c != dims.idx(2, 0)));
}

#[test]
fn a_buffer_for_a_larger_board_serves_a_smaller_one() {
    let large = Dims::new(9, 9);
    let mut buf = SearchBuf::new(large.len());
    for dims in [Dims::new(3, 3), large, Dims::new(4, 1)] {
        let grid = GridBuilder::new(dims, 1).build();
        let space = Space {
            grid: &grid,
            masked: true,
            estimate: |_c: CellIdx| 0,
        };
        let dst = dims.len() as CellIdx - 1;
        let (path, cost) = astar_buf(&mut buf, dims, 0, dst, &space).unwrap();
        assert_eq!(cost, dims.w + dims.h - 2);
        assert_eq!(path.len() as u32, cost + 1);
    }
}
