//! What holds of the library as a whole, on boards small enough to look at.
use metalroute::fixtures::obstacle_battery;
use metalroute::geometry::{Geometry, Reach};
use metalroute::groups::{connection_group_ids, count_groups, group_of};
use metalroute::halo::{halo_list, Claim, Committed};
use metalroute::legal::find_legal;
use metalroute::legalize::legalize_in_order;
use metalroute::negotiate::{negotiate, overused_cells};
use metalroute::negotiated::{NegotiatedRouter, NegotiationMode};
use metalroute::orders::{candidate_orders, order_by_key, permutations};
use metalroute::pads::PadSet;
use metalroute::rescue::ripup_legalize;
use metalroute::scoring::{routed_count, unit_cost};
use metalroute::search::SearchBuf;
use metalroute::sweep::path_from_field;
use metalroute::task::Problem;
use metalroute::{
    bfs_distance_field, sweep_distance_field, AStarRouter, BoardRoute, CellIdx, Dims, Grid,
    GridBuilder, LeeRouter, NetEndpoints, RipUpRouter, Router, RouterError, ViaModel, OBSTACLE,
};
use std::collections::HashSet;

fn net(name: &str, src: CellIdx, dst: CellIdx) -> NetEndpoints {
    NetEndpoints {
        net: name.into(),
        src,
        dst,
        passable_pads: Vec::new(),
        via_passable_pads: Vec::new(),
    }
}

/// Nets across an open board that get in each other's way.
fn crossing(dims: Dims) -> Vec<NetEndpoints> {
    vec![
        net("a", dims.idx(0, 2), dims.idx(5, 3)),
        net("b", dims.idx(2, 0), dims.idx(3, 5)),
        net("c", dims.idx(0, 0), dims.idx(5, 5)),
        net("d#0", dims.idx(0, 5), dims.idx(5, 0)),
        net("d#1", dims.idx(1, 5), dims.idx(5, 1)),
    ]
}

fn are_disjoint(a: &[CellIdx], b: &[CellIdx]) -> bool {
    a.iter().all(|c| !b.contains(c))
}

#[test]
fn clearing_undoes_marking() {
    let dims = Dims::new(4, 4);
    let before = GridBuilder::new(dims, 3).build();
    let mut builder = GridBuilder::new(dims, 3);
    builder.mark_cell(1, 2);
    assert_eq!(builder.build().cost_at(dims.idx(1, 2)), OBSTACLE);
    builder.clear_cell(1, 2);
    assert_eq!(builder.build(), before);
}

#[test]
fn corners_of_a_rectangle_come_in_any_order() {
    let dims = Dims::new(5, 5);
    let one = GridBuilder::new(dims, 1).mark_rect(1, 3, 3, 1).build();
    let two = GridBuilder::new(dims, 1).mark_rect(3, 1, 1, 3).build();
    assert_eq!(one, two);
    assert_eq!(one.cost.iter().filter(|&&c| c == OBSTACLE).count(), 9);
}

#[test]
fn growth_stays_on_its_layer_and_grows_with_the_reach() {
    let dims = Dims::with_layers(7, 7, 2);
    let grown = |n: u32| {
        let mut builder = GridBuilder::new(dims, 1);
        builder.mark_cell_layer(3, 3, 1);
        builder.inflate_clearance(&Reach::uniform(dims, n));
        builder.build()
    };
    let blocked = |g: &Grid| {
        (0..dims.len() as CellIdx)
            .filter(|&c| g.is_obstacle(c))
            .collect::<HashSet<_>>()
    };
    let (one, two) = (blocked(&grown(1)), blocked(&grown(2)));
    assert_eq!((one.len(), two.len()), (9, 25));
    assert!(one.is_subset(&two));
    assert!(two.iter().all(|&c| dims.layer_of(c) == 1));
}

#[test]
fn even_lines_reach_as_far_as_their_number_says() {
    let reach = Reach::uniform(Dims::new(6, 1), 2);
    assert_eq!(reach.x[0], vec![0, 1, 2]);
    assert_eq!(reach.x[3], vec![1, 2, 3, 4, 5]);
}

#[test]
fn every_net_is_routed_or_not() {
    for f in obstacle_battery() {
        for board in [
            LeeRouter.route(&f.grid, &f.nets).unwrap(),
            AStarRouter.route(&f.grid, &f.nets).unwrap(),
            RipUpRouter.route(&f.grid, &f.nets).unwrap(),
            NegotiatedRouter::new().route(&f.grid, &f.nets).unwrap(),
        ] {
            assert_eq!(board.results.len() + board.unrouted.len(), f.nets.len());
        }
    }
}

#[test]
fn two_ways_to_the_same_field() {
    for f in obstacle_battery() {
        let src = f.nets[0].src;
        if f.grid.is_obstacle(src) {
            continue;
        }
        let field = bfs_distance_field(&f.grid, src);
        assert_eq!(field, sweep_distance_field(&f.grid, src), "{}", f.name);
        let dst = f.nets[0].dst;
        let path = path_from_field(&f.grid, &field, src, dst);
        let lee = LeeRouter::route_one(&f.grid, src, dst);
        assert_eq!(path, lee.map(|(p, _)| p), "{}", f.name);
    }
}

#[test]
fn routed_nets_share_no_cells() {
    let dims = Dims::new(6, 6);
    let grid = GridBuilder::new(dims, 1).build();
    let nets = &crossing(dims)[..3];
    let board: BoardRoute = RipUpRouter.route(&grid, nets).unwrap();
    assert_eq!(board.results[0].net, "a");
    for (i, a) in board.results.iter().enumerate() {
        for b in &board.results[i + 1..] {
            assert!(are_disjoint(&a.path, &b.path));
        }
    }
}

#[test]
fn groups_of_a_board_are_apart() {
    let dims = Dims::new(6, 6);
    let grid = GridBuilder::new(dims, 1).build();
    let nets = crossing(dims);
    let board = NegotiatedRouter::new().route(&grid, &nets).unwrap();
    for (i, a) in board.results.iter().enumerate() {
        for b in &board.results[i + 1..] {
            if group_of(&a.net) != group_of(&b.net) {
                assert!(are_disjoint(&a.path, &b.path), "{} {}", a.net, b.net);
            }
        }
    }
}

#[test]
fn the_better_variant_is_kept() {
    let dims = Dims::new(6, 6);
    let grid = GridBuilder::new(dims, 1).build();
    let nets = crossing(dims);
    let router = NegotiatedRouter::new();
    let kept = router.route(&grid, &nets).unwrap();
    for mode in [NegotiationMode::Adaptive, NegotiationMode::ForceSerial] {
        let board = router.route_variant(&grid, &nets, mode).unwrap().0.board;
        assert!(
            kept.results.len() > board.results.len()
                || (kept.results.len() == board.results.len()
                    && kept.total_cost() <= board.total_cost())
                || board == kept
        );
    }
}

#[test]
fn nets_with_one_stem_or_a_common_end_are_one_group() {
    let dims = Dims::new(6, 6);
    let mut nets = crossing(dims);
    nets.push(net("e", dims.idx(5, 1), dims.idx(4, 4)));
    let ids = connection_group_ids(&nets);
    assert_eq!(ids, vec![0, 1, 2, 3, 3, 3]);
    assert_eq!(count_groups(&ids), 4);
}

#[test]
fn overuse_is_sharing_between_groups() {
    let paths = vec![vec![0, 1, 2], vec![2, 3], vec![1, 2]];
    assert_eq!(overused_cells(5, &paths, &vec![0, 1, 0]), vec![2]);
    assert!(overused_cells(5, &paths, &vec![0, 0, 0]).is_empty());
}

#[test]
fn settled_and_committed_paths_are_disjoint() {
    let dims = Dims::new(6, 6);
    let grid = GridBuilder::new(dims, 1).build();
    let nets = crossing(dims);
    let via_model = ViaModel::through_hole(1);
    let geometry = Geometry::uniform(dims, 0, 0);
    let problem = Problem::new(&grid, &nets, &via_model, &geometry);
    let groups = connection_group_ids(&nets);
    let (paths, _) = negotiate(&problem, &groups, false, false);
    if overused_cells(dims.len(), &paths, &groups).is_empty() {
        for i in 0..paths.len() {
            for j in 0..i {
                assert!(groups[i] == groups[j] || are_disjoint(&paths[i], &paths[j]));
            }
        }
    }
    let order = vec![3, 2, 1, 0];
    let committed: Committed = legalize_in_order(&problem, &groups, &paths, &order);
    let rescued: Committed = ripup_legalize(&problem, &groups, &paths, &order, &committed);
    assert!(routed_count(&committed) > 0 && routed_count(&rescued) > 0);
    for kept in [&committed, &rescued] {
        for i in 0..nets.len() {
            for j in 0..i {
                if let (Some(a), Some(b)) = (&kept[i], &kept[j]) {
                    assert!(groups[i] == groups[j] || are_disjoint(a, b));
                }
            }
        }
    }
}

#[test]
fn a_lone_net_keeps_clear_of_copper() {
    let dims = Dims::new(5, 3);
    let grid = GridBuilder::new(dims, 1).build();
    let nets = vec![net("n", dims.idx(0, 1), dims.idx(4, 1))];
    let via_model = ViaModel::through_hole(1);
    let geometry = Geometry::uniform(dims, 0, 0);
    let problem = Problem::new(&grid, &nets, &via_model, &geometry);
    let mut owner = vec![Claim::Free; dims.len()];
    let halo = vec![Claim::Free; dims.len()];
    owner[dims.idx(2, 1) as usize] = Claim::Group(7);
    let mut buf = SearchBuf::new(dims.len());
    let mut pads = PadSet::new(dims.len());
    let path = find_legal(&mut buf, &mut pads, &problem, 0, 0, &owner, &halo, false).unwrap();
    assert!(!path.contains(&dims.idx(2, 1)));
    assert_eq!(unit_cost(&path), 6);
}

#[test]
fn orders_are_all_the_arrangements_in_turn() {
    assert_eq!(
        permutations(&[0, 1, 2]),
        vec![
            vec![0, 1, 2],
            vec![0, 2, 1],
            vec![1, 0, 2],
            vec![1, 2, 0],
            vec![2, 0, 1],
            vec![2, 1, 0],
        ]
    );
    assert_eq!(order_by_key(&vec![5, 3, 5], false), vec![1, 0, 2]);
    assert_eq!(order_by_key(&vec![5, 3, 5], true), vec![0, 2, 1]);
    for order in candidate_orders(&vec![4, 2, 3, 1]) {
        let mut sorted = order.clone();
        sorted.sort_unstable();
        assert_eq!(sorted, vec![0, 1, 2, 3]);
    }
}

#[test]
fn concurrent_routes_agree() {
    let dims = Dims::with_layers(8, 8, 2);
    let grid = GridBuilder::new(dims, 1).build();
    let nets: Vec<NetEndpoints> = (0..18)
        .map(|i| net(&format!("n{i}"), dims.idx3(i % 8, i / 8, 0), dims.idx3(7 - i % 8, 7 - i / 8, 1)))
        .collect();
    let router = NegotiatedRouter::new().with_clearance_cells(1);
    let expected = router.route(&grid, &nets).unwrap();
    for threads in [1, 3] {
        let pool = rayon::ThreadPoolBuilder::new()
            .num_threads(threads)
            .build()
            .unwrap();
        assert_eq!(pool.install(|| router.route(&grid, &nets).unwrap()), expected);
    }
}

#[test]
fn of_two_routes_one_keeps_clear_of_the_other() {
    let dims = Dims::with_layers(12, 12, 2);
    let grid = GridBuilder::new(dims, 1).build();
    let nets: Vec<NetEndpoints> = (0..10)
        .map(|i| net(&format!("n{i}"), dims.idx3(i, 0, 0), dims.idx3((i * 7 + 3) % 12, 11, i % 2)))
        .collect();
    let geometry = Geometry::uniform(dims, 1, 0);
    let board = NegotiatedRouter::new()
        .with_clearance_cells(1)
        .route(&grid, &nets)
        .unwrap();
    assert!(board.results.len() > 2);
    // No cell of the second but its ends is in the halo of the first.
    let clear = |a: usize, b: usize| {
        let halo: HashSet<CellIdx> =
            halo_list(&grid, &geometry, &board.results[a].path).into_iter().collect();
        let own = nets.iter().find(|n| n.net == board.results[b].net).unwrap();
        board.results[b]
            .path
            .iter()
            .all(|c| *c == own.src || *c == own.dst || !halo.contains(c))
    };
    for a in 0..board.results.len() {
        for b in 0..a {
            assert_ne!(board.groups[a], board.groups[b]);
            assert!(clear(a, b) || clear(b, a), "{a} {b}");
        }
    }
}

#[test]
fn each_refusal_of_a_router_is_named() {
    let dims = Dims::new(2, 2);
    let mut broken = Grid::filled(dims, 1);
    broken.cost.pop();
    let nets = [net("n", 0, 9)];
    assert_eq!(
        LeeRouter.route(&broken, &nets),
        Err(RouterError::MalformedGrid)
    );
    assert_eq!(
        LeeRouter.route(&Grid::filled(dims, 1), &nets),
        Err(RouterError::InvalidEndpoint {
            net: "n".to_string()
        })
    );
}

#[test]
fn the_halo_of_a_cell_is_the_lines_around_it() {
    let dims = Dims::new(4, 4);
    let grid = GridBuilder::new(dims, 1).mark_cell(0, 0).build();
    let halo = halo_list(&grid, &Geometry::uniform(dims, 1, 0), &vec![dims.idx(1, 1)]);
    let cells: HashSet<CellIdx> = halo.into_iter().collect();
    assert!(!cells.contains(&dims.idx(0, 0)));
    assert!(cells.contains(&dims.idx(2, 2)));
    assert!(!cells.contains(&dims.idx(3, 1)));
}

#[test]
fn nets_without_any_path_stay_without_one() {
    let dims = Dims::new(6, 6);
    let grid = GridBuilder::new(dims, 1).build();
    let nets = crossing(dims);
    let via_model = ViaModel::through_hole(1);
    let geometry = Geometry::uniform(dims, 0, 0);
    let problem = Problem::new(&grid, &nets, &via_model, &geometry);
    let groups = connection_group_ids(&nets);
    let (mut paths, _) = negotiate(&problem, &groups, false, false);
    paths[1].clear();
    let seed: Committed = vec![None; nets.len()];
    let order: Vec<usize> = (0..count_groups(&groups)).collect();
    let rescued: Committed = ripup_legalize(&problem, &groups, &paths, &order, &seed);
    assert!(rescued[1].is_none());
    assert!(routed_count(&rescued) > 0);
}
