use metalroute::{Dims, GridBuilder, Reach, OBSTACLE};

/// The positions of grid lines; a line without one is where its number says.
struct Lines {
    x: Vec<f64>,
    y: Vec<f64>,
}

fn at(lines: &[f64], k: u32) -> f64 {
    lines.get(k as usize).copied().unwrap_or(k as f64)
}

fn within(lines: &[f64], count: u32, r: f64) -> Vec<Vec<u32>> {
    if r <= 0.0 {
        return Vec::new();
    }
    (0..count)
        .map(|i| {
            (0..count)
                .filter(|&j| (at(lines, j) - at(lines, i)).abs() <= r)
                .collect()
        })
        .collect()
}

impl Lines {
    fn from_lines(x: Vec<f64>, y: Vec<f64>) -> Lines {
        Lines { x, y }
    }

    fn uniform(d: Dims) -> Lines {
        Lines {
            x: (0..d.w).map(|k| k as f64).collect(),
            y: (0..d.h).map(|k| k as f64).collect(),
        }
    }

    fn x_of(&self, k: u32) -> f64 {
        at(&self.x, k)
    }

    fn y_of(&self, k: u32) -> f64 {
        at(&self.y, k)
    }

    fn reach(&self, d: Dims, r: f64) -> Reach {
        Reach {
            x: within(&self.x, d.w, r),
            y: within(&self.y, d.h, r),
        }
    }
}

#[test]
fn marks_rect_obstacle() {
    let g = GridBuilder::new(Dims::new(5, 5), 1)
        .mark_rect(1, 1, 2, 3)
        .build();
    assert!(g.is_well_formed());
    assert!(g.is_obstacle(g.dims.idx(1, 1)));
    assert!(g.is_obstacle(g.dims.idx(2, 3)));
    assert!(!g.is_obstacle(g.dims.idx(0, 0)));
    assert!(!g.is_obstacle(g.dims.idx(3, 3)));
    let n = g.cost.iter().filter(|&&c| c == OBSTACLE).count();
    assert_eq!(n, 6);
}

#[test]
fn clearance_inflation_marks_expected_cells() {
    let d = Dims::new(5, 5);
    let g = GridBuilder::new(d, 1)
        .mark_cell(2, 2)
        .inflate_clearance(&Lines::uniform(d).reach(d, 1.0))
        .build();
    let obstacles = g.cost.iter().filter(|&&c| c == OBSTACLE).count();
    assert_eq!(
        obstacles, 9,
        "1mm halo on a unit grid is a 3x3 block (Chebyshev parity)"
    );
    for y in 1..=3 {
        for x in 1..=3 {
            assert!(g.is_obstacle(d.idx(x, y)), "({x},{y}) should be obstacle");
        }
    }
    assert!(!g.is_obstacle(d.idx(0, 2)));
}

#[test]
fn mark_rect_layer_isolates_layers() {
    let d = Dims::with_layers(5, 5, 2);
    let g = GridBuilder::new(d, 1)
        .mark_rect_layer(1, 1, 2, 2, 1)
        .build();
    assert!(g.is_obstacle(d.idx3(1, 1, 1)));
    assert!(g.is_obstacle(d.idx3(2, 2, 1)));
    assert!(!g.is_obstacle(d.idx3(1, 1, 0)));
    assert!(!g.is_obstacle(d.idx3(2, 2, 0)));
    assert_eq!(g.cost.iter().filter(|&&c| c == OBSTACLE).count(), 4);
}

#[test]
fn default_methods_target_layer0() {
    let d = Dims::with_layers(4, 4, 3);
    let g = GridBuilder::new(d, 1).mark_cell(2, 2).build();
    assert!(g.is_obstacle(d.idx3(2, 2, 0)));
    assert!(!g.is_obstacle(d.idx3(2, 2, 1)));
    assert!(!g.is_obstacle(d.idx3(2, 2, 2)));
}

#[test]
fn inflation_does_not_bleed_across_layers() {
    let d = Dims::with_layers(5, 5, 2);
    let g = GridBuilder::new(d, 1)
        .mark_cell_layer(2, 2, 0)
        .inflate_clearance(&Lines::uniform(d).reach(d, 1.0))
        .build();
    assert_eq!(g.cost.iter().filter(|&&c| c == OBSTACLE).count(), 9);
    for y in 1..=3 {
        for x in 1..=3 {
            assert!(g.is_obstacle(d.idx3(x, y, 0)));
            assert!(!g.is_obstacle(d.idx3(x, y, 1)), "({x},{y}) must not bleed");
        }
    }
}

#[test]
fn inflation_does_not_compound() {
    let d = Dims::new(7, 1);
    let g = GridBuilder::new(d, 1)
        .mark_cell(1, 0)
        .mark_cell(5, 0)
        .inflate_clearance(&Lines::uniform(d).reach(d, 1.0))
        .build();
    assert!(!g.is_obstacle(d.idx(3, 0)));
    assert_eq!(g.cost.iter().filter(|&&c| c == OBSTACLE).count(), 6);
}

#[test]
fn geometric_clearance_respects_nonuniform_spacing() {
    let d = Dims::new(1, 5);
    let coords = Lines::from_lines(vec![0.0], vec![0.0, 4.0, 5.0, 6.0, 10.0]);
    let g = GridBuilder::new(d, 1)
        .mark_cell(0, 2)
        .inflate_clearance(&coords.reach(d, 2.0))
        .build();
    assert!(!g.is_obstacle(d.idx(0, 0)), "y=0 (5mm away) stays passable");
    assert!(g.is_obstacle(d.idx(0, 1)), "y=1 (1mm away) blocked");
    assert!(g.is_obstacle(d.idx(0, 2)), "seed blocked");
    assert!(g.is_obstacle(d.idx(0, 3)), "y=3 (1mm away) blocked");
    assert!(!g.is_obstacle(d.idx(0, 4)), "y=4 (5mm away) stays passable");
    assert_eq!(g.cost.iter().filter(|&&c| c == OBSTACLE).count(), 3);
}

#[test]
fn geometric_clearance_reaches_far_lines_when_dense() {
    let d = Dims::new(7, 1);
    let xs: Vec<f64> = (0..7).map(|i| i as f64 * 0.5).collect();
    let coords = Lines::from_lines(xs, vec![0.0]);
    let g = GridBuilder::new(d, 1)
        .mark_cell(3, 0)
        .inflate_clearance(&coords.reach(d, 1.0))
        .build();
    for x in 1..=5 {
        assert!(
            g.is_obstacle(d.idx(x, 0)),
            "x={x} within 1mm must be blocked"
        );
    }
    assert!(!g.is_obstacle(d.idx(0, 0)), "x=0 (1.5mm) stays passable");
    assert!(!g.is_obstacle(d.idx(6, 0)), "x=6 (1.5mm) stays passable");
    assert_eq!(g.cost.iter().filter(|&&c| c == OBSTACLE).count(), 5);
}

#[test]
fn lib_geometric_clearance_boundary_is_inclusive() {
    let d = Dims::new(3, 1);
    let coords = Lines::from_lines(vec![0.0, 1.0, 2.0], vec![0.0]);
    let g = GridBuilder::new(d, 1)
        .mark_cell(1, 0)
        .inflate_clearance(&coords.reach(d, 1.0))
        .build();
    assert_eq!(g.cost.iter().filter(|&&c| c == OBSTACLE).count(), 3);
}

#[test]
fn geometric_clearance_zero_is_noop() {
    let d = Dims::new(5, 5);
    let coords = Lines::uniform(d);
    let g = GridBuilder::new(d, 1)
        .mark_cell(2, 2)
        .inflate_clearance(&coords.reach(d, 0.0))
        .build();
    assert_eq!(g.cost.iter().filter(|&&c| c == OBSTACLE).count(), 1);
}

#[test]
fn truncated_coordinate_arrays_use_documented_uniform_fallback() {
    let d = Dims::new(5, 1);
    for coords in [
        Lines::from_lines(vec![], vec![]),
        Lines::from_lines(vec![0.0, 1.0], vec![0.0]),
    ] {
        let g = GridBuilder::new(d, 1)
            .mark_cell(2, 0)
            .inflate_clearance(&coords.reach(d, 1.0))
            .build();
        let blocked: Vec<u32> = (0..d.w).filter(|&x| g.is_obstacle(d.idx(x, 0))).collect();
        assert_eq!(blocked, vec![1, 2, 3]);
    }
}

#[test]
fn geometric_inflation_matches_slow_reference_on_small_nonuniform_grids() {
    let xs = vec![-1.0, -0.4, 0.0, 0.15, 1.7];
    let ys = vec![-2.0, -0.25, 0.5, 2.25];
    let d = Dims::with_layers(xs.len() as u32, ys.len() as u32, 3);
    let coords = Lines::from_lines(xs, ys);
    let seeds = [(0, 0, 0), (3, 1, 0), (2, 2, 1), (4, 3, 2)];

    for clearance in [0.0, 0.14, 0.15, 0.6, 1.75, 10.0] {
        let mut builder = GridBuilder::new(d, 7);
        for &(x, y, l) in &seeds {
            builder.mark_cell_layer(x, y, l);
        }
        builder.inflate_clearance(&coords.reach(d, clearance));
        let grid = builder.build();

        for l in 0..d.layers {
            for y in 0..d.h {
                for x in 0..d.w {
                    let expected = seeds.iter().any(|&(sx, sy, sl)| {
                        sl == l
                            && (coords.x_of(x) - coords.x_of(sx)).abs() <= clearance
                            && (coords.y_of(y) - coords.y_of(sy)).abs() <= clearance
                    });
                    assert_eq!(
                        grid.is_obstacle(d.idx3(x, y, l)),
                        expected,
                        "clearance={clearance}, cell=({x},{y},{l})"
                    );
                }
            }
        }
    }
}

#[test]
fn rectangle_corner_order_clipping_and_clear_are_consistent() {
    let d = Dims::with_layers(4, 3, 2);
    let forward = GridBuilder::new(d, 1)
        .mark_rect_layer(1, 1, 99, 99, 1)
        .build();
    let reverse = GridBuilder::new(d, 1)
        .mark_rect_layer(99, 99, 1, 1, 1)
        .build();
    assert_eq!(forward, reverse);
    assert_eq!(
        forward.cost.iter().filter(|&&c| c == OBSTACLE).count(),
        3 * 2
    );

    let cleared = GridBuilder::new(d, 1)
        .mark_cell_layer(2, 1, 1)
        .clear_cell_layer(2, 1, 1)
        .mark_cell_layer(500, 500, 500)
        .clear_cell_layer(500, 500, 500)
        .build();
    assert!(cleared.cost.iter().all(|&c| c == 1));
}

#[test]
fn inflation_is_monotone_in_clearance() {
    let d = Dims::new(6, 5);
    let coords = Lines::from_lines(
        vec![0.0, 0.2, 0.9, 1.0, 2.8, 5.0],
        vec![-1.0, 0.0, 0.1, 1.5, 4.0],
    );
    let build = |clearance| {
        GridBuilder::new(d, 1)
            .mark_cell(2, 2)
            .mark_cell(5, 4)
            .inflate_clearance(&coords.reach(d, clearance))
            .build()
    };
    let small = build(0.25);
    let large = build(1.0);
    for i in 0..d.len() as u32 {
        assert!(!small.is_obstacle(i) || large.is_obstacle(i));
    }
}
