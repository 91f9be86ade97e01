use metalroute::fixtures::{hand_32x32_wall, obstacle_battery, parse_ascii, tie_break_2x2};
use metalroute::{Dims, OBSTACLE};

#[test]
fn ascii_parses_endpoints_and_obstacles() {
    let f = parse_ascii("t", "S.#\n..T", None);
    assert_eq!(f.grid.dims, Dims::new(3, 2));
    assert_eq!(f.nets[0].src, 0);
    assert_eq!(f.nets[0].dst, 5);
    assert!(f.grid.is_obstacle(f.grid.dims.idx(2, 0)));
    assert!(f.grid.is_well_formed());
}

#[test]
fn hand_case_geometry_is_correct() {
    let f = hand_32x32_wall();
    assert_eq!(f.expected_total_cost, Some(93));
    let d = f.grid.dims;
    assert!(f.grid.is_obstacle(d.idx(15, 0)));
    assert!(f.grid.is_obstacle(d.idx(15, 30)));
    assert!(!f.grid.is_obstacle(d.idx(15, 31)));
    assert_ne!(f.grid.cost_at(f.nets[0].src), OBSTACLE);
    assert_ne!(f.grid.cost_at(f.nets[0].dst), OBSTACLE);
}

#[test]
fn tie_break_fixture_pins_lower_index_path() {
    let f = tie_break_2x2();
    assert_eq!(f.expected_path, Some(vec![0, 1, 3]));
}

#[test]
fn battery_is_nonempty_and_well_formed() {
    let battery = obstacle_battery();
    assert!(battery.len() >= 5);
    for f in &battery {
        assert!(f.grid.is_well_formed(), "{}", f.name);
        assert_eq!(f.nets.len(), 1, "{} should be single-net", f.name);
    }
}
