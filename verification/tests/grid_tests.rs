use std::collections::HashMap;

use grid_pathfinding::coord::Coord;
use grid_pathfinding::grid::{get_nested_bool, Grid, GridType};

fn nested(entries: &[(i32, i32)]) -> HashMap<i32, HashMap<i32, bool>> {
    let mut m: HashMap<i32, HashMap<i32, bool>> = HashMap::new();
    for (x, y) in entries {
        m.entry(*y).or_insert_with(HashMap::new).insert(*x, true);
    }
    m
}

fn uniform_grid(rows: usize, cols: usize, grid_type: GridType) -> Grid {
    let tiles = vec![vec![0i32; cols]; rows];
    let mut costs = HashMap::new();
    costs.insert(0, 1);
    Grid::new(
        tiles,
        vec![0],
        costs,
        HashMap::new(),
        HashMap::new(),
        HashMap::new(),
        grid_type,
    )
}

#[test]
fn in_grid_bounds() {
    let g = uniform_grid(2, 3, GridType::Cardinal);
    assert!(g.in_grid(0, 0));
    assert!(g.in_grid(2, 1));
    assert!(!g.in_grid(3, 0));
    assert!(!g.in_grid(0, 2));
    assert!(!g.in_grid(-1, 0));
    assert!(!g.in_grid(0, -1));
}

#[test]
fn in_grid_ragged_rows() {
    let tiles = vec![vec![0i32, 0], vec![0i32, 0, 0, 0]];
    let g = Grid::new(
        tiles,
        vec![0],
        HashMap::new(),
        HashMap::new(),
        HashMap::new(),
        HashMap::new(),
        GridType::Cardinal,
    );
    assert!(g.in_grid(1, 0));
    assert!(!g.in_grid(2, 0));
    assert!(g.in_grid(3, 1));
    assert!(!g.in_grid(4, 1));
}

#[test]
fn topology_accessors() {
    assert!(uniform_grid(1, 1, GridType::Cardinal).is_cardinal());
    assert!(!uniform_grid(1, 1, GridType::Cardinal).is_hex());
    assert!(uniform_grid(1, 1, GridType::Hex).is_hex());
    assert!(uniform_grid(1, 1, GridType::Intercardinal).is_intercardinal());
    assert!(!uniform_grid(1, 1, GridType::Hex).is_intercardinal());
}

#[test]
fn walkable_by_tile_type() {
    let tiles = vec![vec![0i32, 1]];
    let g = Grid::new(
        tiles,
        vec![0],
        HashMap::new(),
        HashMap::new(),
        HashMap::new(),
        HashMap::new(),
        GridType::Cardinal,
    );
    assert!(g.is_coord_walkable(&0, &0));
    assert!(!g.is_coord_walkable(&1, &0));
}

#[test]
fn unwalkable_override_beats_tile_type() {
    let tiles = vec![vec![0i32, 0]];
    let g = Grid::new(
        tiles,
        vec![0],
        HashMap::new(),
        HashMap::new(),
        HashMap::new(),
        nested(&[(1, 0)]),
        GridType::Cardinal,
    );
    assert!(g.is_coord_walkable(&0, &0));
    assert!(!g.is_coord_walkable(&1, &0));
    // unwalkable implies unstoppable too
    assert!(!g.is_coord_stoppable(&1, &0));
}

#[test]
fn unstoppable_override_beats_walkability() {
    let tiles = vec![vec![0i32, 0]];
    let g = Grid::new(
        tiles,
        vec![0],
        HashMap::new(),
        HashMap::new(),
        nested(&[(1, 0)]),
        HashMap::new(),
        GridType::Cardinal,
    );
    assert!(g.is_coord_walkable(&1, &0));
    assert!(!g.is_coord_stoppable(&1, &0));
    assert!(g.is_coord_stoppable(&0, &0));
}

#[test]
fn cost_defaults_to_one() {
    let tiles = vec![vec![0i32]];
    let g = Grid::new(
        tiles,
        vec![0],
        HashMap::new(),
        HashMap::new(),
        HashMap::new(),
        HashMap::new(),
        GridType::Cardinal,
    );
    assert_eq!(g.get_coord_cost(&0, &0), 1);
}

#[test]
fn cost_by_tile_type() {
    let tiles = vec![vec![0i32, 5]];
    let mut costs = HashMap::new();
    costs.insert(5, 7);
    let g = Grid::new(
        tiles,
        vec![0, 5],
        costs,
        HashMap::new(),
        HashMap::new(),
        HashMap::new(),
        GridType::Cardinal,
    );
    assert_eq!(g.get_coord_cost(&0, &0), 1);
    assert_eq!(g.get_coord_cost(&1, &0), 7);
}

#[test]
fn extra_cost_overrides_tile_cost() {
    let tiles = vec![vec![0i32, 0]];
    let mut costs = HashMap::new();
    costs.insert(0, 3);
    let mut inner = HashMap::new();
    inner.insert(1, 42);
    let mut extra = HashMap::new();
    extra.insert(0, inner);
    let g = Grid::new(
        tiles,
        vec![0],
        costs,
        extra,
        HashMap::new(),
        HashMap::new(),
        GridType::Cardinal,
    );
    assert_eq!(g.get_coord_cost(&0, &0), 3);
    assert_eq!(g.get_coord_cost(&1, &0), 42);
    assert_eq!(g.get_extra_cost(&1, &0), Some(&42));
    assert_eq!(g.get_extra_cost(&0, &0), None);
}

#[test]
fn nested_bool_lookup() {
    let m = nested(&[(2, 7), (3, 7)]);
    assert!(get_nested_bool(&m, &2, &7));
    assert!(get_nested_bool(&m, &3, &7));
    assert!(!get_nested_bool(&m, &4, &7));
    assert!(!get_nested_bool(&m, &2, &8));
}

#[test]
fn coord_map_round_trip() {
    let coords = vec![Coord { x: 1, y: 2 }, Coord { x: 3, y: 4 }, Coord { x: 1, y: 4 }];
    let m = Grid::to_coord_map(coords);
    assert!(get_nested_bool(&m, &1, &2));
    assert!(get_nested_bool(&m, &3, &4));
    assert!(get_nested_bool(&m, &1, &4));
    assert!(!get_nested_bool(&m, &2, &2));
    assert!(!get_nested_bool(&m, &3, &2));
}

#[test]
fn coord_order_and_equality() {
    let a = Coord { x: 1, y: 2 };
    let b = Coord { x: 1, y: 3 };
    let c = Coord { x: 2, y: 0 };
    assert!(a.before(&b));
    assert!(b.before(&c));
    assert!(a.before(&c));
    assert!(!c.before(&a));
    assert!(!a.before(&a));
    assert!(Coord::equals(Some(a), Some(Coord::new(1, 2))));
    assert!(!Coord::equals(Some(a), Some(b)));
    assert!(Coord::equals(None, None));
    assert!(!Coord::equals(Some(a), None));
}
