use std::collections::HashMap;

use grid_pathfinding::coord::Coord;
use grid_pathfinding::grid::{Grid, GridType};
use grid_pathfinding::pathfinding::{find_path, find_walkable};
use grid_pathfinding::search::SearchOpts;

fn nested_flags(entries: &[(i32, i32)]) -> HashMap<i32, HashMap<i32, bool>> {
    let mut m: HashMap<i32, HashMap<i32, bool>> = HashMap::new();
    for (x, y) in entries {
        m.entry(*y).or_insert_with(HashMap::new).insert(*x, true);
    }
    m
}

fn grid3x3(
    grid_type: GridType,
    extra_costs: HashMap<i32, HashMap<i32, i32>>,
    unstoppable: HashMap<i32, HashMap<i32, bool>>,
    unwalkable: HashMap<i32, HashMap<i32, bool>>,
) -> Grid {
    let tiles = vec![vec![0i32; 3]; 3];
    let mut costs = HashMap::new();
    costs.insert(0, 1);
    Grid::new(tiles, vec![0], costs, extra_costs, unstoppable, unwalkable, grid_type)
}

fn c(x: i32, y: i32) -> Coord {
    Coord { x, y }
}

fn path_cost(g: &Grid, path: &[Coord]) -> i64 {
    path.iter().map(|p| g.get_coord_cost(&p.x, &p.y) as i64).sum()
}

fn is_cardinal_step(a: Coord, b: Coord) -> bool {
    let dx = b.x - a.x;
    let dy = b.y - a.y;
    (dx.abs() + dy.abs()) == 1
}

fn is_hex_step(a: Coord, b: Coord) -> bool {
    let d = (b.x - a.x, b.y - a.y);
    [(0, -1), (1, -1), (1, 0), (0, 1), (-1, 1), (-1, 0)].contains(&d)
}

fn assert_cardinal_path(g: &Grid, start: Coord, end: Coord, path: &[Coord]) {
    assert!(!path.is_empty());
    assert_eq!(*path.last().unwrap(), end);
    let mut prev = start;
    for p in path {
        assert!(is_cardinal_step(prev, *p), "not a cardinal step: {:?} -> {:?}", prev, p);
        assert!(g.in_grid(p.x, p.y));
        assert!(g.is_coord_walkable(&p.x, &p.y));
        prev = *p;
    }
}

#[test]
fn same_start_and_end_gives_empty_path() {
    let g = grid3x3(GridType::Cardinal, HashMap::new(), HashMap::new(), HashMap::new());
    let r = find_path(&g, c(0, 0), c(0, 0), None);
    assert_eq!(r, Some(vec![]));
    // also when the coordinate is outside the grid
    let r2 = find_path(&g, c(9, 9), c(9, 9), None);
    assert_eq!(r2, Some(vec![]));
}

#[test]
fn cardinal_path_across_open_grid() {
    let g = grid3x3(GridType::Cardinal, HashMap::new(), HashMap::new(), HashMap::new());
    let path = find_path(&g, c(0, 0), c(2, 2), None).expect("path expected");
    assert_eq!(path.len(), 4);
    assert_cardinal_path(&g, c(0, 0), c(2, 2), &path);
    assert_eq!(path_cost(&g, &path), 4);
}

#[test]
fn cardinal_path_routes_around_blocked_center() {
    let g = grid3x3(
        GridType::Cardinal,
        HashMap::new(),
        HashMap::new(),
        nested_flags(&[(1, 1)]),
    );
    let path = find_path(&g, c(0, 0), c(2, 2), None).expect("path expected");
    assert_eq!(path.len(), 4);
    assert!(!path.contains(&c(1, 1)));
    assert_cardinal_path(&g, c(0, 0), c(2, 2), &path);
    assert_eq!(path_cost(&g, &path), 4);
}

#[test]
fn intercardinal_path_uses_diagonal() {
    let g = grid3x3(GridType::Intercardinal, HashMap::new(), HashMap::new(), HashMap::new());
    let path = find_path(&g, c(0, 0), c(2, 2), None).expect("path expected");
    assert_eq!(path, vec![c(1, 1), c(2, 2)]);
    assert_eq!(path_cost(&g, &path), 2);
}

#[test]
fn hex_path_uses_hex_offsets() {
    let g = grid3x3(GridType::Hex, HashMap::new(), HashMap::new(), HashMap::new());
    let path = find_path(&g, c(0, 0), c(2, 2), None).expect("path expected");
    assert_eq!(path.len(), 4);
    assert_eq!(*path.last().unwrap(), c(2, 2));
    let mut prev = c(0, 0);
    for p in &path {
        assert!(is_hex_step(prev, *p), "not a hex step: {:?} -> {:?}", prev, p);
        prev = *p;
    }
    // the hex diagonal (1, -1) is taken where it is the best move
    let down_path = find_path(&g, c(0, 1), c(1, 0), None).expect("path expected");
    assert_eq!(down_path, vec![c(1, 0)]);
}

#[test]
fn unstoppable_end_yields_no_path() {
    let g = grid3x3(
        GridType::Cardinal,
        HashMap::new(),
        nested_flags(&[(2, 2)]),
        HashMap::new(),
    );
    assert_eq!(find_path(&g, c(0, 0), c(2, 2), None), None);
    let opts_off = SearchOpts { end_on_unstoppable: None };
    assert_eq!(find_path(&g, c(0, 0), c(2, 2), Some(opts_off)), None);
    let opts_false = SearchOpts { end_on_unstoppable: Some(false) };
    assert_eq!(find_path(&g, c(0, 0), c(2, 2), Some(opts_false)), None);
    let opts_on = SearchOpts { end_on_unstoppable: Some(true) };
    let path = find_path(&g, c(0, 0), c(2, 2), Some(opts_on)).expect("path expected");
    assert_eq!(*path.last().unwrap(), c(2, 2));
    assert_eq!(path.len(), 4);
}

#[test]
fn unreachable_end_yields_no_path() {
    // a wall of unwalkable tiles cuts column 2 off
    let g = grid3x3(
        GridType::Cardinal,
        HashMap::new(),
        HashMap::new(),
        nested_flags(&[(1, 0), (1, 1), (1, 2)]),
    );
    assert_eq!(find_path(&g, c(0, 0), c(2, 0), None), None);
}

#[test]
fn end_outside_grid_yields_no_path() {
    let g = grid3x3(GridType::Cardinal, HashMap::new(), HashMap::new(), HashMap::new());
    assert_eq!(find_path(&g, c(0, 0), c(3, 3), None), None);
    assert_eq!(find_path(&g, c(0, 0), c(-1, 0), None), None);
}

#[test]
fn optimal_path_takes_cheap_detour() {
    // entering (1, 0) costs 10, so the best route to (2, 0) goes around it
    let mut inner = HashMap::new();
    inner.insert(1, 10);
    let mut extra = HashMap::new();
    extra.insert(0, inner);
    let g = grid3x3(GridType::Cardinal, extra, HashMap::new(), HashMap::new());
    let path = find_path(&g, c(0, 0), c(2, 0), None).expect("path expected");
    assert_cardinal_path(&g, c(0, 0), c(2, 0), &path);
    assert_eq!(path_cost(&g, &path), 4);
    assert!(!path.contains(&c(1, 0)));
}

#[test]
fn optimal_path_pays_toll_when_detour_is_dearer() {
    // a modest toll on (1, 0) is still cheaper than walking around
    let mut inner = HashMap::new();
    inner.insert(1, 2);
    let mut extra = HashMap::new();
    extra.insert(0, inner);
    let g = grid3x3(GridType::Cardinal, extra, HashMap::new(), HashMap::new());
    let path = find_path(&g, c(0, 0), c(2, 0), None).expect("path expected");
    assert_cardinal_path(&g, c(0, 0), c(2, 0), &path);
    assert_eq!(path_cost(&g, &path), 3);
    assert_eq!(path, vec![c(1, 0), c(2, 0)]);
}

#[test]
fn walkable_area_is_sorted_and_walkable() {
    let g = grid3x3(
        GridType::Cardinal,
        HashMap::new(),
        HashMap::new(),
        nested_flags(&[(1, 1)]),
    );
    let area = find_walkable(&g, vec![c(0, 0)], None);
    let expected = vec![
        c(0, 0),
        c(0, 1),
        c(0, 2),
        c(1, 0),
        c(1, 2),
        c(2, 0),
        c(2, 1),
        c(2, 2),
    ];
    assert_eq!(area, expected);
}

#[test]
fn walkable_area_excludes_unwalkable_seed() {
    let g = grid3x3(
        GridType::Cardinal,
        HashMap::new(),
        HashMap::new(),
        nested_flags(&[(1, 1)]),
    );
    let area = find_walkable(&g, vec![c(1, 1)], None);
    assert!(!area.contains(&c(1, 1)));
    assert_eq!(area.len(), 8);
}

#[test]
fn walkable_area_multi_source_has_no_duplicates() {
    let g = grid3x3(GridType::Cardinal, HashMap::new(), HashMap::new(), HashMap::new());
    let area = find_walkable(&g, vec![c(0, 0), c(2, 2), c(0, 0)], None);
    assert_eq!(area.len(), 9);
    for w in area.windows(2) {
        assert!(w[0].before(&w[1]));
    }
}

#[test]
fn walkable_area_confined_by_walls() {
    // walls split the grid; only the component of the seed is returned
    let g = grid3x3(
        GridType::Cardinal,
        HashMap::new(),
        HashMap::new(),
        nested_flags(&[(1, 0), (1, 1), (1, 2)]),
    );
    let area = find_walkable(&g, vec![c(0, 0)], None);
    assert_eq!(area, vec![c(0, 0), c(0, 1), c(0, 2)]);
}

#[test]
fn path_from_unwalkable_start_leaves_through_neighbors() {
    // the start coordinate is seeded and expanded even when unwalkable
    let g = grid3x3(
        GridType::Cardinal,
        HashMap::new(),
        HashMap::new(),
        nested_flags(&[(1, 1)]),
    );
    let path = find_path(&g, c(1, 1), c(2, 2), None).expect("path expected");
    assert_eq!(*path.last().unwrap(), c(2, 2));
    for p in &path {
        assert!(g.is_coord_walkable(&p.x, &p.y));
    }
}
