use vstd::prelude::*;
use vstd::set_lib::*;
use std::collections::HashMap;
use crate::coord::Coord;

verus! {

broadcast use vstd::std_specs::hash::group_hash_axioms;

/// Movement topology: 4-way (Cardinal), 6-way (Hex) or 8-way (Intercardinal)
/// neighbor expansion.
#[derive(Copy, Clone, PartialEq, Eq, Structural, Debug)]
pub enum GridType {
    Cardinal,
    Hex,
    Intercardinal,
}

/// The static cost and walkability model: tile layout, walkable tile types,
/// per-tile-type base costs, per-coordinate cost overrides, and
/// per-coordinate unstoppable/unwalkable override sets. Immutable once built.
pub struct Grid {
    tiles: Vec<Vec<i32>>,
    walkable_tiles: Vec<i32>,
    costs: HashMap<i32, i32>,
    extra_costs: HashMap<i32, HashMap<i32, i32>>,
    unstoppable_coords: HashMap<i32, HashMap<i32, bool>>,
    unwalkable_coords: HashMap<i32, HashMap<i32, bool>>,
    grid_type: GridType,
}

/// Presence of (x, y) in a nested y -> x -> flag mapping; any mapped value
/// counts as presence.
pub open spec fn nested_has(m: Map<i32, HashMap<i32, bool>>, x: i32, y: i32) -> bool {
    m.contains_key(y) && m[y]@.contains_key(x)
}

impl Grid {
    /// Number of rows of the tile layout.
    pub closed spec fn spec_row_count(&self) -> int {
        self.tiles@.len() as int
    }

    /// The tile types of row y (rows may have different lengths).
    pub closed spec fn spec_row(&self, y: int) -> Seq<i32> {
        self.tiles@[y]@
    }

    /// The walkable-by-default tile types.
    pub closed spec fn spec_walkable_tiles(&self) -> Seq<i32> {
        self.walkable_tiles@
    }

    /// The base entry cost per tile type.
    pub closed spec fn spec_costs(&self) -> Map<i32, i32> {
        self.costs@
    }

    /// Per-coordinate entry-cost overrides, keyed y then x.
    pub closed spec fn spec_extra_costs(&self) -> Map<i32, HashMap<i32, i32>> {
        self.extra_costs@
    }

    /// Coordinates marked unstoppable, keyed y then x.
    pub closed spec fn spec_unstoppable(&self) -> Map<i32, HashMap<i32, bool>> {
        self.unstoppable_coords@
    }

    /// Coordinates marked unwalkable, keyed y then x.
    pub closed spec fn spec_unwalkable(&self) -> Map<i32, HashMap<i32, bool>> {
        self.unwalkable_coords@
    }

    /// The movement topology, fixed at construction.
    pub closed spec fn spec_grid_type(&self) -> GridType {
        self.grid_type
    }

    /// A coordinate is in bounds iff y indexes an existing row and x indexes
    /// within that row's length.
    pub open spec fn spec_in_grid(&self, x: int, y: int) -> bool {
        &&& 0 <= y < self.spec_row_count()
        &&& 0 <= x < self.spec_row(y).len()
    }

    /// The tile type at an in-bounds coordinate.
    pub open spec fn spec_tile_at(&self, x: i32, y: i32) -> i32 {
        self.spec_row(y as int)[x as int]
    }

    /// (x, y) is marked unwalkable by the per-coordinate override set.
    pub open spec fn spec_unwalkable_marked(&self, x: i32, y: i32) -> bool {
        nested_has(self.spec_unwalkable(), x, y)
    }

    /// (x, y) is marked unstoppable by the per-coordinate override set.
    pub open spec fn spec_unstoppable_marked(&self, x: i32, y: i32) -> bool {
        nested_has(self.spec_unstoppable(), x, y)
    }

    /// Walkability of an in-bounds coordinate: never walkable when marked
    /// unwalkable; otherwise decided by tile-type membership in the
    /// walkable set.
    pub open spec fn spec_walkable(&self, x: i32, y: i32) -> bool {
        &&& !self.spec_unwalkable_marked(x, y)
        &&& self.spec_walkable_tiles().contains(self.spec_tile_at(x, y))
    }

    /// A path may stop on an in-bounds coordinate iff it is walkable and not
    /// marked unstoppable.
    pub open spec fn spec_stoppable(&self, x: i32, y: i32) -> bool {
        &&& !self.spec_unstoppable_marked(x, y)
        &&& self.spec_walkable(x, y)
    }

    /// The entry-cost override for (x, y), if one is configured.
    pub open spec fn spec_extra_cost(&self, x: i32, y: i32) -> Option<i32> {
        if self.spec_extra_costs().contains_key(y) && self.spec_extra_costs()[y]@.contains_key(x) {
            Some(self.spec_extra_costs()[y]@[x])
        } else {
            None
        }
    }

    /// The cost of entering an in-bounds coordinate: the override if present,
    /// else the base cost of its tile type, else 1.
    pub open spec fn spec_cost(&self, x: i32, y: i32) -> i32 {
        match self.spec_extra_cost(x, y) {
            Some(extra) => extra,
            None => {
                let tile = self.spec_tile_at(x, y);
                if self.spec_costs().contains_key(tile) {
                    self.spec_costs()[tile]
                } else {
                    1
                }
            },
        }
    }

    pub fn new(
        tiles: Vec<Vec<i32>>,
        walkable_tiles: Vec<i32>,
        costs: HashMap<i32, i32>,
        extra_costs: HashMap<i32, HashMap<i32, i32>>,
        unstoppable_coords: HashMap<i32, HashMap<i32, bool>>,
        unwalkable_coords: HashMap<i32, HashMap<i32, bool>>,
        grid_type: GridType,
    ) -> (g: Grid)
        ensures
            g.spec_row_count() == tiles@.len(),
            forall|y: int| 0 <= y < tiles@.len() ==> g.spec_row(y) == tiles@[y]@,
            g.spec_walkable_tiles() == walkable_tiles@,
            g.spec_costs() == costs@,
            g.spec_extra_costs() == extra_costs@,
            g.spec_unstoppable() == unstoppable_coords@,
            g.spec_unwalkable() == unwalkable_coords@,
            g.spec_grid_type() == grid_type,
    {
        Grid {
            tiles,
            walkable_tiles,
            costs,
            extra_costs,
            unstoppable_coords,
            unwalkable_coords,
            grid_type,
        }
    }

    pub fn is_cardinal(&self) -> (r: bool)
        ensures
            r == (self.spec_grid_type() == GridType::Cardinal),
    {
        match self.grid_type {
            GridType::Cardinal => true,
            _ => false,
        }
    }

    pub fn is_hex(&self) -> (r: bool)
        ensures
            r == (self.spec_grid_type() == GridType::Hex),
    {
        match self.grid_type {
            GridType::Hex => true,
            _ => false,
        }
    }

    pub fn is_intercardinal(&self) -> (r: bool)
        ensures
            r == (self.spec_grid_type() == GridType::Intercardinal),
    {
        match self.grid_type {
            GridType::Intercardinal => true,
            _ => false,
        }
    }

    /// Bounds test; out-of-bounds coordinates are "not in grid", never a fault.
    pub fn in_grid(&self, x: i32, y: i32) -> (r: bool)
        ensures
            r == self.spec_in_grid(x as int, y as int),
    {
        if x < 0 || y < 0 {
            false
        } else if (y as usize) < self.tiles.len() {
            (x as usize) < self.tiles[y as usize].len()
        } else {
            false
        }
    }

    pub fn is_coord_stoppable(&self, x: &i32, y: &i32) -> (r: bool)
        requires
            self.spec_in_grid(*x as int, *y as int),
        ensures
            r == self.spec_stoppable(*x, *y),
    {
        if get_nested_bool(&self.unstoppable_coords, x, y) {
            false
        } else {
            self.is_coord_walkable(x, y)
        }
    }

    pub fn is_coord_walkable(&self, x: &i32, y: &i32) -> (r: bool)
        requires
            self.spec_in_grid(*x as int, *y as int),
        ensures
            r == self.spec_walkable(*x, *y),
    {
        if get_nested_bool(&self.unwalkable_coords, x, y) {
            false
        } else {
            let tile = self.tiles[*y as usize][*x as usize];
            contains_tile(&self.walkable_tiles, tile)
        }
    }

    pub fn get_coord_cost(&self, x: &i32, y: &i32) -> (r: i32)
        requires
            self.spec_in_grid(*x as int, *y as int),
        ensures
            r == self.spec_cost(*x, *y),
    {
        match self.get_extra_cost(x, y) {
            Some(extra) => *extra,
            _ => {
                let tile = self.tiles[*y as usize][*x as usize];
                match self.costs.get(&tile) {
                    None => 1,
                    Some(cost) => *cost,
                }
            },
        }
    }

    pub fn get_extra_cost(&self, x: &i32, y: &i32) -> (r: Option<&i32>)
        ensures
            match r {
                Some(extra) => self.spec_extra_cost(*x, *y) == Some(*extra),
                None => self.spec_extra_cost(*x, *y) is None,
            },
    {
        match self.extra_costs.get(y) {
            Some(inner_hash) => inner_hash.get(x),
            _ => None,
        }
    }

    /// Builds the nested y -> x -> presence lookup table holding exactly the
    /// given coordinates.
    pub fn to_coord_map(coords: Vec<Coord>) -> (m: HashMap<i32, HashMap<i32, bool>>)
        ensures
            forall|x: i32, y: i32| nested_has(m@, x, y) <==> coords@.contains((Coord { x, y })),
            forall|y: i32| #[trigger] m@.contains_key(y) ==> exists|x: i32| nested_has(m@, x, y),
    {
        let mut m: HashMap<i32, HashMap<i32, bool>> = HashMap::new();
        let mut i: usize = 0;
        while i < coords.len()
            invariant
                i <= coords@.len(),
                forall|x: i32, y: i32|
                    nested_has(m@, x, y) <==> exists|j: int|
                        0 <= j < i && coords@[j] == (Coord { x, y }),
                forall|y: i32|
                    #[trigger] m@.contains_key(y) ==> exists|j: int| 0 <= j < i && coords@[j].y
                        == y,
            decreases coords@.len() - i,
        {
            let c = coords[i];
            let mut inner: HashMap<i32, bool> = match m.get(&c.y) {
                Some(h) => h.clone(),
                None => HashMap::new(),
            };
            let ghost ipre = inner@;
            let ghost mpre = m@;
            inner.insert(c.x, true);
            m.insert(c.y, inner);
            proof {
                assert forall|x: i32, y: i32|
                    nested_has(m@, x, y) <==> exists|j: int|
                        0 <= j < i + 1 && coords@[j] == (Coord { x, y }) by {
                    if y == c.y {
                        assert(m@.contains_key(y));
                        assert(m@[y]@ == ipre.insert(c.x, true));
                        if x == c.x {
                            assert(nested_has(m@, x, y));
                            assert(coords@[i as int] == (Coord { x, y }));
                        } else {
                            assert(m@[y]@.contains_key(x) == ipre.contains_key(x));
                            assert(ipre.contains_key(x) == nested_has(mpre, x, y));
                            if nested_has(m@, x, y) {
                                let j = choose|j: int| 0 <= j < i && coords@[j] == (Coord { x, y });
                                assert(0 <= j < i + 1 && coords@[j] == (Coord { x, y }));
                            }
                            if exists|j: int| 0 <= j < i + 1 && coords@[j] == (Coord { x, y }) {
                                let j = choose|j: int|
                                    0 <= j < i + 1 && coords@[j] == (Coord { x, y });
                                assert(j < i);
                                assert(nested_has(mpre, x, y));
                            }
                        }
                    } else {
                        assert(m@.contains_key(y) == mpre.contains_key(y));
                        if mpre.contains_key(y) {
                            assert(m@[y] == mpre[y]);
                        }
                        assert(nested_has(m@, x, y) == nested_has(mpre, x, y));
                        if nested_has(m@, x, y) {
                            let j = choose|j: int| 0 <= j < i && coords@[j] == (Coord { x, y });
                            assert(0 <= j < i + 1 && coords@[j] == (Coord { x, y }));
                        }
                        if exists|j: int| 0 <= j < i + 1 && coords@[j] == (Coord { x, y }) {
                            let j = choose|j: int| 0 <= j < i + 1 && coords@[j] == (Coord { x, y });
                            assert(j < i);
                            assert(nested_has(mpre, x, y));
                        }
                    }
                }
            }
            proof {
                assert forall|y: i32|
                    #[trigger] m@.contains_key(y) implies exists|j: int|
                    0 <= j < i + 1 && coords@[j].y == y by {
                    if y == c.y {
                        assert(coords@[i as int].y == y);
                    } else {
                        assert(mpre.contains_key(y));
                        let j = choose|j: int| 0 <= j < i && coords@[j].y == y;
                        assert(0 <= j < i + 1 && coords@[j].y == y);
                    }
                }
            }
            i = i + 1;
        }
        proof {
            assert forall|y: i32|
                #[trigger] m@.contains_key(y) implies exists|x: i32| nested_has(m@, x, y) by {
                let j = choose|j: int| 0 <= j < i && coords@[j].y == y;
                let x = coords@[j].x;
                assert(coords@[j] == (Coord { x, y }));
                assert(nested_has(m@, x, y));
            }
            assert forall|x: i32, y: i32|
                nested_has(m@, x, y) <==> coords@.contains((Coord { x, y })) by {
                if nested_has(m@, x, y) {
                    let j = choose|j: int| 0 <= j < i && coords@[j] == (Coord { x, y });
                    assert(coords@.contains((Coord { x, y })));
                }
                if coords@.contains((Coord { x, y })) {
                    let j = choose|j: int| 0 <= j < coords@.len() && coords@[j] == (Coord { x, y });
                    assert(0 <= j < i && coords@[j] == (Coord { x, y }));
                }
            }
        }
        m
    }
}

/// Presence test in a nested y -> x -> flag mapping.
pub fn get_nested_bool(map: &HashMap<i32, HashMap<i32, bool>>, x: &i32, y: &i32) -> (r: bool)
    ensures
        r == nested_has(map@, *x, *y),
{
    match map.get(y) {
        Some(nested) => match nested.get(x) {
            Some(_) => true,
            _ => false,
        },
        _ => false,
    }
}

/// Linear membership test among the walkable tile types.
fn contains_tile(v: &Vec<i32>, tile: i32) -> (r: bool)
    ensures
        r == v@.contains(tile),
{
    let mut i: usize = 0;
    while i < v.len()
        invariant
            0 <= i <= v@.len(),
            forall|k: int| 0 <= k < i ==> v@[k] != tile,
        decreases v@.len() - i,
    {
        if v[i] == tile {
            assert(v@[i as int] == tile);
            return true;
        }
        i = i + 1;
    }
    false
}

/// A coordinate marked unwalkable is never walkable, regardless of its tile
/// type's membership among the walkable tiles.
pub proof fn lemma_unwalkable_override(g: &Grid, x: i32, y: i32)
    requires
        g.spec_unwalkable_marked(x, y),
    ensures
        !g.spec_walkable(x, y),
{
}

/// A coordinate marked unstoppable is never stoppable, even when walkable.
pub proof fn lemma_unstoppable_override(g: &Grid, x: i32, y: i32)
    requires
        g.spec_unstoppable_marked(x, y),
    ensures
        !g.spec_stoppable(x, y),
{
}

/// The in-bounds coordinates of row y, as (x, y) integer pairs.
pub open spec fn row_coords(y: int, len: int) -> Set<(int, int)> {
    set_int_range(0, len).map(|x: int| (x, y))
}

/// All in-bounds coordinates of the first n rows.
pub open spec fn grid_coords_upto(g: &Grid, n: int) -> Set<(int, int)>
    decreases n,
{
    if n <= 0 {
        Set::empty()
    } else {
        grid_coords_upto(g, n - 1).union(row_coords(n - 1, g.spec_row(n - 1).len() as int))
    }
}

/// All in-bounds coordinates of the grid, as (x, y) integer pairs.
pub open spec fn grid_coords(g: &Grid) -> Set<(int, int)> {
    grid_coords_upto(g, g.spec_row_count())
}

pub proof fn lemma_grid_coords_upto_finite(g: &Grid, n: int)
    ensures
        grid_coords_upto(g, n).finite(),
    decreases n,
{
    broadcast use lemma_set_union_finite_iff;

    if n <= 0 {
    } else {
        lemma_grid_coords_upto_finite(g, n - 1);
        let len = g.spec_row(n - 1).len() as int;
        lemma_int_range(0, len);
        set_int_range(0, len).lemma_map_finite(|x: int| (x, n - 1));
    }
}

/// The grid's in-bounds coordinate set is finite.
pub proof fn lemma_grid_coords_finite(g: &Grid)
    ensures
        grid_coords(g).finite(),
{
    lemma_grid_coords_upto_finite(g, g.spec_row_count());
}

pub proof fn lemma_grid_coords_upto_contains(g: &Grid, n: int, x: int, y: int)
    requires
        0 <= y < n,
        0 <= x < g.spec_row(y).len(),
    ensures
        grid_coords_upto(g, n).contains((x, y)),
    decreases n,
{
    if y == n - 1 {
        let len = g.spec_row(y).len() as int;
        assert(set_int_range(0, len).contains(x));
        assert(row_coords(y, len).contains((x, y)));
    } else {
        lemma_grid_coords_upto_contains(g, n - 1, x, y);
    }
}

/// Every in-bounds coordinate is an element of the grid's coordinate set.
pub proof fn lemma_grid_coords_contains(g: &Grid, x: int, y: int)
    requires
        g.spec_in_grid(x, y),
    ensures
        grid_coords(g).contains((x, y)),
{
    lemma_grid_coords_upto_contains(g, g.spec_row_count(), x, y);
}

} // verus!
