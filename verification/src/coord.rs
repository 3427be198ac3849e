use vstd::prelude::*;

verus! {

/// An immutable (x, y) integer pair: the universal key for grid lookups
/// and visited-set membership.
#[derive(Copy, Clone, PartialEq, Eq, Structural, Hash, Debug)]
pub struct Coord {
    pub x: i32,
    pub y: i32,
}

/// The total order on coordinates: lexicographic on (x, y).
/// Result sets are sorted ascending by this order.
pub open spec fn coord_lt(a: Coord, b: Coord) -> bool {
    a.x < b.x || (a.x == b.x && a.y < b.y)
}

impl Coord {
    pub fn new(x: i32, y: i32) -> (c: Coord)
        ensures
            c == (Coord { x, y }),
    {
        Coord { x, y }
    }

    /// Equality on optional coordinates, as the path entry point uses it
    /// to detect a start coordinate equal to the end coordinate.
    pub fn equals(a: Option<Coord>, b: Option<Coord>) -> (r: bool)
        ensures
            r == (a == b),
    {
        match (a, b) {
            (None, None) => true,
            (Some(ca), Some(cb)) => ca.x == cb.x && ca.y == cb.y,
            _ => false,
        }
    }

    /// Strict comparison in the defined coordinate order.
    pub fn before(&self, other: &Coord) -> (r: bool)
        ensures
            r == coord_lt(*self, *other),
    {
        if self.x < other.x {
            true
        } else if self.x == other.x {
            self.y < other.y
        } else {
            false
        }
    }
}

/// The coordinate order is irreflexive and transitive.
pub proof fn lemma_coord_order_strict(a: Coord, b: Coord, c: Coord)
    ensures
        !coord_lt(a, a),
        coord_lt(a, b) && coord_lt(b, c) ==> coord_lt(a, c),
{
}

/// A sequence that is pairwise increasing in the coordinate order holds no
/// coordinate twice.
pub proof fn lemma_sorted_has_no_duplicates(s: Seq<Coord>)
    requires
        forall|k: int, l: int| 0 <= k < l < s.len() ==> coord_lt(s[k], s[l]),
    ensures
        forall|k: int, l: int| 0 <= k < l < s.len() ==> s[k] != s[l],
{
    assert forall|k: int, l: int| 0 <= k < l < s.len() implies s[k] != s[l] by {
        assert(coord_lt(s[k], s[l]));
    }
}

} // verus!
