use vstd::prelude::*;
use crate::coord::{Coord, coord_lt};
use crate::grid::Grid;
use crate::search::{calculate, chain, covered_pairs, frontier_pairs, lemma_chain_valid, lemma_pairs_of_contains, lemma_walk_cached, node_coord, node_pair, nodes_linked, root_of, step_ok, walk_ok, Search};

pub use crate::search::SearchOpts;

verus! {

/// Whether the supplied options permit ending on an unstoppable coordinate.
pub open spec fn spec_end_on_unstoppable(opts: Option<SearchOpts>) -> bool {
    match opts {
        None => false,
        Some(o) => match o.end_on_unstoppable {
            None => false,
            Some(b) => b,
        },
    }
}

/// The end coordinate is one on which this path search may terminate: it is
/// in the grid and either stoppable or permitted by `end_on_unstoppable`.
pub open spec fn spec_end_admissible(grid: &Grid, end: Coord, opts: Option<SearchOpts>) -> bool {
    &&& grid.spec_in_grid(end.x as int, end.y as int)
    &&& (grid.spec_stoppable(end.x, end.y) || spec_end_on_unstoppable(opts))
}

/// Finds a lowest-cost path from `start` to `end`. The returned sequence
/// excludes the start coordinate and ends with the end coordinate; a start
/// equal to the end yields an empty path without searching; an end that is
/// out of the grid, or not stoppable while `end_on_unstoppable` is not set,
/// yields no path without searching.
pub fn find_path(grid: &Grid, start: Coord, end: Coord, opts: Option<SearchOpts>) -> (r: Option<
    Vec<Coord>,
>)
    ensures
        start == end ==> (r matches Some(p) && p@.len() == 0),
        start != end && !spec_end_admissible(grid, end, opts) ==> r is None,
        (start != end && spec_end_admissible(grid, end, opts) && (exists|p: Seq<Coord>|
            walk_ok(grid, start, p) && p.len() >= 1 && p.last() == end)) ==> r is Some,
        start != end ==> (r matches Some(p) ==> {
            &&& p@.len() >= 1
            &&& p@[p@.len() - 1] == end
            &&& forall|k: int|
                0 <= k < p@.len() ==> grid.spec_in_grid((#[trigger] p@[k]).x as int, p@[k].y as int)
                    && grid.spec_walkable(p@[k].x, p@[k].y)
            &&& step_ok(grid.spec_grid_type(), start, p@[0])
            &&& forall|k: int|
                1 <= k < p@.len() ==> step_ok(grid.spec_grid_type(), p@[k - 1], #[trigger] p@[k])
            &&& forall|k: int| 0 <= k < p@.len() ==> (#[trigger] p@[k]) != start
        }),
{
    let end_on_unstoppable = match &opts {
        None => false,
        Some(o) => match o.end_on_unstoppable {
            None => false,
            Some(b) => b,
        },
    };
    if Coord::equals(Some(start), Some(end)) {
        Some(Vec::new())
    } else if !grid.in_grid(end.x, end.y) {
        None
    } else if !grid.is_coord_stoppable(&end.x, &end.y) && !end_on_unstoppable {
        None
    } else {
        let mut search = Search::new(Some(end));
        let zero: u64 = 0;
        let start_node = search.coordinate_to_node(None, &start.x, &start.y, &zero);
        search.push(start_node);
        proof {
            assert(search.spec_nodes().len() == 1);
            assert(search.spec_nodes()[0].parent is None);
            assert(nodes_linked(search.spec_nodes(), grid));
        }
        let ghost seeded = search.spec_nodes();
        let ghost seeded_frontier = search.spec_frontier();
        proof {
            assert(seeded_frontier[0] == start_node);
            assert(seeded_frontier.contains(start_node));
            assert(node_pair(seeded[start_node as int]) == (start.x as int, start.y as int));
        }
        calculate(&mut search, grid);
        match search.cached_node_for(&end.x, &end.y) {
            None => {
                proof {
                    if spec_end_admissible(grid, end, opts) && (exists|p: Seq<Coord>|
                        walk_ok(grid, start, p) && p.len() >= 1 && p.last() == end) {
                        if search.spec_reached() {
                            assert(search.cached_pairs().contains((end.x as int, end.y as int)));
                        } else {
                            assert(search.spec_frontier().len() == 0);
                            assert(frontier_pairs(&search) =~= Set::<(int, int)>::empty());
                            assert(covered_pairs(&search).contains(
                                (start.x as int, start.y as int),
                            ));
                            assert(search.cached_pairs().contains(
                                (start.x as int, start.y as int),
                            ));
                            let p = choose|p: Seq<Coord>|
                                walk_ok(grid, start, p) && p.len() >= 1 && p.last() == end;
                            lemma_walk_cached(&search, grid, start, p, p.len() - 1);
                            assert(search.cached_pairs().contains((end.x as int, end.y as int)));
                        }
                        assert(false);
                    }
                }
                None
            },
            Some(node) => {
                proof {
                    let ns = search.spec_nodes();
                    lemma_chain_valid(ns, grid, node as int);
                    let root = root_of(ns, node as int);
                    assert(ns[root].parent is None);
                    if root >= 1 {
                        assert(ns[root].parent is Some);
                    }
                    assert(root == 0);
                    assert(ns[0].x == seeded[0].x && ns[0].y == seeded[0].y);
                    assert(node_coord(ns[0]) == start);
                    assert(node_coord(ns[node as int]) == end);
                    if ns[node as int].parent is None {
                        assert(root_of(ns, node as int) == node as int);
                        assert(node_coord(ns[node as int]) == start);
                    }
                    assert(ns[node as int].parent is Some);
                    // the seed was expanded first, and no later node reuses
                    // its coordinate, so the start never appears in the chain
                    let cc = chain(ns, node as int);
                    assert(search.spec_cached().contains(node));
                    assert(search.spec_cached().len() > 0);
                    assert(seeded_frontier.contains(search.spec_cached()[0]));
                    let kf = choose|kf: int|
                        0 <= kf < seeded_frontier.len() && seeded_frontier[kf]
                            == search.spec_cached()[0];
                    assert(search.spec_cached()[0] == start_node);
                    assert(node_pair(ns[start_node as int]) == (start.x as int, start.y as int));
                    assert forall|k: int| 0 <= k < cc.len() implies (#[trigger] cc[k]) != start by {
                        let i2 = choose|i2: int|
                            0 <= i2 < ns.len() && ns[i2].parent is Some && cc[k] == node_coord(
                                ns[i2],
                            );
                        assert(i2 >= seeded.len());
                        assert(node_pair(ns[i2]) != node_pair(ns[search.spec_cached()[0] as int]));
                    }
                }
                Some(search.format_path(node))
            },
        }
    }
}

/// Finds every coordinate reachable from the source coordinates. The result
/// holds only walkable in-grid coordinates, without duplicates, sorted
/// ascending in the coordinate order.
pub fn find_walkable(grid: &Grid, source: Vec<Coord>, opts: Option<SearchOpts>) -> (r: Vec<Coord>)
    requires
        source@.len() > 0,
    ensures
        forall|k: int|
            0 <= k < r@.len() ==> grid.spec_in_grid((#[trigger] r@[k]).x as int, r@[k].y as int)
                && grid.spec_walkable(r@[k].x, r@[k].y),
        forall|k: int, l: int| 0 <= k < l < r@.len() ==> coord_lt(r@[k], r@[l]),
        forall|s0: Coord, z: Coord|
            #![trigger source@.contains(s0), grid.spec_walkable(z.x, z.y)]
            (source@.contains(s0) && grid.spec_in_grid(z.x as int, z.y as int)
                && grid.spec_walkable(z.x, z.y) && (z == s0 || exists|p: Seq<Coord>|
                walk_ok(grid, s0, p) && p.len() >= 1 && p.last() == z)) ==> r@.contains(z),
{
    let mut search = Search::new(None);
    let mut i: usize = 0;
    while i < source.len()
        invariant
            search.wf(),
            i <= source@.len(),
            search.spec_cached().len() == 0,
            search.spec_target() is None,
            search.spec_nodes().len() == i,
            search.spec_frontier().len() == i,
            forall|k: int|
                0 <= k < i ==> ((#[trigger] search.spec_frontier()[k]) as int) == k,
            forall|k: int|
                0 <= k < i ==> node_pair(#[trigger] search.spec_nodes()[k]) == ((
                    source@[k].x as int,
                    source@[k].y as int,
                )),
            forall|j: int|
                0 <= j < search.spec_nodes().len() ==> (#[trigger] search.spec_nodes()[j]).parent
                    is None,
        decreases source@.len() - i,
    {
        let c = source[i];
        let zero: u64 = 0;
        let ghost pre = search.spec_nodes();
        let node = search.coordinate_to_node(None, &c.x, &c.y, &zero);
        search.push(node);
        proof {
            assert forall|j: int|
                0 <= j < search.spec_nodes().len() implies (#[trigger] search.spec_nodes()[j]).parent
                is None by {
                if j < pre.len() {
                    assert(search.spec_nodes()[j] == pre[j]);
                }
            }
        }
        i = i + 1;
    }
    proof {
        assert(nodes_linked(search.spec_nodes(), grid));
    }
    let ghost seeded = search;
    calculate(&mut search, grid);
    proof {
        assert(!search.spec_reached());
        assert(search.spec_frontier().len() == 0);
        assert(frontier_pairs(&search) =~= Set::<(int, int)>::empty());
        assert forall|s0: Coord|
            source@.contains(s0) implies search.cached_pairs().contains(
            (s0.x as int, s0.y as int),
        ) by {
            let k0 = choose|k0: int| 0 <= k0 < source@.len() && source@[k0] == s0;
            let j = seeded.spec_frontier()[k0];
            assert(seeded.spec_frontier().contains(j));
            assert(node_pair(seeded.spec_nodes()[j as int]) == (s0.x as int, s0.y as int));
            assert(covered_pairs(&search).contains((s0.x as int, s0.y as int)));
        }
    }
    let nodes = search.traversed_nodes();
    let mut coords: Vec<Coord> = Vec::new();
    let mut k: usize = 0;
    while k < nodes.len()
        invariant
            k <= nodes@.len(),
            forall|j: int|
                0 <= j < coords@.len() ==> grid.spec_in_grid(
                    (#[trigger] coords@[j]).x as int,
                    coords@[j].y as int,
                ) && grid.spec_walkable(coords@[j].x, coords@[j].y),
            forall|j: int, l: int| 0 <= j < l < coords@.len() ==> coord_lt(coords@[j], coords@[l]),
            forall|m: int|
                0 <= m < k ==> ((grid.spec_in_grid(
                    (#[trigger] nodes@[m]).x as int,
                    nodes@[m].y as int,
                ) && grid.spec_walkable(nodes@[m].x, nodes@[m].y)) ==> coords@.contains(
                    (Coord { x: nodes@[m].x, y: nodes@[m].y }),
                )),
        decreases nodes@.len() - k,
    {
        let n = nodes[k];
        let ghost prev = coords@;
        if grid.in_grid(n.x, n.y) {
            if grid.is_coord_walkable(&n.x, &n.y) {
                let c = Coord { x: n.x, y: n.y };
                insert_sorted(&mut coords, c);
                proof {
                    assert forall|j: int|
                        0 <= j < coords@.len() implies grid.spec_in_grid(
                        (#[trigger] coords@[j]).x as int,
                        coords@[j].y as int,
                    ) && grid.spec_walkable(coords@[j].x, coords@[j].y) by {
                        if coords@[j] != c {
                            assert(prev.contains(coords@[j]));
                            let w = choose|w: int| 0 <= w < prev.len() && prev[w] == coords@[j];
                            assert(grid.spec_walkable(prev[w].x, prev[w].y));
                        }
                    }
                }
            }
        }
        k = k + 1;
    }
    proof {
        assert forall|s0: Coord, z: Coord|
            #![trigger source@.contains(s0), grid.spec_walkable(z.x, z.y)]
            (source@.contains(s0) && grid.spec_in_grid(z.x as int, z.y as int)
                && grid.spec_walkable(z.x, z.y) && (z == s0 || exists|p: Seq<Coord>|
                walk_ok(grid, s0, p) && p.len() >= 1 && p.last() == z)) implies coords@.contains(
            z,
        ) by {
            let zp = (z.x as int, z.y as int);
            if z != s0 {
                let p = choose|p: Seq<Coord>|
                    walk_ok(grid, s0, p) && p.len() >= 1 && p.last() == z;
                lemma_walk_cached(&search, grid, s0, p, p.len() - 1);
            }
            assert(search.cached_pairs().contains(zp));
            lemma_pairs_of_contains(search.spec_nodes(), search.spec_cached(), zp);
            let ci = choose|ci: int|
                0 <= ci < search.spec_cached().len() && node_pair(
                    search.spec_nodes()[(#[trigger] search.spec_cached()[ci]) as int],
                ) == zp;
            assert(nodes@[ci] == search.spec_nodes()[search.spec_cached()[ci] as int]);
            assert(nodes@[ci].x == z.x && nodes@[ci].y == z.y);
            assert(coords@.contains((Coord { x: nodes@[ci].x, y: nodes@[ci].y })));
            assert((Coord { x: nodes@[ci].x, y: nodes@[ci].y }) == z);
        }
    }
    coords
}

/// Inserts a coordinate into a strictly ascending vector, keeping it
/// strictly ascending; a coordinate already present is not inserted again.
fn insert_sorted(v: &mut Vec<Coord>, c: Coord)
    requires
        forall|k: int, l: int| 0 <= k < l < old(v)@.len() ==> coord_lt(old(v)@[k], old(v)@[l]),
    ensures
        forall|k: int, l: int| 0 <= k < l < final(v)@.len() ==> coord_lt(final(v)@[k], final(v)@[l]),
        forall|k: int|
            0 <= k < final(v)@.len() ==> (old(v)@.contains(#[trigger] final(v)@[k])
                || final(v)@[k] == c),
        final(v)@.contains(c),
        forall|e: Coord| old(v)@.contains(e) ==> final(v)@.contains(e),
{
    let mut i: usize = 0;
    while i < v.len() && v[i].before(&c)
        invariant
            v@ == old(v)@,
            i <= v@.len(),
            forall|j: int| 0 <= j < i ==> coord_lt(v@[j], c),
        decreases v@.len() - i,
    {
        i = i + 1;
    }
    if i < v.len() {
        let vi = v[i];
        if vi.x == c.x && vi.y == c.y {
            proof {
                assert forall|k: int|
                    0 <= k < v@.len() implies (old(v)@.contains(#[trigger] v@[k]) || v@[k]
                    == c) by {
                    assert(old(v)@[k] == v@[k]);
                }
                assert(vi == c);
                assert(v@[i as int] == c);
                assert(v@.contains(c));
            }
            return ;
        }
        proof {
            assert(!coord_lt(v@[i as int], c));
            assert(v@[i as int] != c);
            assert(coord_lt(c, v@[i as int]));
        }
    }
    let ghost pre = v@;
    let ghost pos = i as int;
    v.insert(i, c);
    proof {
        assert(v@ == pre.insert(pos, c));
        assert forall|k: int, l: int| 0 <= k < l < v@.len() implies coord_lt(v@[k], v@[l]) by {
            if l < pos {
                assert(v@[k] == pre[k] && v@[l] == pre[l]);
                assert(coord_lt(pre[k], pre[l]));
            } else if l == pos {
                assert(v@[k] == pre[k] && v@[l] == c);
                assert(coord_lt(pre[k], c));
            } else {
                assert(v@[l] == pre[l - 1]);
                if k < pos {
                    assert(v@[k] == pre[k]);
                    if k < l - 1 {
                        assert(coord_lt(pre[k], pre[l - 1]));
                    }
                } else if k == pos {
                    assert(v@[k] == c);
                    assert(coord_lt(c, pre[pos]));
                    if pos < l - 1 {
                        assert(coord_lt(pre[pos], pre[l - 1]));
                    }
                } else {
                    assert(v@[k] == pre[k - 1]);
                    assert(coord_lt(pre[k - 1], pre[l - 1]));
                }
            }
        }
        assert forall|k: int|
            0 <= k < v@.len() implies (pre.contains(#[trigger] v@[k]) || v@[k] == c) by {
            if k < pos {
                assert(v@[k] == pre[k]);
                assert(pre.contains(pre[k]));
            } else if k > pos {
                assert(v@[k] == pre[k - 1]);
                assert(pre.contains(pre[k - 1]));
            }
        }
        assert(v@[pos] == c);
        assert(v@.contains(c));
        assert forall|e: Coord| pre.contains(e) implies v@.contains(e) by {
            let w = choose|w: int| 0 <= w < pre.len() && pre[w] == e;
            if w < pos {
                assert(v@[w] == pre[w]);
            } else {
                assert(v@[w + 1] == pre[w]);
            }
        }
    }
}

} // verus!
