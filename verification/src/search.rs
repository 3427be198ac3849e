use vstd::prelude::*;
use vstd::set_lib::lemma_set_subset_finite;
use crate::coord::Coord;
use crate::grid::{Grid, GridType, grid_coords, lemma_grid_coords_contains, lemma_grid_coords_finite};

verus! {

/// Options recognized by the search entry points.
#[derive(Copy, Clone)]
pub struct SearchOpts {
    /// If true, `find_path` permits a target coordinate marked unstoppable.
    pub end_on_unstoppable: Option<bool>,
}

/// A record created for each coordinate reached during one search call:
/// its coordinate, the accumulated cost of the best path found to it so far,
/// a back-reference to the node it was reached from (absent for seed nodes),
/// and a flag set once the node has been popped and expanded.
#[derive(Copy, Clone)]
pub struct Node {
    pub x: i32,
    pub y: i32,
    pub cost: u64,
    pub parent: Option<usize>,
    pub visited: bool,
}

/// A node's coordinate as a mathematical integer pair.
pub open spec fn node_pair(n: Node) -> (int, int) {
    (n.x as int, n.y as int)
}

/// A node's coordinate.
pub open spec fn node_coord(n: Node) -> Coord {
    Coord { x: n.x, y: n.y }
}

/// The set of coordinates of the nodes selected by a sequence of arena
/// indices.
pub open spec fn pairs_of(nodes: Seq<Node>, idxs: Seq<usize>) -> Set<(int, int)>
    decreases idxs.len(),
{
    if idxs.len() == 0 {
        Set::empty()
    } else {
        pairs_of(nodes, idxs.drop_last()).insert(node_pair(nodes[idxs.last() as int]))
    }
}

/// The set of coordinates of a node sequence.
pub open spec fn node_pairs(nodes: Seq<Node>) -> Set<(int, int)>
    decreases nodes.len(),
{
    if nodes.len() == 0 {
        Set::empty()
    } else {
        node_pairs(nodes.drop_last()).insert(node_pair(nodes.last()))
    }
}

/// Membership in `pairs_of`: exactly the coordinates of the selected nodes.
pub proof fn lemma_pairs_of_contains(nodes: Seq<Node>, idxs: Seq<usize>, p: (int, int))
    ensures
        pairs_of(nodes, idxs).contains(p) <==> exists|k: int|
            0 <= k < idxs.len() && node_pair(nodes[(#[trigger] idxs[k]) as int]) == p,
    decreases idxs.len(),
{
    if idxs.len() == 0 {
    } else {
        lemma_pairs_of_contains(nodes, idxs.drop_last(), p);
        let last = idxs.len() - 1;
        if pairs_of(nodes, idxs).contains(p) {
            if node_pair(nodes[idxs[last] as int]) == p {
                assert(0 <= last < idxs.len() && node_pair(nodes[idxs[last] as int]) == p);
            } else {
                let k = choose|k: int|
                    0 <= k < idxs.drop_last().len() && node_pair(
                        nodes[(#[trigger] idxs.drop_last()[k]) as int],
                    ) == p;
                assert(idxs.drop_last()[k] == idxs[k]);
                assert(0 <= k < idxs.len() && node_pair(nodes[(idxs[k]) as int]) == p);
            }
        }
        if exists|k: int| 0 <= k < idxs.len() && node_pair(nodes[(#[trigger] idxs[k]) as int])
            == p {
            let k = choose|k: int|
                0 <= k < idxs.len() && node_pair(nodes[(#[trigger] idxs[k]) as int]) == p;
            if k == last {
                assert(pairs_of(nodes, idxs).contains(p));
            } else {
                assert(idxs.drop_last()[k] == idxs[k]);
                assert(pairs_of(nodes, idxs.drop_last()).contains(p));
            }
        }
    }
}

/// Two arenas that agree on the coordinate of every selected node select the
/// same coordinate set.
pub proof fn lemma_pairs_of_same(nodes1: Seq<Node>, nodes2: Seq<Node>, idxs: Seq<usize>)
    requires
        forall|k: int|
            0 <= k < idxs.len() ==> node_pair(nodes1[(#[trigger] idxs[k]) as int]) == node_pair(
                nodes2[idxs[k] as int],
            ),
    ensures
        pairs_of(nodes1, idxs) == pairs_of(nodes2, idxs),
    decreases idxs.len(),
{
    if idxs.len() > 0 {
        assert forall|k: int|
            0 <= k < idxs.drop_last().len() implies node_pair(
            nodes1[(#[trigger] idxs.drop_last()[k]) as int],
        ) == node_pair(nodes2[idxs.drop_last()[k] as int]) by {
            assert(idxs.drop_last()[k] == idxs[k]);
        }
        lemma_pairs_of_same(nodes1, nodes2, idxs.drop_last());
        assert(node_pair(nodes1[idxs.last() as int]) == node_pair(nodes2[idxs.last() as int]));
    }
}

pub proof fn lemma_node_pairs_finite(nodes: Seq<Node>)
    ensures
        node_pairs(nodes).finite(),
    decreases nodes.len(),
{
    if nodes.len() > 0 {
        lemma_node_pairs_finite(nodes.drop_last());
    }
}

/// Every node's coordinate is in its sequence's coordinate set.
pub proof fn lemma_node_pairs_contains(nodes: Seq<Node>, i: int)
    requires
        0 <= i < nodes.len(),
    ensures
        node_pairs(nodes).contains(node_pair(nodes[i])),
    decreases nodes.len(),
{
    if i == nodes.len() - 1 {
    } else {
        lemma_node_pairs_contains(nodes.drop_last(), i);
        assert(nodes.drop_last()[i] == nodes[i]);
    }
}

/// The coordinate sequence reconstructed by walking parent references back
/// from node i to a seed node, in start-to-end order. The seed coordinate
/// itself is excluded.
pub open spec fn chain(nodes: Seq<Node>, i: int) -> Seq<Coord>
    decreases i,
{
    if 0 <= i < nodes.len() {
        match nodes[i].parent {
            None => Seq::empty(),
            Some(p) => if p < i {
                chain(nodes, p as int).push(node_coord(nodes[i]))
            } else {
                Seq::empty()
            },
        }
    } else {
        Seq::empty()
    }
}

/// The neighbor offsets a movement topology permits, in the fixed evaluation
/// order of the traversal: Cardinal allows the four axis steps, Hex adds the
/// (1,-1) and (-1,1) diagonals, Intercardinal allows all eight.
pub open spec fn offset_ok(t: GridType, dx: int, dy: int) -> bool {
    match t {
        GridType::Cardinal => (dx == 0 && dy == -1) || (dx == 1 && dy == 0) || (dx == 0 && dy == 1)
            || (dx == -1 && dy == 0),
        GridType::Hex => (dx == 0 && dy == -1) || (dx == 1 && dy == -1) || (dx == 1 && dy == 0)
            || (dx == 0 && dy == 1) || (dx == -1 && dy == 1) || (dx == -1 && dy == 0),
        GridType::Intercardinal => -1 <= dx <= 1 && -1 <= dy <= 1 && !(dx == 0 && dy == 0),
    }
}

/// One legal move of the topology from a to b.
pub open spec fn step_ok(t: GridType, a: Coord, b: Coord) -> bool {
    offset_ok(t, b.x as int - a.x as int, b.y as int - a.y as int)
}

/// The entry cost used for accumulation: a negative configured cost counts
/// as zero (well-formed grids configure non-negative costs).
pub open spec fn spec_step_cost(g: &Grid, x: i32, y: i32) -> u64 {
    if g.spec_cost(x, y) >= 0 {
        g.spec_cost(x, y) as u64
    } else {
        0
    }
}

/// Cost accumulation saturates at the cost type's maximum value.
pub open spec fn add_saturating(a: u64, b: u64) -> u64 {
    if a + b <= u64::MAX {
        (a + b) as u64
    } else {
        u64::MAX
    }
}

/// Every non-seed node records a legal move: its coordinate is in the grid,
/// walkable, and one topology step away from its parent's coordinate, and
/// its accumulated cost is the parent's cost plus its own entry cost.
pub open spec fn nodes_linked(nodes: Seq<Node>, g: &Grid) -> bool {
    forall|i: int|
        0 <= i < nodes.len() ==> ((#[trigger] nodes[i]).parent matches Some(p) ==> {
            &&& step_ok(g.spec_grid_type(), node_coord(nodes[p as int]), node_coord(nodes[i]))
            &&& g.spec_in_grid(nodes[i].x as int, nodes[i].y as int)
            &&& g.spec_walkable(nodes[i].x, nodes[i].y)
            &&& nodes[i].cost == add_saturating(
                nodes[p as int].cost,
                spec_step_cost(g, nodes[i].x, nodes[i].y),
            )
        })
}

/// The arena only grows, the coordinate, cost and parent of every existing
/// node are kept (only the visited flag may change), and every added node has
/// a parent.
pub open spec fn extends_core(pre: Seq<Node>, post: Seq<Node>) -> bool {
    &&& pre.len() <= post.len()
    &&& forall|i: int|
        0 <= i < pre.len() ==> {
            &&& (#[trigger] post[i]).x == pre[i].x
            &&& post[i].y == pre[i].y
            &&& post[i].cost == pre[i].cost
            &&& post[i].parent == pre[i].parent
        }
    &&& forall|i: int| pre.len() <= i < post.len() ==> (#[trigger] post[i]).parent is Some
}

pub proof fn lemma_extends_core_trans(a: Seq<Node>, b: Seq<Node>, c: Seq<Node>)
    requires
        extends_core(a, b),
        extends_core(b, c),
    ensures
        extends_core(a, c),
{
    assert forall|i: int| 0 <= i < a.len() implies {
        &&& (#[trigger] c[i]).x == a[i].x
        &&& c[i].y == a[i].y
        &&& c[i].cost == a[i].cost
        &&& c[i].parent == a[i].parent
    } by {
        assert(b[i].x == a[i].x && b[i].y == a[i].y && b[i].cost == a[i].cost && b[i].parent
            == a[i].parent);
    }
    assert forall|i: int| a.len() <= i < c.len() implies (#[trigger] c[i]).parent is Some by {
        if i < b.len() {
            assert(c[i].parent == b[i].parent);
        }
    }
}

/// The index of the seed node that a parent chain leads back to.
pub open spec fn root_of(nodes: Seq<Node>, i: int) -> int
    decreases i,
{
    if 0 <= i < nodes.len() {
        match nodes[i].parent {
            None => i,
            Some(p) => if p < i {
                root_of(nodes, p as int)
            } else {
                i
            },
        }
    } else {
        i
    }
}

/// In a well-formed, linked arena, the reconstructed chain of a node is a
/// legal walk: all its coordinates are in the grid and walkable, consecutive
/// coordinates are one topology step apart, its first coordinate is one step
/// from the seed it leads back to, and its last coordinate is the node's own.
pub proof fn lemma_chain_valid(nodes: Seq<Node>, g: &Grid, i: int)
    requires
        0 <= i < nodes.len(),
        forall|j: int|
            0 <= j < nodes.len() ==> ((#[trigger] nodes[j]).parent matches Some(p) ==> p < j),
        nodes_linked(nodes, g),
    ensures
        ({
            let c = chain(nodes, i);
            let root = root_of(nodes, i);
            &&& 0 <= root < nodes.len()
            &&& nodes[root].parent is None
            &&& (nodes[i].parent is None ==> c.len() == 0 && root == i)
            &&& (nodes[i].parent is Some ==> c.len() >= 1 && c.last() == node_coord(nodes[i]))
            &&& forall|k: int|
                0 <= k < c.len() ==> g.spec_in_grid((#[trigger] c[k]).x as int, c[k].y as int)
                    && g.spec_walkable(c[k].x, c[k].y)
            &&& forall|k: int| 1 <= k < c.len() ==> step_ok(g.spec_grid_type(), c[k - 1], #[trigger] c[k])
            &&& (c.len() >= 1 ==> step_ok(g.spec_grid_type(), node_coord(nodes[root]), c[0]))
            &&& forall|k: int|
                0 <= k < c.len() ==> exists|i2: int|
                    0 <= i2 < nodes.len() && nodes[i2].parent is Some && (#[trigger] c[k])
                        == node_coord(nodes[i2])
        }),
    decreases i,
{
    let c = chain(nodes, i);
    match nodes[i].parent {
        None => {
        },
        Some(p) => {
            lemma_chain_valid(nodes, g, p as int);
            let cp = chain(nodes, p as int);
            assert(c == cp.push(node_coord(nodes[i])));
            assert(root_of(nodes, i) == root_of(nodes, p as int));
            let root = root_of(nodes, i);
            assert(g.spec_in_grid(nodes[i].x as int, nodes[i].y as int) && g.spec_walkable(
                nodes[i].x,
                nodes[i].y,
            ));
            if nodes[p as int].parent is None {
                assert(cp.len() == 0);
                assert(root == p as int);
                assert(c.len() == 1);
                assert(c[0] == node_coord(nodes[i]));
                assert(step_ok(g.spec_grid_type(), node_coord(nodes[root]), c[0]));
            } else {
                assert(cp.len() >= 1);
                assert(c[0] == cp[0]);
                assert forall|k: int| 1 <= k < c.len() implies step_ok(
                    g.spec_grid_type(),
                    c[k - 1],
                    #[trigger] c[k],
                ) by {
                    if k < cp.len() {
                        assert(c[k - 1] == cp[k - 1] && c[k] == cp[k]);
                    } else {
                        assert(c[k - 1] == cp.last() && c[k] == node_coord(nodes[i]));
                        assert(cp.last() == node_coord(nodes[p as int]));
                    }
                }
            }
            assert forall|k: int|
                0 <= k < c.len() implies g.spec_in_grid((#[trigger] c[k]).x as int, c[k].y as int)
                && g.spec_walkable(c[k].x, c[k].y) by {
                if k < cp.len() {
                    assert(c[k] == cp[k]);
                } else {
                    assert(c[k] == node_coord(nodes[i]));
                }
            }
            assert forall|k: int|
                0 <= k < c.len() implies exists|i2: int|
                0 <= i2 < nodes.len() && nodes[i2].parent is Some && (#[trigger] c[k])
                    == node_coord(nodes[i2]) by {
                if k < cp.len() {
                    assert(c[k] == cp[k]);
                } else {
                    assert(c[k] == node_coord(nodes[i]));
                    assert(0 <= i < nodes.len() && nodes[i].parent is Some && c[k] == node_coord(
                        nodes[i],
                    ));
                }
            }
        },
    }
}

/// One search call's state: the node arena, the frontier (discovered, not
/// yet expanded node indices), the cache of expanded node indices in
/// insertion order, and the optional target coordinate.
pub struct Search {
    nodes: Vec<Node>,
    frontier: Vec<usize>,
    cached: Vec<usize>,
    target: Option<Coord>,
}

impl Search {
    /// All nodes created so far, in creation order.
    pub closed spec fn spec_nodes(&self) -> Seq<Node> {
        self.nodes@
    }

    /// Arena indices of discovered-but-unexpanded nodes, in insertion order.
    pub closed spec fn spec_frontier(&self) -> Seq<usize> {
        self.frontier@
    }

    /// Arena indices of expanded nodes, in insertion order.
    pub closed spec fn spec_cached(&self) -> Seq<usize> {
        self.cached@
    }

    /// The target coordinate, if this search has one.
    pub closed spec fn spec_target(&self) -> Option<Coord> {
        self.target
    }

    /// Well-formed: frontier and cache hold valid arena indices, and each
    /// node's parent reference points strictly earlier in the arena, so
    /// parent chains cannot form cycles.
    pub open spec fn wf(&self) -> bool {
        &&& forall|k: int|
            0 <= k < self.spec_frontier().len() ==> ((#[trigger] self.spec_frontier()[k]) as int)
                < self.spec_nodes().len()
        &&& forall|k: int|
            0 <= k < self.spec_cached().len() ==> ((#[trigger] self.spec_cached()[k]) as int)
                < self.spec_nodes().len()
        &&& forall|i: int|
            0 <= i < self.spec_nodes().len() ==> ((#[trigger] self.spec_nodes()[i]).parent matches
                Some(p) ==> p < i)
    }

    /// The coordinates already expanded (the closed set), as integer pairs.
    pub open spec fn cached_pairs(&self) -> Set<(int, int)> {
        pairs_of(self.spec_nodes(), self.spec_cached())
    }

    /// True once a node at the target coordinate has been expanded.
    pub open spec fn spec_reached(&self) -> bool {
        match self.spec_target() {
            Some(t) => self.cached_pairs().contains((t.x as int, t.y as int)),
            None => false,
        }
    }

    pub fn new(target: Option<Coord>) -> (s: Search)
        ensures
            s.wf(),
            s.spec_nodes() == Seq::<Node>::empty(),
            s.spec_frontier() == Seq::<usize>::empty(),
            s.spec_cached() == Seq::<usize>::empty(),
            s.spec_target() == target,
    {
        Search { nodes: Vec::new(), frontier: Vec::new(), cached: Vec::new(), target }
    }

    /// Creates a node for coordinate (x, y) in the arena and returns its
    /// index. Nothing is pushed onto the frontier: seeding is the caller's
    /// responsibility.
    pub fn coordinate_to_node(&mut self, parent: Option<usize>, x: &i32, y: &i32, cost: &u64) -> (
        idx: usize)
        requires
            old(self).wf(),
            parent matches Some(p) ==> (p as int) < old(self).spec_nodes().len(),
        ensures
            final(self).wf(),
            idx as int == old(self).spec_nodes().len(),
            final(self).spec_nodes() == old(self).spec_nodes().push(
                Node { x: *x, y: *y, cost: *cost, parent, visited: false },
            ),
            final(self).spec_frontier() == old(self).spec_frontier(),
            final(self).spec_cached() == old(self).spec_cached(),
            final(self).spec_target() == old(self).spec_target(),
            final(self).cached_pairs() == old(self).cached_pairs(),
    {
        let idx = self.nodes.len();
        let node = Node { x: *x, y: *y, cost: *cost, parent, visited: false };
        self.nodes.push(node);
        proof {
            assert(self.nodes@ == old(self).nodes@.push(node));
            assert forall|k: int|
                0 <= k < self.spec_frontier().len() implies ((#[trigger] self.spec_frontier()[k])
                as int) < self.spec_nodes().len() by {
                assert(((old(self).spec_frontier()[k]) as int) < old(self).spec_nodes().len());
            }
            assert forall|k: int|
                0 <= k < self.spec_cached().len() implies ((#[trigger] self.spec_cached()[k])
                as int) < self.spec_nodes().len() by {
                assert(((old(self).spec_cached()[k]) as int) < old(self).spec_nodes().len());
            }
            assert forall|i: int|
                0 <= i < self.spec_nodes().len() implies ((#[trigger] self.spec_nodes()[i]).parent
                matches Some(p) ==> p < i) by {
                if i < old(self).spec_nodes().len() {
                    assert(self.spec_nodes()[i] == old(self).spec_nodes()[i]);
                } else {
                    assert(self.spec_nodes()[i] == node);
                }
            }
            assert(self.wf());
            assert forall|k: int|
                0 <= k < self.spec_cached().len() implies node_pair(
                self.spec_nodes()[(#[trigger] self.spec_cached()[k]) as int],
            ) == node_pair(old(self).spec_nodes()[self.spec_cached()[k] as int]) by {
                assert(((old(self).spec_cached()[k]) as int) < old(self).spec_nodes().len());
                assert(self.spec_nodes()[self.spec_cached()[k] as int] == old(
                    self,
                ).spec_nodes()[self.spec_cached()[k] as int]);
            }
            lemma_pairs_of_same(self.spec_nodes(), old(self).spec_nodes(), self.spec_cached());
        }
        idx
    }

    /// Inserts a node into the frontier.
    pub fn push(&mut self, node: usize)
        requires
            old(self).wf(),
            (node as int) < old(self).spec_nodes().len(),
        ensures
            final(self).wf(),
            final(self).spec_frontier() == old(self).spec_frontier().push(node),
            final(self).spec_nodes() == old(self).spec_nodes(),
            final(self).spec_cached() == old(self).spec_cached(),
            final(self).spec_target() == old(self).spec_target(),
            final(self).cached_pairs() == old(self).cached_pairs(),
    {
        self.frontier.push(node);
        proof {
            assert(self.frontier@ == old(self).frontier@.push(node));
            assert forall|k: int|
                0 <= k < self.spec_frontier().len() implies ((#[trigger] self.spec_frontier()[k])
                as int) < self.spec_nodes().len() by {
                if k < old(self).spec_frontier().len() {
                    assert(self.spec_frontier()[k] == old(self).spec_frontier()[k]);
                    assert(((old(self).spec_frontier()[k]) as int) < old(self).spec_nodes().len());
                } else {
                    assert(self.spec_frontier()[k] == node);
                }
            }
            assert forall|k: int|
                0 <= k < self.spec_cached().len() implies ((#[trigger] self.spec_cached()[k])
                as int) < self.spec_nodes().len() by {
                assert(((old(self).spec_cached()[k]) as int) < old(self).spec_nodes().len());
            }
            assert forall|i: int|
                0 <= i < self.spec_nodes().len() implies ((#[trigger] self.spec_nodes()[i]).parent
                matches Some(p) ==> p < i) by {
                assert(self.spec_nodes()[i] == old(self).spec_nodes()[i]);
            }
            assert(self.wf());
        }
    }

    /// Current frontier length.
    pub fn size(&self) -> (n: usize)
        ensures
            n == self.spec_frontier().len(),
    {
        self.frontier.len()
    }

    /// Removes and returns the lowest-cost frontier entry, or None if the
    /// frontier is empty. Ties are broken first-in-first-served: among equal
    /// costs the earliest-inserted entry leaves first, so results are
    /// deterministic.
    pub fn pop(&mut self) -> (r: Option<usize>)
        requires
            old(self).wf(),
        ensures
            final(self).wf(),
            final(self).spec_nodes() == old(self).spec_nodes(),
            final(self).spec_cached() == old(self).spec_cached(),
            final(self).spec_target() == old(self).spec_target(),
            final(self).cached_pairs() == old(self).cached_pairs(),
            match r {
                None => old(self).spec_frontier().len() == 0 && final(self).spec_frontier() == old(
                    self,
                ).spec_frontier(),
                Some(i) => {
                    &&& (i as int) < old(self).spec_nodes().len()
                    &&& old(self).spec_frontier().contains(i)
                    &&& exists|k: int|
                        0 <= k < old(self).spec_frontier().len() && old(self).spec_frontier()[k]
                            == i && final(self).spec_frontier() == old(
                            self,
                        ).spec_frontier().remove(k) && (forall|k2: int|
                            0 <= k2 < k ==> old(self).spec_nodes()[(#[trigger] old(
                                self,
                            ).spec_frontier()[k2]) as int].cost > old(self).spec_nodes()[i
                                as int].cost)
                    &&& forall|k: int|
                        0 <= k < old(self).spec_frontier().len() ==> old(self).spec_nodes()[(
                        #[trigger] old(self).spec_frontier()[k]) as int].cost >= old(
                            self,
                        ).spec_nodes()[i as int].cost
                },
            },
    {
        if self.frontier.len() == 0 {
            return None;
        }
        let mut best: usize = 0;
        let mut k: usize = 1;
        while k < self.frontier.len()
            invariant
                self.nodes@ == old(self).nodes@,
                self.frontier@ == old(self).frontier@,
                self.cached@ == old(self).cached@,
                self.target == old(self).target,
                self.wf(),
                0 < self.frontier@.len(),
                0 <= best < k,
                k <= self.frontier@.len(),
                forall|j: int|
                    0 <= j < k ==> self.spec_nodes()[(#[trigger] self.spec_frontier()[j]) as int].cost
                        >= self.spec_nodes()[self.spec_frontier()[best as int] as int].cost,
                forall|j: int|
                    0 <= j < best ==> self.spec_nodes()[(#[trigger] self.spec_frontier()[j])
                        as int].cost > self.spec_nodes()[self.spec_frontier()[best as int]
                        as int].cost,
            decreases self.frontier@.len() - k,
        {
            let fk = self.frontier[k];
            let fb = self.frontier[best];
            proof {
                assert(self.spec_frontier()[k as int] == fk);
                assert(self.spec_frontier()[best as int] == fb);
            }
            if self.nodes[fk].cost < self.nodes[fb].cost {
                best = k;
            }
            k = k + 1;
        }
        proof {
            assert(self.spec_frontier()[best as int] == old(self).spec_frontier()[best as int]);
        }
        let idx = self.frontier.remove(best);
        proof {
            assert(self.frontier@ == old(self).frontier@.remove(best as int));
            assert(old(self).spec_frontier()[best as int] == idx);
            assert(old(self).spec_frontier().contains(idx));
            assert forall|j: int|
                0 <= j < self.spec_frontier().len() implies ((#[trigger] self.spec_frontier()[j])
                as int) < self.spec_nodes().len() by {
                if j < best {
                    assert(self.spec_frontier()[j] == old(self).spec_frontier()[j]);
                    assert(((old(self).spec_frontier()[j]) as int) < old(self).spec_nodes().len());
                } else {
                    assert(self.spec_frontier()[j] == old(self).spec_frontier()[j + 1]);
                    assert(((old(self).spec_frontier()[j + 1]) as int) < old(
                        self,
                    ).spec_nodes().len());
                }
            }
            assert forall|k2: int|
                0 <= k2 < self.spec_cached().len() implies ((#[trigger] self.spec_cached()[k2])
                as int) < self.spec_nodes().len() by {
                assert(((old(self).spec_cached()[k2]) as int) < old(self).spec_nodes().len());
            }
            assert forall|i: int|
                0 <= i < self.spec_nodes().len() implies ((#[trigger] self.spec_nodes()[i]).parent
                matches Some(p) ==> p < i) by {
                assert(self.spec_nodes()[i] == old(self).spec_nodes()[i]);
            }
            assert(self.wf());
            assert(self.spec_frontier() == old(self).spec_frontier().remove(best as int));
        }
        Some(idx)
    }

    /// True once a node at the target coordinate has been expanded; only
    /// meaningful when a target was supplied.
    pub fn reached_destination(&self) -> (r: bool)
        requires
            self.wf(),
        ensures
            r == self.spec_reached(),
    {
        match self.target {
            None => false,
            Some(t) => self.is_coord_cached(&t.x, &t.y),
        }
    }

    /// Membership of a coordinate in the expanded (closed) set.
    pub fn is_coord_cached(&self, x: &i32, y: &i32) -> (r: bool)
        requires
            self.wf(),
        ensures
            r == self.cached_pairs().contains((*x as int, *y as int)),
    {
        let mut k: usize = 0;
        while k < self.cached.len()
            invariant
                self.wf(),
                k <= self.spec_cached().len(),
                forall|j: int|
                    0 <= j < k ==> node_pair(
                        self.spec_nodes()[(#[trigger] self.spec_cached()[j]) as int],
                    ) != ((*x as int, *y as int)),
            decreases self.spec_cached().len() - k,
        {
            let ci = self.cached[k];
            proof {
                assert(self.spec_cached()[k as int] == ci);
            }
            let n = self.nodes[ci];
            if n.x == *x && n.y == *y {
                proof {
                    assert(node_pair(self.spec_nodes()[ci as int]) == (*x as int, *y as int));
                    lemma_pairs_of_contains(
                        self.spec_nodes(),
                        self.spec_cached(),
                        (*x as int, *y as int),
                    );
                }
                return true;
            }
            k = k + 1;
        }
        proof {
            lemma_pairs_of_contains(self.spec_nodes(), self.spec_cached(), (*x as int, *y as int));
        }
        false
    }

    /// Looks up the expanded node for a coordinate, returning its arena index.
    pub fn cached_node_for(&self, x: &i32, y: &i32) -> (r: Option<usize>)
        requires
            self.wf(),
        ensures
            match r {
                Some(i) => (i as int) < self.spec_nodes().len() && self.spec_nodes()[i as int].x
                    == *x && self.spec_nodes()[i as int].y == *y && self.spec_cached().contains(i),
                None => !self.cached_pairs().contains((*x as int, *y as int)),
            },
    {
        let mut k: usize = 0;
        while k < self.cached.len()
            invariant
                self.wf(),
                k <= self.spec_cached().len(),
                forall|j: int|
                    0 <= j < k ==> node_pair(
                        self.spec_nodes()[(#[trigger] self.spec_cached()[j]) as int],
                    ) != ((*x as int, *y as int)),
            decreases self.spec_cached().len() - k,
        {
            let ci = self.cached[k];
            proof {
                assert(self.spec_cached()[k as int] == ci);
            }
            let n = self.nodes[ci];
            if n.x == *x && n.y == *y {
                proof {
                    assert(self.spec_cached().contains(ci));
                }
                return Some(ci);
            }
            k = k + 1;
        }
        proof {
            lemma_pairs_of_contains(self.spec_nodes(), self.spec_cached(), (*x as int, *y as int));
        }
        None
    }

    /// Sets the visited flag of an expanded node. The node's coordinate,
    /// cost and parent are unchanged.
    pub fn mark_visited(&mut self, idx: usize)
        requires
            old(self).wf(),
            (idx as int) < old(self).spec_nodes().len(),
        ensures
            final(self).wf(),
            final(self).spec_nodes().len() == old(self).spec_nodes().len(),
            final(self).spec_nodes() == old(self).spec_nodes().update(
                idx as int,
                Node { visited: true, ..old(self).spec_nodes()[idx as int] },
            ),
            forall|i: int|
                0 <= i < final(self).spec_nodes().len() && i != idx ==> final(self).spec_nodes()[i]
                    == old(self).spec_nodes()[i],
            node_pair(final(self).spec_nodes()[idx as int]) == node_pair(
                old(self).spec_nodes()[idx as int],
            ),
            final(self).spec_nodes()[idx as int].parent == old(self).spec_nodes()[idx
                as int].parent,
            final(self).spec_nodes()[idx as int].cost == old(self).spec_nodes()[idx as int].cost,
            final(self).spec_frontier() == old(self).spec_frontier(),
            final(self).spec_cached() == old(self).spec_cached(),
            final(self).spec_target() == old(self).spec_target(),
            final(self).cached_pairs() == old(self).cached_pairs(),
    {
        let mut n = self.nodes[idx];
        n.visited = true;
        self.nodes[idx] = n;
        proof {
            assert(self.nodes@ == old(self).nodes@.update(idx as int, n));
            assert forall|k: int|
                0 <= k < self.spec_frontier().len() implies ((#[trigger] self.spec_frontier()[k])
                as int) < self.spec_nodes().len() by {
                assert(((old(self).spec_frontier()[k]) as int) < old(self).spec_nodes().len());
            }
            assert forall|k: int|
                0 <= k < self.spec_cached().len() implies ((#[trigger] self.spec_cached()[k])
                as int) < self.spec_nodes().len() by {
                assert(((old(self).spec_cached()[k]) as int) < old(self).spec_nodes().len());
            }
            assert forall|i: int|
                0 <= i < self.spec_nodes().len() implies ((#[trigger] self.spec_nodes()[i]).parent
                matches Some(p) ==> p < i) by {
                if i != idx {
                    assert(self.spec_nodes()[i] == old(self).spec_nodes()[i]);
                } else {
                    assert(self.spec_nodes()[i].parent == old(self).spec_nodes()[i].parent);
                }
            }
            assert(self.wf());
            assert forall|k: int|
                0 <= k < self.spec_cached().len() implies node_pair(
                self.spec_nodes()[(#[trigger] self.spec_cached()[k]) as int],
            ) == node_pair(old(self).spec_nodes()[self.spec_cached()[k] as int]) by {
                let ci = self.spec_cached()[k] as int;
                if ci != idx {
                    assert(self.spec_nodes()[ci] == old(self).spec_nodes()[ci]);
                }
            }
            lemma_pairs_of_same(self.spec_nodes(), old(self).spec_nodes(), self.spec_cached());
        }
    }

    /// Records an expanded node in the cache, closing its coordinate for
    /// future expansion.
    pub fn cache(&mut self, idx: usize)
        requires
            old(self).wf(),
            (idx as int) < old(self).spec_nodes().len(),
        ensures
            final(self).wf(),
            final(self).spec_nodes() == old(self).spec_nodes(),
            final(self).spec_frontier() == old(self).spec_frontier(),
            final(self).spec_cached() == old(self).spec_cached().push(idx),
            final(self).spec_target() == old(self).spec_target(),
            final(self).cached_pairs() == old(self).cached_pairs().insert(
                node_pair(old(self).spec_nodes()[idx as int]),
            ),
    {
        self.cached.push(idx);
        proof {
            assert(self.cached@ == old(self).cached@.push(idx));
            assert forall|k: int|
                0 <= k < self.spec_cached().len() implies ((#[trigger] self.spec_cached()[k])
                as int) < self.spec_nodes().len() by {
                if k < old(self).spec_cached().len() {
                    assert(self.spec_cached()[k] == old(self).spec_cached()[k]);
                    assert(((old(self).spec_cached()[k]) as int) < old(self).spec_nodes().len());
                } else {
                    assert(self.spec_cached()[k] == idx);
                }
            }
            assert forall|k: int|
                0 <= k < self.spec_frontier().len() implies ((#[trigger] self.spec_frontier()[k])
                as int) < self.spec_nodes().len() by {
                assert(((old(self).spec_frontier()[k]) as int) < old(self).spec_nodes().len());
            }
            assert forall|i: int|
                0 <= i < self.spec_nodes().len() implies ((#[trigger] self.spec_nodes()[i]).parent
                matches Some(p) ==> p < i) by {
                assert(self.spec_nodes()[i] == old(self).spec_nodes()[i]);
            }
            assert(self.wf());
            let pushed = old(self).spec_cached().push(idx);
            assert(pushed.drop_last() =~= old(self).spec_cached());
            assert(pushed.last() == idx);
            assert(pairs_of(self.spec_nodes(), pushed) == pairs_of(
                self.spec_nodes(),
                pushed.drop_last(),
            ).insert(node_pair(self.spec_nodes()[pushed.last() as int])));
        }
    }

    /// All nodes ever cached, in cache-insertion order.
    pub fn traversed_nodes(&self) -> (r: Vec<Node>)
        requires
            self.wf(),
        ensures
            r@.len() == self.spec_cached().len(),
            forall|k: int|
                0 <= k < r@.len() ==> r@[k] == self.spec_nodes()[(#[trigger] self.spec_cached()[k])
                    as int],
    {
        let mut r: Vec<Node> = Vec::new();
        let mut k: usize = 0;
        while k < self.cached.len()
            invariant
                self.wf(),
                k <= self.spec_cached().len(),
                r@.len() == k,
                forall|j: int|
                    0 <= j < k ==> r@[j] == self.spec_nodes()[(#[trigger] self.spec_cached()[j])
                        as int],
            decreases self.spec_cached().len() - k,
        {
            let ci = self.cached[k];
            proof {
                assert(self.spec_cached()[k as int] == ci);
            }
            r.push(self.nodes[ci]);
            k = k + 1;
        }
        r
    }

    /// Walks the parent chain from a terminal node back to a seed node and
    /// returns the coordinates in start-to-end order; the seed coordinate
    /// itself is excluded.
    pub fn format_path(&self, idx: usize) -> (r: Vec<Coord>)
        requires
            self.wf(),
            (idx as int) < self.spec_nodes().len(),
        ensures
            r@ == chain(self.spec_nodes(), idx as int),
    {
        let mut rev: Vec<Coord> = Vec::new();
        let mut cur: usize = idx;
        let mut done = false;
        while !done
            invariant
                self.wf(),
                (cur as int) < self.spec_nodes().len(),
                chain(self.spec_nodes(), idx as int) == chain(self.spec_nodes(), cur as int)
                    + rev@.reverse(),
                done ==> self.spec_nodes()[cur as int].parent is None,
            decreases cur + (if done {
                0int
            } else {
                1int
            }),
        {
            let n = self.nodes[cur];
            match n.parent {
                None => {
                    done = true;
                },
                Some(p) => {
                    let ghost prev = rev@;
                    let ghost c = node_coord(self.spec_nodes()[cur as int]);
                    rev.push(Coord { x: n.x, y: n.y });
                    proof {
                        assert(rev@ == prev.push(c));
                        assert(rev@.reverse() =~= seq![c] + prev.reverse());
                        assert(chain(self.spec_nodes(), cur as int) == chain(
                            self.spec_nodes(),
                            p as int,
                        ).push(c));
                        assert(chain(self.spec_nodes(), p as int).push(c) =~= chain(
                            self.spec_nodes(),
                            p as int,
                        ) + seq![c]);
                        assert((chain(self.spec_nodes(), p as int) + seq![c]) + prev.reverse()
                            =~= chain(self.spec_nodes(), p as int) + (seq![c] + prev.reverse()));
                    }
                    cur = p;
                },
            }
        }
        proof {
            assert(chain(self.spec_nodes(), cur as int) =~= Seq::<Coord>::empty());
            assert(Seq::<Coord>::empty() + rev@.reverse() =~= rev@.reverse());
        }
        let mut out: Vec<Coord> = Vec::new();
        let mut k: usize = rev.len();
        while k > 0
            invariant
                k <= rev@.len(),
                out@.len() == rev@.len() - k,
                forall|j: int| 0 <= j < out@.len() ==> out@[j] == rev@[rev@.len() - 1 - j],
            decreases k,
        {
            k = k - 1;
            out.push(rev[k]);
        }
        proof {
            assert(out@ =~= rev@.reverse());
        }
        out
    }

    /// Considers the neighbor of an expanded node at offset (dx, dy): if it
    /// is walkable and not yet expanded, creates a node for it whose cost is
    /// the current node's accumulated cost plus the neighbor's entry cost,
    /// and pushes it onto the frontier; otherwise the state is unchanged. A
    /// negative configured entry cost is treated as zero (well-formed grids
    /// configure non-negative costs), and accumulation saturates at the cost
    /// type's maximum.
    pub fn check_adjacent_node(&mut self, grid: &Grid, node_idx: usize, dx: i32, dy: i32)
        requires
            old(self).wf(),
            (node_idx as int) < old(self).spec_nodes().len(),
            -1 <= dx as int <= 1,
            -1 <= dy as int <= 1,
            i32::MIN <= old(self).spec_nodes()[node_idx as int].x as int + dx as int <= i32::MAX,
            i32::MIN <= old(self).spec_nodes()[node_idx as int].y as int + dy as int <= i32::MAX,
            grid.spec_in_grid(
                old(self).spec_nodes()[node_idx as int].x as int + dx as int,
                old(self).spec_nodes()[node_idx as int].y as int + dy as int,
            ),
        ensures
            final(self).wf(),
            final(self).spec_cached() == old(self).spec_cached(),
            final(self).spec_target() == old(self).spec_target(),
            final(self).cached_pairs() == old(self).cached_pairs(),
            old(self).spec_nodes().is_prefix_of(final(self).spec_nodes()),
            final(self).spec_nodes().len() <= old(self).spec_nodes().len() + 1,
            ({
                let from = old(self).spec_nodes()[node_idx as int];
                let nx = (from.x as int + dx as int) as i32;
                let ny = (from.y as int + dy as int) as i32;
                if grid.spec_walkable(nx, ny) && !old(self).cached_pairs().contains(
                    (nx as int, ny as int),
                ) {
                    &&& final(self).spec_nodes() == old(self).spec_nodes().push(
                        (Node {
                            x: nx,
                            y: ny,
                            cost: add_saturating(from.cost, spec_step_cost(grid, nx, ny)),
                            parent: Some(node_idx),
                            visited: false,
                        }),
                    )
                    &&& final(self).spec_frontier() == old(self).spec_frontier().push(
                        old(self).spec_nodes().len() as usize,
                    )
                } else {
                    &&& final(self).spec_nodes() == old(self).spec_nodes()
                    &&& final(self).spec_frontier() == old(self).spec_frontier()
                }
            }),
            forall|i: int|
                old(self).spec_nodes().len() <= i < final(self).spec_nodes().len() ==> {
                    let n = #[trigger] final(self).spec_nodes()[i];
                    &&& n.parent == Some(node_idx)
                    &&& n.x as int == old(self).spec_nodes()[node_idx as int].x as int + dx as int
                    &&& n.y as int == old(self).spec_nodes()[node_idx as int].y as int + dy as int
                    &&& grid.spec_in_grid(n.x as int, n.y as int)
                    &&& grid.spec_walkable(n.x, n.y)
                },
            forall|k: int|
                0 <= k < final(self).spec_frontier().len() ==> {
                    let j = #[trigger] final(self).spec_frontier()[k];
                    old(self).spec_frontier().contains(j) || (old(self).spec_nodes().len() <= (j
                        as int) < final(self).spec_nodes().len())
                },
    {
        let node = self.nodes[node_idx];
        let x = node.x + dx;
        let y = node.y + dy;
        if !grid.is_coord_walkable(&x, &y) {
            return ;
        }
        if self.is_coord_cached(&x, &y) {
            return ;
        }
        let cost = grid.get_coord_cost(&x, &y);
        let step: u64 = if cost >= 0 {
            cost as u64
        } else {
            0
        };
        let total: u64 = if node.cost <= u64::MAX - step {
            node.cost + step
        } else {
            u64::MAX
        };
        {
            let idx = self.coordinate_to_node(Some(node_idx), &x, &y, &total);
            self.push(idx);
            proof {
                assert forall|k: int|
                    0 <= k < self.spec_frontier().len() implies {
                    let j = #[trigger] self.spec_frontier()[k];
                    old(self).spec_frontier().contains(j) || (old(self).spec_nodes().len() <= (j
                        as int) < self.spec_nodes().len())
                } by {
                    if k < old(self).spec_frontier().len() {
                        assert(self.spec_frontier()[k] == old(self).spec_frontier()[k]);
                        assert(old(self).spec_frontier().contains(old(self).spec_frontier()[k]));
                    } else {
                        assert(self.spec_frontier()[k] == idx);
                    }
                }
            }
        }
    }
}

/// Every frontier entry's coordinate lies in the allowed set (the grid's
/// in-bounds coordinates together with the seed coordinates).
pub open spec fn frontier_allowed(s: &Search, allowed: Set<(int, int)>) -> bool {
    forall|j: usize|
        s.spec_frontier().contains(j) ==> allowed.contains(node_pair(s.spec_nodes()[j as int]))
}

/// The coordinates currently on the frontier.
pub open spec fn frontier_pairs(s: &Search) -> Set<(int, int)> {
    pairs_of(s.spec_nodes(), s.spec_frontier())
}

/// The coordinates the search has discovered: expanded or on the frontier.
pub open spec fn covered_pairs(s: &Search) -> Set<(int, int)> {
    s.cached_pairs().union(frontier_pairs(s))
}

/// A walk of the grid: in-bounds walkable coordinates, each one topology
/// step from the one before, the first one step from `from`.
pub open spec fn walk_ok(g: &Grid, from: Coord, p: Seq<Coord>) -> bool {
    &&& forall|k: int|
        0 <= k < p.len() ==> g.spec_in_grid((#[trigger] p[k]).x as int, p[k].y as int)
            && g.spec_walkable(p[k].x, p[k].y)
    &&& (p.len() >= 1 ==> step_ok(g.spec_grid_type(), from, p[0]))
    &&& forall|k: int| 1 <= k < p.len() ==> step_ok(g.spec_grid_type(), p[k - 1], #[trigger] p[k])
}

/// The expanded set is closed up to the frontier: every walkable in-grid
/// topology-neighbor of an expanded coordinate is expanded or on the
/// frontier.
pub open spec fn cached_closed(s: &Search, g: &Grid) -> bool {
    forall|i: int, z: Coord|
        (0 <= i < s.spec_cached().len() && #[trigger] step_ok(
            g.spec_grid_type(),
            node_coord(s.spec_nodes()[s.spec_cached()[i] as int]),
            z,
        ) && g.spec_in_grid(z.x as int, z.y as int) && g.spec_walkable(z.x, z.y))
            ==> covered_pairs(s).contains((z.x as int, z.y as int))
}

pub proof fn lemma_prefix_trans(a: Seq<Node>, b: Seq<Node>, c: Seq<Node>)
    requires
        a.is_prefix_of(b),
        b.is_prefix_of(c),
    ensures
        a.is_prefix_of(c),
{
    assert forall|i: int| 0 <= i < a.len() implies a[i] == c.subrange(0, a.len() as int)[i] by {
        assert(a[i] == b.subrange(0, a.len() as int)[i]);
        assert(b[i] == c.subrange(0, b.len() as int)[i]);
    }
    assert(a =~= c.subrange(0, a.len() as int));
}

/// A coordinate pair stays in `pairs_of` when an entry with another
/// coordinate leaves.
pub proof fn lemma_pairs_of_remove(nodes: Seq<Node>, idxs: Seq<usize>, k: int, p: (int, int))
    requires
        0 <= k < idxs.len(),
        pairs_of(nodes, idxs).contains(p),
        p != node_pair(nodes[idxs[k] as int]),
    ensures
        pairs_of(nodes, idxs.remove(k)).contains(p),
{
    lemma_pairs_of_contains(nodes, idxs, p);
    let m = choose|m: int|
        0 <= m < idxs.len() && node_pair(nodes[(#[trigger] idxs[m]) as int]) == p;
    lemma_pairs_of_contains(nodes, idxs.remove(k), p);
    if m < k {
        assert(idxs.remove(k)[m] == idxs[m]);
    } else {
        assert(m != k);
        assert(idxs.remove(k)[m - 1] == idxs[m]);
    }
}

/// A coordinate pair stays in `pairs_of` when the arena grows and one more
/// entry is pushed.
pub proof fn lemma_pairs_of_grow(
    pre_nodes: Seq<Node>,
    post_nodes: Seq<Node>,
    idxs: Seq<usize>,
    j: usize,
    p: (int, int),
)
    requires
        forall|k: int| 0 <= k < idxs.len() ==> ((#[trigger] idxs[k]) as int) < pre_nodes.len(),
        pre_nodes.is_prefix_of(post_nodes),
        pairs_of(pre_nodes, idxs).contains(p),
    ensures
        pairs_of(post_nodes, idxs.push(j)).contains(p),
{
    lemma_pairs_of_contains(pre_nodes, idxs, p);
    let m = choose|m: int|
        0 <= m < idxs.len() && node_pair(pre_nodes[(#[trigger] idxs[m]) as int]) == p;
    assert(idxs.push(j)[m] == idxs[m]);
    assert(post_nodes[idxs[m] as int] == pre_nodes[idxs[m] as int]) by {
        assert(pre_nodes[idxs[m] as int] == post_nodes.subrange(
            0,
            pre_nodes.len() as int,
        )[idxs[m] as int]);
    }
    lemma_pairs_of_contains(post_nodes, idxs.push(j), p);
}

/// Once the frontier has drained, the expanded set contains every coordinate
/// a walk from an expanded coordinate can reach.
pub proof fn lemma_walk_cached(s: &Search, g: &Grid, from: Coord, p: Seq<Coord>, k: int)
    requires
        cached_closed(s, g),
        s.spec_frontier().len() == 0,
        s.cached_pairs().contains((from.x as int, from.y as int)),
        walk_ok(g, from, p),
        0 <= k < p.len(),
    ensures
        s.cached_pairs().contains((p[k].x as int, p[k].y as int)),
    decreases k,
{
    let prev = if k == 0 {
        from
    } else {
        p[k - 1]
    };
    if k > 0 {
        lemma_walk_cached(s, g, from, p, k - 1);
    }
    let pp = (prev.x as int, prev.y as int);
    lemma_pairs_of_contains(s.spec_nodes(), s.spec_cached(), pp);
    let i = choose|i: int|
        0 <= i < s.spec_cached().len() && node_pair(
            s.spec_nodes()[(#[trigger] s.spec_cached()[i]) as int],
        ) == pp;
    assert(node_coord(s.spec_nodes()[s.spec_cached()[i] as int]) == prev);
    assert(step_ok(
        g.spec_grid_type(),
        node_coord(s.spec_nodes()[s.spec_cached()[i] as int]),
        p[k],
    ));
    assert(frontier_pairs(s) =~= Set::<(int, int)>::empty());
}

/// The traversal loop: while the frontier is non-empty and the target (if
/// any) has not been expanded, pop the lowest-cost node, mark it visited,
/// cache it, and push its admissible neighbors for the grid's topology.
///
/// Duplicate frontier entries for one coordinate are possible; a popped node
/// whose coordinate is already cached is skipped rather than re-expanded.
/// The first pop of a coordinate is already its cheapest path, so this
/// strict dedup returns the same paths as re-expanding would.
pub fn calculate(search: &mut Search, grid: &Grid)
    requires
        old(search).wf(),
        old(search).spec_cached().len() == 0,
        nodes_linked(old(search).spec_nodes(), grid),
    ensures
        final(search).wf(),
        final(search).spec_target() == old(search).spec_target(),
        nodes_linked(final(search).spec_nodes(), grid),
        extends_core(old(search).spec_nodes(), final(search).spec_nodes()),
        final(search).spec_frontier().len() == 0 || final(search).spec_reached(),
        cached_closed(final(search), grid),
        forall|j: usize|
            old(search).spec_frontier().contains(j) ==> covered_pairs(final(search)).contains(
                node_pair(old(search).spec_nodes()[j as int]),
            ),
        final(search).spec_cached().len() > 0 ==> old(search).spec_frontier().contains(
            final(search).spec_cached()[0],
        ),
        forall|i: int|
            old(search).spec_nodes().len() <= i < final(search).spec_nodes().len()
                ==> (final(search).spec_cached().len() > 0 && node_pair(
                #[trigger] final(search).spec_nodes()[i],
            ) != node_pair(final(search).spec_nodes()[final(search).spec_cached()[0] as int])),
{
    let ghost nodes0 = old(search).spec_nodes();
    let ghost frontier0 = old(search).spec_frontier();
    let ghost allowed = grid_coords(grid).union(node_pairs(old(search).spec_nodes()));
    proof {
        lemma_grid_coords_finite(grid);
        lemma_node_pairs_finite(old(search).spec_nodes());
        vstd::set_lib::lemma_set_union_finite_iff(
            grid_coords(grid),
            node_pairs(old(search).spec_nodes()),
        );
        assert(allowed.finite());
        assert forall|j: usize|
            search.spec_frontier().contains(j) implies allowed.contains(
            node_pair(search.spec_nodes()[j as int]),
        ) by {
            let k = choose|k: int|
                0 <= k < search.spec_frontier().len() && search.spec_frontier()[k] == j;
            lemma_node_pairs_contains(search.spec_nodes(), j as int);
        }
        assert forall|j: usize|
            frontier0.contains(j) implies covered_pairs(search).contains(
            node_pair(nodes0[j as int]),
        ) by {
            let k = choose|k: int|
                0 <= k < search.spec_frontier().len() && search.spec_frontier()[k] == j;
            lemma_pairs_of_contains(
                search.spec_nodes(),
                search.spec_frontier(),
                node_pair(nodes0[j as int]),
            );
            assert(node_pair(search.spec_nodes()[(search.spec_frontier()[k]) as int]) == node_pair(
                nodes0[j as int],
            ));
        }
        assert forall|k: int|
            0 <= k < search.spec_frontier().len() implies frontier0.contains(
            #[trigger] search.spec_frontier()[k],
        ) by {}
    }
    loop
        invariant
            search.wf(),
            search.spec_target() == old(search).spec_target(),
            nodes_linked(search.spec_nodes(), grid),
            extends_core(nodes0, search.spec_nodes()),
            allowed.finite(),
            grid_coords(grid).subset_of(allowed),
            frontier_allowed(search, allowed),
            cached_closed(search, grid),
            forall|j: usize|
                frontier0.contains(j) ==> covered_pairs(search).contains(
                    node_pair(nodes0[j as int]),
                ),
            search.spec_cached().len() == 0 ==> search.spec_nodes() == nodes0,
            search.spec_cached().len() == 0 ==> forall|k: int|
                0 <= k < search.spec_frontier().len() ==> frontier0.contains(
                    #[trigger] search.spec_frontier()[k],
                ),
            search.spec_cached().len() > 0 ==> frontier0.contains(search.spec_cached()[0]),
            search.spec_cached().len() > 0 ==> search.cached_pairs().contains(
                node_pair(search.spec_nodes()[search.spec_cached()[0] as int]),
            ),
            forall|i: int|
                nodes0.len() <= i < search.spec_nodes().len() ==> (search.spec_cached().len() > 0
                    && node_pair(#[trigger] search.spec_nodes()[i]) != node_pair(
                    search.spec_nodes()[search.spec_cached()[0] as int],
                )),
        ensures
            search.spec_frontier().len() == 0 || search.spec_reached(),
        decreases
            allowed.difference(search.cached_pairs()).len(),
            search.spec_frontier().len(),
    {
        if search.size() == 0 {
            break ;
        }
        if search.reached_destination() {
            break ;
        }
        let ghost pre = *search;
        let popped = search.pop();
        let idx = match popped {
            Some(i) => i,
            None => {
                break ;
            },
        };
        let ghost after_pop = *search;
        proof {
            assert(pre.spec_frontier().contains(idx));
            assert forall|p: (int, int)|
                frontier_pairs(&pre).contains(p) && p != node_pair(
                    pre.spec_nodes()[idx as int],
                ) implies frontier_pairs(&after_pop).contains(p) by {
                let kk = choose|kk: int|
                    0 <= kk < pre.spec_frontier().len() && pre.spec_frontier()[kk] == idx
                        && after_pop.spec_frontier() == pre.spec_frontier().remove(kk);
                assert(node_pair(pre.spec_nodes()[(pre.spec_frontier()[kk]) as int]) == node_pair(
                    pre.spec_nodes()[idx as int],
                ));
                lemma_pairs_of_remove(pre.spec_nodes(), pre.spec_frontier(), kk, p);
            }
            if search.spec_cached().len() == 0 {
                assert forall|k: int|
                    0 <= k < search.spec_frontier().len() implies frontier0.contains(
                    #[trigger] search.spec_frontier()[k],
                ) by {
                    let kk = choose|kk: int|
                        0 <= kk < pre.spec_frontier().len() && pre.spec_frontier()[kk] == idx
                            && search.spec_frontier() == pre.spec_frontier().remove(kk);
                    if k < kk {
                        assert(search.spec_frontier()[k] == pre.spec_frontier()[k]);
                    } else {
                        assert(search.spec_frontier()[k] == pre.spec_frontier()[k + 1]);
                    }
                }
            }
            assert(allowed.contains(node_pair(search.spec_nodes()[idx as int])));
            assert forall|j: usize|
                search.spec_frontier().contains(j) implies allowed.contains(
                node_pair(search.spec_nodes()[j as int]),
            ) by {
                let k = choose|k: int|
                    0 <= k < search.spec_frontier().len() && search.spec_frontier()[k] == j;
                let kk = choose|kk: int|
                    0 <= kk < pre.spec_frontier().len() && pre.spec_frontier()[kk] == idx
                        && search.spec_frontier() == pre.spec_frontier().remove(kk);
                if k < kk {
                    assert(pre.spec_frontier()[k] == j);
                } else {
                    assert(pre.spec_frontier()[k + 1] == j);
                }
                assert(pre.spec_frontier().contains(j));
            }
        }
        let n = node_at(search, idx);
        let ghost c = node_pair(pre.spec_nodes()[idx as int]);
        if search.is_coord_cached(&n.x, &n.y) {
            // already expanded by a cheaper or equal duplicate entry: skip
            proof {
                assert(search.cached_pairs().contains(c));
                assert forall|i: int, z: Coord|
                    (0 <= i < search.spec_cached().len() && #[trigger] step_ok(
                        grid.spec_grid_type(),
                        node_coord(search.spec_nodes()[search.spec_cached()[i] as int]),
                        z,
                    ) && grid.spec_in_grid(z.x as int, z.y as int) && grid.spec_walkable(
                        z.x,
                        z.y,
                    )) implies covered_pairs(search).contains((z.x as int, z.y as int)) by {
                    let zp = (z.x as int, z.y as int);
                    assert(step_ok(
                        grid.spec_grid_type(),
                        node_coord(pre.spec_nodes()[pre.spec_cached()[i] as int]),
                        z,
                    ));
                    assert(covered_pairs(&pre).contains(zp));
                    if !pre.cached_pairs().contains(zp) {
                        assert(frontier_pairs(&pre).contains(zp));
                        if zp != c {
                            assert(frontier_pairs(&after_pop).contains(zp));
                        }
                    }
                }
                assert forall|j: usize|
                    frontier0.contains(j) implies covered_pairs(search).contains(
                    node_pair(nodes0[j as int]),
                ) by {
                    let zp = node_pair(nodes0[j as int]);
                    assert(covered_pairs(&pre).contains(zp));
                    if !pre.cached_pairs().contains(zp) {
                        assert(frontier_pairs(&pre).contains(zp));
                        if zp != c {
                            assert(frontier_pairs(&after_pop).contains(zp));
                        }
                    }
                }
            }
            continue ;
        }
        let ghost before_mark = *search;
        search.mark_visited(idx);
        proof {
            assert forall|j: int|
                0 <= j < search.spec_nodes().len() implies ((#[trigger] search.spec_nodes()[j]).parent
                matches Some(q) ==> {
                &&& step_ok(
                    grid.spec_grid_type(),
                    node_coord(search.spec_nodes()[q as int]),
                    node_coord(search.spec_nodes()[j]),
                )
                &&& grid.spec_in_grid(search.spec_nodes()[j].x as int, search.spec_nodes()[j].y as int)
                &&& grid.spec_walkable(search.spec_nodes()[j].x, search.spec_nodes()[j].y)
                &&& search.spec_nodes()[j].cost == add_saturating(
                    search.spec_nodes()[q as int].cost,
                    spec_step_cost(grid, search.spec_nodes()[j].x, search.spec_nodes()[j].y),
                )
            }) by {
                assert(node_coord(search.spec_nodes()[j]) == node_coord(before_mark.spec_nodes()[j]));
                assert(search.spec_nodes()[j].parent == before_mark.spec_nodes()[j].parent);
                assert(search.spec_nodes()[j].cost == before_mark.spec_nodes()[j].cost);
                match before_mark.spec_nodes()[j].parent {
                    Some(q) => {
                        assert(node_coord(search.spec_nodes()[q as int]) == node_coord(
                            before_mark.spec_nodes()[q as int],
                        ));
                        assert(search.spec_nodes()[q as int].cost == before_mark.spec_nodes()[q
                            as int].cost);
                    },
                    None => {},
                }
            }
            assert(nodes_linked(search.spec_nodes(), grid));
            assert(extends_core(before_mark.spec_nodes(), search.spec_nodes()));
            lemma_extends_core_trans(nodes0, before_mark.spec_nodes(), search.spec_nodes());
            assert forall|j: usize|
                search.spec_frontier().contains(j) implies allowed.contains(
                node_pair(search.spec_nodes()[j as int]),
            ) by {
                let k = choose|k: int|
                    0 <= k < search.spec_frontier().len() && search.spec_frontier()[k] == j;
                if j == idx {
                    assert(node_pair(search.spec_nodes()[j as int]) == node_pair(
                        before_mark.spec_nodes()[j as int],
                    ));
                } else {
                    assert(search.spec_nodes()[j as int] == before_mark.spec_nodes()[j as int]);
                }
                assert(before_mark.spec_frontier().contains(j));
            }
        }
        let ghost before_cache = *search;
        search.cache(idx);
        proof {
            let c = node_pair(before_cache.spec_nodes()[idx as int]);
            assert(allowed.contains(c));
            assert(!before_cache.cached_pairs().contains(c));
            assert(search.cached_pairs() == before_cache.cached_pairs().insert(c));
            assert(allowed.difference(search.cached_pairs()) =~= allowed.difference(
                before_cache.cached_pairs(),
            ).remove(c));
            assert(allowed.difference(before_cache.cached_pairs()).subset_of(allowed));
            lemma_set_subset_finite(allowed, allowed.difference(before_cache.cached_pairs()));
            assert(allowed.difference(before_cache.cached_pairs()).contains(c));
            assert(allowed.difference(search.cached_pairs()).len() < allowed.difference(
                before_cache.cached_pairs(),
            ).len());
        }
        let ghost s_cache = *search;
        expand_all(search, grid, idx, Ghost(allowed), Ghost(nodes0));
        proof {
            let c2 = node_pair(s_cache.spec_nodes()[idx as int]);
            assert(c2 == c);
            // the frontier's coordinates were unchanged by marking and caching
            assert forall|k2: int|
                0 <= k2 < after_pop.spec_frontier().len() implies node_pair(
                after_pop.spec_nodes()[(#[trigger] after_pop.spec_frontier()[k2]) as int],
            ) == node_pair(s_cache.spec_nodes()[after_pop.spec_frontier()[k2] as int]) by {
                let ci2 = after_pop.spec_frontier()[k2] as int;
                if ci2 != idx {
                    assert(s_cache.spec_nodes()[ci2] == after_pop.spec_nodes()[ci2]);
                }
            }
            lemma_pairs_of_same(
                after_pop.spec_nodes(),
                s_cache.spec_nodes(),
                after_pop.spec_frontier(),
            );
            assert(frontier_pairs(&s_cache) == frontier_pairs(&after_pop));
            assert(s_cache.cached_pairs() == pre.cached_pairs().insert(c));
            assert forall|i: int, z: Coord|
                (0 <= i < search.spec_cached().len() && #[trigger] step_ok(
                    grid.spec_grid_type(),
                    node_coord(search.spec_nodes()[search.spec_cached()[i] as int]),
                    z,
                ) && grid.spec_in_grid(z.x as int, z.y as int) && grid.spec_walkable(
                    z.x,
                    z.y,
                )) implies covered_pairs(search).contains((z.x as int, z.y as int)) by {
                let zp = (z.x as int, z.y as int);
                let ci = search.spec_cached()[i] as int;
                assert(search.spec_cached() == s_cache.spec_cached());
                assert(ci < s_cache.spec_nodes().len());
                assert(search.spec_nodes()[ci] == s_cache.spec_nodes()[ci]) by {
                    assert(s_cache.spec_nodes()[ci] == search.spec_nodes().subrange(
                        0,
                        s_cache.spec_nodes().len() as int,
                    )[ci]);
                }
                if i < pre.spec_cached().len() {
                    assert(s_cache.spec_cached()[i] == pre.spec_cached()[i]);
                    assert(node_coord(s_cache.spec_nodes()[ci]) == node_coord(
                        pre.spec_nodes()[ci],
                    ));
                    assert(step_ok(
                        grid.spec_grid_type(),
                        node_coord(pre.spec_nodes()[pre.spec_cached()[i] as int]),
                        z,
                    ));
                    assert(covered_pairs(&pre).contains(zp));
                    if pre.cached_pairs().contains(zp) {
                        assert(covered_pairs(&s_cache).contains(zp));
                    } else {
                        assert(frontier_pairs(&pre).contains(zp));
                        if zp == c {
                            assert(covered_pairs(&s_cache).contains(zp));
                        } else {
                            assert(frontier_pairs(&after_pop).contains(zp));
                            assert(covered_pairs(&s_cache).contains(zp));
                        }
                    }
                    assert(covered_pairs(search).contains(zp));
                } else {
                    assert(s_cache.spec_cached()[i] == idx);
                    assert(node_coord(search.spec_nodes()[ci]) == node_coord(
                        s_cache.spec_nodes()[idx as int],
                    ));
                    assert(step_ok(
                        grid.spec_grid_type(),
                        node_coord(s_cache.spec_nodes()[idx as int]),
                        z,
                    ));
                    assert(covered_pairs(search).contains(zp));
                }
            }
            assert forall|j: usize|
                frontier0.contains(j) implies covered_pairs(search).contains(
                node_pair(nodes0[j as int]),
            ) by {
                let zp = node_pair(nodes0[j as int]);
                assert(covered_pairs(&pre).contains(zp));
                if pre.cached_pairs().contains(zp) {
                    assert(covered_pairs(&s_cache).contains(zp));
                } else {
                    assert(frontier_pairs(&pre).contains(zp));
                    if zp == c {
                        assert(covered_pairs(&s_cache).contains(zp));
                    } else {
                        assert(frontier_pairs(&after_pop).contains(zp));
                        assert(covered_pairs(&s_cache).contains(zp));
                    }
                }
                assert(covered_pairs(search).contains(zp));
            }
            // the node expanded first keeps its place at the head of the
            // cache, and nothing created later reuses its coordinate
            let first = search.spec_cached()[0];
            if pre.spec_cached().len() == 0 {
                assert(search.spec_cached() == pre.spec_cached().push(idx));
                assert(first == idx);
                assert(pre.spec_frontier().contains(idx));
                let k0 = choose|k0: int|
                    0 <= k0 < pre.spec_frontier().len() && pre.spec_frontier()[k0] == idx;
                assert(frontier0.contains(idx));
                assert(pre.spec_nodes() == nodes0);
            } else {
                assert(search.spec_cached()[0] == pre.spec_cached()[0]);
            }
            assert(((first as int)) < s_cache.spec_nodes().len());
            assert(search.spec_nodes()[first as int] == s_cache.spec_nodes()[first as int]) by {
                assert(s_cache.spec_nodes()[first as int] == search.spec_nodes().subrange(
                    0,
                    s_cache.spec_nodes().len() as int,
                )[first as int]);
            }
            assert(node_pair(search.spec_nodes()[first as int]) == node_pair(
                s_cache.spec_nodes()[first as int],
            ));
            assert(s_cache.cached_pairs().contains(
                node_pair(s_cache.spec_nodes()[first as int]),
            )) by {
                lemma_pairs_of_contains(
                    s_cache.spec_nodes(),
                    s_cache.spec_cached(),
                    node_pair(s_cache.spec_nodes()[first as int]),
                );
                assert(s_cache.spec_cached()[0] == first);
            }
            assert forall|i: int|
                nodes0.len() <= i < search.spec_nodes().len() implies (search.spec_cached().len()
                > 0 && node_pair(#[trigger] search.spec_nodes()[i]) != node_pair(
                search.spec_nodes()[first as int],
            )) by {
                if i < s_cache.spec_nodes().len() {
                    assert(search.spec_nodes()[i] == s_cache.spec_nodes()[i]) by {
                        assert(s_cache.spec_nodes()[i] == search.spec_nodes().subrange(
                            0,
                            s_cache.spec_nodes().len() as int,
                        )[i]);
                    }
                    if pre.spec_cached().len() == 0 {
                        assert(pre.spec_nodes().len() == nodes0.len());
                        assert(i >= pre.spec_nodes().len());
                        assert(false);
                    } else {
                        assert(node_pair(s_cache.spec_nodes()[i]) == node_pair(
                            pre.spec_nodes()[i],
                        ));
                        assert(node_pair(pre.spec_nodes()[i]) != node_pair(
                            pre.spec_nodes()[pre.spec_cached()[0] as int],
                        ));
                        assert(node_pair(s_cache.spec_nodes()[first as int]) == node_pair(
                            pre.spec_nodes()[pre.spec_cached()[0] as int],
                        ));
                    }
                } else {
                    assert(!s_cache.cached_pairs().contains(
                        node_pair(search.spec_nodes()[i]),
                    ));
                }
            }
        }
    }
}

/// Expands all admissible neighbors of one node, in the topology's fixed
/// evaluation order. Afterwards every walkable in-grid topology-neighbor of
/// that node's coordinate is covered: already expanded or on the frontier.
#[verifier::rlimit(50)]
fn expand_all(
    search: &mut Search,
    grid: &Grid,
    idx: usize,
    Ghost(allowed): Ghost<Set<(int, int)>>,
    Ghost(nodes0): Ghost<Seq<Node>>,
)
    requires
        old(search).wf(),
        (idx as int) < old(search).spec_nodes().len(),
        frontier_allowed(old(search), allowed),
        grid_coords(grid).subset_of(allowed),
        nodes_linked(old(search).spec_nodes(), grid),
        extends_core(nodes0, old(search).spec_nodes()),
    ensures
        final(search).wf(),
        frontier_allowed(final(search), allowed),
        final(search).spec_cached() == old(search).spec_cached(),
        final(search).cached_pairs() == old(search).cached_pairs(),
        final(search).spec_target() == old(search).spec_target(),
        old(search).spec_nodes().is_prefix_of(final(search).spec_nodes()),
        final(search).spec_nodes()[idx as int] == old(search).spec_nodes()[idx as int],
        nodes_linked(final(search).spec_nodes(), grid),
        extends_core(nodes0, final(search).spec_nodes()),
        forall|p: (int, int)|
            covered_pairs(old(search)).contains(p) ==> covered_pairs(final(search)).contains(p),
        forall|z: Coord|
            (#[trigger] step_ok(
                grid.spec_grid_type(),
                node_coord(old(search).spec_nodes()[idx as int]),
                z,
            ) && grid.spec_in_grid(z.x as int, z.y as int) && grid.spec_walkable(z.x, z.y))
                ==> covered_pairs(final(search)).contains((z.x as int, z.y as int)),
        forall|i: int|
            old(search).spec_nodes().len() <= i < final(search).spec_nodes().len()
                ==> !old(search).cached_pairs().contains(
                node_pair(#[trigger] final(search).spec_nodes()[i]),
            ),
{
    let ghost s0 = *search;
    // cardinal
    expand(search, grid, idx, 0, -1, Ghost(allowed), Ghost(nodes0));
    let ghost s1 = *search;
    // hex & intercardinal
    if !grid.is_cardinal() {
        expand(search, grid, idx, 1, -1, Ghost(allowed), Ghost(nodes0));
    }
    let ghost s2 = *search;
    // cardinal
    expand(search, grid, idx, 1, 0, Ghost(allowed), Ghost(nodes0));
    let ghost s3 = *search;
    // intercardinal
    if grid.is_intercardinal() {
        expand(search, grid, idx, 1, 1, Ghost(allowed), Ghost(nodes0));
    }
    let ghost s4 = *search;
    // cardinal
    expand(search, grid, idx, 0, 1, Ghost(allowed), Ghost(nodes0));
    let ghost s5 = *search;
    // hex & intercardinal
    if !grid.is_cardinal() {
        expand(search, grid, idx, -1, 1, Ghost(allowed), Ghost(nodes0));
    }
    let ghost s6 = *search;
    // cardinal
    expand(search, grid, idx, -1, 0, Ghost(allowed), Ghost(nodes0));
    let ghost s7 = *search;
    // intercardinal
    if grid.is_intercardinal() {
        expand(search, grid, idx, -1, -1, Ghost(allowed), Ghost(nodes0));
    }
    let ghost s8 = *search;
    proof {
        assert(s0.spec_nodes().is_prefix_of(s1.spec_nodes())) by {
            assert(s0.spec_nodes() =~= s1.spec_nodes().subrange(
                0,
                s0.spec_nodes().len() as int,
            ));
        }
        assert(s1.spec_nodes().is_prefix_of(s2.spec_nodes())) by {
            assert(s1.spec_nodes() =~= s2.spec_nodes().subrange(
                0,
                s1.spec_nodes().len() as int,
            ));
        }
        assert(s2.spec_nodes().is_prefix_of(s3.spec_nodes())) by {
            assert(s2.spec_nodes() =~= s3.spec_nodes().subrange(
                0,
                s2.spec_nodes().len() as int,
            ));
        }
        assert(s3.spec_nodes().is_prefix_of(s4.spec_nodes())) by {
            assert(s3.spec_nodes() =~= s4.spec_nodes().subrange(
                0,
                s3.spec_nodes().len() as int,
            ));
        }
        assert(s4.spec_nodes().is_prefix_of(s5.spec_nodes())) by {
            assert(s4.spec_nodes() =~= s5.spec_nodes().subrange(
                0,
                s4.spec_nodes().len() as int,
            ));
        }
        assert(s5.spec_nodes().is_prefix_of(s6.spec_nodes())) by {
            assert(s5.spec_nodes() =~= s6.spec_nodes().subrange(
                0,
                s5.spec_nodes().len() as int,
            ));
        }
        assert(s6.spec_nodes().is_prefix_of(s7.spec_nodes())) by {
            assert(s6.spec_nodes() =~= s7.spec_nodes().subrange(
                0,
                s6.spec_nodes().len() as int,
            ));
        }
        assert(s7.spec_nodes().is_prefix_of(s8.spec_nodes())) by {
            assert(s7.spec_nodes() =~= s8.spec_nodes().subrange(
                0,
                s7.spec_nodes().len() as int,
            ));
        }
        lemma_prefix_trans(s0.spec_nodes(), s1.spec_nodes(), s2.spec_nodes());
        lemma_prefix_trans(s0.spec_nodes(), s2.spec_nodes(), s3.spec_nodes());
        lemma_prefix_trans(s0.spec_nodes(), s3.spec_nodes(), s4.spec_nodes());
        lemma_prefix_trans(s0.spec_nodes(), s4.spec_nodes(), s5.spec_nodes());
        lemma_prefix_trans(s0.spec_nodes(), s5.spec_nodes(), s6.spec_nodes());
        lemma_prefix_trans(s0.spec_nodes(), s6.spec_nodes(), s7.spec_nodes());
        lemma_prefix_trans(s0.spec_nodes(), s7.spec_nodes(), s8.spec_nodes());
        let c0 = node_coord(s0.spec_nodes()[idx as int]);
        assert forall|z: Coord|
            (#[trigger] step_ok(grid.spec_grid_type(), c0, z) && grid.spec_in_grid(
                z.x as int,
                z.y as int,
            ) && grid.spec_walkable(z.x, z.y)) implies covered_pairs(&s8).contains(
            (z.x as int, z.y as int),
        ) by {
            let dxv = z.x as int - c0.x as int;
            let dyv = z.y as int - c0.y as int;
            let zp = (z.x as int, z.y as int);
            if dxv == 0 && dyv == -1 {
                assert(covered_pairs(&s1).contains(zp));
                assert(covered_pairs(&s2).contains(zp));
                assert(covered_pairs(&s3).contains(zp));
                assert(covered_pairs(&s4).contains(zp));
                assert(covered_pairs(&s5).contains(zp));
                assert(covered_pairs(&s6).contains(zp));
                assert(covered_pairs(&s7).contains(zp));
                assert(covered_pairs(&s8).contains(zp));
            } else if dxv == 1 && dyv == -1 {
                assert(covered_pairs(&s2).contains(zp));
                assert(covered_pairs(&s3).contains(zp));
                assert(covered_pairs(&s4).contains(zp));
                assert(covered_pairs(&s5).contains(zp));
                assert(covered_pairs(&s6).contains(zp));
                assert(covered_pairs(&s7).contains(zp));
                assert(covered_pairs(&s8).contains(zp));
            } else if dxv == 1 && dyv == 0 {
                assert(covered_pairs(&s3).contains(zp));
                assert(covered_pairs(&s4).contains(zp));
                assert(covered_pairs(&s5).contains(zp));
                assert(covered_pairs(&s6).contains(zp));
                assert(covered_pairs(&s7).contains(zp));
                assert(covered_pairs(&s8).contains(zp));
            } else if dxv == 1 && dyv == 1 {
                assert(covered_pairs(&s4).contains(zp));
                assert(covered_pairs(&s5).contains(zp));
                assert(covered_pairs(&s6).contains(zp));
                assert(covered_pairs(&s7).contains(zp));
                assert(covered_pairs(&s8).contains(zp));
            } else if dxv == 0 && dyv == 1 {
                assert(covered_pairs(&s5).contains(zp));
                assert(covered_pairs(&s6).contains(zp));
                assert(covered_pairs(&s7).contains(zp));
                assert(covered_pairs(&s8).contains(zp));
            } else if dxv == -1 && dyv == 1 {
                assert(covered_pairs(&s6).contains(zp));
                assert(covered_pairs(&s7).contains(zp));
                assert(covered_pairs(&s8).contains(zp));
            } else if dxv == -1 && dyv == 0 {
                assert(covered_pairs(&s7).contains(zp));
                assert(covered_pairs(&s8).contains(zp));
            } else {
                assert(dxv == -1 && dyv == -1);
                assert(covered_pairs(&s8).contains(zp));
            }
        }
        assert forall|p: (int, int)|
            covered_pairs(&s0).contains(p) implies covered_pairs(&s8).contains(p) by {
            assert(covered_pairs(&s1).contains(p));
            assert(covered_pairs(&s2).contains(p));
            assert(covered_pairs(&s3).contains(p));
            assert(covered_pairs(&s4).contains(p));
            assert(covered_pairs(&s5).contains(p));
            assert(covered_pairs(&s6).contains(p));
            assert(covered_pairs(&s7).contains(p));
        }
        assert forall|i: int|
            s0.spec_nodes().len() <= i < s8.spec_nodes().len() implies !s0.cached_pairs().contains(
            node_pair(#[trigger] s8.spec_nodes()[i]),
        ) by {
            if i < s1.spec_nodes().len() {
                assert(!s0.cached_pairs().contains(node_pair(s1.spec_nodes()[i])));
                assert(s1.spec_nodes()[i] == s2.spec_nodes()[i]) by {
                    assert(s1.spec_nodes()[i] == s2.spec_nodes().subrange(
                        0,
                        s1.spec_nodes().len() as int,
                    )[i]);
                }
                assert(s2.spec_nodes()[i] == s3.spec_nodes()[i]) by {
                    assert(s2.spec_nodes()[i] == s3.spec_nodes().subrange(
                        0,
                        s2.spec_nodes().len() as int,
                    )[i]);
                }
                assert(s3.spec_nodes()[i] == s4.spec_nodes()[i]) by {
                    assert(s3.spec_nodes()[i] == s4.spec_nodes().subrange(
                        0,
                        s3.spec_nodes().len() as int,
                    )[i]);
                }
                assert(s4.spec_nodes()[i] == s5.spec_nodes()[i]) by {
                    assert(s4.spec_nodes()[i] == s5.spec_nodes().subrange(
                        0,
                        s4.spec_nodes().len() as int,
                    )[i]);
                }
                assert(s5.spec_nodes()[i] == s6.spec_nodes()[i]) by {
                    assert(s5.spec_nodes()[i] == s6.spec_nodes().subrange(
                        0,
                        s5.spec_nodes().len() as int,
                    )[i]);
                }
                assert(s6.spec_nodes()[i] == s7.spec_nodes()[i]) by {
                    assert(s6.spec_nodes()[i] == s7.spec_nodes().subrange(
                        0,
                        s6.spec_nodes().len() as int,
                    )[i]);
                }
                assert(s7.spec_nodes()[i] == s8.spec_nodes()[i]) by {
                    assert(s7.spec_nodes()[i] == s8.spec_nodes().subrange(
                        0,
                        s7.spec_nodes().len() as int,
                    )[i]);
                }
            } else if i < s2.spec_nodes().len() {
                assert(!s1.cached_pairs().contains(node_pair(s2.spec_nodes()[i])));
                assert(s2.spec_nodes()[i] == s3.spec_nodes()[i]) by {
                    assert(s2.spec_nodes()[i] == s3.spec_nodes().subrange(
                        0,
                        s2.spec_nodes().len() as int,
                    )[i]);
                }
                assert(s3.spec_nodes()[i] == s4.spec_nodes()[i]) by {
                    assert(s3.spec_nodes()[i] == s4.spec_nodes().subrange(
                        0,
                        s3.spec_nodes().len() as int,
                    )[i]);
                }
                assert(s4.spec_nodes()[i] == s5.spec_nodes()[i]) by {
                    assert(s4.spec_nodes()[i] == s5.spec_nodes().subrange(
                        0,
                        s4.spec_nodes().len() as int,
                    )[i]);
                }
                assert(s5.spec_nodes()[i] == s6.spec_nodes()[i]) by {
                    assert(s5.spec_nodes()[i] == s6.spec_nodes().subrange(
                        0,
                        s5.spec_nodes().len() as int,
                    )[i]);
                }
                assert(s6.spec_nodes()[i] == s7.spec_nodes()[i]) by {
                    assert(s6.spec_nodes()[i] == s7.spec_nodes().subrange(
                        0,
                        s6.spec_nodes().len() as int,
                    )[i]);
                }
                assert(s7.spec_nodes()[i] == s8.spec_nodes()[i]) by {
                    assert(s7.spec_nodes()[i] == s8.spec_nodes().subrange(
                        0,
                        s7.spec_nodes().len() as int,
                    )[i]);
                }
            } else if i < s3.spec_nodes().len() {
                assert(!s2.cached_pairs().contains(node_pair(s3.spec_nodes()[i])));
                assert(s3.spec_nodes()[i] == s4.spec_nodes()[i]) by {
                    assert(s3.spec_nodes()[i] == s4.spec_nodes().subrange(
                        0,
                        s3.spec_nodes().len() as int,
                    )[i]);
                }
                assert(s4.spec_nodes()[i] == s5.spec_nodes()[i]) by {
                    assert(s4.spec_nodes()[i] == s5.spec_nodes().subrange(
                        0,
                        s4.spec_nodes().len() as int,
                    )[i]);
                }
                assert(s5.spec_nodes()[i] == s6.spec_nodes()[i]) by {
                    assert(s5.spec_nodes()[i] == s6.spec_nodes().subrange(
                        0,
                        s5.spec_nodes().len() as int,
                    )[i]);
                }
                assert(s6.spec_nodes()[i] == s7.spec_nodes()[i]) by {
                    assert(s6.spec_nodes()[i] == s7.spec_nodes().subrange(
                        0,
                        s6.spec_nodes().len() as int,
                    )[i]);
                }
                assert(s7.spec_nodes()[i] == s8.spec_nodes()[i]) by {
                    assert(s7.spec_nodes()[i] == s8.spec_nodes().subrange(
                        0,
                        s7.spec_nodes().len() as int,
                    )[i]);
                }
            } else if i < s4.spec_nodes().len() {
                assert(!s3.cached_pairs().contains(node_pair(s4.spec_nodes()[i])));
                assert(s4.spec_nodes()[i] == s5.spec_nodes()[i]) by {
                    assert(s4.spec_nodes()[i] == s5.spec_nodes().subrange(
                        0,
                        s4.spec_nodes().len() as int,
                    )[i]);
                }
                assert(s5.spec_nodes()[i] == s6.spec_nodes()[i]) by {
                    assert(s5.spec_nodes()[i] == s6.spec_nodes().subrange(
                        0,
                        s5.spec_nodes().len() as int,
                    )[i]);
                }
                assert(s6.spec_nodes()[i] == s7.spec_nodes()[i]) by {
                    assert(s6.spec_nodes()[i] == s7.spec_nodes().subrange(
                        0,
                        s6.spec_nodes().len() as int,
                    )[i]);
                }
                assert(s7.spec_nodes()[i] == s8.spec_nodes()[i]) by {
                    assert(s7.spec_nodes()[i] == s8.spec_nodes().subrange(
                        0,
                        s7.spec_nodes().len() as int,
                    )[i]);
                }
            } else if i < s5.spec_nodes().len() {
                assert(!s4.cached_pairs().contains(node_pair(s5.spec_nodes()[i])));
                assert(s5.spec_nodes()[i] == s6.spec_nodes()[i]) by {
                    assert(s5.spec_nodes()[i] == s6.spec_nodes().subrange(
                        0,
                        s5.spec_nodes().len() as int,
                    )[i]);
                }
                assert(s6.spec_nodes()[i] == s7.spec_nodes()[i]) by {
                    assert(s6.spec_nodes()[i] == s7.spec_nodes().subrange(
                        0,
                        s6.spec_nodes().len() as int,
                    )[i]);
                }
                assert(s7.spec_nodes()[i] == s8.spec_nodes()[i]) by {
                    assert(s7.spec_nodes()[i] == s8.spec_nodes().subrange(
                        0,
                        s7.spec_nodes().len() as int,
                    )[i]);
                }
            } else if i < s6.spec_nodes().len() {
                assert(!s5.cached_pairs().contains(node_pair(s6.spec_nodes()[i])));
                assert(s6.spec_nodes()[i] == s7.spec_nodes()[i]) by {
                    assert(s6.spec_nodes()[i] == s7.spec_nodes().subrange(
                        0,
                        s6.spec_nodes().len() as int,
                    )[i]);
                }
                assert(s7.spec_nodes()[i] == s8.spec_nodes()[i]) by {
                    assert(s7.spec_nodes()[i] == s8.spec_nodes().subrange(
                        0,
                        s7.spec_nodes().len() as int,
                    )[i]);
                }
            } else if i < s7.spec_nodes().len() {
                assert(!s6.cached_pairs().contains(node_pair(s7.spec_nodes()[i])));
                assert(s7.spec_nodes()[i] == s8.spec_nodes()[i]) by {
                    assert(s7.spec_nodes()[i] == s8.spec_nodes().subrange(
                        0,
                        s7.spec_nodes().len() as int,
                    )[i]);
                }
            } else {
                assert(!s7.cached_pairs().contains(node_pair(s8.spec_nodes()[i])));
            }
        }
    }
}

/// Reads a node out of the arena.
fn node_at(search: &Search, idx: usize) -> (n: Node)
    requires
        search.wf(),
        (idx as int) < search.spec_nodes().len(),
    ensures
        n == search.spec_nodes()[idx as int],
{
    search.nodes[idx]
}

/// Adds 0, 1 or -1 to a coordinate component, reporting the values for which
/// the sum leaves the coordinate range (they are adjacent to no grid tile).
fn offset_coord(v: i32, d: i32) -> (r: Option<i32>)
    requires
        -1 <= d as int <= 1,
    ensures
        match r {
            Some(w) => w as int == v as int + d as int,
            None => !(i32::MIN <= v as int + d as int <= i32::MAX),
        },
{
    if d == 1 {
        if v < i32::MAX {
            Some(v + 1)
        } else {
            None
        }
    } else if d == -1 {
        if v > i32::MIN {
            Some(v - 1)
        } else {
            None
        }
    } else {
        Some(v)
    }
}

/// Bounds-checks the neighbor of a node at offset (dx, dy) and, when it is
/// in the grid, hands it to `check_adjacent_node`. Preserves the traversal
/// loop's frontier conditions.
#[verifier::rlimit(50)]
fn expand(
    search: &mut Search,
    grid: &Grid,
    idx: usize,
    dx: i32,
    dy: i32,
    Ghost(allowed): Ghost<Set<(int, int)>>,
    Ghost(nodes0): Ghost<Seq<Node>>,
)
    requires
        old(search).wf(),
        (idx as int) < old(search).spec_nodes().len(),
        -1 <= dx as int <= 1,
        -1 <= dy as int <= 1,
        offset_ok(grid.spec_grid_type(), dx as int, dy as int),
        frontier_allowed(old(search), allowed),
        grid_coords(grid).subset_of(allowed),
        nodes_linked(old(search).spec_nodes(), grid),
        extends_core(nodes0, old(search).spec_nodes()),
    ensures
        final(search).wf(),
        frontier_allowed(final(search), allowed),
        final(search).spec_cached() == old(search).spec_cached(),
        final(search).cached_pairs() == old(search).cached_pairs(),
        final(search).spec_target() == old(search).spec_target(),
        old(search).spec_nodes().is_prefix_of(final(search).spec_nodes()),
        final(search).spec_nodes()[idx as int] == old(search).spec_nodes()[idx as int],
        nodes_linked(final(search).spec_nodes(), grid),
        extends_core(nodes0, final(search).spec_nodes()),
        forall|p: (int, int)|
            covered_pairs(old(search)).contains(p) ==> covered_pairs(final(search)).contains(p),
        forall|i: int|
            old(search).spec_nodes().len() <= i < final(search).spec_nodes().len()
                ==> !old(search).cached_pairs().contains(
                node_pair(#[trigger] final(search).spec_nodes()[i]),
            ),
        ({
            let from = old(search).spec_nodes()[idx as int];
            let cx = from.x as int + dx as int;
            let cy = from.y as int + dy as int;
            (i32::MIN <= cx <= i32::MAX && i32::MIN <= cy <= i32::MAX && grid.spec_in_grid(cx, cy)
                && grid.spec_walkable((cx as i32), (cy as i32))) ==> covered_pairs(
                final(search),
            ).contains((cx, cy))
        }),
{
    let arena_len = search.nodes.len();
    let n = node_at(search, idx);
    let ox = offset_coord(n.x, dx);
    let oy = offset_coord(n.y, dy);
    match (ox, oy) {
        (Some(nx), Some(ny)) => {
            if grid.in_grid(nx, ny) {
                search.check_adjacent_node(grid, idx, dx, dy);
                proof {
                    let pre = old(search).spec_nodes();
                    let post = search.spec_nodes();
                    assert forall|i2: int| 0 <= i2 < pre.len() implies post[i2] == pre[i2] by {
                        assert(pre[i2] == post.subrange(0, pre.len() as int)[i2]);
                    }
                    assert forall|i2: int|
                        0 <= i2 < post.len() implies ((#[trigger] post[i2]).parent matches Some(q)
                        ==> {
                        &&& step_ok(
                            grid.spec_grid_type(),
                            node_coord(post[q as int]),
                            node_coord(post[i2]),
                        )
                        &&& grid.spec_in_grid(post[i2].x as int, post[i2].y as int)
                        &&& grid.spec_walkable(post[i2].x, post[i2].y)
                        &&& post[i2].cost == add_saturating(
                            post[q as int].cost,
                            spec_step_cost(grid, post[i2].x, post[i2].y),
                        )
                    }) by {
                        if i2 < pre.len() {
                            assert(post[i2] == pre[i2]);
                            match pre[i2].parent {
                                Some(q) => {
                                    assert(post[q as int] == pre[q as int]);
                                },
                                None => {},
                            }
                        } else {
                            assert(post[i2].parent == Some(idx));
                            assert(post[idx as int] == pre[idx as int]);
                            assert(post[i2].x as int - post[idx as int].x as int == dx as int);
                            assert(post[i2].y as int - post[idx as int].y as int == dy as int);
                        }
                    }
                    assert(nodes_linked(post, grid));
                    assert(extends_core(pre, post));
                    lemma_extends_core_trans(nodes0, pre, post);
                    assert forall|j: usize|
                        search.spec_frontier().contains(j) implies allowed.contains(
                        node_pair(search.spec_nodes()[j as int]),
                    ) by {
                        let k = choose|k: int|
                            0 <= k < search.spec_frontier().len() && search.spec_frontier()[k] == j;
                        if old(search).spec_frontier().contains(j) {
                            assert(search.spec_nodes()[j as int] == old(search).spec_nodes()[j
                                as int]);
                        } else {
                            assert(old(search).spec_nodes().len() <= (j as int)
                                < search.spec_nodes().len());
                            let nn = search.spec_nodes()[j as int];
                            assert(grid.spec_in_grid(nn.x as int, nn.y as int));
                            lemma_grid_coords_contains(grid, nn.x as int, nn.y as int);
                        }
                    }
                    let fromn = old(search).spec_nodes()[idx as int];
                    let cxi = (fromn.x as int + dx as int) as i32;
                    let cyi = (fromn.y as int + dy as int) as i32;
                    if grid.spec_walkable(cxi, cyi) && !old(search).cached_pairs().contains(
                        (cxi as int, cyi as int),
                    ) {
                        let newidx = old(search).spec_nodes().len() as usize;
                        assert(newidx == arena_len);
                        assert(newidx as int == old(search).spec_nodes().len());
                        assert(search.spec_frontier() == old(search).spec_frontier().push(newidx));
                        assert(search.spec_frontier()[old(search).spec_frontier().len() as int]
                            == newidx);
                        assert(node_pair(search.spec_nodes()[newidx as int]) == (
                            cxi as int,
                            cyi as int,
                        ));
                        lemma_pairs_of_contains(
                            search.spec_nodes(),
                            search.spec_frontier(),
                            (cxi as int, cyi as int),
                        );
                        assert(frontier_pairs(search).contains((cxi as int, cyi as int)));
                        assert forall|p: (int, int)|
                            covered_pairs(old(search)).contains(p) implies covered_pairs(
                            search,
                        ).contains(p) by {
                            if frontier_pairs(old(search)).contains(p) {
                                lemma_pairs_of_grow(
                                    old(search).spec_nodes(),
                                    search.spec_nodes(),
                                    old(search).spec_frontier(),
                                    newidx,
                                    p,
                                );
                            }
                        }
                    } else {
                        assert(search.spec_frontier() == old(search).spec_frontier());
                        assert(search.spec_nodes() == old(search).spec_nodes());
                        assert(grid.spec_walkable(cxi, cyi) ==> old(search).cached_pairs().contains(
                            (cxi as int, cyi as int),
                        ));
                    }
                }
            }
        },
        _ => {},
    }
}

} // verus!
