use vstd::prelude::*;
use rand::seq::SliceRandom;
use crate::a_star::{pos_subset, pos_unique, lemma_push_keeps, lemma_unique_pos_subset_len};
use crate::node::{
    Node, NodeList, abs_diff, contains_pos, gen_neighbor_of, gen_walkable_from, same_pos,
};

verus! {

/// A rectangular grid of cell markers.  The convention for values: `-1` is
/// the start cell, `2` the target, `1` a blocked cell, `0` a free cell, and
/// any other non-negative value a free cell with that intrinsic entry cost.
/// Rendering a grid to a terminal is a presentation concern that lives with
/// the caller; the grid itself is plain data and read-only during a search.
pub struct Maze {
    pub maze: Vec<Vec<i32>>,
}

impl Maze {
    pub fn new(maze: Vec<Vec<i32>>) -> (r: Maze)
        ensures
            r.maze == maze,
    {
        Maze { maze }
    }
}

/// Number of columns of a grid: the length of its first row.
pub open spec fn grid_cols(g: Seq<Vec<i32>>) -> int {
    if g.len() == 0 {
        0
    } else {
        g[0]@.len() as int
    }
}

/// Every row has the same length.
pub open spec fn grid_rect(g: Seq<Vec<i32>>) -> bool {
    forall|i: int| 0 <= i < g.len() ==> (#[trigger] g[i])@.len() == grid_cols(g)
}

/// Both grids have exactly the same shape.
pub open spec fn same_dims(g1: Seq<Vec<i32>>, g2: Seq<Vec<i32>>) -> bool {
    g1.len() == g2.len() && forall|i: int|
        0 <= i < g1.len() ==> (#[trigger] g1[i])@.len() == (#[trigger] g2[i])@.len()
}

/// `g2` is `g1` with some cells carved free: same shape, and every cell
/// either kept its value or became `0`.
pub open spec fn carved_from(g1: Seq<Vec<i32>>, g2: Seq<Vec<i32>>) -> bool {
    &&& same_dims(g1, g2)
    &&& forall|i: int, j: int|
        0 <= i < g1.len() && 0 <= j < g1[i]@.len() ==> ((#[trigger] g2[i]@[j]) == g1[i]@[j] || g2[i]@[j]
            == 0)
}

pub proof fn lemma_carved_trans(a: Seq<Vec<i32>>, b: Seq<Vec<i32>>, c: Seq<Vec<i32>>)
    requires
        carved_from(a, b),
        carved_from(b, c),
    ensures
        carved_from(a, c),
{
    assert forall|i: int|
        0 <= i < a.len() implies (#[trigger] a[i])@.len() == (#[trigger] c[i])@.len() by {
        assert(a[i]@.len() == b[i]@.len());
        assert(b[i]@.len() == c[i]@.len());
    }
    assert forall|i: int, j: int|
        0 <= i < a.len() && 0 <= j < a[i]@.len() implies ((#[trigger] c[i]@[j]) == a[i]@[j] || c[i]@[j]
        == 0) by {
        assert(b[i]@[j] == a[i]@[j] || b[i]@[j] == 0);
        assert(c[i]@[j] == b[i]@[j] || c[i]@[j] == 0);
    }
}

/// Every cell whose value differs between the two grids lies next to the
/// cell of some node in `v`: carving only ever knocks out walls that touch
/// the walk.
pub open spec fn changed_cells_touched(g0: Seq<Vec<i32>>, g1: Seq<Vec<i32>>, v: Seq<Node>) -> bool {
    forall|i: int, j: int|
        0 <= i < g0.len() && 0 <= j < g0[i]@.len() && (#[trigger] g1[i]@[j]) != g0[i]@[j]
            ==> exists|t: int| 0 <= t < v.len() && cell_adjacent(cell_of(#[trigger] v[t]), (i, j))
}

pub proof fn lemma_changed_trans(
    g0: Seq<Vec<i32>>,
    g1: Seq<Vec<i32>>,
    g2: Seq<Vec<i32>>,
    v1: Seq<Node>,
    v2: Seq<Node>,
)
    requires
        changed_cells_touched(g0, g1, v1),
        changed_cells_touched(g1, g2, v2),
        v1.is_prefix_of(v2),
        same_dims(g0, g1),
    ensures
        changed_cells_touched(g0, g2, v2),
{
    assert forall|i: int, j: int|
        0 <= i < g0.len() && 0 <= j < g0[i]@.len() && (#[trigger] g2[i]@[j]) != g0[i]@[j] implies (
    exists|t: int| 0 <= t < v2.len() && cell_adjacent(cell_of(#[trigger] v2[t]), (i, j))) by {
        assert(g0[i]@.len() == g1[i]@.len());
        if g2[i]@[j] != g1[i]@[j] {
        } else {
            assert(g1[i]@[j] != g0[i]@[j]);
            let t = choose|t: int| 0 <= t < v1.len() && cell_adjacent(cell_of(v1[t]), (i, j));
            assert(v1[t] == v2.subrange(0, v1.len() as int)[t]);
            assert(cell_adjacent(cell_of(v2[t]), (i, j)));
        }
    }
}

/// The node sits inside the grid, on the `z == 0` plane.
pub open spec fn node_in_grid(n: Node, g: Seq<Vec<i32>>) -> bool {
    &&& 0 <= n.x < g.len()
    &&& 0 <= n.y < g[n.x as int]@.len()
    &&& n.z == 0
}

/// Some entry of `s` sits at cell `(x, y)` of the `z == 0` plane.
pub open spec fn has_cell(s: Seq<Node>, x: int, y: int) -> bool {
    exists|k: int| 0 <= k < s.len() && s[k].x == x && s[k].y == y && s[k].z == 0
}

/// The grid cell a node sits on.
pub open spec fn cell_of(n: Node) -> (int, int) {
    (n.x as int, n.y as int)
}

/// Orthogonally adjacent grid cells.
pub open spec fn cell_adjacent(a: (int, int), b: (int, int)) -> bool {
    abs_diff(a.0, b.0) + abs_diff(a.1, b.1) == 1
}

/// The cell is inside the grid and not a wall.
pub open spec fn cell_open(g: Seq<Vec<i32>>, c: (int, int)) -> bool {
    &&& 0 <= c.0 < g.len()
    &&& 0 <= c.1 < g[c.0]@.len()
    &&& g[c.0]@[c.1] != 1
}

/// A walk over the grid: nonempty, every cell open, consecutive cells
/// orthogonally adjacent.
pub open spec fn is_open_walk(g: Seq<Vec<i32>>, p: Seq<(int, int)>) -> bool {
    &&& p.len() > 0
    &&& forall|k: int| 0 <= k < p.len() ==> cell_open(g, #[trigger] p[k])
    &&& forall|k: int| 0 <= k < p.len() - 1 ==> cell_adjacent(#[trigger] p[k], p[k + 1])
}

/// Cell `b` can be reached from cell `a` over open cells.
pub open spec fn cell_reachable(g: Seq<Vec<i32>>, a: (int, int), b: (int, int)) -> bool {
    exists|p: Seq<(int, int)>| is_open_walk(g, p) && p.first() == a && p.last() == b
}

pub proof fn lemma_reachable_refl(g: Seq<Vec<i32>>, a: (int, int))
    requires
        cell_open(g, a),
    ensures
        cell_reachable(g, a, a),
{
    let p = seq![a];
    assert(is_open_walk(g, p) && p.first() == a && p.last() == a);
}

/// A reachable cell's open orthogonal neighbor is reachable too.
pub proof fn lemma_reachable_step(g: Seq<Vec<i32>>, a: (int, int), b: (int, int), c: (int, int))
    requires
        cell_reachable(g, a, b),
        cell_adjacent(b, c),
        cell_open(g, c),
    ensures
        cell_reachable(g, a, c),
{
    let p = choose|p: Seq<(int, int)>| is_open_walk(g, p) && p.first() == a && p.last() == b;
    let q = p.push(c);
    assert(is_open_walk(g, q)) by {
        assert forall|k: int| 0 <= k < q.len() implies cell_open(g, #[trigger] q[k]) by {
            if k < p.len() {
                assert(q[k] == p[k]);
            }
        }
        assert forall|k: int| 0 <= k < q.len() - 1 implies cell_adjacent(
            #[trigger] q[k],
            q[k + 1],
        ) by {
            if k < p.len() - 1 {
                assert(q[k] == p[k] && q[k + 1] == p[k + 1]);
            } else {
                assert(q[k] == p.last() && q[k + 1] == c);
            }
        }
    }
    assert(q.first() == a && q.last() == c);
}

/// Carving more cells free never disconnects anything: any walk stays a
/// walk when cells only change towards `0`.
pub proof fn lemma_carve_keeps_reachable(
    g1: Seq<Vec<i32>>,
    g2: Seq<Vec<i32>>,
    a: (int, int),
    b: (int, int),
)
    requires
        carved_from(g1, g2),
        cell_reachable(g1, a, b),
    ensures
        cell_reachable(g2, a, b),
{
    let p = choose|p: Seq<(int, int)>| is_open_walk(g1, p) && p.first() == a && p.last() == b;
    assert(is_open_walk(g2, p)) by {
        assert forall|k: int| 0 <= k < p.len() implies cell_open(g2, #[trigger] p[k]) by {
            assert(cell_open(g1, p[k]));
            assert(g1[p[k].0]@.len() == g2[p[k].0]@.len());
            assert(g2[p[k].0]@[p[k].1] == g1[p[k].0]@[p[k].1] || g2[p[k].0]@[p[k].1] == 0);
        }
    }
}

/// Relies on rand's `SliceRandom::shuffle` (a Fisher-Yates permutation of
/// the slice, in place): the same nodes come back, possibly reordered.
/// Nothing is assumed about the order, so every caller must work for every
/// permutation.
#[verifier::external_body]
fn shuffle_nodes(nodes: &mut Vec<Node>)
    ensures
        final(nodes)@.to_multiset() == old(nodes)@.to_multiset(),
        final(nodes)@.len() == old(nodes)@.len(),
{
    nodes.as_mut_slice().shuffle(&mut rand::thread_rng())
}

/// A permutation holds exactly the values of the original.
pub proof fn lemma_perm_elems(s1: Seq<Node>, s2: Seq<Node>)
    requires
        s1.to_multiset() == s2.to_multiset(),
    ensures
        forall|k: int| 0 <= k < s2.len() ==> s1.contains(#[trigger] s2[k]),
{
    s1.to_multiset_ensures();
    s2.to_multiset_ensures();
    assert forall|k: int| 0 <= k < s2.len() implies s1.contains(#[trigger] s2[k]) by {
        assert(s2.contains(s2[k]));
        assert(s2.to_multiset().count(s2[k]) > 0);
    }
}

/// Every carving neighbor produced from `s` is an entry of `s`.
pub proof fn lemma_gen_walkable_elems(s: Seq<Node>, node: Node)
    ensures
        forall|k: int|
            0 <= k < gen_walkable_from(s, node).len() ==> s.contains(
                #[trigger] gen_walkable_from(s, node)[k],
            ) && gen_neighbor_of(node, gen_walkable_from(s, node)[k]),
    decreases s.len(),
{
    if s.len() > 0 {
        lemma_gen_walkable_elems(s.drop_last(), node);
        let w = gen_walkable_from(s, node);
        let rest = gen_walkable_from(s.drop_last(), node);
        assert forall|k: int|
            0 <= k < w.len() implies s.contains(#[trigger] w[k]) && gen_neighbor_of(
            node,
            w[k],
        ) by {
            if k < rest.len() {
                assert(w[k] == rest[k]);
                let idx = choose|idx: int|
                    0 <= idx < s.drop_last().len() && s.drop_last()[idx] == rest[k];
                assert(s[idx] == rest[k]);
            } else {
                assert(w[k] == s[s.len() - 1]);
            }
        }
    }
}

/// The filter keeps every matching entry: a lattice node that is a carving
/// neighbor of `node` shows up in `find_gen_walkable`'s result.
pub proof fn lemma_gen_walkable_complete(s: Seq<Node>, node: Node, m: Node)
    requires
        s.contains(m),
        gen_neighbor_of(node, m),
    ensures
        gen_walkable_from(s, node).contains(m),
    decreases s.len(),
{
    let idx = choose|idx: int| 0 <= idx < s.len() && s[idx] == m;
    if idx == s.len() - 1 {
        let w = gen_walkable_from(s, node);
        assert(w[w.len() - 1] == m);
    } else {
        assert(s.drop_last()[idx] == m);
        assert(s.drop_last().contains(m));
        lemma_gen_walkable_complete(s.drop_last(), node, m);
        let rest = gen_walkable_from(s.drop_last(), node);
        let k = choose|k: int| 0 <= k < rest.len() && rest[k] == m;
        let w = gen_walkable_from(s, node);
        assert(w[k] == m);
    }
}

/// Growing a node list never loses a position.
pub proof fn lemma_contains_pos_prefix(a: Seq<Node>, b: Seq<Node>, m: Node)
    requires
        a.is_prefix_of(b),
        contains_pos(a, m),
    ensures
        contains_pos(b, m),
{
    let i = choose|i: int| 0 <= i < a.len() && same_pos(a[i], m);
    assert(a[i] == b.subrange(0, a.len() as int)[i]);
    assert(same_pos(b[i], m));
}

/// From index `lo` on, every visited node has all its carving neighbors
/// among the lattice nodes visited as well.
pub open spec fn gen_closed_from(ns: Seq<Node>, v: Seq<Node>, lo: int) -> bool {
    forall|i: int, m: Node|
        lo <= i < v.len() && ns.contains(m) && #[trigger] gen_neighbor_of(v[i], m) ==> contains_pos(
            v,
            m,
        )
}

/// A walk over the lattice of carving nodes: nonempty, all entries lattice
/// nodes, consecutive ones carving neighbors.
pub open spec fn lattice_path(ns: Seq<Node>, p: Seq<Node>) -> bool {
    &&& p.len() > 0
    &&& forall|k: int| 0 <= k < p.len() ==> ns.contains(#[trigger] p[k])
    &&& forall|k: int| 0 <= k < p.len() - 1 ==> gen_neighbor_of(#[trigger] p[k], p[k + 1])
}

/// `b` can be reached from `a` by carving steps through the lattice.
pub open spec fn lattice_reachable(ns: Seq<Node>, a: Node, b: Node) -> bool {
    exists|p: Seq<Node>| lattice_path(ns, p) && p.first() == a && p.last() == b
}

/// Walking a lattice path out of a closed visited set never leaves it.
pub proof fn lemma_walk_stays_visited(ns: Seq<Node>, v: Seq<Node>, p: Seq<Node>, k: int)
    requires
        gen_closed_from(ns, v, 0),
        lattice_path(ns, p),
        0 <= k < p.len(),
        contains_pos(v, p[k]),
    ensures
        contains_pos(v, p.last()),
    decreases p.len() - k,
{
    if k < p.len() - 1 {
        let i = choose|i: int| 0 <= i < v.len() && same_pos(v[i], p[k]);
        assert(gen_neighbor_of(v[i], p[k + 1]));
        assert(contains_pos(v, p[k + 1]));
        lemma_walk_stays_visited(ns, v, p, k + 1);
    }
}

/// A lattice walk can be extended by one carving step.
pub proof fn lemma_lattice_step(ns: Seq<Node>, a: Node, m: Node, b: Node)
    requires
        lattice_reachable(ns, a, m),
        ns.contains(b),
        gen_neighbor_of(m, b),
    ensures
        lattice_reachable(ns, a, b),
{
    let p = choose|p: Seq<Node>| lattice_path(ns, p) && p.first() == a && p.last() == m;
    let q = p.push(b);
    assert(lattice_path(ns, q)) by {
        assert forall|k: int| 0 <= k < q.len() implies ns.contains(#[trigger] q[k]) by {
            if k < p.len() {
                assert(q[k] == p[k]);
            }
        }
        assert forall|k: int| 0 <= k < q.len() - 1 implies gen_neighbor_of(
            #[trigger] q[k],
            q[k + 1],
        ) by {
            if k < p.len() - 1 {
                assert(q[k] == p[k] && q[k + 1] == p[k + 1]);
            } else {
                assert(q[k] == p.last() && q[k + 1] == b);
            }
        }
    }
    assert(q.first() == a && q.last() == b);
}

/// In a node list that covers a full even/even lattice rectangle, every
/// lattice cell can be walked to from the corner entry, two steps at a
/// time.
pub proof fn lemma_lattice_grid_connected(ns: Seq<Node>, a: Node, x: int, y: int)
    requires
        ns.contains(a),
        a.x == 0,
        a.y == 0,
        a.z == 0,
        x >= 0,
        y >= 0,
        x % 2 == 0,
        y % 2 == 0,
        forall|i: int, j: int|
            0 <= i <= x && 0 <= j <= y && i % 2 == 0 && j % 2 == 0 ==> has_cell(ns, i, j),
    ensures
        exists|e: Node|
            ns.contains(e) && e.x == x && e.y == y && e.z == 0 && #[trigger] lattice_reachable(
                ns,
                a,
                e,
            ),
    decreases x + y,
{
    if x == 0 && y == 0 {
        let p = seq![a];
        assert(lattice_path(ns, p));
        assert(p.first() == a && p.last() == a);
        assert(lattice_reachable(ns, a, a));
        assert(ns.contains(a) && a.x == x && a.y == y && a.z == 0 && lattice_reachable(ns, a, a));
    } else if x >= 2 {
        lemma_lattice_grid_connected(ns, a, x - 2, y);
        let m = choose|m: Node|
            ns.contains(m) && m.x == x - 2 && m.y == y && m.z == 0 && lattice_reachable(ns, a, m);
        assert(has_cell(ns, x, y));
        let ke = choose|ke: int|
            0 <= ke < ns.len() && ns[ke].x == x && ns[ke].y == y && ns[ke].z == 0;
        let e = ns[ke];
        assert(ns.contains(e));
        assert(gen_neighbor_of(m, e));
        lemma_lattice_step(ns, a, m, e);
        assert(ns.contains(e) && e.x == x && e.y == y && e.z == 0 && lattice_reachable(ns, a, e));
    } else {
        lemma_lattice_grid_connected(ns, a, x, y - 2);
        let m = choose|m: Node|
            ns.contains(m) && m.x == x && m.y == y - 2 && m.z == 0 && lattice_reachable(ns, a, m);
        assert(has_cell(ns, x, y));
        let ke = choose|ke: int|
            0 <= ke < ns.len() && ns[ke].x == x && ns[ke].y == y && ns[ke].z == 0;
        let e = ns[ke];
        assert(ns.contains(e));
        assert(gen_neighbor_of(m, e));
        lemma_lattice_step(ns, a, m, e);
        assert(ns.contains(e) && e.x == x && e.y == y && e.z == 0 && lattice_reachable(ns, a, e));
    }
}

/// What a finished carving run guarantees: every lattice node that the
/// two-step lattice connects to a visited node is itself visited, and so —
/// by the connectivity invariant — its cell can be reached from the root's
/// cell over the open cells of the carved grid.  Maze generator output is
/// connected terrain.
pub proof fn lemma_carved_lattice_connected(gen: MazeGenerator, a: Node, b: Node)
    requires
        gen.wf_gen(),
        gen.visited@.len() > 0,
        gen_closed_from(gen.nodes.nodes@, gen.visited@, 0),
        contains_pos(gen.visited@, a),
        lattice_reachable(gen.nodes.nodes@, a, b),
    ensures
        contains_pos(gen.visited@, b),
        cell_reachable(gen.maze@, cell_of(gen.visited@[0]), cell_of(b)),
{
    let ns = gen.nodes.nodes@;
    let v = gen.visited@;
    let p = choose|p: Seq<Node>| lattice_path(ns, p) && p.first() == a && p.last() == b;
    assert(contains_pos(v, p[0])) by {
        let i = choose|i: int| 0 <= i < v.len() && same_pos(v[i], a);
    }
    lemma_walk_stays_visited(ns, v, p, 0);
    let i = choose|i: int| 0 <= i < v.len() && same_pos(v[i], b);
    assert(cell_reachable(gen.maze@, cell_of(v[0]), cell_of(v[i])));
    assert(cell_of(v[i]) == cell_of(b));
}

/// The stock-terrain premises shared by the connectivity results: the
/// grid the generator started from was `DefaultMaze` terrain of the given
/// shape, its lattice node list covers every free cell, the walk started
/// in the start corner, and the carving run finished (the visited set is
/// neighbor-closed).
pub open spec fn stock_carving_run(
    gen: MazeGenerator,
    g0: Seq<Vec<i32>>,
    h: int,
    w: int,
) -> bool {
    &&& gen.wf_gen()
    &&& gen.visited@.len() > 0
    &&& gen_closed_from(gen.nodes.nodes@, gen.visited@, 0)
    &&& carved_from(g0, gen.maze@)
    &&& changed_cells_touched(g0, gen.maze@, gen.visited@)
    &&& g0.len() == h
    &&& h >= 1
    &&& w >= 1
    &&& w % 2 == 1
    &&& forall|i: int| 0 <= i < h ==> (#[trigger] g0[i])@.len() == w
    &&& forall|i: int, j: int|
        0 <= i < h && 0 <= j < w ==> (#[trigger] g0[i]@[j]) == default_maze_cell(h, w, i, j)
    &&& forall|i: int, j: int|
        0 <= i < h && 0 <= j < w && (#[trigger] g0[i]@[j]) != 1 ==> has_cell(
            gen.nodes.nodes@,
            i,
            j,
        )
    &&& cell_of(gen.visited@[0]) == (0int, 0int)
    &&& gen.visited@[0].z == 0
}

/// After a finished carving run over stock terrain, every even/even
/// lattice cell can be reached from the start corner over open cells.
pub proof fn lemma_default_lattice_cell_reachable(
    gen: MazeGenerator,
    g0: Seq<Vec<i32>>,
    h: int,
    w: int,
    x: int,
    y: int,
)
    requires
        stock_carving_run(gen, g0, h, w),
        0 <= x < h,
        0 <= y < w,
        x % 2 == 0,
        y % 2 == 0,
    ensures
        cell_reachable(gen.maze@, (0, 0), (x, y)),
{
    let ns = gen.nodes.nodes@;
    let v = gen.visited@;
    assert(g0[0]@[0] != 1);
    assert(has_cell(ns, 0, 0));
    let ka = choose|ka: int| 0 <= ka < ns.len() && ns[ka].x == 0 && ns[ka].y == 0 && ns[ka].z == 0;
    let a = ns[ka];
    assert(ns.contains(a));
    assert forall|i: int, j: int|
        0 <= i <= x && 0 <= j <= y && i % 2 == 0 && j % 2 == 0 implies has_cell(ns, i, j) by {
        assert(g0[i]@[j] == default_maze_cell(h, w, i, j));
        assert(g0[i]@[j] != 1);
    }
    lemma_lattice_grid_connected(ns, a, x, y);
    let e = choose|e: Node|
        ns.contains(e) && e.x == x && e.y == y && e.z == 0 && lattice_reachable(ns, a, e);
    assert(contains_pos(v, a)) by {
        assert(same_pos(v[0], a));
    }
    lemma_carved_lattice_connected(gen, a, e);
    assert(cell_of(e) == (x, y));
}

/// The maze generator's output is fully connected terrain: after a
/// finished carving run over stock terrain, every open cell of the carved
/// grid can be reached from the start corner over open cells.
pub proof fn lemma_default_maze_fully_connected(
    gen: MazeGenerator,
    g0: Seq<Vec<i32>>,
    h: int,
    w: int,
    c: (int, int),
)
    requires
        stock_carving_run(gen, g0, h, w),
        cell_open(gen.maze@, c),
    ensures
        cell_reachable(gen.maze@, (0, 0), c),
{
    let ns = gen.nodes.nodes@;
    let v = gen.visited@;
    let g1 = gen.maze@;
    let i = c.0;
    let j = c.1;
    assert(0 <= i < g0.len() && 0 <= j < g0[i]@.len());
    if g1[i]@[j] != g0[i]@[j] {
        // a carved wall: it touches the walk, and everything on the walk
        // is connected to the start corner
        let t = choose|t: int| 0 <= t < v.len() && cell_adjacent(cell_of(v[t]), (i, j));
        assert(cell_reachable(g1, cell_of(v[0]), cell_of(v[t])));
        lemma_reachable_step(g1, cell_of(v[0]), cell_of(v[t]), c);
    } else {
        assert(g0[i]@[j] == default_maze_cell(h, w, i, j));
        assert(g0[i]@[j] != 1);
        if i % 2 == 0 && j % 2 == 0 {
            lemma_default_lattice_cell_reachable(gen, g0, h, w, i, j);
        } else {
            // the only free off-lattice cell of stock terrain is the
            // target marker in the bottom-right corner, one step below an
            // even row (the width is always odd)
            assert(i == h - 1 && j == w - 1);
            assert((w - 1) % 2 == 0);
            assert(i % 2 == 1 && h >= 2);
            lemma_default_lattice_cell_reachable(gen, g0, h, w, i - 1, j);
            assert(cell_adjacent((i - 1, j), c));
            lemma_reachable_step(g1, (0, 0), (i - 1, j), c);
        }
    }
}

pub proof fn lemma_prefix_trans(a: Seq<Node>, b: Seq<Node>, c: Seq<Node>)
    requires
        a.is_prefix_of(b),
        b.is_prefix_of(c),
    ensures
        a.is_prefix_of(c),
{
    assert(a =~= c.subrange(0, a.len() as int)) by {
        assert forall|i: int| 0 <= i < a.len() implies a[i] == c.subrange(0, a.len() as int)[i] by {
            assert(a[i] == b.subrange(0, a.len() as int)[i]);
            assert(b[i] == c.subrange(0, b.len() as int)[i]);
        }
    }
}

/// Whether some entry of `v` sits at `n`'s position.
fn vec_contains_pos(v: &Vec<Node>, n: &Node) -> (r: bool)
    ensures
        r == contains_pos(v@, *n),
{
    let mut i: usize = 0;
    while i < v.len()
        invariant
            i <= v@.len(),
            forall|j: int| 0 <= j < i ==> !same_pos(v@[j], *n),
        decreases v@.len() - i,
    {
        if v[i].equals(n) {
            assert(contains_pos(v@, *n));
            return true;
        }
        i += 1;
    }
    false
}

/// Carves a maze into a grid by randomized depth-first search: walking the
/// lattice of cells two steps apart, it knocks out the wall cell between a
/// cell and each not-yet-visited neighbor, in an order drawn fresh from the
/// random generator each time.
pub struct MazeGenerator {
    pub maze: Vec<Vec<i32>>,
    pub visited: Vec<Node>,
    pub nodes: NodeList,
    pub debug: bool,
}

impl MazeGenerator {
    /// Every visited lattice node can be reached, over open cells of the
    /// current grid, from the first node ever visited: the carved passages
    /// connect everything the walk has touched.
    pub open spec fn visited_connected(self) -> bool {
        forall|i: int|
            0 <= i < self.visited@.len() ==> cell_reachable(
                self.maze@,
                cell_of(self.visited@[0]),
                cell_of(#[trigger] self.visited@[i]),
            )
    }

    /// The generator's running invariant: the grid is rectangular with
    /// coordinates that fit `i32`, every lattice node sits on an open cell
    /// of the `z == 0` plane, the visited list holds pairwise-distinct
    /// lattice positions, and everything visited is connected to the root.
    pub open spec fn wf_gen(self) -> bool {
        &&& self.maze@.len() <= 0x7fff_ffff
        &&& grid_cols(self.maze@) <= 0x7fff_ffff
        &&& grid_rect(self.maze@)
        &&& forall|k: int|
            0 <= k < self.nodes.nodes@.len() ==> node_in_grid(
                #[trigger] self.nodes.nodes@[k],
                self.maze@,
            ) && cell_open(self.maze@, cell_of(self.nodes.nodes@[k]))
        &&& pos_unique(self.visited@)
        &&& pos_subset(self.visited@, self.nodes.nodes@)
        &&& self.visited_connected()
    }

    /// A fresh generator over `maze`, with its lattice node list built and
    /// nothing visited yet.
    pub fn new(maze: Vec<Vec<i32>>, debug: bool) -> (r: MazeGenerator)
        requires
            maze@.len() <= 0x7fff_ffff,
            grid_rect(maze@),
            grid_cols(maze@) <= 0x7fff_ffff,
        ensures
            r.maze == maze,
            r.debug == debug,
            r.visited@ == Seq::<Node>::empty(),
            r.wf_gen(),
            forall|k: int|
                0 <= k < r.nodes.nodes@.len() ==> {
                    let nd = #[trigger] r.nodes.nodes@[k];
                    node_in_grid(nd, maze@) && nd.f == 0 && nd.g == 0 && nd.h == 0 && nd.core_cost
                        == 0 && nd.parent is None && maze@[nd.x as int]@[nd.y as int] != 1
                },
            forall|i: int, j: int|
                0 <= i < maze@.len() && 0 <= j < maze@[i]@.len() && (#[trigger] maze@[i]@[j]) != 1
                    ==> has_cell(r.nodes.nodes@, i, j),
    {
        let mut maze = MazeGenerator {
            maze,
            visited: Vec::new(),
            nodes: NodeList::new(),
            debug,
        };

        maze.make_node_list();

        maze
    }

    /// Rebuild the lattice node list from the grid: one node per cell that
    /// is not blocked, at that cell's coordinates, with no costs set.
    #[verifier::loop_isolation(false)]
    pub fn make_node_list(&mut self)
        requires
            old(self).maze@.len() <= 0x7fff_ffff,
            forall|i: int|
                0 <= i < old(self).maze@.len() ==> (#[trigger] old(self).maze@[i])@.len()
                    <= 0x7fff_ffff,
        ensures
            final(self).maze == old(self).maze,
            final(self).visited == old(self).visited,
            final(self).debug == old(self).debug,
            forall|k: int|
                0 <= k < final(self).nodes.nodes@.len() ==> {
                    let nd = #[trigger] final(self).nodes.nodes@[k];
                    node_in_grid(nd, old(self).maze@) && nd.f == 0 && nd.g == 0 && nd.h == 0
                        && nd.core_cost == 0 && nd.parent is None && old(self).maze@[nd.x as int]@[nd.y as int]
                        != 1
                },
            forall|i: int, j: int|
                0 <= i < old(self).maze@.len() && 0 <= j < old(self).maze@[i]@.len() && (
                #[trigger] old(self).maze@[i]@[j]) != 1 ==> has_cell(final(self).nodes.nodes@, i, j),
    {
        let ghost g = self.maze@;
        let mut node_list = NodeList::new();
        let mut i: usize = 0;
        while i < self.maze.len()
            invariant
                self == old(self),
                i <= g.len(),
                forall|k: int|
                    0 <= k < node_list.nodes@.len() ==> {
                        let nd = #[trigger] node_list.nodes@[k];
                        node_in_grid(nd, g) && nd.f == 0 && nd.g == 0 && nd.h == 0 && nd.core_cost
                            == 0 && nd.parent is None && g[nd.x as int]@[nd.y as int] != 1
                    },
                forall|a: int, b: int|
                    0 <= a < i && 0 <= b < g[a]@.len() && (#[trigger] g[a]@[b]) != 1 ==> has_cell(
                        node_list.nodes@,
                        a,
                        b,
                    ),
            decreases g.len() - i,
        {
            let mut j: usize = 0;
            while j < self.maze[i].len()
                invariant
                    self == old(self),
                    0 <= i < g.len(),
                    j <= g[i as int]@.len(),
                    forall|k: int|
                        0 <= k < node_list.nodes@.len() ==> {
                            let nd = #[trigger] node_list.nodes@[k];
                            node_in_grid(nd, g) && nd.f == 0 && nd.g == 0 && nd.h == 0
                                && nd.core_cost == 0 && nd.parent is None && g[nd.x as int]@[nd.y as int]
                                != 1
                        },
                    forall|a: int, b: int|
                        0 <= a < i && 0 <= b < g[a]@.len() && (#[trigger] g[a]@[b]) != 1
                            ==> has_cell(node_list.nodes@, a, b),
                    forall|b: int|
                        0 <= b < j && (#[trigger] g[i as int]@[b]) != 1 ==> has_cell(
                            node_list.nodes@,
                            i as int,
                            b,
                        ),
                decreases g[i as int]@.len() - j,
            {
                let value = self.maze[i][j];
                if value != 1 {
                    let ghost pre = node_list.nodes@;
                    node_list.nodes.push(Node::new(i as i32, j as i32, 0, 0, None));
                    proof {
                        let ns = node_list.nodes@;
                        assert(ns[pre.len() as int].x == i as int && ns[pre.len() as int].y
                            == j as int && ns[pre.len() as int].z == 0);
                        assert(has_cell(ns, i as int, j as int));
                        assert forall|a: int, b: int|
                            0 <= a < ns.len() - 1 && has_cell(pre, a, b) implies has_cell(
                            ns,
                            a,
                            b,
                        ) by {
                            let k = choose|k: int|
                                0 <= k < pre.len() && pre[k].x == a && pre[k].y == b && pre[k].z
                                    == 0;
                            assert(ns[k] == pre[k]);
                        }
                        assert forall|a: int, b: int|
                            0 <= a < i && 0 <= b < g[a]@.len() && (#[trigger] g[a]@[b]) != 1
                                implies has_cell(ns, a, b) by {
                            let k = choose|k: int|
                                0 <= k < pre.len() && pre[k].x == a && pre[k].y == b && pre[k].z
                                    == 0;
                            assert(ns[k] == pre[k]);
                        }
                        assert forall|b: int|
                            0 <= b < j + 1 && (#[trigger] g[i as int]@[b]) != 1 implies has_cell(
                            ns,
                            i as int,
                            b,
                        ) by {
                            if b < j {
                                let k = choose|k: int|
                                    0 <= k < pre.len() && pre[k].x == i as int && pre[k].y == b
                                        && pre[k].z == 0;
                                assert(ns[k] == pre[k]);
                            }
                        }
                    }
                }
                j += 1;
            }
            i += 1;
        }
        self.nodes = node_list;
    }

    /// Randomized depth-first carving from `node`: mark it visited, shuffle
    /// its lattice neighbors, and for each one not yet visited, carve the
    /// wall cell between them free and recurse.  The grid only ever loses
    /// walls (cells change to `0` or keep their value), its shape is fixed,
    /// and the node list is untouched; `node` itself ends up visited and
    /// the previously visited nodes stay so, in order.
    #[verifier::loop_isolation(false)]
    pub fn randomized_dfs(&mut self, node: Node)
        requires
            old(self).wf_gen(),
            contains_pos(old(self).nodes.nodes@, node),
            !contains_pos(old(self).visited@, node),
            old(self).visited@.len() > 0 ==> cell_reachable(
                old(self).maze@,
                cell_of(old(self).visited@[0]),
                cell_of(node),
            ),
        ensures
            final(self).wf_gen(),
            final(self).nodes == old(self).nodes,
            final(self).debug == old(self).debug,
            old(self).visited@.is_prefix_of(final(self).visited@),
            old(self).visited@.push(node).is_prefix_of(final(self).visited@),
            final(self).visited@[old(self).visited@.len() as int] == node,
            contains_pos(final(self).visited@, node),
            carved_from(old(self).maze@, final(self).maze@),
            gen_closed_from(
                old(self).nodes.nodes@,
                final(self).visited@,
                old(self).visited@.len() as int,
            ),
            changed_cells_touched(old(self).maze@, final(self).maze@, final(self).visited@),
        decreases old(self).nodes.nodes@.len() - old(self).visited@.len(),
    {
        let ghost g0 = self.maze@;
        let ghost v0 = self.visited@;
        let ghost ns = self.nodes.nodes@;

        self.visited.push(node.clone());
        proof {
            lemma_push_keeps(v0, Seq::<Node>::empty(), ns, node);
            assert(v0.push(node).is_prefix_of(v0.push(node))) by {
                assert(v0.push(node).subrange(0, v0.push(node).len() as int) =~= v0.push(node));
            }
            assert(carved_from(g0, g0));
            assert forall|i: int|
                0 <= i < self.visited@.len() implies cell_reachable(
                self.maze@,
                cell_of(self.visited@[0]),
                cell_of(#[trigger] self.visited@[i]),
            ) by {
                let idx = choose|idx: int| 0 <= idx < ns.len() && same_pos(ns[idx], node);
                assert(cell_open(self.maze@, cell_of(ns[idx])));
                assert(cell_of(ns[idx]) == cell_of(node));
                if v0.len() == 0 {
                    assert(self.visited@[i] == node && self.visited@[0] == node);
                    lemma_reachable_refl(self.maze@, cell_of(node));
                } else {
                    assert(self.visited@[0] == v0[0]);
                    if i < v0.len() {
                        assert(self.visited@[i] == v0[i]);
                        assert(cell_reachable(g0, cell_of(v0[0]), cell_of(v0[i])));
                    } else {
                        assert(self.visited@[i] == node);
                    }
                }
            }
        }

        let mut neighbors = self.nodes.find_gen_walkable(node.clone());
        proof {
            lemma_gen_walkable_elems(ns, node);
        }
        let ghost pre = neighbors@;
        shuffle_nodes(&mut neighbors);
        proof {
            lemma_perm_elems(pre, neighbors@);
            assert forall|t: int|
                0 <= t < neighbors@.len() implies ns.contains(#[trigger] neighbors@[t])
                && gen_neighbor_of(node, neighbors@[t]) by {
                let idx = choose|idx: int| 0 <= idx < pre.len() && pre[idx] == neighbors@[t];
            }
        }

        let mut k: usize = 0;
        while k < neighbors.len()
            invariant
                self.wf_gen(),
                self.nodes.nodes@ == ns,
                self.nodes == old(self).nodes,
                self.debug == old(self).debug,
                k <= neighbors@.len(),
                forall|t: int|
                    0 <= t < neighbors@.len() ==> ns.contains(#[trigger] neighbors@[t])
                        && gen_neighbor_of(node, neighbors@[t]),
                v0.push(node).is_prefix_of(self.visited@),
                carved_from(g0, self.maze@),
                gen_closed_from(ns, self.visited@, v0.len() as int + 1),
                forall|t: int| 0 <= t < k ==> contains_pos(self.visited@, #[trigger] neighbors@[t]),
                changed_cells_touched(g0, self.maze@, self.visited@),
            decreases neighbors@.len() - k,
        {
            let neighbor = neighbors[k].clone();
            if !vec_contains_pos(&self.visited, &neighbor) {
                proof {
                    let idx = choose|idx: int| 0 <= idx < ns.len() && ns[idx] == neighbor;
                    assert(node_in_grid(neighbor, self.maze@));
                    let nidx = choose|nidx: int| 0 <= nidx < ns.len() && same_pos(ns[nidx], node);
                    assert(node_in_grid(ns[nidx], self.maze@));
                }
                let wx = if neighbor.x > node.x {
                    node.x + 1
                } else if neighbor.x < node.x {
                    node.x - 1
                } else {
                    node.x
                };
                let wy = if neighbor.y > node.y {
                    node.y + 1
                } else if neighbor.y < node.y {
                    node.y - 1
                } else {
                    node.y
                };
                let ghost gb = self.maze@;
                self.maze[wx as usize][wy as usize] = 0;
                proof {
                    assert(same_dims(gb, self.maze@)) by {
                        assert forall|i: int|
                            0 <= i < gb.len() implies (#[trigger] gb[i])@.len() == (
                            #[trigger] self.maze@[i])@.len() by {
                            if i != wx as int {
                                assert(self.maze@[i] == gb[i]);
                            }
                        }
                    }
                    assert(carved_from(gb, self.maze@)) by {
                        assert forall|i: int, j: int|
                            0 <= i < gb.len() && 0 <= j < gb[i]@.len() implies ((
                            #[trigger] self.maze@[i]@[j]) == gb[i]@[j] || self.maze@[i]@[j]
                            == 0) by {
                            if i != wx as int {
                                assert(self.maze@[i] == gb[i]);
                            }
                        }
                    }
                    lemma_carved_trans(g0, gb, self.maze@);
                    assert(grid_rect(self.maze@)) by {
                        assert forall|i: int|
                            0 <= i < self.maze@.len() implies (#[trigger] self.maze@[i])@.len()
                            == grid_cols(self.maze@) by {
                            assert(gb[i]@.len() == grid_cols(gb));
                        }
                    }
                    assert forall|t: int|
                        0 <= t < ns.len() implies node_in_grid(#[trigger] ns[t], self.maze@)
                        && cell_open(self.maze@, cell_of(ns[t])) by {
                        assert(node_in_grid(ns[t], gb) && cell_open(gb, cell_of(ns[t])));
                        assert(gb[ns[t].x as int]@.len() == self.maze@[ns[t].x as int]@.len());
                        assert(self.maze@[ns[t].x as int]@[ns[t].y as int] == gb[ns[t].x as int]@[ns[t].y as int]
                            || self.maze@[ns[t].x as int]@[ns[t].y as int] == 0);
                    }
                    assert forall|i: int|
                        0 <= i < self.visited@.len() implies cell_reachable(
                        self.maze@,
                        cell_of(self.visited@[0]),
                        cell_of(#[trigger] self.visited@[i]),
                    ) by {
                        lemma_carve_keeps_reachable(
                            gb,
                            self.maze@,
                            cell_of(self.visited@[0]),
                            cell_of(self.visited@[i]),
                        );
                    }
                    lemma_unique_pos_subset_len(self.visited@, ns);
                    assert(ns.contains(neighbor));
                    let idx = choose|idx: int| 0 <= idx < ns.len() && ns[idx] == neighbor;
                    assert(same_pos(ns[idx], neighbor));
                    assert(contains_pos(ns, neighbor));
                    // the freshly carved wall links `node`'s cell to `neighbor`'s
                    let vv = self.visited@;
                    assert(vv[v0.len() as int] == node) by {
                        assert(v0.push(node) =~= vv.subrange(0, v0.len() as int + 1));
                        assert(vv.subrange(0, v0.len() as int + 1)[v0.len() as int] == vv[v0.len() as int]);
                    }
                    assert(cell_reachable(self.maze@, cell_of(vv[0]), cell_of(node)));
                    assert(self.maze@[wx as int]@[wy as int] == 0);
                    assert(cell_open(self.maze@, (wx as int, wy as int)));
                    assert(cell_adjacent(cell_of(node), (wx as int, wy as int)));
                    assert(cell_adjacent((wx as int, wy as int), cell_of(neighbor)));
                    lemma_reachable_step(
                        self.maze@,
                        cell_of(vv[0]),
                        cell_of(node),
                        (wx as int, wy as int),
                    );
                    assert(cell_open(self.maze@, cell_of(ns[idx])));
                    assert(cell_of(ns[idx]) == cell_of(neighbor));
                    lemma_reachable_step(
                        self.maze@,
                        cell_of(vv[0]),
                        (wx as int, wy as int),
                        cell_of(neighbor),
                    );
                    assert forall|i: int, j: int|
                        0 <= i < g0.len() && 0 <= j < g0[i]@.len() && (#[trigger] self.maze@[i]@[j])
                            != g0[i]@[j] implies (exists|t: int|
                        0 <= t < vv.len() && cell_adjacent(
                            cell_of(#[trigger] vv[t]),
                            (i, j),
                        )) by {
                        if i == wx as int && j == wy as int {
                            assert(cell_adjacent(cell_of(vv[v0.len() as int]), (i, j)));
                        } else {
                            if i != wx as int {
                                assert(self.maze@[i] == gb[i]);
                            }
                            assert(self.maze@[i]@[j] == gb[i]@[j]);
                            assert(gb[i]@[j] != g0[i]@[j]);
                        }
                    }
                }
                let ghost vmid = self.visited@;
                let ghost gmid = self.maze@;
                self.randomized_dfs(neighbor);
                proof {
                    lemma_carved_trans(g0, gmid, self.maze@);
                    lemma_prefix_trans(v0.push(node), vmid, self.visited@);
                    lemma_changed_trans(g0, gmid, self.maze@, vmid, self.visited@);
                    let vafter = self.visited@;
                    assert forall|i: int, m: Node|
                        v0.len() as int + 1 <= i < vafter.len() && ns.contains(m)
                            && #[trigger] gen_neighbor_of(vafter[i], m) implies contains_pos(
                        vafter,
                        m,
                    ) by {
                        if i < vmid.len() {
                            assert(vmid[i] == vafter.subrange(0, vmid.len() as int)[i]);
                            assert(vafter[i] == vmid[i]);
                            assert(gen_neighbor_of(vmid[i], m));
                            assert(contains_pos(vmid, m));
                            lemma_contains_pos_prefix(vmid, vafter, m);
                        }
                    }
                    assert forall|t: int|
                        0 <= t < k + 1 implies contains_pos(
                        self.visited@,
                        #[trigger] neighbors@[t],
                    ) by {
                        if t < k {
                            lemma_contains_pos_prefix(vmid, vafter, neighbors@[t]);
                        }
                    }
                }
            } else {
                proof {
                    assert(contains_pos(self.visited@, neighbors@[k as int]));
                }
            }
            k += 1;
        }
        proof {
            assert(v0.push(node) =~= self.visited@.subrange(0, v0.len() as int + 1));
            assert(self.visited@.subrange(0, v0.len() as int + 1)[v0.len() as int] == self.visited@[v0.len() as int]);
            assert(self.visited@[v0.len() as int] == node);
            assert(same_pos(self.visited@[v0.len() as int], node));
            assert(contains_pos(self.visited@, node));
            assert(v0.is_prefix_of(v0.push(node))) by {
                assert(v0.push(node).subrange(0, v0.len() as int) =~= v0);
            }
            lemma_prefix_trans(v0, v0.push(node), self.visited@);
            let vfin = self.visited@;
            assert forall|i: int, m: Node|
                v0.len() as int <= i < vfin.len() && ns.contains(m)
                    && #[trigger] gen_neighbor_of(vfin[i], m) implies contains_pos(vfin, m) by {
                if i == v0.len() as int {
                    assert(vfin[i] == node);
                    lemma_gen_walkable_complete(ns, node, m);
                    assert(pre.contains(m));
                    pre.to_multiset_ensures();
                    neighbors@.to_multiset_ensures();
                    assert(pre.to_multiset().count(m) > 0);
                    assert(neighbors@.contains(m));
                    let t = choose|t: int| 0 <= t < neighbors@.len() && neighbors@[t] == m;
                    assert(contains_pos(vfin, neighbors@[t]));
                }
            }
        }
    }
}

/// Which marker `DefaultMaze` writes at cell `(i, j)` of an `h` by `w`
/// grid: the target corner, then the start corner, then the lattice of
/// free cells at even/even coordinates, and walls everywhere else.
pub open spec fn default_maze_cell(h: int, w: int, i: int, j: int) -> i32 {
    if i == h - 1 && j == w - 1 {
        2i32
    } else if i == 0 && j == 0 {
        -1i32
    } else if i % 2 == 0 && j % 2 == 0 {
        0i32
    } else {
        1i32
    }
}

/// The stock search terrain: a wall-grid blank for the maze generator,
/// with free cells on the even/even lattice, the start marker in the
/// top-left corner and the target marker in the bottom-right one.
pub struct DefaultMaze {
    pub maze: Vec<Vec<i32>>,
}

impl DefaultMaze {
    /// An `height` by `width'` grid (the width rounded to the next odd
    /// count) filled as `default_maze_cell` says.
    #[verifier::loop_isolation(false)]
    pub fn new(height: u32, width: u32) -> (r: DefaultMaze)
        requires
            1 <= height <= 0x7fff_ffff,
            1 <= width <= 0x7fff_fffe,
        ensures
            r.maze@.len() == height,
            grid_rect(r.maze@),
            grid_cols(r.maze@) == width - width % 2 + 1,
            forall|i: int, j: int|
                0 <= i < r.maze@.len() && 0 <= j < r.maze@[i]@.len() ==> (#[trigger] r.maze@[i]@[j])
                    == default_maze_cell(
                    height as int,
                    width as int - width as int % 2 + 1,
                    i,
                    j,
                ),
    {
        let width = width - (width % 2) + 1;
        let ghost h = height as int;
        let ghost w = width as int;

        let mut maze: Vec<Vec<i32>> = Vec::new();
        let mut i: u32 = 0;
        while i < height
            invariant
                i <= height,
                maze@.len() == i,
                w == width as int,
                forall|a: int| 0 <= a < i ==> (#[trigger] maze@[a])@.len() == w,
                forall|a: int, b: int|
                    0 <= a < i && 0 <= b < w ==> (#[trigger] maze@[a]@[b]) == (if a % 2 == 0 && b % 2
                        == 0 {
                        0i32
                    } else {
                        1i32
                    }),
            decreases height - i,
        {
            let mut row: Vec<i32> = Vec::new();
            let mut j: u32 = 0;
            while j < width
                invariant
                    j <= width,
                    row@.len() == j,
                    forall|b: int|
                        0 <= b < j ==> (#[trigger] row@[b]) == (if i as int % 2 == 0 && b % 2 == 0 {
                            0i32
                        } else {
                            1i32
                        }),
                decreases width - j,
            {
                if i % 2 == 0 && j % 2 == 0 {
                    row.push(0);
                } else {
                    row.push(1);
                }
                j += 1;
            }
            maze.push(row);
            i += 1;
        }

        maze[0][0] = -1;
        let last_row = height as usize - 1;
        let last_col = width as usize - 1;
        maze[last_row][last_col] = 2;

        proof {
            assert forall|a: int, b: int|
                0 <= a < maze@.len() && 0 <= b < maze@[a]@.len() implies (#[trigger] maze@[a]@[b])
                == default_maze_cell(h, w, a, b) by {
                assert((h - 1) % 2 == 0 ==> default_maze_cell(h, w, h - 1, w - 1) == 2);
            }
            assert(grid_rect(maze@));
        }

        DefaultMaze { maze }
    }
}

} // verus!
