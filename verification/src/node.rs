use vstd::prelude::*;
use crate::heuristic::{CostFunction, Heuristic};

verus! {

/// One search-space cell: a 3D position (2D grids use `z == 0`), the cost
/// bookkeeping fields `g` (best known cost from the start), `h` (heuristic
/// estimate to the target) and `f == g + h`, the intrinsic terrain penalty
/// `core_cost` paid on entering the cell, and the back-link to the node it
/// was reached from.  Two nodes denote the same location exactly when all
/// three coordinates are equal; the cost fields never take part in identity.
pub struct Node {
    pub x: i32,
    pub y: i32,
    pub z: i32,

    pub f: u64,
    pub g: u64,
    pub h: u64,

    pub core_cost: u64,

    pub parent: Option<Box<Node>>,
}

/// Position-only identity: all three coordinates equal.
pub open spec fn same_pos(a: Node, b: Node) -> bool {
    a.x == b.x && a.y == b.y && a.z == b.z
}

/// |a - b| over mathematical integers.
pub open spec fn abs_diff(a: int, b: int) -> int {
    if a >= b {
        a - b
    } else {
        b - a
    }
}

/// `b` is a walkable neighbor of `a`: a different location whose Manhattan
/// distance from `a` is at most 1 (axis-aligned adjacency, no diagonals).
pub open spec fn neighbor_of(a: Node, b: Node) -> bool {
    &&& !same_pos(a, b)
    &&& abs_diff(a.x as int, b.x as int) + abs_diff(a.y as int, b.y as int) + abs_diff(
        a.z as int,
        b.z as int,
    ) <= 1
}

/// |a - b| for two `i32` values, exact in `i64`.
pub fn abs_diff_i32(a: i32, b: i32) -> (r: i64)
    ensures
        r == abs_diff(a as int, b as int),
{
    if a >= b {
        a as i64 - b as i64
    } else {
        b as i64 - a as i64
    }
}

pub trait Validity {
    /// What `is_valid` decides, as a predicate.
    spec fn valid_spec(&self, other_node: Node) -> bool;

    fn is_valid(&self, other_node: Node) -> (r: bool)
        ensures
            r == self.valid_spec(other_node),
    ;
}

impl Validity for Node {
    open spec fn valid_spec(&self, other_node: Node) -> bool {
        neighbor_of(other_node, *self)
    }

    /// `self` is a walkable neighbor of `other_node`.
    fn is_valid(&self, other_node: Node) -> (r: bool) {
        let dx = abs_diff_i32(other_node.x, self.x);
        let dy = abs_diff_i32(other_node.y, self.y);
        let dz = abs_diff_i32(other_node.z, self.z);
        !self.equals(&other_node) && dx + dy + dz <= 1
    }
}

impl Clone for Node {
    /// Deep copy: the clone is equal to the original, parent chain included.
    fn clone(&self) -> (r: Node)
        ensures
            r == *self,
        decreases *self,
    {
        Node {
            x: self.x,
            y: self.y,
            z: self.z,
            f: self.f,
            g: self.g,
            h: self.h,
            core_cost: self.core_cost,
            parent: match &self.parent {
                Some(p) => Some(Box::new((**p).clone())),
                None => None,
            },
        }
    }
}

impl Node {
    /// A fresh node at the given position with all cost fields zero.
    pub fn new(x: i32, y: i32, z: i32, core_cost: u64, parent: Option<Box<Node>>) -> (r: Node)
        ensures
            r == (Node { x, y, z, f: 0u64, g: 0u64, h: 0u64, core_cost, parent }),
    {
        let node = Node { x, y, z, f: 0, g: 0, h: 0, core_cost, parent };

        node
    }

    /// A copy of this node with the given parent link instead of its own.
    pub fn off_of(&mut self, parent: Option<Box<Node>>) -> (r: Node)
        ensures
            *final(self) == *old(self),
            r == (Node { parent, ..*old(self) }),
    {
        Node {
            x: self.x,
            y: self.y,
            z: self.z,
            f: self.f,
            g: self.g,
            h: self.h,
            core_cost: self.core_cost,
            parent,
        }
    }

    /// Position-only equality; the cost fields and the parent are ignored.
    pub fn equals(&self, other_node: &Node) -> (r: bool)
        ensures
            r == same_pos(*self, *other_node),
    {
        self.x == other_node.x && self.y == other_node.y && self.z == other_node.z
    }

    /// Recompute `g`, `h` and `f` for the node's current parent link:
    /// a parentless node is a root with `g == 0`; otherwise `g` is the
    /// parent's `g` plus the step cost plus this cell's `core_cost`.
    /// Must run whenever the parent assignment changes, so `f` is never
    /// stale when it is used for ordering.
    pub fn update<H: Heuristic, C: CostFunction>(
        &mut self,
        target: &Node,
        heuristic: &H,
        cost_function: &C,
    )
        ensures
            *final(self) == updated_node(*old(self), *target, *heuristic, *cost_function),
    {
        let g1: u64 = match &self.parent {
            Some(p) => {
                let step = cost_function.cost(p, self);
                sat_add3(p.g, step, self.core_cost)
            },
            None => 0,
        };
        self.g = g1;
        self.h = heuristic.distance(self, target);
        self.f = sat_add(self.g, self.h);
    }
}

/// `a + b`, stuck at `u64::MAX` instead of wrapping.
pub open spec fn sat_add_spec(a: u64, b: u64) -> u64 {
    if a + b > u64::MAX {
        u64::MAX
    } else {
        (a + b) as u64
    }
}

/// `a + b + c`, stuck at `u64::MAX` instead of wrapping.
pub open spec fn sat_add3_spec(a: u64, b: u64, c: u64) -> u64 {
    if a + b + c > u64::MAX {
        u64::MAX
    } else {
        (a + b + c) as u64
    }
}

pub fn sat_add(a: u64, b: u64) -> (r: u64)
    ensures
        r == sat_add_spec(a, b),
{
    let s = a as u128 + b as u128;
    if s > u64::MAX as u128 {
        u64::MAX
    } else {
        s as u64
    }
}

pub fn sat_add3(a: u64, b: u64, c: u64) -> (r: u64)
    ensures
        r == sat_add3_spec(a, b, c),
{
    let s = a as u128 + b as u128 + c as u128;
    if s > u64::MAX as u128 {
        u64::MAX
    } else {
        s as u64
    }
}

/// The node `update` produces: `g` from the parent link, then `h` from the
/// heuristic, then `f == g + h`, each saturating at `u64::MAX`.
pub open spec fn updated_node<H: Heuristic, C: CostFunction>(
    n: Node,
    target: Node,
    heuristic: H,
    cost_function: C,
) -> Node {
    let g1 = match n.parent {
        Some(p) => sat_add3_spec(p.g, cost_function.spec_cost(*p, n), n.core_cost),
        None => 0u64,
    };
    let n1 = Node { g: g1, ..n };
    let h1 = heuristic.spec_distance(n1, target);
    let n2 = Node { h: h1, ..n1 };
    Node { f: sat_add_spec(n2.g, n2.h), ..n2 }
}

/// Every node of `s` run through `update` against the same target.
pub open spec fn updated_all<H: Heuristic, C: CostFunction>(
    s: Seq<Node>,
    target: Node,
    heuristic: H,
    cost_function: C,
) -> Seq<Node> {
    s.map_values(|n: Node| updated_node(n, target, heuristic, cost_function))
}

/// Some node of `s` sits at the same position as `n`.
pub open spec fn contains_pos(s: Seq<Node>, n: Node) -> bool {
    exists|j: int| 0 <= j < s.len() && same_pos(s[j], n)
}

/// Index of the first node of `s` at `n`'s position, scanning from `i`;
/// `s.len()` when there is none.
pub open spec fn first_pos_from(s: Seq<Node>, n: Node, i: int) -> int
    decreases s.len() - i,
{
    if i < 0 || i >= s.len() {
        s.len() as int
    } else if same_pos(s[i], n) {
        i
    } else {
        first_pos_from(s, n, i + 1)
    }
}

/// Index of the first node of `s` at `n`'s position; `s.len()` if none.
pub open spec fn first_pos(s: Seq<Node>, n: Node) -> int {
    first_pos_from(s, n, 0)
}

pub proof fn lemma_first_pos_from(s: Seq<Node>, n: Node, i: int)
    requires
        0 <= i <= s.len(),
    ensures
        i <= first_pos_from(s, n, i) <= s.len(),
        first_pos_from(s, n, i) < s.len() ==> same_pos(s[first_pos_from(s, n, i)], n),
        forall|j: int| i <= j < first_pos_from(s, n, i) ==> !same_pos(s[j], n),
        first_pos_from(s, n, i) == s.len() ==> (forall|j: int|
            i <= j < s.len() ==> !same_pos(s[j], n)),
    decreases s.len() - i,
{
    if i < s.len() && !same_pos(s[i], n) {
        lemma_first_pos_from(s, n, i + 1);
    }
}

/// The first match found is a match, everything before it is not, and a
/// match exists exactly when the result is a real index.
pub proof fn lemma_first_pos(s: Seq<Node>, n: Node)
    ensures
        0 <= first_pos(s, n) <= s.len(),
        first_pos(s, n) < s.len() ==> same_pos(s[first_pos(s, n)], n),
        forall|j: int| 0 <= j < first_pos(s, n) ==> !same_pos(s[j], n),
        contains_pos(s, n) <==> first_pos(s, n) < s.len(),
{
    lemma_first_pos_from(s, n, 0);
}

/// Index of the open-set entry `pick_lowest_f` settles on: the scan keeps
/// `best` and moves it only on a strictly smaller `f`, so ties go to the
/// earliest entry.
pub open spec fn min_from(s: Seq<Node>, i: int, best: int) -> int
    decreases s.len() - i,
{
    if i < 0 || i >= s.len() {
        best
    } else if s[i].f < s[best].f {
        min_from(s, i + 1, i)
    } else {
        min_from(s, i + 1, best)
    }
}

/// Index of the first node with minimal `f` in a non-empty `s`.
pub open spec fn min_f_index(s: Seq<Node>) -> int {
    min_from(s, 1, 0)
}

pub proof fn lemma_min_from(s: Seq<Node>, i: int, best: int)
    requires
        0 <= best < s.len(),
        0 <= i <= s.len(),
    ensures
        0 <= min_from(s, i, best) < s.len(),
        s[min_from(s, i, best)].f <= s[best].f,
        forall|j: int| i <= j < s.len() ==> s[min_from(s, i, best)].f <= #[trigger] s[j].f,
    decreases s.len() - i,
{
    if i < s.len() {
        if s[i].f < s[best].f {
            lemma_min_from(s, i + 1, i);
        } else {
            lemma_min_from(s, i + 1, best);
        }
    }
}

/// The settled-on entry carries the minimal `f` of the whole open set.
pub proof fn lemma_min_f_index(s: Seq<Node>)
    requires
        s.len() > 0,
    ensures
        0 <= min_f_index(s) < s.len(),
        forall|j: int| 0 <= j < s.len() ==> s[min_f_index(s)].f <= #[trigger] s[j].f,
{
    lemma_min_from(s, 1, 0);
}

/// The walkable neighbors of `node` among `s`, in encounter order.
pub open spec fn walkable_from(s: Seq<Node>, node: Node) -> Seq<Node>
    decreases s.len(),
{
    if s.len() == 0 {
        Seq::empty()
    } else {
        let rest = walkable_from(s.drop_last(), node);
        if neighbor_of(node, s.last()) {
            rest.push(s.last())
        } else {
            rest
        }
    }
}

/// Maze-carving adjacency: same row two columns apart, or same column two
/// rows apart (the cell one step past a shared wall cell).
pub open spec fn gen_neighbor_of(a: Node, b: Node) -> bool {
    &&& !same_pos(b, a)
    &&& ((abs_diff(b.x as int, a.x as int) == 2 && b.y == a.y) || (abs_diff(
        b.y as int,
        a.y as int,
    ) == 2 && b.x == a.x))
}

/// The carving neighbors of `node` among `s`, in encounter order.
pub open spec fn gen_walkable_from(s: Seq<Node>, node: Node) -> Seq<Node>
    decreases s.len(),
{
    if s.len() == 0 {
        Seq::empty()
    } else {
        let rest = gen_walkable_from(s.drop_last(), node);
        if gen_neighbor_of(node, s.last()) {
            rest.push(s.last())
        } else {
            rest
        }
    }
}

/// Total path cost of a finished search: the accumulated `g` of the
/// returned path head.
pub fn get_path_cost(path: Option<Box<Node>>) -> (r: u64)
    requires
        path is Some,
    ensures
        r == path.unwrap().g,
{
    path.unwrap().g
}

/// A set of search nodes in insertion order.  Membership and lookup go by
/// position only, so re-discovering a cell never adds a duplicate entry.
pub struct NodeList {
    pub nodes: Vec<Node>,
}

impl NodeList {
    pub fn new() -> (r: NodeList)
        ensures
            r.nodes@ == Seq::<Node>::empty(),
    {
        NodeList { nodes: Vec::new() }
    }

    pub fn from_vec(nodes: Vec<Node>) -> (r: NodeList)
        ensures
            r.nodes == nodes,
    {
        NodeList { nodes }
    }

    pub fn push(&mut self, node: Option<Box<Node>>)
        requires
            node is Some,
        ensures
            final(self).nodes@ == old(self).nodes@.push(*node.unwrap()),
    {
        self.nodes.push(*node.unwrap());
    }

    /// All walkable neighbors of `node` in this list, in list order.
    pub fn find_walkable(&self, node: Node) -> (r: Vec<Node>)
        ensures
            r@ == walkable_from(self.nodes@, node),
    {
        let mut walkable_nodes: Vec<Node> = Vec::new();
        let mut i: usize = 0;
        while i < self.nodes.len()
            invariant
                i <= self.nodes@.len(),
                walkable_nodes@ == walkable_from(self.nodes@.take(i as int), node),
            decreases self.nodes@.len() - i,
        {
            proof {
                assert(self.nodes@.take(i + 1).drop_last() =~= self.nodes@.take(i as int));
                assert(self.nodes@.take(i + 1).last() == self.nodes@[i as int]);
            }
            if self.nodes[i].is_valid(node.clone()) {
                walkable_nodes.push(self.nodes[i].clone());
            }
            i += 1;
        }
        proof {
            assert(self.nodes@.take(self.nodes@.len() as int) =~= self.nodes@);
        }
        walkable_nodes
    }

    /// All carving neighbors of `node` in this list, in list order.
    pub fn find_gen_walkable(&self, node: Node) -> (r: Vec<Node>)
        ensures
            r@ == gen_walkable_from(self.nodes@, node),
    {
        let mut walkable_nodes: Vec<Node> = Vec::new();
        let mut i: usize = 0;
        while i < self.nodes.len()
            invariant
                i <= self.nodes@.len(),
                walkable_nodes@ == gen_walkable_from(self.nodes@.take(i as int), node),
            decreases self.nodes@.len() - i,
        {
            proof {
                assert(self.nodes@.take(i + 1).drop_last() =~= self.nodes@.take(i as int));
                assert(self.nodes@.take(i + 1).last() == self.nodes@[i as int]);
            }
            let n = &self.nodes[i];
            let dx = abs_diff_i32(n.x, node.x);
            let dy = abs_diff_i32(n.y, node.y);
            if !n.equals(&node) && ((dx == 2 && n.y == node.y) || (dy == 2 && n.x == node.x)) {
                walkable_nodes.push(self.nodes[i].clone());
            }
            i += 1;
        }
        proof {
            assert(self.nodes@.take(self.nodes@.len() as int) =~= self.nodes@);
        }
        walkable_nodes
    }

    /// Run `update` on every node against the same target.
    pub fn update_nodes<H: Heuristic, C: CostFunction>(
        &mut self,
        target_node: Node,
        heuristic: &H,
        cost_function: &C,
    )
        ensures
            final(self).nodes@ == updated_all(
                old(self).nodes@,
                target_node,
                *heuristic,
                *cost_function,
            ),
    {
        let mut i: usize = 0;
        while i < self.nodes.len()
            invariant
                i <= self.nodes@.len(),
                self.nodes@.len() == old(self).nodes@.len(),
                forall|j: int| i <= j < self.nodes@.len() ==> self.nodes@[j] == old(self).nodes@[j],
                forall|j: int|
                    0 <= j < i ==> self.nodes@[j] == updated_node(
                        old(self).nodes@[j],
                        target_node,
                        *heuristic,
                        *cost_function,
                    ),
            decreases self.nodes@.len() - i,
        {
            self.nodes[i].update(&target_node, heuristic, cost_function);
            i += 1;
        }
        proof {
            assert(self.nodes@ =~= updated_all(
                old(self).nodes@,
                target_node,
                *heuristic,
                *cost_function,
            ));
        }
    }

    /// Refresh every node's costs against the target, then hand back a copy
    /// of the first entry with the lowest `f`; `None` exactly when the list
    /// is empty (the no-path signal).
    pub fn get_min_cost_node_from_node<H: Heuristic, C: CostFunction>(
        &mut self,
        target_node: Node,
        heuristic: &H,
        cost_function: &C,
    ) -> (r: Option<Box<Node>>)
        ensures
            final(self).nodes@ == updated_all(
                old(self).nodes@,
                target_node,
                *heuristic,
                *cost_function,
            ),
            old(self).nodes@.len() == 0 ==> r is None,
            old(self).nodes@.len() > 0 ==> r == Some(
                Box::new(final(self).nodes@[min_f_index(final(self).nodes@)]),
            ),
    {
        if self.nodes.len() == 0 {
            return None;
        }
        self.update_nodes(target_node, heuristic, cost_function);

        let ghost s = self.nodes@;
        let mut min_idx: usize = 0;
        let mut i: usize = 1;
        while i < self.nodes.len()
            invariant
                self.nodes@ == s,
                0 < i <= s.len(),
                0 <= min_idx < i,
                min_f_index(s) == min_from(s, i as int, min_idx as int),
            decreases s.len() - i,
        {
            if self.nodes[i].f < self.nodes[min_idx].f {
                min_idx = i;
            }
            i += 1;
        }
        Some(Box::new(self.nodes[min_idx].clone()))
    }

    /// Whether some entry sits at `node`'s position.
    pub fn contains(&self, node: &Node) -> (r: bool)
        ensures
            r == contains_pos(self.nodes@, *node),
    {
        let mut i: usize = 0;
        while i < self.nodes.len()
            invariant
                i <= self.nodes@.len(),
                forall|j: int| 0 <= j < i ==> !same_pos(self.nodes@[j], *node),
            decreases self.nodes@.len() - i,
        {
            if self.nodes[i].equals(node) {
                assert(contains_pos(self.nodes@, *node));
                return true;
            }
            i += 1;
        }
        false
    }

    /// Index of the first entry at `node`'s position, if any.
    pub fn get_position(&self, node: &Node) -> (r: Option<usize>)
        ensures
            r is Some <==> first_pos(self.nodes@, *node) < self.nodes@.len(),
            r is Some ==> r.unwrap() as int == first_pos(self.nodes@, *node),
    {
        let ghost s = self.nodes@;
        let mut i: usize = 0;
        while i < self.nodes.len()
            invariant
                0 <= i <= s.len(),
                self.nodes@ == s,
                first_pos(s, *node) == first_pos_from(s, *node, i as int),
            decreases s.len() - i,
        {
            if self.nodes[i].equals(node) {
                return Some(i);
            }
            i += 1;
        }
        None
    }
}

} // verus!
