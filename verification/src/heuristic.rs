use vstd::prelude::*;
use crate::node::{Node, abs_diff, abs_diff_i32, same_pos};

verus! {

/// Floor of the square root of `n`.
pub open spec fn isqrt_spec(n: nat) -> nat
    decreases n,
{
    if n == 0 {
        0
    } else {
        let r = isqrt_spec((n - 1) as nat);
        if (r + 1) * (r + 1) <= n {
            r + 1
        } else {
            r
        }
    }
}

pub proof fn lemma_isqrt_bounds(n: nat)
    ensures
        isqrt_spec(n) * isqrt_spec(n) <= n,
        n < (isqrt_spec(n) + 1) * (isqrt_spec(n) + 1),
    decreases n,
{
    if n == 0 {
        assert(isqrt_spec(0) == 0);
        assert(0 < (0 + 1) * (0 + 1)) by (nonlinear_arith);
    } else {
        lemma_isqrt_bounds((n - 1) as nat);
        let r = isqrt_spec((n - 1) as nat);
        if (r + 1) * (r + 1) <= n {
            assert(isqrt_spec(n) == r + 1);
            assert(n == (r + 1) * (r + 1));
            assert((r + 1) * (r + 1) < (r + 1 + 1) * (r + 1 + 1)) by (nonlinear_arith);
        } else {
            assert(isqrt_spec(n) == r);
        }
    }
}

/// If `r * r <= n < m * m` then `r < m`.
pub proof fn lemma_root_below(n: nat, r: nat, m: nat)
    requires
        r * r <= n,
        n < m * m,
    ensures
        r < m,
{
    if m <= r {
        assert(m * m <= r * r) by (nonlinear_arith)
            requires
                m <= r,
        ;
    }
}

/// `isqrt_spec` is the unique `r` with `r * r <= n < (r + 1) * (r + 1)`.
pub proof fn lemma_isqrt_unique(n: nat, r: nat)
    requires
        r * r <= n,
        n < (r + 1) * (r + 1),
    ensures
        r == isqrt_spec(n),
{
    lemma_isqrt_bounds(n);
    let s = isqrt_spec(n);
    if r < s {
        lemma_root_below(n, s, r + 1);
        assert(false);
    }
    if s < r {
        lemma_root_below(n, r, s + 1);
        assert(false);
    }
}

/// Floor integer square root by bisection.
pub fn isqrt_u128(n: u128) -> (r: u128)
    ensures
        r as nat == isqrt_spec(n as nat),
        r * r <= n < (r + 1) * (r + 1),
{
    let mut lo: u128 = 0;
    let mut hi: u128 = 0x1_0000_0000_0000_0000;
    assert((0x1_0000_0000_0000_0000u128 as int) * (0x1_0000_0000_0000_0000u128 as int) > n as int);
    while lo + 1 < hi
        invariant
            lo < hi,
            hi <= 0x1_0000_0000_0000_0000u128,
            (lo as int) * (lo as int) <= n as int,
            (hi as int) * (hi as int) > n as int,
        decreases hi - lo,
    {
        let mid = lo + (hi - lo) / 2;
        assert((mid as int) * (mid as int) < (0x1_0000_0000_0000_0000u128 as int) * (
        0x1_0000_0000_0000_0000u128 as int)) by (nonlinear_arith)
            requires
                0 <= mid < 0x1_0000_0000_0000_0000u128,
        ;
        if mid * mid <= n {
            lo = mid;
        } else {
            hi = mid;
        }
    }
    proof {
        lemma_isqrt_unique(n as nat, lo as nat);
    }
    lo
}

/// Coordinate deltas between two nodes, as mathematical integers.
pub open spec fn delta_x(a: Node, b: Node) -> int {
    abs_diff(a.x as int, b.x as int)
}

pub open spec fn delta_y(a: Node, b: Node) -> int {
    abs_diff(a.y as int, b.y as int)
}

pub open spec fn delta_z(a: Node, b: Node) -> int {
    abs_diff(a.z as int, b.z as int)
}

/// Squared straight-line distance between the two positions.
pub open spec fn euclid_sq(a: Node, b: Node) -> int {
    delta_x(a, b) * delta_x(a, b) + delta_y(a, b) * delta_y(a, b) + delta_z(a, b) * delta_z(a, b)
}

/// Straight-line distance, rounded down to an integer.
pub open spec fn euclidean_spec(a: Node, b: Node) -> u64 {
    isqrt_spec(euclid_sq(a, b) as nat) as u64
}

/// L1 distance between the two positions.
pub open spec fn manhattan_spec(a: Node, b: Node) -> u64 {
    (delta_x(a, b) + delta_y(a, b) + delta_z(a, b)) as u64
}

pub open spec fn min3(a: int, b: int, c: int) -> int {
    if a <= b && a <= c {
        a
    } else if b <= c {
        b
    } else {
        c
    }
}

pub open spec fn max3(a: int, b: int, c: int) -> int {
    if a >= b && a >= c {
        a
    } else if b >= c {
        b
    } else {
        c
    }
}

/// Largest axis delta between the two positions.
pub open spec fn chebyshev_spec(a: Node, b: Node) -> u64 {
    max3(delta_x(a, b), delta_y(a, b), delta_z(a, b)) as u64
}

/// Diagonal-aware estimate: the smallest delta is paid at the 3D diagonal
/// rate `floor(sqrt(3) * min)`, the rest along an axis.
pub open spec fn octile_spec(a: Node, b: Node) -> u64 {
    let mn = min3(delta_x(a, b), delta_y(a, b), delta_z(a, b));
    let mx = max3(delta_x(a, b), delta_y(a, b), delta_z(a, b));
    (isqrt_spec((3 * mn * mn) as nat) + (mx - mn)) as u64
}

/// The larger of the L1 distance and the largest axis delta.
pub open spec fn diagonal_spec(a: Node, b: Node) -> u64 {
    let l1 = delta_x(a, b) + delta_y(a, b) + delta_z(a, b);
    let mx = max3(delta_x(a, b), delta_y(a, b), delta_z(a, b));
    if l1 >= mx {
        l1 as u64
    } else {
        mx as u64
    }
}

/// Step-cost strategy: the cost of moving from a cell to an adjacent cell.
/// The cost depends only on the two positions, never on the bookkeeping
/// fields; `lemma_cost_position_only` is the obligation that pins this down
/// for every implementation.
pub trait CostFunction {
    /// What `cost` returns, as a function of the two nodes.
    spec fn spec_cost(&self, node: Node, other_node: Node) -> u64;

    /// The step cost reads only the positions of the two nodes.
    proof fn lemma_cost_position_only(&self, a1: Node, b1: Node, a2: Node, b2: Node)
        requires
            same_pos(a1, a2),
            same_pos(b1, b2),
        ensures
            self.spec_cost(a1, b1) == self.spec_cost(a2, b2),
    ;

    fn cost(&self, node: &Node, other_node: &Node) -> (r: u64)
        ensures
            r == self.spec_cost(*node, *other_node),
    ;
}

/// Heuristic strategy: an estimate of the remaining cost to the target.
/// Pairing a heuristic with a step cost that it never overestimates is the
/// caller's responsibility.
pub trait Heuristic {
    /// What `distance` returns, as a function of the two nodes.
    spec fn spec_distance(&self, node: Node, other_node: Node) -> u64;

    fn distance(&self, node: &Node, other_node: &Node) -> (r: u64)
        ensures
            r == self.spec_distance(*node, *other_node),
    ;
}

/// Shared exec kernel: floor of the straight-line distance.
fn euclidean_exec(node: &Node, other: &Node) -> (r: u64)
    ensures
        r == euclidean_spec(*node, *other),
{
    let dx = abs_diff_i32(node.x, other.x) as u128;
    let dy = abs_diff_i32(node.y, other.y) as u128;
    let dz = abs_diff_i32(node.z, other.z) as u128;
    proof {
        assert(dx * dx < 0x1_0000_0000_0000_0000 && dy * dy < 0x1_0000_0000_0000_0000 && dz * dz
            < 0x1_0000_0000_0000_0000) by (nonlinear_arith)
            requires
                0 <= dx < 0x1_0000_0000,
                0 <= dy < 0x1_0000_0000,
                0 <= dz < 0x1_0000_0000,
        ;
    }
    let sq = dx * dx + dy * dy + dz * dz;
    let r = isqrt_u128(sq);
    proof {
        assert(0x2_0000_0000int * 0x2_0000_0000int == 0x4_0000_0000_0000_0000int) by (nonlinear_arith);
        lemma_root_below(sq as nat, r as nat, 0x2_0000_0000);
    }
    r as u64
}

pub struct EuclideanCost {}

impl CostFunction for EuclideanCost {
    open spec fn spec_cost(&self, node: Node, other_node: Node) -> u64 {
        euclidean_spec(node, other_node)
    }

    proof fn lemma_cost_position_only(&self, a1: Node, b1: Node, a2: Node, b2: Node) {
    }

    fn cost(&self, node: &Node, other_node: &Node) -> (r: u64) {
        euclidean_exec(node, other_node)
    }
}

pub struct ManhattanCost {}

impl CostFunction for ManhattanCost {
    open spec fn spec_cost(&self, node: Node, other_node: Node) -> u64 {
        manhattan_spec(node, other_node)
    }

    proof fn lemma_cost_position_only(&self, a1: Node, b1: Node, a2: Node, b2: Node) {
    }

    fn cost(&self, node: &Node, other_node: &Node) -> (r: u64) {
        let x = abs_diff_i32(node.x, other_node.x);
        let y = abs_diff_i32(node.y, other_node.y);
        let z = abs_diff_i32(node.z, other_node.z);
        (x + y + z) as u64
    }
}

/// A constant cost for every step.
pub struct StaticCost {
    pub cost: u64,
}

impl CostFunction for StaticCost {
    open spec fn spec_cost(&self, node: Node, other_node: Node) -> u64 {
        self.cost
    }

    proof fn lemma_cost_position_only(&self, a1: Node, b1: Node, a2: Node, b2: Node) {
    }

    fn cost(&self, node: &Node, other_node: &Node) -> (r: u64) {
        self.cost
    }
}

pub struct ManhattanDistance {}

impl Heuristic for ManhattanDistance {
    open spec fn spec_distance(&self, node: Node, other_node: Node) -> u64 {
        manhattan_spec(node, other_node)
    }

    fn distance(&self, node: &Node, target_node: &Node) -> (r: u64) {
        let x = abs_diff_i32(node.x, target_node.x);
        let y = abs_diff_i32(node.y, target_node.y);
        let z = abs_diff_i32(node.z, target_node.z);
        (x + y + z) as u64
    }
}

pub struct EuclideanDistance {}

impl Heuristic for EuclideanDistance {
    open spec fn spec_distance(&self, node: Node, other_node: Node) -> u64 {
        euclidean_spec(node, other_node)
    }

    fn distance(&self, node: &Node, target_node: &Node) -> (r: u64) {
        euclidean_exec(node, target_node)
    }
}

pub struct OctileDistance {}

impl Heuristic for OctileDistance {
    open spec fn spec_distance(&self, node: Node, other_node: Node) -> u64 {
        octile_spec(node, other_node)
    }

    fn distance(&self, node: &Node, target_node: &Node) -> (r: u64) {
        let x = abs_diff_i32(node.x, target_node.x);
        let y = abs_diff_i32(node.y, target_node.y);
        let z = abs_diff_i32(node.z, target_node.z);
        let mn = if x <= y && x <= z {
            x
        } else if y <= z {
            y
        } else {
            z
        };
        let mx = if x >= y && x >= z {
            x
        } else if y >= z {
            y
        } else {
            z
        };
        proof {
            assert(3 * (mn as int) * (mn as int) < 0x4_0000_0000_0000_0000) by (nonlinear_arith)
                requires
                    0 <= mn < 0x1_0000_0000,
            ;
        }
        let sq = 3 * (mn as u128) * (mn as u128);
        let r = isqrt_u128(sq);
        proof {
            assert(0x2_0000_0000int * 0x2_0000_0000int
                == 0x4_0000_0000_0000_0000int) by (nonlinear_arith);
            lemma_root_below(sq as nat, r as nat, 0x2_0000_0000);
        }
        r as u64 + (mx - mn) as u64
    }
}

pub struct ChebyshevDistance {}

impl Heuristic for ChebyshevDistance {
    open spec fn spec_distance(&self, node: Node, other_node: Node) -> u64 {
        chebyshev_spec(node, other_node)
    }

    fn distance(&self, node: &Node, target_node: &Node) -> (r: u64) {
        let x = abs_diff_i32(node.x, target_node.x);
        let y = abs_diff_i32(node.y, target_node.y);
        let z = abs_diff_i32(node.z, target_node.z);
        let mx = if x >= y && x >= z {
            x
        } else if y >= z {
            y
        } else {
            z
        };
        mx as u64
    }
}

pub struct DiagonalDistance {}

impl Heuristic for DiagonalDistance {
    open spec fn spec_distance(&self, node: Node, other_node: Node) -> u64 {
        diagonal_spec(node, other_node)
    }

    fn distance(&self, node: &Node, target_node: &Node) -> (r: u64) {
        let x = abs_diff_i32(node.x, target_node.x);
        let y = abs_diff_i32(node.y, target_node.y);
        let z = abs_diff_i32(node.z, target_node.z);
        let mx = if x >= y && x >= z {
            x
        } else if y >= z {
            y
        } else {
            z
        };
        let l1 = x + y + z;
        if l1 >= mx {
            l1 as u64
        } else {
            mx as u64
        }
    }
}

/// The zero heuristic: turns the search into uniform-cost (Dijkstra) order.
pub struct DijkstraDistance {}

impl Heuristic for DijkstraDistance {
    open spec fn spec_distance(&self, node: Node, other_node: Node) -> u64 {
        0u64
    }

    fn distance(&self, node: &Node, target_node: &Node) -> (r: u64) {
        0
    }
}

} // verus!
