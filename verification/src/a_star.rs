use vstd::prelude::*;
use vstd::seq_lib::*;
use vstd::set_lib::lemma_len_subset;
use crate::heuristic::{CostFunction, Heuristic};
use crate::maze::Maze;
use crate::node::{
    Node, NodeList, contains_pos, first_pos, min_f_index, same_pos, sat_add3_spec, updated_all,
    updated_node, walkable_from, lemma_first_pos, lemma_min_f_index,
};

verus! {

/// No two entries share a position.
pub open spec fn pos_unique(s: Seq<Node>) -> bool {
    forall|i: int, j: int| 0 <= i < j < s.len() ==> !same_pos(s[i], s[j])
}

/// No entry of `a` shares a position with an entry of `b`.
pub open spec fn pos_disjoint(a: Seq<Node>, b: Seq<Node>) -> bool {
    forall|i: int, j: int|
        0 <= i < a.len() && 0 <= j < b.len() ==> !same_pos(#[trigger] a[i], #[trigger] b[j])
}

/// Every entry of `a` sits at the position of some entry of `b`.
pub open spec fn pos_subset(a: Seq<Node>, b: Seq<Node>) -> bool {
    forall|i: int| 0 <= i < a.len() ==> contains_pos(b, #[trigger] a[i])
}

/// Following parent links from `n` ends at a parentless node that sits at
/// `start`'s position.
pub open spec fn chain_to_start(n: Node, start: Node) -> bool
    decreases n,
{
    match n.parent {
        None => same_pos(n, start),
        Some(p) => chain_to_start(*p, start),
    }
}

/// Every node along the parent chain carries the `g` that the update rule
/// assigns: `0` at the parentless root, and otherwise the parent's `g` plus
/// the step cost plus the node's own `core_cost` (saturating).
pub open spec fn chain_costs_ok<C: CostFunction>(n: Node, c: C) -> bool
    decreases n,
{
    match n.parent {
        None => n.g == 0,
        Some(p) => chain_costs_ok(*p, c) && n.g == sat_add3_spec(
            p.g,
            c.spec_cost(*p, n),
            n.core_cost,
        ),
    }
}

/// The chain is a genuine walk over the node list: every node on it sits
/// at the position of a listed (walkable) cell, and every link connects a
/// node to a walkable neighbor of its parent.
pub open spec fn chain_valid(n: Node, all: Seq<Node>) -> bool
    decreases n,
{
    contains_pos(all, n) && match n.parent {
        None => true,
        Some(p) => crate::node::neighbor_of(*p, n) && chain_valid(*p, all),
    }
}

/// What holds of every open-set entry: its chain leads back to the start
/// as a genuine walk over the node list, and if it has a parent it has
/// been through `update`, so its whole chain carries correct costs.  (The
/// initial root entry may still hold the caller's cost fields; they are
/// recomputed before first use.)
pub open spec fn open_entry_ok<C: CostFunction>(
    n: Node,
    start: Node,
    all: Seq<Node>,
    c: C,
) -> bool {
    chain_to_start(n, start) && chain_valid(n, all) && (n.parent is Some ==> chain_costs_ok(n, c))
}

/// Exact cost of a parent chain over the mathematical integers, ignoring
/// saturation: 0 at the root, then step cost plus `core_cost` per link.
pub open spec fn chain_cost<C: CostFunction>(n: Node, c: C) -> int
    decreases n,
{
    match n.parent {
        None => 0,
        Some(p) => chain_cost(*p, c) + c.spec_cost(*p, n) + n.core_cost,
    }
}

/// As long as the exact chain cost stays below `u64::MAX`, the saturating
/// `g` bookkeeping along the chain records exactly that sum: the path cost
/// reported for a returned path is the sum of its per-step costs.
pub proof fn lemma_chain_cost_exact<C: CostFunction>(n: Node, c: C)
    requires
        chain_costs_ok(n, c),
        chain_cost(n, c) <= u64::MAX,
    ensures
        n.g == chain_cost(n, c),
    decreases n,
{
    match n.parent {
        None => {},
        Some(p) => {
            lemma_chain_cost_exact(*p, c);
        },
    }
}

/// Position-projection of a node sequence.
pub open spec fn pos_seq(s: Seq<Node>) -> Seq<(i32, i32, i32)> {
    s.map_values(|n: Node| (n.x, n.y, n.z))
}

/// A sequence with pairwise-distinct positions, all of which occur in `b`,
/// cannot be longer than `b`.
pub proof fn lemma_unique_pos_subset_len(a: Seq<Node>, b: Seq<Node>)
    requires
        pos_unique(a),
        pos_subset(a, b),
    ensures
        a.len() <= b.len(),
{
    let pa = pos_seq(a);
    let pb = pos_seq(b);
    assert(pa.no_duplicates()) by {
        assert forall|i: int, j: int| 0 <= i < j < pa.len() implies pa[i] != pa[j] by {
            assert(!same_pos(a[i], a[j]));
        }
    }
    assert forall|x: (i32, i32, i32)| pa.to_set().contains(x) implies pb.to_set().contains(x) by {
        let i = choose|i: int| 0 <= i < pa.len() && pa[i] == x;
        assert(contains_pos(b, a[i]));
        let j = choose|j: int| 0 <= j < b.len() && same_pos(b[j], a[i]);
        assert(pb[j] == x);
        assert(pb.contains(x));
    }
    pa.unique_seq_to_set();
    pb.lemma_cardinality_of_set();
    assert(pa.to_set().subset_of(pb.to_set()));
    lemma_len_subset(pa.to_set(), pb.to_set());
}

/// The node a discovered neighbor turns into: a copy of `cand` re-parented
/// onto the freshly closed `cur` and then run through `update`.
pub open spec fn child_node<H: Heuristic, C: CostFunction>(
    cand: Node,
    cur: Node,
    target: Node,
    h: H,
    c: C,
) -> Node {
    updated_node(Node { parent: Some(Box::new(cur)), ..cand }, target, h, c)
}

/// The outcome of working through the walkable neighbors `cands[j..]` of
/// the freshly closed node `cur`, exactly as the engine's inner loop does:
/// a neighbor at the target's position ends the search at once with the
/// target node hung off `cur`; any other neighbor is re-parented onto
/// `cur`, updated, and then inserted into the open set, used to replace a
/// strictly costlier entry at the same position, or discarded.
pub open spec fn expand_from<H: Heuristic, C: CostFunction>(
    open: Seq<Node>,
    closed: Seq<Node>,
    cands: Seq<Node>,
    j: int,
    cur: Node,
    target: Node,
    h: H,
    c: C,
) -> (Option<Node>, Seq<Node>)
    decreases cands.len() - j,
{
    if j < 0 || j >= cands.len() {
        (None::<Node>, open)
    } else {
        let cand = cands[j];
        if same_pos(cand, target) {
            (Some(child_node(target, cur, target, h, c)), open)
        } else {
            let n1 = child_node(cand, cur, target, h, c);
            if contains_pos(closed, n1) {
                expand_from(open, closed, cands, j + 1, cur, target, h, c)
            } else if !contains_pos(open, n1) {
                expand_from(open.push(n1), closed, cands, j + 1, cur, target, h, c)
            } else {
                let k = first_pos(open, n1);
                if open[k].g > n1.g {
                    expand_from(open.update(k, n1), closed, cands, j + 1, cur, target, h, c)
                } else {
                    expand_from(open, closed, cands, j + 1, cur, target, h, c)
                }
            }
        }
    }
}

/// `update` keeps a node's position, parent and `core_cost`, and leaves its
/// chain intact: an in-order open entry stays in order, with sound costs.
pub proof fn lemma_updated_entry_ok<H: Heuristic, C: CostFunction>(
    n: Node,
    start: Node,
    all: Seq<Node>,
    target: Node,
    h: H,
    c: C,
)
    requires
        open_entry_ok(n, start, all, c),
    ensures
        chain_to_start(updated_node(n, target, h, c), start),
        chain_valid(updated_node(n, target, h, c), all),
        chain_costs_ok(updated_node(n, target, h, c), c),
        same_pos(updated_node(n, target, h, c), n),
        updated_node(n, target, h, c).parent == n.parent,
{
    let u = updated_node(n, target, h, c);
    assert(contains_pos(all, u)) by {
        let w = choose|w: int| 0 <= w < all.len() && same_pos(all[w], n);
        assert(same_pos(all[w], u));
    }
    match n.parent {
        None => {
            assert(u.g == 0);
        },
        Some(p) => {
            c.lemma_cost_position_only(*p, n, *p, u);
        },
    }
}

/// A neighbor hung off a sound `cur` is itself sound: its chain runs
/// through `cur` back to the start and its `g` follows the update rule.
pub proof fn lemma_child_ok<H: Heuristic, C: CostFunction>(
    cand: Node,
    cur: Node,
    start: Node,
    all: Seq<Node>,
    target: Node,
    h: H,
    c: C,
)
    requires
        chain_to_start(cur, start),
        chain_valid(cur, all),
        chain_costs_ok(cur, c),
        contains_pos(all, cand),
        crate::node::neighbor_of(cur, cand),
    ensures
        chain_to_start(child_node(cand, cur, target, h, c), start),
        chain_valid(child_node(cand, cur, target, h, c), all),
        chain_costs_ok(child_node(cand, cur, target, h, c), c),
        same_pos(child_node(cand, cur, target, h, c), cand),
        child_node(cand, cur, target, h, c).parent == Some(Box::new(cur)),
{
    let n0 = Node { parent: Some(Box::new(cur)), ..cand };
    let u = child_node(cand, cur, target, h, c);
    c.lemma_cost_position_only(cur, n0, cur, u);
    assert(contains_pos(all, u)) by {
        let w = choose|w: int| 0 <= w < all.len() && same_pos(all[w], cand);
        assert(same_pos(all[w], u));
    }
    assert(crate::node::neighbor_of(cur, u));
}

/// Every entry of `find_walkable`'s result sits at the position of a list
/// entry and is a walkable neighbor of `node`.
pub proof fn lemma_walkable_props(s: Seq<Node>, node: Node)
    ensures
        forall|k: int|
            0 <= k < walkable_from(s, node).len() ==> contains_pos(
                s,
                #[trigger] walkable_from(s, node)[k],
            ) && crate::node::neighbor_of(node, walkable_from(s, node)[k]),
    decreases s.len(),
{
    if s.len() > 0 {
        lemma_walkable_props(s.drop_last(), node);
        let w = walkable_from(s, node);
        let rest = walkable_from(s.drop_last(), node);
        assert forall|k: int|
            0 <= k < w.len() implies contains_pos(s, #[trigger] w[k]) && crate::node::neighbor_of(
            node,
            w[k],
        ) by {
            if k < rest.len() {
                assert(w[k] == rest[k]);
                let j = choose|j: int|
                    0 <= j < s.drop_last().len() && same_pos(s.drop_last()[j], rest[k]);
                assert(s[j] == s.drop_last()[j]);
                assert(contains_pos(s, w[k]));
            } else {
                assert(w[k] == s.last());
                assert(same_pos(s[s.len() - 1], w[k]));
            }
        }
    }
}

/// Inserting a fresh position keeps the open-set bookkeeping sound.
pub proof fn lemma_push_keeps(open: Seq<Node>, closed: Seq<Node>, all: Seq<Node>, n1: Node)
    requires
        pos_unique(open),
        pos_disjoint(open, closed),
        pos_subset(open, all),
        !contains_pos(open, n1),
        !contains_pos(closed, n1),
        contains_pos(all, n1),
    ensures
        pos_unique(open.push(n1)),
        pos_disjoint(open.push(n1), closed),
        pos_subset(open.push(n1), all),
{
    let o1 = open.push(n1);
    assert forall|i: int, j: int| 0 <= i < j < o1.len() implies !same_pos(o1[i], o1[j]) by {
        if j == open.len() {
            assert(o1[i] == open[i] && o1[j] == n1);
            if same_pos(open[i], n1) {
                assert(contains_pos(open, n1));
            }
        }
    }
    assert forall|i: int, j: int|
        0 <= i < o1.len() && 0 <= j < closed.len() implies !same_pos(
        #[trigger] o1[i],
        #[trigger] closed[j],
    ) by {
        if i < open.len() {
            assert(o1[i] == open[i]);
            assert(!same_pos(open[i], closed[j]));
        } else {
            assert(o1[i] == n1);
            if same_pos(n1, closed[j]) {
                assert(same_pos(closed[j], n1));
                assert(contains_pos(closed, n1));
            }
        }
    }
    assert forall|i: int| 0 <= i < o1.len() implies contains_pos(all, #[trigger] o1[i]) by {
        if i < open.len() {
            assert(contains_pos(all, open[i]));
        }
    }
}

/// Replacing an entry by a cheaper one at the same position keeps the
/// open-set bookkeeping sound.
pub proof fn lemma_replace_keeps(open: Seq<Node>, closed: Seq<Node>, all: Seq<Node>, k: int, n1: Node)
    requires
        pos_unique(open),
        pos_disjoint(open, closed),
        pos_subset(open, all),
        0 <= k < open.len(),
        same_pos(open[k], n1),
    ensures
        pos_unique(open.update(k, n1)),
        pos_disjoint(open.update(k, n1), closed),
        pos_subset(open.update(k, n1), all),
{
    let o1 = open.update(k, n1);
    assert forall|i: int, j: int| 0 <= i < j < o1.len() implies !same_pos(o1[i], o1[j]) by {
        assert(!same_pos(open[i], open[j]));
        if i == k {
            assert(o1[i] == n1 && o1[j] == open[j]);
        } else if j == k {
            assert(o1[i] == open[i] && o1[j] == n1);
        }
    }
    assert forall|i: int, j: int|
        0 <= i < o1.len() && 0 <= j < closed.len() implies !same_pos(
        #[trigger] o1[i],
        #[trigger] closed[j],
    ) by {
        assert(!same_pos(open[i], closed[j]));
        if i == k {
            assert(o1[i] == n1);
        } else {
            assert(o1[i] == open[i]);
        }
    }
    assert forall|i: int| 0 <= i < o1.len() implies contains_pos(all, #[trigger] o1[i]) by {
        assert(contains_pos(all, open[i]));
        if i == k {
            let j = choose|j: int| 0 <= j < all.len() && same_pos(all[j], open[k]);
            assert(same_pos(all[j], n1));
        }
    }
}

/// What one pop does to a sound engine state: the refreshed open set keeps
/// its positions, the scan's pick is removed at its own (unique) index, and
/// the picked node joins the closed set as a fresh position with a sound,
/// fully costed chain.
pub proof fn lemma_pop_step<H: Heuristic, C: CostFunction>(
    open0: Seq<Node>,
    closed0: Seq<Node>,
    all: Seq<Node>,
    start: Node,
    target: Node,
    h: H,
    c: C,
    s1: Seq<Node>,
    mi: int,
    cur: Node,
    ri: int,
    open1: Seq<Node>,
    closed1: Seq<Node>,
)
    requires
        s1 == updated_all(open0, target, h, c),
        open0.len() > 0,
        mi == min_f_index(s1),
        cur == s1[mi],
        ri == first_pos(s1, cur),
        open1 == s1.remove(ri),
        closed1 == closed0.push(cur),
        pos_unique(open0),
        pos_unique(closed0),
        pos_disjoint(open0, closed0),
        pos_subset(open0, all),
        pos_subset(closed0, all),
        forall|i: int| 0 <= i < open0.len() ==> open_entry_ok(#[trigger] open0[i], start, all, c),
    ensures
        s1.len() == open0.len(),
        0 <= mi < s1.len(),
        ri == mi,
        pos_unique(open1),
        pos_unique(closed1),
        pos_disjoint(open1, closed1),
        pos_subset(open1, all),
        pos_subset(closed1, all),
        closed1.len() <= all.len(),
        chain_to_start(cur, start),
        chain_valid(cur, all),
        chain_costs_ok(cur, c),
        contains_pos(all, cur),
        forall|i: int| 0 <= i < open1.len() ==> open_entry_ok(#[trigger] open1[i], start, all, c),
{
    assert forall|i: int|
        0 <= i < s1.len() implies same_pos(#[trigger] s1[i], open0[i]) && s1[i].parent
        == open0[i].parent && chain_to_start(s1[i], start) && chain_valid(s1[i], all)
        && chain_costs_ok(s1[i], c) by {
        assert(s1[i] == updated_node(open0[i], target, h, c));
        lemma_updated_entry_ok(open0[i], start, all, target, h, c);
    }
    assert(pos_unique(s1)) by {
        assert forall|i: int, j: int| 0 <= i < j < s1.len() implies !same_pos(s1[i], s1[j]) by {
            assert(!same_pos(open0[i], open0[j]));
        }
    }
    lemma_min_f_index(s1);
    lemma_first_pos(s1, cur);
    assert(contains_pos(s1, cur)) by {
        assert(same_pos(s1[mi], cur));
    }
    assert(ri == mi) by {
        if ri < mi {
            assert(same_pos(s1[ri], cur));
            assert(!same_pos(s1[ri], s1[mi]));
        }
    }
    s1.remove_ensures(ri);
    assert(chain_to_start(cur, start) && chain_valid(cur, all) && chain_costs_ok(cur, c));
    assert(contains_pos(all, cur)) by {
        assert(contains_pos(all, open0[mi]));
        let j = choose|j: int| 0 <= j < all.len() && same_pos(all[j], open0[mi]);
        assert(same_pos(all[j], cur));
    }
    assert forall|i: int| 0 <= i < open1.len() implies open_entry_ok(
        #[trigger] open1[i],
        start,
        all,
        c,
    ) && contains_pos(all, open1[i]) && (!same_pos(open1[i], cur)) by {
        let src: int = if i < ri {
            i
        } else {
            i + 1
        };
        assert(open1[i] == s1[src]);
        assert(chain_to_start(s1[src], start) && chain_valid(s1[src], all) && chain_costs_ok(
            s1[src],
            c,
        ));
        assert(open_entry_ok(open1[i], start, all, c));
        assert(contains_pos(all, open0[src]));
        let j = choose|j: int| 0 <= j < all.len() && same_pos(all[j], open0[src]);
        assert(same_pos(s1[src], open0[src]));
        assert(same_pos(all[j], open1[i]));
        assert(contains_pos(all, open1[i]));
        if src < mi {
            assert(!same_pos(s1[src], s1[mi]));
        } else {
            assert(!same_pos(s1[mi], s1[src]));
        }
    }
    assert(pos_unique(open1)) by {
        assert forall|i: int, j: int| 0 <= i < j < open1.len() implies !same_pos(
            open1[i],
            open1[j],
        ) by {
            let si: int = if i < ri {
                i
            } else {
                i + 1
            };
            let sj: int = if j < ri {
                j
            } else {
                j + 1
            };
            assert(open1[i] == s1[si] && open1[j] == s1[sj]);
        }
    }
    assert(pos_unique(closed1)) by {
        assert forall|i: int, j: int| 0 <= i < j < closed1.len() implies !same_pos(
            closed1[i],
            closed1[j],
        ) by {
            if j == closed0.len() {
                assert(!same_pos(open0[mi], closed0[i]));
            }
        }
    }
    assert(pos_subset(closed1, all)) by {
        assert forall|i: int| 0 <= i < closed1.len() implies contains_pos(
            all,
            #[trigger] closed1[i],
        ) by {
            if i < closed0.len() {
                assert(contains_pos(all, closed0[i]));
            }
        }
    }
    assert(pos_disjoint(open1, closed1)) by {
        assert forall|i: int, j: int|
            0 <= i < open1.len() && 0 <= j < closed1.len() implies !same_pos(
            #[trigger] open1[i],
            #[trigger] closed1[j],
        ) by {
            let si: int = if i < ri {
                i
            } else {
                i + 1
            };
            assert(open1[i] == s1[si]);
            if j < closed0.len() {
                assert(!same_pos(open0[si], closed0[j]));
            } else {
                assert(!same_pos(s1[si], s1[mi]));
            }
        }
    }
    lemma_unique_pos_subset_len(closed1, all);
}

/// The search loop as a function of the engine state, one expansion per
/// unfolding: refresh the open set's costs, pop the first lowest-`f` entry,
/// close it, and work through its walkable neighbors.  `fuel` only bounds
/// the recursion; a well-formed engine never runs out, because every
/// expansion moves one more distinct position into the closed set.
pub open spec fn run_from<H: Heuristic, C: CostFunction>(
    open: Seq<Node>,
    closed: Seq<Node>,
    iters: int,
    all: Seq<Node>,
    target: Node,
    h: H,
    c: C,
    fuel: nat,
) -> (Option<Node>, int)
    decreases fuel,
{
    if open.len() == 0 {
        (None::<Node>, iters)
    } else if fuel == 0 {
        (None::<Node>, iters)
    } else {
        let s1 = updated_all(open, target, h, c);
        let cur = s1[min_f_index(s1)];
        let open1 = s1.remove(first_pos(s1, cur));
        let closed1 = closed.push(cur);
        let cands = walkable_from(all, cur);
        let stepped = expand_from(open1, closed1, cands, 0, cur, target, h, c);
        match stepped.0 {
            Some(n) => (Some(n), iters + 1),
            None => run_from(
                stepped.1,
                closed1,
                iters + 1,
                all,
                target,
                h,
                c,
                (fuel - 1) as nat,
            ),
        }
    }
}

/// The A* engine: strategies, the walkable-cell list, the open and closed
/// sets, the fixed start and target, and the iteration counter.  Built once
/// per search; one `evaluate` call produces one result.
pub struct AStar<H: Heuristic, C: CostFunction> {
    pub heuristic: H,
    pub cost_function: C,
    pub all_nodes: NodeList,
    pub open_list: NodeList,
    pub closed_list: NodeList,
    pub start_node: Node,
    pub current_node: Option<Box<Node>>,
    pub target_node: Node,
    pub maze: Maze,
    pub iters: u32,
    pub debug: bool,
}

/// Enough fuel to run the engine to completion: one expansion per walkable
/// cell not yet closed, plus one unfolding to observe the emptied open set.
pub open spec fn run_fuel<H: Heuristic, C: CostFunction>(e: AStar<H, C>) -> nat {
    if e.closed_list.nodes@.len() <= e.all_nodes.nodes@.len() {
        (e.all_nodes.nodes@.len() - e.closed_list.nodes@.len() + 1) as nat
    } else {
        1
    }
}

/// The exact result of `evaluate` as a function of the engine state: the
/// degenerate start-equals-target check first, then the search loop.
pub open spec fn spec_evaluate<H: Heuristic, C: CostFunction>(e: AStar<H, C>) -> (
    Option<Node>,
    int,
) {
    if e.open_list.nodes@.len() > 0 && same_pos(e.start_node, e.target_node) {
        (
            Some(
                updated_node(
                    Node { parent: None::<Box<Node>>, ..e.start_node },
                    e.target_node,
                    e.heuristic,
                    e.cost_function,
                ),
            ),
            e.iters as int,
        )
    } else {
        run_from(
            e.open_list.nodes@,
            e.closed_list.nodes@,
            e.iters as int,
            e.all_nodes.nodes@,
            e.target_node,
            e.heuristic,
            e.cost_function,
            run_fuel(e),
        )
    }
}

/// Re-running the search on an unmodified engine input is idempotent:
/// `evaluate` returns exactly `spec_evaluate` of its starting state, and
/// that state function reads only the search inputs — the node list, the
/// open and closed sets, the start, the target, the strategies and the
/// iteration counter.  Two engines that agree on those (whatever their
/// rendering flags) produce the same path and the same iteration count.
pub proof fn lemma_evaluate_deterministic<H: Heuristic, C: CostFunction>(
    e1: AStar<H, C>,
    e2: AStar<H, C>,
)
    requires
        e1.heuristic == e2.heuristic,
        e1.cost_function == e2.cost_function,
        e1.all_nodes == e2.all_nodes,
        e1.open_list == e2.open_list,
        e1.closed_list == e2.closed_list,
        e1.start_node == e2.start_node,
        e1.target_node == e2.target_node,
        e1.iters == e2.iters,
    ensures
        spec_evaluate(e1) == spec_evaluate(e2),
{
}

/// The view of a returned path head, with the box stripped.
pub open spec fn unbox_node(o: Option<Box<Node>>) -> Option<Node> {
    match o {
        Some(b) => Some(*b),
        None => None::<Node>,
    }
}

impl<H: Heuristic, C: CostFunction> AStar<H, C> {
    /// The engine's running invariant: the open and closed sets each hold a
    /// position at most once and never share one, both draw their positions
    /// from the walkable-cell list, every open entry's parent chain leads
    /// back to the start with sound costs, and the iteration counter cannot
    /// overflow within the remaining expansions.
    pub open spec fn wf(self) -> bool {
        &&& pos_unique(self.open_list.nodes@)
        &&& pos_unique(self.closed_list.nodes@)
        &&& pos_disjoint(self.open_list.nodes@, self.closed_list.nodes@)
        &&& pos_subset(self.open_list.nodes@, self.all_nodes.nodes@)
        &&& pos_subset(self.closed_list.nodes@, self.all_nodes.nodes@)
        &&& self.iters as int + (self.all_nodes.nodes@.len() - self.closed_list.nodes@.len())
            <= u32::MAX as int
        &&& self.closed_list.nodes@.len() <= self.all_nodes.nodes@.len()
        &&& (self.open_list.nodes@.len() > 0 ==> contains_pos(
            self.all_nodes.nodes@,
            self.start_node,
        ))
        &&& forall|i: int|
            0 <= i < self.open_list.nodes@.len() ==> open_entry_ok(
                #[trigger] self.open_list.nodes@[i],
                self.start_node,
                self.all_nodes.nodes@,
                self.cost_function,
            )
    }

    /// A fresh engine: empty closed set, zero iterations, and an open set
    /// holding exactly the start node (as a parentless root) when the start
    /// cell is walkable, and nothing otherwise — so a blocked start makes
    /// the first `evaluate` report no path after zero expansions.
    pub fn new(
        heuristic: H,
        cost_function: C,
        nodes: NodeList,
        start_node: Node,
        target_node: Node,
        maze: Maze,
        debug: bool,
    ) -> (r: AStar<H, C>)
        requires
            nodes.nodes@.len() <= u32::MAX as int,
        ensures
            r.wf(),
            r.heuristic == heuristic,
            r.cost_function == cost_function,
            r.all_nodes == nodes,
            r.start_node == start_node,
            r.target_node == target_node,
            r.maze == maze,
            r.debug == debug,
            r.iters == 0,
            r.current_node is None,
            r.closed_list.nodes@ == Seq::<Node>::empty(),
            contains_pos(nodes.nodes@, start_node) ==> r.open_list.nodes@ == seq![
                (Node { parent: None::<Box<Node>>, ..start_node }),
            ],
            !contains_pos(nodes.nodes@, start_node) ==> r.open_list.nodes@
                == Seq::<Node>::empty(),
    {
        let mut star = AStar {
            heuristic,
            cost_function,
            all_nodes: nodes,
            open_list: NodeList::new(),
            closed_list: NodeList::new(),
            start_node: start_node.clone(),
            current_node: None,
            target_node,
            maze,
            iters: 0,
            debug,
        };

        if star.all_nodes.contains(&star.start_node) {
            let mut root = star.start_node.clone();
            let root = root.off_of(None);
            star.open_list.push(Some(Box::new(root)));
        }

        star
    }

    /// Run the search to completion and hand back the path head and the
    /// number of expansions: exactly `spec_evaluate` of the starting state.
    /// `None` is the no-path outcome; a returned head's parent chain leads
    /// back to a parentless root at the start position, with the `g` of
    /// every link following the cost-update rule.  The expansion count
    /// grows by at most one per walkable cell.
    #[verifier::loop_isolation(false)]
    pub fn evaluate(&mut self) -> (r: (Option<Box<Node>>, u32))
        requires
            old(self).wf(),
        ensures
            unbox_node(r.0) == spec_evaluate(*old(self)).0,
            r.1 as int == spec_evaluate(*old(self)).1,
            final(self).iters == r.1,
            old(self).iters <= r.1,
            r.1 as int - old(self).iters as int <= old(self).all_nodes.nodes@.len(),
            r.0 is Some ==> chain_to_start(*r.0.unwrap(), old(self).start_node),
            r.0 is Some ==> chain_valid(*r.0.unwrap(), old(self).all_nodes.nodes@),
            r.0 is Some ==> chain_costs_ok(*r.0.unwrap(), old(self).cost_function),
            final(self).all_nodes == old(self).all_nodes,
            final(self).start_node == old(self).start_node,
            final(self).target_node == old(self).target_node,
            final(self).heuristic == old(self).heuristic,
            final(self).cost_function == old(self).cost_function,
            final(self).maze == old(self).maze,
            final(self).debug == old(self).debug,
    {
        let ghost e0 = *old(self);
        let ghost all = e0.all_nodes.nodes@;
        let ghost target = e0.target_node;
        let ghost hh = e0.heuristic;
        let ghost cc = e0.cost_function;
        let ghost start = e0.start_node;
        let ghost rr = spec_evaluate(e0);

        if self.open_list.nodes.len() > 0 && self.start_node.equals(&self.target_node) {
            let mut base = self.start_node.clone();
            let mut root = base.off_of(None);
            root.update(&self.target_node, &self.heuristic, &self.cost_function);
            proof {
                assert(root == updated_node(
                    Node { parent: None::<Box<Node>>, ..start },
                    target,
                    hh,
                    cc,
                ));
                assert(root.parent is None && same_pos(root, start) && root.g == 0);
                assert(chain_to_start(root, start) && chain_costs_ok(root, cc));
                assert(contains_pos(all, root)) by {
                    let w = choose|w: int| 0 <= w < all.len() && same_pos(all[w], start);
                    assert(same_pos(all[w], root));
                }
                assert(chain_valid(root, all));
            }
            return (Some(Box::new(root)), self.iters);
        }

        while self.open_list.nodes.len() > 0
            invariant
                self.all_nodes == e0.all_nodes,
                self.start_node == e0.start_node,
                self.target_node == e0.target_node,
                self.heuristic == e0.heuristic,
                self.cost_function == e0.cost_function,
                self.maze == e0.maze,
                self.debug == e0.debug,
                pos_unique(self.open_list.nodes@),
                pos_unique(self.closed_list.nodes@),
                pos_disjoint(self.open_list.nodes@, self.closed_list.nodes@),
                pos_subset(self.open_list.nodes@, all),
                pos_subset(self.closed_list.nodes@, all),
                self.closed_list.nodes@.len() <= all.len(),
                e0.iters <= self.iters,
                self.iters as int + (all.len() - self.closed_list.nodes@.len()) <= u32::MAX
                    as int,
                self.iters as int - e0.iters as int == self.closed_list.nodes@.len()
                    - e0.closed_list.nodes@.len(),
                e0.closed_list.nodes@.len() <= self.closed_list.nodes@.len(),
                forall|i: int|
                    0 <= i < self.open_list.nodes@.len() ==> open_entry_ok(
                        #[trigger] self.open_list.nodes@[i],
                        start,
                        all,
                        cc,
                    ),
                run_from(
                    self.open_list.nodes@,
                    self.closed_list.nodes@,
                    self.iters as int,
                    all,
                    target,
                    hh,
                    cc,
                    (all.len() - self.closed_list.nodes@.len() + 1) as nat,
                ) == rr,
            decreases all.len() - self.closed_list.nodes@.len(),
        {
            let ghost open0 = self.open_list.nodes@;
            let ghost closed0 = self.closed_list.nodes@;
            let ghost iters0 = self.iters as int;
            let ghost fuel0 = (all.len() - closed0.len() + 1) as nat;

            proof {
                assert(contains_pos(all, open0[0]));
                assert(!contains_pos(closed0, open0[0])) by {
                    if contains_pos(closed0, open0[0]) {
                        let j = choose|j: int|
                            0 <= j < closed0.len() && same_pos(closed0[j], open0[0]);
                        assert(!same_pos(open0[0], closed0[j]));
                    }
                }
                lemma_push_keeps(closed0, Seq::<Node>::empty(), all, open0[0]);
                lemma_unique_pos_subset_len(closed0.push(open0[0]), all);
            }
            self.iters = self.iters + 1;

            let picked = self.open_list.get_min_cost_node_from_node(
                self.target_node.clone(),
                &self.heuristic,
                &self.cost_function,
            );
            let current_node = *picked.unwrap();

            let ghost s1 = updated_all(open0, target, hh, cc);
            let ghost mi = min_f_index(s1);
            let ghost curg = s1[mi];
            let ghost ri = first_pos(s1, curg);
            let ghost open1 = s1.remove(ri);
            let ghost closed1 = closed0.push(curg);
            let ghost cands = walkable_from(all, curg);

            proof {
                assert(self.open_list.nodes@ == s1);
                assert(current_node == curg);
                lemma_pop_step(
                    open0,
                    closed0,
                    all,
                    start,
                    target,
                    hh,
                    cc,
                    s1,
                    mi,
                    curg,
                    ri,
                    open1,
                    closed1,
                );
            }

            let found = self.open_list.get_position(&current_node);
            let position = found.unwrap();
            self.open_list.nodes.remove(position);
            self.closed_list.push(Some(Box::new(current_node.clone())));
            proof {
                assert(self.open_list.nodes@ == open1);
                assert(self.closed_list.nodes@ == closed1);
            }

            let possible_nodes = self.all_nodes.find_walkable(current_node.clone());
            let ghost tt = expand_from(open1, closed1, cands, 0, curg, target, hh, cc);
            proof {
                lemma_walkable_props(all, curg);
                assert(possible_nodes@ == cands);
                assert(run_from(open0, closed0, iters0, all, target, hh, cc, fuel0) == (
                match tt.0 {
                    Some(n) => (Some(n), iters0 + 1),
                    None => run_from(
                        tt.1,
                        closed1,
                        iters0 + 1,
                        all,
                        target,
                        hh,
                        cc,
                        (fuel0 - 1) as nat,
                    ),
                }));
            }

            let mut j: usize = 0;
            while j < possible_nodes.len()
                invariant
                    j <= cands.len(),
                    self.all_nodes == e0.all_nodes,
                    self.start_node == e0.start_node,
                    self.target_node == e0.target_node,
                    self.heuristic == e0.heuristic,
                    self.cost_function == e0.cost_function,
                    self.maze == e0.maze,
                    self.debug == e0.debug,
                    self.closed_list.nodes@ == closed1,
                    self.iters as int == iters0 + 1,
                    pos_unique(self.open_list.nodes@),
                    pos_disjoint(self.open_list.nodes@, closed1),
                    pos_subset(self.open_list.nodes@, all),
                    forall|i: int|
                        0 <= i < self.open_list.nodes@.len() ==> open_entry_ok(
                            #[trigger] self.open_list.nodes@[i],
                            start,
                            all,
                            cc,
                        ),
                    expand_from(
                        self.open_list.nodes@,
                        closed1,
                        cands,
                        j as int,
                        curg,
                        target,
                        hh,
                        cc,
                    ) == tt,
                decreases cands.len() - j,
            {
                let ghost openb = self.open_list.nodes@;
                let ghost cand = cands[j as int];
                let mut i = possible_nodes[j].clone();

                if i.equals(&self.target_node) {
                    let mut tbase = self.target_node.clone();
                    let mut node = tbase.off_of(Some(Box::new(current_node.clone())));
                    node.update(&self.target_node, &self.heuristic, &self.cost_function);
                    proof {
                        assert(node == child_node(target, curg, target, hh, cc));
                        assert(tt == (Some(node), openb));
                        assert(rr == (Some(node), iters0 + 1));
                        assert(contains_pos(all, cands[j as int]) && crate::node::neighbor_of(
                            curg,
                            cands[j as int],
                        ));
                        assert(contains_pos(all, target)) by {
                            let w = choose|w: int|
                                0 <= w < all.len() && same_pos(all[w], cands[j as int]);
                            assert(same_pos(all[w], target));
                        }
                        assert(crate::node::neighbor_of(curg, target));
                        lemma_child_ok(target, curg, start, all, target, hh, cc);
                    }
                    return (Some(Box::new(node)), self.iters);
                }

                i.parent = Some(Box::new(current_node.clone()));
                i.update(&self.target_node, &self.heuristic, &self.cost_function);
                proof {
                    assert(i == child_node(cand, curg, target, hh, cc));
                    assert(contains_pos(all, cand) && crate::node::neighbor_of(curg, cand));
                    lemma_child_ok(cand, curg, start, all, target, hh, cc);
                }

                if !self.closed_list.contains(&i) {
                    if !self.open_list.contains(&i) {
                        self.open_list.push(Some(Box::new(i.clone())));
                        proof {
                            assert(contains_pos(all, i)) by {
                                assert(contains_pos(all, cand));
                                let w = choose|w: int|
                                    0 <= w < all.len() && same_pos(all[w], cand);
                                assert(same_pos(all[w], i));
                            }
                            lemma_push_keeps(openb, closed1, all, i);
                            assert(expand_from(openb, closed1, cands, j as int, curg, target, hh, cc)
                                == expand_from(
                                openb.push(i),
                                closed1,
                                cands,
                                j as int + 1,
                                curg,
                                target,
                                hh,
                                cc,
                            ));
                            assert forall|k: int|
                                0 <= k < self.open_list.nodes@.len() implies open_entry_ok(
                                #[trigger] self.open_list.nodes@[k],
                                start,
                                all,
                                cc,
                            ) by {
                                if k < openb.len() {
                                    assert(self.open_list.nodes@[k] == openb[k]);
                                } else {
                                    assert(self.open_list.nodes@[k] == i);
                                }
                            }
                        }
                    } else {
                        let found_k = self.open_list.get_position(&i);
                        proof {
                            lemma_first_pos(openb, i);
                        }
                        let position = found_k.unwrap();
                        proof {
                            assert(contains_pos(openb, i));
                            assert(first_pos(openb, i) < openb.len());
                            assert(position as int == first_pos(openb, i));
                            assert(same_pos(openb[position as int], i));
                        }
                        if self.open_list.nodes[position].g > i.g {
                            self.open_list.nodes[position] = i.clone();
                            proof {
                                lemma_replace_keeps(openb, closed1, all, position as int, i);
                                assert(expand_from(
                                    openb,
                                    closed1,
                                    cands,
                                    j as int,
                                    curg,
                                    target,
                                    hh,
                                    cc,
                                ) == expand_from(
                                    openb.update(position as int, i),
                                    closed1,
                                    cands,
                                    j as int + 1,
                                    curg,
                                    target,
                                    hh,
                                    cc,
                                ));
                                assert forall|k: int|
                                    0 <= k < self.open_list.nodes@.len() implies open_entry_ok(
                                    #[trigger] self.open_list.nodes@[k],
                                    start,
                                    all,
                                    cc,
                                ) by {
                                    if k != position as int {
                                        assert(self.open_list.nodes@[k] == openb[k]);
                                    } else {
                                        assert(self.open_list.nodes@[k] == i);
                                    }
                                }
                            }
                        } else {
                            proof {
                                assert(expand_from(
                                    openb,
                                    closed1,
                                    cands,
                                    j as int,
                                    curg,
                                    target,
                                    hh,
                                    cc,
                                ) == expand_from(
                                    openb,
                                    closed1,
                                    cands,
                                    j as int + 1,
                                    curg,
                                    target,
                                    hh,
                                    cc,
                                ));
                            }
                        }
                    }
                } else {
                    proof {
                        assert(expand_from(openb, closed1, cands, j as int, curg, target, hh, cc)
                            == expand_from(
                            openb,
                            closed1,
                            cands,
                            j as int + 1,
                            curg,
                            target,
                            hh,
                            cc,
                        ));
                    }
                }
                j += 1;
            }

            proof {
                assert(tt == (None::<Node>, self.open_list.nodes@));
                assert(run_from(
                    self.open_list.nodes@,
                    closed1,
                    iters0 + 1,
                    all,
                    target,
                    hh,
                    cc,
                    (fuel0 - 1) as nat,
                ) == rr);
                assert((all.len() - closed1.len() + 1) as nat == (fuel0 - 1) as nat);
            }
            self.current_node = Some(Box::new(current_node.clone()));
        }

        (None, self.iters)
    }
}

} // verus!
