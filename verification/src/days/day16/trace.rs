//! Reconstruction: walking the predecessor lists back from every goal state
//! of least cost marks exactly the states that lie on a best route.

use vstd::prelude::*;
use crate::days::day16::nth_move;
use crate::days::day16::certify::{
    lemma_ids_to_step, lemma_lower_bound, lemma_step_to_ids, lemma_witness,
};
use crate::days::day16::codec::{
    encode, id_of, lemma_id_of, lemma_node, lemma_nth_move, lemma_state_count, move_at, moving_at,
    node, state_count,
};
use crate::days::day16::flags::{cleared, lemma_pending_set, pending};
use crate::days::day16::graph::{
    at_goal, is_best_route, is_goal_route, is_min_cost, is_route_to, lemma_best_route_cost,
    lemma_walk_join, lemma_walk_push, lemma_walk_skip, lemma_walk_states_open, lemma_walk_take,
    on_best, stands, step_at, walk_cost, State,
};
use crate::days::day16::grid::{Grid, GridModel};
use crate::days::day16::search::{known, relaxed, settled, tight, value, Tables};

verus! {

/// Every recorded predecessor of `u` is marked.
pub open spec fn closed_at(preds: Seq<Vec<usize>>, marked: Seq<bool>, u: int) -> bool {
    forall|k: int| 0 <= k < preds[u]@.len() ==> marked[#[trigger] preds[u]@[k] as int]
}

/// Every goal state whose recorded cost is `best` is marked.
pub open spec fn goals_marked(
    g: GridModel,
    cost: Seq<Option<usize>>,
    marked: Seq<bool>,
    best: int,
) -> bool {
    forall|u: int|
        0 <= u < state_count(g) && #[trigger] known(cost, u) && at_goal(g, node(g, u)) && value(
            cost,
            u,
        ) == best ==> marked[u]
}

/// What holds while the marks spread. `hold` is the state whose predecessors
/// are being visited, or -1.
pub open spec fn trace_inv(
    g: GridModel,
    preds: Seq<Vec<usize>>,
    marked: Seq<bool>,
    stack: Seq<usize>,
    hold: int,
) -> bool {
    let n = state_count(g);
    &&& marked.len() == n
    &&& forall|i: int| 0 <= i < stack.len() ==> (#[trigger] stack[i]) < n && marked[stack[i] as int]
    &&& forall|u: int| 0 <= u < n && #[trigger] marked[u] ==> on_best(g, node(g, u))
    &&& forall|u: int|
        0 <= u < n && #[trigger] marked[u] && u != hold ==> stack.contains(u as usize) || closed_at(
            preds,
            marked,
            u,
        )
}

/// A goal state whose recorded cost is the least cost lies on a best route.
pub proof fn lemma_goal_on_best(
    g: GridModel,
    cost: Seq<Option<usize>>,
    preds: Seq<Vec<usize>>,
    t: int,
    best: nat,
)
    requires
        g.wf(),
        settled(g, cost, preds),
        is_min_cost(g, best),
        0 <= t < state_count(g),
        cost[t] is Some,
        value(cost, t) == best,
        at_goal(g, node(g, t)),
    ensures
        on_best(g, node(g, t)),
{
    lemma_witness(g, cost, preds, t);
    let q = choose|q: Seq<State>| is_route_to(g, q, node(g, t)) && walk_cost(g.turn, q) == value(cost, t);
    assert(is_best_route(g, q));
    assert(stands(q, q.len() - 1, node(g, t)));
}

/// A predecessor at the recorded cost of a state on a best route lies on a
/// best route too.
pub proof fn lemma_pred_on_best(
    g: GridModel,
    cost: Seq<Option<usize>>,
    preds: Seq<Vec<usize>>,
    u: int,
    t: int,
)
    requires
        g.wf(),
        settled(g, cost, preds),
        0 <= t < state_count(g),
        tight(g, cost, u, t),
        on_best(g, node(g, t)),
    ensures
        on_best(g, node(g, u)),
{
    let (p, i) = choose|p: Seq<State>, i: int| is_best_route(g, p) && #[trigger] stands(p, i, node(g, t));
    lemma_witness(g, cost, preds, u);
    let q = choose|q: Seq<State>| is_route_to(g, q, node(g, u)) && walk_cost(g.turn, q) == value(cost, u);
    let m = moving_at(t % 4);
    lemma_ids_to_step(g, u, m);
    lemma_walk_push(g, q, node(g, t));
    let q2 = q.push(node(g, t));
    let tail = p.skip(i);
    lemma_walk_skip(g, p, i);
    lemma_walk_take(g, p, i + 1);
    lemma_lower_bound(g, cost, preds, p.take(i + 1));
    lemma_walk_join(g, q2, tail);
    let joined = q2 + tail.drop_first();
    assert(is_goal_route(g, joined));
    assert(walk_cost(g.turn, joined) <= walk_cost(g.turn, p));
    assert(is_best_route(g, joined));
    assert(joined[q.len() - 1] == q2[q.len() - 1]);
    assert(stands(joined, q.len() - 1, node(g, u)));
}

/// Once the marks are closed under predecessors and hold the best goal
/// states, every state of every best route is marked.
pub proof fn lemma_best_route_marked(
    g: GridModel,
    cost: Seq<Option<usize>>,
    preds: Seq<Vec<usize>>,
    marked: Seq<bool>,
    best: nat,
    p: Seq<State>,
    i: int,
)
    requires
        g.wf(),
        settled(g, cost, preds),
        is_min_cost(g, best),
        marked.len() == state_count(g),
        forall|u: int| 0 <= u < state_count(g) && #[trigger] marked[u] ==> closed_at(preds, marked, u),
        goals_marked(g, cost, marked, best as int),
        is_best_route(g, p),
        0 <= i < p.len(),
    ensures
        0 <= id_of(g, p[i]) < state_count(g),
        marked[id_of(g, p[i])],
        walk_cost(g.turn, p.take(i + 1)) == value(cost, id_of(g, p[i])),
    decreases p.len() - i,
{
    lemma_state_count(g);
    lemma_walk_states_open(g, p, i);
    lemma_id_of(g, p[i]);
    lemma_walk_take(g, p, i + 1);
    lemma_lower_bound(g, cost, preds, p.take(i + 1));
    let a = id_of(g, p[i]);
    if i == p.len() - 1 {
        assert(p.take(i + 1) =~= p);
        lemma_best_route_cost(g, p, best);
        lemma_witness(g, cost, preds, a);
        let q = choose|q: Seq<State>| is_route_to(g, q, node(g, a)) && walk_cost(g.turn, q) == value(cost, a);
        assert(is_goal_route(g, q));
        assert(known(cost, a));
    } else {
        lemma_best_route_marked(g, cost, preds, marked, best, p, i + 1);
        let b = id_of(g, p[i + 1]);
        assert(step_at(g, p, i));
        lemma_step_to_ids(g, p[i], p[i + 1]);
        assert(relaxed(g, cost, preds, a, p[i + 1].facing));
        assert(preds[b]@.contains(a as usize));
        let k = choose|k: int| 0 <= k < preds[b]@.len() && preds[b]@[k] == a as usize;
        assert(closed_at(preds, marked, b));
        assert(marked[preds[b]@[k] as int]);
    }
}

/// Marks every state that lies on a best route.
pub fn trace(grid: &Grid, tables: &Tables, best: usize) -> (marked: Vec<bool>)
    requires
        settled(grid@, tables.cost@, tables.preds@),
        is_min_cost(grid@, best as nat),
    ensures
        grid@.wf(),
        marked@.len() == state_count(grid@),
        forall|u: int|
            0 <= u < state_count(grid@) ==> (#[trigger] marked@[u] <==> on_best(grid@, node(grid@, u))),
{
    let goal = grid.goal();
    let ghost g = grid@;
    let ghost cost = tables.cost@;
    let ghost preds = tables.preds@;
    let n = tables.cost.len();
    let mut marked = cleared(n);
    let mut stack: Vec<usize> = Vec::new();
    let mut k: usize = 0;
    while k < 4
        invariant
            k <= 4,
            g == grid@,
            g.wf(),
            cost == tables.cost@,
            preds == tables.preds@,
            settled(g, cost, preds),
            is_min_cost(g, best as nat),
            n == state_count(g),
            g.goal == (goal.0 as int, goal.1 as int),
            trace_inv(g, preds, marked@, stack@, -1),
            forall|j: int|
                0 <= j < k && known(
                    cost,
                    id_of(g, State { row: g.goal.0, col: g.goal.1, facing: nth_move(j) }),
                ) && value(cost, id_of(g, State { row: g.goal.0, col: g.goal.1, facing: nth_move(j) }))
                    == best ==> marked@[#[trigger] id_of(
                    g,
                    State { row: g.goal.0, col: g.goal.1, facing: nth_move(j) },
                )],
        decreases 4 - k,
    {
        let facing = move_at(k);
        let t = encode(grid, goal.0, goal.1, facing);
        let ghost s = State { row: g.goal.0, col: g.goal.1, facing };
        let hit = match tables.cost[t] {
            Some(c) => c == best,
            None => false,
        };
        if hit && !marked[t] {
            proof {
                lemma_id_of(g, s);
                lemma_goal_on_best(g, cost, preds, t as int, best as nat);
            }
            let ghost marked0 = marked@;
            let ghost stack0 = stack@;
            marked[t] = true;
            stack.push(t);
            proof {
                assert(stack@[stack0.len() as int] == t);
                assert forall|u: int| 0 <= u < n && #[trigger] marked@[u] implies stack@.contains(
                    u as usize,
                ) || closed_at(preds, marked@, u) by {
                    if u != t {
                        assert(marked0[u]);
                        if stack0.contains(u as usize) {
                            let i = choose|i: int| 0 <= i < stack0.len() && stack0[i] == u as usize;
                            assert(stack@[i] == u as usize);
                        } else {
                            assert(closed_at(preds, marked0, u));
                        }
                    }
                }
            }
        }
        k += 1;
    }
    proof {
        assert forall|u: int|
            0 <= u < n && #[trigger] known(cost, u) && at_goal(g, node(g, u)) && value(cost, u)
                == best implies marked@[u] by {
            lemma_node(g, u);
            let j = lemma_nth_move(node(g, u).facing);
            assert(node(g, u) == State { row: g.goal.0, col: g.goal.1, facing: nth_move(j) });
        }
        assert(goals_marked(g, cost, marked@, best as int));
    }
    while stack.len() > 0
        invariant
            g == grid@,
            g.wf(),
            cost == tables.cost@,
            preds == tables.preds@,
            settled(g, cost, preds),
            n == state_count(g),
            trace_inv(g, preds, marked@, stack@, -1),
            goals_marked(g, cost, marked@, best as int),
        decreases pending(marked@), stack@.len(),
    {
        let ghost stack0 = stack@;
        let ghost pending0 = pending(marked@);
        let t = stack.pop().unwrap();
        proof {
            assert(stack0[stack0.len() - 1] == t);
            assert forall|u: int| 0 <= u < n && #[trigger] marked@[u] && u != t implies stack@.contains(
                u as usize,
            ) || closed_at(preds, marked@, u) by {
                if stack0.contains(u as usize) {
                    let i = choose|i: int| 0 <= i < stack0.len() && stack0[i] == u as usize;
                    assert(stack@[i] == u as usize);
                }
            }
        }
        let from = &tables.preds[t];
        let mut k: usize = 0;
        while k < from.len()
            invariant
                g == grid@,
                g.wf(),
                cost == tables.cost@,
                preds == tables.preds@,
                settled(g, cost, preds),
                n == state_count(g),
                t < n,
                from == preds[t as int],
                k <= from@.len(),
                marked@[t as int],
                trace_inv(g, preds, marked@, stack@, t as int),
                goals_marked(g, cost, marked@, best as int),
                forall|j: int| 0 <= j < k ==> marked@[#[trigger] from@[j] as int],
                pending(marked@) <= pending0,
                pending(marked@) == pending0 ==> stack@.len() < stack0.len(),
            decreases from@.len() - k,
        {
            let u = from[k];
            assert(tight(g, cost, preds[t as int]@[k as int] as int, t as int));
            if !marked[u] {
                let ghost marked0 = marked@;
                let ghost stack1 = stack@;
                proof {
                    lemma_pred_on_best(g, cost, preds, u as int, t as int);
                    lemma_pending_set(marked0, u as int);
                }
                marked[u] = true;
                stack.push(u);
                proof {
                    assert(stack@[stack1.len() as int] == u);
                    assert forall|v: int|
                        0 <= v < n && #[trigger] marked@[v] && v != t implies stack@.contains(
                        v as usize,
                    ) || closed_at(preds, marked@, v) by {
                        if v != u {
                            assert(marked0[v]);
                            if stack1.contains(v as usize) {
                                let i = choose|i: int|
                                    0 <= i < stack1.len() && stack1[i] == v as usize;
                                assert(stack@[i] == v as usize);
                            } else {
                                assert(closed_at(preds, marked0, v));
                            }
                        }
                    }
                    assert forall|i: int| 0 <= i < stack@.len() implies (#[trigger] stack@[i]) < n
                        && marked@[stack@[i] as int] by {
                        if i < stack1.len() {
                            assert(stack1[i] < n && marked0[stack1[i] as int]);
                        }
                    }
                }
            }
            k += 1;
        }
        proof {
            assert(closed_at(preds, marked@, t as int));
        }
    }
    proof {
        assert forall|u: int| 0 <= u < n && on_best(g, node(g, u)) implies #[trigger] marked@[u] by {
            let (p, i) = choose|p: Seq<State>, i: int|
                is_best_route(g, p) && #[trigger] stands(p, i, node(g, u));
            assert forall|v: int| 0 <= v < n && #[trigger] marked@[v] implies closed_at(
                preds,
                marked@,
                v,
            ) by {
                assert(!stack@.contains(v as usize));
            }
            lemma_best_route_marked(g, cost, preds, marked@, best as nat, p, i);
            lemma_node(g, u);
        }
    }
    marked
}

} // verus!
