//! The oriented state space as mathematics: states, steps and their cost,
//! routes from the start, and what it means for a cost or a cell to be best.

use vstd::prelude::*;
use crate::days::day16::{delta, Moving};
use crate::days::day16::grid::GridModel;

verus! {

/// A position together with the direction faced there.
pub struct State {
    pub row: int,
    pub col: int,
    pub facing: Moving,
}

/// Where the search begins.
pub open spec fn start_state(g: GridModel) -> State {
    State { row: g.start.0, col: g.start.1, facing: g.facing }
}

/// The state that a step in direction `moving` leads to.
pub open spec fn moved(from: State, moving: Moving) -> State {
    State { row: from.row + delta(moving).0, col: from.col + delta(moving).1, facing: moving }
}

/// A legal move: one cell in the direction that `to` faces, onto an open cell.
pub open spec fn is_step(g: GridModel, from: State, to: State) -> bool {
    g.is_open(to.row, to.col) && to == moved(from, to.facing)
}

/// One for a step straight on, `turn` for a step in any other direction.
pub open spec fn step_cost(turn: int, from: State, to: State) -> int {
    if from.facing == to.facing {
        1
    } else {
        turn
    }
}

/// The `i`-th state of the sequence and the next are joined by a legal move.
pub open spec fn step_at(g: GridModel, p: Seq<State>, i: int) -> bool {
    is_step(g, p[i], p[i + 1])
}

/// A non-empty chain of legal moves that begins on an open cell.
pub open spec fn is_walk(g: GridModel, p: Seq<State>) -> bool {
    &&& p.len() > 0
    &&& g.is_open(p[0].row, p[0].col)
    &&& forall|i: int| 0 <= i < p.len() - 1 ==> #[trigger] step_at(g, p, i)
}

/// The sum of the costs of a walk's steps.
pub open spec fn walk_cost(turn: int, p: Seq<State>) -> int
    decreases p.len(),
{
    if p.len() <= 1 {
        0
    } else {
        walk_cost(turn, p.drop_last()) + step_cost(turn, p[p.len() - 2], p.last())
    }
}

/// A walk from the start state.
pub open spec fn is_route(g: GridModel, p: Seq<State>) -> bool {
    is_walk(g, p) && p[0] == start_state(g)
}

/// The route ends in the state `s`.
pub open spec fn is_route_to(g: GridModel, p: Seq<State>, s: State) -> bool {
    is_route(g, p) && p.last() == s
}

/// The state stands on the goal cell.
pub open spec fn at_goal(g: GridModel, s: State) -> bool {
    s.row == g.goal.0 && s.col == g.goal.1
}

/// A route that ends on the goal cell, whatever the facing there.
pub open spec fn is_goal_route(g: GridModel, p: Seq<State>) -> bool {
    is_route(g, p) && at_goal(g, p.last())
}

/// Some route leads to the goal.
pub open spec fn reachable(g: GridModel) -> bool {
    exists|p: Seq<State>| is_goal_route(g, p)
}

/// `c` is the least cost of a route to the goal: some route has it and none
/// has less.
pub open spec fn is_min_cost(g: GridModel, c: nat) -> bool {
    &&& exists|p: Seq<State>| is_goal_route(g, p) && walk_cost(g.turn, p) == c
    &&& forall|p: Seq<State>| is_goal_route(g, p) ==> walk_cost(g.turn, p) >= c
}

/// A route to the goal than which none is cheaper.
pub open spec fn is_best_route(g: GridModel, p: Seq<State>) -> bool {
    &&& is_goal_route(g, p)
    &&& forall|q: Seq<State>| is_goal_route(g, q) ==> walk_cost(g.turn, q) >= walk_cost(g.turn, p)
}

/// The `i`-th state of the sequence stands on the cell (`row`, `col`).
pub open spec fn passes(p: Seq<State>, i: int, row: int, col: int) -> bool {
    0 <= i < p.len() && p[i].row == row && p[i].col == col
}

/// The cell (`row`, `col`) lies on at least one best route.
pub open spec fn on_best_route(g: GridModel, row: int, col: int) -> bool {
    exists|p: Seq<State>, i: int| is_best_route(g, p) && #[trigger] passes(p, i, row, col)
}

/// The `i`-th state of the sequence is `s`.
pub open spec fn stands(p: Seq<State>, i: int, s: State) -> bool {
    0 <= i < p.len() && p[i] == s
}

/// The state `s` lies on at least one best route.
pub open spec fn on_best(g: GridModel, s: State) -> bool {
    exists|p: Seq<State>, i: int| is_best_route(g, p) && #[trigger] stands(p, i, s)
}

/// Some route leads to `s`.
pub open spec fn reaches(g: GridModel, s: State) -> bool {
    exists|p: Seq<State>| is_route_to(g, p, s)
}

/// `c` is the least cost of a route to `s`.
pub open spec fn is_dist(g: GridModel, s: State, c: nat) -> bool {
    &&& exists|p: Seq<State>| is_route_to(g, p, s) && walk_cost(g.turn, p) == c
    &&& forall|p: Seq<State>| is_route_to(g, p, s) ==> walk_cost(g.turn, p) >= c
}

/// A walk of a well-formed grid costs nothing or more.
pub proof fn lemma_walk_cost_floor(g: GridModel, p: Seq<State>)
    requires
        g.turn >= 0,
    ensures
        walk_cost(g.turn, p) >= 0,
    decreases p.len(),
{
    if p.len() > 1 {
        lemma_walk_cost_floor(g, p.drop_last());
    }
}

/// Extending a walk by one legal move gives a walk that costs one step more.
pub proof fn lemma_walk_push(g: GridModel, p: Seq<State>, s: State)
    requires
        is_walk(g, p),
        is_step(g, p.last(), s),
    ensures
        is_walk(g, p.push(s)),
        walk_cost(g.turn, p.push(s)) == walk_cost(g.turn, p) + step_cost(g.turn, p.last(), s),
        p.push(s)[0] == p[0],
        p.push(s).last() == s,
{
    let q = p.push(s);
    assert(q.drop_last() =~= p);
    assert forall|i: int| 0 <= i < q.len() - 1 implies #[trigger] step_at(g, q, i) by {
        if i < p.len() - 1 {
            assert(step_at(g, p, i));
        }
    }
}

/// A walk without its last state is a walk, one step cheaper.
pub proof fn lemma_walk_drop_last(g: GridModel, p: Seq<State>)
    requires
        is_walk(g, p),
        p.len() >= 2,
    ensures
        is_walk(g, p.drop_last()),
        is_step(g, p[p.len() - 2], p.last()),
        walk_cost(g.turn, p) == walk_cost(g.turn, p.drop_last()) + step_cost(g.turn, p[p.len() - 2], p.last()),
        p.drop_last()[0] == p[0],
        p.drop_last().last() == p[p.len() - 2],
{
    let q = p.drop_last();
    assert(step_at(g, p, p.len() - 2));
    assert forall|i: int| 0 <= i < q.len() - 1 implies #[trigger] step_at(g, q, i) by {
        assert(step_at(g, p, i));
    }
}

/// Every state of a walk stands on an open cell.
pub proof fn lemma_walk_states_open(g: GridModel, p: Seq<State>, i: int)
    requires
        is_walk(g, p),
        0 <= i < p.len(),
    ensures
        g.is_open(p[i].row, p[i].col),
{
    if i > 0 {
        assert(step_at(g, p, i - 1));
    }
}

/// The first `k` states of a walk are a walk.
pub proof fn lemma_walk_take(g: GridModel, p: Seq<State>, k: int)
    requires
        is_walk(g, p),
        1 <= k <= p.len(),
    ensures
        is_walk(g, p.take(k)),
        p.take(k)[0] == p[0],
        p.take(k).last() == p[k - 1],
        g.turn >= 0 ==> walk_cost(g.turn, p.take(k)) <= walk_cost(g.turn, p),
        k < p.len() ==> walk_cost(g.turn, p.take(k + 1)) == walk_cost(g.turn, p.take(k)) + step_cost(g.turn, p[k - 1],
            p[k],
        ),
    decreases p.len() - k,
{
    let q = p.take(k);
    assert forall|i: int| 0 <= i < q.len() - 1 implies #[trigger] step_at(g, q, i) by {
        assert(step_at(g, p, i));
    }
    if k < p.len() {
        lemma_walk_take(g, p, k + 1);
        let r = p.take(k + 1);
        assert(r.drop_last() =~= q);
    } else {
        assert(q =~= p);
    }
}

/// Two walks that meet end to start join into one, and the costs add up.
pub proof fn lemma_walk_join(g: GridModel, p: Seq<State>, q: Seq<State>)
    requires
        is_walk(g, p),
        is_walk(g, q),
        p.last() == q[0],
    ensures
        is_walk(g, p + q.drop_first()),
        walk_cost(g.turn, p + q.drop_first()) == walk_cost(g.turn, p) + walk_cost(g.turn, q),
        (p + q.drop_first())[0] == p[0],
        (p + q.drop_first()).last() == q.last(),
    decreases q.len(),
{
    if q.len() == 1 {
        assert(p + q.drop_first() =~= p);
    } else {
        let q0 = q.drop_last();
        lemma_walk_drop_last(g, q);
        lemma_walk_join(g, p, q0);
        let j0 = p + q0.drop_first();
        assert(j0.push(q.last()) =~= p + q.drop_first());
        assert(j0.last() == q0.last());
        lemma_walk_push(g, j0, q.last());
    }
}

/// The states of a walk from index `k` on are a walk.
pub proof fn lemma_walk_skip(g: GridModel, p: Seq<State>, k: int)
    requires
        is_walk(g, p),
        0 <= k < p.len(),
    ensures
        is_walk(g, p.skip(k)),
        p.skip(k)[0] == p[k],
        p.skip(k).last() == p.last(),
        walk_cost(g.turn, p) == walk_cost(g.turn, p.take(k + 1)) + walk_cost(g.turn, p.skip(k)),
    decreases p.len() - k,
{
    let q = p.skip(k);
    lemma_walk_states_open(g, p, k);
    assert forall|i: int| 0 <= i < q.len() - 1 implies #[trigger] step_at(g, q, i) by {
        assert(step_at(g, p, k + i));
    }
    lemma_walk_take(g, p, k + 1);
    lemma_walk_join(g, p.take(k + 1), q);
    assert(p.take(k + 1) + q.drop_first() =~= p);
}

/// Where a turn costs no more than a step, the cost of a walk is the number
/// of its steps.
pub proof fn lemma_unit_walk_cost(p: Seq<State>)
    requires
        p.len() > 0,
    ensures
        walk_cost(1, p) == p.len() - 1,
    decreases p.len(),
{
    if p.len() > 1 {
        lemma_unit_walk_cost(p.drop_last());
    }
}

/// Of two least costs, each is no more than the other.
pub proof fn lemma_min_cost_unique(g: GridModel, c1: nat, c2: nat)
    requires
        is_min_cost(g, c1),
        is_min_cost(g, c2),
    ensures
        c1 == c2,
{
    let p1 = choose|p: Seq<State>| is_goal_route(g, p) && walk_cost(g.turn, p) == c1;
    let p2 = choose|p: Seq<State>| is_goal_route(g, p) && walk_cost(g.turn, p) == c2;
    assert(walk_cost(g.turn, p1) >= c2);
    assert(walk_cost(g.turn, p2) >= c1);
}

/// A route to the goal is a best route exactly if it has the least cost.
pub proof fn lemma_best_route_cost(g: GridModel, p: Seq<State>, c: nat)
    requires
        is_min_cost(g, c),
        is_goal_route(g, p),
    ensures
        is_best_route(g, p) <==> walk_cost(g.turn, p) == c,
{
    let w = choose|w: Seq<State>| is_goal_route(g, w) && walk_cost(g.turn, w) == c;
    if is_best_route(g, p) {
        assert(walk_cost(g.turn, w) >= walk_cost(g.turn, p));
    }
}

} // verus!
