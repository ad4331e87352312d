//! From settled tables to what they mean: the recorded cost of a state is
//! the least cost of a route to it, and a state without a recorded cost has
//! no route.

use vstd::prelude::*;
use crate::days::day16::{moving_slot, Moving};
use crate::days::day16::codec::{id_of, lemma_id_of, move_cost, moving_at, node, state_count, succ_id};
use crate::days::day16::graph::{is_dist, is_route, is_route_to, is_step, lemma_walk_drop_last, lemma_walk_push, lemma_walk_states_open, moved, reaches, start_state, step_cost, walk_cost, State};
use crate::days::day16::grid::GridModel;
use crate::days::day16::search::{known, relaxed, settled, tight, value};

verus! {

/// A legal step between states is a legal move between their numbers, at the
/// same cost.
pub proof fn lemma_step_to_ids(g: GridModel, a: State, b: State)
    requires
        g.rectangular(),
        g.in_bounds(a.row, a.col),
        is_step(g, a, b),
    ensures
        0 <= id_of(g, a) < state_count(g),
        0 <= id_of(g, b) < state_count(g),
        succ_id(g, id_of(g, a), b.facing) == Some(id_of(g, b)),
        move_cost(g.turn, id_of(g, a), b.facing) == step_cost(g.turn, a, b),
{
    lemma_id_of(g, a);
    lemma_id_of(g, b);
    assert(moving_slot(a.facing) == moving_slot(b.facing) <==> a.facing == b.facing);
}

/// A legal move between numbers is a legal step between their states, at the
/// same cost.
pub proof fn lemma_ids_to_step(g: GridModel, u: int, m: Moving)
    requires
        g.rectangular(),
        0 <= u < state_count(g),
        succ_id(g, u, m) is Some,
    ensures
        0 <= succ_id(g, u, m).unwrap() < state_count(g),
        is_step(g, node(g, u), node(g, succ_id(g, u, m).unwrap())),
        step_cost(g.turn, node(g, u), node(g, succ_id(g, u, m).unwrap())) == move_cost(g.turn, u, m),
        node(g, succ_id(g, u, m).unwrap()).facing == m,
{
    let to = moved(node(g, u), m);
    lemma_id_of(g, to);
    assert(moving_at(u % 4) == m <==> u % 4 == moving_slot(m));
}

/// No route is cheaper than the cost recorded for the state it ends in.
pub proof fn lemma_lower_bound(
    g: GridModel,
    cost: Seq<Option<usize>>,
    preds: Seq<Vec<usize>>,
    p: Seq<State>,
)
    requires
        g.wf(),
        settled(g, cost, preds),
        is_route(g, p),
    ensures
        0 <= id_of(g, p.last()) < state_count(g),
        cost[id_of(g, p.last())] is Some,
        value(cost, id_of(g, p.last())) <= walk_cost(g.turn, p),
    decreases p.len(),
{
    if p.len() == 1 {
        lemma_id_of(g, start_state(g));
    } else {
        let q = p.drop_last();
        lemma_walk_drop_last(g, p);
        lemma_lower_bound(g, cost, preds, q);
        let a = q.last();
        let b = p.last();
        lemma_walk_states_open(g, q, q.len() - 1);
        lemma_step_to_ids(g, a, b);
        assert(relaxed(g, cost, preds, id_of(g, a), b.facing));
    }
}

/// Some route attains the cost recorded for a state.
pub proof fn lemma_witness(g: GridModel, cost: Seq<Option<usize>>, preds: Seq<Vec<usize>>, t: int)
    requires
        g.wf(),
        settled(g, cost, preds),
        0 <= t < state_count(g),
        cost[t] is Some,
    ensures
        exists|p: Seq<State>| is_route_to(g, p, node(g, t)) && walk_cost(g.turn, p) == value(cost, t),
    decreases value(cost, t),
{
    let s0 = id_of(g, start_state(g));
    lemma_id_of(g, start_state(g));
    if t == s0 {
        let p = seq![start_state(g)];
        assert(is_route_to(g, p, node(g, t)) && walk_cost(g.turn, p) == value(cost, t));
    } else {
        assert(known(cost, t));
        let u = preds[t]@[0] as int;
        assert(tight(g, cost, u, t));
        let m = moving_at(t % 4);
        lemma_witness(g, cost, preds, u);
        let q = choose|q: Seq<State>| is_route_to(g, q, node(g, u)) && walk_cost(g.turn, q) == value(cost, u);
        lemma_ids_to_step(g, u, m);
        lemma_walk_push(g, q, node(g, t));
        let p = q.push(node(g, t));
        assert(is_route_to(g, p, node(g, t)) && walk_cost(g.turn, p) == value(cost, t));
    }
}

/// The recorded cost of a state on the grid is its least route cost; a state
/// with none recorded has no route.
pub proof fn law_recorded_cost_is_least(
    g: GridModel,
    cost: Seq<Option<usize>>,
    preds: Seq<Vec<usize>>,
    s: State,
)
    requires
        g.wf(),
        settled(g, cost, preds),
        g.in_bounds(s.row, s.col),
    ensures
        0 <= id_of(g, s) < state_count(g),
        match cost[id_of(g, s)] {
            Some(c) => is_dist(g, s, c as nat),
            None => !reaches(g, s),
        },
{
    lemma_id_of(g, s);
    let t = id_of(g, s);
    assert forall|p: Seq<State>| is_route_to(g, p, s) implies cost[t] is Some && walk_cost(g.turn, p)
        >= value(cost, t) by {
        lemma_lower_bound(g, cost, preds, p);
    }
    if cost[t] is Some {
        lemma_witness(g, cost, preds, t);
    }
}

} // verus!
