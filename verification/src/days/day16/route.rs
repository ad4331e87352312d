//! One best route, cell by cell, read off the tables of a finished search.

use vstd::prelude::*;
use crate::days::day16::certify::{lemma_ids_to_step, lemma_witness};
use crate::days::day16::codec::{
    encode, id_of, lemma_id_of, lemma_node, lemma_nth_move, lemma_state_count, move_at, moving_at,
    node, start_id, state_count,
};
use crate::days::day16::graph::{at_goal, is_best_route, is_goal_route, is_min_cost, is_route_to, is_walk, lemma_best_route_cost, lemma_walk_join, lemma_walk_push, lemma_walk_states_open, start_state, walk_cost, State};
use crate::days::day16::grid::{Grid, GridModel};
use crate::days::day16::search::{known, settled, tight, value, Tables};
use crate::days::day16::solver::goal_state;

verus! {

/// `cells` are the positions of the states of `p`, in order.
pub open spec fn follows(p: Seq<State>, cells: Seq<(usize, usize)>) -> bool {
    &&& p.len() == cells.len()
    &&& forall|i: int| 0 <= i < p.len() ==> (#[trigger] p[i]).row == cells[i].0 && p[i].col == cells[i].1
}

/// `cells` are the positions along some best route.
pub open spec fn is_best_track(g: GridModel, cells: Seq<(usize, usize)>) -> bool {
    exists|p: Seq<State>| is_best_route(g, p) && #[trigger] follows(p, cells)
}

/// A walk with one state put before it, from which a move leads to its
/// first state, is a walk that costs one step more.
pub proof fn lemma_walk_prepend(g: GridModel, a: State, q: Seq<State>)
    requires
        is_walk(g, q),
        g.is_open(a.row, a.col),
        crate::days::day16::graph::is_step(g, a, q[0]),
    ensures
        is_walk(g, seq![a] + q),
        walk_cost(g.turn, seq![a] + q) == crate::days::day16::graph::step_cost(g.turn, a, q[0])
            + walk_cost(g.turn, q),
        (seq![a] + q)[0] == a,
        (seq![a] + q).last() == q.last(),
{
    let head = seq![a];
    assert(is_walk(g, head));
    lemma_walk_push(g, head, q[0]);
    let pair = head.push(q[0]);
    lemma_walk_join(g, pair, q);
    assert(pair + q.drop_first() =~= seq![a] + q);
    assert(walk_cost(g.turn, head) == 0);
}

/// The position of state number `id`.
fn position(grid: &Grid, id: usize) -> (pos: (usize, usize))
    requires
        id < state_count(grid@),
    ensures
        grid@.wf(),
        pos.0 == node(grid@, id as int).row,
        pos.1 == node(grid@, id as int).col,
{
    let cols = grid.cols();
    proof {
        lemma_node(grid@, id as int);
    }
    ((id / 4) / cols, (id / 4) % cols)
}

/// The cells of one best route, from the start to the goal.
pub fn one_best_route(grid: &Grid, tables: &Tables, best: usize) -> (cells: Vec<(usize, usize)>)
    requires
        settled(grid@, tables.cost@, tables.preds@),
        is_min_cost(grid@, best as nat),
    ensures
        grid@.wf(),
        is_best_track(grid@, cells@),
        cells@.len() >= 1,
{
    let goal = grid.goal();
    let s0 = start_id(grid);
    let ghost g = grid@;
    let ghost cost = tables.cost@;
    let ghost preds = tables.preds@;
    proof {
        lemma_state_count(g);
        lemma_id_of(g, start_state(g));
    }
    // One of the four states at the goal has the least cost.
    let mut cur: usize = s0;
    let mut found = false;
    let mut k: usize = 0;
    while k < 4
        invariant
            k <= 4,
            g == grid@,
            g.wf(),
            cost == tables.cost@,
            settled(g, cost, tables.preds@),
            g.goal == (goal.0 as int, goal.1 as int),
            cur < state_count(g),
            found ==> known(cost, cur as int) && value(cost, cur as int) == best && at_goal(
                g,
                node(g, cur as int),
            ),
            !found ==> forall|j: int|
                0 <= j < k ==> !(#[trigger] known(cost, id_of(g, goal_state(g, j))) && value(
                    cost,
                    id_of(g, goal_state(g, j)),
                ) == best),
        decreases 4 - k,
    {
        let t = encode(grid, goal.0, goal.1, move_at(k));
        proof {
            lemma_id_of(g, goal_state(g, k as int));
        }
        let hit = match tables.cost[t] {
            Some(c) => c == best,
            None => false,
        };
        if hit && !found {
            cur = t;
            found = true;
        }
        k += 1;
    }
    proof {
        if !found {
            let p = choose|p: Seq<State>| is_goal_route(g, p) && walk_cost(g.turn, p) == best as nat;
            crate::days::day16::certify::lemma_lower_bound(g, cost, preds, p);
            let t = id_of(g, p.last());
            lemma_witness(g, cost, preds, t);
            lemma_walk_states_open(g, p, p.len() - 1);
            lemma_id_of(g, p.last());
            let q = choose|q: Seq<State>|
                is_route_to(g, q, node(g, t)) && walk_cost(g.turn, q) == value(cost, t);
            assert(is_goal_route(g, q));
            let j = lemma_nth_move(p.last().facing);
            assert(p.last() == goal_state(g, j));
            assert(known(cost, id_of(g, goal_state(g, j))));
            assert(false);
        }
    }
    let mut back: Vec<(usize, usize)> = Vec::new();
    back.push(position(grid, cur));
    let ghost mut q: Seq<State> = seq![node(g, cur as int)];
    proof {
        lemma_witness(g, cost, preds, cur as int);
        let w = choose|w: Seq<State>|
            is_route_to(g, w, node(g, cur as int)) && walk_cost(g.turn, w) == value(cost, cur as int);
        lemma_walk_states_open(g, w, w.len() - 1);
        assert(is_walk(g, q));
    }
    while cur != s0
        invariant
            g == grid@,
            g.wf(),
            cost == tables.cost@,
            preds == tables.preds@,
            settled(g, cost, preds),
            s0 == id_of(g, start_state(g)),
            cur < state_count(g),
            known(cost, cur as int),
            is_walk(g, q),
            q[0] == node(g, cur as int),
            at_goal(g, q.last()),
            value(cost, cur as int) + walk_cost(g.turn, q) == best,
            back@.len() == q.len(),
            forall|i: int|
                0 <= i < q.len() ==> (#[trigger] back@[i]).0 == q[q.len() - 1 - i].row && back@[i].1
                    == q[q.len() - 1 - i].col,
        decreases value(cost, cur as int),
    {
        let from = &tables.preds[cur];
        assert(from@.len() > 0);
        let u = from[0];
        proof {
            assert(tight(g, cost, preds[cur as int]@[0] as int, cur as int));
            let m = moving_at(cur as int % 4);
            lemma_ids_to_step(g, u as int, m);
            lemma_witness(g, cost, preds, u as int);
            let w = choose|w: Seq<State>|
                is_route_to(g, w, node(g, u as int)) && walk_cost(g.turn, w) == value(cost, u as int);
            lemma_walk_states_open(g, w, w.len() - 1);
            lemma_walk_prepend(g, node(g, u as int), q);
        }
        let ghost old_q = q;
        back.push(position(grid, u));
        proof {
            q = seq![node(g, u as int)] + old_q;
            assert forall|i: int| 0 <= i < q.len() implies (#[trigger] back@[i]).0 == q[q.len() - 1
                - i].row && back@[i].1 == q[q.len() - 1 - i].col by {
                if i < old_q.len() {
                    assert(q[q.len() - 1 - i] == old_q[old_q.len() - 1 - i]);
                }
            }
        }
        cur = u;
    }
    proof {
        assert(walk_cost(g.turn, q) == best);
        assert(is_goal_route(g, q));
        lemma_best_route_cost(g, q, best as nat);
    }
    let mut cells: Vec<(usize, usize)> = Vec::new();
    let n = back.len();
    let mut i: usize = 0;
    while i < n
        invariant
            i <= n,
            n == back@.len(),
            n == q.len(),
            cells@.len() == i,
            forall|j: int| 0 <= j < i ==> #[trigger] cells@[j] == back@[n - 1 - j],
        decreases n - i,
    {
        cells.push(back[n - 1 - i]);
        i += 1;
    }
    proof {
        assert forall|j: int| 0 <= j < q.len() implies (#[trigger] q[j]).row == cells@[j].0 && q[j].col
            == cells@[j].1 by {
            assert(cells@[j] == back@[n - 1 - j]);
        }
        assert(follows(q, cells@));
    }
    cells
}

} // verus!
