//! The solver: least cost from the start state to the goal cell, and every
//! cell on a route of that cost.

use vstd::prelude::*;
use crate::days::day16::nth_move;
use crate::days::day16::certify::{lemma_lower_bound, lemma_witness};
use crate::days::day16::codec::{
    encode, id_of, lemma_id_of, lemma_nth_move, move_at, node, state_count,
};
use crate::days::day16::graph::{
    is_best_route, is_goal_route, is_min_cost, is_route_to, lemma_walk_states_open, on_best,
    on_best_route, passes, reachable, stands, walk_cost, State,
};
use crate::days::day16::grid::{Grid, GridModel};
use crate::days::day16::search::{known, search, settled, value, Tables};
use crate::days::day16::trace::trace;

verus! {

/// What a solve reports.
#[derive(Debug, PartialEq, Eq)]
pub enum Outcome {
    /// The goal can be reached: the least cost, and the cells on routes of
    /// that cost, row by row.
    Reached { min_cost: usize, optimal_cells: Vec<(usize, usize)> },
    /// No route leads to the goal.
    Unreachable,
}

/// `a` comes before `b` when cells are read row by row.
pub open spec fn before(a: (usize, usize), b: (usize, usize)) -> bool {
    a.0 < b.0 || (a.0 == b.0 && a.1 < b.1)
}

/// `cells` lists the cells that lie on a best route: each of them once, none
/// else, row by row.
pub open spec fn lists_best_cells(g: GridModel, cells: Seq<(usize, usize)>) -> bool {
    &&& forall|i: int|
        0 <= i < cells.len() ==> on_best_route(g, (#[trigger] cells[i]).0 as int, cells[i].1 as int)
    &&& forall|row: int, col: int| #[trigger]
        on_best_route(g, row, col) ==> 0 <= row <= usize::MAX && 0 <= col <= usize::MAX
            && cells.contains((row as usize, col as usize))
    &&& forall|i: int, j: int| 0 <= i < j < cells.len() ==> before(#[trigger] cells[i], #[trigger] cells[j])
}

/// What `solve` owes for a grid.
pub open spec fn is_outcome(g: GridModel, out: Outcome) -> bool {
    match out {
        Outcome::Unreachable => !reachable(g),
        Outcome::Reached { min_cost, optimal_cells } => is_min_cost(g, min_cost as nat)
            && lists_best_cells(g, optimal_cells@),
    }
}

/// The state at (`row`, `col`) that faces as the `k`-th move does.
pub open spec fn facing_state(row: int, col: int, k: int) -> State {
    State { row, col, facing: nth_move(k) }
}

/// The state at the goal that faces as the `k`-th move does.
pub open spec fn goal_state(g: GridModel, k: int) -> State {
    facing_state(g.goal.0, g.goal.1, k)
}

/// The least of the costs recorded for the four states at the goal.
pub fn best_goal_cost(grid: &Grid, tables: &Tables) -> (best: Option<usize>)
    requires
        settled(grid@, tables.cost@, tables.preds@),
    ensures
        grid@.wf(),
        match best {
            Some(c) => is_min_cost(grid@, c as nat) && c <= grid@.turn * state_count(grid@),
            None => !reachable(grid@),
        },
{
    let goal = grid.goal();
    let ghost g = grid@;
    let ghost cost = tables.cost@;
    let ghost preds = tables.preds@;
    let mut best: Option<usize> = None;
    let mut k: usize = 0;
    while k < 4
        invariant
            k <= 4,
            g == grid@,
            g.wf(),
            cost == tables.cost@,
            preds == tables.preds@,
            settled(g, cost, preds),
            g.goal == (goal.0 as int, goal.1 as int),
            forall|j: int|
                0 <= j < k && #[trigger] known(cost, id_of(g, goal_state(g, j))) ==> best is Some
                    && best.unwrap() <= value(cost, id_of(g, goal_state(g, j))),
            best is Some ==> exists|j: int|
                0 <= j < k && #[trigger] known(cost, id_of(g, goal_state(g, j))) && best.unwrap()
                    == value(cost, id_of(g, goal_state(g, j))),
        decreases 4 - k,
    {
        let t = encode(grid, goal.0, goal.1, move_at(k));
        assert(t == id_of(g, goal_state(g, k as int)));
        match tables.cost[t] {
            None => {},
            Some(c) => {
                assert(known(cost, id_of(g, goal_state(g, k as int))));
                let lower = match best {
                    None => true,
                    Some(b) => c < b,
                };
                if lower {
                    best = Some(c);
                }
            },
        }
        k += 1;
    }
    proof {
        assert forall|p: Seq<State>| is_goal_route(g, p) implies best is Some && walk_cost(g.turn, p)
            >= best.unwrap() by {
            lemma_lower_bound(g, cost, preds, p);
            let j = lemma_nth_move(p.last().facing);
            assert(p.last() == goal_state(g, j));
            assert(known(cost, id_of(g, goal_state(g, j))));
        }
        if best is Some {
            let j = choose|j: int|
                0 <= j < 4 && #[trigger] known(cost, id_of(g, goal_state(g, j))) && best.unwrap()
                    == value(cost, id_of(g, goal_state(g, j)));
            let s = goal_state(g, j);
            lemma_id_of(g, s);
            lemma_witness(g, cost, preds, id_of(g, s));
            let q = choose|q: Seq<State>|
                is_route_to(g, q, node(g, id_of(g, s))) && walk_cost(g.turn, q) == value(cost, id_of(g, s));
            assert(is_goal_route(g, q) && walk_cost(g.turn, q) == best.unwrap() as nat);
        }
    }
    best
}

/// A cell lies on a best route exactly if one of its four states does.
pub proof fn lemma_cell_on_best(g: GridModel, row: int, col: int)
    requires
        g.wf(),
    ensures
        on_best_route(g, row, col) <==> exists|k: int|
            0 <= k < 4 && on_best(g, #[trigger] facing_state(row, col, k)),
        on_best_route(g, row, col) ==> g.in_bounds(row, col),
{
    if on_best_route(g, row, col) {
        let (p, i) = choose|p: Seq<State>, i: int| is_best_route(g, p) && #[trigger] passes(p, i, row, col);
        lemma_walk_states_open(g, p, i);
        let k = lemma_nth_move(p[i].facing);
        let s = facing_state(row, col, k);
        assert(stands(p, i, s));
        assert(on_best(g, s));
    }
    if exists|k: int| 0 <= k < 4 && on_best(g, #[trigger] facing_state(row, col, k)) {
        let k = choose|k: int| 0 <= k < 4 && on_best(g, #[trigger] facing_state(row, col, k));
        let s = facing_state(row, col, k);
        let (p, i) = choose|p: Seq<State>, i: int| is_best_route(g, p) && #[trigger] stands(p, i, s);
        assert(passes(p, i, row, col));
    }
}

/// Whether one of the four states at (`row`, `col`) is marked.
fn cell_marked(grid: &Grid, marked: &Vec<bool>, row: usize, col: usize) -> (hit: bool)
    requires
        grid@.in_bounds(row as int, col as int),
        marked@.len() == state_count(grid@),
        forall|u: int|
            0 <= u < state_count(grid@) ==> (#[trigger] marked@[u] <==> on_best(grid@, node(grid@, u))),
    ensures
        grid@.wf(),
        hit <==> on_best_route(grid@, row as int, col as int),
{
    let ghost g = grid@;
    let mut hit = false;
    let mut k: usize = 0;
    while k < 4
        invariant
            k <= 4,
            g == grid@,
            g.in_bounds(row as int, col as int),
            marked@.len() == state_count(g),
            forall|u: int|
                0 <= u < state_count(g) ==> (#[trigger] marked@[u] <==> on_best(g, node(g, u))),
            hit <==> exists|j: int|
                0 <= j < k && on_best(g, #[trigger] facing_state(row as int, col as int, j)),
        decreases 4 - k,
    {
        let t = encode(grid, row, col, move_at(k));
        proof {
            let s = facing_state(row as int, col as int, k as int);
            lemma_id_of(g, s);
            assert(marked@[t as int] <==> on_best(g, s));
        }
        if marked[t] {
            hit = true;
        }
        k += 1;
    }
    let _ = grid.rows();
    proof {
        lemma_cell_on_best(g, row as int, col as int);
    }
    hit
}

/// The cells with a marked state, row by row.
fn collect(grid: &Grid, marked: &Vec<bool>) -> (cells: Vec<(usize, usize)>)
    requires
        marked@.len() == state_count(grid@),
        forall|u: int|
            0 <= u < state_count(grid@) ==> (#[trigger] marked@[u] <==> on_best(grid@, node(grid@, u))),
    ensures
        grid@.wf(),
        lists_best_cells(grid@, cells@),
{
    let rows = grid.rows();
    let cols = grid.cols();
    let ghost g = grid@;
    let mut cells: Vec<(usize, usize)> = Vec::new();
    let mut row: usize = 0;
    while row < rows
        invariant
            row <= rows,
            g == grid@,
            g.wf(),
            rows == g.rows(),
            cols == g.cols(),
            marked@.len() == state_count(g),
            forall|u: int|
                0 <= u < state_count(g) ==> (#[trigger] marked@[u] <==> on_best(g, node(g, u))),
            forall|i: int|
                0 <= i < cells@.len() ==> on_best_route(g, (#[trigger] cells@[i]).0 as int, cells@[i].1 as int)
                    && cells@[i].0 < row,
            forall|r: int, c: int|
                0 <= r < row && 0 <= c < cols && #[trigger] on_best_route(g, r, c)
                    ==> cells@.contains((r as usize, c as usize)),
            forall|i: int, j: int|
                0 <= i < j < cells@.len() ==> before(#[trigger] cells@[i], #[trigger] cells@[j]),
        decreases rows - row,
    {
        let mut col: usize = 0;
        while col < cols
            invariant
                row < rows,
                col <= cols,
                g == grid@,
                g.wf(),
                rows == g.rows(),
                cols == g.cols(),
                marked@.len() == state_count(g),
                forall|u: int|
                    0 <= u < state_count(g) ==> (#[trigger] marked@[u] <==> on_best(g, node(g, u))),
                forall|i: int|
                    0 <= i < cells@.len() ==> on_best_route(
                        g,
                        (#[trigger] cells@[i]).0 as int,
                        cells@[i].1 as int,
                    ) && before(cells@[i], (row, col)),
                forall|r: int, c: int|
                    0 <= r <= row && 0 <= c < cols && (r == row ==> c < col)
                        && #[trigger] on_best_route(g, r, c) ==> cells@.contains(
                        (r as usize, c as usize),
                    ),
                forall|i: int, j: int|
                    0 <= i < j < cells@.len() ==> before(#[trigger] cells@[i], #[trigger] cells@[j]),
            decreases cols - col,
        {
            let ghost cells0 = cells@;
            if cell_marked(grid, marked, row, col) {
                cells.push((row, col));
                proof {
                    assert(cells@[cells0.len() as int] == (row, col));
                }
            }
            proof {
                assert forall|r: int, c: int|
                    0 <= r <= row && 0 <= c < cols && (r == row ==> c < col + 1)
                        && #[trigger] on_best_route(g, r, c) implies cells@.contains(
                        (r as usize, c as usize),
                    ) by {
                    if r == row && c == col {
                        assert(cells@[cells0.len() as int] == (row, col));
                    } else {
                        assert(cells0.contains((r as usize, c as usize)));
                        let i = choose|i: int|
                            0 <= i < cells0.len() && cells0[i] == (r as usize, c as usize);
                        assert(cells@[i] == (r as usize, c as usize));
                    }
                }
            }
            col += 1;
        }
        row += 1;
    }
    proof {
        assert forall|r: int, c: int| #[trigger] on_best_route(g, r, c) implies 0 <= r <= usize::MAX
            && 0 <= c <= usize::MAX && cells@.contains((r as usize, c as usize)) by {
            lemma_cell_on_best(g, r, c);
        }
    }
    cells
}

/// Solves the grid: the least cost of a route from the start state to the
/// goal cell together with the cells on the routes of that cost, or the
/// report that no route exists.
pub fn solve(grid: &Grid) -> (out: Outcome)
    ensures
        grid@.wf(),
        is_outcome(grid@, out),
        out matches Outcome::Reached { min_cost, .. } ==> min_cost <= grid@.turn * state_count(
            grid@,
        ),
{
    let tables = search(grid);
    match best_goal_cost(grid, &tables) {
        None => Outcome::Unreachable,
        Some(min_cost) => {
            let marked = trace(grid, &tables, min_cost);
            let optimal_cells = collect(grid, &marked);
            Outcome::Reached { min_cost, optimal_cells }
        },
    }
}

} // verus!
