//! Laws of the solver, proved from its contract.

use vstd::prelude::*;
use crate::days::day16::graph::{is_best_route, is_goal_route, is_min_cost, is_walk, lemma_best_route_cost, lemma_min_cost_unique, lemma_walk_cost_floor, on_best_route, passes, reachable, step_at, walk_cost, State};
use crate::days::day16::grid::{Cell, GridModel};
use crate::days::day16::solver::{before, is_outcome, lists_best_cells, Outcome};

verus! {

/// Where some route leads to the goal, some route is a best route.
pub proof fn lemma_best_route_exists(g: GridModel, p: Seq<State>) -> (best: Seq<State>)
    requires
        g.turn >= 0,
        is_goal_route(g, p),
    ensures
        is_best_route(g, best),
        walk_cost(g.turn, best) <= walk_cost(g.turn, p),
    decreases walk_cost(g.turn, p),
{
    lemma_walk_cost_floor(g, p);
    if forall|q: Seq<State>| is_goal_route(g, q) ==> walk_cost(g.turn, q) >= walk_cost(g.turn, p) {
        p
    } else {
        let q = choose|q: Seq<State>| is_goal_route(g, q) && walk_cost(g.turn, q) < walk_cost(g.turn, p);
        lemma_walk_cost_floor(g, q);
        lemma_best_route_exists(g, q)
    }
}

/// Whenever a route exists, the start and the goal lie on a best route.
pub proof fn law_start_and_goal_on_best_route(g: GridModel)
    requires
        g.wf(),
        reachable(g),
    ensures
        on_best_route(g, g.start.0, g.start.1),
        on_best_route(g, g.goal.0, g.goal.1),
{
    let p = choose|p: Seq<State>| is_goal_route(g, p);
    let best = lemma_best_route_exists(g, p);
    assert(passes(best, 0, g.start.0, g.start.1));
    assert(passes(best, best.len() - 1, g.goal.0, g.goal.1));
}

/// Whenever a route exists, the cells that a solve reports hold the start
/// and the goal.
pub proof fn law_cells_hold_start_and_goal(g: GridModel, out: Outcome)
    requires
        g.wf(),
        reachable(g),
        is_outcome(g, out),
    ensures
        out matches Outcome::Reached { optimal_cells, .. } && optimal_cells@.contains(
            (g.start.0 as usize, g.start.1 as usize),
        ) && optimal_cells@.contains((g.goal.0 as usize, g.goal.1 as usize)),
{
    law_start_and_goal_on_best_route(g);
}

/// Two lists in strictly rising order that hold the same cells are the same
/// list.
pub proof fn lemma_rising_lists_equal(a: Seq<(usize, usize)>, b: Seq<(usize, usize)>)
    requires
        forall|i: int, j: int| 0 <= i < j < a.len() ==> before(#[trigger] a[i], #[trigger] a[j]),
        forall|i: int, j: int| 0 <= i < j < b.len() ==> before(#[trigger] b[i], #[trigger] b[j]),
        forall|x: (usize, usize)| a.contains(x) <==> b.contains(x),
    ensures
        a == b,
    decreases a.len(),
{
    if a.len() == 0 {
        if b.len() > 0 {
            assert(b.contains(b[0]));
        }
        assert(a =~= b);
    } else {
        let la = a.last();
        assert(a.contains(la));
        assert(b.contains(la));
        let lb = b.last();
        assert(b.contains(lb));
        assert(a.contains(lb));
        let ja = choose|j: int| 0 <= j < b.len() && b[j] == la;
        let jb = choose|j: int| 0 <= j < a.len() && a[j] == lb;
        if ja < b.len() - 1 {
            assert(before(b[ja], b[b.len() - 1]));
        }
        if jb < a.len() - 1 {
            assert(before(a[jb], a[a.len() - 1]));
        }
        assert(la == lb);
        let a0 = a.drop_last();
        let b0 = b.drop_last();
        assert forall|x: (usize, usize)| a0.contains(x) <==> b0.contains(x) by {
            if a0.contains(x) {
                let i = choose|i: int| 0 <= i < a0.len() && a0[i] == x;
                assert(before(a[i], a[a.len() - 1]));
                assert(a.contains(x));
                let j = choose|j: int| 0 <= j < b.len() && b[j] == x;
                assert(b0[j] == x);
            }
            if b0.contains(x) {
                let i = choose|i: int| 0 <= i < b0.len() && b0[i] == x;
                assert(before(b[i], b[b.len() - 1]));
                assert(b.contains(x));
                let j = choose|j: int| 0 <= j < a.len() && a[j] == x;
                assert(a0[j] == x);
            }
        }
        assert forall|i: int, j: int| 0 <= i < j < a0.len() implies before(
            #[trigger] a0[i],
            #[trigger] a0[j],
        ) by {
            assert(before(a[i], a[j]));
        }
        assert forall|i: int, j: int| 0 <= i < j < b0.len() implies before(
            #[trigger] b0[i],
            #[trigger] b0[j],
        ) by {
            assert(before(b[i], b[j]));
        }
        lemma_rising_lists_equal(a0, b0);
        assert(a =~= a0.push(la));
        assert(b =~= b0.push(lb));
    }
}

/// A grid has one list of best cells.
pub proof fn lemma_best_cells_unique(g: GridModel, a: Seq<(usize, usize)>, b: Seq<(usize, usize)>)
    requires
        lists_best_cells(g, a),
        lists_best_cells(g, b),
    ensures
        a == b,
{
    assert forall|x: (usize, usize)| a.contains(x) <==> b.contains(x) by {
        if a.contains(x) {
            let i = choose|i: int| 0 <= i < a.len() && a[i] == x;
            assert(on_best_route(g, a[i].0 as int, a[i].1 as int));
        }
        if b.contains(x) {
            let i = choose|i: int| 0 <= i < b.len() && b[i] == x;
            assert(on_best_route(g, b[i].0 as int, b[i].1 as int));
        }
    }
    lemma_rising_lists_equal(a, b);
}

/// Solving twice gives the same answer: whatever two solves of one grid
/// report, they agree on whether the goal is reached, on the least cost and
/// on the list of cells.
pub proof fn law_outcome_is_determined(g: GridModel, first: Outcome, second: Outcome)
    requires
        is_outcome(g, first),
        is_outcome(g, second),
    ensures
        first is Unreachable <==> second is Unreachable,
        first matches Outcome::Reached { min_cost: c1, optimal_cells: cells1 } ==> (second matches Outcome::Reached {
            min_cost: c2,
            optimal_cells: cells2,
        } && c1 == c2 && cells1@ == cells2@),
{
    match (first, second) {
        (
            Outcome::Reached { min_cost: c1, optimal_cells: cells1 },
            Outcome::Reached { min_cost: c2, optimal_cells: cells2 },
        ) => {
            lemma_min_cost_unique(g, c1 as nat, c2 as nat);
            lemma_best_cells_unique(g, cells1@, cells2@);
        },
        (Outcome::Reached { min_cost, .. }, Outcome::Unreachable) => {
            let p = choose|p: Seq<State>| is_goal_route(g, p) && walk_cost(g.turn, p) == min_cost as nat;
            assert(is_goal_route(g, p));
        },
        (Outcome::Unreachable, Outcome::Reached { min_cost, .. }) => {
            let p = choose|p: Seq<State>| is_goal_route(g, p) && walk_cost(g.turn, p) == min_cost as nat;
            assert(is_goal_route(g, p));
        },
        _ => {},
    }
}

/// The grid with a wall put on the cell (`row`, `col`).
pub open spec fn walled(g: GridModel, row: int, col: int) -> GridModel {
    GridModel {
        cells: g.cells.update(row, g.cells[row].update(col, Cell::Wall)),
        start: g.start,
        goal: g.goal,
        facing: g.facing,
        turn: g.turn,
    }
}

/// What is open after a wall was added was open before, and what was open
/// before is open after unless it is the walled cell.
pub proof fn lemma_walled_open(g: GridModel, row: int, col: int, r: int, c: int)
    requires
        g.rectangular(),
        g.in_bounds(row, col),
    ensures
        walled(g, row, col).rows() == g.rows(),
        walled(g, row, col).cols() == g.cols(),
        walled(g, row, col).is_open(r, c) <==> g.is_open(r, c) && !(r == row && c == col),
{
    let w = walled(g, row, col);
    assert(g.cells[0].len() == g.cols());
    assert(g.cells[row].len() == g.cols());
    if g.in_bounds(r, c) {
        assert(g.cells[r].len() == g.cols());
    }
}

/// A walk of the walled grid is a walk of the grid.
pub proof fn lemma_walk_before_wall(g: GridModel, row: int, col: int, p: Seq<State>)
    requires
        g.rectangular(),
        g.in_bounds(row, col),
        is_walk(walled(g, row, col), p),
    ensures
        is_walk(g, p),
{
    let w = walled(g, row, col);
    lemma_walled_open(g, row, col, p[0].row, p[0].col);
    assert forall|i: int| 0 <= i < p.len() - 1 implies #[trigger] step_at(g, p, i) by {
        assert(step_at(w, p, i));
        lemma_walled_open(g, row, col, p[i + 1].row, p[i + 1].col);
    }
}

/// A walk of the grid that keeps off the walled cell is a walk of the walled
/// grid.
pub proof fn lemma_walk_after_wall(g: GridModel, row: int, col: int, p: Seq<State>)
    requires
        g.rectangular(),
        g.in_bounds(row, col),
        is_walk(g, p),
        forall|i: int| !#[trigger] passes(p, i, row, col),
    ensures
        is_walk(walled(g, row, col), p),
{
    let w = walled(g, row, col);
    lemma_walled_open(g, row, col, p[0].row, p[0].col);
    assert(!passes(p, 0, row, col));
    assert forall|i: int| 0 <= i < p.len() - 1 implies #[trigger] step_at(w, p, i) by {
        assert(step_at(g, p, i));
        assert(!passes(p, i + 1, row, col));
        lemma_walled_open(g, row, col, p[i + 1].row, p[i + 1].col);
    }
}

/// A wall added to a cell never makes the goal cheaper to reach, nor
/// reachable where it was not.
pub proof fn law_wall_never_lowers_cost(g: GridModel, row: int, col: int, cost: nat, walled_cost: nat)
    requires
        g.wf(),
        g.in_bounds(row, col),
        walled(g, row, col).wf(),
        is_min_cost(g, cost),
        is_min_cost(walled(g, row, col), walled_cost),
    ensures
        walled_cost >= cost,
{
    let w = walled(g, row, col);
    let p = choose|p: Seq<State>| is_goal_route(w, p) && walk_cost(g.turn, p) == walled_cost;
    lemma_walk_before_wall(g, row, col, p);
    assert(is_goal_route(g, p));
}

/// A wall added to a cell cannot make the goal reachable.
pub proof fn law_wall_never_opens_route(g: GridModel, row: int, col: int)
    requires
        g.wf(),
        g.in_bounds(row, col),
        reachable(walled(g, row, col)),
    ensures
        reachable(g),
{
    let w = walled(g, row, col);
    let p = choose|p: Seq<State>| is_goal_route(w, p);
    lemma_walk_before_wall(g, row, col, p);
    assert(is_goal_route(g, p));
}

/// A wall added to a cell that lies on no best route leaves the least cost
/// as it was.
pub proof fn law_wall_off_best_routes_keeps_cost(g: GridModel, row: int, col: int, cost: nat)
    requires
        g.wf(),
        g.in_bounds(row, col),
        walled(g, row, col).wf(),
        !on_best_route(g, row, col),
        is_min_cost(g, cost),
    ensures
        is_min_cost(walled(g, row, col), cost),
{
    let w = walled(g, row, col);
    let p = choose|p: Seq<State>| is_goal_route(g, p) && walk_cost(g.turn, p) == cost;
    lemma_best_route_cost(g, p, cost);
    assert forall|i: int| !#[trigger] passes(p, i, row, col) by {}
    lemma_walk_after_wall(g, row, col, p);
    assert(is_goal_route(w, p) && walk_cost(g.turn, p) == cost);
    assert forall|q: Seq<State>| is_goal_route(w, q) implies walk_cost(g.turn, q) >= cost by {
        lemma_walk_before_wall(g, row, col, q);
        assert(is_goal_route(g, q));
    }
}

} // verus!
