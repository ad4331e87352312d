//! Numbering of the states: each state of a grid has one number below
//! `4 * rows * cols`, by which the tables of the search are indexed.

use vstd::prelude::*;
use vstd::arithmetic::div_mod::lemma_fundamental_div_mod_converse;
use crate::days::day16::{adjacent, adjacent_model, moving_index, moving_slot, nth_move, Moving};
use crate::days::day16::grid::{Classification, Grid, GridModel};
use crate::days::day16::graph::{moved, State};

verus! {

/// The direction with the number `slot`.
pub open spec fn moving_at(slot: int) -> Moving {
    if slot == 0 {
        Moving::Right
    } else if slot == 1 {
        Moving::Left
    } else if slot == 2 {
        Moving::Up
    } else {
        Moving::Down
    }
}

/// How many states the grid has.
pub open spec fn state_count(g: GridModel) -> int {
    g.rows() * g.cols() * 4
}

/// The number of a state.
pub open spec fn id_of(g: GridModel, s: State) -> int {
    (s.row * g.cols() + s.col) * 4 + moving_slot(s.facing)
}

/// The state with a given number.
pub open spec fn node(g: GridModel, id: int) -> State {
    State { row: (id / 4) / g.cols(), col: (id / 4) % g.cols(), facing: moving_at(id % 4) }
}

/// The number of the state that a step in direction `moving` from state
/// number `id` leads to, if that step is legal.
pub open spec fn succ_id(g: GridModel, id: int, moving: Moving) -> Option<int> {
    let to = moved(node(g, id), moving);
    if g.is_open(to.row, to.col) {
        Some(id_of(g, to))
    } else {
        None
    }
}

/// What the step from state number `id` in direction `moving` costs.
pub open spec fn move_cost(turn: int, id: int, moving: Moving) -> int {
    if id % 4 == moving_slot(moving) {
        1
    } else {
        turn
    }
}

/// A well-formed grid has a state, and its states and the costs of their routes can be counted in `usize`.
pub proof fn lemma_state_count(g: GridModel)
    requires
        g.wf(),
    ensures
        0 < state_count(g),
        g.turn * state_count(g) <= usize::MAX,
        state_count(g) <= usize::MAX,
        g.rows() * g.cols() > 0,
{
    let r = g.rows();
    let c = g.cols();
    let t = g.turn;
    assert(r * c > 0) by (nonlinear_arith)
        requires
            r > 0,
            c > 0,
    ;
    assert(r * c * 4 * t == t * (r * c * 4)) by (nonlinear_arith);
    assert(r * c * 4 <= t * (r * c * 4)) by (nonlinear_arith)
        requires
            t >= 1,
            r * c > 0,
    ;
}

/// The number of a state on the grid is in range, and leads back to it.
pub proof fn lemma_id_of(g: GridModel, s: State)
    requires
        g.rectangular(),
        g.in_bounds(s.row, s.col),
    ensures
        0 <= id_of(g, s) < state_count(g),
        node(g, id_of(g, s)) == s,
        id_of(g, s) % 4 == moving_slot(s.facing),
{
    let c = g.cols();
    let r = g.rows();
    let cell = s.row * c + s.col;
    let k = moving_slot(s.facing);
    assert(0 <= cell < r * c) by (nonlinear_arith)
        requires
            0 <= s.row < r,
            0 <= s.col < c,
            cell == s.row * c + s.col,
    ;
    lemma_fundamental_div_mod_converse(id_of(g, s), 4, cell, k);
    lemma_fundamental_div_mod_converse(cell, c, s.row, s.col);
    assert(moving_at(k) == s.facing);
}

/// A number in range is that of a state on the grid.
pub proof fn lemma_node(g: GridModel, id: int)
    requires
        g.rectangular(),
        0 <= id < state_count(g),
    ensures
        g.in_bounds(node(g, id).row, node(g, id).col),
        id_of(g, node(g, id)) == id,
{
    let c = g.cols();
    let r = g.rows();
    let cell = id / 4;
    assert(0 <= cell < r * c);
    vstd::arithmetic::div_mod::lemma_fundamental_div_mod(cell, c);
    vstd::arithmetic::div_mod::lemma_mod_bound(cell, c);
    let row = cell / c;
    let col = cell % c;
    assert(cell == c * row + col);
    assert(0 <= row < r) by (nonlinear_arith)
        requires
            cell == c * row + col,
            0 <= col < c,
            0 <= cell < r * c,
            c > 0,
    ;
    assert(c * row == row * c) by (nonlinear_arith);
    let k = id % 4;
    assert(moving_slot(moving_at(k)) == k);
}

/// What the step from state number `id` in direction `moving` costs.
pub fn weight(grid: &Grid, id: usize, moving: Moving) -> (w: usize)
    ensures
        grid@.wf(),
        w == move_cost(grid@.turn, id as int, moving),
        1 <= w <= grid@.turn,
{
    let turn = grid.turn_cost();
    if id % 4 == moving_index(moving) {
        1
    } else {
        turn
    }
}

/// The direction of the `k`-th of the four moves.
pub fn move_at(k: usize) -> (moving: Moving)
    requires
        k < 4,
    ensures
        moving == nth_move(k as int),
{
    if k == 0 {
        Moving::Right
    } else if k == 1 {
        Moving::Left
    } else if k == 2 {
        Moving::Down
    } else {
        Moving::Up
    }
}

/// Every direction is one of the four moves.
pub proof fn lemma_nth_move(moving: Moving) -> (k: int)
    ensures
        0 <= k < 4,
        nth_move(k) == moving,
{
    match moving {
        Moving::Right => 0,
        Moving::Left => 1,
        Moving::Down => 2,
        Moving::Up => 3,
    }
}

/// The number of the start state.
pub fn start_id(grid: &Grid) -> (id: usize)
    ensures
        grid@.wf(),
        id == id_of(grid@, crate::days::day16::graph::start_state(grid@)),
        id < state_count(grid@),
{
    let start = grid.start();
    let facing = grid.start_facing();
    encode(grid, start.0, start.1, facing)
}

/// The number of the state at (`row`, `col`) facing `facing`.
pub fn encode(grid: &Grid, row: usize, col: usize, facing: Moving) -> (id: usize)
    requires
        grid@.in_bounds(row as int, col as int),
    ensures
        grid@.wf(),
        id == id_of(grid@, State { row: row as int, col: col as int, facing }),
        id < state_count(grid@),
{
    let cols = grid.cols();
    proof {
        let s = State { row: row as int, col: col as int, facing };
        lemma_id_of(grid@, s);
        lemma_state_count(grid@);
        assert(0 <= row * cols + col < grid@.rows() * grid@.cols()) by (nonlinear_arith)
            requires
                0 <= row < grid@.rows(),
                0 <= col < grid@.cols(),
                cols == grid@.cols(),
        ;
        assert(0 <= row * cols <= row * cols + col) by (nonlinear_arith)
            requires
                0 <= row,
                0 <= col,
                0 <= cols,
        ;
    }
    (row * cols + col) * 4 + moving_index(facing)
}

/// The state number reached from `id` by the `k`-th of the four moves, with
/// the direction of that move; `None` where the move is not legal.
pub fn step(grid: &Grid, id: usize, k: usize) -> (out: (Moving, Option<usize>))
    requires
        id < state_count(grid@),
        k < 4,
    ensures
        grid@.wf(),
        out.0 == nth_move(k as int),
        match out.1 {
            Some(to) => succ_id(grid@, id as int, out.0) == Some(to as int) && to < state_count(
                grid@,
            ),
            None => succ_id(grid@, id as int, out.0) is None,
        },
{
    let cols = grid.cols();
    proof {
        lemma_state_count(grid@);
        lemma_node(grid@, id as int);
    }
    let cell = id / 4;
    let row = cell / cols;
    let col = cell % cols;
    let around = adjacent((row as isize, col as isize));
    let (y, x, moving) = around[k];
    assert(moving == adjacent_model(row as int, col as int)[k as int].2);
    assert(y == adjacent_model(row as int, col as int)[k as int].0);
    assert(x == adjacent_model(row as int, col as int)[k as int].1);
    let ghost to = moved(node(grid@, id as int), moving);
    assert(to.row == y && to.col == x);
    match grid.classify(y, x) {
        Classification::Open => {
            let next = encode(grid, y as usize, x as usize, moving);
            (moving, Some(next))
        },
        _ => (moving, None),
    }
}

} // verus!
