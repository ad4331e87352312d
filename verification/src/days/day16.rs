//! The reindeer maze: cheapest oriented route through a grid, and every cell
//! that lies on some cheapest route.

use vstd::prelude::*;

pub mod certify;
pub mod codec;
pub mod flags;
pub mod search;
pub mod solver;
pub mod trace;
pub mod frontier;
pub mod graph;
pub mod grid;
pub mod laws;
pub mod route;

use crate::days::day16::graph::{is_min_cost, reachable};
use crate::days::day16::grid::{
    chart, find_char, first_at, occurs, shape, ConstructionError, Grid, GridModel, TURN_STEP,
};
use crate::days::day16::solver::{lists_best_cells, solve, Outcome};

verus! {

/// The direction a traveller faces, which is also the direction of the step
/// that brought it to its cell.
#[derive(Debug, Copy, Clone, PartialEq, Eq, Hash, Structural)]
pub enum Moving {
    Right,
    Left,
    Up,
    Down,
}

/// The slot of a direction in a table of four.
pub open spec fn moving_slot(moving: Moving) -> int {
    match moving {
        Moving::Right => 0,
        Moving::Left => 1,
        Moving::Up => 2,
        Moving::Down => 3,
    }
}

/// The change of (row, column) that one step in a direction makes.
pub open spec fn delta(moving: Moving) -> (int, int) {
    match moving {
        Moving::Right => (0, 1),
        Moving::Left => (0, -1),
        Moving::Up => (-1, 0),
        Moving::Down => (1, 0),
    }
}

/// The four neighbours of a position with the direction that leads to each,
/// in the order right, left, down, up.
pub open spec fn adjacent_model(row: int, col: int) -> Seq<(int, int, Moving)> {
    seq![
        (row, col + 1, Moving::Right),
        (row, col - 1, Moving::Left),
        (row + 1, col, Moving::Down),
        (row - 1, col, Moving::Up),
    ]
}

/// The direction of the `k`-th of the four moves.
pub open spec fn nth_move(k: int) -> Moving {
    adjacent_model(0, 0)[k].2
}

/// The number of a direction: 0 for right, 1 for left, 2 for up, 3 for down.
pub fn moving_index(moving: Moving) -> (index: usize)
    ensures
        index == moving_slot(moving),
{
    match moving {
        Moving::Right => 0,
        Moving::Left => 1,
        Moving::Up => 2,
        Moving::Down => 3,
    }
}

/// The four neighbours of `pos`, each with the direction of the step.
pub fn adjacent(pos: (isize, isize)) -> (out: Vec<(isize, isize, Moving)>)
    requires
        isize::MIN < pos.0 < isize::MAX,
        isize::MIN < pos.1 < isize::MAX,
    ensures
        out@.len() == 4,
        forall|k: int|
            0 <= k < 4 ==> (#[trigger] out@[k]).0 == adjacent_model(pos.0 as int, pos.1 as int)[k].0
                && out@[k].1 == adjacent_model(pos.0 as int, pos.1 as int)[k].1
                && out@[k].2 == adjacent_model(pos.0 as int, pos.1 as int)[k].2,
{
    let mut out: Vec<(isize, isize, Moving)> = Vec::new();
    out.push((pos.0, pos.1 + 1, Moving::Right));
    out.push((pos.0, pos.1 - 1, Moving::Left));
    out.push((pos.0 + 1, pos.1, Moving::Down));
    out.push((pos.0 - 1, pos.1, Moving::Up));
    out
}

/// The position of the first `c` on the map, reading row by row.
pub fn char_position(map: &Vec<Vec<char>>, c: char) -> (pos: (isize, isize))
    requires
        occurs(map@, c),
        map@.len() <= isize::MAX,
        forall|r: int| 0 <= r < map@.len() ==> (#[trigger] map@[r])@.len() <= isize::MAX,
    ensures
        first_at(map@, c, pos.0 as int, pos.1 as int),
{
    match find_char(map, c) {
        Some(found) => (found.0 as isize, found.1 as isize),
        None => (0, 0),
    }
}

/// What `shortest_path` owes for a grid: nothing where no route leads to the
/// goal, else the least cost and the number of cells on routes of that cost.
pub open spec fn is_answer(g: GridModel, answer: Option<(usize, usize)>) -> bool {
    match answer {
        None => !reachable(g),
        Some((cost, seats)) => is_min_cost(g, cost as nat) && exists|cells: Seq<(usize, usize)>|
            #[trigger] lists_best_cells(g, cells) && seats == cells.len(),
    }
}

/// The least cost from the first `S` of the map, facing right, to the first
/// `E`, and the number of cells that lie on a route of that cost; `None`
/// inside where no route exists. Fails exactly where the map is no grid.
pub fn shortest_path(map: &Vec<Vec<char>>) -> (out: Result<Option<(usize, usize)>, ConstructionError>)
    ensures
        match out {
            Ok(answer) => exists|g: GridModel|
                #[trigger] parses_to(map@, g) && is_answer(g, answer),
            Err(ConstructionError::InconsistentRows) => !shape(chart(map@)).rectangular(),
            Err(ConstructionError::TooLarge) => shape(chart(map@)).rectangular() && !shape(
                chart(map@),
            ).fits(),
            Err(ConstructionError::NoStart) => shape(chart(map@)).rectangular() && shape(
                chart(map@),
            ).fits() && !occurs(map@, 'S'),
            Err(ConstructionError::NoGoal) => shape(chart(map@)).rectangular() && shape(
                chart(map@),
            ).fits() && occurs(map@, 'S') && !occurs(map@, 'E'),
        },
{
    let grid = match Grid::parse(map) {
        Err(error) => {
            return Err(error);
        },
        Ok(grid) => grid,
    };
    assert(parses_to(map@, grid@));
    match solve(&grid) {
        Outcome::Unreachable => Ok(None),
        Outcome::Reached { min_cost, optimal_cells } => {
            let seats = optimal_cells.len();
            assert(lists_best_cells(grid@, optimal_cells@));
            Ok(Some((min_cost, seats)))
        },
    }
}

/// `g` is the grid that the map stands for.
pub open spec fn parses_to(map: Seq<Vec<char>>, g: GridModel) -> bool {
    &&& g.wf()
    &&& g.cells == chart(map)
    &&& first_at(map, 'S', g.start.0, g.start.1)
    &&& first_at(map, 'E', g.goal.0, g.goal.1)
    &&& g.facing == Moving::Right
    &&& g.turn == TURN_STEP
}

} // verus!
