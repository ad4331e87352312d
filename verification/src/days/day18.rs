//! Falling bytes: the fewest steps from one corner of a memory space to the
//! other, and the first byte that cuts the corners off from each other.

use vstd::prelude::*;
use crate::days::day16::graph::{is_min_cost, lemma_walk_states_open, reachable, State};
use crate::days::day16::grid::{Cell, ConstructionError, Grid, GridModel};
use crate::days::day16::solver::{solve, Outcome};
use crate::days::day16::codec::state_count;
use crate::days::day16::Moving;
use crate::plane::{around, char_or_wall, neighbours, rectangular, rows_reach, value_on};

verus! {

/// The four neighbours of `pos`, in the order right, left, down, up.
pub fn adjacent(pos: (isize, isize)) -> (out: Vec<(isize, isize)>)
    requires
        isize::MIN < pos.0 < isize::MAX,
        isize::MIN < pos.1 < isize::MAX,
    ensures
        out@.len() == 4,
        forall|k: int|
            0 <= k < 4 ==> ((#[trigger] out@[k]).0 as int, out@[k].1 as int) == around(
                pos.0 as int,
                pos.1 as int,
            )[k],
{
    neighbours(pos)
}

/// The character at `p`, a `#` off the map.
pub fn map_value(map: &Vec<Vec<char>>, p: (isize, isize)) -> (c: char)
    requires
        rows_reach(map@),
    ensures
        c == value_on(map@, p.0 as int, p.1 as int),
{
    char_or_wall(map, p)
}

/// The cells of a memory space: `#` is a corrupted cell, but the corner
/// where the walk begins counts as open whatever stands there.
pub open spec fn memory(map: Seq<Seq<char>>) -> Seq<Seq<Cell>> {
    Seq::new(
        map.len(),
        |r: int|
            Seq::new(
                map[r].len(),
                |c: int|
                    if map[r][c] == '#' && !(r == 0 && c == 0) {
                        Cell::Wall
                    } else {
                        Cell::Open
                    },
            ),
    )
}

/// The memory space as a grid on which every step costs one: from the top
/// left corner to the bottom right.
pub open spec fn memory_grid(map: Seq<Seq<char>>) -> GridModel {
    GridModel {
        cells: memory(map),
        start: (0, 0),
        goal: (map.len() - 1, map[0].len() - 1),
        facing: Moving::Right,
        turn: 1,
    }
}

/// The cells of the map, with (`row`, `col`) open whatever stands there.
fn cells_with_open(map: &Vec<Vec<char>>, row: usize, col: usize) -> (cells: Vec<Vec<Cell>>)
    ensures
        cells@.len() == map@.len(),
        forall|r: int| 0 <= r < map@.len() ==> (#[trigger] cells@[r])@.len() == map@[r]@.len(),
        forall|r: int, c: int|
            0 <= r < map@.len() && 0 <= c < map@[r]@.len() ==> #[trigger] cells@[r]@[c] == if map@[r]@[c]
                == '#' && !(r == row && c == col) {
                Cell::Wall
            } else {
                Cell::Open
            },
{
    let mut cells: Vec<Vec<Cell>> = Vec::new();
    let mut r: usize = 0;
    while r < map.len()
        invariant
            r <= map@.len(),
            cells@.len() == r,
            forall|i: int| 0 <= i < r ==> (#[trigger] cells@[i])@.len() == map@[i]@.len(),
            forall|i: int, c: int|
                0 <= i < r && 0 <= c < map@[i]@.len() ==> #[trigger] cells@[i]@[c] == if map@[i]@[c]
                    == '#' && !(i == row && c == col) {
                    Cell::Wall
                } else {
                    Cell::Open
                },
        decreases map@.len() - r,
    {
        let line = &map[r];
        let mut made: Vec<Cell> = Vec::new();
        let mut c: usize = 0;
        while c < line.len()
            invariant
                r < map@.len(),
                line == map@[r as int],
                c <= line@.len(),
                made@.len() == c,
                forall|j: int|
                    0 <= j < c ==> #[trigger] made@[j] == if line@[j] == '#' && !(r == row && j == col) {
                        Cell::Wall
                    } else {
                        Cell::Open
                    },
            decreases line@.len() - c,
        {
            if line[c] == '#' && !(r == row && c == col) {
                made.push(Cell::Wall);
            } else {
                made.push(Cell::Open);
            }
            c += 1;
        }
        cells.push(made);
        r += 1;
    }
    cells
}

/// No walk leads from the top left corner to the bottom right.
pub open spec fn cut_off(map: Seq<Seq<char>>) -> bool {
    !reachable(memory_grid(map))
}

/// The rows of a map as sequences.
pub open spec fn rows_of(map: Seq<Vec<char>>) -> Seq<Seq<char>> {
    Seq::new(map.len(), |r: int| map[r]@)
}

/// The fewest steps from the top left corner to the bottom right that keep
/// off the cells marked `#`; `None` where there is no such walk.
pub fn shortest_path(map: &Vec<Vec<char>>) -> (steps: Option<i32>)
    requires
        rectangular(map@),
        map@.len() * map@[0]@.len() * 4 <= i32::MAX,
    ensures
        match steps {
            Some(d) => d >= 0 && is_min_cost(memory_grid(rows_of(map@)), d as nat),
            None => cut_off(rows_of(map@)),
        },
{
    let rows = map.len();
    let cols = map[0].len();
    let cells = cells_with_open(map, 0, 0);
    let ghost g = memory_grid(rows_of(map@));
    proof {
        assert(crate::days::day16::grid::rows_model(cells@) =~= memory(rows_of(map@))) by {
            assert forall|r: int| 0 <= r < map@.len() implies #[trigger] cells@[r]@ =~= memory(
                rows_of(map@),
            )[r] by {}
        }
        assert(g.rows() == rows && g.cols() == cols);
        assert(g.rectangular());
        assert(g.rows() * g.cols() * 4 * g.turn == map@.len() * map@[0]@.len() * 4) by (nonlinear_arith)
            requires
                g.turn == 1,
                g.rows() == map@.len(),
                g.cols() == map@[0]@.len(),
        ;
    }
    match Grid::with_turn_cost(cells, (0, 0), Moving::Right, (rows - 1, cols - 1), 1) {
        Err(error) => {
            proof {
                assert(error == ConstructionError::NoGoal);
                if reachable(g) {
                    let p = choose|p: Seq<State>| crate::days::day16::graph::is_goal_route(g, p);
                    lemma_walk_states_open(g, p, p.len() - 1);
                }
            }
            None
        },
        Ok(grid) => {
            assert(grid@ == g);
            match solve(&grid) {
                Outcome::Unreachable => None,
                Outcome::Reached { min_cost, .. } => {
                    proof {
                        assert(state_count(g) == map@.len() * map@[0]@.len() * 4);
                        assert(g.turn * state_count(g) == state_count(g)) by (nonlinear_arith)
                            requires
                                g.turn == 1,
                        ;
                    }
                    Some(min_cost as i32)
                },
            }
        },
    }
}

/// A memory space of `size` rows and columns with no cell corrupted.
pub fn memory_space(size: usize) -> (map: Vec<Vec<char>>)
    ensures
        map@.len() == size,
        forall|r: int| 0 <= r < size ==> (#[trigger] map@[r])@.len() == size,
        forall|r: int, c: int| 0 <= r < size && 0 <= c < size ==> #[trigger] map@[r]@[c] == '.',
{
    let mut map: Vec<Vec<char>> = Vec::new();
    let mut r: usize = 0;
    while r < size
        invariant
            r <= size,
            map@.len() == r,
            forall|i: int| 0 <= i < r ==> (#[trigger] map@[i])@.len() == size,
            forall|i: int, c: int| 0 <= i < r && 0 <= c < size ==> #[trigger] map@[i]@[c] == '.',
        decreases size - r,
    {
        let mut line: Vec<char> = Vec::new();
        let mut c: usize = 0;
        while c < size
            invariant
                c <= size,
                line@.len() == c,
                forall|j: int| 0 <= j < c ==> #[trigger] line@[j] == '.',
            decreases size - c,
        {
            line.push('.');
            c += 1;
        }
        map.push(line);
        r += 1;
    }
    map
}

/// The bytes at (x, y) positions all lie on the map.
pub open spec fn bytes_on_map(map: Seq<Vec<char>>, positions: Seq<(usize, usize)>) -> bool {
    forall|i: int|
        0 <= i < positions.len() ==> (#[trigger] positions[i]).1 < map.len() && positions[i].0
            < map[0]@.len()
}

/// The map after the byte at (`x`, `y`) fell.
pub open spec fn with_byte(map: Seq<Seq<char>>, x: int, y: int) -> Seq<Seq<char>> {
    map.update(y, map[y].update(x, '#'))
}

/// The map after the bytes number `from` up to `to` fell.
pub open spec fn after_bytes(
    map: Seq<Seq<char>>,
    positions: Seq<(usize, usize)>,
    from: int,
    to: int,
) -> Seq<Seq<char>>
    decreases to - from,
{
    if to <= from {
        map
    } else {
        with_byte(
            after_bytes(map, positions, from, to - 1),
            positions[to - 1].0 as int,
            positions[to - 1].1 as int,
        )
    }
}

/// Marks the cells of the bytes number `from` up to `to` as corrupted.
pub fn drop_bytes(map: &mut Vec<Vec<char>>, positions: &Vec<(usize, usize)>, from: usize, to: usize)
    requires
        rectangular(old(map)@),
        bytes_on_map(old(map)@, positions@),
        from <= to <= positions@.len(),
    ensures
        rectangular(final(map)@),
        final(map)@.len() == old(map)@.len(),
        final(map)@[0]@.len() == old(map)@[0]@.len(),
        rows_of(final(map)@) == after_bytes(rows_of(old(map)@), positions@, from as int, to as int),
{
    let ghost origin = rows_of(map@);
    let ghost rows = map@.len();
    let ghost cols = map@[0]@.len();
    let mut i: usize = from;
    while i < to
        invariant
            from <= i <= to <= positions@.len(),
            map@.len() == rows,
            rows > 0,
            cols > 0,
            forall|r: int| 0 <= r < rows ==> (#[trigger] map@[r])@.len() == cols,
            forall|k: int|
                0 <= k < positions@.len() ==> (#[trigger] positions@[k]).1 < rows && positions@[k].0
                    < cols,
            rows_of(map@) == after_bytes(origin, positions@, from as int, i as int),
        decreases to - i,
    {
        let p = positions[i];
        let ghost before = rows_of(map@);
        map[p.1][p.0] = '#';
        proof {
            assert(rows_of(map@) =~= with_byte(before, p.0 as int, p.1 as int));
        }
        i += 1;
    }
}

/// After the bytes number `from` up to and with `k` fell, no walk leads from
/// corner to corner.
pub open spec fn cut_after(
    map: Seq<Seq<char>>,
    positions: Seq<(usize, usize)>,
    from: int,
    k: int,
) -> bool {
    cut_off(after_bytes(map, positions, from, k + 1))
}

/// The first byte from number `from` on after whose fall no walk leads from
/// corner to corner; `None` where every byte leaves a walk.
pub fn first_cut(map: Vec<Vec<char>>, positions: &Vec<(usize, usize)>, from: usize) -> (cut: Option<
    (usize, usize),
>)
    requires
        rectangular(map@),
        map@.len() * map@[0]@.len() * 4 <= i32::MAX,
        bytes_on_map(map@, positions@),
        from <= positions@.len(),
    ensures
        match cut {
            Some(p) => exists|k: int|
                from <= k < positions@.len() && p == positions@[k] && #[trigger] cut_after(
                    rows_of(map@),
                    positions@,
                    from as int,
                    k,
                ) && forall|j: int|
                    from <= j < k ==> !#[trigger] cut_after(rows_of(map@), positions@, from as int, j),
            None => forall|j: int|
                from <= j < positions@.len() ==> !#[trigger] cut_after(
                    rows_of(map@),
                    positions@,
                    from as int,
                    j,
                ),
        },
{
    let ghost origin = rows_of(map@);
    let ghost rows = map@.len();
    let ghost cols = map@[0]@.len();
    let mut space = map;
    let mut i: usize = from;
    while i < positions.len()
        invariant
            from <= i <= positions@.len(),
            origin == rows_of(map@),
            rectangular(space@),
            space@.len() == rows,
            space@[0]@.len() == cols,
            rows * cols * 4 <= i32::MAX,
            bytes_on_map(space@, positions@),
            rows_of(space@) == after_bytes(origin, positions@, from as int, i as int),
            forall|j: int| from <= j < i ==> !#[trigger] cut_after(origin, positions@, from as int, j),
        decreases positions@.len() - i,
    {
        let ghost before = rows_of(space@);
        drop_bytes(&mut space, positions, i, i + 1);
        proof {
            assert(after_bytes(before, positions@, i as int, i as int) == before);
            assert(rows_of(space@) == after_bytes(origin, positions@, from as int, i + 1));
        }
        match shortest_path(&space) {
            None => {
                assert(cut_after(origin, positions@, from as int, i as int));
                return Some(positions[i]);
            },
            Some(steps) => {
                proof {
                    let g = memory_grid(rows_of(space@));
                    let p = choose|p: Seq<State>|
                        crate::days::day16::graph::is_goal_route(g, p) && crate::days::day16::graph::walk_cost(
                            g.turn,
                            p,
                        ) == steps as nat;
                    assert(crate::days::day16::graph::is_goal_route(g, p));
                    assert(!cut_after(origin, positions@, from as int, i as int));
                }
            },
        }
        i += 1;
    }
    None
}

} // verus!
