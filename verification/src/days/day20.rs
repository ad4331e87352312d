//! The race track: a shortest track from start to end, and the time that
//! cheats through the walls save.

use vstd::prelude::*;

use crate::days::day16::graph::{lemma_walk_states_open, reachable, State};
use crate::days::day16::grid::{find_char, first_at, occurs, Cell, Grid, GridModel};
use crate::days::day16::route::{is_best_track, one_best_route};
use crate::days::day16::search::search;
use crate::days::day16::solver::best_goal_cost;
use crate::days::day16::Moving;
use crate::plane::{around, char_or_wall, neighbours, rectangular, rows_reach, value_on};

verus! {

/// A position given by its column `x` and its row `y`.
#[derive(Debug, Copy, Clone, PartialEq, Eq, Hash, Structural)]
pub struct Point {
    pub x: isize,
    pub y: isize,
}

/// The distance of a number from nought.
pub open spec fn abs(v: int) -> int {
    if v < 0 {
        -v
    } else {
        v
    }
}

/// The number of steps between two positions when walls do not count.
pub open spec fn manhattan(ax: int, ay: int, bx: int, by: int) -> int {
    abs(bx - ax) + abs(by - ay)
}

/// The distance between two points, along the axes.
pub fn manhatten(a: Point, b: Point) -> (d: isize)
    requires
        manhattan(a.x as int, a.y as int, b.x as int, b.y as int) <= isize::MAX,
    ensures
        d == manhattan(a.x as int, a.y as int, b.x as int, b.y as int),
{
    let dx = gap(a.x, b.x);
    let dy = gap(a.y, b.y);
    (dx + dy) as isize
}

/// The distance between two numbers.
fn gap(a: isize, b: isize) -> (d: usize)
    ensures
        d == abs(b - a),
{
    if a <= b {
        if a >= 0 || b < 0 {
            (b - a) as usize
        } else {
            // a < 0 <= b
            (b as usize) + ((-(a + 1)) as usize) + 1
        }
    } else {
        if b >= 0 || a < 0 {
            (a - b) as usize
        } else {
            (a as usize) + ((-(b + 1)) as usize) + 1
        }
    }
}

/// The four neighbours of `pos`, in the order right, left, down, up.
pub fn adjacent(pos: (isize, isize)) -> (out: Vec<(isize, isize)>)
    requires
        isize::MIN < pos.0 < isize::MAX,
        isize::MIN < pos.1 < isize::MAX,
    ensures
        out@.len() == 4,
        forall|k: int|
            0 <= k < 4 ==> ((#[trigger] out@[k]).0 as int, out@[k].1 as int) == around(
                pos.0 as int,
                pos.1 as int,
            )[k],
{
    neighbours(pos)
}

/// The character at `p`, a `#` off the map.
pub fn map_value(map: &Vec<Vec<char>>, p: (isize, isize)) -> (c: char)
    requires
        rows_reach(map@),
    ensures
        c == value_on(map@, p.0 as int, p.1 as int),
{
    char_or_wall(map, p)
}

/// The position of the first `c` on the map, reading row by row.
pub fn char_position(map: &Vec<Vec<char>>, c: char) -> (pos: (isize, isize))
    requires
        occurs(map@, c),
        map@.len() <= isize::MAX,
        forall|r: int| 0 <= r < map@.len() ==> (#[trigger] map@[r])@.len() <= isize::MAX,
    ensures
        first_at(map@, c, pos.0 as int, pos.1 as int),
{
    match find_char(map, c) {
        Some(found) => (found.0 as isize, found.1 as isize),
        None => (0, 0),
    }
}

/// The cells of a track: `#` is a wall, but the cell (`row`, `col`) counts
/// as open whatever stands there.
pub open spec fn track_cells(map: Seq<Vec<char>>, row: int, col: int) -> Seq<Seq<Cell>> {
    Seq::new(
        map.len(),
        |r: int|
            Seq::new(
                map[r]@.len(),
                |c: int|
                    if map[r]@[c] == '#' && !(r == row && c == col) {
                        Cell::Wall
                    } else {
                        Cell::Open
                    },
            ),
    )
}

/// The track as a grid on which every step costs one, with the end open.
pub open spec fn track_grid(map: Seq<Vec<char>>, start: (int, int), end: (int, int)) -> GridModel {
    GridModel {
        cells: track_cells(map, end.0, end.1),
        start,
        goal: end,
        facing: Moving::Right,
        turn: 1,
    }
}

/// The positions of a path as pairs of row and column numbers.
pub open spec fn as_cells(path: Seq<(isize, isize)>) -> Seq<(usize, usize)> {
    Seq::new(path.len(), |i: int| (path[i].0 as usize, path[i].1 as usize))
}

/// The cells of the map, with (`row`, `col`) open whatever stands there.
fn cells_with_open(map: &Vec<Vec<char>>, row: usize, col: usize) -> (cells: Vec<Vec<Cell>>)
    ensures
        crate::days::day16::grid::rows_model(cells@) == track_cells(map@, row as int, col as int),
{
    let mut cells: Vec<Vec<Cell>> = Vec::new();
    let mut r: usize = 0;
    while r < map.len()
        invariant
            r <= map@.len(),
            cells@.len() == r,
            forall|i: int|
                0 <= i < r ==> (#[trigger] cells@[i])@ == track_cells(map@, row as int, col as int)[i],
        decreases map@.len() - r,
    {
        let line = &map[r];
        let mut made: Vec<Cell> = Vec::new();
        let mut c: usize = 0;
        while c < line.len()
            invariant
                r < map@.len(),
                line == map@[r as int],
                c <= line@.len(),
                made@.len() == c,
                forall|j: int|
                    0 <= j < c ==> #[trigger] made@[j] == track_cells(map@, row as int, col as int)[r as int][j],
            decreases line@.len() - c,
        {
            if line[c] == '#' && !(r == row && c == col) {
                made.push(Cell::Wall);
            } else {
                made.push(Cell::Open);
            }
            c += 1;
        }
        assert(made@ =~= track_cells(map@, row as int, col as int)[r as int]);
        cells.push(made);
        r += 1;
    }
    assert(crate::days::day16::grid::rows_model(cells@) =~= track_cells(
        map@,
        row as int,
        col as int,
    ));
    cells
}

/// A shortest track from `start_pos` to `end_pos` that keeps off the cells
/// marked `#`, but for the end itself; `None` where there is none.
pub fn shortest_path(map: &Vec<Vec<char>>, start_pos: (isize, isize), end_pos: (isize, isize)) -> (out:
    Option<Vec<(isize, isize)>>)
    requires
        rectangular(map@),
        map@.len() * map@[0]@.len() * 4 <= isize::MAX,
        0 <= end_pos.0 < map@.len(),
        0 <= end_pos.1 < map@[0]@.len(),
    ensures
        match out {
            Some(path) => {
                &&& forall|i: int|
                    0 <= i < path@.len() ==> (#[trigger] path@[i]).0 >= 0 && path@[i].1 >= 0
                &&& is_best_track(
                    track_grid(
                        map@,
                        (start_pos.0 as int, start_pos.1 as int),
                        (end_pos.0 as int, end_pos.1 as int),
                    ),
                    as_cells(path@),
                )
            },
            None => !reachable(
                track_grid(
                    map@,
                    (start_pos.0 as int, start_pos.1 as int),
                    (end_pos.0 as int, end_pos.1 as int),
                ),
            ),
        },
{
    let ghost g = track_grid(
        map@,
        (start_pos.0 as int, start_pos.1 as int),
        (end_pos.0 as int, end_pos.1 as int),
    );
    let rows = map.len();
    let cols = map[0].len();
    let end = (end_pos.0 as usize, end_pos.1 as usize);
    proof {
        assert(g.cells[0].len() == cols);
        assert(g.rows() == rows && g.cols() == cols);
        assert forall|r: int| 0 <= r < g.rows() implies (#[trigger] g.cells[r]).len() == g.cols() by {
            assert(map@[r]@.len() == map@[0]@.len());
        }
        assert(g.rows() * g.cols() * 4 * g.turn == map@.len() * map@[0]@.len() * 4) by (nonlinear_arith)
            requires
                g.turn == 1,
                g.rows() == map@.len(),
                g.cols() == map@[0]@.len(),
        ;
        assert(g.is_open(g.goal.0, g.goal.1));
    }
    if start_pos.0 < 0 || start_pos.1 < 0 {
        proof {
            if reachable(g) {
                let p = choose|p: Seq<State>| crate::days::day16::graph::is_goal_route(g, p);
                lemma_walk_states_open(g, p, 0);
            }
        }
        return None;
    }
    let start = (start_pos.0 as usize, start_pos.1 as usize);
    let cells = cells_with_open(map, end.0, end.1);
    let grid = match Grid::with_turn_cost(cells, start, Moving::Right, end, 1) {
        Err(error) => {
            proof {
                if reachable(g) {
                    let p = choose|p: Seq<State>| crate::days::day16::graph::is_goal_route(g, p);
                    lemma_walk_states_open(g, p, 0);
                }
            }
            return None;
        },
        Ok(grid) => grid,
    };
    assert(grid@ == g);
    let tables = search(&grid);
    match best_goal_cost(&grid, &tables) {
        None => None,
        Some(best) => {
            let track = one_best_route(&grid, &tables, best);
            let mut path: Vec<(isize, isize)> = Vec::new();
            let mut i: usize = 0;
            proof {
                let p = choose|p: Seq<State>|
                    crate::days::day16::graph::is_best_route(g, p) && #[trigger] crate::days::day16::route::follows(
                        p,
                        track@,
                    );
                assert forall|j: int| 0 <= j < track@.len() implies (#[trigger] track@[j]).0 < rows
                    && track@[j].1 < cols by {
                    lemma_walk_states_open(g, p, j);
                }
                assert(rows <= rows * cols * 4 && cols <= rows * cols * 4) by (nonlinear_arith)
                    requires
                        rows >= 1,
                        cols >= 1,
                ;
            }
            while i < track.len()
                invariant
                    i <= track@.len(),
                    path@.len() == i,
                    rows <= isize::MAX,
                    cols <= isize::MAX,
                    forall|j: int|
                        0 <= j < track@.len() ==> (#[trigger] track@[j]).0 < rows && track@[j].1 < cols,
                    forall|j: int|
                        0 <= j < i ==> (#[trigger] path@[j]).0 == track@[j].0 && path@[j].1
                            == track@[j].1,
                decreases track@.len() - i,
            {
                let cell = track[i];
                path.push((cell.0 as isize, cell.1 as isize));
                i += 1;
            }
            assert(as_cells(path@) =~= track@);
            Some(path)
        },
    }
}

/// No later position of the path is the one at `i`.
pub open spec fn last_visit(path: Seq<(isize, isize)>, i: int) -> bool {
    forall|j: int| i < j < path.len() ==> #[trigger] path[j] != path[i]
}

/// What the cheat between the positions at `i` and `j` saves: the steps of
/// the path between them, less the steps of the cheat.
pub open spec fn saving(path: Seq<(isize, isize)>, i: int, j: int) -> int {
    abs(i - j) - manhattan(path[i].1 as int, path[i].0 as int, path[j].1 as int, path[j].0 as int)
}

/// The positions at `i` and `j` are each the last visit of its cell, and
/// lie within `reach` steps of each other.
pub open spec fn is_cheat(path: Seq<(isize, isize)>, reach: int, i: int, j: int) -> bool {
    last_visit(path, i) && last_visit(path, j) && manhattan(
        path[i].1 as int,
        path[i].0 as int,
        path[j].1 as int,
        path[j].0 as int,
    ) <= reach
}

/// The savings of the cheats from position `i` to the later positions before
/// `end`.
pub open spec fn cheat_row(path: Seq<(isize, isize)>, reach: int, i: int, end: int) -> Seq<int>
    decreases end,
{
    if end <= i + 1 || end <= 0 {
        Seq::empty()
    } else if is_cheat(path, reach, i, end - 1) {
        cheat_row(path, reach, i, end - 1).push(saving(path, i, end - 1))
    } else {
        cheat_row(path, reach, i, end - 1)
    }
}

/// The savings of the cheats from the positions before `end` to later
/// positions of the path.
pub open spec fn cheats(path: Seq<(isize, isize)>, reach: int, end: int) -> Seq<int>
    decreases end,
{
    if end <= 0 {
        Seq::empty()
    } else {
        cheats(path, reach, end - 1) + cheat_row(path, reach, end - 1, path.len() as int)
    }
}

/// Every coordinate of the path is small enough for distances to be added
/// up.
pub open spec fn near(path: Seq<(isize, isize)>) -> bool {
    forall|i: int|
        0 <= i < path.len() ==> -0x0fff_ffff <= (#[trigger] path[i]).0 <= 0x0fff_ffff
            && -0x0fff_ffff <= path[i].1 <= 0x0fff_ffff
}

/// Whether no later position of the path is the one at `i`.
fn is_last_visit(path: &Vec<(isize, isize)>, i: usize) -> (last: bool)
    requires
        i < path@.len(),
    ensures
        last == last_visit(path@, i as int),
{
    let n = path.len();
    let mut j: usize = i + 1;
    while j < n
        invariant
            i < j <= n,
            n == path@.len(),
            forall|k: int| i < k < j ==> #[trigger] path@[k] != path@[i as int],
        decreases n - j,
    {
        if path[j].0 == path[i].0 && path[j].1 == path[i].1 {
            return false;
        }
        j += 1;
    }
    true
}

/// For every two cells of the path that lie within `cheat_distance` steps
/// of each other, what the cheat between them saves.
pub fn find_cheats(path: &Vec<(isize, isize)>, cheat_distance: i32) -> (out: Vec<i32>)
    requires
        path@.len() <= 0x0fff_ffff,
        near(path@),
    ensures
        out@.len() == cheats(path@, cheat_distance as int, path@.len() as int).len(),
        forall|k: int|
            0 <= k < out@.len() ==> #[trigger] out@[k] == cheats(
                path@,
                cheat_distance as int,
                path@.len() as int,
            )[k],
{
    let n = path.len();
    let ghost reach = cheat_distance as int;
    let mut out: Vec<i32> = Vec::new();
    let ghost mut model: Seq<int> = Seq::empty();
    let mut i: usize = 0;
    while i < n
        invariant
            i <= n,
            n == path@.len(),
            n <= 0x0fff_ffff,
            near(path@),
            reach == cheat_distance as int,
            model == cheats(path@, reach, i as int),
            out@.len() == model.len(),
            forall|k: int| 0 <= k < out@.len() ==> #[trigger] out@[k] == model[k],
        decreases n - i,
    {
        let ghost base = model;
        let ghost mut row: Seq<int> = Seq::empty();
        if is_last_visit(path, i) {
            let mut j: usize = i + 1;
            while j < n
                invariant
                    i < j <= n,
                    n == path@.len(),
                    n <= 0x0fff_ffff,
                    near(path@),
                    reach == cheat_distance as int,
                    last_visit(path@, i as int),
                    row == cheat_row(path@, reach, i as int, j as int),
                    model == base + row,
                    out@.len() == model.len(),
                    forall|k: int| 0 <= k < out@.len() ==> #[trigger] out@[k] == model[k],
                decreases n - j,
            {
                let a = path[i];
                let b = path[j];
                let m = gap(a.1, b.1) + gap(a.0, b.0);
                if m <= 0x7fff_ffff && (m as i32) <= cheat_distance && is_last_visit(path, j) {
                    let s = (j - i) as i32 - m as i32;
                    out.push(s);
                    proof {
                        assert(is_cheat(path@, reach, i as int, j as int));
                        row = row.push(s as int);
                        model = base + row;
                    }
                } else {
                    proof {
                        assert(!is_cheat(path@, reach, i as int, j as int));
                    }
                }
                j += 1;
            }
        } else {
            proof {
                lemma_no_cheats_from(path@, reach, i as int, n as int);
                row = cheat_row(path@, reach, i as int, n as int);
                assert(base + row =~= base);
            }
        }
        i += 1;
    }
    out
}

/// No cheat starts at a position that is visited again.
pub proof fn lemma_no_cheats_from(path: Seq<(isize, isize)>, reach: int, i: int, end: int)
    requires
        !last_visit(path, i),
    ensures
        cheat_row(path, reach, i, end) == Seq::<int>::empty(),
    decreases end,
{
    if !(end <= i + 1 || end <= 0) {
        lemma_no_cheats_from(path, reach, i, end - 1);
    }
}

/// How many of the first `n` savings are at least `saves`.
pub open spec fn worth(cheats: Seq<i32>, saves: int, n: int) -> int
    decreases n,
{
    if n <= 0 {
        0
    } else {
        worth(cheats, saves, n - 1) + if cheats[n - 1] >= saves {
            1int
        } else {
            0int
        }
    }
}

/// How many of the savings are at least `saves`.
pub fn count_worth(cheats: &Vec<i32>, saves: i32) -> (count: usize)
    ensures
        count == worth(cheats@, saves as int, cheats@.len() as int),
{
    let mut count: usize = 0;
    let mut i: usize = 0;
    while i < cheats.len()
        invariant
            i <= cheats@.len(),
            count <= i,
            count == worth(cheats@, saves as int, i as int),
        decreases cheats@.len() - i,
    {
        if cheats[i] >= saves {
            count += 1;
        }
        i += 1;
    }
    count
}

} // verus!
