//! The warehouse: a robot that pushes boxes before it, as far as there is
//! room.

use vstd::prelude::*;
use crate::days::day16::grid::{find_char, first_at};

pub mod wide;

verus! {

#[derive(Debug, Copy, Clone, PartialEq, Eq, Hash, Structural)]
pub enum Direction {
    Up,
    Down,
    Left,
    Right,
}

/// The change of (row, column) of one step that a move character asks for;
/// nothing for a character that is no move.
pub open spec fn move_delta(direction: char) -> (int, int) {
    if direction == '^' {
        (-1, 0)
    } else if direction == 'v' {
        (1, 0)
    } else if direction == '<' {
        (0, -1)
    } else if direction == '>' {
        (0, 1)
    } else {
        (0, 0)
    }
}

/// The character is one of the four moves.
pub open spec fn is_move(direction: char) -> bool {
    direction == '^' || direction == 'v' || direction == '<' || direction == '>'
}

/// The warehouse as a mathematical value.
pub struct Floor {
    pub map: Seq<Seq<char>>,
    pub robot: (int, int),
}

impl Floor {
    /// The number of rows.
    pub open spec fn rows(self) -> int {
        self.map.len() as int
    }

    /// The number of columns of the first row.
    pub open spec fn cols(self) -> int {
        self.map[0].len() as int
    }

    /// The character `k` steps from the robot in the direction (`dy`, `dx`).
    pub open spec fn ahead(self, dy: int, dx: int, k: int) -> char {
        self.map[self.robot.0 + k * dy][self.robot.1 + k * dx]
    }

    /// All rows are equally long, the outermost rows and columns are walls,
    /// every cell is floor, wall or box, and the robot stands off the
    /// outermost rows and columns.
    pub open spec fn wf(self) -> bool {
        &&& self.rows() >= 2
        &&& self.cols() >= 2
        &&& forall|r: int| 0 <= r < self.rows() ==> (#[trigger] self.map[r]).len() == self.cols()
        &&& forall|r: int, c: int|
            0 <= r < self.rows() && 0 <= c < self.cols() ==> {
                let ch = #[trigger] self.map[r][c];
                ch == '.' || ch == '#' || ch == 'O'
            }
        &&& forall|r: int, c: int|
            0 <= r < self.rows() && 0 <= c < self.cols() && (r == 0 || c == 0 || r == self.rows() - 1
                || c == self.cols() - 1) ==> #[trigger] self.map[r][c] == '#'
        &&& 0 < self.robot.0 < self.rows() - 1
        &&& 0 < self.robot.1 < self.cols() - 1
    }

    /// The first `k` cells ahead of the robot hold boxes.
    pub open spec fn boxes_ahead(self, dy: int, dx: int, k: int) -> bool {
        forall|j: int| 1 <= j <= k ==> #[trigger] self.ahead(dy, dx, j) == 'O'
    }

    /// The warehouse after the robot pushed a row of `k` boxes one step on.
    pub open spec fn pushed(self, dy: int, dx: int, k: int) -> Floor {
        let near = (self.robot.0 + dy, self.robot.1 + dx);
        let far = (self.robot.0 + (k + 1) * dy, self.robot.1 + (k + 1) * dx);
        let freed = self.map.update(near.0, self.map[near.0].update(near.1, '.'));
        Floor { map: freed.update(far.0, freed[far.0].update(far.1, 'O')), robot: near }
    }

    /// `after` is the warehouse after the robot tried one step in the
    /// direction (`dy`, `dx`): it steps onto free floor, stays before a
    /// wall, and pushes a row of boxes on if free floor lies behind the row.
    pub open spec fn steps_to(self, dy: int, dx: int, after: Floor) -> bool {
        exists|k: int|
            {
                &&& 0 <= k
                &&& #[trigger] self.boxes_ahead(dy, dx, k)
                &&& self.ahead(dy, dx, k + 1) != 'O'
                &&& after == if self.ahead(dy, dx, k + 1) == '#' {
                    self
                } else if k == 0 {
                    Floor { map: self.map, robot: (self.robot.0 + dy, self.robot.1 + dx) }
                } else {
                    self.pushed(dy, dx, k)
                }
            }
    }
}

/// The rows of a map as sequences.
pub open spec fn rows_of(map: Seq<Vec<char>>) -> Seq<Seq<char>> {
    Seq::new(map.len(), |r: int| map[r]@)
}

pub struct Warehouse {
    pub map: Vec<Vec<char>>,
    pub robot: (usize, usize),
}

impl View for Warehouse {
    type V = Floor;

    open spec fn view(&self) -> Floor {
        Floor { map: rows_of(self.map@), robot: (self.robot.0 as int, self.robot.1 as int) }
    }
}

/// The position one step from `p` in the direction of the move character.
fn stepped(p: (usize, usize), direction: char) -> (q: (usize, usize))
    requires
        is_move(direction),
        0 < p.0 < usize::MAX,
        0 < p.1 < usize::MAX,
    ensures
        q.0 == p.0 + move_delta(direction).0,
        q.1 == p.1 + move_delta(direction).1,
{
    if direction == '^' {
        (p.0 - 1, p.1)
    } else if direction == 'v' {
        (p.0 + 1, p.1)
    } else if direction == '<' {
        (p.0, p.1 - 1)
    } else {
        (p.0, p.1 + 1)
    }
}

impl Warehouse {
    /// One step of the robot in the direction of the move character.
    pub fn step(&mut self, direction: char)
        requires
            is_move(direction),
            old(self)@.wf(),
        ensures
            final(self)@.wf(),
            old(self)@.steps_to(move_delta(direction).0, move_delta(direction).1, final(self)@),
    {
        let ghost before = self@;
        let ghost dy = move_delta(direction).0;
        let ghost dx = move_delta(direction).1;
        let rows = self.map.len();
        let cols = self.map[0].len();
        assert(before.map[0].len() == cols);
        let p = stepped(self.robot, direction);
        assert(before.map[p.0 as int].len() == cols);
        let c = self.map[p.0][p.1];
        assert(c == before.ahead(dy, dx, 1));
        if c == '.' {
            self.robot = p;
            proof {
                assert(before.boxes_ahead(dy, dx, 0));
                assert(self@.map =~= before.map);
            }
        } else if c == '#' {
            proof {
                assert(before.boxes_ahead(dy, dx, 0));
            }
        } else {
            // A box: look for free floor behind the row of boxes.
            let mut p2 = p;
            let mut k: usize = 1;
            loop
                invariant_except_break
                    p2.0 == before.robot.0 + k * dy,
                    p2.1 == before.robot.1 + k * dx,
                    0 < p2.0 < rows - 1,
                    0 < p2.1 < cols - 1,
                invariant
                    is_move(direction),
                    before.wf(),
                    before == self@,
                    rows == before.rows(),
                    cols == before.cols(),
                    dy == move_delta(direction).0,
                    dx == move_delta(direction).1,
                    1 <= k,
                    before.boxes_ahead(dy, dx, k as int),
                ensures
                    p2.0 == before.robot.0 + (k + 1) * dy,
                    p2.1 == before.robot.1 + (k + 1) * dx,
                    0 <= p2.0 < rows,
                    0 <= p2.1 < cols,
                    before.boxes_ahead(dy, dx, k as int),
                    before.ahead(dy, dx, k + 1) != 'O',
                    1 <= k,
                decreases
                        if dy + dx > 0 {
                            (rows - p2.0) + (cols - p2.1)
                        } else {
                            p2.0 + p2.1
                        },
            {
                let ghost here = p2;
                p2 = stepped(p2, direction);
                proof {
                    assert((k + 1) * dy == k * dy + dy && (k + 1) * dx == k * dx + dx) by (nonlinear_arith);
                    assert(before.map[p2.0 as int].len() == cols);
                }
                let c2 = self.map[p2.0][p2.1];
                assert(c2 == before.ahead(dy, dx, k + 1));
                if c2 == 'O' {
                    assert(before.map[p2.0 as int][p2.1 as int] != '#');
                    k += 1;
                    proof {
                        assert forall|j: int| 1 <= j <= k implies #[trigger] before.ahead(dy, dx, j)
                            == 'O' by {
                            if j < k {
                                assert(before.boxes_ahead(dy, dx, k - 1));
                            }
                        }
                    }
                } else {
                    break;
                }
            }
            if self.map[p2.0][p2.1] == '.' {
                self.map[p.0][p.1] = '.';
                self.map[p2.0][p2.1] = 'O';
                self.robot = p;
                proof {
                    let after = before.pushed(dy, dx, k as int);
                    assert(self@.map =~= after.map);
                    assert(self@ == after);
                    assert forall|r: int| 0 <= r < after.rows() implies (#[trigger] after.map[r]).len()
                        == after.cols() by {
                        assert(before.map[r].len() == before.cols());
                    }
                    assert forall|r: int, c: int|
                        0 <= r < after.rows() && 0 <= c < after.cols() implies {
                        let ch = #[trigger] after.map[r][c];
                        ch == '.' || ch == '#' || ch == 'O'
                    } by {
                        let ch = before.map[r][c];
                        assert(ch == '.' || ch == '#' || ch == 'O');
                    }
                    assert forall|r: int, c: int|
                        0 <= r < after.rows() && 0 <= c < after.cols() && (r == 0 || c == 0 || r
                            == after.rows() - 1 || c == after.cols() - 1) implies #[trigger] after.map[r][c]
                        == '#' by {
                        assert(before.map[r][c] == '#');
                    }
                }
            } else {
                proof {
                    let ch = before.map[p2.0 as int][p2.1 as int];
                    assert(ch == '.' || ch == '#' || ch == 'O');
                }
            }
        }
    }

    /// The sum, over all boxes, of a hundred times the row plus the column.
    pub fn gps_sum(&self) -> (sum: usize)
        requires
            gps_upto(rows_of(self.map@), 'O', self.map@.len() as int) <= usize::MAX,
            self.map@.len() * 100 <= usize::MAX,
        ensures
            sum == gps_upto(rows_of(self.map@), 'O', self.map@.len() as int),
    {
        gps(&self.map, 'O')
    }
}

/// The map with a dot at (`row`, `col`).
pub open spec fn cleared_at(map: Seq<Seq<char>>, row: int, col: int) -> Seq<Seq<char>> {
    map.update(row, map[row].update(col, '.'))
}

/// Takes the robot off a map: the position of the first `@`, and the map
/// with a dot in its place. `None` where the map has no `@`.
pub fn take_robot(map: Vec<Vec<char>>) -> (out: Option<(Vec<Vec<char>>, (usize, usize))>)
    ensures
        match out {
            Some((cleared, robot)) => first_at(map@, '@', robot.0 as int, robot.1 as int) && rows_of(
                cleared@,
            ) == cleared_at(rows_of(map@), robot.0 as int, robot.1 as int),
            None => !crate::days::day16::grid::occurs(map@, '@'),
        },
{
    match find_char(&map, '@') {
        None => None,
        Some(robot) => {
            let ghost before = rows_of(map@);
            let mut cleared = map;
            cleared[robot.0][robot.1] = '.';
            assert(rows_of(cleared@) =~= cleared_at(before, robot.0 as int, robot.1 as int));
            Some((cleared, robot))
        },
    }
}

impl Warehouse {
    /// The warehouse that a map with the robot drawn in as `@` shows.
    pub fn from_map(map: Vec<Vec<char>>) -> (out: Option<Warehouse>)
        ensures
            match out {
                Some(w) => first_at(map@, '@', w@.robot.0, w@.robot.1) && w@.map == cleared_at(
                    rows_of(map@),
                    w@.robot.0,
                    w@.robot.1,
                ),
                None => !crate::days::day16::grid::occurs(map@, '@'),
            },
    {
        match take_robot(map) {
            None => None,
            Some((map, robot)) => Some(Warehouse { map, robot }),
        }
    }

    /// Whether the warehouse is well formed.
    pub fn is_sound(&self) -> (ok: bool)
        ensures
            ok == self@.wf(),
    {
        let rows = self.map.len();
        if rows < 2 {
            return false;
        }
        let cols = self.map[0].len();
        let ghost floor = self@;
        assert(floor.map[0].len() == cols);
        if cols < 2 {
            return false;
        }
        let mut r: usize = 0;
        while r < rows
            invariant
                r <= rows,
                rows == self.map@.len(),
                rows >= 2,
                cols >= 2,
                cols == self.map@[0]@.len(),
                floor == self@,
                forall|i: int| 0 <= i < r ==> (#[trigger] floor.map[i]).len() == cols,
                forall|i: int, c: int|
                    0 <= i < r && 0 <= c < cols ==> {
                        let ch = #[trigger] floor.map[i][c];
                        (ch == '.' || ch == '#' || ch == 'O') && ((i == 0 || c == 0 || i == rows - 1
                            || c == cols - 1) ==> ch == '#')
                    },
            decreases rows - r,
        {
            let line = &self.map[r];
            assert(floor.map[r as int] == line@);
            assert(floor.map[0].len() == cols);
            if line.len() != cols {
                assert(floor.map[r as int].len() != floor.cols());
                return false;
            }
            let mut c: usize = 0;
            while c < cols
                invariant
                    c <= cols,
                    r < rows,
                    rows == self.map@.len(),
                    rows >= 2,
                    cols >= 2,
                    cols == self.map@[0]@.len(),
                    floor == self@,
                    cols == line@.len(),
                    floor.map[r as int] == line@,
                    forall|k: int|
                        0 <= k < c ==> {
                            let ch = #[trigger] line@[k];
                            (ch == '.' || ch == '#' || ch == 'O') && ((r == 0 || k == 0 || r == rows
                                - 1 || k == cols - 1) ==> ch == '#')
                        },
                decreases cols - c,
            {
                let ch = line[c];
                let floor_or_box = ch == '.' || ch == '#' || ch == 'O';
                let border = r == 0 || c == 0 || r == rows - 1 || c == cols - 1;
                if !floor_or_box || (border && ch != '#') {
                    assert(floor.map[0].len() == cols);
                    let ghost bad = floor.map[r as int][c as int];
                    assert(bad == ch);
                    return false;
                }
                c += 1;
            }
            r += 1;
        }
        assert(floor.map[0].len() == cols);
        0 < self.robot.0 && self.robot.0 < rows - 1 && 0 < self.robot.1 && self.robot.1 < cols - 1
    }
}

/// Move `i` takes the warehouse from state `i` of the trace to the next.
pub open spec fn moves_on(trace: Seq<Floor>, moves: Seq<char>, i: int) -> bool {
    trace[i].steps_to(move_delta(moves[i]).0, move_delta(moves[i]).1, trace[i + 1])
}

/// The trace holds the states of the warehouse from `start` on, one after
/// every one of the first `n` moves.
pub open spec fn is_trace(start: Floor, moves: Seq<char>, n: int, trace: Seq<Floor>) -> bool {
    &&& trace.len() == n + 1
    &&& trace[0] == start
    &&& forall|i: int| 0 <= i < n ==> #[trigger] moves_on(trace, moves, i)
}

impl Floor {
    /// `after` is the warehouse after the robot tried all the moves, one
    /// after the other.
    pub open spec fn runs_to(self, moves: Seq<char>, after: Floor) -> bool {
        exists|trace: Seq<Floor>| #[trigger]
            is_trace(self, moves, moves.len() as int, trace) && trace.last() == after
    }
}

impl Warehouse {
    /// Lets the robot try the moves one after the other.
    pub fn run(&mut self, moves: &Vec<char>)
        requires
            old(self)@.wf(),
            forall|i: int| 0 <= i < moves@.len() ==> is_move(#[trigger] moves@[i]),
        ensures
            final(self)@.wf(),
            old(self)@.runs_to(moves@, final(self)@),
    {
        let ghost start = self@;
        let ghost mut trace: Seq<Floor> = seq![start];
        let mut i: usize = 0;
        while i < moves.len()
            invariant
                i <= moves@.len(),
                start == old(self)@,
                self@.wf(),
                forall|j: int| 0 <= j < moves@.len() ==> is_move(#[trigger] moves@[j]),
                is_trace(start, moves@, i as int, trace),
                trace.last() == self@,
            decreases moves@.len() - i,
        {
            let ghost before = trace;
            self.step(moves[i]);
            proof {
                trace = before.push(self@);
                assert forall|j: int| 0 <= j < i + 1 implies #[trigger] moves_on(trace, moves@, j) by {
                    if j < i {
                        assert(moves_on(before, moves@, j));
                    }
                }
            }
            i += 1;
        }
    }
}

/// A hundred times the row plus the column, added up over the cells of the
/// first `n` columns of a row that hold `mark`.
pub open spec fn gps_row(row: Seq<char>, mark: char, y: int, n: int) -> int
    decreases n,
{
    if n <= 0 {
        0
    } else {
        gps_row(row, mark, y, n - 1) + if row[n - 1] == mark {
            y * 100 + (n - 1)
        } else {
            0
        }
    }
}

/// A hundred times the row plus the column, added up over the cells of the
/// first `n` rows that hold `mark`.
pub open spec fn gps_upto(map: Seq<Seq<char>>, mark: char, n: int) -> int
    decreases n,
{
    if n <= 0 {
        0
    } else {
        gps_upto(map, mark, n - 1) + gps_row(map[n - 1], mark, n - 1, map[n - 1].len() as int)
    }
}

/// The sum over a row grows with the cells counted.
pub proof fn lemma_gps_row_grows(row: Seq<char>, mark: char, y: int, m: int, n: int)
    requires
        0 <= y,
        0 <= m <= n,
    ensures
        0 <= gps_row(row, mark, y, m) <= gps_row(row, mark, y, n),
    decreases n,
{
    if n > 0 {
        if m < n {
            lemma_gps_row_grows(row, mark, y, m, n - 1);
        } else {
            lemma_gps_row_grows(row, mark, y, m - 1, n - 1);
        }
    }
}

/// The sum over the map grows with the rows counted.
pub proof fn lemma_gps_grows(map: Seq<Seq<char>>, mark: char, m: int, n: int)
    requires
        0 <= m <= n,
    ensures
        0 <= gps_upto(map, mark, m) <= gps_upto(map, mark, n),
    decreases n,
{
    if n > 0 {
        lemma_gps_row_grows(map[n - 1], mark, n - 1, 0, map[n - 1].len() as int);
        if m < n {
            lemma_gps_grows(map, mark, m, n - 1);
        } else {
            lemma_gps_grows(map, mark, m - 1, n - 1);
        }
    }
}

/// The sum, over all cells that hold `mark`, of a hundred times the row plus
/// the column.
pub fn gps(map: &Vec<Vec<char>>, mark: char) -> (sum: usize)
    requires
        gps_upto(rows_of(map@), mark, map@.len() as int) <= usize::MAX,
        map@.len() * 100 <= usize::MAX,
    ensures
        sum == gps_upto(rows_of(map@), mark, map@.len() as int),
{
    let ghost rows = rows_of(map@);
    let mut sum: usize = 0;
    let mut y: usize = 0;
    while y < map.len()
        invariant
            y <= map@.len(),
            rows == rows_of(map@),
            sum == gps_upto(rows, mark, y as int),
            gps_upto(rows, mark, map@.len() as int) <= usize::MAX,
            map@.len() * 100 <= usize::MAX,
        decreases map@.len() - y,
    {
        let line = &map[y];
        let mut part: usize = 0;
        let mut x: usize = 0;
        proof {
            lemma_gps_grows(rows, mark, y + 1, map@.len() as int);
            lemma_gps_grows(rows, mark, y as int, y as int);
        }
        while x < line.len()
            invariant
                y < map@.len(),
                line@ == rows[y as int],
                x <= line@.len(),
                part == gps_row(line@, mark, y as int, x as int),
                sum + gps_row(line@, mark, y as int, line@.len() as int) <= usize::MAX,
                sum >= 0,
                map@.len() * 100 <= usize::MAX,
            decreases line@.len() - x,
        {
            proof {
                lemma_gps_row_grows(line@, mark, y as int, x + 1, line@.len() as int);
                lemma_gps_row_grows(line@, mark, y as int, x as int, x + 1);
            }
            if line[x] == mark {
                part = part + (y * 100 + x);
            }
            x += 1;
        }
        sum = sum + part;
        y += 1;
    }
    sum
}

} // verus!
