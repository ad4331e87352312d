//! The grid: walls and open cells, a start with its facing, and a goal.

use vstd::prelude::*;
use crate::days::day16::Moving;

verus! {

/// What one cell of the grid is.
#[derive(Debug, Copy, Clone, PartialEq, Eq, Structural)]
pub enum Cell {
    Wall,
    Open,
}

/// What a pair of coordinates is, whether or not it lies on the grid.
#[derive(Debug, Copy, Clone, PartialEq, Eq, Structural)]
pub enum Classification {
    Wall,
    Open,
    OutOfBounds,
}

/// Why a grid could not be built.
#[derive(Debug, Copy, Clone, PartialEq, Eq, Structural)]
pub enum ConstructionError {
    /// There is no row, no column, or the rows differ in length.
    InconsistentRows,
    /// The cost of a route could exceed the machine's word.
    TooLarge,
    /// The start is missing, off the grid, or a wall.
    NoStart,
    /// The goal is missing, off the grid, or a wall.
    NoGoal,
}

/// The grid as a mathematical value.
pub struct GridModel {
    pub cells: Seq<Seq<Cell>>,
    pub start: (int, int),
    pub goal: (int, int),
    pub facing: Moving,
    /// What a step in a direction other than the one faced costs.
    pub turn: int,
}

/// What a step in a direction other than the one faced costs: a thousand
/// for the turn and one for the step.
pub const TURN_STEP: usize = 1001;

impl GridModel {
    /// The number of rows.
    pub open spec fn rows(self) -> int {
        self.cells.len() as int
    }

    /// The number of columns: the length of the first row.
    pub open spec fn cols(self) -> int {
        if self.cells.len() > 0 {
            self.cells[0].len() as int
        } else {
            0
        }
    }

    /// The cell (`row`, `col`) lies on the grid.
    pub open spec fn in_bounds(self, row: int, col: int) -> bool {
        0 <= row < self.rows() && 0 <= col < self.cols()
    }

    /// What lies at (`row`, `col`): a wall, an open cell, or nothing of the grid.
    pub open spec fn classify(self, row: int, col: int) -> Classification {
        if !self.in_bounds(row, col) {
            Classification::OutOfBounds
        } else if self.cells[row][col] == Cell::Open {
            Classification::Open
        } else {
            Classification::Wall
        }
    }

    /// The cell (`row`, `col`) lies on the grid and is open.
    pub open spec fn is_open(self, row: int, col: int) -> bool {
        self.in_bounds(row, col) && self.cells[row][col] == Cell::Open
    }

    /// At least one row and one column, and every row as long as the first.
    pub open spec fn rectangular(self) -> bool {
        &&& self.rows() > 0
        &&& self.cols() > 0
        &&& forall|r: int| 0 <= r < self.rows() ==> (#[trigger] self.cells[r]).len() == self.cols()
    }

    /// Every state has a number, and the dearest route a cost, within `usize`.
    pub open spec fn fits(self) -> bool {
        self.rows() * self.cols() * 4 * self.turn <= usize::MAX
    }

    /// The grid is well formed: a turn costs something, the rows are of one length, the
    /// states can be counted, and start and goal are open cells of the grid.
    pub open spec fn wf(self) -> bool {
        &&& self.turn >= 1
        &&& self.rectangular()
        &&& self.fits()
        &&& self.is_open(self.start.0, self.start.1)
        &&& self.is_open(self.goal.0, self.goal.1)
    }

    /// The error that construction reports, if any; the first that applies.
    pub open spec fn defect(self) -> Option<ConstructionError> {
        if !self.rectangular() {
            Some(ConstructionError::InconsistentRows)
        } else if !self.fits() {
            Some(ConstructionError::TooLarge)
        } else if !self.is_open(self.start.0, self.start.1) {
            Some(ConstructionError::NoStart)
        } else if !self.is_open(self.goal.0, self.goal.1) {
            Some(ConstructionError::NoGoal)
        } else {
            None
        }
    }
}

/// The rows of a table of cells as sequences.
pub open spec fn rows_model(cells: Seq<Vec<Cell>>) -> Seq<Seq<Cell>> {
    Seq::new(cells.len(), |r: int| cells[r]@)
}

/// The cells that a map of characters stands for: `#` is a wall, every other
/// character an open cell.
pub open spec fn chart(map: Seq<Vec<char>>) -> Seq<Seq<Cell>> {
    Seq::new(
        map.len(),
        |r: int|
            Seq::new(
                map[r]@.len(),
                |c: int|
                    if map[r]@[c] == '#' {
                        Cell::Wall
                    } else {
                        Cell::Open
                    },
            ),
    )
}

/// The character at (`row`, `col`) of the map is `ch`.
pub open spec fn char_at(map: Seq<Vec<char>>, ch: char, row: int, col: int) -> bool {
    0 <= row < map.len() && 0 <= col < map[row]@.len() && map[row]@[col] == ch
}

/// `ch` stands somewhere on the map.
pub open spec fn occurs(map: Seq<Vec<char>>, ch: char) -> bool {
    exists|row: int, col: int| char_at(map, ch, row, col)
}

/// (`row`, `col`) is the first place, reading row by row, where `ch` stands.
pub open spec fn first_at(map: Seq<Vec<char>>, ch: char, row: int, col: int) -> bool {
    &&& char_at(map, ch, row, col)
    &&& forall|r: int, c: int|
        (r < row || (r == row && c < col)) ==> !#[trigger] char_at(map, ch, r, c)
}

/// The first place where `ch` stands on the map, reading row by row.
pub fn find_char(map: &Vec<Vec<char>>, ch: char) -> (found: Option<(usize, usize)>)
    ensures
        match found {
            Some(pos) => first_at(map@, ch, pos.0 as int, pos.1 as int),
            None => !occurs(map@, ch),
        },
{
    let mut row: usize = 0;
    while row < map.len()
        invariant
            row <= map@.len(),
            forall|r: int, c: int| r < row ==> !#[trigger] char_at(map@, ch, r, c),
        decreases map@.len() - row,
    {
        let line = &map[row];
        let mut col: usize = 0;
        while col < line.len()
            invariant
                row < map@.len(),
                line == map@[row as int],
                col <= line@.len(),
                forall|r: int, c: int|
                    (r < row || (r == row && c < col)) ==> !#[trigger] char_at(map@, ch, r, c),
            decreases line@.len() - col,
        {
            if line[col] == ch {
                return Some((row, col));
            }
            col += 1;
        }
        row += 1;
    }
    None
}

/// An immutable grid that is known to be well formed.
pub struct Grid {
    cells: Vec<Vec<Cell>>,
    start: (usize, usize),
    goal: (usize, usize),
    facing: Moving,
    turn: usize,
}

impl View for Grid {
    type V = GridModel;

    closed spec fn view(&self) -> GridModel {
        GridModel {
            cells: rows_model(self.cells@),
            start: (self.start.0 as int, self.start.1 as int),
            goal: (self.goal.0 as int, self.goal.1 as int),
            facing: self.facing,
            turn: self.turn as int,
        }
    }
}

/// `rows * cols * 4 * turn <= usize::MAX`, computed without overflow.
fn fits_in_word(rows: usize, cols: usize, turn: usize) -> (ok: bool)
    requires
        rows > 0,
        cols > 0,
        turn > 0,
    ensures
        ok == (rows * cols * 4 * turn <= usize::MAX),
{
    if turn > usize::MAX / 4 {
        proof {
            let r = rows as int;
            let c = cols as int;
            let t = turn as int;
            assert(r * c * 4 * t >= 4 * t) by (nonlinear_arith)
                requires
                    r >= 1,
                    c >= 1,
                    t >= 1,
            ;
        }
        return false;
    }
    let per_cell: usize = 4 * turn;
    let cells_max: usize = usize::MAX / per_cell;
    // rows * cols <= cells_max  <==>  rows <= cells_max / cols
    let rows_max: usize = cells_max / cols;
    proof {
        let r = rows as int;
        let c = cols as int;
        let m = usize::MAX as int;
        let w = per_cell as int;
        assert(r * c * 4 * turn == (r * c) * w) by (nonlinear_arith)
            requires
                w == 4 * turn,
        ;
        assert((r * c) * w <= m <==> r * c <= m / w) by {
            vstd::arithmetic::div_mod::lemma_fundamental_div_mod(m, w);
            vstd::arithmetic::div_mod::lemma_mod_bound(m, w);
            let k = m / w;
            let x = r * c;
            assert(m == w * k + m % w);
            if x <= k {
                assert(x * w <= k * w) by (nonlinear_arith)
                    requires
                        x <= k,
                        w > 0,
                ;
                assert(k * w == w * k) by (nonlinear_arith);
            } else {
                assert(x * w >= (k + 1) * w) by (nonlinear_arith)
                    requires
                        x >= k + 1,
                        w > 0,
                ;
                assert((k + 1) * w == w * k + w) by (nonlinear_arith);
            }
        }
        let q = m / w;
        assert(r * c <= q <==> r <= q / c) by {
            vstd::arithmetic::div_mod::lemma_fundamental_div_mod(q, c);
            vstd::arithmetic::div_mod::lemma_mod_bound(q, c);
            let k = q / c;
            assert(q == c * k + q % c);
            if r <= k {
                assert(r * c <= k * c) by (nonlinear_arith)
                    requires r <= k, c > 0;
                assert(k * c == c * k) by (nonlinear_arith);
            } else {
                assert(r * c >= (k + 1) * c) by (nonlinear_arith)
                    requires r >= k + 1, c > 0;
                assert((k + 1) * c == c * k + c) by (nonlinear_arith);
            }
        }
    }
    rows <= rows_max
}

/// A grid of these cells, with the usual cost of a turn and nothing said
/// yet of its start and goal.
pub open spec fn shape(cells: Seq<Seq<Cell>>) -> GridModel {
    shape_at(cells, TURN_STEP as int)
}

/// A grid of these cells with nothing said yet of its start and goal.
pub open spec fn shape_at(cells: Seq<Seq<Cell>>, turn: int) -> GridModel {
    GridModel { cells, start: (0, 0), goal: (0, 0), facing: Moving::Right, turn }
}

/// What is wrong with the shape of a table of cells, if anything.
fn shape_defect(cells: &Vec<Vec<Cell>>, turn: usize) -> (found: Option<ConstructionError>)
    requires
        turn >= 1,
    ensures
        found == (if !shape_at(rows_model(cells@), turn as int).rectangular() {
            Some(ConstructionError::InconsistentRows)
        } else if !shape_at(rows_model(cells@), turn as int).fits() {
            Some(ConstructionError::TooLarge)
        } else {
            None
        }),
{
    let ghost model = shape_at(rows_model(cells@), turn as int);
    let rows = cells.len();
    if rows == 0 {
        return Some(ConstructionError::InconsistentRows);
    }
    let cols = cells[0].len();
    if cols == 0 {
        return Some(ConstructionError::InconsistentRows);
    }
    let mut r: usize = 1;
    while r < rows
        invariant
            1 <= r <= rows,
            rows == cells@.len(),
            cols == cells@[0]@.len(),
            model.cells == rows_model(cells@),
            forall|i: int| 0 <= i < r ==> (#[trigger] model.cells[i]).len() == cols,
        decreases rows - r,
    {
        if cells[r].len() != cols {
            assert(model.cells[r as int].len() != model.cols());
            return Some(ConstructionError::InconsistentRows);
        }
        r += 1;
    }
    assert(model.rectangular());
    if !fits_in_word(rows, cols, turn) {
        return Some(ConstructionError::TooLarge);
    }
    None
}

impl Grid {
    #[verifier::type_invariant]
    spec fn inv(self) -> bool {
        self@.wf()
    }

    /// Builds a grid from its cells, its start with the facing there, and its
    /// goal. Succeeds exactly on well-formed input.
    pub fn new(
        cells: Vec<Vec<Cell>>,
        start: (usize, usize),
        facing: Moving,
        goal: (usize, usize),
    ) -> (made: Result<Grid, ConstructionError>)
        ensures
            match made {
                Ok(grid) => grid@.wf() && grid@ == (GridModel {
                    cells: rows_model(cells@),
                    start: (start.0 as int, start.1 as int),
                    goal: (goal.0 as int, goal.1 as int),
                    facing,
                    turn: TURN_STEP as int,
                }),
                Err(error) => Some(error) == (GridModel {
                    cells: rows_model(cells@),
                    start: (start.0 as int, start.1 as int),
                    goal: (goal.0 as int, goal.1 as int),
                    facing,
                    turn: TURN_STEP as int,
                }).defect(),
            },
    {
        Grid::with_turn_cost(cells, start, facing, goal, TURN_STEP)
    }

    /// Builds a grid on which a step in a direction other than the one faced
    /// costs `turn`. Succeeds exactly on well-formed input.
    pub fn with_turn_cost(
        cells: Vec<Vec<Cell>>,
        start: (usize, usize),
        facing: Moving,
        goal: (usize, usize),
        turn: usize,
    ) -> (made: Result<Grid, ConstructionError>)
        requires
            turn >= 1,
        ensures
            match made {
                Ok(grid) => grid@.wf() && grid@ == (GridModel {
                    cells: rows_model(cells@),
                    start: (start.0 as int, start.1 as int),
                    goal: (goal.0 as int, goal.1 as int),
                    facing,
                    turn: turn as int,
                }),
                Err(error) => Some(error) == (GridModel {
                    cells: rows_model(cells@),
                    start: (start.0 as int, start.1 as int),
                    goal: (goal.0 as int, goal.1 as int),
                    facing,
                    turn: turn as int,
                }).defect(),
            },
    {
        let ghost model = GridModel {
            cells: rows_model(cells@),
            start: (start.0 as int, start.1 as int),
            goal: (goal.0 as int, goal.1 as int),
            facing,
            turn: turn as int,
        };
        match shape_defect(&cells, turn) {
            Some(error) => {
                return Err(error);
            },
            None => {},
        }
        let rows = cells.len();
        let cols = cells[0].len();
        assert(shape_at(rows_model(cells@), turn as int).rectangular());
        assert(forall|r: int| 0 <= r < rows ==> (#[trigger] model.cells[r]).len() == cols);
        if start.0 >= rows || start.1 >= cols {
            return Err(ConstructionError::NoStart);
        }
        match cells[start.0][start.1] {
            Cell::Wall => {
                return Err(ConstructionError::NoStart);
            },
            Cell::Open => {},
        }
        if goal.0 >= rows || goal.1 >= cols {
            return Err(ConstructionError::NoGoal);
        }
        match cells[goal.0][goal.1] {
            Cell::Wall => {
                return Err(ConstructionError::NoGoal);
            },
            Cell::Open => {},
        }
        assert(model.wf());
        Ok(Grid { cells, start, goal, facing, turn })
    }

    /// Reads a grid off a map of characters: `#` is a wall, the first `S` the
    /// start, the first `E` the goal, and the traveller faces right.
    pub fn parse(map: &Vec<Vec<char>>) -> (made: Result<Grid, ConstructionError>)
        ensures
            match made {
                Ok(grid) => {
                    &&& grid@.wf()
                    &&& grid@.cells == chart(map@)
                    &&& first_at(map@, 'S', grid@.start.0, grid@.start.1)
                    &&& first_at(map@, 'E', grid@.goal.0, grid@.goal.1)
                    &&& grid@.facing == Moving::Right
                    &&& grid@.turn == TURN_STEP
                },
                Err(ConstructionError::InconsistentRows) => !shape(chart(map@)).rectangular(),
                Err(ConstructionError::TooLarge) => shape(chart(map@)).rectangular() && !shape(
                    chart(map@),
                ).fits(),
                Err(ConstructionError::NoStart) => shape(chart(map@)).rectangular() && shape(
                    chart(map@),
                ).fits() && !occurs(map@, 'S'),
                Err(ConstructionError::NoGoal) => shape(chart(map@)).rectangular() && shape(
                    chart(map@),
                ).fits() && occurs(map@, 'S') && !occurs(map@, 'E'),
            },
    {
        let mut cells: Vec<Vec<Cell>> = Vec::new();
        let mut row: usize = 0;
        while row < map.len()
            invariant
                row <= map@.len(),
                cells@.len() == row,
                forall|r: int| 0 <= r < row ==> (#[trigger] cells@[r])@ == chart(map@)[r],
            decreases map@.len() - row,
        {
            let line = &map[row];
            let mut made: Vec<Cell> = Vec::new();
            let mut col: usize = 0;
            while col < line.len()
                invariant
                    row < map@.len(),
                    line == map@[row as int],
                    col <= line@.len(),
                    made@.len() == col,
                    forall|c: int| 0 <= c < col ==> #[trigger] made@[c] == chart(map@)[row as int][c],
                decreases line@.len() - col,
            {
                if line[col] == '#' {
                    made.push(Cell::Wall);
                } else {
                    made.push(Cell::Open);
                }
                col += 1;
            }
            assert(made@ =~= chart(map@)[row as int]);
            cells.push(made);
            row += 1;
        }
        assert(rows_model(cells@) =~= chart(map@));
        match shape_defect(&cells, TURN_STEP) {
            Some(error) => {
                return Err(error);
            },
            None => {},
        }
        let start = match find_char(map, 'S') {
            None => {
                return Err(ConstructionError::NoStart);
            },
            Some(pos) => pos,
        };
        let goal = match find_char(map, 'E') {
            None => {
                return Err(ConstructionError::NoGoal);
            },
            Some(pos) => pos,
        };
        let grid = Grid { cells, start, goal, facing: Moving::Right, turn: TURN_STEP };
        proof {
            assert(char_at(map@, 'S', start.0 as int, start.1 as int));
            assert(char_at(map@, 'E', goal.0 as int, goal.1 as int));
            assert(occurs(map@, 'S'));
            assert(grid@.cells[start.0 as int].len() == grid@.cols());
            assert(grid@.cells[goal.0 as int].len() == grid@.cols());
        }
        Ok(grid)
    }

    /// The number of rows.
    pub fn rows(&self) -> (rows: usize)
        ensures
            self@.wf(),
            rows == self@.rows(),
    {
        proof {
            use_type_invariant(self);
        }
        self.cells.len()
    }

    /// The number of columns.
    pub fn cols(&self) -> (cols: usize)
        ensures
            self@.wf(),
            cols == self@.cols(),
    {
        proof {
            use_type_invariant(self);
        }
        self.cells[0].len()
    }

    /// What lies at (`row`, `col`); coordinates off the grid are no error.
    pub fn classify(&self, row: isize, col: isize) -> (class: Classification)
        ensures
            self@.wf(),
            class == self@.classify(row as int, col as int),
    {
        proof {
            use_type_invariant(self);
        }
        if row < 0 || col < 0 {
            return Classification::OutOfBounds;
        }
        let r = row as usize;
        let c = col as usize;
        if r >= self.cells.len() || c >= self.cells[0].len() {
            return Classification::OutOfBounds;
        }
        assert(self@.cells[r as int].len() == self@.cols());
        match self.cells[r][c] {
            Cell::Open => Classification::Open,
            Cell::Wall => Classification::Wall,
        }
    }

    /// The start cell.
    pub fn start(&self) -> (start: (usize, usize))
        ensures
            self@.wf(),
            self@.start == (start.0 as int, start.1 as int),
    {
        proof {
            use_type_invariant(self);
        }
        self.start
    }

    /// The goal cell.
    pub fn goal(&self) -> (goal: (usize, usize))
        ensures
            self@.wf(),
            self@.goal == (goal.0 as int, goal.1 as int),
    {
        proof {
            use_type_invariant(self);
        }
        self.goal
    }

    /// What a step in a direction other than the one faced costs.
    pub fn turn_cost(&self) -> (turn: usize)
        ensures
            self@.wf(),
            turn == self@.turn,
    {
        proof {
            use_type_invariant(self);
        }
        self.turn
    }

    /// The direction faced at the start.
    pub fn start_facing(&self) -> (facing: Moving)
        ensures
            self@.wf(),
            facing == self@.facing,
    {
        proof {
            use_type_invariant(self);
        }
        self.facing
    }
}

} // verus!
