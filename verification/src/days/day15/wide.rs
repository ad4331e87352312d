//! The warehouse made twice as wide: every box takes two cells, `[` and
//! `]`, and a box that is pushed up or down pushes every box it touches.

use vstd::prelude::*;
use crate::days::day15::Direction;

verus! {

/// The rows of a map as sequences.
pub open spec fn rows_of(map: Seq<Vec<char>>) -> Seq<Seq<char>> {
    Seq::new(map.len(), |r: int| map[r]@)
}

/// The change of (row, column) of one step in a direction.
pub open spec fn delta(dir: Direction) -> (int, int) {
    match dir {
        Direction::Up => (-1, 0),
        Direction::Down => (1, 0),
        Direction::Left => (0, -1),
        Direction::Right => (0, 1),
    }
}

/// The box whose left half is at (`row`, `col`) lies on the map with a cell
/// to spare on every side.
pub open spec fn box_inside(map: Seq<Seq<char>>, row: int, col: int) -> bool {
    &&& 0 < row < map.len() - 1
    &&& 0 < col
    &&& forall|r: int| row - 1 <= r <= row + 1 ==> col + 2 < (#[trigger] map[r]).len()
}

/// The cells that the box whose left half is at (`row`, `col`) would newly
/// take by one step in the direction are free.
pub open spec fn free_before(map: Seq<Seq<char>>, row: int, col: int, dir: Direction) -> bool {
    match dir {
        Direction::Up => map[row - 1][col] == '.' && map[row - 1][col + 1] == '.',
        Direction::Down => map[row + 1][col] == '.' && map[row + 1][col + 1] == '.',
        Direction::Left => map[row][col - 1] == '.',
        Direction::Right => map[row][col + 2] == '.',
    }
}

/// The map with the character `c` at (`row`, `col`).
pub open spec fn put(map: Seq<Seq<char>>, row: int, col: int, c: char) -> Seq<Seq<char>> {
    map.update(row, map[row].update(col, c))
}

/// The map after the box whose left half is at (`row`, `col`) was drawn one
/// step on in the direction.
pub open spec fn box_moved(map: Seq<Seq<char>>, row: int, col: int, dir: Direction) -> Seq<Seq<char>> {
    match dir {
        Direction::Up => put(
            put(put(put(map, row - 1, col, '['), row - 1, col + 1, ']'), row, col, '.'),
            row,
            col + 1,
            '.',
        ),
        Direction::Down => put(
            put(put(put(map, row + 1, col, '['), row + 1, col + 1, ']'), row, col, '.'),
            row,
            col + 1,
            '.',
        ),
        Direction::Left => put(put(put(map, row, col - 1, '['), row, col, ']'), row, col + 1, '.'),
        Direction::Right => put(put(put(map, row, col, '.'), row, col + 1, '['), row, col + 2, ']'),
    }
}

/// Whether the box whose left half is at `block` can be drawn one step on.
pub fn can_move(map: &Vec<Vec<char>>, block: (usize, usize), dir: Direction) -> (free: bool)
    requires
        box_inside(rows_of(map@), block.0 as int, block.1 as int),
    ensures
        free == free_before(rows_of(map@), block.0 as int, block.1 as int, dir),
{
    let ghost rows = rows_of(map@);
    let height = map.len();
    assert(rows[block.0 - 1].len() > block.1 + 2);
    assert(rows[block.0 as int].len() > block.1 + 2);
    assert(rows[block.0 + 1].len() > block.1 + 2);
    let width = map[block.0].len();
    match dir {
        Direction::Up => map[block.0 - 1][block.1] == '.' && map[block.0 - 1][block.1 + 1] == '.',
        Direction::Down => map[block.0 + 1][block.1] == '.' && map[block.0 + 1][block.1 + 1] == '.',
        Direction::Left => map[block.0][block.1 - 1] == '.',
        Direction::Right => map[block.0][block.1 + 2] == '.',
    }
}

/// Draws the box whose left half is at `block` one step on, if the cells it
/// would newly take are free.
pub fn move_block(map: &mut Vec<Vec<char>>, block: (usize, usize), dir: Direction) -> (moved: bool)
    requires
        box_inside(rows_of(old(map)@), block.0 as int, block.1 as int),
    ensures
        moved == free_before(rows_of(old(map)@), block.0 as int, block.1 as int, dir),
        rows_of(final(map)@) == if moved {
            box_moved(rows_of(old(map)@), block.0 as int, block.1 as int, dir)
        } else {
            rows_of(old(map)@)
        },
{
    let ghost before = rows_of(map@);
    let height = map.len();
    assert(before[block.0 - 1].len() > block.1 + 2);
    assert(before[block.0 as int].len() > block.1 + 2);
    assert(before[block.0 + 1].len() > block.1 + 2);
    let width = map[block.0].len();
    if can_move(map, block, dir) {
        match dir {
            Direction::Up => {
                map[block.0 - 1][block.1] = '[';
                map[block.0 - 1][block.1 + 1] = ']';
                map[block.0][block.1] = '.';
                map[block.0][block.1 + 1] = '.';
            },
            Direction::Down => {
                map[block.0 + 1][block.1] = '[';
                map[block.0 + 1][block.1 + 1] = ']';
                map[block.0][block.1] = '.';
                map[block.0][block.1 + 1] = '.';
            },
            Direction::Left => {
                map[block.0][block.1 - 1] = '[';
                map[block.0][block.1] = ']';
                map[block.0][block.1 + 1] = '.';
            },
            Direction::Right => {
                map[block.0][block.1] = '.';
                map[block.0][block.1 + 1] = '[';
                map[block.0][block.1 + 2] = ']';
            },
        }
        assert(rows_of(map@) =~~= box_moved(before, block.0 as int, block.1 as int, dir));
        return true;
    }
    false
}

/// The wide warehouse as a mathematical value.
pub struct WideFloor {
    pub map: Seq<Seq<char>>,
    pub robot: (int, int),
}

impl WideFloor {
    /// The number of rows.
    pub open spec fn rows(self) -> int {
        self.map.len() as int
    }

    /// The number of columns of the first row.
    pub open spec fn cols(self) -> int {
        self.map[0].len() as int
    }

    /// All rows are equally long, the outermost rows and the two outermost
    /// columns on either side are walls, and the robot stands off them.
    pub open spec fn wf(self) -> bool {
        &&& self.rows() >= 3
        &&& self.cols() >= 5
        &&& forall|r: int| 0 <= r < self.rows() ==> (#[trigger] self.map[r]).len() == self.cols()
        &&& forall|r: int, c: int|
            0 <= r < self.rows() && 0 <= c < self.cols() && (r == 0 || c <= 1 || r == self.rows() - 1
                || c >= self.cols() - 2) ==> #[trigger] self.map[r][c] == '#'
        &&& 0 < self.robot.0 < self.rows() - 1
        &&& 1 < self.robot.1 < self.cols() - 2
    }
}

/// The cells in which the left half of a box may lie that the box at `b`
/// touches when it is pushed in the direction, in the order in which they
/// are looked at.
pub open spec fn touched(b: (usize, usize), dir: Direction) -> Seq<(int, int)> {
    match dir {
        Direction::Up => seq![(b.0 - 1, b.1 - 1), (b.0 - 1, b.1 as int), (b.0 - 1, b.1 + 1)],
        Direction::Down => seq![(b.0 + 1, b.1 - 1), (b.0 + 1, b.1 as int), (b.0 + 1, b.1 + 1)],
        Direction::Left => seq![(b.0 as int, b.1 - 2)],
        Direction::Right => seq![(b.0 as int, b.1 + 2)],
    }
}

/// `found` with every one of the first `n` cells added that holds the left
/// half of a box and is not yet in the list.
pub open spec fn gathered(
    map: Seq<Seq<char>>,
    cells: Seq<(int, int)>,
    n: int,
    found: Seq<(usize, usize)>,
) -> Seq<(usize, usize)>
    decreases n,
{
    if n <= 0 {
        found
    } else {
        let before = gathered(map, cells, n - 1, found);
        let cell = cells[n - 1];
        let block = (cell.0 as usize, cell.1 as usize);
        if map[cell.0][cell.1] == '[' && !before.contains(block) {
            before.push(block)
        } else {
            before
        }
    }
}

/// The boxes that the first `n` boxes of a level push, each once, in the
/// order in which they are found.
pub open spec fn level_after(
    map: Seq<Seq<char>>,
    dir: Direction,
    level: Seq<(usize, usize)>,
    n: int,
) -> Seq<(usize, usize)>
    decreases n,
{
    if n <= 0 {
        Seq::empty()
    } else {
        let cells = touched(level[n - 1], dir);
        gathered(map, cells, cells.len() as int, level_after(map, dir, level, n - 1))
    }
}

/// Every box of the list has its left half on the map, off the walls that
/// surround it.
pub open spec fn all_inside(floor: WideFloor, level: Seq<(usize, usize)>) -> bool {
    forall|i: int|
        0 <= i < level.len() ==> 0 < (#[trigger] level[i]).0 < floor.rows() - 1 && 1 < level[i].1
            < floor.cols() - 2
}

/// `levels` are the boxes that a push of the box at `block` sets in motion:
/// the box itself, then level by level the boxes that the level before
/// pushes, until a level pushes none.
pub open spec fn is_connected(
    floor: WideFloor,
    block: (usize, usize),
    dir: Direction,
    levels: Seq<Vec<(usize, usize)>>,
) -> bool {
    &&& levels.len() >= 1
    &&& levels[0]@ == seq![block]
    &&& forall|l: int| 0 <= l < levels.len() ==> all_inside(floor, #[trigger] levels[l]@)
    &&& forall|l: int|
        0 <= l < levels.len() - 1 ==> (#[trigger] levels[l + 1])@ == level_after(
            floor.map,
            dir,
            levels[l]@,
            levels[l]@.len() as int,
        ) && levels[l + 1]@.len() > 0
    &&& level_after(floor.map, dir, levels.last()@, levels.last()@.len() as int).len() == 0
}

pub struct Warehouse2 {
    pub map: Vec<Vec<char>>,
    pub robot: (usize, usize),
}

impl View for Warehouse2 {
    type V = WideFloor;

    open spec fn view(&self) -> WideFloor {
        WideFloor { map: rows_of(self.map@), robot: (self.robot.0 as int, self.robot.1 as int) }
    }
}

/// Whether the list holds the position.
fn holds(list: &Vec<(usize, usize)>, p: (usize, usize)) -> (found: bool)
    ensures
        found == list@.contains(p),
{
    let mut i: usize = 0;
    while i < list.len()
        invariant
            i <= list@.len(),
            forall|j: int| 0 <= j < i ==> #[trigger] list@[j] != p,
        decreases list@.len() - i,
    {
        if list[i].0 == p.0 && list[i].1 == p.1 {
            return true;
        }
        i += 1;
    }
    false
}

/// The cells that the box at `b` touches when pushed in the direction.
fn touches(b: (usize, usize), dir: Direction) -> (cells: Vec<(usize, usize)>)
    requires
        0 < b.0 < usize::MAX,
        1 < b.1 < usize::MAX - 1,
    ensures
        cells@.len() == touched(b, dir).len(),
        forall|i: int|
            0 <= i < cells@.len() ==> ((#[trigger] cells@[i]).0 as int, cells@[i].1 as int) == touched(
                b,
                dir,
            )[i],
{
    let mut cells: Vec<(usize, usize)> = Vec::new();
    match dir {
        Direction::Up => {
            cells.push((b.0 - 1, b.1 - 1));
            cells.push((b.0 - 1, b.1));
            cells.push((b.0 - 1, b.1 + 1));
        },
        Direction::Down => {
            cells.push((b.0 + 1, b.1 - 1));
            cells.push((b.0 + 1, b.1));
            cells.push((b.0 + 1, b.1 + 1));
        },
        Direction::Left => {
            cells.push((b.0, b.1 - 2));
        },
        Direction::Right => {
            cells.push((b.0, b.1 + 2));
        },
    }
    cells
}

/// A copy of the map.
pub fn copy_map(map: &Vec<Vec<char>>) -> (copy: Vec<Vec<char>>)
    ensures
        rows_of(copy@) == rows_of(map@),
{
    let mut copy: Vec<Vec<char>> = Vec::new();
    let mut r: usize = 0;
    while r < map.len()
        invariant
            r <= map@.len(),
            copy@.len() == r,
            forall|i: int| 0 <= i < r ==> (#[trigger] copy@[i])@ == map@[i]@,
        decreases map@.len() - r,
    {
        let line = &map[r];
        let mut made: Vec<char> = Vec::new();
        let mut c: usize = 0;
        while c < line.len()
            invariant
                c <= line@.len(),
                made@.len() == c,
                forall|j: int| 0 <= j < c ==> #[trigger] made@[j] == line@[j],
            decreases line@.len() - c,
        {
            made.push(line[c]);
            c += 1;
        }
        assert(made@ =~= line@);
        copy.push(made);
        r += 1;
    }
    assert(rows_of(copy@) =~= rows_of(map@));
    copy
}

/// The boxes of the first `n` levels, last level first.
pub open spec fn last_first(levels: Seq<Vec<(usize, usize)>>, n: int) -> Seq<(usize, usize)>
    decreases n,
{
    if n <= 0 {
        Seq::empty()
    } else {
        levels[n - 1]@ + last_first(levels, n - 1)
    }
}

/// The map after the first `n` boxes of the list were drawn one step on,
/// one after the other; nothing if one of them found its way barred.
pub open spec fn all_moved(
    map: Seq<Seq<char>>,
    blocks: Seq<(usize, usize)>,
    dir: Direction,
    n: int,
) -> Option<Seq<Seq<char>>>
    decreases n,
{
    if n <= 0 {
        Some(map)
    } else {
        match all_moved(map, blocks, dir, n - 1) {
            None => None,
            Some(before) => if free_before(
                before,
                blocks[n - 1].0 as int,
                blocks[n - 1].1 as int,
                dir,
            ) {
                Some(box_moved(before, blocks[n - 1].0 as int, blocks[n - 1].1 as int, dir))
            } else {
                None
            },
        }
    }
}

/// What a push of the boxes of the levels leads to: `moved` tells whether
/// every box, the furthest first, found its way free, and `after` is the map
/// with all of them drawn one step on, or the map as it was.
pub open spec fn pushes_to(
    map: Seq<Seq<char>>,
    levels: Seq<Vec<(usize, usize)>>,
    dir: Direction,
    moved: bool,
    after: Seq<Seq<char>>,
) -> bool {
    let blocks = last_first(levels, levels.len() as int);
    match all_moved(map, blocks, dir, blocks.len() as int) {
        Some(pushed) => moved && after == pushed,
        None => !moved && after == map,
    }
}

/// Every box of the levels, last level first, lies off the walls.
pub proof fn lemma_last_first_inside(floor: WideFloor, levels: Seq<Vec<(usize, usize)>>, n: int, i: int)
    requires
        0 <= n <= levels.len(),
        forall|l: int| 0 <= l < levels.len() ==> all_inside(floor, #[trigger] levels[l]@),
        0 <= i < last_first(levels, n).len(),
    ensures
        0 < last_first(levels, n)[i].0 < floor.rows() - 1,
        1 < last_first(levels, n)[i].1 < floor.cols() - 2,
    decreases n,
{
    if n > 0 {
        assert(all_inside(floor, levels[n - 1]@));
        if i >= levels[n - 1]@.len() {
            lemma_last_first_inside(floor, levels, n - 1, i - levels[n - 1]@.len());
        }
    }
}

/// The boxes of the levels in one list, last level first.
fn flatten(levels: &Vec<Vec<(usize, usize)>>) -> (order: Vec<(usize, usize)>)
    ensures
        order@ == last_first(levels@, levels@.len() as int),
{
    let mut parts: Vec<(usize, usize)> = Vec::new();
    // Gathered first level first, each level turned round, and turned round
    // as a whole at last.
    let mut l: usize = 0;
    while l < levels.len()
        invariant
            l <= levels@.len(),
            parts@.reverse() == last_first(levels@, l as int),
        decreases levels@.len() - l,
    {
        let level = &levels[l];
        let ghost base = parts@;
        let mut i: usize = level.len();
        while i > 0
            invariant
                i <= level@.len(),
                parts@ == base + level@.skip(i as int).reverse(),
            decreases i,
        {
            i -= 1;
            parts.push(level[i]);
            proof {
                assert(level@.skip(i as int).reverse() =~= level@.skip(i + 1).reverse().push(
                    level@[i as int],
                ));
            }
        }
        proof {
            assert(level@.skip(0) =~= level@);
            assert((base + level@.reverse()).reverse() =~= level@ + base.reverse());
        }
        l += 1;
    }
    let mut order: Vec<(usize, usize)> = Vec::new();
    let n = parts.len();
    let mut i: usize = 0;
    while i < n
        invariant
            i <= n,
            n == parts@.len(),
            order@.len() == i,
            forall|j: int| 0 <= j < i ==> #[trigger] order@[j] == parts@[n - 1 - j],
        decreases n - i,
    {
        order.push(parts[n - 1 - i]);
        i += 1;
    }
    assert(order@ =~= parts@.reverse());
    order
}

/// Draws the boxes of the list one step on, one after the other, until one
/// finds its way barred.
fn move_all(
    map: &mut Vec<Vec<char>>,
    order: &Vec<(usize, usize)>,
    dir: Direction,
    Ghost(floor): Ghost<WideFloor>,
) -> (moved: bool)
    requires
        floor.wf(),
        rows_of(old(map)@) == floor.map,
        forall|i: int|
            0 <= i < order@.len() ==> 0 < (#[trigger] order@[i]).0 < floor.rows() - 1 && 1 < order@[i].1
                < floor.cols() - 2,
    ensures
        match all_moved(floor.map, order@, dir, order@.len() as int) {
            Some(pushed) => moved && rows_of(final(map)@) == pushed,
            None => !moved,
        },
        same_shape(rows_of(final(map)@), floor.map),
{
    let mut i: usize = 0;
    while i < order.len()
        invariant
            i <= order@.len(),
            floor.wf(),
            forall|j: int|
                0 <= j < order@.len() ==> 0 < (#[trigger] order@[j]).0 < floor.rows() - 1 && 1
                    < order@[j].1 < floor.cols() - 2,
            all_moved(floor.map, order@, dir, i as int) == Some(rows_of(map@)),
            same_shape(rows_of(map@), floor.map),
        decreases order@.len() - i,
    {
        let b = order[i];
        let ghost before = rows_of(map@);
        proof {
            assert forall|r: int| b.0 - 1 <= r <= b.0 + 1 implies b.1 + 2 < (#[trigger] before[r]).len() by {
                assert(floor.map[r].len() == floor.cols());
            }
        }
        if !move_block(map, b, dir) {
            proof {
                assert(all_moved(floor.map, order@, dir, i + 1) is None);
                lemma_all_moved_stays_none(floor.map, order@, dir, i + 1, order@.len() as int);
            }
            return false;
        }
        proof {
            lemma_box_moved_shape(before, b.0 as int, b.1 as int, dir);
        }
        i += 1;
    }
    true
}

impl Warehouse2 {
    /// The boxes that a push of the box at `block` sets in motion, level by
    /// level.
    pub fn connected_blocks(&self, block: (usize, usize), dir: Direction) -> (levels: Vec<
        Vec<(usize, usize)>,
    >)
        requires
            self@.wf(),
            0 < block.0 < self@.rows() - 1,
            1 < block.1 < self@.cols() - 2,
        ensures
            is_connected(self@, block, dir, levels@),
    {
        let ghost floor = self@;
        let rows = self.map.len();
        let cols = self.map[0].len();
        assert(floor.map[0].len() == cols);
        let mut first: Vec<(usize, usize)> = Vec::new();
        first.push(block);
        let mut levels: Vec<Vec<(usize, usize)>> = Vec::new();
        levels.push(first);
        assert(levels@[0]@ =~= seq![block]);
        loop
            invariant
                floor == self@,
                floor.wf(),
                rows == floor.rows(),
                cols == floor.cols(),
                0 < block.0 < rows - 1,
                1 < block.1 < cols - 2,
                levels@.len() >= 1,
                levels@[0]@ == seq![block],
                forall|l: int| 0 <= l < levels@.len() ==> all_inside(floor, #[trigger] levels@[l]@),
                forall|l: int|
                    0 <= l < levels@.len() - 1 ==> (#[trigger] levels@[l + 1])@ == level_after(
                        floor.map,
                        dir,
                        levels@[l]@,
                        levels@[l]@.len() as int,
                    ) && levels@[l + 1]@.len() > 0,
                forall|l: int, i: int|
                    0 <= l < levels@.len() && 0 <= i < levels@[l]@.len() ==> (#[trigger] levels@[l]@[i]).0
                        == block.0 + l * delta(dir).0 && (dir == Direction::Left || dir
                        == Direction::Right ==> levels@[l]@[i].1 == block.1 + 2 * l * delta(dir).1),
            ensures
                is_connected(floor, block, dir, levels@),
            decreases rows + cols - levels@.len(),
        {
            let depth = levels.len();
            let cur = &levels[depth - 1];
            let mut next: Vec<(usize, usize)> = Vec::new();
            let mut i: usize = 0;
            while i < cur.len()
                invariant
                    floor == self@,
                    floor.wf(),
                    rows == floor.rows(),
                    cols == floor.cols(),
                    i <= cur@.len(),
                    depth >= 1,
                    all_inside(floor, cur@),
                    all_inside(floor, next@),
                    next@ == level_after(floor.map, dir, cur@, i as int),
                    forall|j: int|
                        0 <= j < cur@.len() ==> (#[trigger] cur@[j]).0 == block.0 + (depth - 1) * delta(
                            dir,
                        ).0 && (dir == Direction::Left || dir == Direction::Right ==> cur@[j].1
                            == block.1 + 2 * (depth - 1) * delta(dir).1),
                    forall|j: int|
                        0 <= j < next@.len() ==> (#[trigger] next@[j]).0 == block.0 + depth * delta(
                            dir,
                        ).0 && (dir == Direction::Left || dir == Direction::Right ==> next@[j].1
                            == block.1 + 2 * depth * delta(dir).1),
                decreases cur@.len() - i,
            {
                let b = cur[i];
                let cells = touches(b, dir);
                let ghost base = next@;
                let mut k: usize = 0;
                while k < cells.len()
                    invariant
                        floor == self@,
                        floor.wf(),
                        rows == floor.rows(),
                        cols == floor.cols(),
                        k <= cells@.len(),
                        cells@.len() == touched(b, dir).len(),
                        forall|j: int|
                            0 <= j < cells@.len() ==> ((#[trigger] cells@[j]).0 as int, cells@[j].1 as int)
                                == touched(b, dir)[j],
                        0 < b.0 < rows - 1,
                        1 < b.1 < cols - 2,
                        b.0 == block.0 + (depth - 1) * delta(dir).0,
                        dir == Direction::Left || dir == Direction::Right ==> b.1 == block.1 + 2 * (depth
                            - 1) * delta(dir).1,
                        all_inside(floor, next@),
                        next@ == gathered(floor.map, touched(b, dir), k as int, base),
                        forall|j: int|
                            0 <= j < next@.len() ==> (#[trigger] next@[j]).0 == block.0 + depth * delta(
                                dir,
                            ).0 && (dir == Direction::Left || dir == Direction::Right ==> next@[j].1
                                == block.1 + 2 * depth * delta(dir).1),
                    decreases cells@.len() - k,
                {
                    let cell = cells[k];
                    assert((cell.0 as int, cell.1 as int) == touched(b, dir)[k as int]);
                    assert(floor.map[cell.0 as int].len() == cols);
                    if self.map[cell.0][cell.1] == '[' && !holds(&next, cell) {
                        proof {
                            assert(floor.map[cell.0 as int][cell.1 as int] != '#');
                            assert(depth * delta(dir).0 == (depth - 1) * delta(dir).0 + delta(dir).0) by (nonlinear_arith);
                            assert(2 * depth * delta(dir).1 == 2 * (depth - 1) * delta(dir).1 + 2 * delta(
                                dir,
                            ).1) by (nonlinear_arith);
                        }
                        next.push(cell);
                    }
                    k += 1;
                }
                i += 1;
            }
            if next.len() == 0 {
                break;
            }
            proof {
                let b = next@[0];
                assert(0 < b.0 < rows - 1 && 1 < b.1 < cols - 2);
                assert(b.0 == block.0 + depth * delta(dir).0);
                if dir == Direction::Left || dir == Direction::Right {
                    assert(b.1 == block.1 + 2 * depth * delta(dir).1);
                }
                let d = depth as int;
                match dir {
                    Direction::Up => {
                        assert(d * delta(dir).0 == -d) by (nonlinear_arith)
                            requires
                                delta(dir).0 == -1,
                        ;
                    },
                    Direction::Down => {
                        assert(d * delta(dir).0 == d) by (nonlinear_arith)
                            requires
                                delta(dir).0 == 1,
                        ;
                    },
                    Direction::Left => {
                        assert(2 * d * delta(dir).1 == -2 * d) by (nonlinear_arith)
                            requires
                                delta(dir).1 == -1,
                        ;
                    },
                    Direction::Right => {
                        assert(2 * d * delta(dir).1 == 2 * d) by (nonlinear_arith)
                            requires
                                delta(dir).1 == 1,
                        ;
                    },
                }
                assert(depth < rows + cols);
            }
            let ghost before = levels@;
            levels.push(next);
            proof {
                assert forall|l: int| 0 <= l < levels@.len() - 1 implies (#[trigger] levels@[l + 1])@
                    == level_after(floor.map, dir, levels@[l]@, levels@[l]@.len() as int) && levels@[l
                    + 1]@.len() > 0 by {
                    if l < before.len() - 1 {
                        assert(levels@[l + 1] == before[l + 1]);
                        assert(levels@[l] == before[l]);
                    }
                }
                assert forall|l: int, i: int|
                    0 <= l < levels@.len() && 0 <= i < levels@[l]@.len() implies (#[trigger] levels@[l]@[i]).0
                    == block.0 + l * delta(dir).0 && (dir == Direction::Left || dir == Direction::Right
                    ==> levels@[l]@[i].1 == block.1 + 2 * l * delta(dir).1) by {
                    if l < before.len() {
                        assert(levels@[l] == before[l]);
                    }
                }
            }
        }
        levels
    }

    /// Pushes the box at `block`, and with it every box it sets in motion,
    /// one step on: the boxes furthest off first. Nothing moves, and the
    /// answer is `false`, if one of the boxes finds its way barred.
    pub fn move_blocks(&mut self, block: (usize, usize), dir: Direction) -> (moved: bool)
        requires
            old(self)@.wf(),
            0 < block.0 < old(self)@.rows() - 1,
            1 < block.1 < old(self)@.cols() - 2,
        ensures
            final(self).robot == old(self).robot,
            same_shape(final(self)@.map, old(self)@.map),
            exists|levels: Seq<Vec<(usize, usize)>>| #[trigger]
                is_connected(old(self)@, block, dir, levels) && pushes_to(
                    old(self)@.map,
                    levels,
                    dir,
                    moved,
                    final(self)@.map,
                ),
    {
        let ghost floor = self@;
        let levels = self.connected_blocks(block, dir);
        let order = flatten(&levels);
        proof {
            assert forall|i: int| 0 <= i < order@.len() implies 0 < (#[trigger] order@[i]).0 < floor.rows()
                - 1 && 1 < order@[i].1 < floor.cols() - 2 by {
                lemma_last_first_inside(floor, levels@, levels@.len() as int, i);
            }
        }
        let mut temp = copy_map(&self.map);
        let moved = move_all(&mut temp, &order, dir, Ghost(floor));
        if moved {
            self.map = temp;
        }
        assert(pushes_to(floor.map, levels@, dir, moved, self@.map));
        moved
    }

    /// One step of the robot in the direction of the move character.
    pub fn step(&mut self, direction: char)
        requires
            crate::days::day15::is_move(direction),
            old(self)@.wf(),
        ensures
            old(self)@.steps_to(direction, final(self)@),
            same_shape(final(self)@.map, old(self)@.map),
    {
        let ghost floor = self@;
        let rows = self.map.len();
        let cols = self.map[0].len();
        assert(floor.map[0].len() == cols);
        let (dir, p): (Direction, (usize, usize)) = if direction == '^' {
            (Direction::Up, (self.robot.0 - 1, self.robot.1))
        } else if direction == 'v' {
            (Direction::Down, (self.robot.0 + 1, self.robot.1))
        } else if direction == '<' {
            (Direction::Left, (self.robot.0, self.robot.1 - 1))
        } else {
            (Direction::Right, (self.robot.0, self.robot.1 + 1))
        };
        assert(floor.map[p.0 as int].len() == cols);
        let c = self.map[p.0][p.1];
        if c == '.' {
            self.robot = p;
        } else if c == '[' || c == ']' {
            let block = if c == '[' {
                p
            } else {
                (p.0, p.1 - 1)
            };
            proof {
                assert(floor.map[p.0 as int][p.1 as int] != '#');
                if c == ']' && p.1 == 2 {
                    // the box would begin within the wall
                }
            }
            if block.1 >= 2 {
                let moved = self.move_blocks(block, dir);
                let ghost pushed = self@;
                if moved {
                    self.robot = p;
                }
                proof {
                    let levels = choose|levels: Seq<Vec<(usize, usize)>>| #[trigger]
                        is_connected(floor, block, dir, levels) && pushes_to(
                            floor.map,
                            levels,
                            dir,
                            moved,
                            pushed.map,
                        );
                    assert(is_connected(floor, block, dir, levels));
                    assert(self@.map == pushed.map);
                    assert(dir == WideFloor::heading(direction));
                    assert(p.0 == floor.robot.0 + delta(dir).0 && p.1 == floor.robot.1 + delta(dir).1);
                    assert(c == floor.map[p.0 as int][p.1 as int]);
                    assert(floor.pushed_block(direction) == block);
                    assert(floor.follows_push(direction, levels, self@));
                    assert(floor.steps_to(direction, self@));
                }
            }
        }
    }
}

/// The two cells that a cell of a warehouse becomes when the warehouse is
/// made twice as wide; nothing for a character that no warehouse holds.
pub open spec fn doubled(c: char) -> Option<(char, char)> {
    if c == '#' {
        Some(('#', '#'))
    } else if c == 'O' {
        Some(('[', ']'))
    } else if c == '.' {
        Some(('.', '.'))
    } else if c == '@' {
        Some(('@', '.'))
    } else {
        None
    }
}

/// The row made twice as wide.
pub open spec fn widened_row(row: Seq<char>) -> Seq<char> {
    Seq::new(
        2 * row.len(),
        |i: int|
            match doubled(row[i / 2]) {
                Some(pair) => if i % 2 == 0 {
                    pair.0
                } else {
                    pair.1
                },
                None => ' ',
            },
    )
}

/// Every character of the map is one that a warehouse holds.
pub open spec fn widenable(map: Seq<Vec<char>>) -> bool {
    forall|r: int, c: int|
        0 <= r < map.len() && 0 <= c < map[r]@.len() ==> doubled(#[trigger] map[r]@[c]) is Some
}

/// The map made twice as wide. `None` where it holds a character that no
/// warehouse holds.
pub fn widen(map: &Vec<Vec<char>>) -> (out: Option<Vec<Vec<char>>>)
    ensures
        match out {
            Some(wide) => widenable(map@) && wide@.len() == map@.len() && forall|r: int|
                0 <= r < map@.len() ==> (#[trigger] wide@[r])@ == widened_row(map@[r]@),
            None => !widenable(map@),
        },
{
    let mut wide: Vec<Vec<char>> = Vec::new();
    let mut r: usize = 0;
    while r < map.len()
        invariant
            r <= map@.len(),
            wide@.len() == r,
            forall|i: int, c: int|
                0 <= i < r && 0 <= c < map@[i]@.len() ==> doubled(#[trigger] map@[i]@[c]) is Some,
            forall|i: int| 0 <= i < r ==> (#[trigger] wide@[i])@ == widened_row(map@[i]@),
        decreases map@.len() - r,
    {
        let line = &map[r];
        let mut made: Vec<char> = Vec::new();
        let mut c: usize = 0;
        while c < line.len()
            invariant
                c <= line@.len(),
                line == map@[r as int],
                r < map@.len(),
                made@.len() == 2 * c,
                forall|k: int| 0 <= k < c ==> doubled(#[trigger] line@[k]) is Some,
                forall|k: int| 0 <= k < 2 * c ==> #[trigger] made@[k] == widened_row(line@)[k],
            decreases line@.len() - c,
        {
            let ch = line[c];
            let pair = if ch == '#' {
                ('#', '#')
            } else if ch == 'O' {
                ('[', ']')
            } else if ch == '.' {
                ('.', '.')
            } else if ch == '@' {
                ('@', '.')
            } else {
                assert(doubled(map@[r as int]@[c as int]) is None);
                return None;
            };
            made.push(pair.0);
            made.push(pair.1);
            c += 1;
        }
        assert(made@ =~= widened_row(line@));
        wide.push(made);
        r += 1;
    }
    Some(wide)
}

/// Whether the wide warehouse is well formed.
pub fn is_sound(warehouse: &Warehouse2) -> (ok: bool)
    ensures
        ok == warehouse@.wf(),
{
    let rows = warehouse.map.len();
    if rows < 3 {
        return false;
    }
    let cols = warehouse.map[0].len();
    let ghost floor = warehouse@;
    assert(floor.map[0].len() == cols);
    if cols < 5 {
        return false;
    }
    let mut r: usize = 0;
    while r < rows
        invariant
            r <= rows,
            rows == warehouse.map@.len(),
            rows >= 3,
            cols >= 5,
            cols == warehouse.map@[0]@.len(),
            floor == warehouse@,
            forall|i: int| 0 <= i < r ==> (#[trigger] floor.map[i]).len() == cols,
            forall|i: int, c: int|
                0 <= i < r && 0 <= c < cols && (i == 0 || c <= 1 || i == rows - 1 || c >= cols - 2)
                    ==> #[trigger] floor.map[i][c] == '#',
        decreases rows - r,
    {
        let line = &warehouse.map[r];
        assert(floor.map[r as int] == line@);
        assert(floor.map[0].len() == cols);
        if line.len() != cols {
            assert(floor.map[r as int].len() != floor.cols());
            return false;
        }
        let mut c: usize = 0;
        while c < cols
            invariant
                c <= cols,
                r < rows,
                rows == warehouse.map@.len(),
                rows >= 3,
                cols >= 5,
                cols == warehouse.map@[0]@.len(),
                floor == warehouse@,
                cols == line@.len(),
                floor.map[r as int] == line@,
                forall|k: int|
                    0 <= k < c && (r == 0 || k <= 1 || r == rows - 1 || k >= cols - 2) ==> #[trigger] line@[k]
                        == '#',
            decreases cols - c,
        {
            if (r == 0 || c <= 1 || r == rows - 1 || c >= cols - 2) && line[c] != '#' {
                assert(floor.map[0].len() == cols);
                assert(floor.map[r as int][c as int] != '#');
                return false;
            }
            c += 1;
        }
        r += 1;
    }
    assert(floor.map[0].len() == cols);
    0 < warehouse.robot.0 && warehouse.robot.0 < rows - 1 && 1 < warehouse.robot.1 && warehouse.robot.1
        < cols - 2
}

/// Move `i` takes the warehouse from state `i` of the trace to the next.
pub open spec fn moves_on(trace: Seq<WideFloor>, moves: Seq<char>, i: int) -> bool {
    trace[i].wf() && trace[i].steps_to(moves[i], trace[i + 1])
}

/// The trace holds the states of the warehouse from `start` on, one after
/// every one of the first `n` moves, each move made in a well-formed
/// warehouse.
pub open spec fn is_trace(start: WideFloor, moves: Seq<char>, n: int, trace: Seq<WideFloor>) -> bool {
    &&& trace.len() == n + 1
    &&& trace[0] == start
    &&& forall|i: int| 0 <= i < n ==> #[trigger] moves_on(trace, moves, i)
}

impl Warehouse2 {
    /// The warehouse that a map with the robot drawn in as `@` shows.
    pub fn from_map(map: Vec<Vec<char>>) -> (out: Option<Warehouse2>)
        ensures
            match out {
                Some(w) => crate::days::day16::grid::first_at(map@, '@', w@.robot.0, w@.robot.1)
                    && w@.map == crate::days::day15::cleared_at(rows_of(map@), w@.robot.0, w@.robot.1),
                None => !crate::days::day16::grid::occurs(map@, '@'),
            },
    {
        match crate::days::day15::take_robot(map) {
            None => None,
            Some((map, robot)) => {
                assert(rows_of(map@) =~= crate::days::day15::rows_of(map@));
                Some(Warehouse2 { map, robot })
            },
        }
    }

    /// Lets the robot try the moves one after the other, as long as the
    /// warehouse is well formed; tells whether all moves were tried.
    pub fn run(&mut self, moves: &Vec<char>) -> (done: bool)
        requires
            forall|i: int| 0 <= i < moves@.len() ==> crate::days::day15::is_move(#[trigger] moves@[i]),
        ensures
            exists|n: int, trace: Seq<WideFloor>|
                0 <= n <= moves@.len() && #[trigger] is_trace(old(self)@, moves@, n, trace)
                    && trace.last() == final(self)@ && if done {
                    n == moves@.len()
                } else {
                    n < moves@.len() && !final(self)@.wf()
                },
    {
        let ghost start = self@;
        let ghost mut trace: Seq<WideFloor> = seq![start];
        let mut i: usize = 0;
        while i < moves.len()
            invariant
                i <= moves@.len(),
                start == old(self)@,
                forall|j: int|
                    0 <= j < moves@.len() ==> crate::days::day15::is_move(#[trigger] moves@[j]),
                is_trace(start, moves@, i as int, trace),
                trace.last() == self@,
            decreases moves@.len() - i,
        {
            if !is_sound(self) {
                return false;
            }
            let ghost before = trace;
            self.step(moves[i]);
            proof {
                trace = before.push(self@);
                assert forall|j: int| 0 <= j < i + 1 implies #[trigger] moves_on(trace, moves@, j) by {
                    if j < i {
                        assert(moves_on(before, moves@, j));
                    }
                }
            }
            i += 1;
        }
        true
    }

    /// The sum, over all boxes, of a hundred times the row plus the column of
    /// the left half.
    pub fn gps_sum(&self) -> (sum: usize)
        requires
            crate::days::day15::gps_upto(
                crate::days::day15::rows_of(self.map@),
                '[',
                self.map@.len() as int,
            ) <= usize::MAX,
            self.map@.len() * 100 <= usize::MAX,
        ensures
            sum == crate::days::day15::gps_upto(
                crate::days::day15::rows_of(self.map@),
                '[',
                self.map@.len() as int,
            ),
    {
        crate::days::day15::gps(&self.map, '[')
    }
}

impl WideFloor {
    /// The direction that a move character asks for.
    pub open spec fn heading(direction: char) -> Direction {
        if direction == '^' {
            Direction::Up
        } else if direction == 'v' {
            Direction::Down
        } else if direction == '<' {
            Direction::Left
        } else {
            Direction::Right
        }
    }

    /// The cell that the robot would step onto.
    pub open spec fn target(self, direction: char) -> (int, int) {
        let dir = Self::heading(direction);
        (self.robot.0 + delta(dir).0, self.robot.1 + delta(dir).1)
    }

    /// The left half of the box of which a half lies before the robot.
    pub open spec fn pushed_block(self, direction: char) -> (usize, usize) {
        let p = self.target(direction);
        if self.map[p.0][p.1] == '[' {
            (p.0 as usize, p.1 as usize)
        } else {
            (p.0 as usize, (p.1 - 1) as usize)
        }
    }

    /// `after` is the warehouse after the push of the boxes of the levels:
    /// the robot has followed them, or nothing has moved.
    pub open spec fn follows_push(
        self,
        direction: char,
        levels: Seq<Vec<(usize, usize)>>,
        after: WideFloor,
    ) -> bool {
        let blocks = last_first(levels, levels.len() as int);
        match all_moved(self.map, blocks, Self::heading(direction), blocks.len() as int) {
            Some(map) => after == (WideFloor { map, robot: self.target(direction) }),
            None => after == self,
        }
    }

    /// `after` is the warehouse after the robot tried one step: it steps
    /// onto free floor; before a box it pushes the box and all that the box
    /// sets in motion, and follows if they moved; else it stays.
    pub open spec fn steps_to(self, direction: char, after: WideFloor) -> bool {
        let p = self.target(direction);
        let c = self.map[p.0][p.1];
        if c == '.' {
            after == (WideFloor { map: self.map, robot: p })
        } else if c == '[' || c == ']' {
            if self.pushed_block(direction).1 < 2 {
                after == self
            } else {
                exists|levels: Seq<Vec<(usize, usize)>>| #[trigger]
                    is_connected(
                        self,
                        self.pushed_block(direction),
                        Self::heading(direction),
                        levels,
                    ) && self.follows_push(direction, levels, after)
            }
        } else {
            after == self
        }
    }
}

/// The two maps have as many rows, each as long in the one as in the other.
pub open spec fn same_shape(a: Seq<Seq<char>>, b: Seq<Seq<char>>) -> bool {
    a.len() == b.len() && forall|r: int| 0 <= r < a.len() ==> (#[trigger] a[r]).len() == b[r].len()
}

/// A box drawn one step on leaves the map its shape.
pub proof fn lemma_box_moved_shape(map: Seq<Seq<char>>, row: int, col: int, dir: Direction)
    requires
        box_inside(map, row, col),
    ensures
        same_shape(box_moved(map, row, col, dir), map),
{
    assert(map[row - 1].len() > col + 2);
    assert(map[row].len() > col + 2);
    assert(map[row + 1].len() > col + 2);
}

/// Once a box found its way barred, no later box moves.
pub proof fn lemma_all_moved_stays_none(
    map: Seq<Seq<char>>,
    blocks: Seq<(usize, usize)>,
    dir: Direction,
    m: int,
    n: int,
)
    requires
        0 <= m <= n,
        all_moved(map, blocks, dir, m) is None,
    ensures
        all_moved(map, blocks, dir, n) is None,
    decreases n,
{
    if m < n {
        lemma_all_moved_stays_none(map, blocks, dir, m, n - 1);
    }
}

} // verus!
