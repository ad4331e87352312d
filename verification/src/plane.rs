//! Maps of characters, read as rows of a plane.

use vstd::prelude::*;

verus! {

/// No row is shorter than the first.
pub open spec fn rows_reach(map: Seq<Vec<char>>) -> bool {
    forall|r: int| 0 <= r < map.len() ==> (#[trigger] map[r])@.len() >= map[0]@.len()
}

/// There is a row and a column, and every row is as long as the first.
pub open spec fn rectangular(map: Seq<Vec<char>>) -> bool {
    &&& map.len() > 0
    &&& map[0]@.len() > 0
    &&& forall|r: int| 0 <= r < map.len() ==> (#[trigger] map[r])@.len() == map[0]@.len()
}

/// The four neighbours of a position, in the order right, left, down, up.
pub open spec fn around(row: int, col: int) -> Seq<(int, int)> {
    seq![(row, col + 1), (row, col - 1), (row + 1, col), (row - 1, col)]
}

/// The character at (`row`, `col`); a `#` off the rows and the columns of
/// the first row.
pub open spec fn value_on(map: Seq<Vec<char>>, row: int, col: int) -> char {
    if 0 <= row < map.len() && 0 <= col < map[0]@.len() {
        map[row]@[col]
    } else {
        '#'
    }
}

/// The four neighbours of `pos`.
pub fn neighbours(pos: (isize, isize)) -> (out: Vec<(isize, isize)>)
    requires
        isize::MIN < pos.0 < isize::MAX,
        isize::MIN < pos.1 < isize::MAX,
    ensures
        out@.len() == 4,
        forall|k: int|
            0 <= k < 4 ==> ((#[trigger] out@[k]).0 as int, out@[k].1 as int) == around(
                pos.0 as int,
                pos.1 as int,
            )[k],
{
    let mut out: Vec<(isize, isize)> = Vec::new();
    out.push((pos.0, pos.1 + 1));
    out.push((pos.0, pos.1 - 1));
    out.push((pos.0 + 1, pos.1));
    out.push((pos.0 - 1, pos.1));
    out
}

/// The character at `p`, a `#` off the map.
pub fn char_or_wall(map: &Vec<Vec<char>>, p: (isize, isize)) -> (c: char)
    requires
        rows_reach(map@),
    ensures
        c == value_on(map@, p.0 as int, p.1 as int),
{
    if p.0 < 0 || p.1 < 0 {
        return '#';
    }
    let row = p.0 as usize;
    let col = p.1 as usize;
    if row < map.len() && col < map[0].len() {
        assert(map@[row as int]@.len() >= map@[0]@.len());
        return map[row][col];
    }
    '#'
}

/// Whether no row is shorter than the first.
pub fn reaches(map: &Vec<Vec<char>>) -> (ok: bool)
    ensures
        ok == rows_reach(map@),
{
    if map.len() == 0 {
        return true;
    }
    let cols = map[0].len();
    let mut r: usize = 0;
    while r < map.len()
        invariant
            r <= map@.len(),
            cols == map@[0]@.len(),
            forall|i: int| 0 <= i < r ==> (#[trigger] map@[i])@.len() >= cols,
        decreases map@.len() - r,
    {
        if map[r].len() < cols {
            return false;
        }
        r += 1;
    }
    true
}

/// Whether there is a row and a column, and every row is as long as the
/// first.
pub fn is_rectangular(map: &Vec<Vec<char>>) -> (ok: bool)
    ensures
        ok == rectangular(map@),
{
    if map.len() == 0 || map[0].len() == 0 {
        return false;
    }
    let cols = map[0].len();
    let mut r: usize = 0;
    while r < map.len()
        invariant
            r <= map@.len(),
            cols == map@[0]@.len(),
            forall|i: int| 0 <= i < r ==> (#[trigger] map@[i])@.len() == cols,
        decreases map@.len() - r,
    {
        if map[r].len() != cols {
            return false;
        }
        r += 1;
    }
    true
}

} // verus!
