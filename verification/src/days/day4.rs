//! Word search: the word XMAS along the eight directions, and two MAS that
//! cross at their A.

use vstd::prelude::*;

verus! {

/// The letter at (`row`, `col`), if that lies within the rows and the
/// columns of the first row.
pub open spec fn value_at(search: Seq<Vec<char>>, row: int, col: int) -> Option<char> {
    if 0 <= row < search.len() && 0 <= col < search[0]@.len() {
        Some(search[row]@[col])
    } else {
        None
    }
}

/// The letter at (`row`, `col`), a dot off the grid.
pub open spec fn letter_at(search: Seq<Vec<char>>, row: int, col: int) -> char {
    match value_at(search, row, col) {
        Some(c) => c,
        None => '.',
    }
}

/// No row is shorter than the first.
pub open spec fn rows_reach(search: Seq<Vec<char>>) -> bool {
    forall|r: int| 0 <= r < search.len() ==> (#[trigger] search[r])@.len() >= search[0]@.len()
}

/// XMAS stands from (`row`, `col`) on, one step of (`dy`, `dx`) per letter.
pub open spec fn xmas_at(search: Seq<Vec<char>>, row: int, col: int, dy: int, dx: int) -> bool {
    &&& letter_at(search, row, col) == 'X'
    &&& letter_at(search, row + dy, col + dx) == 'M'
    &&& letter_at(search, row + 2 * dy, col + 2 * dx) == 'A'
    &&& letter_at(search, row + 3 * dy, col + 3 * dx) == 'S'
}

/// The three letters spell MAS, forwards or backwards.
pub open spec fn is_mas(first: char, middle: char, last: char) -> bool {
    (first == 'M' && middle == 'A' && last == 'S') || (first == 'S' && middle == 'A' && last == 'M')
}

/// Both diagonals through (`row`, `col`) spell MAS.
pub open spec fn x_mas_at(search: Seq<Vec<char>>, row: int, col: int) -> bool {
    &&& is_mas(
        letter_at(search, row - 1, col - 1),
        letter_at(search, row, col),
        letter_at(search, row + 1, col + 1),
    )
    &&& is_mas(
        letter_at(search, row - 1, col + 1),
        letter_at(search, row, col),
        letter_at(search, row + 1, col - 1),
    )
}

/// The letter at the position; nothing off the grid.
pub fn get_value(search: &Vec<Vec<char>>, pos: (isize, isize)) -> (value: Option<char>)
    requires
        rows_reach(search@),
    ensures
        value == value_at(search@, pos.0 as int, pos.1 as int),
{
    if pos.0 < 0 || pos.1 < 0 {
        return None;
    }
    let row = pos.0 as usize;
    let col = pos.1 as usize;
    if row < search.len() && col < search[0].len() {
        assert(search@[row as int]@.len() >= search@[0]@.len());
        return Some(search[row][col]);
    }
    None
}

/// The letter at `pos`, a dot off the grid.
fn letter(search: &Vec<Vec<char>>, pos: (isize, isize)) -> (c: char)
    requires
        rows_reach(search@),
    ensures
        c == letter_at(search@, pos.0 as int, pos.1 as int),
{
    match get_value(search, pos) {
        Some(c) => c,
        None => '.',
    }
}

/// Whether XMAS stands at the position, read in the direction.
pub fn is_xmas(search: &Vec<Vec<char>>, pos: (usize, usize), direction: (isize, isize)) -> (found: bool)
    requires
        rows_reach(search@),
        pos.0 <= isize::MAX,
        pos.1 <= isize::MAX,
        isize::MIN <= 3 * direction.0,
        pos.0 + 3 * direction.0 <= isize::MAX,
        isize::MIN <= 3 * direction.1,
        pos.1 + 3 * direction.1 <= isize::MAX,
    ensures
        found == xmas_at(
            search@,
            pos.0 as int,
            pos.1 as int,
            direction.0 as int,
            direction.1 as int,
        ),
{
    let y = pos.0 as isize;
    let x = pos.1 as isize;
    let (dy, dx) = direction;
    letter(search, (y, x)) == 'X' && letter(search, (y + dy, x + dx)) == 'M' && letter(
        search,
        (y + 2 * dy, x + 2 * dx),
    ) == 'A' && letter(search, (y + 3 * dy, x + 3 * dx)) == 'S'
}

/// Whether two MAS cross at the position, each on a diagonal.
pub fn is_x_mas(search: &Vec<Vec<char>>, pos: (usize, usize)) -> (found: bool)
    requires
        rows_reach(search@),
        pos.0 < isize::MAX,
        pos.1 < isize::MAX,
    ensures
        found == x_mas_at(search@, pos.0 as int, pos.1 as int),
{
    let y = pos.0 as isize;
    let x = pos.1 as isize;
    let tl = letter(search, (y - 1, x - 1));
    let tr = letter(search, (y - 1, x + 1));
    let c = letter(search, (y, x));
    let bl = letter(search, (y + 1, x - 1));
    let br = letter(search, (y + 1, x + 1));
    mas(tl, c, br) && mas(tr, c, bl)
}

fn mas(first: char, middle: char, last: char) -> (ok: bool)
    ensures
        ok == is_mas(first, middle, last),
{
    (first == 'M' && middle == 'A' && last == 'S') || (first == 'S' && middle == 'A' && last == 'M')
}

/// The `k`-th of the eight directions.
pub open spec fn compass(k: int) -> (int, int) {
    if k == 0 {
        (0, 1)
    } else if k == 1 {
        (0, -1)
    } else if k == 2 {
        (1, 0)
    } else if k == 3 {
        (-1, 0)
    } else if k == 4 {
        (1, 1)
    } else if k == 5 {
        (1, -1)
    } else if k == 6 {
        (-1, 1)
    } else {
        (-1, -1)
    }
}

fn direction(k: usize) -> (d: (isize, isize))
    requires
        k < 8,
    ensures
        (d.0 as int, d.1 as int) == compass(k as int),
{
    if k == 0 {
        (0, 1)
    } else if k == 1 {
        (0, -1)
    } else if k == 2 {
        (1, 0)
    } else if k == 3 {
        (-1, 0)
    } else if k == 4 {
        (1, 1)
    } else if k == 5 {
        (1, -1)
    } else if k == 6 {
        (-1, 1)
    } else {
        (-1, -1)
    }
}

/// In how many of the eight directions XMAS stands from (`row`, `col`) on,
/// counting the first `k` directions only.
pub open spec fn xmas_from(search: Seq<Vec<char>>, row: int, col: int, k: int) -> int
    decreases k,
{
    if k <= 0 {
        0
    } else {
        xmas_from(search, row, col, k - 1) + if xmas_at(
            search,
            row,
            col,
            compass(k - 1).0,
            compass(k - 1).1,
        ) {
            1int
        } else {
            0int
        }
    }
}

/// How often XMAS stands in the cells before the `n`-th, row by row.
pub open spec fn xmas_before(search: Seq<Vec<char>>, n: int) -> int
    decreases n,
{
    let cols = search[0]@.len() as int;
    if n <= 0 || cols <= 0 {
        0
    } else {
        xmas_before(search, n - 1) + xmas_from(search, (n - 1) / cols, (n - 1) % cols, 8)
    }
}

/// At how many of the cells before the `n`-th, row by row, two MAS cross.
pub open spec fn x_mas_before(search: Seq<Vec<char>>, n: int) -> int
    decreases n,
{
    let cols = search[0]@.len() as int;
    if n <= 0 || cols <= 0 {
        0
    } else {
        x_mas_before(search, n - 1) + if x_mas_at(search, (n - 1) / cols, (n - 1) % cols) {
            1int
        } else {
            0int
        }
    }
}

/// How often XMAS stands in the rows and the columns of the first row:
/// from every cell, in every one of the eight directions.
pub fn count_xmas(search: &Vec<Vec<char>>) -> (count: usize)
    requires
        rows_reach(search@),
        search@.len() > 0,
        search@.len() <= 0x0fff_ffff,
        search@[0]@.len() <= 0x0fff_ffff,
        search@.len() * search@[0]@.len() * 8 <= usize::MAX,
    ensures
        count == xmas_before(search@, (search@.len() * search@[0]@.len()) as int),
{
    let rows = search.len();
    let cols = search[0].len();
    let mut count: usize = 0;
    let mut y: usize = 0;
    proof {
        assert(0 * cols == 0) by (nonlinear_arith);
    }
    while y < rows
        invariant
            y <= rows,
            rows == search@.len(),
            cols == search@[0]@.len(),
            rows <= 0x0fff_ffff,
            cols <= 0x0fff_ffff,
            rows * cols * 8 <= usize::MAX,
            rows_reach(search@),
            count == xmas_before(search@, y * cols),
            count <= 8 * (y * cols),
        decreases rows - y,
    {
        let mut x: usize = 0;
        while x < cols
            invariant
                y < rows,
                x <= cols,
                rows == search@.len(),
                cols == search@[0]@.len(),
                rows <= 0x0fff_ffff,
                cols <= 0x0fff_ffff,
                rows * cols * 8 <= usize::MAX,
                rows_reach(search@),
                count == xmas_before(search@, y * cols + x),
                count <= 8 * (y * cols + x),
            decreases cols - x,
        {
            proof {
                let n = y * cols + x;
                vstd::arithmetic::div_mod::lemma_fundamental_div_mod_converse(
                    n as int,
                    cols as int,
                    y as int,
                    x as int,
                );
                assert(8 * (y * cols + x) + 8 <= rows * cols * 8) by (nonlinear_arith)
                    requires
                        y < rows,
                        x < cols,
                ;
            }
            let mut k: usize = 0;
            let ghost base = count;
            while k < 8
                invariant
                    k <= 8,
                    y < rows,
                    x < cols,
                    rows == search@.len(),
                    cols == search@[0]@.len(),
                    rows <= 0x0fff_ffff,
                    cols <= 0x0fff_ffff,
                    rows_reach(search@),
                    count == base + xmas_from(search@, y as int, x as int, k as int),
                    count <= base + k,
                    base + 8 <= usize::MAX,
                decreases 8 - k,
            {
                let d = direction(k);
                if is_xmas(search, (y, x), d) {
                    count += 1;
                }
                k += 1;
            }
            x += 1;
        }
        proof {
            assert((y + 1) * cols == y * cols + cols) by (nonlinear_arith);
        }
        y += 1;
    }
    count
}

/// At how many cells of the rows and the columns of the first row two MAS
/// cross.
pub fn count_x_mas(search: &Vec<Vec<char>>) -> (count: usize)
    requires
        rows_reach(search@),
        search@.len() > 0,
        search@.len() <= 0x0fff_ffff,
        search@[0]@.len() <= 0x0fff_ffff,
        search@.len() * search@[0]@.len() * 8 <= usize::MAX,
    ensures
        count == x_mas_before(search@, (search@.len() * search@[0]@.len()) as int),
{
    let rows = search.len();
    let cols = search[0].len();
    let mut count: usize = 0;
    let mut y: usize = 0;
    proof {
        assert(0 * cols == 0) by (nonlinear_arith);
    }
    while y < rows
        invariant
            y <= rows,
            rows == search@.len(),
            cols == search@[0]@.len(),
            rows <= 0x0fff_ffff,
            cols <= 0x0fff_ffff,
            rows * cols * 8 <= usize::MAX,
            rows_reach(search@),
            count == x_mas_before(search@, y * cols),
            count <= y * cols,
        decreases rows - y,
    {
        let mut x: usize = 0;
        while x < cols
            invariant
                y < rows,
                x <= cols,
                rows == search@.len(),
                cols == search@[0]@.len(),
                rows <= 0x0fff_ffff,
                cols <= 0x0fff_ffff,
                rows * cols * 8 <= usize::MAX,
                rows_reach(search@),
                count == x_mas_before(search@, y * cols + x),
                count <= y * cols + x,
            decreases cols - x,
        {
            proof {
                let n = y * cols + x;
                vstd::arithmetic::div_mod::lemma_fundamental_div_mod_converse(
                    n as int,
                    cols as int,
                    y as int,
                    x as int,
                );
                assert(8 * (y * cols + x) + 8 <= rows * cols * 8) by (nonlinear_arith)
                    requires
                        y < rows,
                        x < cols,
                ;
            }
            if is_x_mas(search, (y, x)) {
                count += 1;
            }
            x += 1;
        }
        proof {
            assert((y + 1) * cols == y * cols + cols) by (nonlinear_arith);
        }
        y += 1;
    }
    count
}

} // verus!
