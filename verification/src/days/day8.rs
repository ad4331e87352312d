//! Antennas: two antennas of one frequency make antinodes on the line
//! through them, at the distance between them from either, or all along.

use vstd::prelude::*;
use crate::days::day16::flags::cleared;
use crate::slots::{lemma_slot, slot, slot_of};

verus! {

/// The position lies on a map of the size.
pub open spec fn on_map(mapsize: (usize, usize), pos: (int, int)) -> bool {
    0 <= pos.0 < mapsize.0 && 0 <= pos.1 < mapsize.1
}

/// Whether the position lies on a map of the size.
pub fn in_map(mapsize: (usize, usize), pos: (isize, isize)) -> (inside: bool)
    ensures
        inside == on_map(mapsize, (pos.0 as int, pos.1 as int)),
{
    pos.0 >= 0 && pos.1 >= 0 && (pos.0 as usize) < mapsize.0 && (pos.1 as usize) < mapsize.1
}

/// An antenna: its frequency and its position.
#[derive(Clone, Copy, Debug, PartialEq, Eq)]
pub struct Antenna {
    pub frequency: char,
    pub row: usize,
    pub col: usize,
}

/// The `i`-th point of the ray that begins at `from` and runs away from
/// `other`, a step as long as the two are apart.
pub open spec fn ray_point(from: Antenna, other: Antenna, i: int) -> (int, int) {
    (from.row + i * (from.row - other.row), from.col + i * (from.col - other.col))
}

/// The step is one that counts: the first alone, or any from nought on.
pub open spec fn counts(part1: bool, i: int) -> bool {
    if part1 {
        i == 1
    } else {
        i >= 0
    }
}

/// The antennas number `a` and `b` are two of one frequency.
pub open spec fn paired(antennas: Seq<Antenna>, a: int, b: int) -> bool {
    &&& 0 <= a < antennas.len()
    &&& 0 <= b < antennas.len()
    &&& a != b
    &&& antennas[a].frequency == antennas[b].frequency
}

/// The position is the `i`-th point of the ray from antenna `a` away from
/// antenna `b`, and the step counts.
pub open spec fn hit_by(antennas: Seq<Antenna>, part1: bool, q: (int, int), a: int, b: int, i: int) -> bool {
    paired(antennas, a, b) && counts(part1, i) && ray_point(antennas[a], antennas[b], i) == q
}

/// The position on the map is an antinode of some two antennas of one
/// frequency.
pub open spec fn is_antinode(
    antennas: Seq<Antenna>,
    mapsize: (usize, usize),
    part1: bool,
    q: (int, int),
) -> bool {
    on_map(mapsize, q) && exists|a: int, b: int, i: int| #[trigger] hit_by(antennas, part1, q, a, b, i)
}

/// Every antenna stands on the map, and no two at one position.
pub open spec fn placed(antennas: Seq<Antenna>, mapsize: (usize, usize)) -> bool {
    &&& forall|a: int|
        0 <= a < antennas.len() ==> (#[trigger] antennas[a]).row < mapsize.0 && antennas[a].col
            < mapsize.1
    &&& forall|a: int, b: int|
        0 <= a < b < antennas.len() ==> (#[trigger] antennas[a]).row != (#[trigger] antennas[b]).row
            || antennas[a].col != antennas[b].col
}

/// The pair (`a`, `b`) comes before the pair (`c`, `d`).
pub open spec fn pair_before(a: int, b: int, c: int, d: int) -> bool {
    a < c || (a == c && b < d)
}

/// What the marks hold when the pairs before (`c`, `d`) are dealt with:
/// every mark is an antinode, and every antinode of a pair before is
/// marked.
pub open spec fn marked_upto(
    antennas: Seq<Antenna>,
    mapsize: (usize, usize),
    part1: bool,
    marks: Seq<bool>,
    c: int,
    d: int,
) -> bool {
    &&& marks.len() == mapsize.0 * mapsize.1
    &&& forall|r: int, k: int|
        0 <= r < mapsize.0 && 0 <= k < mapsize.1 && #[trigger] marks[slot(mapsize.1 as int, 1, r, k, 0)]
            ==> is_antinode(antennas, mapsize, part1, (r, k))
    &&& forall|a: int, b: int, i: int|
        pair_before(a, b, c, d) && #[trigger] hit_by(
            antennas,
            part1,
            ray_point(antennas[a], antennas[b], i),
            a,
            b,
            i,
        ) && on_map(mapsize, ray_point(antennas[a], antennas[b], i)) ==> marks[slot(
            mapsize.1 as int,
            1,
            ray_point(antennas[a], antennas[b], i).0,
            ray_point(antennas[a], antennas[b], i).1,
            0,
        )]
}

/// Once a ray has left the map it does not come back.
pub proof fn lemma_ray_leaves(from: Antenna, other: Antenna, mapsize: (usize, usize), i: int, j: int)
    requires
        on_map(mapsize, ray_point(from, other, 0)),
        0 <= i <= j,
        !on_map(mapsize, ray_point(from, other, i)),
    ensures
        !on_map(mapsize, ray_point(from, other, j)),
{
    let dy = from.row - other.row;
    let dx = from.col - other.col;
    assert(0 * dy == 0 && 0 * dx == 0);
    let p = ray_point(from, other, i);
    if p.0 < 0 {
        assert(j * dy <= i * dy) by (nonlinear_arith)
            requires
                i * dy < 0,
                0 <= i <= j,
        ;
    } else if p.0 >= mapsize.0 {
        assert(j * dy >= i * dy) by (nonlinear_arith)
            requires
                i * dy > 0,
                0 <= i <= j,
        ;
    } else if p.1 < 0 {
        assert(j * dx <= i * dx) by (nonlinear_arith)
            requires
                i * dx < 0,
                0 <= i <= j,
        ;
    } else {
        assert(j * dx >= i * dx) by (nonlinear_arith)
            requires
                i * dx > 0,
                0 <= i <= j,
        ;
    }
}

/// Marks the antinodes of the ray from antenna `a` away from antenna `b`.
fn mark_ray(
    antennas: &Vec<Antenna>,
    mapsize: (usize, usize),
    part1: bool,
    marks: &mut Vec<bool>,
    a: usize,
    b: usize,
)
    requires
        placed(antennas@, mapsize),
        paired(antennas@, a as int, b as int),
        mapsize.0 * mapsize.1 * 1 <= usize::MAX,
        mapsize.0 <= isize::MAX / 2,
        mapsize.1 <= isize::MAX / 2,
        marked_upto(antennas@, mapsize, part1, old(marks)@, a as int, b as int),
    ensures
        marked_upto(antennas@, mapsize, part1, final(marks)@, a as int, b + 1),
{
    let from = antennas[a];
    let other = antennas[b];
    let dy: isize = from.row as isize - other.row as isize;
    let dx: isize = from.col as isize - other.col as isize;
    let ghost before = marks@;
    let ghost ants = antennas@;
    assert(dy != 0 || dx != 0) by {
        if a < b {
            assert(ants[a as int].row != ants[b as int].row || ants[a as int].col != ants[b as int].col);
        } else {
            assert(ants[b as int].row != ants[a as int].row || ants[b as int].col != ants[a as int].col);
        }
    }
    let first: isize = if part1 {
        1
    } else {
        0
    };
    let ghost mut i: int = first as int;
    let mut y: isize = from.row as isize + first * dy;
    let mut x: isize = from.col as isize + first * dx;
    proof {
        assert(first * dy == if part1 {
            dy as int
        } else {
            0
        }) by (nonlinear_arith)
            requires
                first == if part1 {
                    1int
                } else {
                    0int
                },
        ;
        assert(first * dx == if part1 {
            dx as int
        } else {
            0
        }) by (nonlinear_arith)
            requires
                first == if part1 {
                    1int
                } else {
                    0int
                },
        ;
    }
    loop
        invariant_except_break
            first <= i,
            !part1 || i == 1,
        invariant
            from == ants[a as int],
            other == ants[b as int],
            ants == antennas@,
            paired(ants, a as int, b as int),
            placed(ants, mapsize),
            dy == from.row - other.row,
            dx == from.col - other.col,
            dy != 0 || dx != 0,
            first == if part1 {
                1int
            } else {
                0int
            },
            mapsize.0 * mapsize.1 * 1 <= usize::MAX,
            mapsize.0 <= isize::MAX / 2,
            mapsize.1 <= isize::MAX / 2,
            (y as int, x as int) == ray_point(from, other, i),
            -(mapsize.0 as int) <= y <= 2 * mapsize.0,
            -(mapsize.1 as int) <= x <= 2 * mapsize.1,
            marks@.len() == mapsize.0 * mapsize.1,
            forall|r: int, k: int|
                0 <= r < mapsize.0 && 0 <= k < mapsize.1 && #[trigger] marks@[slot(
                    mapsize.1 as int,
                    1,
                    r,
                    k,
                    0,
                )] ==> is_antinode(ants, mapsize, part1, (r, k)),
            forall|r: int, k: int|
                0 <= r < mapsize.0 && 0 <= k < mapsize.1 && before[slot(mapsize.1 as int, 1, r, k, 0)]
                    ==> #[trigger] marks@[slot(mapsize.1 as int, 1, r, k, 0)],
            forall|j: int|
                first <= j < i && on_map(mapsize, #[trigger] ray_point(from, other, j)) ==> marks@[slot(
                    mapsize.1 as int,
                    1,
                    ray_point(from, other, j).0,
                    ray_point(from, other, j).1,
                    0,
                )],
        ensures
            marks@.len() == mapsize.0 * mapsize.1,
            forall|r: int, k: int|
                0 <= r < mapsize.0 && 0 <= k < mapsize.1 && #[trigger] marks@[slot(
                    mapsize.1 as int,
                    1,
                    r,
                    k,
                    0,
                )] ==> is_antinode(ants, mapsize, part1, (r, k)),
            forall|r: int, k: int|
                0 <= r < mapsize.0 && 0 <= k < mapsize.1 && before[slot(mapsize.1 as int, 1, r, k, 0)]
                    ==> #[trigger] marks@[slot(mapsize.1 as int, 1, r, k, 0)],
            forall|j: int|
                #[trigger] counts(part1, j) && on_map(mapsize, ray_point(from, other, j)) ==> marks@[slot(
                    mapsize.1 as int,
                    1,
                    ray_point(from, other, j).0,
                    ray_point(from, other, j).1,
                    0,
                )],
        decreases
                if dy > 0 {
                    2 * mapsize.0 - y
                } else if dy < 0 {
                    y + mapsize.0
                } else if dx > 0 {
                    2 * mapsize.1 - x
                } else {
                    x + mapsize.1
                },
    {
        if !in_map(mapsize, (y, x)) {
            proof {
                assert forall|j: int| #[trigger]
                    counts(part1, j) && on_map(mapsize, ray_point(from, other, j)) implies marks@[slot(
                    mapsize.1 as int,
                    1,
                    ray_point(from, other, j).0,
                    ray_point(from, other, j).1,
                    0,
                )] by {
                    if j >= i {
                        assert(0 * (from.row - other.row) == 0 && 0 * (from.col - other.col) == 0);
                        lemma_ray_leaves(from, other, mapsize, i, j);
                    }
                }
            }
            break;
        }
        let at = slot_of(mapsize.0, mapsize.1, 1, y as usize, x as usize, 0);
        let ghost old_marks = marks@;
        marks[at] = true;
        proof {
            assert(hit_by(ants, part1, (y as int, x as int), a as int, b as int, i));
            assert(is_antinode(ants, mapsize, part1, (y as int, x as int)));
            assert forall|r: int, k: int|
                0 <= r < mapsize.0 && 0 <= k < mapsize.1 && #[trigger] marks@[slot(
                    mapsize.1 as int,
                    1,
                    r,
                    k,
                    0,
                )] implies is_antinode(ants, mapsize, part1, (r, k)) by {
                lemma_slot(mapsize.0 as int, mapsize.1 as int, 1, r, k, 0);
                lemma_slot(mapsize.0 as int, mapsize.1 as int, 1, y as int, x as int, 0);
                if slot(mapsize.1 as int, 1, r, k, 0) != at {
                    assert(old_marks[slot(mapsize.1 as int, 1, r, k, 0)]);
                }
            }
            assert forall|j: int|
                first <= j < i + 1 && on_map(mapsize, #[trigger] ray_point(from, other, j)) implies marks@[slot(
                mapsize.1 as int,
                1,
                ray_point(from, other, j).0,
                ray_point(from, other, j).1,
                0,
            )] by {
                let p = ray_point(from, other, j);
                lemma_slot(mapsize.0 as int, mapsize.1 as int, 1, p.0, p.1, 0);
                if j < i {
                    assert(old_marks[slot(mapsize.1 as int, 1, p.0, p.1, 0)]);
                }
            }
            assert forall|r: int, k: int|
                0 <= r < mapsize.0 && 0 <= k < mapsize.1 && before[slot(mapsize.1 as int, 1, r, k, 0)] implies #[trigger] marks@[slot(
                mapsize.1 as int,
                1,
                r,
                k,
                0,
            )] by {
                lemma_slot(mapsize.0 as int, mapsize.1 as int, 1, r, k, 0);
                assert(old_marks[slot(mapsize.1 as int, 1, r, k, 0)]);
            }
            assert((i + 1) * dy == i * dy + dy && (i + 1) * dx == i * dx + dx) by (nonlinear_arith);
        }
        if part1 {
            proof {
                assert forall|j: int| #[trigger]
                    counts(part1, j) && on_map(mapsize, ray_point(from, other, j)) implies marks@[slot(
                    mapsize.1 as int,
                    1,
                    ray_point(from, other, j).0,
                    ray_point(from, other, j).1,
                    0,
                )] by {
                    assert(j == i);
                }
            }
            break;
        }
        proof {
            i = i + 1;
        }
        y += dy;
        x += dx;
    }
    proof {
        assert forall|a2: int, b2: int, j: int|
            pair_before(a2, b2, a as int, b + 1) && #[trigger] hit_by(
                ants,
                part1,
                ray_point(ants[a2], ants[b2], j),
                a2,
                b2,
                j,
            ) && on_map(mapsize, ray_point(ants[a2], ants[b2], j)) implies marks@[slot(
            mapsize.1 as int,
            1,
            ray_point(ants[a2], ants[b2], j).0,
            ray_point(ants[a2], ants[b2], j).1,
            0,
        )] by {
            let p = ray_point(ants[a2], ants[b2], j);
            if a2 == a && b2 == b {
                assert(counts(part1, j));
            } else {
                assert(pair_before(a2, b2, a as int, b as int));
                assert(before[slot(mapsize.1 as int, 1, p.0, p.1, 0)]);
            }
        }
    }
}

/// How many of the first `n` marks are set.
pub open spec fn set_upto(marks: Seq<bool>, n: int) -> int
    decreases n,
{
    if n <= 0 {
        0
    } else {
        set_upto(marks, n - 1) + if marks[n - 1] {
            1int
        } else {
            0int
        }
    }
}

/// How many of the first `n` cells of the map, row by row, are antinodes.
pub open spec fn antinodes_upto(
    antennas: Seq<Antenna>,
    mapsize: (usize, usize),
    part1: bool,
    n: int,
) -> int
    decreases n,
{
    if n <= 0 || mapsize.1 == 0 {
        0
    } else {
        antinodes_upto(antennas, mapsize, part1, n - 1) + if is_antinode(
            antennas,
            mapsize,
            part1,
            ((n - 1) / (mapsize.1 as int), (n - 1) % (mapsize.1 as int)),
        ) {
            1int
        } else {
            0int
        }
    }
}

/// The number of cells of the map that are antinodes.
pub fn solve(antennas: &Vec<Antenna>, mapsize: (usize, usize), part1: bool) -> (count: usize)
    requires
        placed(antennas@, mapsize),
        mapsize.0 * mapsize.1 <= usize::MAX,
        mapsize.0 <= isize::MAX / 2,
        mapsize.1 <= isize::MAX / 2,
    ensures
        count == antinodes_upto(antennas@, mapsize, part1, mapsize.0 * mapsize.1),
{
    let ghost ants = antennas@;
    proof {
        assert(mapsize.0 * mapsize.1 >= 0) by (nonlinear_arith)
            requires
                mapsize.0 >= 0,
                mapsize.1 >= 0,
        ;
    }
    let cells = mapsize.0 * mapsize.1;
    let mut marks = cleared(cells);
    let n = antennas.len();
    let mut a: usize = 0;
    proof {
        assert forall|r: int, k: int|
            0 <= r < mapsize.0 && 0 <= k < mapsize.1 && #[trigger] marks@[slot(
                mapsize.1 as int,
                1,
                r,
                k,
                0,
            )] implies is_antinode(ants, mapsize, part1, (r, k)) by {
            lemma_slot(mapsize.0 as int, mapsize.1 as int, 1, r, k, 0);
        }
    }
    while a < n
        invariant
            a <= n,
            n == antennas@.len(),
            ants == antennas@,
            placed(ants, mapsize),
            cells == mapsize.0 * mapsize.1,
            mapsize.0 <= isize::MAX / 2,
            mapsize.1 <= isize::MAX / 2,
            marked_upto(ants, mapsize, part1, marks@, a as int, 0),
        decreases n - a,
    {
        let mut b: usize = 0;
        while b < n
            invariant
                a < n,
                b <= n,
                n == antennas@.len(),
                ants == antennas@,
                placed(ants, mapsize),
                cells == mapsize.0 * mapsize.1,
                mapsize.0 <= isize::MAX / 2,
                mapsize.1 <= isize::MAX / 2,
                marked_upto(ants, mapsize, part1, marks@, a as int, b as int),
            decreases n - b,
        {
            if a != b && same_frequency(antennas[a].frequency, antennas[b].frequency) {
                mark_ray(antennas, mapsize, part1, &mut marks, a, b);
            } else {
                proof {
                    assert forall|a2: int, b2: int, j: int|
                        pair_before(a2, b2, a as int, b + 1) && #[trigger] hit_by(
                            ants,
                            part1,
                            ray_point(ants[a2], ants[b2], j),
                            a2,
                            b2,
                            j,
                        ) && on_map(mapsize, ray_point(ants[a2], ants[b2], j)) implies marks@[slot(
                        mapsize.1 as int,
                        1,
                        ray_point(ants[a2], ants[b2], j).0,
                        ray_point(ants[a2], ants[b2], j).1,
                        0,
                    )] by {
                        assert(pair_before(a2, b2, a as int, b as int));
                    }
                }
            }
            b += 1;
        }
        proof {
            assert forall|a2: int, b2: int, j: int|
                pair_before(a2, b2, a + 1, 0) && #[trigger] hit_by(
                    ants,
                    part1,
                    ray_point(ants[a2], ants[b2], j),
                    a2,
                    b2,
                    j,
                ) && on_map(mapsize, ray_point(ants[a2], ants[b2], j)) implies marks@[slot(
                mapsize.1 as int,
                1,
                ray_point(ants[a2], ants[b2], j).0,
                ray_point(ants[a2], ants[b2], j).1,
                0,
            )] by {
                assert(pair_before(a2, b2, a as int, n as int));
            }
        }
        a += 1;
    }
    let mut count: usize = 0;
    let mut i: usize = 0;
    while i < cells
        invariant
            i <= cells,
            cells == mapsize.0 * mapsize.1,
            ants == antennas@,
            n == ants.len(),
            marked_upto(ants, mapsize, part1, marks@, n as int, 0),
            count <= i,
            count == antinodes_upto(ants, mapsize, part1, i as int),
        decreases cells - i,
    {
        proof {
            let cols = mapsize.1 as int;
            assert(cols > 0) by (nonlinear_arith)
                requires
                    i < mapsize.0 * cols,
                    cols >= 0,
                    i >= 0,
            ;
            let r = i as int / cols;
            let k = i as int % cols;
            vstd::arithmetic::div_mod::lemma_fundamental_div_mod(i as int, cols);
            vstd::arithmetic::div_mod::lemma_mod_bound(i as int, cols);
            assert(0 <= r < mapsize.0) by (nonlinear_arith)
                requires
                    i == cols * r + k,
                    0 <= k < cols,
                    0 <= i < mapsize.0 * cols,
            ;
            assert(slot(cols, 1, r, k, 0) == i) by (nonlinear_arith)
                requires
                    i == cols * r + k,
                    slot(cols, 1, r, k, 0) == (r * cols + k) * 1 + 0,
            ;
            if is_antinode(ants, mapsize, part1, (r, k)) {
                let (a2, b2, j) = choose|a2: int, b2: int, j: int| #[trigger]
                    hit_by(ants, part1, (r, k), a2, b2, j);
                assert(pair_before(a2, b2, n as int, 0));
                assert(hit_by(ants, part1, ray_point(ants[a2], ants[b2], j), a2, b2, j));
            }
        }
        if marks[i] {
            count += 1;
        }
        i += 1;
    }
    count
}

fn same_frequency(a: char, b: char) -> (same: bool)
    ensures
        same == (a == b),
{
    a == b
}

/// An antenna of the list stands at (`r`, `c`).
#[verifier::opaque]
pub open spec fn listed(antennas: Seq<Antenna>, r: int, c: int) -> bool {
    exists|a: int| 0 <= a < antennas.len() && (#[trigger] antennas[a]).row == r && antennas[a].col == c
}

/// The antennas stand each on a cell that holds its frequency and no dot,
/// and are listed row by row.
pub open spec fn read_off(antennas: Seq<Antenna>, map: Seq<Vec<char>>) -> bool {
    &&& forall|a: int|
        0 <= a < antennas.len() ==> (#[trigger] antennas[a]).row < map.len() && antennas[a].col
            < map[0]@.len() && antennas[a].frequency == map[antennas[a].row as int]@[antennas[a].col as int]
            && antennas[a].frequency != '.'
    &&& forall|a: int, b: int|
        0 <= a < b < antennas.len() ==> (#[trigger] antennas[a]).row < (#[trigger] antennas[b]).row || (
        antennas[a].row == antennas[b].row && antennas[a].col < antennas[b].col)
}

/// Every cell before (`y`, `x`), row by row, that holds no dot has its
/// antenna in the list.
pub open spec fn all_listed(antennas: Seq<Antenna>, map: Seq<Vec<char>>, y: int, x: int) -> bool {
    forall|r: int, c: int|
        0 <= r <= y && 0 <= c < map[0]@.len() && (r == y ==> c < x) && r < map.len() && map[r]@[c] != '.'
            ==> #[trigger] listed(antennas, r, c)
}

/// What is listed stays listed when an antenna is added.
pub proof fn lemma_listed_after_push(antennas: Seq<Antenna>, more: Antenna, r: int, c: int)
    requires
        listed(antennas, r, c) || (more.row == r && more.col == c),
    ensures
        listed(antennas.push(more), r, c),
{
    reveal(listed);
    let after = antennas.push(more);
    if listed(antennas, r, c) {
        let a = choose|a: int|
            0 <= a < antennas.len() && (#[trigger] antennas[a]).row == r && antennas[a].col == c;
        assert(after[a] == antennas[a]);
    } else {
        assert(after[antennas.len() as int] == more);
    }
}

/// The character at (`row`, `col`) of the map.
fn cell(map: &Vec<Vec<char>>, row: usize, col: usize) -> (c: char)
    requires
        row < map@.len(),
        col < map@[row as int]@.len(),
    ensures
        c == map@[row as int]@[col as int],
{
    map[row][col]
}

/// The antennas of a map, row by row: every cell that holds something other
/// than a dot.
pub fn antennas_of(map: &Vec<Vec<char>>) -> (antennas: Vec<Antenna>)
    requires
        map@.len() > 0,
        forall|r: int| 0 <= r < map@.len() ==> (#[trigger] map@[r])@.len() >= map@[0]@.len(),
    ensures
        placed(antennas@, (map@.len() as usize, map@[0]@.len() as usize)),
        read_off(antennas@, map@),
        all_listed(antennas@, map@, map@.len() as int, 0),
{
    let rows = map.len();
    let cols = map[0].len();
    let mut antennas: Vec<Antenna> = Vec::new();
    let mut y: usize = 0;
    while y < rows
        invariant
            y <= rows,
            rows == map@.len(),
            cols == map@[0]@.len(),
            forall|r: int| 0 <= r < map@.len() ==> (#[trigger] map@[r])@.len() >= map@[0]@.len(),
            read_off(antennas@, map@),
            forall|a: int| 0 <= a < antennas@.len() ==> (#[trigger] antennas@[a]).row < y,
            all_listed(antennas@, map@, y as int, 0),
        decreases rows - y,
    {
        let mut x: usize = 0;
        while x < cols
            invariant
                y < rows,
                x <= cols,
                rows == map@.len(),
                cols == map@[0]@.len(),
                forall|r: int| 0 <= r < map@.len() ==> (#[trigger] map@[r])@.len() >= map@[0]@.len(),
                read_off(antennas@, map@),
                forall|a: int|
                    0 <= a < antennas@.len() ==> (#[trigger] antennas@[a]).row < y || (antennas@[a].row
                        == y && antennas@[a].col < x),
                all_listed(antennas@, map@, y as int, x as int),
            decreases cols - x,
        {
            assert(map@[y as int]@.len() >= cols);
            let ghost before = antennas@;
            let c = cell(map, y, x);
            if c != '.' {
                let found = Antenna { frequency: c, row: y, col: x };
                antennas.push(found);
                proof {
                    assert forall|r: int, k: int|
                        0 <= r <= y && 0 <= k < cols && (r == y ==> k < x + 1) && r < rows && map@[r]@[k]
                            != '.' implies #[trigger] listed(antennas@, r, k) by {
                        if !(r == y && k == x) {
                            assert(listed(before, r, k));
                        }
                        lemma_listed_after_push(before, found, r, k);
                    }
                }
            }
            x += 1;
        }
        y += 1;
    }
    proof {
        assert forall|a: int, b: int| 0 <= a < b < antennas@.len() implies (#[trigger] antennas@[a]).row
            != (#[trigger] antennas@[b]).row || antennas@[a].col != antennas@[b].col by {}
    }
    antennas
}

} // verus!
