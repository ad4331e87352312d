//! Hiking trails: from a position of height nought, step by step one
//! higher, up to the peaks of height nine.

use vstd::prelude::*;
use itertools::Itertools;

verus! {

/// The heights of a map as rows of numbers.
pub open spec fn rows_of(map: Seq<Vec<u32>>) -> Seq<Seq<u32>> {
    Seq::new(map.len(), |r: int| map[r]@)
}

/// The height at a position; -1 off the rows and the columns of the first
/// row.
pub open spec fn height(map: Seq<Seq<u32>>, pos: (int, int)) -> int {
    if 0 <= pos.0 < map.len() && 0 <= pos.1 < map[0].len() {
        map[pos.0][pos.1] as int
    } else {
        -1
    }
}

/// The `k`-th neighbour of a position: right, left, down, up.
pub open spec fn beside(pos: (int, int), k: int) -> (int, int) {
    if k == 0 {
        (pos.0, pos.1 + 1)
    } else if k == 1 {
        (pos.0, pos.1 - 1)
    } else if k == 2 {
        (pos.0 + 1, pos.1)
    } else {
        (pos.0 - 1, pos.1)
    }
}

/// The list with every item dropped that stands earlier in it already.
pub open spec fn first_occurrences(s: Seq<(isize, isize)>) -> Seq<(isize, isize)>
    decreases s.len(),
{
    if s.len() == 0 {
        Seq::empty()
    } else {
        let before = first_occurrences(s.drop_last());
        if before.contains(s.last()) {
            before
        } else {
            before.push(s.last())
        }
    }
}

/// The peaks that can be reached from a position, found through the first
/// `k` neighbours, in the order in which they are found, repeats
/// included.
pub open spec fn peaks_through(map: Seq<Seq<u32>>, pos: (int, int), k: int) -> Seq<(isize, isize)>
    decreases 10 - height(map, pos), k,
{
    if k <= 0 || height(map, pos) < 0 || height(map, pos) >= 9 {
        Seq::empty()
    } else {
        let found = peaks_through(map, pos, k - 1);
        if height(map, beside(pos, k - 1)) == height(map, pos) + 1 {
            found + peaks(map, beside(pos, k - 1))
        } else {
            found
        }
    }
}

/// The peaks that can be reached from a position, each once.
pub open spec fn peaks(map: Seq<Seq<u32>>, pos: (int, int)) -> Seq<(isize, isize)>
    decreases 10 - height(map, pos), 5int,
{
    if height(map, pos) < 0 || height(map, pos) > 9 {
        Seq::empty()
    } else if height(map, pos) == 9 {
        seq![(pos.0 as isize, pos.1 as isize)]
    } else {
        first_occurrences(peaks_through(map, pos, 4))
    }
}

/// The number of trails from a position to a peak, through the first `k`
/// neighbours.
pub open spec fn trails_through(map: Seq<Seq<u32>>, pos: (int, int), k: int) -> int
    decreases 10 - height(map, pos), k,
{
    if k <= 0 || height(map, pos) < 0 || height(map, pos) >= 9 {
        0
    } else {
        trails_through(map, pos, k - 1) + if height(map, beside(pos, k - 1)) == height(map, pos) + 1 {
            trails(map, beside(pos, k - 1))
        } else {
            0
        }
    }
}

/// The number of trails from a position to a peak.
pub open spec fn trails(map: Seq<Seq<u32>>, pos: (int, int)) -> int
    decreases 10 - height(map, pos), 5int,
{
    if height(map, pos) < 0 || height(map, pos) > 9 {
        0
    } else if height(map, pos) == 9 {
        1
    } else {
        trails_through(map, pos, 4)
    }
}

/// Four to the power `n`.
pub open spec fn pow4(n: int) -> int
    decreases n,
{
    if n <= 0 {
        1
    } else {
        4 * pow4(n - 1)
    }
}

/// From a position of height `h` there are at most four to the power
/// `9 - h` trails.
pub proof fn lemma_trails_bound(map: Seq<Seq<u32>>, pos: (int, int))
    ensures
        0 <= trails(map, pos) <= pow4(9 - height(map, pos)),
    decreases 10 - height(map, pos), 5int,
{
    let h = height(map, pos);
    lemma_pow4_positive(9 - h);
    if 0 <= h < 9 {
        lemma_trails_through_bound(map, pos, 4);
        assert(pow4(9 - h) == 4 * pow4(8 - h));
    }
}

/// Through `k` neighbours of a position of height `h` there are at most
/// `k` times four to the power `8 - h` trails.
pub proof fn lemma_trails_through_bound(map: Seq<Seq<u32>>, pos: (int, int), k: int)
    requires
        0 <= k <= 4,
        0 <= height(map, pos) < 9,
    ensures
        0 <= trails_through(map, pos, k) <= k * pow4(8 - height(map, pos)),
    decreases 10 - height(map, pos), k,
{
    let h = height(map, pos);
    if k > 0 {
        lemma_trails_through_bound(map, pos, k - 1);
        let next = beside(pos, k - 1);
        if height(map, next) == h + 1 {
            lemma_trails_bound(map, next);
        }
        lemma_pow4_positive(8 - h);
        assert(k * pow4(8 - h) == (k - 1) * pow4(8 - h) + pow4(8 - h)) by (nonlinear_arith);
    }
}

/// A power of four is one at least.
pub proof fn lemma_pow4_positive(n: int)
    ensures
        pow4(n) >= 1,
    decreases n,
{
    if n > 0 {
        lemma_pow4_positive(n - 1);
    }
}

pub struct TopoMap {
    pub map: Vec<Vec<u32>>,
}

/// The list holds the positions of height nought, each once, row by row.
pub open spec fn are_trailheads(map: Seq<Seq<u32>>, heads: Seq<(isize, isize)>) -> bool {
    &&& forall|i: int|
        0 <= i < heads.len() ==> height(map, ((#[trigger] heads[i]).0 as int, heads[i].1 as int)) == 0
    &&& forall|r: int, c: int| #[trigger]
        height(map, (r, c)) == 0 ==> heads.contains((r as isize, c as isize))
    &&& forall|i: int, j: int|
        0 <= i < j < heads.len() ==> (#[trigger] heads[i]).0 < (#[trigger] heads[j]).0 || (heads[i].0
            == heads[j].0 && heads[i].1 < heads[j].1)
}

/// Keeps the first of all equal items, by `Itertools::unique`: the adaptor
/// hands on an item exactly if no equal item came before, and keeps the
/// order of the items it hands on.
#[verifier::external_body]
fn unique(positions: Vec<(isize, isize)>) -> (out: Vec<(isize, isize)>)
    ensures
        out@ == first_occurrences(positions@),
{
    positions.into_iter().unique().collect()
}

impl TopoMap {
    /// There is a row, no row is shorter than the first, and rows and
    /// columns can be counted in `isize`.
    pub open spec fn wf(self) -> bool {
        &&& self.map@.len() > 0
        &&& self.map@.len() < isize::MAX
        &&& self.map@[0]@.len() < isize::MAX
        &&& forall|r: int| 0 <= r < self.map@.len() ==> (#[trigger] self.map@[r])@.len() >= self.map@[0]@.len()
    }

    /// The number of rows, and of columns in the first row.
    pub fn size(&self) -> (size: (usize, usize))
        requires
            self.map@.len() > 0,
        ensures
            size.0 == self.map@.len(),
            size.1 == self.map@[0]@.len(),
    {
        (self.map.len(), self.map[0].len())
    }

    /// Whether the position lies on the map.
    pub fn in_map(&self, pos: (isize, isize)) -> (inside: bool)
        requires
            self.map@.len() > 0,
        ensures
            inside == (height(rows_of(self.map@), (pos.0 as int, pos.1 as int)) >= 0),
    {
        pos.0 >= 0 && pos.1 >= 0 && (pos.0 as usize) < self.map.len() && (pos.1 as usize)
            < self.map[0].len()
    }

    /// The height at the position; nothing off the map.
    pub fn level(&self, pos: (isize, isize)) -> (level: Option<u32>)
        requires
            self.wf(),
        ensures
            match level {
                Some(h) => h == height(rows_of(self.map@), (pos.0 as int, pos.1 as int)),
                None => height(rows_of(self.map@), (pos.0 as int, pos.1 as int)) < 0,
            },
    {
        if self.in_map(pos) {
            assert(self.map@[pos.0 as int]@.len() >= self.map@[0]@.len());
            Some(self.map[pos.0 as usize][pos.1 as usize])
        } else {
            None
        }
    }

    /// The positions of height nought, row by row.
    pub fn trailheads(&self) -> (heads: Vec<(isize, isize)>)
        requires
            self.wf(),
        ensures
            are_trailheads(rows_of(self.map@), heads@),
    {
        let (my, mx) = self.size();
        let ghost rows = rows_of(self.map@);
        let mut heads: Vec<(isize, isize)> = Vec::new();
        let mut y: usize = 0;
        while y < my
            invariant
                y <= my,
                self.wf(),
                my == self.map@.len(),
                mx == self.map@[0]@.len(),
                rows == rows_of(self.map@),
                forall|i: int|
                    0 <= i < heads@.len() ==> height(
                        rows,
                        ((#[trigger] heads@[i]).0 as int, heads@[i].1 as int),
                    ) == 0 && heads@[i].0 < y,
                forall|r: int, c: int|
                    r < y && #[trigger] height(rows, (r, c)) == 0 ==> heads@.contains(
                        (r as isize, c as isize),
                    ),
                forall|i: int, j: int|
                    0 <= i < j < heads@.len() ==> (#[trigger] heads@[i]).0 < (#[trigger] heads@[j]).0 || (
                    heads@[i].0 == heads@[j].0 && heads@[i].1 < heads@[j].1),
            decreases my - y,
        {
            let mut x: usize = 0;
            while x < mx
                invariant
                    y < my,
                    x <= mx,
                    self.wf(),
                    my == self.map@.len(),
                    mx == self.map@[0]@.len(),
                    rows == rows_of(self.map@),
                    forall|i: int|
                        0 <= i < heads@.len() ==> height(
                            rows,
                            ((#[trigger] heads@[i]).0 as int, heads@[i].1 as int),
                        ) == 0 && (heads@[i].0 < y || (heads@[i].0 == y && heads@[i].1 < x)),
                    forall|r: int, c: int|
                        (r < y || (r == y && c < x)) && #[trigger] height(rows, (r, c)) == 0
                            ==> heads@.contains((r as isize, c as isize)),
                    forall|i: int, j: int|
                        0 <= i < j < heads@.len() ==> (#[trigger] heads@[i]).0 < (#[trigger] heads@[j]).0
                            || (heads@[i].0 == heads@[j].0 && heads@[i].1 < heads@[j].1),
                decreases mx - x,
            {
                assert(self.map@[y as int]@.len() >= mx);
                let ghost before = heads@;
                if self.map[y][x] == 0 {
                    heads.push((y as isize, x as isize));
                }
                proof {
                    assert forall|r: int, c: int|
                        (r < y || (r == y && c < x + 1)) && #[trigger] height(rows, (r, c))
                            == 0 implies heads@.contains((r as isize, c as isize)) by {
                        if r == y && c == x {
                            assert(heads@[before.len() as int] == (y as isize, x as isize));
                        } else {
                            let i = choose|i: int|
                                0 <= i < before.len() && before[i] == (r as isize, c as isize);
                            assert(heads@[i] == before[i]);
                        }
                    }
                }
                x += 1;
            }
            y += 1;
        }
        heads
    }
}

/// The position next to `pos` on its `k`-th side.
fn neighbour(pos: (isize, isize), k: usize) -> (next: (isize, isize))
    requires
        -1 <= pos.0 < isize::MAX,
        -1 <= pos.1 < isize::MAX,
        k < 4,
    ensures
        (next.0 as int, next.1 as int) == beside((pos.0 as int, pos.1 as int), k as int),
{
    if k == 0 {
        (pos.0, pos.1 + 1)
    } else if k == 1 {
        (pos.0, pos.1 - 1)
    } else if k == 2 {
        (pos.0 + 1, pos.1)
    } else {
        (pos.0 - 1, pos.1)
    }
}

/// The peaks that can be reached from `pos`, each once.
pub fn solve_part1(topomap: &TopoMap, pos: (isize, isize)) -> (found: Vec<(isize, isize)>)
    requires
        topomap.wf(),
        0 <= height(rows_of(topomap.map@), (pos.0 as int, pos.1 as int)) <= 9,
    ensures
        found@ == peaks(rows_of(topomap.map@), (pos.0 as int, pos.1 as int)),
    decreases 10 - height(rows_of(topomap.map@), (pos.0 as int, pos.1 as int)),
{
    let ghost rows = rows_of(topomap.map@);
    let ghost at = (pos.0 as int, pos.1 as int);
    let level = match topomap.level(pos) {
        Some(level) => level,
        None => 0,
    };
    if level == 9 {
        let mut found: Vec<(isize, isize)> = Vec::new();
        found.push(pos);
        assert(found@ =~= seq![pos]);
        found
    } else {
        let mut all: Vec<(isize, isize)> = Vec::new();
        let mut k: usize = 0;
        while k < 4
            invariant
                k <= 4,
                topomap.wf(),
                rows == rows_of(topomap.map@),
                at == (pos.0 as int, pos.1 as int),
                level == height(rows, at),
                0 <= level < 9,
                all@ == peaks_through(rows, at, k as int),
            decreases 4 - k,
        {
            let next = neighbour(pos, k);
            let there = topomap.level(next);
            let up = match there {
                Some(h) => h == level + 1,
                None => false,
            };
            if up {
                let mut more = solve_part1(topomap, next);
                let ghost before = all@;
                let ghost added = more@;
                all.append(&mut more);
                assert(all@ =~= before + added);
            }
            k += 1;
        }
        unique(all)
    }
}

/// The number of trails from `pos` to a peak.
pub fn solve_part2(topomap: &TopoMap, pos: (isize, isize)) -> (count: usize)
    requires
        topomap.wf(),
        0 <= height(rows_of(topomap.map@), (pos.0 as int, pos.1 as int)) <= 9,
    ensures
        count == trails(rows_of(topomap.map@), (pos.0 as int, pos.1 as int)),
    decreases 10 - height(rows_of(topomap.map@), (pos.0 as int, pos.1 as int)),
{
    let ghost rows = rows_of(topomap.map@);
    let ghost at = (pos.0 as int, pos.1 as int);
    let level = match topomap.level(pos) {
        Some(level) => level,
        None => 0,
    };
    if level == 9 {
        return 1;
    }
    let mut count: usize = 0;
    let mut k: usize = 0;
    proof {
        lemma_pow4_bound(8 - level as int);
    }
    while k < 4
        invariant
            k <= 4,
            topomap.wf(),
            rows == rows_of(topomap.map@),
            at == (pos.0 as int, pos.1 as int),
            level == height(rows, at),
            0 <= level < 9,
            count == trails_through(rows, at, k as int),
            count <= k * pow4(8 - level),
            pow4(8 - level) <= 65536,
        decreases 4 - k,
    {
        let next = neighbour(pos, k);
        let there = topomap.level(next);
        let up = match there {
            Some(h) => h == level + 1,
            None => false,
        };
        proof {
            lemma_trails_through_bound(rows, at, k + 1);
            lemma_trails_through_bound(rows, at, k as int);
            lemma_pow4_positive(8 - level);
            assert((k + 1) * pow4(8 - level) <= 4 * 65536) by (nonlinear_arith)
                requires
                    k < 4,
                    0 <= pow4(8 - level) <= 65536,
            ;
        }
        if up {
            count = count + solve_part2(topomap, next);
        }
        k += 1;
    }
    count
}

/// The sum of the scores of the first `n` trailheads: for each the number
/// of peaks that can be reached from it.
pub open spec fn scores_upto(map: Seq<Seq<u32>>, heads: Seq<(isize, isize)>, n: int) -> int
    decreases n,
{
    if n <= 0 {
        0
    } else {
        scores_upto(map, heads, n - 1) + peaks(map, (heads[n - 1].0 as int, heads[n - 1].1 as int)).len()
    }
}

/// The sum of the ratings of the first `n` trailheads: for each the number
/// of trails from it to a peak.
pub open spec fn ratings_upto(map: Seq<Seq<u32>>, heads: Seq<(isize, isize)>, n: int) -> int
    decreases n,
{
    if n <= 0 {
        0
    } else {
        ratings_upto(map, heads, n - 1) + trails(map, (heads[n - 1].0 as int, heads[n - 1].1 as int))
    }
}

/// The sum of the scores of the trailheads, if it fits.
pub fn part1(topomap: &TopoMap) -> (sum: Option<usize>)
    requires
        topomap.wf(),
    ensures
        exists|heads: Seq<(isize, isize)>| #[trigger]
            are_trailheads(rows_of(topomap.map@), heads) && match sum {
                Some(total) => total == scores_upto(rows_of(topomap.map@), heads, heads.len() as int),
                None => scores_upto(rows_of(topomap.map@), heads, heads.len() as int) > usize::MAX,
            },
{
    let heads = topomap.trailheads();
    let ghost rows = rows_of(topomap.map@);
    let mut sum: usize = 0;
    let mut i: usize = 0;
    assert(are_trailheads(rows, heads@));
    while i < heads.len()
        invariant
            i <= heads@.len(),
            topomap.wf(),
            rows == rows_of(topomap.map@),
            are_trailheads(rows, heads@),
            sum == scores_upto(rows, heads@, i as int),
        decreases heads@.len() - i,
    {
        let found = solve_part1(topomap, heads[i]);
        match sum.checked_add(found.len()) {
            Some(next) => {
                sum = next;
            },
            None => {
                proof {
                    lemma_scores_grow(rows, heads@, i + 1, heads@.len() as int);
                }
                return None;
            },
        }
        i += 1;
    }
    Some(sum)
}

/// The sum of the scores grows with the number of trailheads.
pub proof fn lemma_scores_grow(map: Seq<Seq<u32>>, heads: Seq<(isize, isize)>, m: int, n: int)
    requires
        0 <= m <= n,
    ensures
        0 <= scores_upto(map, heads, m) <= scores_upto(map, heads, n),
    decreases n,
{
    if n > 0 {
        if m < n {
            lemma_scores_grow(map, heads, m, n - 1);
        } else {
            lemma_scores_grow(map, heads, m - 1, n - 1);
        }
    }
}

/// The sum of the ratings grows with the number of trailheads.
pub proof fn lemma_ratings_grow(map: Seq<Seq<u32>>, heads: Seq<(isize, isize)>, m: int, n: int)
    requires
        0 <= m <= n,
    ensures
        0 <= ratings_upto(map, heads, m) <= ratings_upto(map, heads, n),
    decreases n,
{
    if n > 0 {
        lemma_trails_bound(map, (heads[n - 1].0 as int, heads[n - 1].1 as int));
        if m < n {
            lemma_ratings_grow(map, heads, m, n - 1);
        } else {
            lemma_ratings_grow(map, heads, m - 1, n - 1);
        }
    }
}

/// The sum of the ratings of the trailheads, if it fits.
pub fn part2(topomap: &TopoMap) -> (sum: Option<usize>)
    requires
        topomap.wf(),
    ensures
        exists|heads: Seq<(isize, isize)>| #[trigger]
            are_trailheads(rows_of(topomap.map@), heads) && match sum {
                Some(total) => total == ratings_upto(rows_of(topomap.map@), heads, heads.len() as int),
                None => ratings_upto(rows_of(topomap.map@), heads, heads.len() as int) > usize::MAX,
            },
{
    let heads = topomap.trailheads();
    let ghost rows = rows_of(topomap.map@);
    let mut sum: usize = 0;
    let mut i: usize = 0;
    assert(are_trailheads(rows, heads@));
    while i < heads.len()
        invariant
            i <= heads@.len(),
            topomap.wf(),
            rows == rows_of(topomap.map@),
            are_trailheads(rows, heads@),
            sum == ratings_upto(rows, heads@, i as int),
        decreases heads@.len() - i,
    {
        let found = solve_part2(topomap, heads[i]);
        match sum.checked_add(found) {
            Some(next) => {
                sum = next;
            },
            None => {
                proof {
                    lemma_ratings_grow(rows, heads@, i + 1, heads@.len() as int);
                }
                return None;
            },
        }
        i += 1;
    }
    Some(sum)
}

/// Four to the power eight, at most, is 65536 at most.
pub proof fn lemma_pow4_bound(n: int)
    requires
        n <= 8,
    ensures
        pow4(n) <= 65536,
    decreases n,
{
    reveal_with_fuel(pow4, 10);
    if n > 0 {
        lemma_pow4_bound(n - 1);
    }
}

} // verus!
