//! Robots in a bathroom: each moves by its velocity every second and comes
//! back in on the other side when it leaves the room.

use vstd::prelude::*;
use crate::text::{chars_of, group_i32, group_text, groups, i32_of, list_model, regex_groups};

verus! {

#[derive(Clone, Copy, Eq, PartialEq, Debug)]
pub struct Robot {
    pub position: (i32, i32),
    pub velocity: (i32, i32),
}

/// How a robot is written.
pub open spec fn robot_pattern() -> Seq<char> {
    "p=(\\d+),(\\d+)\\sv=(\\-?\\d+),(\\-?\\d+)"@
}

impl Robot {
    /// The robot that the groups of a match of the robot pattern give.
    pub open spec fn of_groups(groups: Seq<Option<Seq<char>>>) -> Option<Robot> {
        match (
            i32_of(group_text(groups, 1)),
            i32_of(group_text(groups, 2)),
            i32_of(group_text(groups, 3)),
            i32_of(group_text(groups, 4)),
        ) {
            (Some(x), Some(y), Some(vx), Some(vy)) => Some(Robot { position: (x, y), velocity: (vx, vy) }),
            _ => None,
        }
    }

    /// The robot that a line of text describes.
    pub open spec fn of_text(line: Seq<char>) -> Option<Robot> {
        match regex_groups(robot_pattern(), line) {
            Some(groups) => Self::of_groups(groups),
            None => None,
        }
    }

    /// The robot that the groups of a match of the robot pattern give.
    pub fn from_groups(groups: &Vec<Option<Vec<char>>>) -> (out: Option<Robot>)
        ensures
            out == Self::of_groups(list_model(groups@)),
    {
        let x = match group_i32(groups, 1) {
            Some(v) => v,
            None => {
                return None;
            },
        };
        let y = match group_i32(groups, 2) {
            Some(v) => v,
            None => {
                return None;
            },
        };
        let vx = match group_i32(groups, 3) {
            Some(v) => v,
            None => {
                return None;
            },
        };
        let vy = match group_i32(groups, 4) {
            Some(v) => v,
            None => {
                return None;
            },
        };
        Some(Robot { position: (x, y), velocity: (vx, vy) })
    }

    /// The robot that a line of text describes, if it describes one.
    pub fn from_text(line: &Vec<char>) -> (out: Option<Robot>)
        ensures
            out == Self::of_text(line@),
    {
        let pattern = chars_of("p=(\\d+),(\\d+)\\sv=(\\-?\\d+),(\\-?\\d+)");
        match groups(&pattern, line) {
            None => None,
            Some(found) => Self::from_groups(&found),
        }
    }
}

/// The remainder of `a` by `m` that has the sign of `a`.
pub open spec fn rem(a: int, m: int) -> int {
    if a >= 0 {
        a % m
    } else {
        -((-a) % m)
    }
}

/// Where a coordinate stands after one second.
pub open spec fn moved(position: int, velocity: int, size: int) -> int {
    rem(position + velocity + size, size)
}

/// The robot can step in a room of the size without leaving `i32`.
pub open spec fn can_step(robot: Robot, size: (i32, i32)) -> bool {
    &&& size.0 > 0
    &&& size.1 > 0
    &&& i32::MIN <= robot.position.0 + robot.velocity.0 + size.0 <= i32::MAX
    &&& i32::MIN <= robot.position.0 + robot.velocity.0 <= i32::MAX
    &&& i32::MIN <= robot.position.1 + robot.velocity.1 + size.1 <= i32::MAX
    &&& i32::MIN <= robot.position.1 + robot.velocity.1 <= i32::MAX
}

/// The robot after one second.
pub open spec fn stepped(robot: Robot, size: (i32, i32)) -> Robot {
    Robot {
        position: (
            moved(robot.position.0 as int, robot.velocity.0 as int, size.0 as int) as i32,
            moved(robot.position.1 as int, robot.velocity.1 as int, size.1 as int) as i32,
        ),
        velocity: robot.velocity,
    }
}

/// The remainder of `a` by `m` that has the sign of `a`.
fn remainder(a: i32, m: i32) -> (r: i32)
    requires
        m > 0,
    ensures
        r == rem(a as int, m as int),
        -m < r < m,
        a >= 0 ==> r >= 0,
{
    if a >= 0 {
        ((a as u32) % (m as u32)) as i32
    } else {
        let back: u32 = (0 - (a as i64)) as u32;
        let r = back % (m as u32);
        0 - (r as i32)
    }
}

impl Robot {
    /// Moves the robot by its velocity, for one second.
    pub fn step(&mut self, size: (i32, i32))
        requires
            can_step(*old(self), size),
        ensures
            *final(self) == stepped(*old(self), size),
    {
        self.position.0 = remainder(self.position.0 + self.velocity.0 + size.0, size.0);
        self.position.1 = remainder(self.position.1 + self.velocity.1 + size.1, size.1);
    }
}

/// Every robot stands in the room and is no faster than the room is wide
/// and high, so that it stays in the room for ever.
pub open spec fn at_home(robots: Seq<Robot>, size: (i32, i32)) -> bool {
    &&& 0 < size.0 <= 0x2000_0000
    &&& 0 < size.1 <= 0x2000_0000
    &&& forall|i: int|
        0 <= i < robots.len() ==> {
            let r = #[trigger] robots[i];
            &&& 0 <= r.position.0 < size.0
            &&& 0 <= r.position.1 < size.1
            &&& -size.0 <= r.velocity.0 <= size.0
            &&& -size.1 <= r.velocity.1 <= size.1
        }
}

/// The robots after one second.
pub open spec fn all_stepped(robots: Seq<Robot>, size: (i32, i32)) -> Seq<Robot> {
    Seq::new(robots.len(), |i: int| stepped(robots[i], size))
}

/// The robots after `n` seconds.
pub open spec fn after(robots: Seq<Robot>, size: (i32, i32), n: nat) -> Seq<Robot>
    decreases n,
{
    if n == 0 {
        robots
    } else {
        all_stepped(after(robots, size, (n - 1) as nat), size)
    }
}

/// Robots that are at home stay at home.
pub proof fn lemma_stays_home(robots: Seq<Robot>, size: (i32, i32))
    requires
        at_home(robots, size),
    ensures
        at_home(all_stepped(robots, size), size),
        forall|i: int| 0 <= i < robots.len() ==> can_step(#[trigger] robots[i], size),
{
    let next = all_stepped(robots, size);
    assert forall|i: int| 0 <= i < robots.len() implies can_step(#[trigger] robots[i], size) by {
        let r = robots[i];
        assert(0 <= r.position.0 < size.0);
    }
    assert forall|i: int| 0 <= i < next.len() implies {
        let r = #[trigger] next[i];
        &&& 0 <= r.position.0 < size.0
        &&& 0 <= r.position.1 < size.1
        &&& -size.0 <= r.velocity.0 <= size.0
        &&& -size.1 <= r.velocity.1 <= size.1
    } by {
        let r = robots[i];
        assert(0 <= r.position.0 < size.0);
    }
}

/// Moves every robot for one second.
pub fn step_all(robots: &mut Vec<Robot>, size: (i32, i32))
    requires
        at_home(old(robots)@, size),
    ensures
        final(robots)@ == all_stepped(old(robots)@, size),
        at_home(final(robots)@, size),
{
    let ghost before = robots@;
    proof {
        lemma_stays_home(before, size);
    }
    let mut i: usize = 0;
    while i < robots.len()
        invariant
            i <= robots@.len(),
            robots@.len() == before.len(),
            at_home(before, size),
            forall|j: int| 0 <= j < before.len() ==> can_step(#[trigger] before[j], size),
            forall|j: int| 0 <= j < i ==> #[trigger] robots@[j] == stepped(before[j], size),
            forall|j: int| i <= j < robots@.len() ==> #[trigger] robots@[j] == before[j],
        decreases robots@.len() - i,
    {
        let mut r = robots[i];
        assert(can_step(before[i as int], size));
        r.step(size);
        robots[i] = r;
        i += 1;
    }
    assert(robots@ =~= all_stepped(before, size));
}

/// The quarter of the room in which a position lies: 0 to 3, or nothing on
/// the middle lines.
pub open spec fn quarter(position: (i32, i32), size: (i32, i32)) -> Option<int> {
    let mx = size.0 / 2;
    let my = size.1 / 2;
    if position.0 == mx || position.1 == my {
        None
    } else {
        Some(
            (if position.0 < mx {
                0int
            } else {
                2int
            }) + (if position.1 < my {
                0int
            } else {
                1int
            }),
        )
    }
}

/// How many of the first `n` robots stand in quarter `q`.
pub open spec fn in_quarter(robots: Seq<Robot>, size: (i32, i32), q: int, n: int) -> int
    decreases n,
{
    if n <= 0 {
        0
    } else {
        in_quarter(robots, size, q, n - 1) + if quarter(robots[n - 1].position, size) == Some(q) {
            1int
        } else {
            0int
        }
    }
}

/// The product of the numbers of robots in the four quarters.
pub open spec fn safety(robots: Seq<Robot>, size: (i32, i32)) -> int {
    let n = robots.len() as int;
    in_quarter(robots, size, 0, n) * in_quarter(robots, size, 1, n) * in_quarter(robots, size, 2, n)
        * in_quarter(robots, size, 3, n)
}

/// A quarter holds no more robots than were counted.
pub proof fn lemma_in_quarter_bound(robots: Seq<Robot>, size: (i32, i32), q: int, n: int)
    requires
        0 <= n,
    ensures
        0 <= in_quarter(robots, size, q, n) <= n,
    decreases n,
{
    if n > 0 {
        lemma_in_quarter_bound(robots, size, q, n - 1);
    }
}

/// The product of the numbers of robots in the four quarters of the room,
/// after a hundred seconds.
pub fn part1(robots: Vec<Robot>, size: (i32, i32)) -> (product: usize)
    requires
        at_home(robots@, size),
        robots@.len() * robots@.len() * robots@.len() * robots@.len() <= usize::MAX,
    ensures
        product == safety(after(robots@, size, 100), size),
{
    let ghost start = robots@;
    let mut robots = robots;
    let mut s: usize = 0;
    while s < 100
        invariant
            s <= 100,
            at_home(robots@, size),
            robots@ == after(start, size, s as nat),
            robots@.len() == start.len(),
        decreases 100 - s,
    {
        step_all(&mut robots, size);
        s += 1;
    }
    let mx = size.0 / 2;
    let my = size.1 / 2;
    let mut quads: [usize; 4] = [0, 0, 0, 0];
    let mut i: usize = 0;
    while i < robots.len()
        invariant
            i <= robots@.len(),
            mx == size.0 / 2,
            my == size.1 / 2,
            size.0 > 0,
            size.1 > 0,
            forall|q: int| 0 <= q < 4 ==> #[trigger] quads@[q] == in_quarter(robots@, size, q, i as int),
            forall|q: int| 0 <= q < 4 ==> #[trigger] quads@[q] <= i,
        decreases robots@.len() - i,
    {
        let p = robots[i].position;
        if p.0 != mx && p.1 != my {
            let q: usize = (if p.0 < mx {
                0
            } else {
                2
            }) + (if p.1 < my {
                0
            } else {
                1
            });
            let old = quads[q];
            quads[q] = old + 1;
        }
        i += 1;
    }
    proof {
        let n = robots@.len() as int;
        let a = quads@[0] as int;
        let b = quads@[1] as int;
        let c = quads@[2] as int;
        let d = quads@[3] as int;
        assert(0 <= a * b <= n * n) by (nonlinear_arith)
            requires
                0 <= a <= n,
                0 <= b <= n,
        ;
        assert(0 <= a * b * c <= n * n * n) by (nonlinear_arith)
            requires
                0 <= a * b <= n * n,
                0 <= c <= n,
        ;
        assert(0 <= a * b * c * d <= n * n * n * n) by (nonlinear_arith)
            requires
                0 <= a * b * c <= n * n * n,
                0 <= d <= n,
        ;
        assert(n * n <= n * n * n * n && n * n * n <= n * n * n * n) by (nonlinear_arith)
            requires
                0 <= n,
        ;
    }
    quads[0] * quads[1] * quads[2] * quads[3]
}

/// Some robot stands at the position.
pub open spec fn occupied(robots: Seq<Robot>, position: (int, int)) -> bool {
    exists|i: int|
        0 <= i < robots.len() && (#[trigger] robots[i]).position.0 == position.0 && robots[i].position.1
            == position.1
}

/// Every one of the `n` cells from the position to the right holds a robot
/// and lies within the width of the room.
pub open spec fn line_from(robots: Seq<Robot>, width: int, position: (int, int), n: int) -> bool {
    forall|d: int|
        0 <= d < n ==> position.0 + d < width && #[trigger] occupied(robots, (position.0 + d, position.1))
}

/// Some robot stands at the left end of a row of thirty-one robots.
pub open spec fn long_line(robots: Seq<Robot>, size: (i32, i32)) -> bool {
    exists|i: int|
        0 <= i < robots.len() && #[trigger] line_from(
            robots,
            size.0 as int,
            (robots[i].position.0 as int, robots[i].position.1 as int),
            31,
        )
}

/// Whether some robot stands at the position.
pub fn robot_at(robots: &Vec<Robot>, position: (i32, i32)) -> (found: bool)
    ensures
        found == occupied(robots@, (position.0 as int, position.1 as int)),
{
    let mut i: usize = 0;
    while i < robots.len()
        invariant
            i <= robots@.len(),
            forall|j: int|
                0 <= j < i ==> !((#[trigger] robots@[j]).position.0 == position.0 && robots@[j].position.1
                    == position.1),
        decreases robots@.len() - i,
    {
        if robots[i].position.0 == position.0 && robots[i].position.1 == position.1 {
            return true;
        }
        i += 1;
    }
    false
}

/// Whether thirty-one robots stand in a row, side by side.
pub fn has_long_line(robots: &Vec<Robot>, size: (i32, i32)) -> (found: bool)
    ensures
        found == long_line(robots@, size),
{
    let mut i: usize = 0;
    while i < robots.len()
        invariant
            i <= robots@.len(),
            forall|j: int|
                0 <= j < i ==> !#[trigger] line_from(
                    robots@,
                    size.0 as int,
                    (robots@[j].position.0 as int, robots@[j].position.1 as int),
                    31,
                ),
        decreases robots@.len() - i,
    {
        let pos = robots[i].position;
        let ghost at = (pos.0 as int, pos.1 as int);
        let mut run: i32 = 0;
        let mut x = pos.0;
        while run <= 30 && x < size.0 && robot_at(robots, (x, pos.1))
            invariant
                0 <= run <= 31,
                x == pos.0 + run,
                at == (pos.0 as int, pos.1 as int),
                line_from(robots@, size.0 as int, at, run as int),
            decreases 31 - run,
        {
            run += 1;
            x += 1;
        }
        if run > 30 {
            return true;
        }
        proof {
            if line_from(robots@, size.0 as int, at, 31) {
                assert(occupied(robots@, (at.0 + run, at.1)));
            }
        }
        i += 1;
    }
    false
}

/// The first second, of the first `limit - 1`, after which thirty-one
/// robots stand in a row.
pub fn part2(robots: Vec<Robot>, size: (i32, i32), limit: usize) -> (second: Option<usize>)
    requires
        at_home(robots@, size),
    ensures
        match second {
            Some(s) => 1 <= s < limit && long_line(after(robots@, size, s as nat), size) && forall|t: nat|
                1 <= t < s ==> !long_line(#[trigger] after(robots@, size, t), size),
            None => forall|t: nat|
                1 <= t < limit ==> !long_line(#[trigger] after(robots@, size, t), size),
        },
{
    let ghost start = robots@;
    let mut crowd = robots;
    let mut s: usize = 1;
    while s < limit
        invariant
            1 <= s,
            start == robots@,
            at_home(crowd@, size),
            crowd@ == after(start, size, (s - 1) as nat),
            forall|t: nat| 1 <= t < s ==> !long_line(#[trigger] after(start, size, t), size),
        decreases limit - s,
    {
        step_all(&mut crowd, size);
        assert(crowd@ == after(start, size, s as nat));
        if has_long_line(&crowd, size) {
            return Some(s);
        }
        s += 1;
    }
    None
}

/// How many of the first `n` robots stand at the position.
pub open spec fn standing(robots: Seq<Robot>, position: (i32, i32), n: int) -> int
    decreases n,
{
    if n <= 0 {
        0
    } else {
        standing(robots, position, n - 1) + if robots[n - 1].position == position {
            1int
        } else {
            0int
        }
    }
}

/// No more robots stand at a position than were counted, and one at least
/// exactly where a robot stands there.
pub proof fn lemma_standing(robots: Seq<Robot>, position: (i32, i32), n: int)
    requires
        0 <= n <= robots.len(),
    ensures
        0 <= standing(robots, position, n) <= n,
        standing(robots, position, n) > 0 <==> exists|j: int|
            0 <= j < n && (#[trigger] robots[j]).position == position,
    decreases n,
{
    if n > 0 {
        lemma_standing(robots, position, n - 1);
        if standing(robots, position, n) > 0 && robots[n - 1].position != position {
            let j = choose|j: int| 0 <= j < n - 1 && (#[trigger] robots[j]).position == position;
            assert(0 <= j < n && robots[j].position == position);
        }
        if exists|j: int| 0 <= j < n && (#[trigger] robots[j]).position == position {
            let j = choose|j: int| 0 <= j < n && (#[trigger] robots[j]).position == position;
            if j < n - 1 {
                assert(0 <= j < n - 1 && robots[j].position == position);
            }
        }
    }
}

/// The table counts the first `n` robots by their positions: no position
/// stands twice, every count is that of the robots at its position, and
/// the position of every robot is there.
pub open spec fn counts_robots(counts: Seq<((i32, i32), i32)>, robots: Seq<Robot>, n: int) -> bool {
    &&& forall|i: int, j: int| 0 <= i < j < counts.len() ==> (#[trigger] counts[i]).0 != (#[trigger] counts[j]).0
    &&& forall|i: int|
        0 <= i < counts.len() ==> (#[trigger] counts[i]).1 == standing(robots, counts[i].0, n) && counts[i].1
            > 0
    &&& forall|k: int|
        0 <= k < n ==> exists|i: int|
            0 <= i < counts.len() && (#[trigger] counts[i]).0 == (#[trigger] robots[k]).position
}

/// The robots counted by their positions, in the order in which the
/// positions are first taken.
pub fn get_counts(robots: &Vec<Robot>) -> (counts: Vec<((i32, i32), i32)>)
    requires
        robots@.len() <= i32::MAX,
    ensures
        counts_robots(counts@, robots@, robots@.len() as int),
{
    let mut counts: Vec<((i32, i32), i32)> = Vec::new();
    let mut k: usize = 0;
    while k < robots.len()
        invariant
            k <= robots@.len() <= i32::MAX,
            counts_robots(counts@, robots@, k as int),
        decreases robots@.len() - k,
    {
        let p = robots[k].position;
        let ghost before = counts@;
        let mut i: usize = 0;
        while i < counts.len() && !(counts[i].0.0 == p.0 && counts[i].0.1 == p.1)
            invariant
                i <= counts@.len(),
                forall|j: int| 0 <= j < i ==> (#[trigger] counts@[j]).0 != p,
            decreases counts@.len() - i,
        {
            i += 1;
        }
        proof {
            lemma_standing(robots@, p, k as int);
            assert forall|q: (i32, i32)| q != p implies standing(robots@, q, k + 1) == standing(
                robots@,
                q,
                k as int,
            ) by {}
        }
        if i < counts.len() {
            let entry = counts[i];
            assert(entry.0 == p);
            counts[i] = (entry.0, entry.1 + 1);
            proof {
                assert forall|a: int| 0 <= a < counts@.len() implies (#[trigger] counts@[a]).1 == standing(
                    robots@,
                    counts@[a].0,
                    k + 1,
                ) && counts@[a].1 > 0 by {
                    if a != i {
                        assert(counts@[a] == before[a]);
                        assert(before[a].0 != before[i as int].0);
                    }
                }
                assert forall|r: int| 0 <= r < k + 1 implies exists|a: int|
                    0 <= a < counts@.len() && (#[trigger] counts@[a]).0 == (#[trigger] robots@[r]).position by {
                    if r < k {
                        let a = choose|a: int|
                            0 <= a < before.len() && (#[trigger] before[a]).0 == robots@[r].position;
                        assert(counts@[a].0 == robots@[r].position);
                    } else {
                        assert(counts@[i as int].0 == robots@[r].position);
                    }
                }
            }
        } else {
            proof {
                if standing(robots@, p, k as int) > 0 {
                    let j = choose|j: int| 0 <= j < k && (#[trigger] robots@[j]).position == p;
                    let a = choose|a: int| 0 <= a < before.len() && (#[trigger] before[a]).0 == robots@[j].position;
                    assert(before[a].0 != p);
                }
            }
            counts.push((p, 1));
            proof {
                let last = before.len() as int;
                assert forall|a: int| 0 <= a < counts@.len() implies (#[trigger] counts@[a]).1 == standing(
                    robots@,
                    counts@[a].0,
                    k + 1,
                ) && counts@[a].1 > 0 by {
                    if a < last {
                        assert(counts@[a] == before[a]);
                    }
                }
                assert forall|r: int| 0 <= r < k + 1 implies exists|a: int|
                    0 <= a < counts@.len() && (#[trigger] counts@[a]).0 == (#[trigger] robots@[r]).position by {
                    if r < k {
                        let a = choose|a: int|
                            0 <= a < before.len() && (#[trigger] before[a]).0 == robots@[r].position;
                        assert(counts@[a] == before[a]);
                    } else {
                        assert(counts@[last].0 == robots@[r].position);
                    }
                }
                assert forall|a: int, b: int| 0 <= a < b < counts@.len() implies (#[trigger] counts@[a]).0 != (
                #[trigger] counts@[b]).0 by {
                    assert(counts@[a] == before[a]);
                    if b < last {
                        assert(counts@[b] == before[b]);
                    }
                }
            }
        }
        k += 1;
    }
    counts
}

} // verus!
