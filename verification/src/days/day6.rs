//! The patrolling guard: it walks straight on over floor, turns right at an
//! obstacle, and either leaves the map or walks in a loop.

use vstd::prelude::*;
use crate::days::day16::flags::{cleared, lemma_pending_set, pending};
use crate::slots::{lemma_slot, slot, slot_of};

verus! {

#[derive(Debug, Copy, Clone, PartialEq, Eq, Hash, Structural)]
pub enum Moving {
    Right,
    Left,
    Up,
    Down,
}

/// What a step of the guard led to.
#[derive(Debug, Copy, Clone, PartialEq, Eq, Hash, Structural)]
pub enum State {
    /// The guard has moved on.
    Moving,
    /// The guard stands off the map.
    Leaving,
    /// The guard stands where it stood before, moving as before.
    Looping,
}

/// The slot of a direction in a table of four.
pub open spec fn moving_slot(moving: Moving) -> int {
    match moving {
        Moving::Right => 0,
        Moving::Left => 1,
        Moving::Up => 2,
        Moving::Down => 3,
    }
}

/// The change of (row, column) of one step straight on.
pub open spec fn forward(moving: Moving) -> (int, int) {
    match moving {
        Moving::Right => (0, 1),
        Moving::Left => (0, -1),
        Moving::Up => (-1, 0),
        Moving::Down => (1, 0),
    }
}

/// What a guard that has walked into an obstacle does: the direction to its
/// right, and the change of (row, column) that takes it back out of the
/// obstacle and one step in that direction.
pub open spec fn turned(moving: Moving) -> (Moving, int, int) {
    match moving {
        Moving::Right => (Moving::Down, 1, -1),
        Moving::Left => (Moving::Up, -1, 1),
        Moving::Up => (Moving::Right, 1, 1),
        Moving::Down => (Moving::Left, -1, -1),
    }
}

/// The guard as a mathematical value. The tables hold a flag for every cell
/// of the map, and for every cell and direction, numbered row by row.
pub struct GuardModel {
    pub position: (int, int),
    pub moving: Moving,
    pub rows: int,
    pub cols: int,
    pub visited: Seq<bool>,
    pub moving_visited: Seq<bool>,
}

impl GuardModel {
    /// The guard stands on the map.
    pub open spec fn on_map(self) -> bool {
        0 <= self.position.0 < self.rows && 0 <= self.position.1 < self.cols
    }

    /// The number of the cell the guard stands on.
    pub open spec fn cell(self) -> int {
        slot(self.cols, 1, self.position.0, self.position.1, 0)
    }

    /// The number of the cell the guard stands on together with its
    /// direction.
    pub open spec fn heading(self) -> int {
        slot(self.cols, 4, self.position.0, self.position.1, moving_slot(self.moving))
    }

    /// The tables of visits are as large as the map needs them.
    pub open spec fn wf(self) -> bool {
        &&& 0 < self.rows
        &&& 0 < self.cols
        &&& self.visited.len() == self.rows * self.cols
        &&& self.moving_visited.len() == self.rows * self.cols * 4
    }

    /// The guard stands on the map within an obstacle.
    pub open spec fn in_wall(self, map: Seq<Seq<char>>) -> bool {
        self.on_map() && map[self.position.0][self.position.1] == '#'
    }

    /// The guard after one step on the map, and what the step led to.
    #[verifier::opaque]
    pub open spec fn step(self, map: Seq<Seq<char>>) -> (GuardModel, State) {
        if !self.on_map() {
            (self, State::Leaving)
        } else if map[self.position.0][self.position.1] == '#' {
            let (moving, dy, dx) = turned(self.moving);
            (
                GuardModel {
                    position: (self.position.0 + dy, self.position.1 + dx),
                    moving,
                    ..self
                },
                State::Moving,
            )
        } else {
            let seen = GuardModel { visited: self.visited.update(self.cell(), true), ..self };
            if self.moving_visited[self.heading()] {
                (seen, State::Looping)
            } else {
                (
                    GuardModel {
                        position: (
                            self.position.0 + forward(self.moving).0,
                            self.position.1 + forward(self.moving).1,
                        ),
                        moving_visited: self.moving_visited.update(self.heading(), true),
                        ..seen
                    },
                    State::Moving,
                )
            }
        }
    }

    /// The guard after `n` steps.
    #[verifier::opaque]
    pub open spec fn after(self, map: Seq<Seq<char>>, n: nat) -> GuardModel
        decreases n,
    {
        if n == 0 {
            self
        } else {
            self.after(map, (n - 1) as nat).step(map).0
        }
    }

    /// What the step after the first `n` leads to.
    pub open spec fn outcome(self, map: Seq<Seq<char>>, n: nat) -> State {
        self.after(map, n).step(map).1
    }

    /// The guard has walked into obstacles four times running, and so will
    /// for ever.
    pub open spec fn spins(self, map: Seq<Seq<char>>, n: nat) -> bool {
        n >= 4 && forall|k: int| n - 4 <= k < n ==> #[trigger] self.hits_wall(map, k)
    }

    /// The step after the first `k` is made from within an obstacle.
    pub open spec fn hits_wall(self, map: Seq<Seq<char>>, k: int) -> bool {
        k >= 0 && self.after(map, k as nat).in_wall(map)
    }
}

/// The guard after no step is the guard, and after one step more it is a
/// step further.
pub proof fn lemma_after(g: GuardModel, map: Seq<Seq<char>>, n: nat)
    ensures
        g.after(map, 0) == g,
        g.after(map, n + 1) == g.after(map, n).step(map).0,
{
    reveal_with_fuel(GuardModel::after, 2);
}

/// A step that moves the guard on is either made from within an obstacle
/// and leaves the tables as they are, or sets a flag for the cell and
/// direction that was not set before.
pub proof fn lemma_step_moving(g: GuardModel, map: Seq<Seq<char>>)
    requires
        g.wf(),
        g.step(map).1 == State::Moving,
    ensures
        g.in_wall(map) ==> g.step(map).0.moving_visited == g.moving_visited,
        !g.in_wall(map) ==> 0 <= g.heading() < g.moving_visited.len() && !g.moving_visited[g.heading()]
            && g.step(map).0.moving_visited == g.moving_visited.update(g.heading(), true),
{
    reveal(GuardModel::step);
    if !g.in_wall(map) {
        lemma_slot(g.rows, g.cols, 4, g.position.0, g.position.1, moving_slot(g.moving));
    }
}

/// After `n` steps that all moved it on, the last `turns` of them made from
/// within an obstacle, the guard that began as `start` is `g`.
#[verifier::opaque]
pub open spec fn walked(start: GuardModel, map: Seq<Seq<char>>, n: nat, g: GuardModel, turns: int) -> bool {
    &&& g == start.after(map, n)
    &&& forall|k: nat| k < n ==> #[trigger] start.outcome(map, k) == State::Moving
    &&& 0 <= turns <= n
    &&& forall|k: int| n - turns <= k < n ==> #[trigger] start.hits_wall(map, k)
    &&& turns < n ==> !start.hits_wall(map, n - turns - 1)
    &&& forall|m: nat| m <= n ==> !#[trigger] start.spins(map, m)
}

/// The patrol of the guard that began as `start` ended after `n` steps with
/// the guard `g`: all steps but the last moved it on, and the last either
/// took it off the map, or brought it to stand as it stood before, or was
/// the fourth running that was made from within an obstacle.
pub open spec fn patrolled(
    start: GuardModel,
    map: Seq<Seq<char>>,
    n: nat,
    g: GuardModel,
    state: State,
) -> bool {
    &&& n > 0
    &&& g == start.after(map, n)
    &&& forall|k: nat| k < n - 1 ==> #[trigger] start.outcome(map, k) == State::Moving
    &&& forall|m: nat| m < n ==> !#[trigger] start.spins(map, m)
    &&& if state == State::Leaving {
        start.outcome(map, (n - 1) as nat) == State::Leaving
    } else {
        start.outcome(map, (n - 1) as nat) == State::Looping || (start.outcome(
            map,
            (n - 1) as nat,
        ) == State::Moving && start.spins(map, n))
    }
}

/// A guard that has not moved has walked no step.
pub proof fn lemma_walk_start(start: GuardModel, map: Seq<Seq<char>>)
    ensures
        walked(start, map, 0, start, 0),
{
    reveal(walked);
    lemma_after(start, map, 0);
}

/// One step more of a walk: it goes on, with one flag fewer pending or one
/// more turn running, or the patrol has ended.
pub proof fn lemma_walk_on(start: GuardModel, map: Seq<Seq<char>>, n: nat, g: GuardModel, turns: int)
    requires
        g.wf(),
        walked(start, map, n, g, turns),
        turns < 4,
    ensures
        g.step(map).1 == State::Moving && g.in_wall(map) ==> (turns + 1 < 4 ==> walked(
            start,
            map,
            n + 1,
            g.step(map).0,
            turns + 1,
        )) && g.step(map).0.moving_visited == g.moving_visited && (turns + 1 == 4 ==> patrolled(
            start,
            map,
            n + 1,
            g.step(map).0,
            State::Looping,
        )),
        g.step(map).1 == State::Moving && !g.in_wall(map) ==> walked(
            start,
            map,
            n + 1,
            g.step(map).0,
            0,
        ) && pending(g.step(map).0.moving_visited) < pending(g.moving_visited),
        g.step(map).1 != State::Moving ==> patrolled(
            start,
            map,
            n + 1,
            g.step(map).0,
            g.step(map).1,
        ),
{
    reveal(walked);
    lemma_after(start, map, n);
    let next = g.step(map).0;
    let state = g.step(map).1;
    assert(start.after(map, n + 1) == next);
    assert(start.outcome(map, n) == state);
    if state == State::Moving {
        lemma_step_moving(g, map);
        if g.in_wall(map) {
            assert(start.hits_wall(map, n as int));
            if turns + 1 == 4 {
                assert(start.spins(map, n + 1));
            } else {
                assert forall|m: nat| m <= n + 1 implies !#[trigger] start.spins(map, m) by {
                    if m == n + 1 && start.spins(map, m) {
                        assert(start.hits_wall(map, n - turns - 1));
                    }
                }
            }
        } else {
            lemma_pending_set(g.moving_visited, g.heading());
            assert forall|m: nat| m <= n + 1 implies !#[trigger] start.spins(map, m) by {
                if m == n + 1 && start.spins(map, m) {
                    assert(start.hits_wall(map, n as int));
                }
            }
        }
    }
}

/// A patrol ends in one way only.
pub proof fn lemma_patrol_unique(
    start: GuardModel,
    map: Seq<Seq<char>>,
    n1: nat,
    g1: GuardModel,
    s1: State,
    n2: nat,
    g2: GuardModel,
    s2: State,
)
    requires
        patrolled(start, map, n1, g1, s1),
        patrolled(start, map, n2, g2, s2),
        s1 != State::Moving,
        s2 != State::Moving,
    ensures
        n1 == n2,
        g1 == g2,
        s1 == s2,
{
    if n1 < n2 {
        assert(start.outcome(map, (n1 - 1) as nat) == State::Moving);
        assert(!start.spins(map, n1));
    }
    if n2 < n1 {
        assert(start.outcome(map, (n2 - 1) as nat) == State::Moving);
        assert(!start.spins(map, n2));
    }
}

/// The patrol of the guard ends as `s`.
pub open spec fn ends_as(start: GuardModel, map: Seq<Seq<char>>, s: State) -> bool {
    s != State::Moving && exists|n: nat, g: GuardModel| #[trigger] patrolled(start, map, n, g, s)
}

/// The patrol of the guard ends with the guard `g`.
pub open spec fn rests_as(start: GuardModel, map: Seq<Seq<char>>, g: GuardModel) -> bool {
    exists|n: nat, s: State| s != State::Moving && #[trigger] patrolled(start, map, n, g, s)
}

/// How the patrol of the guard ends: `Leaving` or `Looping`.
pub open spec fn patrol_end(start: GuardModel, map: Seq<Seq<char>>) -> State {
    choose|s: State| ends_as(start, map, s)
}

/// The guard as it stands when its patrol has ended.
pub open spec fn patrol_rest(start: GuardModel, map: Seq<Seq<char>>) -> GuardModel {
    choose|g: GuardModel| rests_as(start, map, g)
}

/// A patrol that has ended has ended as `patrol_end` and `patrol_rest` say.
pub proof fn lemma_patrol_end(start: GuardModel, map: Seq<Seq<char>>, n: nat, g: GuardModel, s: State)
    requires
        patrolled(start, map, n, g, s),
        s != State::Moving,
    ensures
        patrol_end(start, map) == s,
        patrol_rest(start, map) == g,
{
    assert(ends_as(start, map, s));
    assert(rests_as(start, map, g));
    let s2 = patrol_end(start, map);
    let (n2, g2) = choose|n2: nat, g2: GuardModel| #[trigger] patrolled(start, map, n2, g2, s2);
    lemma_patrol_unique(start, map, n, g, s, n2, g2, s2);
    let g3 = patrol_rest(start, map);
    let (n3, s3) = choose|n3: nat, s3: State| s3 != State::Moving && #[trigger] patrolled(start, map, n3, g3, s3);
    lemma_patrol_unique(start, map, n, g, s, n3, g3, s3);
}

/// The map has as many rows and columns as the guard reckons with, and no
/// row shorter than the first.
pub open spec fn fits_map(map: Seq<Seq<char>>, g: GuardModel) -> bool {
    &&& map.len() == g.rows
    &&& map[0].len() == g.cols
    &&& forall|r: int| 0 <= r < map.len() ==> (#[trigger] map[r]).len() >= map[0].len()
    &&& g.rows < isize::MAX
    &&& g.cols < isize::MAX
    &&& g.rows * g.cols * 4 <= usize::MAX
}

pub struct Guard {
    pub position: (isize, isize),
    pub moving: Moving,
    pub rows: usize,
    pub cols: usize,
    pub visited: Vec<bool>,
    pub moving_visited: Vec<bool>,
}

impl View for Guard {
    type V = GuardModel;

    open spec fn view(&self) -> GuardModel {
        GuardModel {
            position: (self.position.0 as int, self.position.1 as int),
            moving: self.moving,
            rows: self.rows as int,
            cols: self.cols as int,
            visited: self.visited@,
            moving_visited: self.moving_visited@,
        }
    }
}

/// The number of a direction.
pub fn moving_index(moving: Moving) -> (index: usize)
    ensures
        index == moving_slot(moving),
{
    match moving {
        Moving::Right => 0,
        Moving::Left => 1,
        Moving::Up => 2,
        Moving::Down => 3,
    }
}

impl Guard {
    /// A guard at `position` on a map of `rows` rows and `cols` columns that
    /// has visited nothing yet.
    pub fn new(position: (isize, isize), moving: Moving, rows: usize, cols: usize) -> (guard: Guard)
        requires
            0 < rows,
            0 < cols,
            rows * cols * 4 <= usize::MAX,
        ensures
            guard@.wf(),
            guard@.position == (position.0 as int, position.1 as int),
            guard@.moving == moving,
            guard@.rows == rows,
            guard@.cols == cols,
            forall|i: int| 0 <= i < guard@.visited.len() ==> !#[trigger] guard@.visited[i],
            forall|i: int| 0 <= i < guard@.moving_visited.len() ==> !#[trigger] guard@.moving_visited[i],
    {
        proof {
            assert(rows * cols <= rows * cols * 4) by (nonlinear_arith)
                requires
                    rows * cols >= 0,
            ;
            assert(rows * cols >= 0) by (nonlinear_arith)
                requires
                    rows >= 0,
                    cols >= 0,
            ;
        }
        Guard {
            position,
            moving,
            rows,
            cols,
            visited: cleared(rows * cols),
            moving_visited: cleared(rows * cols * 4),
        }
    }

    /// One step of the guard.
    pub fn step(&mut self, map: &Vec<Vec<char>>) -> (state: State)
        requires
            old(self)@.wf(),
            fits_map(rows_of(map@), old(self)@),
        ensures
            (final(self)@, state) == old(self)@.step(rows_of(map@)),
            final(self)@.wf(),
            fits_map(rows_of(map@), final(self)@),
    {
        proof {
            reveal(GuardModel::step);
        }
        let (y, x) = self.position;
        if y < 0 || x < 0 || y as usize >= self.rows || x as usize >= self.cols {
            return State::Leaving;
        }
        let row = y as usize;
        let col = x as usize;
        assert(rows_of(map@)[row as int] == map@[row as int]@);
        assert(rows_of(map@)[0] == map@[0]@);
        assert(rows_of(map@)[row as int].len() >= rows_of(map@)[0].len());
        proof {
            assert(self.rows * self.cols * 1 <= self.rows * self.cols * 4) by (nonlinear_arith)
                requires
                    self.rows * self.cols >= 0,
            ;
            assert(self.rows * self.cols >= 0) by (nonlinear_arith)
                requires
                    self.rows >= 0,
                    self.cols >= 0,
            ;
        }
        if map[row][col] == '#' {
            let (moving, dy, dx): (Moving, isize, isize) = match self.moving {
                Moving::Right => (Moving::Down, 1, -1),
                Moving::Left => (Moving::Up, -1, 1),
                Moving::Up => (Moving::Right, 1, 1),
                Moving::Down => (Moving::Left, -1, -1),
            };
            self.position = (y + dy, x + dx);
            self.moving = moving;
            return State::Moving;
        }
        let cell = slot_of(self.rows, self.cols, 1, row, col, 0);
        let heading = slot_of(self.rows, self.cols, 4, row, col, moving_index(self.moving));
        self.visited[cell] = true;
        if self.moving_visited[heading] {
            return State::Looping;
        }
        self.moving_visited[heading] = true;
        let (dy, dx): (isize, isize) = match self.moving {
            Moving::Right => (0, 1),
            Moving::Left => (0, -1),
            Moving::Up => (-1, 0),
            Moving::Down => (1, 0),
        };
        self.position = (y + dy, x + dx);
        State::Moving
    }

    /// Whether the guard stands on the map within an obstacle.
    fn in_obstacle(&self, map: &Vec<Vec<char>>) -> (hit: bool)
        requires
            self@.wf(),
            fits_map(rows_of(map@), self@),
        ensures
            hit == self@.in_wall(rows_of(map@)),
    {
        let (y, x) = self.position;
        if y < 0 || x < 0 || y as usize >= self.rows || x as usize >= self.cols {
            return false;
        }
        assert(rows_of(map@)[y as int] == map@[y as int]@);
        assert(rows_of(map@)[0] == map@[0]@);
        assert(rows_of(map@)[y as int].len() >= rows_of(map@)[0].len());
        map[y as usize][x as usize] == '#'
    }

    /// Lets the guard walk until it leaves the map or is found to walk in a
    /// loop, be it that it comes to stand as it stood before or that it
    /// walks into obstacles four times running. Returns `Leaving` or
    /// `Looping`.
    pub fn patrol(&mut self, map: &Vec<Vec<char>>) -> (state: State)
        requires
            old(self)@.wf(),
            fits_map(rows_of(map@), old(self)@),
        ensures
            final(self)@.wf(),
            fits_map(rows_of(map@), final(self)@),
            state != State::Moving,
            exists|n: nat| #[trigger] patrolled(old(self)@, rows_of(map@), n, final(self)@, state),
            state == patrol_end(old(self)@, rows_of(map@)),
            final(self)@ == patrol_rest(old(self)@, rows_of(map@)),
    {
        let ghost start = self@;
        let ghost mut n: nat = 0;
        let mut turns: usize = 0;
        proof {
            lemma_walk_start(start, rows_of(map@));
        }
        loop
            invariant
                start == old(self)@,
                self@.wf(),
                fits_map(rows_of(map@), self@),
                turns < 4,
                walked(start, rows_of(map@), n, self@, turns as int),
            decreases pending(self.moving_visited@), 4 - turns,
        {
            let ghost before = self@;
            let hit = self.in_obstacle(map);
            let state = self.step(map);
            proof {
                lemma_walk_on(start, rows_of(map@), n, before, turns as int);
                n = n + 1;
            }
            match state {
                State::Moving => {
                    if hit {
                        turns += 1;
                        if turns == 4 {
                            proof {
                                lemma_patrol_end(start, rows_of(map@), n, self@, State::Looping);
                            }
                            return State::Looping;
                        }
                    } else {
                        turns = 0;
                    }
                },
                State::Leaving => {
                    proof {
                        lemma_patrol_end(start, rows_of(map@), n, self@, State::Leaving);
                    }
                    return State::Leaving;
                },
                State::Looping => {
                    proof {
                        lemma_patrol_end(start, rows_of(map@), n, self@, State::Looping);
                    }
                    return State::Looping;
                },
            }
        }
    }

    /// How many cells the guard has visited.
    pub fn visited_count(&self) -> (count: usize)
        ensures
            count + pending(self.visited@) == self.visited@.len(),
    {
        let mut count: usize = 0;
        let mut i: usize = 0;
        while i < self.visited.len()
            invariant
                i <= self.visited@.len(),
                count + pending(self.visited@.take(i as int)) == i,
            decreases self.visited@.len() - i,
        {
            proof {
                assert(self.visited@.take(i + 1).drop_last() =~= self.visited@.take(i as int));
            }
            if self.visited[i] {
                count += 1;
            }
            i += 1;
        }
        assert(self.visited@.take(self.visited@.len() as int) =~= self.visited@);
        count
    }
}

/// The guard at the start of its patrol: at `start`, moving up, with
/// nothing visited.
pub open spec fn fresh_guard(rows: int, cols: int, start: (int, int)) -> GuardModel {
    GuardModel {
        position: start,
        moving: Moving::Up,
        rows,
        cols,
        visited: Seq::new((rows * cols) as nat, |i: int| false),
        moving_visited: Seq::new((rows * cols * 4) as nat, |i: int| false),
    }
}

/// The map can hold a guard: it has a row and a column, no row is shorter
/// than the first, and its cells can be numbered.
pub open spec fn patrollable(map: Seq<Seq<char>>) -> bool {
    &&& 0 < map.len() < isize::MAX
    &&& 0 < map[0].len() < isize::MAX
    &&& forall|r: int| 0 <= r < map.len() ==> (#[trigger] map[r]).len() >= map[0].len()
    &&& map.len() * map[0].len() * 4 <= usize::MAX
}

/// The rows of a map as sequences.
pub open spec fn rows_of(map: Seq<Vec<char>>) -> Seq<Seq<char>> {
    Seq::new(map.len(), |r: int| map[r]@)
}

/// The map with an obstacle at (`row`, `col`).
pub open spec fn blocked(map: Seq<Seq<char>>, row: int, col: int) -> Seq<Seq<char>> {
    map.update(row, map[row].update(col, '#'))
}

/// A guard at the start of its patrol.
fn fresh(map: &Vec<Vec<char>>, start: (usize, usize)) -> (guard: Guard)
    requires
        patrollable(rows_of(map@)),
        start.0 < map@.len(),
        start.1 < map@[0]@.len(),
    ensures
        guard@ == fresh_guard(map@.len() as int, map@[0]@.len() as int, (start.0 as int, start.1 as int)),
        guard@.wf(),
        fits_map(rows_of(map@), guard@),
{
    assert(rows_of(map@)[0] == map@[0]@);
    let guard = Guard::new((start.0 as isize, start.1 as isize), Moving::Up, map.len(), map[0].len());
    proof {
        let model = fresh_guard(
            map@.len() as int,
            map@[0]@.len() as int,
            (start.0 as int, start.1 as int),
        );
        assert(guard@.visited =~= model.visited);
        assert(guard@.moving_visited =~= model.moving_visited);
    }
    guard
}

/// The guard at the start of its patrol on the map.
pub open spec fn guard_on(map: Seq<Seq<char>>, start: (int, int)) -> GuardModel {
    fresh_guard(map.len() as int, map[0].len() as int, start)
}

/// How many cells the guard visits on its patrol from `start`, moving up at
/// first.
pub fn part1(map: &Vec<Vec<char>>, start: (usize, usize)) -> (count: usize)
    requires
        patrollable(rows_of(map@)),
        start.0 < map@.len(),
        start.1 < map@[0]@.len(),
    ensures
        count + pending(
            patrol_rest(guard_on(rows_of(map@), (start.0 as int, start.1 as int)), rows_of(map@)).visited,
        ) == map@.len() * map@[0]@.len(),
{
    assert(rows_of(map@)[0] == map@[0]@);
    let mut guard = fresh(map, start);
    let _ = guard.patrol(map);
    guard.visited_count()
}

/// A copy of the map with an obstacle at (`row`, `col`).
fn with_obstacle(map: &Vec<Vec<char>>, row: usize, col: usize) -> (out: Vec<Vec<char>>)
    requires
        patrollable(rows_of(map@)),
        row < map@.len(),
        col < map@[0]@.len(),
    ensures
        rows_of(out@) == blocked(rows_of(map@), row as int, col as int),
        patrollable(rows_of(out@)),
        out@.len() == map@.len(),
        out@[0]@.len() == map@[0]@.len(),
{
    let ghost rows = rows_of(map@);
    let mut out: Vec<Vec<char>> = Vec::new();
    let mut r: usize = 0;
    while r < map.len()
        invariant
            r <= map@.len(),
            rows == rows_of(map@),
            patrollable(rows),
            row < map@.len(),
            col < map@[0]@.len(),
            out@.len() == r,
            forall|i: int| 0 <= i < r ==> (#[trigger] out@[i])@ == blocked(rows, row as int, col as int)[i],
        decreases map@.len() - r,
    {
        let line = &map[r];
        assert(rows[r as int] == line@);
        assert(rows[0] == map@[0]@);
        assert(rows[r as int].len() >= rows[0].len());
        let mut made: Vec<char> = Vec::new();
        let mut c: usize = 0;
        while c < line.len()
            invariant
                c <= line@.len(),
                made@.len() == c,
                forall|j: int|
                    0 <= j < c ==> #[trigger] made@[j] == if r == row && j == col {
                        '#'
                    } else {
                        line@[j]
                    },
            decreases line@.len() - c,
        {
            if r == row && c == col {
                made.push('#');
            } else {
                made.push(line[c]);
            }
            c += 1;
        }
        assert(made@ =~= blocked(rows, row as int, col as int)[r as int]);
        out.push(made);
        r += 1;
    }
    proof {
        let b = blocked(rows, row as int, col as int);
        assert(rows_of(out@) =~= b);
        assert(rows[0] == map@[0]@);
        assert(rows[row as int].len() >= rows[0].len());
        assert forall|i: int| 0 <= i < b.len() implies (#[trigger] b[i]).len() >= b[0].len() by {
            assert(rows[i].len() >= rows[0].len());
        }
        assert(b[0].len() == rows[0].len());
        assert(out@[0]@ == b[0]);
    }
    out
}

/// The guard walks in a loop when an obstacle is put on the cell number
/// `i`, a cell that it visits when there is none and on which it does not
/// start.
pub open spec fn is_trap(map: Seq<Seq<char>>, start: (int, int), visited: Seq<bool>, i: int) -> bool {
    let cols = map[0].len() as int;
    &&& visited[i]
    &&& (i / cols, i % cols) != start
    &&& patrol_end(guard_on(map, start), blocked(map, i / cols, i % cols)) == State::Looping
}

/// How many of the first `n` cells of the map are traps.
pub open spec fn traps_upto(map: Seq<Seq<char>>, start: (int, int), visited: Seq<bool>, n: int) -> int
    decreases n,
{
    if n <= 0 {
        0
    } else {
        traps_upto(map, start, visited, n - 1) + if is_trap(map, start, visited, n - 1) {
            1int
        } else {
            0int
        }
    }
}

/// On how many of the cells that the guard visits, but for the one where it
/// starts, an obstacle makes it walk in a loop.
pub fn part2(map: &Vec<Vec<char>>, start: (usize, usize)) -> (count: usize)
    requires
        patrollable(rows_of(map@)),
        start.0 < map@.len(),
        start.1 < map@[0]@.len(),
    ensures
        count == traps_upto(
            rows_of(map@),
            (start.0 as int, start.1 as int),
            patrol_rest(guard_on(rows_of(map@), (start.0 as int, start.1 as int)), rows_of(map@)).visited,
            (map@.len() * map@[0]@.len()) as int,
        ),
{
    let ghost rows_model = rows_of(map@);
    let ghost at_start = (start.0 as int, start.1 as int);
    assert(rows_model[0] == map@[0]@);
    let rows = map.len();
    let cols = map[0].len();
    let mut first = fresh(map, start);
    let _ = first.patrol(map);
    let ghost visited = first.visited@;
    proof {
        assert(rows * cols * 1 <= rows * cols * 4);
        assert(rows * cols >= 0) by (nonlinear_arith)
            requires
                rows >= 0,
                cols >= 0,
        ;
    }
    let mut count: usize = 0;
    let mut y: usize = 0;
    proof {
        assert(0 * cols == 0) by (nonlinear_arith);
    }
    while y < rows
        invariant
            y <= rows,
            rows == map@.len(),
            cols == map@[0]@.len(),
            rows_model == rows_of(map@),
            patrollable(rows_model),
            start.0 < rows,
            start.1 < cols,
            at_start == (start.0 as int, start.1 as int),
            visited == first.visited@,
            visited.len() == rows * cols,
            count == traps_upto(rows_model, at_start, visited, y * cols),
            count <= y * cols,
        decreases rows - y,
    {
        let mut x: usize = 0;
        while x < cols
            invariant
                y < rows,
                x <= cols,
                rows == map@.len(),
                cols == map@[0]@.len(),
                rows_model == rows_of(map@),
                patrollable(rows_model),
                start.0 < rows,
                start.1 < cols,
                at_start == (start.0 as int, start.1 as int),
                visited == first.visited@,
                visited.len() == rows * cols,
                count == traps_upto(rows_model, at_start, visited, y * cols + x),
                count <= y * cols + x,
            decreases cols - x,
        {
            proof {
                assert(rows * cols * 1 <= rows * cols * 4) by (nonlinear_arith)
                    requires
                        rows * cols >= 0,
                ;
                assert(rows * cols >= 0) by (nonlinear_arith)
                    requires
                        rows >= 0,
                        cols >= 0,
                ;
                assert(rows_model[0] == map@[0]@);
            }
            let at = slot_of(rows, cols, 1, y, x, 0);
            proof {
                assert(at == y * cols + x) by (nonlinear_arith)
                    requires
                        at == (y * cols + x) * 1 + 0,
                ;
                vstd::arithmetic::div_mod::lemma_fundamental_div_mod_converse(
                    at as int,
                    cols as int,
                    y as int,
                    x as int,
                );
            }
            if first.visited[at] && !(y == start.0 && x == start.1) {
                let barred = with_obstacle(map, y, x);
                let mut guard = fresh(&barred, start);
                let state = guard.patrol(&barred);
                if state == State::Looping {
                    count += 1;
                }
            }
            x += 1;
        }
        proof {
            assert((y + 1) * cols == y * cols + cols) by (nonlinear_arith);
        }
        y += 1;
    }
    count
}

} // verus!
