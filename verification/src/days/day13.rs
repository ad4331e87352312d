//! Claw machines: two buttons that move the claw, and a prize to hit.

use vstd::prelude::*;
use crate::text::{
    chars_of, group, group_text, group_usize, groups, lines, lines_of, list_model, regex_groups, usize_of,
};

verus! {

#[derive(Clone, Copy, Eq, PartialEq, Debug, Structural)]
pub struct Button {
    pub label: char,
    pub x: usize,
    pub y: usize,
}

#[derive(Clone, Copy, Eq, PartialEq, Debug, Structural)]
pub struct Prize {
    pub x: usize,
    pub y: usize,
}

#[derive(Clone, Copy, Eq, PartialEq, Debug, Structural)]
pub struct Claw {
    pub a: Button,
    pub b: Button,
    pub prize: Prize,
}

/// How a button is written.
pub open spec fn button_pattern() -> Seq<char> {
    "Button ([A-Z]): X\\+(\\d+), Y\\+(\\d+)"@
}

/// How a prize is written.
pub open spec fn prize_pattern() -> Seq<char> {
    "Prize: X=(\\d+), Y=(\\d+)"@
}

impl Button {
    /// The button that the groups of a match of the button pattern give.
    pub open spec fn of_groups(groups: Seq<Option<Seq<char>>>) -> Option<Button> {
        match (
            group_text(groups, 1),
            usize_of(group_text(groups, 2)),
            usize_of(group_text(groups, 3)),
        ) {
            (Some(label), Some(x), Some(y)) => if label.len() > 0 {
                Some(Button { label: label[0], x, y })
            } else {
                None
            },
            _ => None,
        }
    }

    /// The button that a line of text describes.
    pub open spec fn of_text(line: Seq<char>) -> Option<Button> {
        match regex_groups(button_pattern(), line) {
            Some(groups) => Self::of_groups(groups),
            None => None,
        }
    }

    /// The button that the groups of a match of the button pattern give.
    pub fn from_groups(groups: &Vec<Option<Vec<char>>>) -> (out: Option<Button>)
        ensures
            out == Self::of_groups(list_model(groups@)),
    {
        let label = match group(groups, 1) {
            Some(text) => if text.len() > 0 {
                text[0]
            } else {
                return None;
            },
            None => {
                return None;
            },
        };
        let x = match group_usize(groups, 2) {
            Some(x) => x,
            None => {
                return None;
            },
        };
        let y = match group_usize(groups, 3) {
            Some(y) => y,
            None => {
                return None;
            },
        };
        Some(Button { label, x, y })
    }

    /// The button that a line of text describes, if it describes one.
    pub fn from_text(line: &Vec<char>) -> (out: Option<Button>)
        ensures
            out == Self::of_text(line@),
    {
        let pattern = chars_of("Button ([A-Z]): X\\+(\\d+), Y\\+(\\d+)");
        match groups(&pattern, line) {
            None => None,
            Some(found) => Self::from_groups(&found),
        }
    }
}

impl Prize {
    /// The prize that the groups of a match of the prize pattern give.
    pub open spec fn of_groups(groups: Seq<Option<Seq<char>>>) -> Option<Prize> {
        match (usize_of(group_text(groups, 1)), usize_of(group_text(groups, 2))) {
            (Some(x), Some(y)) => Some(Prize { x, y }),
            _ => None,
        }
    }

    /// The prize that a line of text describes.
    pub open spec fn of_text(line: Seq<char>) -> Option<Prize> {
        match regex_groups(prize_pattern(), line) {
            Some(groups) => Self::of_groups(groups),
            None => None,
        }
    }

    /// The prize that the groups of a match of the prize pattern give.
    pub fn from_groups(groups: &Vec<Option<Vec<char>>>) -> (out: Option<Prize>)
        ensures
            out == Self::of_groups(list_model(groups@)),
    {
        let x = match group_usize(groups, 1) {
            Some(x) => x,
            None => {
                return None;
            },
        };
        let y = match group_usize(groups, 2) {
            Some(y) => y,
            None => {
                return None;
            },
        };
        Some(Prize { x, y })
    }

    /// The prize that a line of text describes, if it describes one.
    pub fn from_text(line: &Vec<char>) -> (out: Option<Prize>)
        ensures
            out == Self::of_text(line@),
    {
        let pattern = chars_of("Prize: X=(\\d+), Y=(\\d+)");
        match groups(&pattern, line) {
            None => None,
            Some(found) => Self::from_groups(&found),
        }
    }
}

impl Claw {
    /// The claw that three lines of text describe: button A, button B and
    /// the prize.
    pub open spec fn of_lines(all: Seq<Seq<char>>) -> Option<Claw> {
        if all.len() < 3 {
            None
        } else {
            match (Button::of_text(all[0]), Button::of_text(all[1]), Prize::of_text(all[2])) {
                (Some(a), Some(b), Some(prize)) => Some(Claw { a, b, prize }),
                _ => None,
            }
        }
    }

    /// The claw that a section of text describes, if it describes one.
    pub fn from_text(section: &Vec<char>) -> (out: Option<Claw>)
        ensures
            out == Self::of_lines(lines_of(section@)),
    {
        let all = lines(section);
        proof {
            assert(crate::text::rows(all@).len() == all@.len());
        }
        if all.len() < 3 {
            return None;
        }
        proof {
            assert(crate::text::rows(all@)[0] == all@[0]@);
            assert(crate::text::rows(all@)[1] == all@[1]@);
            assert(crate::text::rows(all@)[2] == all@[2]@);
        }
        let a = match Button::from_text(&all[0]) {
            Some(a) => a,
            None => {
                return None;
            },
        };
        let b = match Button::from_text(&all[1]) {
            Some(b) => b,
            None => {
                return None;
            },
        };
        let prize = match Prize::from_text(&all[2]) {
            Some(p) => p,
            None => {
                return None;
            },
        };
        Some(Claw { a, b, prize })
    }
}

/// What the presses cost: three tokens for each press of A, one for each of
/// B.
pub open spec fn token_cost(a: int, b: int) -> int {
    a * 3 + b
}

/// What the presses cost: three tokens for a press of A, one for a press of B.
pub fn tokens(presses: (usize, usize)) -> (cost: usize)
    requires
        token_cost(presses.0 as int, presses.1 as int) <= usize::MAX,
    ensures
        cost == token_cost(presses.0 as int, presses.1 as int),
{
    presses.0 * 3 + presses.1
}

impl Claw {
    /// `a` presses of A and `b` presses of B bring the claw onto the prize.
    pub open spec fn hits(self, a: int, b: int) -> bool {
        self.a.x * a + self.b.x * b == self.prize.x && self.a.y * a + self.b.y * b == self.prize.y
    }

    /// Whether the presses bring the claw right onto the prize.
    pub fn hit_prize(&self, presses: (usize, usize)) -> (hit: bool)
        ensures
            hit == self.hits(presses.0 as int, presses.1 as int),
    {
        let (pa, pb) = presses;
        lands(self.a.x, pa, self.b.x, pb, self.prize.x) && lands(
            self.a.y,
            pa,
            self.b.y,
            pb,
            self.prize.y,
        )
    }

    /// `cost` is what it costs to hit the prize with `a` and `b` presses,
    /// each under `limit`.
    pub open spec fn wins(self, limit: int, a: int, b: int, cost: int) -> bool {
        0 <= a < limit && 0 <= b < limit && self.hits(a, b) && cost == token_cost(a, b)
    }

    /// No hit with fewer than `rows` presses of A, or with `rows` presses of
    /// A and fewer than `cols` of B, costs less than `cost`.
    pub open spec fn none_cheaper(self, rows: int, cols: int, cost: int) -> bool {
        forall|a: int, b: int|
            0 <= a <= rows && 0 <= b < 100 && (a == rows ==> b < cols) && #[trigger] self.hits(a, b)
                ==> cost <= token_cost(a, b)
    }

    /// `cost` is the least cost of a hit with fewer than a hundred presses
    /// of each button.
    pub open spec fn is_least_cost(self, cost: int) -> bool {
        &&& exists|a: int, b: int| #[trigger] self.wins(100, a, b, cost)
        &&& self.none_cheaper(100, 0, cost)
    }

    /// No hit with fewer than `rows` presses of A, or with `rows` presses of
    /// A and fewer than `cols` of B.
    pub open spec fn no_hit(self, rows: int, cols: int) -> bool {
        forall|a: int, b: int|
            0 <= a <= rows && 0 <= b < 100 && (a == rows ==> b < cols) ==> !#[trigger] self.hits(a, b)
    }

    /// What is known after the presses before (`rows`, `cols`) were tried.
    pub open spec fn tried(self, least: Option<usize>, rows: int, cols: int) -> bool {
        match least {
            Some(cost) => (exists|a: int, b: int| #[trigger] self.wins(100, a, b, cost as int))
                && self.none_cheaper(rows, cols, cost as int),
            None => self.no_hit(rows, cols),
        }
    }

    /// The least cost of hitting the prize with fewer than a hundred presses
    /// of each button, if that can be done.
    pub fn part1_tokens(&self) -> (least: Option<usize>)
        ensures
            match least {
                Some(cost) => self.is_least_cost(cost as int),
                None => self.no_hit(100, 0),
            },
    {
        let mut least: Option<usize> = None;
        let mut pa: usize = 0;
        while pa < 100
            invariant
                pa <= 100,
                self.tried(least, pa as int, 0),
            decreases 100 - pa,
        {
            let mut pb: usize = 0;
            while pb < 100
                invariant
                    pa < 100,
                    pb <= 100,
                    self.tried(least, pa as int, pb as int),
                decreases 100 - pb,
            {
                let ghost before = least;
                if self.hit_prize((pa, pb)) {
                    let cost = tokens((pa, pb));
                    let lower = match least {
                        None => true,
                        Some(old) => cost < old,
                    };
                    if lower {
                        least = Some(cost);
                        assert(self.wins(100, pa as int, pb as int, cost as int));
                    }
                }
                proof {
                    match least {
                        Some(cost) => {
                            assert forall|a: int, b: int|
                                0 <= a <= pa && 0 <= b < 100 && (a == pa ==> b < pb + 1)
                                    && #[trigger] self.hits(a, b) implies cost <= token_cost(a, b) by {
                                if !(a == pa && b == pb) {
                                    match before {
                                        Some(old) => {
                                            assert(self.none_cheaper(pa as int, pb as int, old as int));
                                        },
                                        None => {
                                            assert(self.no_hit(pa as int, pb as int));
                                        },
                                    }
                                }
                            }
                        },
                        None => {
                            assert(self.no_hit(pa as int, pb as int));
                        },
                    }
                }
                pb += 1;
            }
            pa += 1;
        }
        least
    }

    /// The least cost of a hit, nothing where there is no hit.
    pub open spec fn price(self) -> int {
        if exists|c: int| self.is_least_cost(c) {
            choose|c: int| self.is_least_cost(c)
        } else {
            0
        }
    }
}

/// What the first `n` claws cost in all, each at its least cost.
pub open spec fn total_price(claws: Seq<Claw>, n: int) -> int
    decreases n,
{
    if n <= 0 {
        0
    } else {
        total_price(claws, n - 1) + claws[n - 1].price()
    }
}

/// Of two least costs, each is no more than the other; and a least cost is
/// under four hundred.
pub proof fn lemma_least_cost(claw: Claw, c1: int, c2: int)
    requires
        claw.is_least_cost(c1),
        claw.is_least_cost(c2),
    ensures
        c1 == c2,
        0 <= c1 < 400,
{
    let (a1, b1) = choose|a: int, b: int| #[trigger] claw.wins(100, a, b, c1);
    let (a2, b2) = choose|a: int, b: int| #[trigger] claw.wins(100, a, b, c2);
    assert(claw.hits(a1, b1));
    assert(claw.hits(a2, b2));
}

/// Whether `step_a * a + step_b * b == target`, whatever the size of the
/// products.
fn lands(step_a: usize, a: usize, step_b: usize, b: usize, target: usize) -> (ok: bool)
    ensures
        ok == (step_a * a + step_b * b == target),
{
    proof {
        assert(step_a * a <= usize::MAX * usize::MAX) by (nonlinear_arith)
            requires
                0 <= step_a <= usize::MAX,
                0 <= a <= usize::MAX,
        ;
        assert(step_b * b <= usize::MAX * usize::MAX) by (nonlinear_arith)
            requires
                0 <= step_b <= usize::MAX,
                0 <= b <= usize::MAX,
        ;
        assert(usize::MAX * usize::MAX <= 0xffff_ffff_ffff_ffff * 0xffff_ffff_ffff_ffff) by (nonlinear_arith)
            requires
                usize::MAX <= 0xffff_ffff_ffff_ffff,
        ;
        assert(0 <= step_a * a) by (nonlinear_arith)
            requires
                0 <= step_a,
                0 <= a,
        ;
        assert(0 <= step_b * b) by (nonlinear_arith)
            requires
                0 <= step_b,
                0 <= b,
        ;
    }
    let first: u128 = (step_a as u128) * (a as u128);
    let second: u128 = (step_b as u128) * (b as u128);
    let goal: u128 = target as u128;
    if first > goal || second > goal {
        false
    } else {
        first + second == goal
    }
}

/// What the claws that can be won cost in all, each at its least cost.
pub fn part1(claws: &Vec<Claw>) -> (total: usize)
    requires
        400 * claws@.len() <= usize::MAX,
    ensures
        total == total_price(claws@, claws@.len() as int),
{
    let mut total: usize = 0;
    let mut i: usize = 0;
    while i < claws.len()
        invariant
            i <= claws@.len(),
            total == total_price(claws@, i as int),
            total <= 400 * i,
            400 * claws@.len() <= usize::MAX,
        decreases claws@.len() - i,
    {
        let claw = &claws[i];
        match claw.part1_tokens() {
            Some(cost) => {
                proof {
                    assert(claw.is_least_cost(cost as int));
                    lemma_least_cost(*claw, cost as int, claw.price());
                }
                total += cost;
            },
            None => {
                proof {
                    if exists|c: int| claw.is_least_cost(c) {
                        let c = choose|c: int| claw.is_least_cost(c);
                        let (a, b) = choose|a: int, b: int| #[trigger] claw.wins(100, a, b, c);
                        assert(claw.hits(a, b));
                    }
                }
            },
        }
        i += 1;
    }
    total
}

} // verus!
