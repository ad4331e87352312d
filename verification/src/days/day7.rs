//! Calibrations: a row of values, and operators to be put between them so
//! that the row, worked out from left to right, gives a wanted total.

use vstd::prelude::*;
use crate::text::{
    chars_of, fits_usize, number_of, numbers_usize, parse_usize, pieces_of, rows, split, words, words_of,
};
use crate::days::day11::{count_digits, digits, lemma_pow10_grows, pow10};

verus! {

pub struct Calibration {
    pub total: usize,
    pub values: Vec<usize>,
}

/// `out` is the calibration that a line of text describes: the total, a
/// colon and a blank, and the values with white space between them.
pub open spec fn of_line(line: Seq<char>, out: Option<Calibration>) -> bool {
    let parts = pieces_of(line, ": "@);
    if parts.len() == 2 && fits_usize(parts[0]) && forall|i: int|
        0 <= i < words_of(parts[1]).len() ==> fits_usize(#[trigger] words_of(parts[1])[i]) {
        &&& out matches Some(cal)
        &&& cal.total == number_of(parts[0])
        &&& cal.values@.len() == words_of(parts[1]).len()
        &&& forall|i: int|
            0 <= i < cal.values@.len() ==> #[trigger] cal.values@[i] == number_of(words_of(parts[1])[i])
    } else {
        out is None
    }
}

impl Calibration {
    /// The calibration that a line of text describes, if it describes one.
    pub fn from_text(line: &Vec<char>) -> (out: Option<Calibration>)
        ensures
            of_line(line@, out),
    {
        let sep = chars_of(": ");
        let parts = split(line, &sep);
        proof {
            assert(rows(parts@).len() == parts@.len());
        }
        if parts.len() != 2 {
            return None;
        }
        proof {
            assert(rows(parts@)[0] == parts@[0]@);
            assert(rows(parts@)[1] == parts@[1]@);
        }
        let total = match parse_usize(&parts[0]) {
            Some(total) => total,
            None => {
                return None;
            },
        };
        let texts = words(&parts[1]);
        proof {
            assert(rows(texts@).len() == texts@.len());
            assert forall|i: int| 0 <= i < texts@.len() implies rows(texts@)[i] == (#[trigger] texts@[i])@ by {}
        }
        let values = match numbers_usize(&texts) {
            Some(values) => values,
            None => {
                proof {
                    let i = choose|i: int| 0 <= i < texts@.len() && !fits_usize((#[trigger] texts@[i])@);
                    assert(!fits_usize(rows(texts@)[i]));
                }
                return None;
            },
        };
        proof {
            assert forall|i: int| 0 <= i < texts@.len() implies fits_usize(#[trigger] rows(texts@)[i]) by {
                assert(fits_usize(texts@[i]@));
            }
        }
        Some(Calibration { total, values })
    }
}

/// The number of digits with which a number is written; one for zero.
pub open spec fn width(v: nat) -> nat {
    if v == 0 {
        1
    } else {
        digits(v)
    }
}

/// What an operator makes of the value so far and the next value: `+`
/// adds, `*` multiplies, `|` writes the one behind the other.
pub open spec fn apply(op: char, acc: int, v: int) -> int {
    if op == '+' {
        acc + v
    } else if op == '*' {
        acc * v
    } else {
        acc * pow10(width(v as nat)) + v
    }
}

/// The character is one of the three operators.
pub open spec fn is_operator(op: char) -> bool {
    op == '+' || op == '*' || op == '|'
}

/// The value of the row after the first `n` operators were applied.
pub open spec fn eval_upto(values: Seq<usize>, ops: Seq<char>, n: int) -> int
    decreases n,
{
    if n <= 0 {
        values[0] as int
    } else {
        apply(ops[n - 1], eval_upto(values, ops, n - 1), values[n] as int)
    }
}

/// How many operators are applied: as many as there are, but no more than
/// there are gaps between the values.
pub open spec fn steps(values: Seq<usize>, ops: Seq<char>) -> int {
    if ops.len() < values.len() - 1 {
        ops.len() as int
    } else {
        values.len() - 1
    }
}

/// No value on the way is too large to hold.
pub open spec fn evaluable(values: Seq<usize>, ops: Seq<char>) -> bool {
    forall|n: int| 0 <= n <= steps(values, ops) ==> 0 <= #[trigger] eval_upto(values, ops, n) <= usize::MAX
}

/// What an operator makes of two values, if that is not too large to hold.
pub fn apply_checked(op: char, acc: usize, v: usize) -> (out: Option<usize>)
    requires
        is_operator(op),
    ensures
        match out {
            Some(r) => r == apply(op, acc as int, v as int),
            None => apply(op, acc as int, v as int) > usize::MAX,
        },
{
    if op == '+' {
        acc.checked_add(v)
    } else if op == '*' {
        acc.checked_mul(v)
    } else {
        let w = if v == 0 {
            1
        } else {
            count_digits(v)
        };
        // Ten to the power w, as long as it can be held.
        let mut shift: usize = 1;
        let mut i: u32 = 0;
        while i < w
            invariant
                i <= w,
                shift == pow10(i as nat),
                w == width(v as nat),
                op != '+',
                op != '*',
            decreases w - i,
        {
            match shift.checked_mul(10) {
                Some(next) => {
                    shift = next;
                },
                None => {
                    proof {
                        lemma_pow10_grows((i + 1) as nat, w as nat);
                        if acc > 0 {
                            assert(acc * pow10(w as nat) >= pow10(w as nat)) by (nonlinear_arith)
                                requires
                                    acc >= 1,
                                    pow10(w as nat) >= 0,
                            ;
                        }
                    }
                    if acc == 0 {
                        proof {
                            assert(acc * pow10(w as nat) == 0) by (nonlinear_arith)
                                requires
                                    acc == 0,
                            ;
                        }
                        return Some(v);
                    }
                    return None;
                },
            }
            i += 1;
        }
        match acc.checked_mul(shift) {
            None => None,
            Some(high) => high.checked_add(v),
        }
    }
}

impl Calibration {
    /// The value of the row with the operators put between its values.
    pub fn eval(&self, ops: &Vec<char>) -> (out: usize)
        requires
            self.values@.len() >= 1,
            forall|i: int| 0 <= i < ops@.len() ==> is_operator(#[trigger] ops@[i]),
            evaluable(self.values@, ops@),
        ensures
            out == eval_upto(self.values@, ops@, steps(self.values@, ops@)),
    {
        let mut acc = self.values[0];
        let mut i: usize = 0;
        while i < ops.len() && i + 1 < self.values.len()
            invariant
                i <= steps(self.values@, ops@),
                self.values@.len() >= 1,
                forall|k: int| 0 <= k < ops@.len() ==> is_operator(#[trigger] ops@[k]),
                evaluable(self.values@, ops@),
                acc == eval_upto(self.values@, ops@, i as int),
            decreases ops@.len() - i,
        {
            assert(0 <= eval_upto(self.values@, ops@, i + 1) <= usize::MAX);
            match apply_checked(ops[i], acc, self.values[i + 1]) {
                Some(next) => {
                    acc = next;
                },
                None => {},
            }
            i += 1;
        }
        acc
    }
}

/// Operators from the list can be put into the gaps from the `n`-th on so
/// that the row, which has the value `acc` so far, comes to the total, no
/// value on the way being too large to hold.
pub open spec fn reachable(values: Seq<usize>, ops: Seq<char>, n: int, acc: int, total: int) -> bool
    decreases values.len() - n, ops.len() + 1,
{
    if n >= values.len() {
        acc == total
    } else {
        reachable_with(values, ops, n, acc, total, ops.len() as int)
    }
}

/// As `reachable`, with one of the first `k` operators of the list in the
/// `n`-th gap.
pub open spec fn reachable_with(
    values: Seq<usize>,
    ops: Seq<char>,
    n: int,
    acc: int,
    total: int,
    k: int,
) -> bool
    decreases values.len() - n, k,
{
    if k <= 0 || n >= values.len() {
        false
    } else {
        reachable_with(values, ops, n, acc, total, k - 1) || (apply(ops[k - 1], acc, values[n] as int)
            <= usize::MAX && reachable(
            values,
            ops,
            n + 1,
            apply(ops[k - 1], acc, values[n] as int),
            total,
        ))
    }
}

/// Whether operators from the list can be put into the gaps from the `n`-th
/// on so that the row comes to the total.
fn search(values: &Vec<usize>, ops: &Vec<char>, n: usize, acc: usize, total: usize) -> (found: bool)
    requires
        1 <= n <= values@.len(),
        forall|i: int| 0 <= i < ops@.len() ==> is_operator(#[trigger] ops@[i]),
    ensures
        found == reachable(values@, ops@, n as int, acc as int, total as int),
    decreases values@.len() - n,
{
    if n >= values.len() {
        return acc == total;
    }
    let mut k: usize = 0;
    while k < ops.len()
        invariant
            k <= ops@.len(),
            1 <= n < values@.len() <= usize::MAX,
            forall|i: int| 0 <= i < ops@.len() ==> is_operator(#[trigger] ops@[i]),
            !reachable_with(values@, ops@, n as int, acc as int, total as int, k as int),
        decreases ops@.len() - k,
    {
        match apply_checked(ops[k], acc, values[n]) {
            Some(next) => {
                if search(values, ops, n + 1, next, total) {
                    assert(reachable_with(values@, ops@, n as int, acc as int, total as int, k + 1));
                    proof {
                        lemma_reachable_with_grows(
                            values@,
                            ops@,
                            n as int,
                            acc as int,
                            total as int,
                            k + 1,
                            ops@.len() as int,
                        );
                    }
                    return true;
                }
            },
            None => {},
        }
        k += 1;
    }
    false
}

/// What can be reached with the first `j` operators can be reached with more of them.
pub proof fn lemma_reachable_with_grows(
    values: Seq<usize>,
    ops: Seq<char>,
    n: int,
    acc: int,
    total: int,
    j: int,
    k: int,
)
    requires
        0 <= j <= k,
        reachable_with(values, ops, n, acc, total, j),
    ensures
        reachable_with(values, ops, n, acc, total, k),
    decreases k,
{
    if j < k {
        lemma_reachable_with_grows(values, ops, n, acc, total, j, k - 1);
    }
}

/// The calibration can be made true with operators from the list.
pub open spec fn can_be_true(cal: Calibration, ops: Seq<char>) -> bool {
    reachable(cal.values@, ops, 1, cal.values@[0] as int, cal.total as int)
}

/// The sum of the totals of those of the first `n` calibrations that can be
/// made true.
pub open spec fn true_totals(calibrations: Seq<Calibration>, ops: Seq<char>, n: int) -> int
    decreases n,
{
    if n <= 0 {
        0
    } else {
        true_totals(calibrations, ops, n - 1) + if can_be_true(calibrations[n - 1], ops) {
            calibrations[n - 1].total as int
        } else {
            0
        }
    }
}

/// The sum of the totals that come true grows with the calibrations counted.
pub proof fn lemma_true_totals_grow(calibrations: Seq<Calibration>, ops: Seq<char>, m: int, n: int)
    requires
        0 <= m <= n,
    ensures
        0 <= true_totals(calibrations, ops, m) <= true_totals(calibrations, ops, n),
    decreases n,
{
    if n > 0 {
        if m < n {
            lemma_true_totals_grow(calibrations, ops, m, n - 1);
        } else {
            lemma_true_totals_grow(calibrations, ops, m - 1, n - 1);
        }
    }
}

/// The sum of the totals of the calibrations that can be made true with
/// operators from the list.
pub fn solve(calibrations: &Vec<Calibration>, ops: Vec<char>) -> (solution: usize)
    requires
        forall|i: int| 0 <= i < calibrations@.len() ==> (#[trigger] calibrations@[i]).values@.len() >= 1,
        forall|i: int| 0 <= i < ops@.len() ==> is_operator(#[trigger] ops@[i]),
        true_totals(calibrations@, ops@, calibrations@.len() as int) <= usize::MAX,
    ensures
        solution == true_totals(calibrations@, ops@, calibrations@.len() as int),
{
    let mut solution: usize = 0;
    let mut i: usize = 0;
    while i < calibrations.len()
        invariant
            i <= calibrations@.len(),
            forall|k: int|
                0 <= k < calibrations@.len() ==> (#[trigger] calibrations@[k]).values@.len() >= 1,
            forall|k: int| 0 <= k < ops@.len() ==> is_operator(#[trigger] ops@[k]),
            true_totals(calibrations@, ops@, calibrations@.len() as int) <= usize::MAX,
            solution == true_totals(calibrations@, ops@, i as int),
        decreases calibrations@.len() - i,
    {
        let c = &calibrations[i];
        proof {
            lemma_true_totals_grow(calibrations@, ops@, i + 1, calibrations@.len() as int);
        }
        if search(&c.values, &ops, 1, c.values[0], c.total) {
            solution = solution + c.total;
        }
        i += 1;
    }
    solution
}

} // verus!
