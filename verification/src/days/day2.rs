//! Reports of levels: a report is safe if its levels rise throughout or fall
//! throughout, each time by one, two or three.

use vstd::prelude::*;

verus! {

/// The step from level `i` to the next.
pub open spec fn gap(report: Seq<i32>, i: int) -> int {
    report[i + 1] - report[i]
}

/// Every step goes up by one to three.
pub open spec fn rising(report: Seq<i32>) -> bool {
    forall|i: int| 0 <= i < report.len() - 1 ==> 0 < #[trigger] gap(report, i) < 4
}

/// Every step goes down by one to three.
pub open spec fn falling(report: Seq<i32>) -> bool {
    forall|i: int| 0 <= i < report.len() - 1 ==> -4 < #[trigger] gap(report, i) < 0
}

/// The levels rise or fall all the way, by one, two or three at a step.
pub open spec fn safe(report: Seq<i32>) -> bool {
    rising(report) || falling(report)
}

/// The report with level `i` left out.
pub open spec fn without(report: Seq<i32>, i: int) -> Seq<i32> {
    report.remove(i)
}

/// Leaving out some one level gives a safe report.
pub open spec fn safe_without_one(report: Seq<i32>) -> bool {
    exists|i: int| 0 <= i < report.len() && safe(#[trigger] without(report, i))
}

/// The steps between neighbouring levels.
pub fn deltas(report: &Vec<i32>) -> (out: Vec<i32>)
    requires
        forall|i: int|
            0 <= i < report@.len() - 1 ==> i32::MIN <= #[trigger] gap(report@, i) <= i32::MAX,
    ensures
        out@.len() == if report@.len() == 0 {
            0
        } else {
            report@.len() - 1
        },
        forall|i: int| 0 <= i < out@.len() ==> #[trigger] out@[i] == gap(report@, i),
{
    let mut out: Vec<i32> = Vec::new();
    let mut i: usize = 1;
    while i < report.len()
        invariant
            1 <= i,
            i <= report@.len() || i == 1,
            out@.len() == i - 1,
            forall|j: int| 0 <= j < out@.len() ==> #[trigger] out@[j] == gap(report@, j),
            forall|j: int|
                0 <= j < report@.len() - 1 ==> i32::MIN <= #[trigger] gap(report@, j) <= i32::MAX,
        decreases report@.len() - i,
    {
        assert(i32::MIN <= gap(report@, i - 1) <= i32::MAX);
        out.push(report[i] - report[i - 1]);
        i += 1;
    }
    out
}

/// Whether the report is safe.
pub fn is_safe(report: &Vec<i32>) -> (ok: bool)
    ensures
        ok == safe(report@),
{
    let mut up = true;
    let mut down = true;
    let mut i: usize = 1;
    while i < report.len()
        invariant
            1 <= i,
            i <= report@.len() || i == 1,
            up == forall|j: int| 0 <= j < i - 1 ==> 0 < #[trigger] gap(report@, j) < 4,
            down == forall|j: int| 0 <= j < i - 1 ==> -4 < #[trigger] gap(report@, j) < 0,
        decreases report@.len() - i,
    {
        let step: i64 = report[i] as i64 - report[i - 1] as i64;
        assert(step == gap(report@, i - 1));
        if !(step > 0 && step < 4) {
            up = false;
        }
        if !(step > -4 && step < 0) {
            down = false;
        }
        i += 1;
    }
    up || down
}

/// A copy of the report with level `skip` left out.
fn leave_out(report: &Vec<i32>, skip: usize) -> (out: Vec<i32>)
    requires
        skip < report@.len(),
    ensures
        out@ == without(report@, skip as int),
{
    let mut out: Vec<i32> = Vec::new();
    let mut i: usize = 0;
    while i < report.len()
        invariant
            i <= report@.len(),
            skip < report@.len(),
            out@.len() == if i <= skip {
                i as int
            } else {
                i - 1
            },
            forall|j: int| 0 <= j < out@.len() ==> #[trigger] out@[j] == report@.remove(skip as int)[j],
        decreases report@.len() - i,
    {
        if i != skip {
            out.push(report[i]);
        }
        i += 1;
    }
    assert(out@ =~= report@.remove(skip as int));
    out
}

/// Whether the report becomes safe when some one level is left out.
pub fn is_safe_without_one(report: &Vec<i32>) -> (ok: bool)
    ensures
        ok == safe_without_one(report@),
{
    let mut i: usize = 0;
    while i < report.len()
        invariant
            i <= report@.len(),
            forall|j: int| 0 <= j < i ==> !safe(#[trigger] without(report@, j)),
        decreases report@.len() - i,
    {
        let shorter = leave_out(report, i);
        if is_safe(&shorter) {
            return true;
        }
        i += 1;
    }
    false
}

/// How many reports are safe, and how many are safe with one level left out.
pub fn count_safe(reports: &Vec<Vec<i32>>) -> (counts: (usize, usize))
    ensures
        counts.0 == tally(reports@, reports@.len() as int, false),
        counts.1 == tally(reports@, reports@.len() as int, true),
{
    let mut plain: usize = 0;
    let mut damped: usize = 0;
    let mut i: usize = 0;
    while i < reports.len()
        invariant
            i <= reports@.len(),
            plain == tally(reports@, i as int, false),
            damped == tally(reports@, i as int, true),
            plain <= i,
            damped <= i,
        decreases reports@.len() - i,
    {
        if is_safe(&reports[i]) {
            plain += 1;
        }
        if is_safe_without_one(&reports[i]) {
            damped += 1;
        }
        i += 1;
    }
    (plain, damped)
}

/// How many of the first `n` reports are safe; with `damped`, safe with one
/// level left out.
pub open spec fn tally(reports: Seq<Vec<i32>>, n: int, damped: bool) -> int
    decreases n,
{
    if n <= 0 {
        0
    } else {
        tally(reports, n - 1, damped) + if (if damped {
            safe_without_one(reports[n - 1]@)
        } else {
            safe(reports[n - 1]@)
        }) {
            1int
        } else {
            0int
        }
    }
}

} // verus!
