//! Towels: a design is a row of stripes, and is to be laid out from towels
//! of given patterns, one after the other.

use vstd::prelude::*;

verus! {

/// The pattern lies in the design from position `from` on.
pub open spec fn lies_at(pattern: Seq<char>, design: Seq<char>, from: int) -> bool {
    &&& 0 <= from
    &&& from + pattern.len() <= design.len()
    &&& forall|i: int| 0 <= i < pattern.len() ==> #[trigger] design[from + i] == pattern[i]
}

/// In how many ways the design from position `from` on can be laid out,
/// beginning with one of the first `n` patterns.
pub open spec fn ways_with(patterns: Seq<Vec<char>>, design: Seq<char>, from: int, n: int) -> nat
    decreases design.len() - from, n,
{
    if n <= 0 || from < 0 || from >= design.len() {
        0
    } else {
        let p = patterns[n - 1]@;
        ways_with(patterns, design, from, n - 1) + if p.len() > 0 && lies_at(p, design, from) {
            ways(patterns, design, from + p.len())
        } else {
            0
        }
    }
}

/// In how many ways the design from position `from` on can be laid out.
pub open spec fn ways(patterns: Seq<Vec<char>>, design: Seq<char>, from: int) -> nat
    decreases design.len() - from, patterns.len() + 1,
{
    if from < 0 || from > design.len() {
        0
    } else if from == design.len() {
        1
    } else {
        ways_with(patterns, design, from, patterns.len() as int)
    }
}

/// Whether the pattern lies in the design from position `from` on.
fn matches_at(pattern: &Vec<char>, design: &Vec<char>, from: usize) -> (found: bool)
    requires
        from <= design@.len(),
    ensures
        found == lies_at(pattern@, design@, from as int),
{
    if pattern.len() > design.len() - from {
        return false;
    }
    let mut i: usize = 0;
    while i < pattern.len()
        invariant
            i <= pattern@.len(),
            from + pattern@.len() <= design@.len() <= usize::MAX,
            forall|j: int| 0 <= j < i ==> #[trigger] design@[from + j] == pattern@[j],
        decreases pattern@.len() - i,
    {
        if design[from + i] != pattern[i] {
            return false;
        }
        i += 1;
    }
    true
}

/// The number of ways grows with the patterns tried.
pub proof fn lemma_ways_with_grows(patterns: Seq<Vec<char>>, design: Seq<char>, from: int, m: int, n: int)
    requires
        0 <= m <= n,
    ensures
        ways_with(patterns, design, from, m) <= ways_with(patterns, design, from, n),
    decreases n,
{
    if m < n {
        lemma_ways_with_grows(patterns, design, from, m, n - 1);
    }
}

/// The numbers of ways for all the positions of the design fit in `usize`.
pub open spec fn countable(patterns: Seq<Vec<char>>, design: Seq<char>) -> bool {
    forall|from: int| 0 <= from <= design.len() ==> #[trigger] ways(patterns, design, from) <= usize::MAX
}

/// In how many ways the design can be laid out from towels of the
/// patterns. `None` where the number of ways for some position of the
/// design leaves `usize`.
pub fn count_ways(patterns: &Vec<Vec<char>>, design: &Vec<char>) -> (count: Option<usize>)
    ensures
        count is Some <==> countable(patterns@, design@),
        count matches Some(c) ==> c == ways(patterns@, design@, 0),
{
    let n = design.len();
    // table[k] is the number of ways from position n - k on.
    let mut table: Vec<usize> = Vec::new();
    table.push(1);
    let mut from: usize = n;
    while from > 0
        invariant
            from <= n,
            n == design@.len(),
            table@.len() == n - from + 1,
            forall|j: int|
                0 <= j <= n - from ==> #[trigger] table@[j] == ways(patterns@, design@, n - j),
        decreases from,
    {
        from -= 1;
        let k = n - from;
        let mut sum: usize = 0;
        let mut i: usize = 0;
        while i < patterns.len()
            invariant
                i <= patterns@.len(),
                from == n - k,
                1 <= k <= n,
                n == design@.len(),
                table@.len() == k,
                forall|j: int| 0 <= j < k ==> #[trigger] table@[j] == ways(patterns@, design@, n - j),
                sum == ways_with(patterns@, design@, from as int, i as int),
            decreases patterns@.len() - i,
        {
            let p = &patterns[i];
            if p.len() > 0 && matches_at(p, design, from) {
                let rest = table[k - p.len()];
                assert(rest == ways(patterns@, design@, from + p@.len()));
                sum = match sum.checked_add(rest) {
                    Some(sum) => sum,
                    None => {
                        proof {
                            lemma_ways_with_grows(
                                patterns@,
                                design@,
                                from as int,
                                i + 1,
                                patterns@.len() as int,
                            );
                            assert(ways(patterns@, design@, from as int) > usize::MAX);
                        }
                        return None;
                    },
                };
            }
            i += 1;
        }
        table.push(sum);
    }
    proof {
        assert forall|at: int| 0 <= at <= design@.len() implies #[trigger] ways(patterns@, design@, at)
            <= usize::MAX by {
            assert(table@[n - at] == ways(patterns@, design@, n - (n - at)));
        }
    }
    Some(table[n])
}

/// In how many ways the design can be laid out from towels of the
/// patterns.
pub fn towel_patterns2(patterns: &Vec<Vec<char>>, design: &Vec<char>) -> (count: usize)
    requires
        countable(patterns@, design@),
    ensures
        count == ways(patterns@, design@, 0),
{
    match count_ways(patterns, design) {
        Some(count) => count,
        None => 0,
    }
}

/// Whether the design from position `from` on can be laid out, beginning
/// with one of the first `n` patterns.
pub open spec fn possible_with(patterns: Seq<Vec<char>>, design: Seq<char>, from: int, n: int) -> bool
    decreases design.len() - from, n,
{
    if n <= 0 || from < 0 || from >= design.len() {
        false
    } else {
        let p = patterns[n - 1]@;
        possible_with(patterns, design, from, n - 1) || (p.len() > 0 && lies_at(p, design, from)
            && possible(patterns, design, from + p.len()))
    }
}

/// Whether the design from position `from` on can be laid out.
pub open spec fn possible(patterns: Seq<Vec<char>>, design: Seq<char>, from: int) -> bool
    decreases design.len() - from, patterns.len() + 1,
{
    if from < 0 || from > design.len() {
        false
    } else if from == design.len() {
        true
    } else {
        possible_with(patterns, design, from, patterns.len() as int)
    }
}

/// Whether the design can be laid out from towels of the patterns.
pub fn towel_patterns1(patterns: &Vec<Vec<char>>, design: &Vec<char>) -> (can: bool)
    ensures
        can == possible(patterns@, design@, 0),
{
    let n = design.len();
    let mut table: Vec<bool> = Vec::new();
    table.push(true);
    let mut from: usize = n;
    while from > 0
        invariant
            from <= n,
            n == design@.len(),
            table@.len() == n - from + 1,
            forall|j: int|
                0 <= j <= n - from ==> #[trigger] table@[j] == possible(patterns@, design@, n - j),
        decreases from,
    {
        from -= 1;
        let k = n - from;
        let mut any = false;
        let mut i: usize = 0;
        while i < patterns.len()
            invariant
                i <= patterns@.len(),
                from == n - k,
                1 <= k <= n,
                n == design@.len(),
                table@.len() == k,
                forall|j: int| 0 <= j < k ==> #[trigger] table@[j] == possible(patterns@, design@, n - j),
                any == possible_with(patterns@, design@, from as int, i as int),
            decreases patterns@.len() - i,
        {
            let p = &patterns[i];
            if p.len() > 0 && matches_at(p, design, from) {
                let rest = table[k - p.len()];
                assert(rest == possible(patterns@, design@, from + p@.len()));
                if rest {
                    any = true;
                }
            }
            i += 1;
        }
        table.push(any);
    }
    table[n]
}

/// How many of the first `n` designs can be laid out.
pub open spec fn possible_upto(patterns: Seq<Vec<char>>, designs: Seq<Vec<char>>, n: int) -> int
    decreases n,
{
    if n <= 0 {
        0
    } else {
        possible_upto(patterns, designs, n - 1) + if possible(patterns, designs[n - 1]@, 0) {
            1int
        } else {
            0int
        }
    }
}

/// How many of the designs can be laid out.
pub fn part1(patterns: &Vec<Vec<char>>, designs: &Vec<Vec<char>>) -> (count: usize)
    ensures
        count == possible_upto(patterns@, designs@, designs@.len() as int),
{
    let mut count: usize = 0;
    let mut i: usize = 0;
    while i < designs.len()
        invariant
            i <= designs@.len(),
            count <= i,
            count == possible_upto(patterns@, designs@, i as int),
        decreases designs@.len() - i,
    {
        if towel_patterns1(patterns, &designs[i]) {
            count += 1;
        }
        i += 1;
    }
    count
}

/// In how many ways the first `n` designs can be laid out, taken together.
pub open spec fn ways_upto(patterns: Seq<Vec<char>>, designs: Seq<Vec<char>>, n: int) -> int
    decreases n,
{
    if n <= 0 {
        0
    } else {
        ways_upto(patterns, designs, n - 1) + ways(patterns, designs[n - 1]@, 0)
    }
}

/// The number of ways grows with the designs counted.
pub proof fn lemma_ways_upto_grows(patterns: Seq<Vec<char>>, designs: Seq<Vec<char>>, m: int, n: int)
    requires
        0 <= m <= n,
    ensures
        0 <= ways_upto(patterns, designs, m) <= ways_upto(patterns, designs, n),
    decreases n,
{
    if n > 0 {
        if m < n {
            lemma_ways_upto_grows(patterns, designs, m, n - 1);
        } else {
            lemma_ways_upto_grows(patterns, designs, m - 1, n - 1);
        }
    }
}

/// In how many ways the designs can be laid out, taken together.
pub fn part2(patterns: &Vec<Vec<char>>, designs: &Vec<Vec<char>>) -> (sum: usize)
    requires
        forall|i: int| 0 <= i < designs@.len() ==> countable(patterns@, (#[trigger] designs@[i])@),
        ways_upto(patterns@, designs@, designs@.len() as int) <= usize::MAX,
    ensures
        sum == ways_upto(patterns@, designs@, designs@.len() as int),
{
    let mut sum: usize = 0;
    let mut i: usize = 0;
    while i < designs.len()
        invariant
            i <= designs@.len(),
            forall|k: int| 0 <= k < designs@.len() ==> countable(patterns@, (#[trigger] designs@[k])@),
            ways_upto(patterns@, designs@, designs@.len() as int) <= usize::MAX,
            sum == ways_upto(patterns@, designs@, i as int),
        decreases designs@.len() - i,
    {
        proof {
            lemma_ways_upto_grows(patterns@, designs@, i + 1, designs@.len() as int);
        }
        sum = sum + towel_patterns2(patterns, &designs[i]);
        i += 1;
    }
    sum
}

/// In how many ways the designs can be laid out, taken together. `None`
/// where a number of ways, or their sum, leaves `usize`.
pub fn count_all_ways(patterns: &Vec<Vec<char>>, designs: &Vec<Vec<char>>) -> (sum: Option<usize>)
    ensures
        sum is Some <==> (forall|i: int|
            0 <= i < designs@.len() ==> countable(patterns@, (#[trigger] designs@[i])@)) && ways_upto(
            patterns@,
            designs@,
            designs@.len() as int,
        ) <= usize::MAX,
        sum matches Some(s) ==> s == ways_upto(patterns@, designs@, designs@.len() as int),
{
    let mut sum: usize = 0;
    let mut i: usize = 0;
    while i < designs.len()
        invariant
            i <= designs@.len(),
            forall|k: int| 0 <= k < i ==> countable(patterns@, (#[trigger] designs@[k])@),
            sum == ways_upto(patterns@, designs@, i as int),
        decreases designs@.len() - i,
    {
        let ways = match count_ways(patterns, &designs[i]) {
            Some(ways) => ways,
            None => {
                return None;
            },
        };
        sum = match sum.checked_add(ways) {
            Some(sum) => sum,
            None => {
                proof {
                    lemma_ways_upto_grows(patterns@, designs@, i + 1, designs@.len() as int);
                }
                return None;
            },
        };
        i += 1;
    }
    Some(sum)
}

/// A design can be laid out exactly if it can be laid out in one way at
/// least.
pub proof fn lemma_possible_is_some_way(patterns: Seq<Vec<char>>, design: Seq<char>, from: int)
    ensures
        possible(patterns, design, from) <==> ways(patterns, design, from) > 0,
    decreases design.len() - from, patterns.len() + 1,
{
    if 0 <= from < design.len() {
        lemma_possible_with_is_some_way(patterns, design, from, patterns.len() as int);
    }
}

/// A design can be begun with one of the first `n` patterns exactly if it can be so
/// laid out in one way at least.
pub proof fn lemma_possible_with_is_some_way(
    patterns: Seq<Vec<char>>,
    design: Seq<char>,
    from: int,
    n: int,
)
    requires
        0 <= n <= patterns.len(),
        0 <= from < design.len(),
    ensures
        possible_with(patterns, design, from, n) <==> ways_with(patterns, design, from, n) > 0,
    decreases design.len() - from, n,
{
    if n > 0 {
        lemma_possible_with_is_some_way(patterns, design, from, n - 1);
        let p = patterns[n - 1]@;
        if p.len() > 0 && lies_at(p, design, from) {
            lemma_possible_is_some_way(patterns, design, from + p.len());
        }
    }
}

} // verus!
