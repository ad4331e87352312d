//! Stones with numbers that change at every blink.

use vstd::prelude::*;
use vstd::std_specs::hash::*;
use vstd::std_specs::iter::IteratorSpec;

use std::collections::HashMap;

verus! {

/// Ten to the power `n`.
pub open spec fn pow10(n: nat) -> nat
    decreases n,
{
    if n == 0 {
        1
    } else {
        10 * pow10((n - 1) as nat)
    }
}

/// The number of decimal digits of `v`; none for zero.
pub open spec fn digits(v: nat) -> nat
    decreases v,
{
    if v == 0 {
        0
    } else {
        1 + digits(v / 10)
    }
}

/// The stones that a stone with the number `v` turns into: zero becomes
/// one; a number with an even count of digits is split into its halves; any
/// other number is multiplied by 2024.
pub open spec fn next_model(v: nat) -> Seq<nat> {
    if v == 0 {
        seq![1nat]
    } else if digits(v) % 2 == 0 {
        seq![v / pow10(digits(v) / 2), v % pow10(digits(v) / 2)]
    } else {
        seq![v * 2024]
    }
}

/// A power of ten is above nought.
pub proof fn lemma_pow10_positive(n: nat)
    ensures
        pow10(n) > 0,
    decreases n,
{
    if n > 0 {
        lemma_pow10_positive((n - 1) as nat);
    }
}

/// The number of decimal digits of `v`.
pub fn count_digits(v: usize) -> (count: u32)
    ensures
        count == digits(v as nat),
        count <= 20,
{
    let mut rest = v;
    let mut count: u32 = 0;
    let ghost mut powers: nat = 1;
    while rest > 0
        invariant
            count + digits(rest as nat) == digits(v as nat),
            powers == pow10(count as nat),
            rest * powers <= v,
            count <= 20,
            rest > 0 ==> count < 20,
        decreases rest,
    {
        proof {
            assert(rest / 10 * (powers * 10) <= rest * powers) by (nonlinear_arith)
                requires
                    rest >= 0,
                    powers >= 0,
            ;
            lemma_pow10_bound(count as nat);
            if rest / 10 > 0 {
                assert(powers * 10 <= rest / 10 * (powers * 10)) by (nonlinear_arith)
                    requires
                        rest / 10 >= 1,
                        powers >= 0,
                ;
                if count + 1 >= 20 {
                    lemma_pow10_bound(20);
                    assert(pow10(20) == 100000000000000000000nat) by {
                        reveal_with_fuel(pow10, 21);
                    }
                    lemma_pow10_grows(20, (count + 1) as nat);
                }
            }
            powers = powers * 10;
        }
        rest = rest / 10;
        count += 1;
    }
    count
}

/// A power of ten is one at least.
pub proof fn lemma_pow10_bound(n: nat)
    ensures
        pow10(n) >= 1,
    decreases n,
{
    if n > 0 {
        lemma_pow10_bound((n - 1) as nat);
    }
}

/// The powers of ten rise.
pub proof fn lemma_pow10_grows(m: nat, n: nat)
    requires
        m <= n,
    ensures
        pow10(m) <= pow10(n),
    decreases n,
{
    lemma_pow10_bound(m);
    if m < n {
        lemma_pow10_grows(m, (n - 1) as nat);
    }
}

/// Ten to the power `n`, for a power that fits.
pub fn power_of_ten(n: u32) -> (p: usize)
    requires
        pow10(n as nat) <= usize::MAX,
    ensures
        p == pow10(n as nat),
{
    let mut p: usize = 1;
    let mut i: u32 = 0;
    while i < n
        invariant
            i <= n,
            p == pow10(i as nat),
            pow10(n as nat) <= usize::MAX,
        decreases n - i,
    {
        proof {
            lemma_pow10_grows((i + 1) as nat, n as nat);
        }
        p = p * 10;
        i += 1;
    }
    p
}

/// A number with `2 * h` digits is at least ten to the power `h`.
pub proof fn lemma_digits_floor(v: nat)
    requires
        v > 0,
    ensures
        pow10((digits(v) - 1) as nat) <= v,
    decreases v,
{
    if v >= 10 {
        lemma_digits_floor(v / 10);
        assert(10 * (v / 10) <= v);
        assert(digits(v) == 1 + digits(v / 10));
        assert(digits(v / 10) >= 1);
        assert(pow10((digits(v) - 1) as nat) == 10 * pow10((digits(v / 10) - 1) as nat));
    } else {
        assert(digits(v / 10) == 0);
        assert(digits(v) == 1);
        assert(pow10(0) == 1);
    }
}

/// The stones that a stone with the number `v` turns into.
pub fn next_stones(v: usize) -> (out: Vec<usize>)
    requires
        digits(v as nat) % 2 == 1 ==> v * 2024 <= usize::MAX,
    ensures
        out@.len() == next_model(v as nat).len(),
        forall|i: int| 0 <= i < out@.len() ==> #[trigger] out@[i] == next_model(v as nat)[i],
{
    let mut out: Vec<usize> = Vec::new();
    if v == 0 {
        out.push(1);
    } else {
        let l = count_digits(v);
        if l % 2 == 0 {
            proof {
                lemma_digits_floor(v as nat);
                lemma_pow10_grows((l / 2) as nat, (l - 1) as nat);
            }
            let s = power_of_ten(l / 2);
            proof {
                lemma_pow10_positive((l / 2) as nat);
            }
            out.push(v / s);
            out.push(v % s);
        } else {
            out.push(v * 2024);
        }
    }
    out
}

/// The stones after one blink, up to the first `n` of the stones before.
pub open spec fn blink_model(stones: Seq<usize>, n: int) -> Seq<nat>
    decreases n,
{
    if n <= 0 {
        Seq::empty()
    } else {
        blink_model(stones, n - 1) + next_model(stones[n - 1] as nat)
    }
}

/// No stone would be given a number too large to hold.
pub open spec fn blinkable(stones: Seq<usize>) -> bool {
    forall|i: int|
        0 <= i < stones.len() && digits((#[trigger] stones[i]) as nat) % 2 == 1 ==> stones[i] * 2024
            <= usize::MAX
}

/// The stones after one blink.
pub fn blink(stones: Vec<usize>) -> (out: Vec<usize>)
    requires
        blinkable(stones@),
    ensures
        out@.len() == blink_model(stones@, stones@.len() as int).len(),
        forall|i: int|
            0 <= i < out@.len() ==> #[trigger] out@[i] == blink_model(stones@, stones@.len() as int)[i],
{
    let mut out: Vec<usize> = Vec::new();
    let mut i: usize = 0;
    while i < stones.len()
        invariant
            i <= stones@.len(),
            blinkable(stones@),
            out@.len() == blink_model(stones@, i as int).len(),
            forall|j: int| 0 <= j < out@.len() ==> #[trigger] out@[j] == blink_model(stones@, i as int)[j],
        decreases stones@.len() - i,
    {
        let next = next_stones(stones[i]);
        let ghost base = out@;
        let mut k: usize = 0;
        while k < next.len()
            invariant
                k <= next@.len(),
                out@.len() == base.len() + k,
                forall|j: int| 0 <= j < base.len() ==> #[trigger] out@[j] == base[j],
                forall|j: int| 0 <= j < k ==> #[trigger] out@[base.len() + j] == next@[j],
            decreases next@.len() - k,
        {
            out.push(next[k]);
            k += 1;
        }
        proof {
            let before = blink_model(stones@, i as int);
            let after = blink_model(stones@, i + 1);
            assert(after == before + next_model(stones@[i as int] as nat));
            assert forall|j: int| 0 <= j < out@.len() implies #[trigger] out@[j] == after[j] by {
                if j < base.len() {
                    assert(out@[j] == base[j]);
                } else {
                    assert(out@[base.len() + (j - base.len())] == next@[j - base.len()]);
                }
            }
        }
        i += 1;
    }
    out
}

/// How many of the stones that a stone with the number `num` becomes bear
/// the number `v`.
pub open spec fn born(num: usize, v: usize) -> nat {
    let next = next_model(num as nat);
    (if next.len() > 0 && next[0] == v {
        1nat
    } else {
        0nat
    }) + (if next.len() > 1 && next[1] == v {
        1nat
    } else {
        0nat
    })
}

/// How many stones bear the number `v` after a blink, counting the stones
/// of the first `n` entries of a list of numbers with their counts.
pub open spec fn total(order: Seq<(usize, usize)>, n: int, v: usize) -> int
    decreases n,
{
    if n <= 0 {
        0
    } else {
        total(order, n - 1, v) + order[n - 1].1 * born(order[n - 1].0, v)
    }
}

/// Some stone of the first `n` entries becomes a stone with the number `v`.
pub open spec fn fed(order: Seq<(usize, usize)>, n: int, v: usize) -> bool {
    exists|i: int| 0 <= i < n && born(#[trigger] order[i].0, v) > 0
}

/// The list holds every entry of the table once.
pub open spec fn lists(order: Seq<(usize, usize)>, table: Map<usize, usize>) -> bool {
    order.no_duplicates() && order.to_set() == table.kv_pairs()
}

/// The table counts the stones after a blink of the stones of the first `n`
/// entries.
pub open spec fn counted(order: Seq<(usize, usize)>, n: int, table: Map<usize, usize>) -> bool {
    forall|v: usize|
        (#[trigger] table.contains_key(v) <==> fed(order, n, v)) && (table.contains_key(v) ==> table[v]
            == total(order, n, v))
}

/// The count of the stones that bear a number grows with the entries counted.
pub proof fn lemma_total_grows(order: Seq<(usize, usize)>, m: int, n: int, v: usize)
    requires
        0 <= m <= n,
    ensures
        0 <= total(order, m, v) <= total(order, n, v),
    decreases n,
{
    if n > 0 {
        if m < n {
            lemma_total_grows(order, m, n - 1, v);
        } else {
            lemma_total_grows(order, m - 1, n - 1, v);
        }
        assert(order[n - 1].1 * born(order[n - 1].0, v) >= 0) by (nonlinear_arith)
            requires
                order[n - 1].1 >= 0,
                born(order[n - 1].0, v) >= 0,
        ;
    }
}

/// Where no stone becomes one with the number `v`, none bears it.
pub proof fn lemma_unfed(order: Seq<(usize, usize)>, n: int, v: usize)
    requires
        !fed(order, n, v),
        n <= order.len(),
    ensures
        total(order, n, v) == 0,
    decreases n,
{
    if n > 0 {
        assert(!fed(order, n - 1, v)) by {
            if fed(order, n - 1, v) {
                let i = choose|i: int| 0 <= i < n - 1 && born(#[trigger] order[i].0, v) > 0;
                assert(0 <= i < n && born(order[i].0, v) > 0);
            }
        }
        lemma_unfed(order, n - 1, v);
        assert(born(order[n - 1].0, v) == 0);
    }
}

/// Adds `count` stones with the number `v` to the table, and tells whether
/// it did: it does not where the count leaves `usize`.
fn add_stones(table: &mut HashMap<usize, usize>, v: usize, count: usize) -> (ok: bool)
    ensures
        ok ==> final(table)@ == old(table)@.insert(
            v,
            (if old(table)@.contains_key(v) {
                old(table)@[v] + count
            } else {
                count as int
            }) as usize,
        ) && (if old(table)@.contains_key(v) {
            old(table)@[v] + count
        } else {
            count as int
        }) <= usize::MAX,
        !ok ==> *final(table) == *old(table) && old(table)@.contains_key(v) && old(table)@[v] + count
            > usize::MAX,
{
    broadcast use vstd::std_specs::hash::group_hash_axioms;

    let before = match table.get(&v) {
        Some(n) => *n,
        None => 0,
    };
    match before.checked_add(count) {
        Some(sum) => {
            table.insert(v, sum);
            true
        },
        None => false,
    }
}

/// How many of the first `k` stones that a stone with the number `num`
/// becomes bear the number `v`.
pub open spec fn born_upto(num: usize, k: int, v: usize) -> int {
    let next = next_model(num as nat);
    (if k > 0 && next.len() > 0 && next[0] == v {
        1int
    } else {
        0int
    }) + (if k > 1 && next.len() > 1 && next[1] == v {
        1int
    } else {
        0int
    })
}

/// The table counts the stones after a blink of the stones of the first `n`
/// entries, and the first `k` of the stones that `count` stones with the
/// number `num` become.
pub open spec fn partly(
    order: Seq<(usize, usize)>,
    n: int,
    num: usize,
    count: usize,
    k: int,
    table: Map<usize, usize>,
) -> bool {
    forall|v: usize|
        (#[trigger] table.contains_key(v) <==> fed(order, n, v) || born_upto(num, k, v) > 0) && (
        table.contains_key(v) ==> table[v] == total(order, n, v) + count * born_upto(num, k, v))
}

/// A stone turns into one stone or two.
pub proof fn lemma_next_len(v: usize)
    ensures
        1 <= next_model(v as nat).len() <= 2,
{
    if v == 0 {
        assert(next_model(v as nat).len() == 1);
    } else if digits(v as nat) % 2 == 0 {
        lemma_pow10_positive(digits(v as nat) / 2);
        assert(next_model(v as nat).len() == 2);
    } else {
        assert(next_model(v as nat).len() == 1);
    }
}

/// A list of borrowed entries without repeats holds no entry twice.
pub proof fn lemma_lists(full: Seq<(&usize, &usize)>)
    requires
        full.no_duplicates(),
    ensures
        full.unref().no_duplicates(),
{
    let order = full.unref();
    assert forall|i: int, j: int| 0 <= i < order.len() && 0 <= j < order.len() && i != j implies order[i]
        != order[j] by {
        if order[i] == order[j] {
            assert(full[i] == full[j]);
        }
    }
}

/// Every number of the table can be blinked at.
pub open spec fn blinkable_counts(table: Map<usize, usize>) -> bool {
    forall|k: usize| #[trigger]
        table.contains_key(k) && digits(k as nat) % 2 == 1 ==> k * 2024 <= usize::MAX
}

/// The stones after one blink, counted by their numbers: every stone of
/// the table gives its count to the numbers that it becomes. `None` where a
/// count leaves `usize`.
pub fn blink2(stones: HashMap<usize, usize>) -> (out: Option<HashMap<usize, usize>>)
    requires
        blinkable_counts(stones@),
    ensures
        exists|order: Seq<(usize, usize)>| #[trigger]
            lists(order, stones@) && match out {
                Some(table) => counted(order, order.len() as int, table@),
                None => exists|v: usize| total(order, order.len() as int, v) > usize::MAX,
            },
{
    broadcast use group_hash_axioms;

    let mut table: HashMap<usize, usize> = HashMap::new();
    let ghost full = spec_hash_map_iter(&stones).remaining();
    let ghost order = full.unref();
    let ghost mut n: int = 0;
    proof {
        axiom_spec_hash_map_iter(&stones);
        assert forall|v: usize| !#[trigger] fed(order, 0, v) by {}
    }
    for (num, count) in it: stones.iter()
        invariant
            it.seq() == full,
            full.no_duplicates(),
            n == it.index(),
            0 <= n <= full.len(),
            order == full.unref(),
            full.unref().to_set() == stones@.kv_pairs(),
            blinkable_counts(stones@),
            counted(order, n, table@),
            forall|i: int| 0 <= i < full.len() ==> stones@.contains_key(*(#[trigger] full[i]).0),
    {
        {
            {
                assert(order[n] == (*num, *count));
                assert(stones@.contains_key(*num));
                let next = next_stones(*num);
                proof {
                    lemma_next_len(*num);
                }
                let mut k: usize = 0;
                while k < next.len()
                    invariant
                        k <= next@.len(),
                        0 <= n < full.len(),
                        order == full.unref(),
                        order[n] == (*num, *count),
                        full.no_duplicates(),
                        full.unref().to_set() == stones@.kv_pairs(),
                        next@.len() == next_model(*num as nat).len(),
                        forall|i: int| 0 <= i < next@.len() ==> #[trigger] next@[i] == next_model(*num as nat)[i],
                        next@.len() <= 2,
                        partly(order, n, *num, *count, k as int, table@),
                    decreases next@.len() - k,
                {
                    let v = next[k];
                    let ghost before = table@;
                    if !add_stones(&mut table, v, *count) {
                        proof {
                            lemma_lists(full);
                            lemma_total_grows(order, n + 1, order.len() as int, v);
                            assert(born(*num, v) >= born_upto(*num, k as int, v) + 1);
                            assert(*count * born(*num, v) >= *count * born_upto(*num, k as int, v) + *count)
                                by (nonlinear_arith)
                                requires
                                    born(*num, v) >= born_upto(*num, k as int, v) + 1,
                                    *count >= 0,
                            ;
                            assert(total(order, n + 1, v) == total(order, n, v) + *count * born(*num, v));
                            assert(total(order, order.len() as int, v) > usize::MAX);
                            assert(lists(order, stones@));
                        }
                        return None;
                    }
                    proof {
                        assert forall|w: usize|
                            (#[trigger] table@.contains_key(w) <==> fed(order, n, w) || born_upto(
                                *num,
                                k + 1,
                                w,
                            ) > 0) && (table@.contains_key(w) ==> table@[w] == total(order, n, w) + *count
                                * born_upto(*num, k + 1, w)) by {
                            assert(before.contains_key(w) <==> fed(order, n, w) || born_upto(*num, k as int, w) > 0);
                            if w == v {
                                assert(born_upto(*num, k + 1, w) == born_upto(*num, k as int, w) + 1);
                                assert(*count * born_upto(*num, k + 1, w) == *count * born_upto(
                                    *num,
                                    k as int,
                                    w,
                                ) + *count) by (nonlinear_arith)
                                    requires
                                        born_upto(*num, k + 1, w) == born_upto(*num, k as int, w) + 1,
                                ;
                                if !before.contains_key(w) {
                                    lemma_unfed(order, n, w);
                                    assert(born_upto(*num, k as int, w) == 0);
                                }
                            } else {
                                assert(born_upto(*num, k + 1, w) == born_upto(*num, k as int, w));
                            }
                        }
                    }
                    k += 1;
                }
                proof {
                    assert forall|w: usize|
                        (#[trigger] table@.contains_key(w) <==> fed(order, n + 1, w)) && (table@.contains_key(w)
                            ==> table@[w] == total(order, n + 1, w)) by {
                        assert(born_upto(*num, k as int, w) == born(*num, w));
                        if fed(order, n + 1, w) {
                            let i = choose|i: int| 0 <= i < n + 1 && born(#[trigger] order[i].0, w) > 0;
                            if i < n {
                                assert(fed(order, n, w));
                            }
                        }
                        if fed(order, n, w) {
                            let i = choose|i: int| 0 <= i < n && born(#[trigger] order[i].0, w) > 0;
                            assert(0 <= i < n + 1 && born(order[i].0, w) > 0);
                        }
                        if born(*num, w) > 0 {
                            assert(born(order[n].0, w) > 0);
                        }
                    }
                    n = n + 1;
                }
            }
        }
    }
    proof {
        lemma_lists(full);
        assert(n == order.len());
        assert(lists(order, stones@));
    }
    Some(table)
}

/// How many of the first `n` stones bear the number `v`.
pub open spec fn bearing(stones: Seq<usize>, n: int, v: usize) -> int
    decreases n,
{
    if n <= 0 {
        0
    } else {
        bearing(stones, n - 1, v) + if stones[n - 1] == v {
            1int
        } else {
            0int
        }
    }
}

/// The count of the stones that bear a number is the count of no more stones than
/// there are, and above nought exactly where a stone bears the number.
pub proof fn lemma_bearing(stones: Seq<usize>, n: int, v: usize)
    requires
        0 <= n <= stones.len(),
    ensures
        0 <= bearing(stones, n, v) <= n,
        bearing(stones, n, v) > 0 <==> exists|i: int| 0 <= i < n && stones[i] == v,
    decreases n,
{
    if n > 0 {
        lemma_bearing(stones, n - 1, v);
        if bearing(stones, n, v) > 0 {
            if stones[n - 1] == v {
            } else {
                let i = choose|i: int| 0 <= i < n - 1 && stones[i] == v;
                assert(0 <= i < n && stones[i] == v);
            }
        }
        if exists|i: int| 0 <= i < n && stones[i] == v {
            let i = choose|i: int| 0 <= i < n && stones[i] == v;
            if i < n - 1 {
                assert(0 <= i < n - 1 && stones[i] == v);
            }
        }
    }
}

/// The stones counted by their numbers: the table holds the numbers that
/// some stone bears, each with the count of the stones that bear it.
pub fn count_stones(stones: &Vec<usize>) -> (table: HashMap<usize, usize>)
    ensures
        forall|v: usize|
            (#[trigger] table@.contains_key(v) <==> bearing(stones@, stones@.len() as int, v) > 0) && (
            table@.contains_key(v) ==> table@[v] == bearing(stones@, stones@.len() as int, v)),
{
    broadcast use group_hash_axioms;

    let mut table: HashMap<usize, usize> = HashMap::new();
    let mut i: usize = 0;
    while i < stones.len()
        invariant
            i <= stones@.len(),
            forall|v: usize|
                (#[trigger] table@.contains_key(v) <==> bearing(stones@, i as int, v) > 0) && (
                table@.contains_key(v) ==> table@[v] == bearing(stones@, i as int, v)),
        decreases stones@.len() - i,
    {
        let v = stones[i];
        let ghost before = table@;
        proof {
            lemma_bearing(stones@, i as int, v);
        }
        let added = add_stones(&mut table, v, 1);
        assert(added);
        proof {
            assert forall|w: usize|
                (#[trigger] table@.contains_key(w) <==> bearing(stones@, i + 1, w) > 0) && (
                table@.contains_key(w) ==> table@[w] == bearing(stones@, i + 1, w)) by {
                lemma_bearing(stones@, i as int, w);
                assert(before.contains_key(w) <==> bearing(stones@, i as int, w) > 0);
            }
        }
        i += 1;
    }
    table
}

/// The sum of the counts of the first `n` entries of a list of numbers
/// with their counts.
pub open spec fn count_sum(order: Seq<(usize, usize)>, n: int) -> int
    decreases n,
{
    if n <= 0 {
        0
    } else {
        count_sum(order, n - 1) + order[n - 1].1
    }
}

/// The sum of the counts grows with the entries counted.
pub proof fn lemma_count_sum_grows(order: Seq<(usize, usize)>, m: int, n: int)
    requires
        0 <= m <= n,
    ensures
        0 <= count_sum(order, m) <= count_sum(order, n),
    decreases n,
{
    if n > 0 {
        if m < n {
            lemma_count_sum_grows(order, m, n - 1);
        } else {
            lemma_count_sum_grows(order, m - 1, n - 1);
        }
    }
}

/// How many stones the table counts: the sum of its counts. `None` where
/// the sum leaves `usize`.
pub fn stone_count(table: &HashMap<usize, usize>) -> (out: Option<usize>)
    ensures
        exists|order: Seq<(usize, usize)>| #[trigger]
            lists(order, table@) && match out {
                Some(sum) => sum == count_sum(order, order.len() as int),
                None => count_sum(order, order.len() as int) > usize::MAX,
            },
{
    broadcast use group_hash_axioms;

    let mut sum: usize = 0;
    let ghost full = spec_hash_map_iter(table).remaining();
    let ghost order = full.unref();
    let ghost mut n: int = 0;
    proof {
        axiom_spec_hash_map_iter(table);
    }
    for (num, count) in it: table.iter()
        invariant
            it.seq() == full,
            full.no_duplicates(),
            n == it.index(),
            0 <= n <= full.len(),
            order == full.unref(),
            full.unref().to_set() == table@.kv_pairs(),
            sum == count_sum(order, n),
    {
        assert(order[n] == (*num, *count));
        sum = match sum.checked_add(*count) {
            Some(sum) => sum,
            None => {
                proof {
                    lemma_lists(full);
                    lemma_count_sum_grows(order, n + 1, order.len() as int);
                    assert(count_sum(order, n + 1) == count_sum(order, n) + *count);
                    assert(lists(order, table@));
                }
                return None;
            },
        };
        proof {
            n = n + 1;
        }
    }
    proof {
        lemma_lists(full);
        assert(n == order.len());
        assert(lists(order, table@));
    }
    Some(sum)
}

} // verus!
