//! Page ordering rules: a rule `(x, y)` says that page `x` comes before page
//! `y`; an update is valid if every page is followed only by pages that a
//! rule allows after it.

use vstd::prelude::*;
use std::cmp::Ordering;
use std::collections::HashSet;

verus! {

broadcast use vstd::std_specs::hash::group_hash_axioms;

/// The pages that some one of the first `n` rules allows after `rule`.
pub open spec fn followers_upto(rules: Seq<(i32, i32)>, rule: i32, n: int) -> Set<i32> {
    Set::new(|v: i32| exists|j: int| 0 <= j < n && #[trigger] rules[j] == (rule, v))
}

/// The pages that some rule allows after `rule`.
pub open spec fn followers(rules: Seq<(i32, i32)>, rule: i32) -> Set<i32> {
    followers_upto(rules, rule, rules.len() as int)
}

/// Every page after position `pos` is allowed after the page at `pos`.
pub open spec fn right_ok(rules: Seq<(i32, i32)>, update: Seq<i32>, pos: int) -> bool {
    forall|j: int| pos < j < update.len() ==> followers(rules, update[pos]).contains(#[trigger] update[j])
}

/// Every page of the update is followed by allowed pages only.
pub open spec fn valid(rules: Seq<(i32, i32)>, update: Seq<i32>) -> bool {
    forall|i: int| 0 <= i < update.len() ==> #[trigger] right_ok(rules, update, i)
}

/// The pages that a rule wants after the page `rule`.
pub fn match_left(rules: &Vec<(i32, i32)>, rule: i32) -> (out: HashSet<i32>)
    ensures
        out@ == followers(rules@, rule),
{
    let mut out: HashSet<i32> = HashSet::new();
    let mut i: usize = 0;
    while i < rules.len()
        invariant
            i <= rules@.len(),
            out@ == followers_upto(rules@, rule, i as int),
        decreases rules@.len() - i,
    {
        let r = rules[i];
        let ghost before = out@;
        if r.0 == rule {
            out.insert(r.1);
        }
        proof {
            assert forall|v: i32| out@.contains(v) <==> followers_upto(
                rules@,
                rule,
                i + 1,
            ).contains(v) by {
                if followers_upto(rules@, rule, i + 1).contains(v) {
                    let j = choose|j: int| 0 <= j < i + 1 && #[trigger] rules@[j] == (rule, v);
                    if j < i {
                        assert(followers_upto(rules@, rule, i as int).contains(v));
                    }
                }
                if before.contains(v) {
                    let j = choose|j: int| 0 <= j < i && #[trigger] rules@[j] == (rule, v);
                    assert(rules@[j] == (rule, v));
                }
                if r.0 == rule && v == r.1 {
                    assert(rules@[i as int] == (rule, v));
                }
            }
            assert(out@ =~= followers_upto(rules@, rule, i + 1));
        }
        i += 1;
    }
    out
}

/// Whether a rule wants every page behind the place `pos` after the page
/// there.
pub fn check_right(rules: &Vec<(i32, i32)>, update: &Vec<i32>, pos: usize) -> (ok: bool)
    requires
        pos < update@.len(),
    ensures
        ok == right_ok(rules@, update@, pos as int),
{
    let right_rules = match_left(rules, update[pos]);
    let n = update.len();
    let mut j: usize = pos + 1;
    while j < update.len()
        invariant
            pos < j <= update@.len(),
            right_rules@ == followers(rules@, update@[pos as int]),
            forall|k: int| pos < k < j ==> right_rules@.contains(#[trigger] update@[k]),
        decreases update@.len() - j,
    {
        if !right_rules.contains(&update[j]) {
            return false;
        }
        j += 1;
    }
    true
}

/// Whether every page of the update is followed only by pages that a rule
/// wants after it.
pub fn is_valid(rules: &Vec<(i32, i32)>, update: &Vec<i32>) -> (ok: bool)
    ensures
        ok == valid(rules@, update@),
{
    let mut i: usize = 0;
    while i < update.len()
        invariant
            i <= update@.len(),
            forall|k: int| 0 <= k < i ==> #[trigger] right_ok(rules@, update@, k),
        decreases update@.len() - i,
    {
        if !check_right(rules, update, i) {
            return false;
        }
        i += 1;
    }
    true
}

/// Rule `i` orders the pages `a` and `b`, one way or the other.
pub open spec fn orders(rules: Seq<(i32, i32)>, i: int, a: i32, b: i32) -> bool {
    0 <= i < rules.len() && (rules[i] == (a, b) || rules[i] == (b, a))
}

/// Rule `i` is the first that orders `a` and `b`.
pub open spec fn first_ordering(rules: Seq<(i32, i32)>, i: int, a: i32, b: i32) -> bool {
    orders(rules, i, a, b) && forall|j: int| 0 <= j < i ==> !#[trigger] orders(rules, j, a, b)
}

/// Some rule orders `a` and `b`.
pub open spec fn ordered(rules: Seq<(i32, i32)>, a: i32, b: i32) -> bool {
    exists|i: int| orders(rules, i, a, b)
}

/// `a` is to stand before `b`: the first rule that orders the two puts `a`
/// first.
pub open spec fn stands_before(rules: Seq<(i32, i32)>, a: i32, b: i32) -> bool {
    exists|i: int| first_ordering(rules, i, a, b) && rules[i] == (a, b)
}

/// How the first rule that orders `a` and `b` orders them.
pub fn compare(rules: &Vec<(i32, i32)>, a: i32, b: i32) -> (order: Ordering)
    requires
        ordered(rules@, a, b),
    ensures
        order == Ordering::Less <==> stands_before(rules@, a, b),
        order == Ordering::Greater <==> !stands_before(rules@, a, b),
{
    let mut i: usize = 0;
    let ghost mut at: int = 0;
    while i < rules.len()
        invariant
            i <= rules@.len(),
            at == i,
            ordered(rules@, a, b),
            forall|j: int| 0 <= j < at ==> !#[trigger] orders(rules@, j, a, b),
        decreases rules@.len() - i,
    {
        let r = rules[i];
        assert(r == rules@[at]);
        if r.0 == a && r.1 == b {
            assert(first_ordering(rules@, at, a, b));
            return Ordering::Less;
        } else if r.0 == b && r.1 == a {
            assert(first_ordering(rules@, at, a, b));
            assert forall|k: int| first_ordering(rules@, k, a, b) implies rules@[k] != (a, b) by {
                if k < at {
                    assert(!orders(rules@, k, a, b));
                }
                if at < k {
                    assert(orders(rules@, at, a, b));
                }
            }
            return Ordering::Greater;
        }
        proof {
            assert(!orders(rules@, at, a, b));
            at = at + 1;
        }
        i += 1;
    }
    proof {
        let k = choose|k: int| orders(rules@, k, a, b);
        assert(!orders(rules@, k, a, b));
    }
    Ordering::Greater
}

/// Some rule orders every two pages of the update that stand at different
/// places.
pub open spec fn all_ordered(rules: Seq<(i32, i32)>, update: Seq<i32>) -> bool {
    forall|i: int, j: int|
        0 <= i < update.len() && 0 <= j < update.len() && i != j ==> ordered(
            rules,
            #[trigger] update[i],
            #[trigger] update[j],
        )
}

/// The `k`-th page of the list is to stand before the next.
pub open spec fn before_next(rules: Seq<(i32, i32)>, list: Seq<i32>, k: int) -> bool {
    stands_before(rules, list[k], list[k + 1])
}

/// Every page is to stand before the page that follows it.
pub open spec fn in_order(rules: Seq<(i32, i32)>, list: Seq<i32>) -> bool {
    forall|k: int| 0 <= k < list.len() - 1 ==> #[trigger] before_next(rules, list, k)
}

/// Of two pages that a rule orders, one is to stand before the other.
pub proof fn lemma_one_before(rules: Seq<(i32, i32)>, a: i32, b: i32)
    requires
        ordered(rules, a, b),
    ensures
        stands_before(rules, a, b) || stands_before(rules, b, a),
{
    let k = choose|k: int| orders(rules, k, a, b);
    lemma_first_ordering(rules, a, b, k);
    let i = choose|i: int| first_ordering(rules, i, a, b);
    assert(orders(rules, i, b, a));
    assert forall|j: int| 0 <= j < i implies !#[trigger] orders(rules, j, b, a) by {
        assert(!orders(rules, j, a, b));
    }
    assert(first_ordering(rules, i, b, a));
}

/// Where a rule orders two pages, a first rule does.
pub proof fn lemma_first_ordering(rules: Seq<(i32, i32)>, a: i32, b: i32, k: int)
    requires
        orders(rules, k, a, b),
    ensures
        exists|i: int| first_ordering(rules, i, a, b),
    decreases k,
{
    if exists|j: int| 0 <= j < k && orders(rules, j, a, b) {
        let j = choose|j: int| 0 <= j < k && orders(rules, j, a, b);
        lemma_first_ordering(rules, a, b, j);
    } else {
        assert(first_ordering(rules, k, a, b));
    }
}

/// Whether some rule orders the two pages.
pub fn has_rule(rules: &Vec<(i32, i32)>, a: i32, b: i32) -> (found: bool)
    ensures
        found == ordered(rules@, a, b),
{
    let mut i: usize = 0;
    let ghost mut at: int = 0;
    while i < rules.len()
        invariant
            i <= rules@.len(),
            at == i,
            forall|j: int| 0 <= j < at ==> !#[trigger] orders(rules@, j, a, b),
        decreases rules@.len() - i,
    {
        let r = rules[i];
        assert(r == rules@[at]);
        if (r.0 == a && r.1 == b) || (r.0 == b && r.1 == a) {
            assert(orders(rules@, at, a, b));
            return true;
        }
        proof {
            at = at + 1;
        }
        i += 1;
    }
    false
}

/// Whether some rule orders every two pages of the update.
pub fn every_pair_ordered(rules: &Vec<(i32, i32)>, update: &Vec<i32>) -> (all: bool)
    ensures
        all == all_ordered(rules@, update@),
{
    let n = update.len();
    let mut i: usize = 0;
    let ghost mut gi: int = 0;
    while i < n
        invariant
            i <= n,
            gi == i,
            n == update@.len(),
            forall|a: int, b: int|
                0 <= a < gi && 0 <= b < n && a != b ==> ordered(
                    rules@,
                    #[trigger] update@[a],
                    #[trigger] update@[b],
                ),
        decreases n - i,
    {
        let mut j: usize = 0;
        let ghost mut gj: int = 0;
        while j < n
            invariant
                i < n,
                j <= n,
                gi == i,
                gj == j,
                n == update@.len(),
                forall|a: int, b: int|
                    0 <= a < gi && 0 <= b < n && a != b ==> ordered(
                        rules@,
                        #[trigger] update@[a],
                        #[trigger] update@[b],
                    ),
                forall|b: int| 0 <= b < gj && b != gi ==> ordered(rules@, update@[gi], #[trigger] update@[b]),
            decreases n - j,
        {
            if i != j {
                let a = update[i];
                let b = update[j];
                assert(a == update@[gi] && b == update@[gj]);
                if !has_rule(rules, a, b) {
                    return false;
                }
            }
            proof {
                gj = gj + 1;
            }
            j += 1;
        }
        proof {
            gi = gi + 1;
        }
        i += 1;
    }
    true
}

/// The first place from `from` on whose page `x` is to stand before; the
/// length of the list where there is none.
pub open spec fn place_before(rules: Seq<(i32, i32)>, list: Seq<i32>, x: i32, from: int) -> int
    decreases list.len() - from,
{
    if from < 0 || from >= list.len() {
        list.len() as int
    } else if stands_before(rules, x, list[from]) {
        from
    } else {
        place_before(rules, list, x, from + 1)
    }
}

/// The first `n` pages of the update put in order: each page in its turn
/// is put in before the first page that it is to stand before, or at the
/// end.
pub open spec fn arranged(rules: Seq<(i32, i32)>, update: Seq<i32>, n: int) -> Seq<i32>
    decreases n,
{
    if n <= 0 {
        Seq::empty()
    } else {
        let before = arranged(rules, update, n - 1);
        before.insert(place_before(rules, before, update[n - 1], 0), update[n - 1])
    }
}

/// The pages of the update put in order.
pub open spec fn arranged_all(rules: Seq<(i32, i32)>, update: Seq<i32>) -> Seq<i32> {
    arranged(rules, update, update.len() as int)
}

/// A place before which `x` is to stand nowhere, and at which it is to
/// stand before the page there, is the first such place.
pub proof fn lemma_place_before(rules: Seq<(i32, i32)>, list: Seq<i32>, x: i32, from: int, at: int)
    requires
        0 <= from <= at <= list.len(),
        forall|k: int| from <= k < at ==> !stands_before(rules, x, #[trigger] list[k]),
        at < list.len() ==> stands_before(rules, x, list[at]),
    ensures
        place_before(rules, list, x, from) == at,
    decreases at - from,
{
    if from < at {
        assert(!stands_before(rules, x, list[from]));
        lemma_place_before(rules, list, x, from + 1, at);
    }
}

/// The pages of the update in an order in which every page is to stand
/// before the page that follows it. `None` where no rule orders some two
/// pages of the update.
pub fn sorted_by_rules(rules: &Vec<(i32, i32)>, update: &Vec<i32>) -> (out: Option<Vec<i32>>)
    ensures
        match out {
            Some(list) => all_ordered(rules@, update@) && list@.to_multiset() == update@.to_multiset()
                && in_order(rules@, list@) && list@ == arranged_all(rules@, update@),
            None => !all_ordered(rules@, update@),
        },
{
    if !every_pair_ordered(rules, update) {
        return None;
    }
    let n = update.len();
    let mut list: Vec<i32> = Vec::new();
    let ghost mut source: Seq<int> = Seq::empty();
    let mut i: usize = 0;
    let ghost mut gi: int = 0;
    proof {
        assert(update@.take(0) =~= Seq::<i32>::empty());
    }
    while i < n
        invariant
            i <= n,
            gi == i,
            n == update@.len(),
            all_ordered(rules@, update@),
            list@.len() == gi,
            source.len() == gi,
            forall|k: int| 0 <= k < gi ==> 0 <= #[trigger] source[k] < gi && list@[k] == update@[source[k]],
            list@.to_multiset() == update@.take(gi).to_multiset(),
            in_order(rules@, list@),
            list@ == arranged(rules@, update@, gi),
        decreases n - i,
    {
        let x = update[i];
        assert(x == update@[gi]);
        let mut p: usize = 0;
        let ghost mut gp: int = 0;
        let ghost before = list@;
        loop
            invariant_except_break
                p <= list@.len(),
            invariant
                gp == p,
                gi == i,
                i < n,
                n == update@.len(),
                x == update@[gi],
                list@ == before,
                list@.len() == gi,
                source.len() == gi,
                all_ordered(rules@, update@),
                forall|k: int|
                    0 <= k < gi ==> 0 <= #[trigger] source[k] < gi && list@[k] == update@[source[k]],
                forall|k: int| 0 <= k < gp ==> !stands_before(rules@, x, #[trigger] list@[k]),
            ensures
                p <= list@.len(),
                gp == p,
                forall|k: int| 0 <= k < gp ==> !stands_before(rules@, x, #[trigger] list@[k]),
                gp < list@.len() ==> stands_before(rules@, x, list@[gp]),
            decreases list@.len() - p,
        {
            if p >= list.len() {
                break;
            }
            let y = list[p];
            assert(y == list@[gp]);
            assert(y == update@[source[gp]]);
            assert(ordered(rules@, update@[gi], update@[source[gp]]));
            match compare(rules, x, y) {
                Ordering::Less => {
                    break;
                },
                _ => {},
            }
            proof {
                gp = gp + 1;
            }
            p += 1;
        }
        list.insert(p, x);
        proof {
            assert(list@ == before.insert(gp, x));
            lemma_place_before(rules@, before, x, 0, gp);
            source = source.insert(gp, gi);
            assert forall|k: int| 0 <= k < gi + 1 implies 0 <= #[trigger] source[k] < gi + 1 && list@[k]
                == update@[source[k]] by {
                if k < gp {
                    assert(list@[k] == before[k]);
                } else if k > gp {
                    assert(list@[k] == before[k - 1]);
                }
            }
            assert forall|k: int| 0 <= k < list@.len() - 1 implies #[trigger] before_next(
                rules@,
                list@,
                k,
            ) by {
                if k + 1 < gp {
                    assert(before_next(rules@, before, k));
                    assert(list@[k] == before[k] && list@[k + 1] == before[k + 1]);
                } else if k + 1 == gp {
                    assert(list@[k] == before[k]);
                    assert(!stands_before(rules@, x, before[k]));
                    assert(ordered(rules@, update@[gi], update@[source[k]]));
                    lemma_one_before(rules@, x, before[k]);
                } else if k == gp {
                    assert(list@[k + 1] == before[k]);
                } else {
                    assert(before_next(rules@, before, k - 1));
                    assert(list@[k] == before[k - 1] && list@[k + 1] == before[k]);
                }
            }
            lemma_insert_keeps_pages(before, gp, x);
            assert(update@.take(gi + 1) =~= update@.take(gi).push(x));
            vstd::seq_lib::to_multiset_build(update@.take(gi), x);
            gi = gi + 1;
        }
        i += 1;
    }
    proof {
        assert(update@.take(gi) =~= update@);
    }
    Some(list)
}

/// A list with a page put in holds what it held, and the page.
pub proof fn lemma_insert_keeps_pages(s: Seq<i32>, at: int, x: i32)
    requires
        0 <= at <= s.len(),
    ensures
        s.insert(at, x).to_multiset() == s.to_multiset().insert(x),
{
    let after = s.insert(at, x);
    assert(after.remove(at) =~= s);
    vstd::seq_lib::to_multiset_remove(after, at);
    assert(after.to_multiset().count(x) > 0) by {
        broadcast use vstd::seq_lib::group_to_multiset_ensures;
        assert(after[at] == x);
        assert(after.contains(x));
    }
    assert(after.to_multiset() =~= s.to_multiset().insert(x));
}

/// The update can be put in order: it holds a page, some rule orders every
/// two of its pages, and put in order it is valid.
pub open spec fn arrangeable(rules: Seq<(i32, i32)>, update: Seq<i32>) -> bool {
    update.len() > 0 && all_ordered(rules, update) && valid(rules, arranged_all(rules, update))
}

/// The sum of the middle pages of the first `n` updates when each is put
/// in order.
pub open spec fn arranged_middles(rules: Seq<(i32, i32)>, updates: Seq<Vec<i32>>, n: int) -> int
    decreases n,
{
    if n <= 0 {
        0
    } else {
        arranged_middles(rules, updates, n - 1) + middle(arranged_all(rules, updates[n - 1]@))
    }
}

/// No sum of middle pages on the way leaves `i32`, neither of the updates
/// put in order nor of those that were valid before, and neither does the
/// difference of the two sums.
pub open spec fn reorder_fits(rules: Seq<(i32, i32)>, updates: Seq<Vec<i32>>) -> bool {
    &&& middles_fit(rules, updates)
    &&& forall|n: int|
        0 <= n <= updates.len() ==> i32::MIN <= #[trigger] arranged_middles(rules, updates, n) <= i32::MAX
    &&& i32::MIN <= arranged_middles(rules, updates, updates.len() as int) - valid_middles(
        rules,
        updates,
        updates.len() as int,
    ) <= i32::MAX
}

/// The sum of the middle pages of the updates when each is put in order,
/// less the middle pages of those that were valid before. `None` where an
/// update cannot be put in order, or where a sum leaves `i32`.
pub fn part2(rules: &Vec<(i32, i32)>, updates: &Vec<Vec<i32>>) -> (sum: Option<i32>)
    ensures
        sum is Some <==> (forall|k: int|
            0 <= k < updates@.len() ==> arrangeable(rules@, (#[trigger] updates@[k])@)) && reorder_fits(
            rules@,
            updates@,
        ),
        sum matches Some(v) ==> v == arranged_middles(rules@, updates@, updates@.len() as int)
            - valid_middles(rules@, updates@, updates@.len() as int),
{
    let mut first: i32 = 0;
    let mut second: i32 = 0;
    let mut i: usize = 0;
    while i < updates.len()
        invariant
            i <= updates@.len(),
            forall|k: int| 0 <= k < i ==> arrangeable(rules@, (#[trigger] updates@[k])@),
            forall|n: int| 0 <= n <= i ==> i32::MIN <= #[trigger] valid_middles(rules@, updates@, n) <= i32::MAX,
            forall|n: int|
                0 <= n <= i ==> i32::MIN <= #[trigger] arranged_middles(rules@, updates@, n) <= i32::MAX,
            first == valid_middles(rules@, updates@, i as int),
            second == arranged_middles(rules@, updates@, i as int),
        decreases updates@.len() - i,
    {
        let u = &updates[i];
        if u.len() == 0 {
            assert(!arrangeable(rules@, updates@[i as int]@));
            return None;
        }
        if is_valid(rules, u) {
            first = match first.checked_add(u[u.len() / 2]) {
                Some(v) => v,
                None => {
                    assert(!(i32::MIN <= valid_middles(rules@, updates@, i + 1) <= i32::MAX));
                    return None;
                },
            };
        }
        let sorted = match sorted_by_rules(rules, u) {
            Some(sorted) => sorted,
            None => {
                assert(!arrangeable(rules@, updates@[i as int]@));
                return None;
            },
        };
        proof {
            sorted@.to_multiset_ensures();
            u@.to_multiset_ensures();
        }
        if !is_valid(rules, &sorted) {
            assert(!arrangeable(rules@, updates@[i as int]@));
            return None;
        }
        second = match second.checked_add(sorted[sorted.len() / 2]) {
            Some(v) => v,
            None => {
                assert(!(i32::MIN <= arranged_middles(rules@, updates@, i + 1) <= i32::MAX));
                return None;
            },
        };
        proof {
            assert(arrangeable(rules@, updates@[i as int]@));
        }
        i += 1;
    }
    proof {
        assert(middles_fit(rules@, updates@));
    }
    second.checked_sub(first)
}

/// The page in the middle of the update.
pub open spec fn middle(update: Seq<i32>) -> int {
    update[(update.len() / 2) as int] as int
}

/// The sum of the middle pages of those of the first `n` updates that are
/// valid.
pub open spec fn valid_middles(rules: Seq<(i32, i32)>, updates: Seq<Vec<i32>>, n: int) -> int
    decreases n,
{
    if n <= 0 {
        0
    } else {
        valid_middles(rules, updates, n - 1) + if valid(rules, updates[n - 1]@) {
            middle(updates[n - 1]@)
        } else {
            0
        }
    }
}

/// No sum of middle pages of the first updates leaves `i32`.
pub open spec fn middles_fit(rules: Seq<(i32, i32)>, updates: Seq<Vec<i32>>) -> bool {
    forall|n: int|
        0 <= n <= updates.len() ==> i32::MIN <= #[trigger] valid_middles(rules, updates, n)
            <= i32::MAX
}

/// The sum of the middle pages of the valid updates.
pub fn part1(rules: &Vec<(i32, i32)>, updates: &Vec<Vec<i32>>) -> (sum: i32)
    requires
        forall|k: int| 0 <= k < updates@.len() ==> (#[trigger] updates@[k])@.len() > 0,
        middles_fit(rules@, updates@),
    ensures
        sum == valid_middles(rules@, updates@, updates@.len() as int),
{
    let mut sum: i32 = 0;
    let mut i: usize = 0;
    while i < updates.len()
        invariant
            i <= updates@.len(),
            sum == valid_middles(rules@, updates@, i as int),
            forall|k: int| 0 <= k < updates@.len() ==> (#[trigger] updates@[k])@.len() > 0,
            middles_fit(rules@, updates@),
        decreases updates@.len() - i,
    {
        let u = &updates[i];
        assert(updates@[i as int]@.len() > 0);
        assert(i32::MIN <= valid_middles(rules@, updates@, i + 1) <= i32::MAX);
        if is_valid(rules, u) {
            sum = sum + u[u.len() / 2];
        }
        i += 1;
    }
    sum
}

} // verus!
