//! Two lists of numbers: how far apart they are when both are sorted, and
//! how alike they are.

use vstd::prelude::*;
use crate::text::{fits_i32, lines, lines_of, number_of, numbers_i32, words, words_of};

verus! {

/// No number of the list is smaller than one before it.
pub open spec fn ascending(s: Seq<i32>) -> bool {
    forall|i: int, j: int| 0 <= i <= j < s.len() ==> s[i] <= s[j]
}

/// The numbers in ascending order, by `sort` of the standard library, which
/// orders the items of a slice ascending and neither drops nor adds an
/// item.
#[verifier::external_body]
fn sorted(list: Vec<i32>) -> (out: Vec<i32>)
    ensures
        ascending(out@),
        out@.to_multiset() == list@.to_multiset(),
{
    let mut out = list;
    out.sort();
    out
}

/// The distance of a number from nought.
pub open spec fn abs(v: int) -> int {
    if v < 0 {
        -v
    } else {
        v
    }
}

/// The sum of the distances between the first `n` numbers of the two lists,
/// taken pair by pair.
pub open spec fn distance_upto(left: Seq<i32>, right: Seq<i32>, n: int) -> int
    decreases n,
{
    if n <= 0 {
        0
    } else {
        distance_upto(left, right, n - 1) + abs(left[n - 1] - right[n - 1])
    }
}

/// As many pairs as the shorter list has numbers.
pub open spec fn pairs(left: Seq<i32>, right: Seq<i32>) -> int {
    if left.len() < right.len() {
        left.len() as int
    } else {
        right.len() as int
    }
}

/// The sum of the distances grows with the number of pairs, and never falls below nought.
pub proof fn lemma_distance_grows(left: Seq<i32>, right: Seq<i32>, m: int, n: int)
    requires
        0 <= m <= n,
    ensures
        0 <= distance_upto(left, right, m) <= distance_upto(left, right, n),
    decreases n,
{
    if n > 0 {
        if m < n {
            lemma_distance_grows(left, right, m, n - 1);
        } else {
            lemma_distance_grows(left, right, m - 1, n - 1);
        }
    }
}

/// The sum of the distances between the numbers of two lists, pair by
/// pair.
pub fn distance(left: &Vec<i32>, right: &Vec<i32>) -> (sum: i32)
    requires
        distance_upto(left@, right@, pairs(left@, right@)) <= i32::MAX,
    ensures
        sum == distance_upto(left@, right@, pairs(left@, right@)),
{
    let mut sum: i32 = 0;
    let mut i: usize = 0;
    while i < left.len() && i < right.len()
        invariant
            i <= pairs(left@, right@),
            sum == distance_upto(left@, right@, i as int),
            distance_upto(left@, right@, pairs(left@, right@)) <= i32::MAX,
        decreases left@.len() - i,
    {
        proof {
            lemma_distance_grows(left@, right@, i + 1, pairs(left@, right@));
            lemma_distance_grows(left@, right@, i as int, i + 1);
        }
        let a = left[i] as i64;
        let b = right[i] as i64;
        let d = if a < b {
            b - a
        } else {
            a - b
        };
        sum = (sum as i64 + d) as i32;
        i += 1;
    }
    sum
}

/// The sum of the distances between the numbers of the two lists, the
/// smallest of the one paired with the smallest of the other, and so on.
pub fn part1(left: Vec<i32>, right: Vec<i32>) -> (sum: i32)
    requires
        forall|a: Seq<i32>, b: Seq<i32>|
            ascending(a) && ascending(b) && a.to_multiset() == left@.to_multiset() && b.to_multiset()
                == right@.to_multiset() ==> #[trigger] distance_upto(a, b, pairs(a, b)) <= i32::MAX,
    ensures
        exists|a: Seq<i32>, b: Seq<i32>|
            ascending(a) && ascending(b) && a.to_multiset() == left@.to_multiset() && b.to_multiset()
                == right@.to_multiset() && sum == #[trigger] distance_upto(a, b, pairs(a, b)),
{
    let a = sorted(left);
    let b = sorted(right);
    distance(&a, &b)
}

/// How often `v` stands among the first `n` numbers.
pub open spec fn count_upto(list: Seq<i32>, v: i32, n: int) -> int
    decreases n,
{
    if n <= 0 {
        0
    } else {
        count_upto(list, v, n - 1) + if list[n - 1] == v {
            1int
        } else {
            0int
        }
    }
}

/// How often `v` stands in the list.
pub fn count(list: &Vec<i32>, v: i32) -> (n: usize)
    ensures
        n == count_upto(list@, v, list@.len() as int),
        n <= list@.len(),
{
    let mut n: usize = 0;
    let mut i: usize = 0;
    while i < list.len()
        invariant
            i <= list@.len(),
            n <= i,
            n == count_upto(list@, v, i as int),
        decreases list@.len() - i,
    {
        if list[i] == v {
            n += 1;
        }
        i += 1;
    }
    n
}

/// The sum, over the first `n` numbers of the left list, of the number
/// times how often it stands in the right list.
pub open spec fn likeness_upto(left: Seq<i32>, right: Seq<i32>, n: int) -> int
    decreases n,
{
    if n <= 0 {
        0
    } else {
        likeness_upto(left, right, n - 1) + count_upto(right, left[n - 1], right.len() as int) * left[n
            - 1]
    }
}

/// No sum on the way leaves `i32`.
pub open spec fn likeness_fits(left: Seq<i32>, right: Seq<i32>) -> bool {
    forall|n: int|
        0 <= n <= left.len() ==> i32::MIN <= #[trigger] likeness_upto(left, right, n) <= i32::MAX
}

/// The sum, over the numbers of the left list, of the number times how
/// often it stands in the right list.
pub fn part2(left: &Vec<i32>, right: &Vec<i32>) -> (sum: i32)
    requires
        likeness_fits(left@, right@),
        right@.len() <= i32::MAX,
    ensures
        sum == likeness_upto(left@, right@, left@.len() as int),
{
    let mut sum: i32 = 0;
    let mut i: usize = 0;
    while i < left.len()
        invariant
            i <= left@.len(),
            likeness_fits(left@, right@),
            right@.len() <= i32::MAX,
            sum == likeness_upto(left@, right@, i as int),
        decreases left@.len() - i,
    {
        let l = left[i];
        let c = count(right, l);
        proof {
            assert(i32::MIN <= likeness_upto(left@, right@, i + 1) <= i32::MAX);
            assert(-0x8000_0000 * 0x8000_0000 <= c * l <= 0x8000_0000 * 0x8000_0000) by (nonlinear_arith)
                requires
                    0 <= c <= 0x7fff_ffff,
                    -0x8000_0000 <= l <= 0x7fff_ffff,
            ;
        }
        let term: i64 = (c as i64) * (l as i64);
        sum = (sum as i64 + term) as i32;
        i += 1;
    }
    sum
}

/// The sum, over the numbers of the left list, of the number times how
/// often it stands in the right list. `None` where a sum on the way leaves
/// `i32`, or the right list is too long for its counts to be held.
pub fn likeness(left: &Vec<i32>, right: &Vec<i32>) -> (sum: Option<i32>)
    ensures
        sum is Some <==> likeness_fits(left@, right@) && right@.len() <= i32::MAX,
        sum matches Some(s) ==> s == likeness_upto(left@, right@, left@.len() as int),
{
    if right.len() > 0x7fff_ffff {
        return None;
    }
    let mut sum: i32 = 0;
    let mut i: usize = 0;
    while i < left.len()
        invariant
            i <= left@.len(),
            right@.len() <= i32::MAX,
            sum == likeness_upto(left@, right@, i as int),
            forall|n: int| 0 <= n <= i ==> i32::MIN <= #[trigger] likeness_upto(left@, right@, n) <= i32::MAX,
        decreases left@.len() - i,
    {
        let l = left[i];
        let c = count(right, l);
        proof {
            assert(-0x8000_0000 * 0x8000_0000 <= c * l <= 0x8000_0000 * 0x8000_0000) by (nonlinear_arith)
                requires
                    0 <= c <= 0x7fff_ffff,
                    -0x8000_0000 <= l <= 0x7fff_ffff,
            ;
        }
        let term: i64 = (c as i64) * (l as i64);
        let next: i64 = sum as i64 + term;
        if next < -0x8000_0000 || next > 0x7fff_ffff {
            assert(next == likeness_upto(left@, right@, i + 1));
            return None;
        }
        sum = next as i32;
        i += 1;
    }
    Some(sum)
}

/// The line holds two numbers that fit in `i32`, and nothing else but
/// white space.
pub open spec fn is_pair(line: Seq<char>) -> bool {
    words_of(line).len() == 2 && fits_i32(words_of(line)[0]) && fits_i32(words_of(line)[1])
}

/// The two lists that a text of lines of two numbers holds. `None` where a
/// line does not hold two numbers.
pub fn parse(text: &Vec<char>) -> (out: Option<(Vec<i32>, Vec<i32>)>)
    ensures
        match out {
            Some((left, right)) => left@.len() == lines_of(text@).len() && right@.len() == left@.len()
                && forall|i: int|
                0 <= i < left@.len() ==> is_pair(#[trigger] lines_of(text@)[i]) && left@[i] == number_of(
                    words_of(lines_of(text@)[i])[0],
                ) && right@[i] == number_of(words_of(lines_of(text@)[i])[1]),
            None => exists|i: int| 0 <= i < lines_of(text@).len() && !is_pair(#[trigger] lines_of(text@)[i]),
        },
{
    let all = lines(text);
    let mut left: Vec<i32> = Vec::new();
    let mut right: Vec<i32> = Vec::new();
    let mut i: usize = 0;
    while i < all.len()
        invariant
            i <= all@.len(),
            crate::text::rows(all@) == lines_of(text@),
            left@.len() == i,
            right@.len() == i,
            forall|k: int|
                0 <= k < i ==> is_pair(#[trigger] lines_of(text@)[k]) && left@[k] == number_of(
                    words_of(lines_of(text@)[k])[0],
                ) && right@[k] == number_of(words_of(lines_of(text@)[k])[1]),
        decreases all@.len() - i,
    {
        let found = words(&all[i]);
        proof {
            assert(crate::text::rows(all@)[i as int] == all@[i as int]@);
            assert(crate::text::rows(found@) == words_of(lines_of(text@)[i as int]));
            if found@.len() == 2 {
                assert(crate::text::rows(found@)[0] == found@[0]@);
                assert(crate::text::rows(found@)[1] == found@[1]@);
            }
            assert(crate::text::rows(found@).len() == found@.len());
        }
        if found.len() != 2 {
            return None;
        }
        match numbers_i32(&found) {
            None => {
                return None;
            },
            Some(pair) => {
                left.push(pair[0]);
                right.push(pair[1]);
            },
        }
        i += 1;
    }
    proof {
        assert(crate::text::rows(all@).len() == all@.len());
    }
    Some((left, right))
}

} // verus!
