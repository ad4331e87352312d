//! Secret numbers: each is made from the one before by mixing and pruning,
//! and the last digit of each is a price.

use vstd::prelude::*;

verus! {

/// Sixteen million and some: secrets are pruned to stay below it.
pub const PRUNE: u64 = 0x1000000;

/// Two numbers mixed: their bitwise exclusive or.
pub open spec fn mix64(a: u64, b: u64) -> u64 {
    a ^ b
}

/// The secret that follows `n`.
pub open spec fn evolve(n: u64) -> u64 {
    let first = mix64(((n * 0x40) as u64), n) % PRUNE;
    let second = mix64(first / 32, first) % PRUNE;
    mix64(((second * 0x800) as u64), second) % PRUNE
}

/// The `k`-th secret after `n`.
pub open spec fn secret_after(n: u64, k: nat) -> u64
    decreases k,
{
    if k == 0 {
        n
    } else {
        evolve(secret_after(n, (k - 1) as nat))
    }
}

/// A secret number and the count of numbers that may still be drawn from
/// it.
#[derive(Clone, Copy, Eq, PartialEq, Debug, Structural)]
pub struct Secret {
    pub number: usize,
    pub limit: usize,
}

/// The secret that follows `n`.
pub fn evolved(n: u64) -> (out: u64)
    requires
        n <= u64::MAX / 0x40,
    ensures
        out == evolve(n),
        out < PRUNE,
{
    let first = ((n * 0x40) ^ n) % PRUNE;
    let second = ((first / 32) ^ first) % PRUNE;
    ((second * 0x800) ^ second) % PRUNE
}

impl Secret {
    /// A secret from which two thousand numbers may be drawn.
    pub fn new(number: usize) -> (secret: Secret)
        ensures
            secret.number == number,
            secret.limit == 2000,
    {
        Secret { number, limit: 2000 }
    }

    /// Draws the next number, if the limit allows one.
    pub fn next(&mut self) -> (drawn: Option<usize>)
        requires
            old(self).number <= u64::MAX / 0x40,
        ensures
            old(self).limit == 0 ==> drawn is None && *final(self) == *old(self),
            old(self).limit > 0 ==> drawn == Some(final(self).number) && final(self).number == evolve(
                old(self).number as u64,
            ) && final(self).limit == old(self).limit - 1,
            final(self).number <= u64::MAX / 0x40,
    {
        if self.limit == 0 {
            return None;
        }
        let out = evolved(self.number as u64);
        self.number = out as usize;
        self.limit -= 1;
        Some(self.number)
    }
}

/// The changes of price that a secret gives rise to.
#[derive(Clone, Copy, Eq, PartialEq, Debug, Structural)]
pub struct SecretPriceChanges {
    pub secret: Secret,
}

/// The price that a secret stands for: its last digit.
pub open spec fn price(n: u64) -> int {
    (n % 10) as int
}

impl SecretPriceChanges {
    /// Draws the next number and gives the change of price that it brings.
    pub fn next(&mut self) -> (change: Option<isize>)
        requires
            old(self).secret.number <= u64::MAX / 0x40,
        ensures
            old(self).secret.limit == 0 ==> change is None && *final(self) == *old(self),
            old(self).secret.limit > 0 ==> final(self).secret.number == evolve(
                old(self).secret.number as u64,
            ) && final(self).secret.limit == old(self).secret.limit - 1 && change == Some(
                (price(final(self).secret.number as u64) - price(old(self).secret.number as u64)) as isize,
            ),
            final(self).secret.number <= u64::MAX / 0x40,
    {
        let last = self.secret.number;
        match self.secret.next() {
            None => None,
            Some(n) => Some((n % 10) as isize - (last % 10) as isize),
        }
    }
}

/// The `k`-th change of price of the secret `n`, counted from one.
pub open spec fn change_at(n: u64, k: nat) -> int {
    price(secret_after(n, k)) - price(secret_after(n, (k - 1) as nat))
}

/// The four changes of price that end with the `k`-th are the four asked
/// for.
pub open spec fn sells_at(n: u64, changes: (isize, isize, isize, isize), k: nat) -> bool {
    &&& k >= 4
    &&& change_at(n, (k - 3) as nat) == changes.0
    &&& change_at(n, (k - 2) as nat) == changes.1
    &&& change_at(n, (k - 1) as nat) == changes.2
    &&& change_at(n, k) == changes.3
}

/// The price at which the secret is sold by a buyer who waits for the four
/// changes: the price after the first time they come in a row, within as
/// many numbers as the limit allows.
pub fn get_price(secret: Secret, changes: (isize, isize, isize, isize)) -> (sold: Option<usize>)
    requires
        secret.number <= u64::MAX / 0x40,
    ensures
        match sold {
            Some(p) => exists|k: nat|
                k <= secret.limit && #[trigger] sells_at(secret.number as u64, changes, k) && p
                    == price(secret_after(secret.number as u64, k)) && forall|j: nat|
                    j < k ==> !#[trigger] sells_at(secret.number as u64, changes, j),
            None => forall|k: nat|
                k <= secret.limit ==> !#[trigger] sells_at(secret.number as u64, changes, k),
        },
{
    let ghost start = secret.number as u64;
    let mut s = SecretPriceChanges { secret };
    let mut window: (isize, isize, isize, isize) = (0, 0, 0, 0);
    let mut k: usize = 0;
    assert(secret_after(start, 0) == start);
    loop
        invariant
            start == secret.number as u64,
            k <= secret.limit,
            s.secret.limit == secret.limit - k,
            s.secret.number == secret_after(start, k as nat),
            s.secret.number <= u64::MAX / 0x40,
            k >= 1 ==> window.3 == change_at(start, k as nat),
            k >= 2 ==> window.2 == change_at(start, (k - 1) as nat),
            k >= 3 ==> window.1 == change_at(start, (k - 2) as nat),
            k >= 4 ==> window.0 == change_at(start, (k - 3) as nat),
            forall|j: nat| j <= k ==> !#[trigger] sells_at(start, changes, j),
        decreases secret.limit - k,
    {
        match s.next() {
            None => {
                return None;
            },
            Some(change) => {
                k += 1;
                assert(secret_after(start, k as nat) == evolve(secret_after(start, (k - 1) as nat)));
                window = (window.1, window.2, window.3, change);
                if k >= 4 && window.0 == changes.0 && window.1 == changes.1 && window.2 == changes.2
                    && window.3 == changes.3 {
                    assert(sells_at(start, changes, k as nat));
                    return Some(s.secret.number % 10);
                }
            },
        }
    }
}

/// The `k`-th number drawn from the secret.
pub fn nth(secret: Secret, k: usize) -> (drawn: Option<usize>)
    requires
        secret.number <= u64::MAX / 0x40,
        k >= 1,
    ensures
        drawn == if k <= secret.limit {
            Some(secret_after(secret.number as u64, k as nat) as usize)
        } else {
            None
        },
{
    let ghost start = secret.number as u64;
    let mut s = secret;
    let mut i: usize = 0;
    let mut last: Option<usize> = None;
    assert(secret_after(start, 0) == start);
    while i < k
        invariant
            start == secret.number as u64,
            i <= k,
            k >= 1,
            s.number <= u64::MAX / 0x40,
            i <= secret.limit ==> s.limit == secret.limit - i && s.number == secret_after(
                start,
                i as nat,
            ),
            i > secret.limit ==> last is None && s.limit == 0,
            0 < i <= secret.limit ==> last == Some(s.number),
        decreases k - i,
    {
        last = s.next();
        i += 1;
        proof {
            if i <= secret.limit {
                assert(secret_after(start, i as nat) == evolve(secret_after(start, (i - 1) as nat)));
            }
        }
    }
    last
}

/// The sum of the `k`-th numbers drawn from the first `n` secrets.
pub open spec fn drawn_upto(numbers: Seq<usize>, k: nat, n: int) -> int
    decreases n,
{
    if n <= 0 {
        0
    } else {
        drawn_upto(numbers, k, n - 1) + secret_after(numbers[n - 1] as u64, k)
    }
}

/// A sum of drawn numbers is nought at least.
pub proof fn lemma_drawn_bound(numbers: Seq<usize>, k: nat, n: int)
    requires
        0 <= n,
    ensures
        0 <= drawn_upto(numbers, k, n),
    decreases n,
{
    if n > 0 {
        lemma_drawn_bound(numbers, k, n - 1);
    }
}

/// The sum of the two thousandth numbers drawn from the secrets.
pub fn part1(numbers: &Vec<usize>) -> (sum: usize)
    requires
        forall|i: int| 0 <= i < numbers@.len() ==> #[trigger] numbers@[i] <= u64::MAX / 0x40,
        numbers@.len() * PRUNE <= usize::MAX,
    ensures
        sum == drawn_upto(numbers@, 2000, numbers@.len() as int),
{
    let mut sum: usize = 0;
    let mut i: usize = 0;
    while i < numbers.len()
        invariant
            i <= numbers@.len(),
            forall|j: int| 0 <= j < numbers@.len() ==> #[trigger] numbers@[j] <= u64::MAX / 0x40,
            numbers@.len() * PRUNE <= usize::MAX,
            sum == drawn_upto(numbers@, 2000, i as int),
            sum <= i * PRUNE,
        decreases numbers@.len() - i,
    {
        let drawn = match nth(Secret::new(numbers[i]), 2000) {
            Some(n) => n,
            None => 0,
        };
        proof {
            lemma_secret_small(numbers@[i as int] as u64, 2000);
            assert((i + 1) * PRUNE == i * PRUNE + PRUNE) by (nonlinear_arith);
            assert((i + 1) * PRUNE <= numbers@.len() * PRUNE) by (nonlinear_arith)
                requires
                    i + 1 <= numbers@.len(),
            ;
        }
        sum = sum + drawn;
        i += 1;
    }
    sum
}

/// Every secret but the first is pruned.
pub proof fn lemma_secret_small(n: u64, k: nat)
    requires
        k > 0,
    ensures
        secret_after(n, k) < PRUNE,
{
}

/// What the first `n` secrets sell for to a buyer who waits for the four
/// changes.
pub open spec fn sales_upto(
    numbers: Seq<usize>,
    changes: (isize, isize, isize, isize),
    n: int,
) -> int
    decreases n,
{
    if n <= 0 {
        0
    } else {
        sales_upto(numbers, changes, n - 1) + sale(numbers[n - 1] as u64, changes)
    }
}

/// The first time, within two thousand changes, that the four changes come
/// in a row.
pub open spec fn first_sale(n: u64, changes: (isize, isize, isize, isize), k: nat) -> bool {
    k <= 2000 && sells_at(n, changes, k) && forall|j: nat| j < k ==> !#[trigger] sells_at(n, changes, j)
}

/// What the secret sells for: the price after the first time the four
/// changes come in a row; nothing if they never do.
pub open spec fn sale(n: u64, changes: (isize, isize, isize, isize)) -> int {
    if exists|k: nat| first_sale(n, changes, k) {
        price(secret_after(n, choose|k: nat| first_sale(n, changes, k)))
    } else {
        0
    }
}

/// What the secrets sell for in all to a buyer who waits for the four
/// changes.
pub fn sell_all(numbers: &Vec<usize>, changes: (isize, isize, isize, isize)) -> (sum: usize)
    requires
        forall|i: int| 0 <= i < numbers@.len() ==> #[trigger] numbers@[i] <= u64::MAX / 0x40,
        numbers@.len() * 10 <= usize::MAX,
    ensures
        sum == sales_upto(numbers@, changes, numbers@.len() as int),
        sum <= numbers@.len() * 9,
{
    let mut sum: usize = 0;
    let mut i: usize = 0;
    while i < numbers.len()
        invariant
            i <= numbers@.len(),
            forall|j: int| 0 <= j < numbers@.len() ==> #[trigger] numbers@[j] <= u64::MAX / 0x40,
            numbers@.len() * 10 <= usize::MAX,
            sum == sales_upto(numbers@, changes, i as int),
            sum <= i * 9,
        decreases numbers@.len() - i,
    {
        let secret = Secret::new(numbers[i]);
        let ghost n = numbers@[i as int] as u64;
        match get_price(secret, changes) {
            Some(p) => {
                proof {
                    let k = choose|k: nat|
                        k <= secret.limit && #[trigger] sells_at(n, changes, k) && p == price(
                            secret_after(n, k),
                        ) && forall|j: nat| j < k ==> !#[trigger] sells_at(n, changes, j);
                    assert(first_sale(n, changes, k));
                    let chosen = choose|c: nat| first_sale(n, changes, c);
                    if chosen < k {
                        assert(!sells_at(n, changes, chosen));
                    }
                    if k < chosen {
                        assert(!sells_at(n, changes, k));
                    }
                }
                sum = sum + p;
            },
            None => {
                proof {
                    if exists|k: nat| first_sale(n, changes, k) {
                        let k = choose|k: nat| first_sale(n, changes, k);
                        assert(!sells_at(n, changes, k));
                    }
                }
            },
        }
        i += 1;
    }
    sum
}

/// The most that the secrets sell for in all, whatever four changes
/// between -9 and 9 the buyer waits for.
pub fn part2(numbers: &Vec<usize>) -> (best: usize)
    requires
        forall|i: int| 0 <= i < numbers@.len() ==> #[trigger] numbers@[i] <= u64::MAX / 0x40,
        numbers@.len() * 10 <= usize::MAX,
    ensures
        forall|a: int, b: int, c: int, d: int|
            -9 <= a <= 9 && -9 <= b <= 9 && -9 <= c <= 9 && -9 <= d <= 9 ==> #[trigger] sales_upto(
                numbers@,
                (a as isize, b as isize, c as isize, d as isize),
                numbers@.len() as int,
            ) <= best,
        best == 0 || exists|a: int, b: int, c: int, d: int|
            -9 <= a <= 9 && -9 <= b <= 9 && -9 <= c <= 9 && -9 <= d <= 9 && #[trigger] sales_upto(
                numbers@,
                (a as isize, b as isize, c as isize, d as isize),
                numbers@.len() as int,
            ) == best,
{
    let mut best: usize = 0;
    let mut a: isize = -9;
    while a <= 9
        invariant
            -9 <= a <= 10,
            forall|i: int| 0 <= i < numbers@.len() ==> #[trigger] numbers@[i] <= u64::MAX / 0x40,
            numbers@.len() * 10 <= usize::MAX,
            forall|a2: int, b2: int, c2: int, d2: int|
                -9 <= a2 < a && -9 <= b2 <= 9 && -9 <= c2 <= 9 && -9 <= d2 <= 9 ==> #[trigger] sales_upto(
                    numbers@,
                    (a2 as isize, b2 as isize, c2 as isize, d2 as isize),
                    numbers@.len() as int,
                ) <= best,
            best == 0 || exists|a2: int, b2: int, c2: int, d2: int|
                -9 <= a2 <= 9 && -9 <= b2 <= 9 && -9 <= c2 <= 9 && -9 <= d2 <= 9 && #[trigger] sales_upto(
                    numbers@,
                    (a2 as isize, b2 as isize, c2 as isize, d2 as isize),
                    numbers@.len() as int,
                ) == best,
        decreases 10 - a,
    {
        let mut b: isize = -9;
        while b <= 9
            invariant
                -9 <= a <= 9,
                -9 <= b <= 10,
                forall|i: int| 0 <= i < numbers@.len() ==> #[trigger] numbers@[i] <= u64::MAX / 0x40,
                numbers@.len() * 10 <= usize::MAX,
                forall|a2: int, b2: int, c2: int, d2: int|
                    -9 <= a2 <= a && -9 <= b2 <= 9 && -9 <= c2 <= 9 && -9 <= d2 <= 9 && (a2 == a ==> b2
                        < b) ==> #[trigger] sales_upto(
                        numbers@,
                        (a2 as isize, b2 as isize, c2 as isize, d2 as isize),
                        numbers@.len() as int,
                    ) <= best,
                best == 0 || exists|a2: int, b2: int, c2: int, d2: int|
                    -9 <= a2 <= 9 && -9 <= b2 <= 9 && -9 <= c2 <= 9 && -9 <= d2 <= 9 && #[trigger] sales_upto(
                        numbers@,
                        (a2 as isize, b2 as isize, c2 as isize, d2 as isize),
                        numbers@.len() as int,
                    ) == best,
            decreases 10 - b,
        {
            let mut c: isize = -9;
            while c <= 9
                invariant
                    -9 <= a <= 9,
                    -9 <= b <= 9,
                    -9 <= c <= 10,
                    forall|i: int| 0 <= i < numbers@.len() ==> #[trigger] numbers@[i] <= u64::MAX / 0x40,
                    numbers@.len() * 10 <= usize::MAX,
                    forall|a2: int, b2: int, c2: int, d2: int|
                        -9 <= a2 <= a && -9 <= b2 <= 9 && -9 <= c2 <= 9 && -9 <= d2 <= 9 && (a2 == a
                            ==> b2 <= b) && (a2 == a && b2 == b ==> c2 < c) ==> #[trigger] sales_upto(
                            numbers@,
                            (a2 as isize, b2 as isize, c2 as isize, d2 as isize),
                            numbers@.len() as int,
                        ) <= best,
                    best == 0 || exists|a2: int, b2: int, c2: int, d2: int|
                        -9 <= a2 <= 9 && -9 <= b2 <= 9 && -9 <= c2 <= 9 && -9 <= d2 <= 9 && #[trigger] sales_upto(
                            numbers@,
                            (a2 as isize, b2 as isize, c2 as isize, d2 as isize),
                            numbers@.len() as int,
                        ) == best,
                decreases 10 - c,
            {
                let mut d: isize = -9;
                while d <= 9
                    invariant
                        -9 <= a <= 9,
                        -9 <= b <= 9,
                        -9 <= c <= 9,
                        -9 <= d <= 10,
                        forall|i: int|
                            0 <= i < numbers@.len() ==> #[trigger] numbers@[i] <= u64::MAX / 0x40,
                        numbers@.len() * 10 <= usize::MAX,
                        forall|a2: int, b2: int, c2: int, d2: int|
                            -9 <= a2 <= a && -9 <= b2 <= 9 && -9 <= c2 <= 9 && -9 <= d2 <= 9 && (a2
                                == a ==> b2 <= b) && (a2 == a && b2 == b ==> c2 <= c) && (a2 == a
                                && b2 == b && c2 == c ==> d2 < d) ==> #[trigger] sales_upto(
                                numbers@,
                                (a2 as isize, b2 as isize, c2 as isize, d2 as isize),
                                numbers@.len() as int,
                            ) <= best,
                        best == 0 || exists|a2: int, b2: int, c2: int, d2: int|
                            -9 <= a2 <= 9 && -9 <= b2 <= 9 && -9 <= c2 <= 9 && -9 <= d2 <= 9 && #[trigger] sales_upto(
                                numbers@,
                                (a2 as isize, b2 as isize, c2 as isize, d2 as isize),
                                numbers@.len() as int,
                            ) == best,
                    decreases 10 - d,
                {
                    let total = sell_all(numbers, (a, b, c, d));
                    if total > best {
                        best = total;
                        assert(sales_upto(
                            numbers@,
                            (a as int as isize, b as int as isize, c as int as isize, d as int as isize),
                            numbers@.len() as int,
                        ) == best);
                    }
                    d += 1;
                }
                c += 1;
            }
            b += 1;
        }
        a += 1;
    }
    best
}

} // verus!
