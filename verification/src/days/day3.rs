//! Corrupted memory: among the noise stand instructions `mul(a,b)` with
//! numbers of one to three digits, and `do()` and `don't()` that switch the
//! multiplications on and off.

use vstd::prelude::*;

verus! {

/// The byte is a decimal digit.
pub open spec fn is_digit(b: u8) -> bool {
    0x30 <= b <= 0x39
}

/// The byte at position `i`, nought past the end.
pub open spec fn byte_at(text: Seq<u8>, i: int) -> u8 {
    if 0 <= i < text.len() {
        text[i]
    } else {
        0
    }
}

/// The length of the run of digits from position `i` on, counted up to
/// four.
pub open spec fn digit_run(text: Seq<u8>, i: int) -> int {
    if !is_digit(byte_at(text, i)) {
        0
    } else if !is_digit(byte_at(text, i + 1)) {
        1
    } else if !is_digit(byte_at(text, i + 2)) {
        2
    } else if !is_digit(byte_at(text, i + 3)) {
        3
    } else {
        4
    }
}

/// The number that the `n` digits from position `i` on stand for.
pub open spec fn number_at(text: Seq<u8>, i: int, n: int) -> int
    decreases n,
{
    if n <= 0 {
        0
    } else {
        number_at(text, i, n - 1) * 10 + (text[i + n - 1] - 0x30)
    }
}

/// The word stands in the text from position `i` on.
pub open spec fn word_at(text: Seq<u8>, i: int, word: Seq<u8>) -> bool {
    forall|k: int| 0 <= k < word.len() ==> #[trigger] byte_at(text, i + k) == word[k]
}

/// The product and the length of the two numbers with a comma between and
/// a closing bracket behind that stand from position `i` on, if they do.
pub open spec fn pair_at(text: Seq<u8>, i: int) -> Option<(int, int)> {
    let n = digit_run(text, i);
    let m = digit_run(text, i + n + 1);
    if 1 <= n <= 3 && byte_at(text, i + n) == 0x2c && 1 <= m <= 3 && byte_at(text, i + n + 1 + m)
        == 0x29 {
        Some((number_at(text, i, n) * number_at(text, i + n + 1, m), n + m + 2))
    } else {
        None
    }
}

/// The bytes of `mul(`.
pub open spec fn mul_word() -> Seq<u8> {
    seq![0x6du8, 0x75u8, 0x6cu8, 0x28u8]
}

/// The bytes of `do(`.
pub open spec fn do_word() -> Seq<u8> {
    seq![0x64u8, 0x6fu8, 0x28u8]
}

/// The bytes of `don't(`.
pub open spec fn dont_word() -> Seq<u8> {
    seq![0x64u8, 0x6fu8, 0x6eu8, 0x27u8, 0x74u8, 0x28u8]
}

/// The product of the instruction `mul(a,b)` that stands at position `i`;
/// nought where none stands there.
pub open spec fn mul_at(text: Seq<u8>, i: int) -> int {
    if word_at(text, i, mul_word()) {
        match pair_at(text, i + 4) {
            Some((product, _)) => product,
            None => 0,
        }
    } else {
        0
    }
}

/// The sum of the products of the instructions `mul(a,b)` that stand at
/// the positions before `n`.
pub open spec fn products_before(text: Seq<u8>, n: int) -> int
    decreases n,
{
    if n <= 0 {
        0
    } else {
        products_before(text, n - 1) + mul_at(text, n - 1)
    }
}

/// What stands behind an opening bracket at position `i`: a closing
/// bracket at once, or a pair of numbers and a closing bracket; the
/// product, nought for no numbers.
pub open spec fn arguments_at(text: Seq<u8>, i: int) -> Option<int> {
    if byte_at(text, i) == 0x29 {
        Some(0)
    } else {
        match pair_at(text, i) {
            Some((product, _)) => Some(product),
            None => None,
        }
    }
}

/// The state of the switch and the sum after the instructions at the
/// positions before `n`: `do` switches the multiplications on, `don't`
/// off, and `mul` adds its product while they are on.
pub open spec fn switched_before(text: Seq<u8>, n: int) -> (bool, int)
    decreases n,
{
    if n <= 0 {
        (true, 0)
    } else {
        let (on, sum) = switched_before(text, n - 1);
        let i = n - 1;
        if word_at(text, i, mul_word()) && arguments_at(text, i + 4) is Some {
            (
                on,
                if on {
                    sum + arguments_at(text, i + 4).unwrap()
                } else {
                    sum
                },
            )
        } else if word_at(text, i, do_word()) && arguments_at(text, i + 3) is Some {
            (true, sum)
        } else if word_at(text, i, dont_word()) && arguments_at(text, i + 6) is Some {
            (false, sum)
        } else {
            (on, sum)
        }
    }
}

/// The byte at position `i`, nought past the end.
fn at(text: &Vec<u8>, i: usize) -> (b: u8)
    ensures
        b == byte_at(text@, i as int),
{
    if i < text.len() {
        text[i]
    } else {
        0
    }
}

/// Whether the word stands in the text from position `i` on.
fn stands(text: &Vec<u8>, i: usize, word: &Vec<u8>) -> (found: bool)
    requires
        i + word@.len() <= usize::MAX,
    ensures
        found == word_at(text@, i as int, word@),
{
    let mut k: usize = 0;
    while k < word.len()
        invariant
            k <= word@.len(),
            i + word@.len() <= usize::MAX,
            forall|j: int| 0 <= j < k ==> #[trigger] byte_at(text@, i + j) == word@[j],
        decreases word@.len() - k,
    {
        if at(text, i + k) != word[k] {
            return false;
        }
        k += 1;
    }
    true
}

/// The number of one to three digits that stands at position `i` with the
/// byte `close` behind it, and its length.
fn number(text: &Vec<u8>, i: usize, close: u8) -> (out: Option<(i32, usize)>)
    requires
        i + 4 <= usize::MAX,
    ensures
        match out {
            Some((v, n)) => 1 <= n <= 3 && n == digit_run(text@, i as int) && byte_at(text@, i + n)
                == close && v == number_at(text@, i as int, n as int) && 0 <= v <= 999,
            None => !(1 <= digit_run(text@, i as int) <= 3 && byte_at(
                text@,
                i + digit_run(text@, i as int),
            ) == close),
        },
{
    let mut v: i32 = 0;
    let mut n: usize = 0;
    while n < 4 && is_digit_byte(at(text, i + n))
        invariant
            n <= 4,
            i + 4 <= usize::MAX,
            forall|k: int| 0 <= k < n ==> is_digit(#[trigger] byte_at(text@, i + k)),
            v == number_at(text@, i as int, n as int),
            n <= 3 ==> 0 <= v <= pow10_small(n as int) - 1,
            n == 4 ==> 0 <= v <= 9999,
        decreases 4 - n,
    {
        let d = at(text, i + n);
        assert(byte_at(text@, i + n) == text@[i + n]);
        v = v * 10 + (d - 0x30) as i32;
        n += 1;
    }
    assert(n == digit_run(text@, i as int)) by {
        assert(forall|k: int| 0 <= k < n ==> is_digit(#[trigger] byte_at(text@, i + k)));
        if n >= 1 {
            assert(is_digit(byte_at(text@, i + 0)));
        }
        if n >= 2 {
            assert(is_digit(byte_at(text@, i + 1)));
        }
        if n >= 3 {
            assert(is_digit(byte_at(text@, i + 2)));
        }
        if n >= 4 {
            assert(is_digit(byte_at(text@, i + 3)));
        }
    }
    if n >= 1 && n <= 3 && at(text, i + n) == close {
        Some((v, n))
    } else {
        None
    }
}

/// Ten to the power `n`, for the powers up to three.
pub open spec fn pow10_small(n: int) -> int {
    if n <= 0 {
        1
    } else if n == 1 {
        10
    } else if n == 2 {
        100
    } else {
        1000
    }
}

fn is_digit_byte(b: u8) -> (d: bool)
    ensures
        d == is_digit(b),
{
    0x30 <= b && b <= 0x39
}

/// The product of the pair of numbers that stands at position `i`.
fn pair(text: &Vec<u8>, i: usize) -> (out: Option<i32>)
    requires
        i + 16 <= usize::MAX,
    ensures
        match out {
            Some(product) => pair_at(text@, i as int) is Some && product == pair_at(
                text@,
                i as int,
            ).unwrap().0 && 0 <= product <= 999 * 999,
            None => pair_at(text@, i as int) is None,
        },
{
    match number(text, i, 0x2c) {
        None => None,
        Some((a, n)) => match number(text, i + n + 1, 0x29) {
            None => None,
            Some((b, m)) => {
                assert(0 <= a * b <= 999 * 999) by (nonlinear_arith)
                    requires
                        0 <= a <= 999,
                        0 <= b <= 999,
                ;
                Some(a * b)
            },
        },
    }
}

/// What stands behind an opening bracket at position `i`.
fn arguments(text: &Vec<u8>, i: usize) -> (out: Option<i32>)
    requires
        i + 16 <= usize::MAX,
    ensures
        match out {
            Some(product) => arguments_at(text@, i as int) == Some(product as int) && 0 <= product
                <= 999 * 999,
            None => arguments_at(text@, i as int) is None,
        },
{
    if at(text, i) == 0x29 {
        Some(0)
    } else {
        pair(text, i)
    }
}

fn word(which: u8) -> (w: Vec<u8>)
    requires
        which < 3,
    ensures
        w@ == if which == 0 {
            mul_word()
        } else if which == 1 {
            do_word()
        } else {
            dont_word()
        },
{
    let mut w: Vec<u8> = Vec::new();
    if which == 0 {
        w.push(0x6d);
        w.push(0x75);
        w.push(0x6c);
        w.push(0x28);
        assert(w@ =~= mul_word());
    } else if which == 1 {
        w.push(0x64);
        w.push(0x6f);
        w.push(0x28);
        assert(w@ =~= do_word());
    } else {
        w.push(0x64);
        w.push(0x6f);
        w.push(0x6e);
        w.push(0x27);
        w.push(0x74);
        w.push(0x28);
        assert(w@ =~= dont_word());
    }
    w
}

/// No sum of products on the way is too large for `i32`.
pub open spec fn products_fit(text: Seq<u8>) -> bool {
    forall|n: int| 0 <= n <= text.len() ==> #[trigger] products_before(text, n) <= i32::MAX
}

/// The sum of the products of all instructions `mul(a,b)` in the text.
pub fn part1(text: &Vec<u8>) -> (sum: i32)
    requires
        text@.len() + 32 <= usize::MAX,
        products_fit(text@),
    ensures
        sum == products_before(text@, text@.len() as int),
{
    let mul = word(0);
    let mut sum: i32 = 0;
    let mut i: usize = 0;
    while i < text.len()
        invariant
            i <= text@.len(),
            text@.len() + 32 <= usize::MAX,
            products_fit(text@),
            mul@ == mul_word(),
            0 <= sum == products_before(text@, i as int),
        decreases text@.len() - i,
    {
        assert(products_before(text@, i + 1) <= i32::MAX);
        if stands(text, i, &mul) {
            match pair(text, i + 4) {
                Some(product) => {
                    sum = sum + product;
                },
                None => {},
            }
        }
        i += 1;
    }
    sum
}

/// No sum on the way, with the switch heeded, is too large for `i32`.
pub open spec fn switched_fit(text: Seq<u8>) -> bool {
    forall|n: int| 0 <= n <= text.len() ==> (#[trigger] switched_before(text, n)).1 <= i32::MAX
}

/// The sum of the products of the instructions `mul` that stand where the
/// multiplications are switched on.
pub fn part2(text: &Vec<u8>) -> (sum: i32)
    requires
        text@.len() + 32 <= usize::MAX,
        switched_fit(text@),
    ensures
        sum == switched_before(text@, text@.len() as int).1,
{
    let mul = word(0);
    let on_word = word(1);
    let off_word = word(2);
    let mut on = true;
    let mut sum: i32 = 0;
    let mut i: usize = 0;
    while i < text.len()
        invariant
            i <= text@.len(),
            text@.len() + 32 <= usize::MAX,
            switched_fit(text@),
            mul@ == mul_word(),
            on_word@ == do_word(),
            off_word@ == dont_word(),
            0 <= sum,
            (on, sum as int) == switched_before(text@, i as int),
        decreases text@.len() - i,
    {
        assert(switched_before(text@, i + 1).1 <= i32::MAX);
        let mut done = false;
        if stands(text, i, &mul) {
            match arguments(text, i + 4) {
                Some(product) => {
                    if on {
                        sum = sum + product;
                    }
                    done = true;
                },
                None => {},
            }
        }
        if !done && stands(text, i, &on_word) {
            match arguments(text, i + 3) {
                Some(_) => {
                    on = true;
                    done = true;
                },
                None => {},
            }
        }
        if !done && stands(text, i, &off_word) {
            match arguments(text, i + 6) {
                Some(_) => {
                    on = false;
                },
                None => {},
            }
        }
        i += 1;
    }
    sum
}

} // verus!
