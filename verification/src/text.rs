//! Text as a row of characters: lines, pieces between separators, words,
//! and numbers.

use vstd::prelude::*;
use vstd::string::*;
use regex::Regex;

verus! {

/// The character is a decimal digit.
pub open spec fn is_digit(c: char) -> bool {
    '0' <= c <= '9'
}

/// The number that a digit stands for.
pub open spec fn digit_of(c: char) -> int {
    c as int - '0' as int
}

/// The number that the first `n` characters stand for, read as decimal
/// digits.
pub open spec fn decimal(s: Seq<char>, n: int) -> int
    decreases n,
{
    if n <= 0 {
        0
    } else {
        decimal(s, n - 1) * 10 + digit_of(s[n - 1])
    }
}

/// There is a character, and every character is a digit.
pub open spec fn all_digits(s: Seq<char>) -> bool {
    s.len() > 0 && forall|i: int| 0 <= i < s.len() ==> is_digit(#[trigger] s[i])
}

/// The text without a sign before it.
pub open spec fn unsigned_part(s: Seq<char>) -> Seq<char> {
    if s.len() > 0 && (s[0] == '+' || s[0] == '-') {
        s.skip(1)
    } else {
        s
    }
}

/// The number that the text stands for: digits with a plus or minus sign
/// before them, or none.
pub open spec fn number_of(s: Seq<char>) -> int {
    let body = unsigned_part(s);
    if s.len() > 0 && s[0] == '-' {
        -decimal(body, body.len() as int)
    } else {
        decimal(body, body.len() as int)
    }
}

/// The text is a number without a minus sign.
pub open spec fn is_unsigned(s: Seq<char>) -> bool {
    all_digits(unsigned_part(s)) && !(s.len() > 0 && s[0] == '-')
}

/// The text is a number.
pub open spec fn is_number(s: Seq<char>) -> bool {
    all_digits(unsigned_part(s))
}

/// The number read off the digits grows with the digits read.
pub proof fn lemma_decimal_grows(s: Seq<char>, m: int, n: int)
    requires
        0 <= m <= n <= s.len(),
        forall|i: int| 0 <= i < s.len() ==> is_digit(#[trigger] s[i]),
    ensures
        0 <= decimal(s, m) <= decimal(s, n),
    decreases n,
{
    if n > 0 {
        assert(is_digit(s[n - 1]));
        if m < n {
            lemma_decimal_grows(s, m, n - 1);
        } else {
            lemma_decimal_grows(s, m - 1, n - 1);
        }
    }
}

/// The number of a character.
fn code(c: char) -> (n: u32)
    ensures
        n == c as int,
{
    c as u32
}

/// The number that a digit stands for.
pub fn digit(c: char) -> (d: Option<u32>)
    ensures
        match d {
            Some(v) => is_digit(c) && v == digit_of(c),
            None => !is_digit(c),
        },
{
    let n = code(c);
    if 48 <= n && n <= 57 {
        Some(n - 48)
    } else {
        None
    }
}

/// The number that the digits from `from` on stand for; `None` where one
/// of them is no digit, where there is none, or where the number does not
/// fit.
fn digits_value(text: &Vec<char>, from: usize) -> (out: Option<u128>)
    requires
        from <= text@.len(),
    ensures
        match out {
            Some(v) => all_digits(text@.skip(from as int)) && v == decimal(
                text@.skip(from as int),
                text@.len() - from,
            ),
            None => !all_digits(text@.skip(from as int)) || decimal(
                text@.skip(from as int),
                text@.len() - from,
            ) > u128::MAX,
        },
{
    let ghost s = text@.skip(from as int);
    if from == text.len() {
        return None;
    }
    let mut v: u128 = 0;
    let mut i: usize = from;
    while i < text.len()
        invariant
            from <= i <= text@.len(),
            s == text@.skip(from as int),
            forall|j: int| 0 <= j < i - from ==> is_digit(#[trigger] s[j]),
            v == decimal(s, i - from),
        decreases text@.len() - i,
    {
        let c = text[i];
        assert(s[i - from] == c);
        match digit(c) {
            None => {
                return None;
            },
            Some(d) => {
                let next = match v.checked_mul(10) {
                    Some(t) => t.checked_add(d as u128),
                    None => None,
                };
                match next {
                    Some(n) => {
                        v = n;
                    },
                    None => {
                        proof {
                            if all_digits(s) {
                                lemma_decimal_grows(s, i - from + 1, s.len() as int);
                            }
                        }
                        return None;
                    },
                }
            },
        }
        i += 1;
    }
    Some(v)
}

/// The number that the text stands for, if it is a number without a minus
/// sign that fits.
pub fn parse_usize(text: &Vec<char>) -> (out: Option<usize>)
    ensures
        match out {
            Some(v) => is_unsigned(text@) && v == number_of(text@),
            None => !is_unsigned(text@) || number_of(text@) > usize::MAX,
        },
{
    if text.len() > 0 && text[0] == '-' {
        return None;
    }
    let from: usize = if text.len() > 0 && text[0] == '+' {
        1
    } else {
        0
    };
    proof {
        assert(text@.skip(0) =~= text@);
    }
    match digits_value(text, from) {
        None => None,
        Some(v) => if v <= usize::MAX as u128 {
            Some(v as usize)
        } else {
            None
        },
    }
}

/// The number that the text stands for, if it is a number that fits.
pub fn parse_i32(text: &Vec<char>) -> (out: Option<i32>)
    ensures
        match out {
            Some(v) => is_number(text@) && v == number_of(text@),
            None => !is_number(text@) || number_of(text@) > i32::MAX || number_of(text@) < i32::MIN,
        },
{
    let minus = text.len() > 0 && text[0] == '-';
    let from: usize = if text.len() > 0 && (text[0] == '+' || text[0] == '-') {
        1
    } else {
        0
    };
    proof {
        assert(text@.skip(0) =~= text@);
    }
    match digits_value(text, from) {
        None => None,
        Some(v) => if minus {
            if v <= 0x8000_0000 {
                Some((0 - (v as i64)) as i32)
            } else {
                None
            }
        } else {
            if v <= 0x7fff_ffff {
                Some(v as i32)
            } else {
                None
            }
        },
    }
}

/// The line without a carriage return at its end.
pub open spec fn without_return(line: Seq<char>) -> Seq<char> {
    if line.len() > 0 && line.last() == '\r' {
        line.drop_last()
    } else {
        line
    }
}

/// The lines that are ended among the first `n` characters, and what
/// stands behind the last line end.
pub open spec fn lines_upto(text: Seq<char>, n: int) -> (Seq<Seq<char>>, Seq<char>)
    decreases n,
{
    if n <= 0 {
        (Seq::empty(), Seq::empty())
    } else {
        let (done, rest) = lines_upto(text, n - 1);
        if text[n - 1] == '\n' {
            (done.push(without_return(rest)), Seq::empty())
        } else {
            (done, rest.push(text[n - 1]))
        }
    }
}

/// The lines of the text: a line ends at a line feed, or at a carriage
/// return with a line feed behind it, and what stands behind the last line
/// end is a line if it is not empty.
pub open spec fn lines_of(text: Seq<char>) -> Seq<Seq<char>> {
    let (done, rest) = lines_upto(text, text.len() as int);
    if rest.len() > 0 {
        done.push(rest)
    } else {
        done
    }
}

/// The rows of a list of rows of characters.
pub open spec fn rows(list: Seq<Vec<char>>) -> Seq<Seq<char>> {
    Seq::new(list.len(), |i: int| list[i]@)
}

/// The lines of the text.
pub fn lines(text: &Vec<char>) -> (out: Vec<Vec<char>>)
    ensures
        rows(out@) == lines_of(text@),
{
    let mut out: Vec<Vec<char>> = Vec::new();
    let mut rest: Vec<char> = Vec::new();
    let mut i: usize = 0;
    assert(rows(out@) =~= lines_upto(text@, 0).0);
    while i < text.len()
        invariant
            i <= text@.len(),
            (rows(out@), rest@) == lines_upto(text@, i as int),
        decreases text@.len() - i,
    {
        let c = text[i];
        if c == '\n' {
            let n = rest.len();
            if n > 0 && rest[n - 1] == '\r' {
                rest.pop();
            }
            let ghost before = rows(out@);
            let ghost line = rest@;
            out.push(rest);
            assert(rows(out@) =~= before.push(line));
            rest = Vec::new();
        } else {
            rest.push(c);
        }
        i += 1;
    }
    if rest.len() > 0 {
        let ghost before = rows(out@);
        let ghost line = rest@;
        out.push(rest);
        assert(rows(out@) =~= before.push(line));
    }
    out
}

/// The separator stands in the text from position `i` on.
pub open spec fn stands_at(text: Seq<char>, i: int, sep: Seq<char>) -> bool {
    &&& sep.len() > 0
    &&& 0 <= i
    &&& i + sep.len() <= text.len()
    &&& forall|k: int| 0 <= k < sep.len() ==> #[trigger] text[i + k] == sep[k]
}

/// The pieces into which the separator cuts the text from position `i`
/// on, `piece` being what is gathered of the piece at hand.
pub open spec fn pieces_from(text: Seq<char>, sep: Seq<char>, i: int, piece: Seq<char>) -> Seq<Seq<char>>
    decreases text.len() - i,
{
    if i < 0 || i >= text.len() {
        seq![piece]
    } else if stands_at(text, i, sep) {
        seq![piece] + pieces_from(text, sep, i + sep.len(), Seq::empty())
    } else {
        pieces_from(text, sep, i + 1, piece.push(text[i]))
    }
}

/// The pieces into which the separator cuts the text.
pub open spec fn pieces_of(text: Seq<char>, sep: Seq<char>) -> Seq<Seq<char>> {
    pieces_from(text, sep, 0, Seq::empty())
}

/// Whether the separator stands in the text from position `i` on.
fn found_at(text: &Vec<char>, i: usize, sep: &Vec<char>) -> (found: bool)
    requires
        i <= text@.len(),
    ensures
        found == stands_at(text@, i as int, sep@),
{
    if sep.len() == 0 || sep.len() > text.len() - i {
        return false;
    }
    let mut k: usize = 0;
    while k < sep.len()
        invariant
            k <= sep@.len(),
            i + sep@.len() <= text@.len() <= usize::MAX,
            forall|j: int| 0 <= j < k ==> #[trigger] text@[i + j] == sep@[j],
        decreases sep@.len() - k,
    {
        if text[i + k] != sep[k] {
            return false;
        }
        k += 1;
    }
    true
}

/// The pieces into which the separator cuts the text.
pub fn split(text: &Vec<char>, sep: &Vec<char>) -> (out: Vec<Vec<char>>)
    ensures
        rows(out@) == pieces_of(text@, sep@),
{
    let mut out: Vec<Vec<char>> = Vec::new();
    let mut piece: Vec<char> = Vec::new();
    let mut i: usize = 0;
    assert(rows(out@) + pieces_from(text@, sep@, 0, piece@) =~= pieces_of(text@, sep@));
    while i < text.len()
        invariant
            i <= text@.len(),
            rows(out@) + pieces_from(text@, sep@, i as int, piece@) == pieces_of(text@, sep@),
        decreases text@.len() - i,
    {
        let ghost before = rows(out@);
        let ghost at_hand = piece@;
        if found_at(text, i, sep) {
            out.push(piece);
            piece = Vec::new();
            proof {
                assert(rows(out@) =~= before.push(at_hand));
                assert(before + (seq![at_hand] + pieces_from(
                    text@,
                    sep@,
                    i + sep@.len(),
                    Seq::empty(),
                )) =~= before.push(at_hand) + pieces_from(text@, sep@, i + sep@.len(), Seq::empty()));
            }
            i += sep.len();
        } else {
            piece.push(text[i]);
            i += 1;
        }
    }
    let ghost before = rows(out@);
    let ghost at_hand = piece@;
    out.push(piece);
    proof {
        assert(rows(out@) =~= before.push(at_hand));
        assert(before + seq![at_hand] =~= before.push(at_hand));
    }
    out
}

/// The character is white space.
pub open spec fn is_space(c: char) -> bool {
    c == ' ' || c == '\t' || c == '\n' || c == '\r' || c == '\x0c'
}

/// The words that are ended among the first `n` characters, and the word
/// at hand.
pub open spec fn words_upto(text: Seq<char>, n: int) -> (Seq<Seq<char>>, Seq<char>)
    decreases n,
{
    if n <= 0 {
        (Seq::empty(), Seq::empty())
    } else {
        let (done, word) = words_upto(text, n - 1);
        if is_space(text[n - 1]) {
            if word.len() > 0 {
                (done.push(word), Seq::empty())
            } else {
                (done, word)
            }
        } else {
            (done, word.push(text[n - 1]))
        }
    }
}

/// The words of the text: what stands between white space.
pub open spec fn words_of(text: Seq<char>) -> Seq<Seq<char>> {
    let (done, word) = words_upto(text, text.len() as int);
    if word.len() > 0 {
        done.push(word)
    } else {
        done
    }
}

/// The words of the text.
pub fn words(text: &Vec<char>) -> (out: Vec<Vec<char>>)
    ensures
        rows(out@) == words_of(text@),
{
    let mut out: Vec<Vec<char>> = Vec::new();
    let mut word: Vec<char> = Vec::new();
    let mut i: usize = 0;
    assert(rows(out@) =~= words_upto(text@, 0).0);
    while i < text.len()
        invariant
            i <= text@.len(),
            (rows(out@), word@) == words_upto(text@, i as int),
        decreases text@.len() - i,
    {
        let c = text[i];
        if c == ' ' || c == '\t' || c == '\n' || c == '\r' || c == '\x0c' {
            if word.len() > 0 {
                let ghost before = rows(out@);
                let ghost at_hand = word@;
                out.push(word);
                assert(rows(out@) =~= before.push(at_hand));
                word = Vec::new();
            }
        } else {
            word.push(c);
        }
        i += 1;
    }
    if word.len() > 0 {
        let ghost before = rows(out@);
        let ghost at_hand = word@;
        out.push(word);
        assert(rows(out@) =~= before.push(at_hand));
    }
    out
}

/// The text is a number that fits in `i32`.
pub open spec fn fits_i32(s: Seq<char>) -> bool {
    is_number(s) && i32::MIN <= number_of(s) <= i32::MAX
}

/// The text is a number without a minus sign that fits in `usize`.
pub open spec fn fits_usize(s: Seq<char>) -> bool {
    is_unsigned(s) && number_of(s) <= usize::MAX
}

/// The numbers that the texts stand for, if every one is a number that
/// fits in `i32`.
pub fn numbers_i32(texts: &Vec<Vec<char>>) -> (out: Option<Vec<i32>>)
    ensures
        match out {
            Some(v) => v@.len() == texts@.len() && forall|i: int|
                0 <= i < texts@.len() ==> fits_i32((#[trigger] texts@[i])@) && v@[i] == number_of(
                    texts@[i]@,
                ),
            None => exists|i: int| 0 <= i < texts@.len() && !fits_i32((#[trigger] texts@[i])@),
        },
{
    let mut v: Vec<i32> = Vec::new();
    let mut i: usize = 0;
    while i < texts.len()
        invariant
            i <= texts@.len(),
            v@.len() == i,
            forall|k: int|
                0 <= k < i ==> fits_i32((#[trigger] texts@[k])@) && v@[k] == number_of(texts@[k]@),
        decreases texts@.len() - i,
    {
        match parse_i32(&texts[i]) {
            Some(n) => {
                v.push(n);
            },
            None => {
                assert(!fits_i32(texts@[i as int]@));
                return None;
            },
        }
        i += 1;
    }
    Some(v)
}

/// The numbers that the texts stand for, if every one is a number without a
/// minus sign that fits in `usize`.
pub fn numbers_usize(texts: &Vec<Vec<char>>) -> (out: Option<Vec<usize>>)
    ensures
        match out {
            Some(v) => v@.len() == texts@.len() && forall|i: int|
                0 <= i < texts@.len() ==> fits_usize((#[trigger] texts@[i])@) && v@[i] == number_of(
                    texts@[i]@,
                ),
            None => exists|i: int| 0 <= i < texts@.len() && !fits_usize((#[trigger] texts@[i])@),
        },
{
    let mut v: Vec<usize> = Vec::new();
    let mut i: usize = 0;
    while i < texts.len()
        invariant
            i <= texts@.len(),
            v@.len() == i,
            forall|k: int|
                0 <= k < i ==> fits_usize((#[trigger] texts@[k])@) && v@[k] == number_of(texts@[k]@),
        decreases texts@.len() - i,
    {
        match parse_usize(&texts[i]) {
            Some(n) => {
                v.push(n);
            },
            None => {
                assert(!fits_usize(texts@[i as int]@));
                return None;
            },
        }
        i += 1;
    }
    Some(v)
}

/// The row holds the numbers that the digits of the line stand for.
pub open spec fn row_of_digits(line: Seq<char>, row: Seq<u32>) -> bool {
    row.len() == line.len() && forall|i: int|
        0 <= i < line.len() ==> is_digit(#[trigger] line[i]) && row[i] == digit_of(line[i])
}

/// The numbers that the digits stand for, if every character is a digit.
pub fn digits(text: &Vec<char>) -> (out: Option<Vec<u32>>)
    ensures
        match out {
            Some(v) => row_of_digits(text@, v@),
            None => exists|i: int| 0 <= i < text@.len() && !is_digit(#[trigger] text@[i]),
        },
{
    let mut v: Vec<u32> = Vec::new();
    let mut i: usize = 0;
    while i < text.len()
        invariant
            i <= text@.len(),
            v@.len() == i,
            forall|k: int| 0 <= k < i ==> is_digit(#[trigger] text@[k]) && v@[k] == digit_of(text@[k]),
        decreases text@.len() - i,
    {
        match digit(text[i]) {
            Some(d) => {
                v.push(d);
            },
            None => {
                assert(!is_digit(text@[i as int]));
                return None;
            },
        }
        i += 1;
    }
    Some(v)
}

/// The separator that sets sections apart: an empty line.
pub open spec fn blank_line() -> Seq<char> {
    seq!['\n', '\n']
}

/// The sections of the text: what stands between empty lines.
pub fn sections(text: &Vec<char>) -> (out: Vec<Vec<char>>)
    ensures
        rows(out@) == pieces_of(text@, blank_line()),
{
    let mut sep: Vec<char> = Vec::new();
    sep.push('\n');
    sep.push('\n');
    assert(sep@ =~= blank_line());
    split(text, &sep)
}

/// The separator that a single character makes.
pub fn separator(c: char) -> (sep: Vec<char>)
    ensures
        sep@ == seq![c],
{
    let mut sep: Vec<char> = Vec::new();
    sep.push(c);
    assert(sep@ =~= seq![c]);
    sep
}

/// The characters of the text.
pub fn chars_of(text: &str) -> (out: Vec<char>)
    ensures
        out@ == text@,
{
    let n = text.unicode_len();
    let mut out: Vec<char> = Vec::new();
    let mut i: usize = 0;
    while i < n
        invariant
            i <= n,
            n == text@.len(),
            out@.len() == i,
            forall|k: int| 0 <= k < i ==> out@[k] == text@[k],
        decreases n - i,
    {
        out.push(text.get_char(i));
        i += 1;
    }
    assert(out@ =~= text@);
    out
}

/// The pieces of every line of the text, cut at the separator.
pub fn table(text: &Vec<char>, sep: &Vec<char>) -> (out: Vec<Vec<Vec<char>>>)
    ensures
        out@.len() == lines_of(text@).len(),
        forall|i: int|
            0 <= i < out@.len() ==> rows((#[trigger] out@[i])@) == pieces_of(lines_of(text@)[i], sep@),
{
    let all = lines(text);
    let mut out: Vec<Vec<Vec<char>>> = Vec::new();
    let mut i: usize = 0;
    assert(rows(all@).len() == all@.len());
    while i < all.len()
        invariant
            i <= all@.len(),
            all@.len() == lines_of(text@).len(),
            rows(all@) == lines_of(text@),
            out@.len() == i,
            forall|k: int|
                0 <= k < i ==> rows((#[trigger] out@[k])@) == pieces_of(lines_of(text@)[k], sep@),
        decreases all@.len() - i,
    {
        assert(rows(all@)[i as int] == all@[i as int]@);
        out.push(split(&all[i], sep));
        i += 1;
    }
    out
}

/// The words of every line of the text.
pub fn word_table(text: &Vec<char>) -> (out: Vec<Vec<Vec<char>>>)
    ensures
        out@.len() == lines_of(text@).len(),
        forall|i: int| 0 <= i < out@.len() ==> rows((#[trigger] out@[i])@) == words_of(lines_of(text@)[i]),
{
    let all = lines(text);
    let mut out: Vec<Vec<Vec<char>>> = Vec::new();
    let mut i: usize = 0;
    assert(rows(all@).len() == all@.len());
    while i < all.len()
        invariant
            i <= all@.len(),
            all@.len() == lines_of(text@).len(),
            rows(all@) == lines_of(text@),
            out@.len() == i,
            forall|k: int| 0 <= k < i ==> rows((#[trigger] out@[k])@) == words_of(lines_of(text@)[k]),
        decreases all@.len() - i,
    {
        assert(rows(all@)[i as int] == all@[i as int]@);
        out.push(words(&all[i]));
        i += 1;
    }
    out
}

/// Every text of every row is a number that fits in `i32`.
pub open spec fn all_fit_i32(table: Seq<Vec<Vec<char>>>) -> bool {
    forall|i: int, j: int|
        0 <= i < table.len() && 0 <= j < table[i]@.len() ==> fits_i32((#[trigger] table[i]@[j])@)
}

/// The numbers of every row of the table, if every text is a number that
/// fits in `i32`.
pub fn table_i32(table: &Vec<Vec<Vec<char>>>) -> (out: Option<Vec<Vec<i32>>>)
    ensures
        match out {
            Some(v) => all_fit_i32(table@) && v@.len() == table@.len() && forall|i: int|
                0 <= i < v@.len() ==> (#[trigger] v@[i])@.len() == table@[i]@.len() && forall|j: int|
                    0 <= j < v@[i]@.len() ==> #[trigger] v@[i]@[j] == number_of(table@[i]@[j]@),
            None => !all_fit_i32(table@),
        },
{
    let mut v: Vec<Vec<i32>> = Vec::new();
    let mut i: usize = 0;
    while i < table.len()
        invariant
            i <= table@.len(),
            v@.len() == i,
            forall|a: int, b: int|
                0 <= a < i && 0 <= b < table@[a]@.len() ==> fits_i32((#[trigger] table@[a]@[b])@),
            forall|a: int|
                0 <= a < i ==> (#[trigger] v@[a])@.len() == table@[a]@.len() && forall|b: int|
                    0 <= b < v@[a]@.len() ==> #[trigger] v@[a]@[b] == number_of(table@[a]@[b]@),
        decreases table@.len() - i,
    {
        match numbers_i32(&table[i]) {
            Some(row) => {
                v.push(row);
            },
            None => {
                proof {
                    let j = choose|j: int|
                        0 <= j < table@[i as int]@.len() && !fits_i32((#[trigger] table@[i as int]@[j])@);
                    assert(!fits_i32(table@[i as int]@[j]@));
                }
                return None;
            },
        }
        i += 1;
    }
    Some(v)
}

/// Every text of every row is a number without a minus sign that fits in
/// `usize`.
pub open spec fn all_fit_usize(table: Seq<Vec<Vec<char>>>) -> bool {
    forall|i: int, j: int|
        0 <= i < table.len() && 0 <= j < table[i]@.len() ==> fits_usize((#[trigger] table[i]@[j])@)
}

/// The numbers of every row of the table, if every text is a number
/// without a minus sign that fits in `usize`.
pub fn table_usize(table: &Vec<Vec<Vec<char>>>) -> (out: Option<Vec<Vec<usize>>>)
    ensures
        match out {
            Some(v) => all_fit_usize(table@) && v@.len() == table@.len() && forall|i: int|
                0 <= i < v@.len() ==> (#[trigger] v@[i])@.len() == table@[i]@.len() && forall|j: int|
                    0 <= j < v@[i]@.len() ==> #[trigger] v@[i]@[j] == number_of(table@[i]@[j]@),
            None => !all_fit_usize(table@),
        },
{
    let mut v: Vec<Vec<usize>> = Vec::new();
    let mut i: usize = 0;
    while i < table.len()
        invariant
            i <= table@.len(),
            v@.len() == i,
            forall|a: int, b: int|
                0 <= a < i && 0 <= b < table@[a]@.len() ==> fits_usize((#[trigger] table@[a]@[b])@),
            forall|a: int|
                0 <= a < i ==> (#[trigger] v@[a])@.len() == table@[a]@.len() && forall|b: int|
                    0 <= b < v@[a]@.len() ==> #[trigger] v@[a]@[b] == number_of(table@[a]@[b]@),
        decreases table@.len() - i,
    {
        match numbers_usize(&table[i]) {
            Some(row) => {
                v.push(row);
            },
            None => {
                proof {
                    let j = choose|j: int|
                        0 <= j < table@[i as int]@.len() && !fits_usize((#[trigger] table@[i as int]@[j])@);
                    assert(!fits_usize(table@[i as int]@[j]@));
                }
                return None;
            },
        }
        i += 1;
    }
    Some(v)
}

/// The rows as pairs, if every row holds two items.
pub fn pairs<T: Copy>(table: &Vec<Vec<T>>) -> (out: Option<Vec<(T, T)>>)
    ensures
        match out {
            Some(v) => v@.len() == table@.len() && forall|i: int|
                0 <= i < v@.len() ==> (#[trigger] table@[i])@.len() == 2 && v@[i] == (
                    table@[i]@[0],
                    table@[i]@[1],
                ),
            None => exists|i: int| 0 <= i < table@.len() && (#[trigger] table@[i])@.len() != 2,
        },
{
    let mut v: Vec<(T, T)> = Vec::new();
    let mut i: usize = 0;
    while i < table.len()
        invariant
            i <= table@.len(),
            v@.len() == i,
            forall|k: int|
                0 <= k < i ==> (#[trigger] table@[k])@.len() == 2 && v@[k] == (
                    table@[k]@[0],
                    table@[k]@[1],
                ),
        decreases table@.len() - i,
    {
        let row = &table[i];
        if row.len() != 2 {
            return None;
        }
        v.push((row[0], row[1]));
        i += 1;
    }
    Some(v)
}

/// The rows as pairs of names, if every row holds two names.
pub fn name_pairs(table: Vec<Vec<Vec<char>>>) -> (out: Option<Vec<(Vec<char>, Vec<char>)>>)
    ensures
        match out {
            Some(v) => v@.len() == table@.len() && forall|i: int|
                0 <= i < v@.len() ==> (#[trigger] table@[i])@.len() == 2 && v@[i].0@ == table@[i]@[0]@
                    && v@[i].1@ == table@[i]@[1]@,
            None => exists|i: int| 0 <= i < table@.len() && (#[trigger] table@[i])@.len() != 2,
        },
{
    let mut v: Vec<(Vec<char>, Vec<char>)> = Vec::new();
    let mut i: usize = 0;
    while i < table.len()
        invariant
            i <= table@.len(),
            v@.len() == i,
            forall|k: int|
                0 <= k < i ==> (#[trigger] table@[k])@.len() == 2 && v@[k].0@ == table@[k]@[0]@
                    && v@[k].1@ == table@[k]@[1]@,
        decreases table@.len() - i,
    {
        let row = &table[i];
        if row.len() != 2 {
            return None;
        }
        v.push((crate::names::copy(&row[0]), crate::names::copy(&row[1])));
        i += 1;
    }
    Some(v)
}

/// The rows of digits that the lines of the text hold, if every character
/// of every line is a digit.
pub fn digit_rows(text: &Vec<char>) -> (out: Option<Vec<Vec<u32>>>)
    ensures
        match out {
            Some(v) => v@.len() == lines_of(text@).len() && forall|i: int|
                0 <= i < v@.len() ==> row_of_digits(lines_of(text@)[i], (#[trigger] v@[i])@),
            None => exists|i: int, j: int|
                0 <= i < lines_of(text@).len() && 0 <= j < lines_of(text@)[i].len() && !is_digit(
                    #[trigger] lines_of(text@)[i][j],
                ),
        },
{
    let all = lines(text);
    let mut v: Vec<Vec<u32>> = Vec::new();
    let mut i: usize = 0;
    assert(rows(all@).len() == all@.len());
    while i < all.len()
        invariant
            i <= all@.len(),
            all@.len() == lines_of(text@).len(),
            rows(all@) == lines_of(text@),
            v@.len() == i,
            forall|a: int| 0 <= a < i ==> row_of_digits(lines_of(text@)[a], (#[trigger] v@[a])@),
        decreases all@.len() - i,
    {
        assert(rows(all@)[i as int] == all@[i as int]@);
        match digits(&all[i]) {
            Some(row) => {
                v.push(row);
            },
            None => {
                proof {
                    let j = choose|j: int|
                        0 <= j < all@[i as int]@.len() && !is_digit(#[trigger] all@[i as int]@[j]);
                    assert(!is_digit(lines_of(text@)[i as int][j]));
                }
                return None;
            },
        }
        i += 1;
    }
    Some(v)
}

/// All the characters of the lines of the text, line after line.
pub open spec fn joined_upto(list: Seq<Seq<char>>, n: int) -> Seq<char>
    decreases n,
{
    if n <= 0 {
        Seq::empty()
    } else {
        joined_upto(list, n - 1) + list[n - 1]
    }
}

/// All the characters of the lines of the text, line after line.
pub fn joined_lines(text: &Vec<char>) -> (out: Vec<char>)
    ensures
        out@ == joined_upto(lines_of(text@), lines_of(text@).len() as int),
{
    let all = lines(text);
    let mut out: Vec<char> = Vec::new();
    let mut i: usize = 0;
    assert(rows(all@).len() == all@.len());
    while i < all.len()
        invariant
            i <= all@.len(),
            all@.len() == lines_of(text@).len(),
            rows(all@) == lines_of(text@),
            out@ == joined_upto(lines_of(text@), i as int),
        decreases all@.len() - i,
    {
        let line = &all[i];
        assert(rows(all@)[i as int] == line@);
        let ghost base = out@;
        let mut k: usize = 0;
        while k < line.len()
            invariant
                k <= line@.len(),
                out@ == base + line@.take(k as int),
            decreases line@.len() - k,
        {
            out.push(line[k]);
            assert(line@.take(k + 1) =~= line@.take(k as int).push(line@[k as int]));
            assert(out@ =~= base + line@.take(k + 1));
            k += 1;
        }
        assert(line@.take(line@.len() as int) =~= line@);
        i += 1;
    }
    out
}

/// What the groups of the first match of a pattern in a text hold, as the
/// `regex` crate finds them; nothing where the crate takes the pattern for
/// no pattern or finds no match. Group nought is the whole match, and a
/// group that took no part in the match holds nothing.
pub uninterp spec fn regex_groups(pattern: Seq<char>, text: Seq<char>) -> Option<Seq<Option<Seq<char>>>>;

/// A list of groups as a mathematical value.
pub open spec fn list_model(list: Seq<Option<Vec<char>>>) -> Seq<Option<Seq<char>>> {
    Seq::new(
        list.len(),
        |i: int|
            match list[i] {
                None => None,
                Some(group) => Some(group@),
            },
    )
}

/// The groups as a mathematical value.
pub open spec fn groups_model(groups: Option<Vec<Option<Vec<char>>>>) -> Option<Seq<Option<Seq<char>>>> {
    match groups {
        None => None,
        Some(list) => Some(list_model(list@)),
    }
}

/// The groups of the first match of the pattern in the text, by `Regex::new`
/// and `Regex::captures`, read off with `Captures::len` and `Captures::get`.
/// The contract names what these give and claims nothing more of it.
#[verifier::external_body]
pub(crate) fn groups(pattern: &Vec<char>, text: &Vec<char>) -> (out: Option<Vec<Option<Vec<char>>>>)
    ensures
        groups_model(out) == regex_groups(pattern@, text@),
{
    let re = Regex::new(&pattern.iter().collect::<String>()).ok()?;
    let hay: String = text.iter().collect();
    let caps = re.captures(&hay)?;
    Some((0..caps.len()).map(|i| caps.get(i).map(|m| m.as_str().chars().collect())).collect())
}

/// The text of group `i`, if the group is there and holds something.
pub open spec fn group_text(groups: Seq<Option<Seq<char>>>, i: int) -> Option<Seq<char>> {
    if 0 <= i < groups.len() {
        groups[i]
    } else {
        None
    }
}

/// The text of group `i`, if the group is there and holds something.
pub fn group(groups: &Vec<Option<Vec<char>>>, i: usize) -> (out: Option<&Vec<char>>)
    ensures
        match out {
            Some(text) => group_text(list_model(groups@), i as int) == Some(text@),
            None => group_text(list_model(groups@), i as int) is None,
        },
{
    if i >= groups.len() {
        return None;
    }
    match &groups[i] {
        None => None,
        Some(text) => Some(text),
    }
}

/// The number that the text stands for, if there is a text and it is a
/// number without a minus sign that fits in `usize`.
pub open spec fn usize_of(text: Option<Seq<char>>) -> Option<usize> {
    match text {
        Some(s) => if fits_usize(s) {
            Some(number_of(s) as usize)
        } else {
            None
        },
        None => None,
    }
}

/// The number that the text stands for, if there is a text and it is a
/// number that fits in `i32`.
pub open spec fn i32_of(text: Option<Seq<char>>) -> Option<i32> {
    match text {
        Some(s) => if fits_i32(s) {
            Some(number_of(s) as i32)
        } else {
            None
        },
        None => None,
    }
}

/// The number that group `i` holds.
pub fn group_usize(groups: &Vec<Option<Vec<char>>>, i: usize) -> (out: Option<usize>)
    ensures
        out == usize_of(group_text(list_model(groups@), i as int)),
{
    match group(groups, i) {
        None => None,
        Some(text) => parse_usize(text),
    }
}

/// The number that group `i` holds.
pub fn group_i32(groups: &Vec<Option<Vec<char>>>, i: usize) -> (out: Option<i32>)
    ensures
        out == i32_of(group_text(list_model(groups@), i as int)),
{
    match group(groups, i) {
        None => None,
        Some(text) => parse_i32(text),
    }
}

} // verus!
