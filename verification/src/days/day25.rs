//! Locks and keys: a key fits a lock if no column of pins overlaps.

use vstd::prelude::*;

verus! {

#[derive(Debug, Copy, Clone, PartialEq, Eq, Hash, Structural)]
pub enum TumblerType {
    Lock,
    Key,
}

pub struct LockKey {
    pub tumbler: TumblerType,
    pub pins: Vec<usize>,
}

/// The items of the first `n` whose type is `t`, in their order.
pub open spec fn of_type(lk: Seq<LockKey>, t: TumblerType, n: int) -> Seq<LockKey>
    decreases n,
{
    if n <= 0 {
        Seq::empty()
    } else if lk[n - 1].tumbler == t {
        of_type(lk, t, n - 1).push(lk[n - 1])
    } else {
        of_type(lk, t, n - 1)
    }
}

/// The items whose type is `t`, in their order.
pub fn filter_type(lk: Vec<LockKey>, t: TumblerType) -> (out: Vec<LockKey>)
    ensures
        out@ == of_type(lk@, t, lk@.len() as int),
{
    let mut out: Vec<LockKey> = Vec::new();
    let ghost all = lk@;
    let mut rest = lk;
    let mut taken: Vec<LockKey> = Vec::new();
    // Items leave `rest` from its end, so they are gathered in reverse and
    // turned round at last.
    while rest.len() > 0
        invariant
            rest@.len() <= all.len(),
            rest@ == all.take(rest@.len() as int),
            taken@.len() + rest@.len() == all.len(),
            forall|j: int| 0 <= j < taken@.len() ==> #[trigger] taken@[j] == all[all.len() - 1 - j],
        decreases rest@.len(),
    {
        let ghost before = rest@;
        let item = rest.pop().unwrap();
        taken.push(item);
        assert(rest@ =~= all.take(rest@.len() as int));
    }
    while taken.len() > 0
        invariant
            taken@.len() <= all.len(),
            forall|j: int| 0 <= j < taken@.len() ==> #[trigger] taken@[j] == all[all.len() - 1 - j],
            out@ == of_type(all, t, all.len() - taken@.len()),
        decreases taken@.len(),
    {
        let item = taken.pop().unwrap();
        if item.tumbler == t {
            out.push(item);
        }
    }
    out
}

/// The number of `#` in column `x` of the first `n` rows.
pub open spec fn column_count(m: Seq<Vec<char>>, x: int, n: int) -> int
    decreases n,
{
    if n <= 0 {
        0
    } else {
        column_count(m, x, n - 1) + if m[n - 1]@[x] == '#' {
            1int
        } else {
            0int
        }
    }
}

/// The block is a drawing of a lock or key: it has a first row, no row is
/// shorter than the first, its first character is a dot or a hash, and every
/// column of the first row holds a hash somewhere.
pub open spec fn is_drawing(m: Seq<Vec<char>>) -> bool {
    &&& m.len() > 0
    &&& m[0]@.len() > 0
    &&& forall|r: int| 0 <= r < m.len() ==> (#[trigger] m[r])@.len() >= m[0]@.len()
    &&& (m[0]@[0] == '.' || m[0]@[0] == '#')
    &&& forall|x: int| 0 <= x < m[0]@.len() ==> #[trigger] column_count(m, x, m.len() as int) > 0
}

impl LockKey {
    /// Reads a lock or key off its drawing: a dot in the corner makes a
    /// lock, a hash a key, and each pin is one less than the hashes of its
    /// column.
    pub fn from_chars(m: &Vec<Vec<char>>) -> (out: LockKey)
        requires
            is_drawing(m@),
        ensures
            out.tumbler == if m@[0]@[0] == '.' {
                TumblerType::Lock
            } else {
                TumblerType::Key
            },
            out.pins@.len() == m@[0]@.len(),
            forall|x: int|
                0 <= x < out.pins@.len() ==> #[trigger] out.pins@[x] == column_count(
                    m@,
                    x,
                    m@.len() as int,
                ) - 1,
    {
        let tumbler = if m[0][0] == '.' {
            TumblerType::Lock
        } else {
            TumblerType::Key
        };
        let mut pins: Vec<usize> = Vec::new();
        let mut x: usize = 0;
        while x < m[0].len()
            invariant
                is_drawing(m@),
                x <= m@[0]@.len(),
                pins@.len() == x,
                forall|j: int|
                    0 <= j < x ==> #[trigger] pins@[j] == column_count(m@, j, m@.len() as int) - 1,
            decreases m@[0]@.len() - x,
        {
            let mut count: usize = 0;
            let mut y: usize = 0;
            while y < m.len()
                invariant
                    is_drawing(m@),
                    x < m@[0]@.len(),
                    y <= m@.len(),
                    count == column_count(m@, x as int, y as int),
                    count <= y,
                decreases m@.len() - y,
            {
                assert(m@[y as int]@.len() >= m@[0]@.len());
                if m[y][x] == '#' {
                    count += 1;
                }
                y += 1;
            }
            assert(column_count(m@, x as int, m@.len() as int) > 0);
            pins.push(count - 1);
            x += 1;
        }
        LockKey { tumbler, pins }
    }
}

/// Whether the block is a drawing of a lock or key.
pub fn is_drawn(m: &Vec<Vec<char>>) -> (ok: bool)
    ensures
        ok == is_drawing(m@),
{
    if m.len() == 0 {
        return false;
    }
    let width = m[0].len();
    if width == 0 {
        return false;
    }
    if m[0][0] != '.' && m[0][0] != '#' {
        return false;
    }
    let mut r: usize = 0;
    while r < m.len()
        invariant
            r <= m@.len(),
            width == m@[0]@.len(),
            forall|i: int| 0 <= i < r ==> (#[trigger] m@[i])@.len() >= width,
        decreases m@.len() - r,
    {
        if m[r].len() < width {
            return false;
        }
        r += 1;
    }
    let mut x: usize = 0;
    while x < width
        invariant
            x <= width,
            width == m@[0]@.len(),
            m@.len() > 0,
            forall|i: int| 0 <= i < m@.len() ==> (#[trigger] m@[i])@.len() >= width,
            forall|j: int| 0 <= j < x ==> #[trigger] column_count(m@, j, m@.len() as int) > 0,
        decreases width - x,
    {
        let mut count: usize = 0;
        let mut y: usize = 0;
        while y < m.len()
            invariant
                y <= m@.len(),
                x < width,
                width == m@[0]@.len(),
                forall|i: int| 0 <= i < m@.len() ==> (#[trigger] m@[i])@.len() >= width,
                count == column_count(m@, x as int, y as int),
                count <= y,
            decreases m@.len() - y,
        {
            assert(m@[y as int]@.len() >= width);
            if m[y][x] == '#' {
                count += 1;
            }
            y += 1;
        }
        if count == 0 {
            return false;
        }
        x += 1;
    }
    true
}

impl LockKey {
    /// The lock or key that a block of lines draws, if it draws one.
    pub fn from_block(m: &Vec<Vec<char>>) -> (out: Option<LockKey>)
        ensures
            out is Some == is_drawing(m@),
            out matches Some(drawn) ==> drawn.tumbler == (if m@[0]@[0] == '.' {
                TumblerType::Lock
            } else {
                TumblerType::Key
            }) && drawn.pins@.len() == m@[0]@.len() && forall|x: int|
                0 <= x < drawn.pins@.len() ==> #[trigger] drawn.pins@[x] == column_count(
                    m@,
                    x,
                    m@.len() as int,
                ) - 1,
    {
        if is_drawn(m) {
            Some(LockKey::from_chars(m))
        } else {
            None
        }
    }
}

/// In every column of the lock, its pin and the key's come to five at most.
pub open spec fn fits_model(lock: Seq<usize>, key: Seq<usize>) -> bool {
    forall|i: int| 0 <= i < lock.len() ==> #[trigger] lock[i] + key[i] <= 5
}

/// Whether the key fits the lock.
pub fn fits(lock: &LockKey, key: &LockKey) -> (ok: bool)
    requires
        key.pins@.len() >= lock.pins@.len(),
    ensures
        ok == fits_model(lock.pins@, key.pins@),
{
    let mut i: usize = 0;
    while i < lock.pins.len()
        invariant
            i <= lock.pins@.len(),
            key.pins@.len() >= lock.pins@.len(),
            forall|j: int| 0 <= j < i ==> #[trigger] lock.pins@[j] + key.pins@[j] <= 5,
        decreases lock.pins@.len() - i,
    {
        let a = lock.pins[i];
        let b = key.pins[i];
        if a > 5 || b > 5 || a + b > 5 {
            return false;
        }
        i += 1;
    }
    true
}

/// How many of the first `n` pairs of a lock and a key fit, the pairs read
/// lock by lock.
pub open spec fn fitting_pairs(locks: Seq<LockKey>, keys: Seq<LockKey>, n: int) -> int
    decreases n,
{
    if n <= 0 || keys.len() == 0 {
        0
    } else {
        fitting_pairs(locks, keys, n - 1) + if fits_model(
            locks[(n - 1) / (keys.len() as int)].pins@,
            keys[(n - 1) % (keys.len() as int)].pins@,
        ) {
            1int
        } else {
            0int
        }
    }
}

/// How many pairs of a lock and a key fit.
pub fn count_fitting(locks: &Vec<LockKey>, keys: &Vec<LockKey>) -> (count: usize)
    requires
        forall|i: int, j: int|
            0 <= i < locks@.len() && 0 <= j < keys@.len() ==> (#[trigger] keys@[j]).pins@.len() >= (
            #[trigger] locks@[i]).pins@.len(),
        locks@.len() * keys@.len() <= usize::MAX,
    ensures
        count == fitting_pairs(locks@, keys@, (locks@.len() * keys@.len()) as int),
{
    let n = locks.len();
    let m = keys.len();
    let mut count: usize = 0;
    let mut i: usize = 0;
    proof {
        assert(0 * m == 0) by (nonlinear_arith);
    }
    while i < n
        invariant
            i <= n,
            n == locks@.len(),
            m == keys@.len(),
            n * m <= usize::MAX,
            forall|a: int, b: int|
                0 <= a < locks@.len() && 0 <= b < keys@.len() ==> (#[trigger] keys@[b]).pins@.len() >= (
                #[trigger] locks@[a]).pins@.len(),
            count == fitting_pairs(locks@, keys@, i * m),
            count <= i * m,
        decreases n - i,
    {
        let mut j: usize = 0;
        proof {
            assert((i + 1) * m == i * m + m) by (nonlinear_arith);
            assert((i + 1) * m <= n * m) by (nonlinear_arith)
                requires
                    i + 1 <= n,
                    m >= 0,
            ;
        }
        while j < m
            invariant
                i < n,
                j <= m,
                n == locks@.len(),
                m == keys@.len(),
                i * m + m <= usize::MAX,
                forall|a: int, b: int|
                    0 <= a < locks@.len() && 0 <= b < keys@.len() ==> (#[trigger] keys@[b]).pins@.len()
                        >= (#[trigger] locks@[a]).pins@.len(),
                count == fitting_pairs(locks@, keys@, i * m + j),
                count <= i * m + j,
            decreases m - j,
        {
            proof {
                vstd::arithmetic::div_mod::lemma_fundamental_div_mod_converse(
                    (i * m + j) as int,
                    m as int,
                    i as int,
                    j as int,
                );
                assert(keys@[j as int].pins@.len() >= locks@[i as int].pins@.len());
            }
            if fits(&locks[i], &keys[j]) {
                count += 1;
            }
            j += 1;
        }
        i += 1;
    }
    count
}

} // verus!
