//! Names as rows of characters.

use vstd::prelude::*;

verus! {

/// Whether the two names are the same.
pub fn same(a: &Vec<char>, b: &Vec<char>) -> (eq: bool)
    ensures
        eq == (a@ == b@),
{
    if a.len() != b.len() {
        return false;
    }
    let mut i: usize = 0;
    while i < a.len()
        invariant
            i <= a@.len(),
            a@.len() == b@.len(),
            forall|j: int| 0 <= j < i ==> a@[j] == b@[j],
        decreases a@.len() - i,
    {
        if a[i] != b[i] {
            return false;
        }
        i += 1;
    }
    assert(a@ =~= b@);
    true
}

/// A copy of the name.
pub fn copy(a: &Vec<char>) -> (b: Vec<char>)
    ensures
        b@ == a@,
{
    let mut b: Vec<char> = Vec::new();
    let mut i: usize = 0;
    while i < a.len()
        invariant
            i <= a@.len(),
            b@.len() == i,
            forall|j: int| 0 <= j < i ==> b@[j] == a@[j],
        decreases a@.len() - i,
    {
        b.push(a[i]);
        i += 1;
    }
    assert(b@ =~= a@);
    b
}

/// The list holds the name.
pub open spec fn holds(list: Seq<Vec<char>>, name: Seq<char>) -> bool {
    exists|i: int| 0 <= i < list.len() && (#[trigger] list[i])@ == name
}

/// The list holds no name twice.
pub open spec fn distinct(list: Seq<Vec<char>>) -> bool {
    forall|i: int, j: int| 0 <= i < j < list.len() ==> (#[trigger] list[i])@ != (#[trigger] list[j])@
}

/// Whether the list holds the name.
pub fn contains(list: &Vec<Vec<char>>, name: &Vec<char>) -> (found: bool)
    ensures
        found == holds(list@, name@),
{
    let mut i: usize = 0;
    while i < list.len()
        invariant
            i <= list@.len(),
            forall|j: int| 0 <= j < i ==> (#[trigger] list@[j])@ != name@,
        decreases list@.len() - i,
    {
        if same(&list[i], name) {
            return true;
        }
        i += 1;
    }
    false
}

/// The name `a` comes before the name `b`, or is the same: at the first
/// place where they differ `a` has the lesser character, or `a` ends
/// there.
pub open spec fn lex_le(a: Seq<char>, b: Seq<char>) -> bool
    decreases a.len(),
{
    if a.len() == 0 {
        true
    } else if b.len() == 0 {
        false
    } else if a[0] != b[0] {
        (a[0] as int) < (b[0] as int)
    } else {
        lex_le(a.drop_first(), b.drop_first())
    }
}

/// The number of a character.
fn code(c: char) -> (n: u32)
    ensures
        n == c as int,
{
    c as u32
}

/// Whether the name `a` comes before the name `b`, or is the same.
pub fn before_or_same(a: &Vec<char>, b: &Vec<char>) -> (le: bool)
    ensures
        le == lex_le(a@, b@),
{
    let mut i: usize = 0;
    assert(a@.skip(0) =~= a@ && b@.skip(0) =~= b@);
    while i < a.len() && i < b.len()
        invariant
            i <= a@.len(),
            i <= b@.len(),
            lex_le(a@, b@) == lex_le(a@.skip(i as int), b@.skip(i as int)),
        decreases a@.len() - i,
    {
        let x = a[i];
        let y = b[i];
        proof {
            let ra = a@.skip(i as int);
            let rb = b@.skip(i as int);
            assert(ra[0] == x && rb[0] == y);
            assert(ra.drop_first() =~= a@.skip(i + 1));
            assert(rb.drop_first() =~= b@.skip(i + 1));
        }
        if x != y {
            return code(x) < code(y);
        }
        i += 1;
    }
    proof {
        let ra = a@.skip(i as int);
        let rb = b@.skip(i as int);
        if i == a@.len() {
            assert(ra.len() == 0);
        } else {
            assert(rb.len() == 0);
        }
    }
    i == a.len()
}

/// The names stand in rising order.
pub open spec fn rising(list: Seq<Vec<char>>) -> bool {
    forall|i: int| 0 <= i < list.len() - 1 ==> lex_le((#[trigger] list[i])@, list[i + 1]@)
}

/// The views of the names of a list.
pub open spec fn views(list: Seq<Vec<char>>) -> Seq<Seq<char>> {
    Seq::new(list.len(), |i: int| list[i]@)
}

/// Of two names one comes before the other, or they are the same.
pub proof fn lemma_lex_total(a: Seq<char>, b: Seq<char>)
    ensures
        lex_le(a, b) || lex_le(b, a),
    decreases a.len(),
{
    if a.len() > 0 && b.len() > 0 {
        if a[0] == b[0] {
            lemma_lex_total(a.drop_first(), b.drop_first());
        } else {
            assert(a[0] as int != b[0] as int);
        }
    } else if a.len() > 0 {
        assert(lex_le(b, a));
    }
}

/// The names in rising order: a list of the same names that rises.
pub fn sort(list: Vec<Vec<char>>) -> (out: Vec<Vec<char>>)
    ensures
        rising(out@),
        views(out@).to_multiset() == views(list@).to_multiset(),
{
    let mut out: Vec<Vec<char>> = Vec::new();
    let mut rest = list;
    let ghost all = views(rest@);
    proof {
        assert(views(out@) =~= Seq::<Seq<char>>::empty());
        assert(views(out@) + views(rest@) =~= all);
    }
    while rest.len() > 0
        invariant
            rising(out@),
            (views(out@) + views(rest@)).to_multiset() == all.to_multiset(),
        decreases rest@.len(),
    {
        let ghost before_out = out@;
        let ghost before_rest = rest@;
        let name = rest.pop().unwrap();
        // Find the first place whose name does not come before this one.
        let mut at: usize = 0;
        while at < out.len() && !before_or_same(&name, &out[at])
            invariant
                at <= out@.len(),
                forall|j: int| 0 <= j < at ==> !lex_le(name@, (#[trigger] out@[j])@),
            decreases out@.len() - at,
        {
            at += 1;
        }
        out.insert(at, name);
        proof {
            assert forall|i: int| 0 <= i < out@.len() - 1 implies lex_le(
                (#[trigger] out@[i])@,
                out@[i + 1]@,
            ) by {
                if i + 1 < at {
                    assert(out@[i] == before_out[i] && out@[i + 1] == before_out[i + 1]);
                } else if i + 1 == at {
                    assert(out@[i] == before_out[i]);
                    lemma_lex_total(name@, before_out[i]@);
                } else if i == at {
                    assert(out@[i + 1] == before_out[i]);
                } else {
                    assert(out@[i] == before_out[i - 1] && out@[i + 1] == before_out[i]);
                    assert(lex_le(before_out[i - 1]@, before_out[i - 1 + 1]@));
                }
            }
            let vo = views(before_out);
            let vr = views(before_rest);
            assert(views(out@) =~= vo.insert(at as int, name@));
            assert(views(rest@) =~= vr.drop_last());
            assert(vr.last() == name@);
            lemma_insert_multiset(vo, at as int, name@);
            assert(vr =~= vr.drop_last().push(name@));
            vstd::seq_lib::to_multiset_build(vr.drop_last(), name@);
            vstd::seq_lib::lemma_multiset_commutative(vo, vr);
            vstd::seq_lib::lemma_multiset_commutative(vo.insert(at as int, name@), vr.drop_last());
        }
    }
    proof {
        assert(views(rest@) =~= Seq::<Seq<char>>::empty());
        assert(views(out@) + views(rest@) =~= views(out@));
    }
    out
}

/// A list with an item put in holds what it held, and the item.
pub proof fn lemma_insert_multiset(s: Seq<Seq<char>>, at: int, x: Seq<char>)
    requires
        0 <= at <= s.len(),
    ensures
        s.insert(at, x).to_multiset() == s.to_multiset().insert(x),
{
    let after = s.insert(at, x);
    assert(after.remove(at) =~= s);
    vstd::seq_lib::to_multiset_remove(after, at);
    assert(after.to_multiset().count(x) > 0) by {
        broadcast use vstd::seq_lib::group_to_multiset_ensures;
        assert(after[at] == x);
        assert(after.contains(x));
    }
    assert(after.to_multiset() =~= s.to_multiset().insert(x));
}

} // verus!
