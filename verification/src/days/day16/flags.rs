//! Counting the flags of a table that are not yet set.

use vstd::prelude::*;

verus! {

/// How many of the flags are still `false`.
pub open spec fn pending(flags: Seq<bool>) -> nat
    decreases flags.len(),
{
    if flags.len() == 0 {
        0
    } else {
        pending(flags.drop_last()) + if flags.last() {
            0nat
        } else {
            1nat
        }
    }
}

/// No more flags are unset than there are flags.
pub proof fn lemma_pending_bound(flags: Seq<bool>)
    ensures
        pending(flags) <= flags.len(),
    decreases flags.len(),
{
    if flags.len() > 0 {
        lemma_pending_bound(flags.drop_last());
    }
}

/// Setting a flag that was not set leaves one fewer pending.
pub proof fn lemma_pending_set(flags: Seq<bool>, i: int)
    requires
        0 <= i < flags.len(),
        !flags[i],
    ensures
        pending(flags.update(i, true)) + 1 == pending(flags),
    decreases flags.len(),
{
    let after = flags.update(i, true);
    if i == flags.len() - 1 {
        assert(after.drop_last() =~= flags.drop_last());
    } else {
        lemma_pending_set(flags.drop_last(), i);
        assert(after.drop_last() =~= flags.drop_last().update(i, true));
    }
}

/// A table of `n` flags, none of them set.
pub fn cleared(n: usize) -> (flags: Vec<bool>)
    ensures
        flags@.len() == n,
        forall|i: int| 0 <= i < n ==> !(#[trigger] flags@[i]),
{
    let mut flags: Vec<bool> = Vec::new();
    let mut i: usize = 0;
    while i < n
        invariant
            i <= n,
            flags@.len() == i,
            forall|j: int| 0 <= j < i ==> !(#[trigger] flags@[j]),
        decreases n - i,
    {
        flags.push(false);
        i += 1;
    }
    flags
}

} // verus!
