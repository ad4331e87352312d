//! The relaxation search: from the start state outwards, cheapest pending
//! entry first, recording for each state its least cost and every
//! predecessor through which that cost is attained.

use vstd::prelude::*;
use vstd::multiset::Multiset;
use crate::days::day16::{nth_move, Moving};
use crate::days::day16::codec::{id_of, lemma_id_of, lemma_state_count, move_cost, moving_at, node, start_id, state_count, step, succ_id, weight};
use crate::days::day16::flags::{cleared, lemma_pending_bound, lemma_pending_set, pending};
use crate::days::day16::frontier::Frontier;
use crate::days::day16::graph::{moved, start_state};
use crate::days::day16::grid::{Grid, GridModel};

verus! {

broadcast use vstd::multiset::group_multiset_axioms;

/// The cost recorded for state number `u`; zero where none is recorded.
pub open spec fn value(cost: Seq<Option<usize>>, u: int) -> int {
    match cost[u] {
        Some(c) => c as int,
        None => 0,
    }
}

/// A cost is recorded for state number `u`.
pub open spec fn known(cost: Seq<Option<usize>>, u: int) -> bool {
    cost[u] is Some
}

/// The frontier entry that stands for state number `u` at its recorded cost.
pub open spec fn entry_of(cost: Seq<Option<usize>>, u: int) -> (usize, usize) {
    (
        match cost[u] {
            Some(c) => c,
            None => 0usize,
        },
        u as usize,
    )
}

/// The move from `u` in direction `m` cannot improve on what is recorded, and
/// where it attains the recorded cost, `u` is recorded as a predecessor.
pub open spec fn relaxed(
    g: GridModel,
    cost: Seq<Option<usize>>,
    preds: Seq<Vec<usize>>,
    u: int,
    m: Moving,
) -> bool {
    match succ_id(g, u, m) {
        None => true,
        Some(t) => {
            &&& cost[t] is Some
            &&& value(cost, t) <= value(cost, u) + move_cost(g.turn, u, m)
            &&& (value(cost, t) == value(cost, u) + move_cost(g.turn, u, m) ==> preds[t]@.contains(
                u as usize,
            ))
        },
    }
}

/// A move leads from `u` to `t`, and the cost recorded for `t` is that of `u`
/// plus the move.
pub open spec fn tight(g: GridModel, cost: Seq<Option<usize>>, u: int, t: int) -> bool {
    &&& 0 <= u < state_count(g)
    &&& cost[u] is Some
    &&& cost[t] is Some
    &&& succ_id(g, u, moving_at(t % 4)) == Some(t)
    &&& value(cost, u) + move_cost(g.turn, u, moving_at(t % 4)) == value(cost, t)
}

/// What the tables satisfy once the frontier is empty: the start costs
/// nothing, no move improves on a recorded cost, and the recorded
/// predecessors are exactly those that attain it.
pub open spec fn settled(g: GridModel, cost: Seq<Option<usize>>, preds: Seq<Vec<usize>>) -> bool {
    let n = state_count(g);
    let s0 = id_of(g, start_state(g));
    &&& cost.len() == n
    &&& preds.len() == n
    &&& cost[s0] == Some(0usize)
    &&& forall|u: int, m: Moving|
        0 <= u < n && cost[u] is Some ==> #[trigger] relaxed(g, cost, preds, u, m)
    &&& forall|t: int, k: int|
        0 <= t < n && 0 <= k < preds[t]@.len() ==> tight(g, cost, #[trigger] preds[t]@[k] as int, t)
    &&& forall|t: int| 0 <= t < n && t != s0 && #[trigger] known(cost, t) ==> preds[t]@.len() > 0
    &&& forall|u: int| 0 <= u < n && #[trigger] known(cost, u) ==> value(cost, u) <= g.turn * n
}

/// What holds between two pops of the frontier. `floor` is the cost of the
/// entry popped last.
pub open spec fn inv(
    g: GridModel,
    cost: Seq<Option<usize>>,
    done: Seq<bool>,
    preds: Seq<Vec<usize>>,
    front: Multiset<(usize, usize)>,
    floor: int,
) -> bool {
    let n = state_count(g);
    let s0 = id_of(g, start_state(g));
    &&& cost.len() == n
    &&& done.len() == n
    &&& preds.len() == n
    &&& cost[s0] == Some(0usize)
    &&& forall|u: int| 0 <= u < n && #[trigger] done[u] ==> cost[u] is Some && value(cost, u) <= floor
    &&& forall|t: int, k: int|
        0 <= t < n && 0 <= k < preds[t]@.len() ==> tight(g, cost, #[trigger] preds[t]@[k] as int, t)
            && done[preds[t]@[k] as int]
    &&& forall|t: int|
        0 <= t < n && #[trigger] known(cost, t) && !done[t] ==> front.contains(entry_of(cost, t))
    &&& forall|e: (usize, usize)| #[trigger] front.contains(e) ==> e.1 < n && e.0 >= floor
    &&& forall|t: int| 0 <= t < n && t != s0 && #[trigger] known(cost, t) ==> preds[t]@.len() > 0
    &&& forall|u: int|
        0 <= u < n && #[trigger] known(cost, u) ==> value(cost, u) <= g.turn * (n - pending(done))
}

/// Every finished state but `skip` has all four moves relaxed.
pub open spec fn others_relaxed(
    g: GridModel,
    cost: Seq<Option<usize>>,
    done: Seq<bool>,
    preds: Seq<Vec<usize>>,
    skip: int,
) -> bool {
    forall|v: int, m: Moving|
        0 <= v < state_count(g) && done[v] && v != skip ==> #[trigger] relaxed(g, cost, preds, v, m)
}

/// The first `k` moves from `u` are relaxed.
pub open spec fn moves_relaxed(
    g: GridModel,
    cost: Seq<Option<usize>>,
    preds: Seq<Vec<usize>>,
    u: int,
    k: int,
) -> bool {
    forall|j: int| 0 <= j < k ==> #[trigger] relaxed(g, cost, preds, u, nth_move(j))
}

/// A legal move leads to a state in range whose number tells the direction.
pub proof fn lemma_succ(g: GridModel, u: int, m: Moving)
    requires
        g.rectangular(),
        succ_id(g, u, m) is Some,
    ensures
        0 <= succ_id(g, u, m).unwrap() < state_count(g),
        moving_at(succ_id(g, u, m).unwrap() % 4) == m,
        node(g, succ_id(g, u, m).unwrap()) == moved(node(g, u), m),
{
    let to = moved(node(g, u), m);
    lemma_id_of(g, to);
}

/// With `p` of `n` states pending, the bound on recorded costs is within
/// the bound for none pending, and grows by one turn as one state is
/// finished.
pub proof fn lemma_turn_bound(turn: int, n: int, p: int)
    requires
        turn >= 1,
        0 <= p <= n,
    ensures
        0 <= turn * (n - p) <= turn * n,
        turn * (n - (p - 1)) == turn * (n - p) + turn,
{
    assert(0 <= turn * (n - p) <= turn * n) by (nonlinear_arith)
        requires
            turn >= 1,
            0 <= p <= n,
    ;
    assert(turn * (n - (p - 1)) == turn * (n - p) + turn) by (nonlinear_arith);
}

/// A table of `n` costs, none recorded.
fn no_costs(n: usize) -> (cost: Vec<Option<usize>>)
    ensures
        cost@.len() == n,
        forall|i: int| 0 <= i < n ==> (#[trigger] cost@[i]) is None,
{
    let mut cost: Vec<Option<usize>> = Vec::new();
    let mut i: usize = 0;
    while i < n
        invariant
            i <= n,
            cost@.len() == i,
            forall|j: int| 0 <= j < i ==> (#[trigger] cost@[j]) is None,
        decreases n - i,
    {
        cost.push(None);
        i += 1;
    }
    cost
}

/// A table of `n` predecessor lists, all empty.
fn no_preds(n: usize) -> (preds: Vec<Vec<usize>>)
    ensures
        preds@.len() == n,
        forall|i: int| 0 <= i < n ==> (#[trigger] preds@[i])@.len() == 0,
{
    let mut preds: Vec<Vec<usize>> = Vec::new();
    let mut i: usize = 0;
    while i < n
        invariant
            i <= n,
            preds@.len() == i,
            forall|j: int| 0 <= j < i ==> (#[trigger] preds@[j])@.len() == 0,
        decreases n - i,
    {
        preds.push(Vec::new());
        i += 1;
    }
    preds
}

/// What one relaxation starts from: the invariant, with `u` finished at cost
/// `c`, its first `k` moves relaxed, and the `k`-th leading to `t`.
pub open spec fn relax_pre(
    g: GridModel,
    cost: Seq<Option<usize>>,
    done: Seq<bool>,
    preds: Seq<Vec<usize>>,
    front: Multiset<(usize, usize)>,
    u: int,
    c: int,
    k: int,
    t: int,
) -> bool {
    &&& g.wf()
    &&& 0 <= k < 4
    &&& 0 <= u < state_count(g)
    &&& inv(g, cost, done, preds, front, c)
    &&& done[u]
    &&& cost[u] is Some
    &&& value(cost, u) == c
    &&& c + g.turn <= g.turn * (state_count(g) - pending(done))
    &&& others_relaxed(g, cost, done, preds, u)
    &&& moves_relaxed(g, cost, preds, u, k)
    &&& succ_id(g, u, nth_move(k)) == Some(t)
}

/// What one relaxation leads to.
pub open spec fn relax_post(
    g: GridModel,
    cost: Seq<Option<usize>>,
    done: Seq<bool>,
    preds: Seq<Vec<usize>>,
    front: Multiset<(usize, usize)>,
    u: int,
    c: int,
    k: int,
) -> bool {
    &&& inv(g, cost, done, preds, front, c)
    &&& cost[u] is Some
    &&& value(cost, u) == c
    &&& others_relaxed(g, cost, done, preds, u)
    &&& moves_relaxed(g, cost, preds, u, k + 1)
}

/// A strictly cheaper way to `t` was found: its cost is lowered, `u`
/// becomes its only predecessor, and `t` enters the frontier.
proof fn lemma_relax_lower(
    g: GridModel,
    cost0: Seq<Option<usize>>,
    done: Seq<bool>,
    preds0: Seq<Vec<usize>>,
    front0: Multiset<(usize, usize)>,
    cost1: Seq<Option<usize>>,
    preds1: Seq<Vec<usize>>,
    front1: Multiset<(usize, usize)>,
    u: int,
    c: int,
    k: int,
    t: int,
    cand: usize,
)
    requires
        relax_pre(g, cost0, done, preds0, front0, u, c, k, t),
        cand == c + move_cost(g.turn, u, nth_move(k)),
        cost0[t] is None || cand < value(cost0, t),
        cost1 == cost0.update(t, Some(cand)),
        preds1.len() == preds0.len(),
        preds1[t]@ == seq![u as usize],
        forall|x: int| 0 <= x < preds0.len() && x != t ==> preds1[x] == preds0[x],
        front1 == front0.insert((cand, t as usize)),
    ensures
        relax_post(g, cost1, done, preds1, front1, u, c, k),
{
    let n = state_count(g);
    let s0 = id_of(g, start_state(g));
    let m = nth_move(k);
    lemma_state_count(g);
    lemma_pending_bound(done);
    lemma_succ(g, u, m);
    lemma_id_of(g, start_state(g));
    assert(!done[t]);
    assert(t != u);
    assert(t != s0);
    assert(cost1[s0] == Some(0usize));
    assert(forall|x: int| 0 <= x < n && x != t ==> value(cost1, x) == value(cost0, x));
    assert(value(cost1, t) == cand);
    assert forall|t2: int, k2: int| 0 <= t2 < n && 0 <= k2 < preds1[t2]@.len() implies tight(
        g,
        cost1,
        #[trigger] preds1[t2]@[k2] as int,
        t2,
    ) && done[preds1[t2]@[k2] as int] by {
        if t2 == t {
            assert(preds1[t2]@[k2] == u);
        } else {
            let v = preds0[t2]@[k2] as int;
            assert(tight(g, cost0, v, t2) && done[v]);
        }
    }
    assert forall|t2: int| 0 <= t2 < n && #[trigger] known(cost1, t2) && !done[t2] implies front1.contains(
        entry_of(cost1, t2),
    ) by {
        if t2 != t {
            assert(known(cost0, t2));
            assert(front0.contains(entry_of(cost0, t2)));
        }
    }
    assert forall|e: (usize, usize)| #[trigger] front1.contains(e) implies e.1 < n && e.0 >= c by {
        if e != (cand, t as usize) {
            assert(front0.contains(e));
        }
    }
    assert forall|t2: int| 0 <= t2 < n && t2 != s0 && #[trigger] known(cost1, t2) implies preds1[t2]@.len()
        > 0 by {
        if t2 != t {
            assert(known(cost0, t2));
        }
    }
    assert forall|x: int| 0 <= x < n && #[trigger] known(cost1, x) implies value(cost1, x) <= g.turn
        * (n - pending(done)) by {
        if x != t {
            assert(known(cost0, x));
        }
    }
    assert forall|x: int| 0 <= x < n && #[trigger] done[x] implies cost1[x] is Some && value(
        cost1,
        x,
    ) <= c by {}
    assert(inv(g, cost1, done, preds1, front1, c));
    assert forall|v: int, m2: Moving| 0 <= v < n && done[v] && v != u implies #[trigger] relaxed(
        g,
        cost1,
        preds1,
        v,
        m2,
    ) by {
        assert(relaxed(g, cost0, preds0, v, m2));
        if succ_id(g, v, m2) is Some {
            lemma_succ(g, v, m2);
        }
    }
    assert forall|j: int| 0 <= j < k + 1 implies #[trigger] relaxed(
        g,
        cost1,
        preds1,
        u,
        nth_move(j),
    ) by {
        if j < k {
            assert(relaxed(g, cost0, preds0, u, nth_move(j)));
            if succ_id(g, u, nth_move(j)) is Some {
                lemma_succ(g, u, nth_move(j));
            }
        } else {
            assert(preds1[t]@[0] == u);
        }
    }
}

/// Another way to `t` at the cost already recorded was found: `u` joins its
/// predecessors.
proof fn lemma_relax_tie(
    g: GridModel,
    cost: Seq<Option<usize>>,
    done: Seq<bool>,
    preds0: Seq<Vec<usize>>,
    front: Multiset<(usize, usize)>,
    preds1: Seq<Vec<usize>>,
    u: int,
    c: int,
    k: int,
    t: int,
)
    requires
        relax_pre(g, cost, done, preds0, front, u, c, k, t),
        cost[t] is Some,
        value(cost, t) == c + move_cost(g.turn, u, nth_move(k)),
        preds1.len() == preds0.len(),
        preds1[t]@ == preds0[t]@.push(u as usize),
        forall|x: int| 0 <= x < preds0.len() && x != t ==> preds1[x] == preds0[x],
    ensures
        relax_post(g, cost, done, preds1, front, u, c, k),
{
    let n = state_count(g);
    let s0 = id_of(g, start_state(g));
    let m = nth_move(k);
    lemma_state_count(g);
    lemma_succ(g, u, m);
    assert forall|t2: int, k2: int| 0 <= t2 < n && 0 <= k2 < preds1[t2]@.len() implies tight(
        g,
        cost,
        #[trigger] preds1[t2]@[k2] as int,
        t2,
    ) && done[preds1[t2]@[k2] as int] by {
        if t2 == t && k2 == preds0[t]@.len() {
            assert(preds1[t2]@[k2] == u);
        } else {
            let v = preds0[t2]@[k2] as int;
            assert(tight(g, cost, v, t2) && done[v]);
        }
    }
    assert forall|t2: int| 0 <= t2 < n && t2 != s0 && #[trigger] known(cost, t2) implies preds1[t2]@.len()
        > 0 by {}
    assert(inv(g, cost, done, preds1, front, c));
    assert forall|v: int, m2: Moving| 0 <= v < n && done[v] && v != u implies #[trigger] relaxed(
        g,
        cost,
        preds1,
        v,
        m2,
    ) by {
        assert(relaxed(g, cost, preds0, v, m2));
        if succ_id(g, v, m2) is Some {
            lemma_succ(g, v, m2);
            lemma_contains_after_push(preds0, preds1, t, u as usize, succ_id(g, v, m2).unwrap(), v as usize);
        }
    }
    assert forall|j: int| 0 <= j < k + 1 implies #[trigger] relaxed(
        g,
        cost,
        preds1,
        u,
        nth_move(j),
    ) by {
        if j < k {
            assert(relaxed(g, cost, preds0, u, nth_move(j)));
            if succ_id(g, u, nth_move(j)) is Some {
                lemma_succ(g, u, nth_move(j));
                lemma_contains_after_push(
                    preds0,
                    preds1,
                    t,
                    u as usize,
                    succ_id(g, u, nth_move(j)).unwrap(),
                    u as usize,
                );
            }
        } else {
            assert(preds1[t]@[preds0[t]@.len() as int] == u);
        }
    }
}

/// What a list held before a push to one list of the table, it holds after.
proof fn lemma_contains_after_push(
    preds0: Seq<Vec<usize>>,
    preds1: Seq<Vec<usize>>,
    t: int,
    pushed: usize,
    at: int,
    x: usize,
)
    requires
        0 <= t < preds0.len(),
        0 <= at < preds0.len(),
        preds1.len() == preds0.len(),
        preds1[t]@ == preds0[t]@.push(pushed),
        forall|i: int| 0 <= i < preds0.len() && i != t ==> preds1[i] == preds0[i],
    ensures
        preds0[at]@.contains(x) ==> preds1[at]@.contains(x),
{
    if preds0[at]@.contains(x) && at == t {
        let i = choose|i: int| 0 <= i < preds0[t]@.len() && preds0[t]@[i] == x;
        assert(preds1[t]@[i] == x);
    }
}

/// The move cannot improve on what is recorded for `t`, nor attain it.
proof fn lemma_relax_keep(
    g: GridModel,
    cost: Seq<Option<usize>>,
    done: Seq<bool>,
    preds: Seq<Vec<usize>>,
    front: Multiset<(usize, usize)>,
    u: int,
    c: int,
    k: int,
)
    requires
        0 <= k < 4,
        inv(g, cost, done, preds, front, c),
        cost[u] is Some,
        value(cost, u) == c,
        others_relaxed(g, cost, done, preds, u),
        moves_relaxed(g, cost, preds, u, k),
        match succ_id(g, u, nth_move(k)) {
            None => true,
            Some(t) => cost[t] is Some && value(cost, t) < c + move_cost(g.turn, u, nth_move(k)),
        },
    ensures
        relax_post(g, cost, done, preds, front, u, c, k),
{
    assert forall|j: int| 0 <= j < k + 1 implies #[trigger] relaxed(
        g,
        cost,
        preds,
        u,
        nth_move(j),
    ) by {}
}

/// Relaxes the `k`-th move from the finished state `u`, whose cost is `c`.
fn relax(
    grid: &Grid,
    cost: &mut Vec<Option<usize>>,
    done: &Vec<bool>,
    preds: &mut Vec<Vec<usize>>,
    frontier: &mut Frontier,
    u: usize,
    c: usize,
    k: usize,
)
    requires
        k < 4,
        u < state_count(grid@),
        grid@.wf(),
        inv(grid@, old(cost)@, done@, old(preds)@, old(frontier)@, c as int),
        done@[u as int],
        old(cost)@[u as int] == Some(c),
        c + grid@.turn <= grid@.turn * (state_count(grid@) - pending(done@)),
        others_relaxed(grid@, old(cost)@, done@, old(preds)@, u as int),
        moves_relaxed(grid@, old(cost)@, old(preds)@, u as int, k as int),
    ensures
        inv(grid@, final(cost)@, done@, final(preds)@, final(frontier)@, c as int),
        final(cost)@[u as int] == Some(c),
        others_relaxed(grid@, final(cost)@, done@, final(preds)@, u as int),
        moves_relaxed(grid@, final(cost)@, final(preds)@, u as int, k + 1),
        final(frontier)@.len() <= old(frontier)@.len() + 1,
{
    let ghost g = grid@;
    let ghost cost0 = cost@;
    let ghost preds0 = preds@;
    let ghost front0 = frontier@;
    proof {
        lemma_state_count(g);
        lemma_pending_bound(done@);
    }
    let (m, next) = step(grid, u, k);
    match next {
        None => {
            proof {
                lemma_relax_keep(g, cost0, done@, preds0, front0, u as int, c as int, k as int);
            }
        },
        Some(t) => {
            proof {
                lemma_turn_bound(g.turn, state_count(g), pending(done@) as int);
            }
            let cand = c + weight(grid, u, m);
            let old_cost = cost[t];
            let improves = match old_cost {
                None => true,
                Some(was) => cand < was,
            };
            let ties = match old_cost {
                None => false,
                Some(was) => cand == was,
            };
            if improves {
                cost[t] = Some(cand);
                preds[t].clear();
                preds[t].push(u);
                frontier.push(cand, t);
                proof {
                    assert(preds@[t as int]@ =~= seq![u]);
                    lemma_relax_lower(
                        g,
                        cost0,
                        done@,
                        preds0,
                        front0,
                        cost@,
                        preds@,
                        frontier@,
                        u as int,
                        c as int,
                        k as int,
                        t as int,
                        cand,
                    );
                }
            } else if ties {
                preds[t].push(u);
                proof {
                    lemma_relax_tie(
                        g,
                        cost0,
                        done@,
                        preds0,
                        front0,
                        preds@,
                        u as int,
                        c as int,
                        k as int,
                        t as int,
                    );
                }
            } else {
                proof {
                    lemma_relax_keep(g, cost0, done@, preds0, front0, u as int, c as int, k as int);
                }
            }
        },
    }
}

/// Relaxes all four moves from the state `u`, which was just finished at
/// cost `c`.
fn expand(
    grid: &Grid,
    cost: &mut Vec<Option<usize>>,
    done: &Vec<bool>,
    preds: &mut Vec<Vec<usize>>,
    frontier: &mut Frontier,
    u: usize,
    c: usize,
)
    requires
        u < state_count(grid@),
        grid@.wf(),
        inv(grid@, old(cost)@, done@, old(preds)@, old(frontier)@, c as int),
        done@[u as int],
        old(cost)@[u as int] == Some(c),
        c + grid@.turn <= grid@.turn * (state_count(grid@) - pending(done@)),
        others_relaxed(grid@, old(cost)@, done@, old(preds)@, u as int),
    ensures
        inv(grid@, final(cost)@, done@, final(preds)@, final(frontier)@, c as int),
        others_relaxed(grid@, final(cost)@, done@, final(preds)@, -1),
        final(frontier)@.len() <= old(frontier)@.len() + 4,
{
    let mut k: usize = 0;
    while k < 4
        invariant
            k <= 4,
            u < state_count(grid@),
            grid@.wf(),
            inv(grid@, cost@, done@, preds@, frontier@, c as int),
            done@[u as int],
            cost@[u as int] == Some(c),
            c + grid@.turn <= grid@.turn * (state_count(grid@) - pending(done@)),
            others_relaxed(grid@, cost@, done@, preds@, u as int),
            moves_relaxed(grid@, cost@, preds@, u as int, k as int),
            frontier@.len() <= old(frontier)@.len() + k,
        decreases 4 - k,
    {
        relax(grid, cost, done, preds, frontier, u, c, k);
        k += 1;
    }
    proof {
        assert forall|v: int, m: Moving|
            0 <= v < state_count(grid@) && done@[v] implies #[trigger] relaxed(
            grid@,
            cost@,
            preds@,
            v,
            m,
        ) by {
            if v == u {
                assert(relaxed(grid@, cost@, preds@, u as int, nth_move(0)));
                assert(relaxed(grid@, cost@, preds@, u as int, nth_move(1)));
                assert(relaxed(grid@, cost@, preds@, u as int, nth_move(2)));
                assert(relaxed(grid@, cost@, preds@, u as int, nth_move(3)));
                assert(m == nth_move(0) || m == nth_move(1) || m == nth_move(2) || m == nth_move(
                    3,
                ));
            }
        }
    }
}

/// The tables that the search leaves behind.
pub struct Tables {
    /// For each state number, the least cost of a route to it, if any.
    pub cost: Vec<Option<usize>>,
    /// For each state number, the states from which one move attains that
    /// cost.
    pub preds: Vec<Vec<usize>>,
}

/// Runs the search to the end of the frontier.
pub fn search(grid: &Grid) -> (tables: Tables)
    ensures
        grid@.wf(),
        settled(grid@, tables.cost@, tables.preds@),
{
    let s0 = start_id(grid);
    let rows = grid.rows();
    let cols = grid.cols();
    proof {
        lemma_state_count(grid@);
        assert(rows * cols <= rows * cols * 4) by (nonlinear_arith)
            requires
                rows * cols > 0,
        ;
    }
    let n = rows * cols * 4;
    let mut cost = no_costs(n);
    let mut done = cleared(n);
    let mut preds = no_preds(n);
    let mut frontier = Frontier::new();
    cost[s0] = Some(0);
    frontier.push(0, s0);
    let ghost mut floor: int = 0;
    proof {
        lemma_pending_bound(done@);
        lemma_turn_bound(grid@.turn, n as int, pending(done@) as int);
        assert(inv(grid@, cost@, done@, preds@, frontier@, floor));
    }
    while frontier.len() > 0
        invariant
            grid@.wf(),
            n == state_count(grid@),
            inv(grid@, cost@, done@, preds@, frontier@, floor),
            others_relaxed(grid@, cost@, done@, preds@, -1),
        decreases pending(done@), frontier@.len(),
    {
        let ghost front0 = frontier@;
        let ghost done0 = done@;
        match frontier.pop_min() {
            None => {},
            Some((c, u)) => {
                proof {
                    assert(front0.contains((c, u)));
                    assert forall|e: (usize, usize)| #[trigger] frontier@.contains(e) implies e.1
                        < n && e.0 >= c by {
                        assert(front0.contains(e));
                    }
                }
                let fresh = !done[u] && match cost[u] {
                    Some(at) => at == c,
                    None => false,
                };
                if fresh {
                    proof {
                        lemma_pending_set(done0, u as int);
                        lemma_pending_bound(done0);
                        lemma_pending_bound(done0.update(u as int, true));
                        lemma_turn_bound(grid@.turn, n as int, pending(done0) as int);
                        assert(known(cost@, u as int));
                    }
                    done[u] = true;
                    proof {
                        floor = c as int;
                        assert forall|t: int|
                            0 <= t < n && #[trigger] known(cost@, t) && !done@[t] implies frontier@.contains(
                            entry_of(cost@, t),
                        ) by {
                            assert(front0.contains(entry_of(cost@, t)));
                            assert(entry_of(cost@, t) != (c, u));
                        }
                        assert forall|x: int| 0 <= x < n && #[trigger] done@[x] implies cost@[x] is Some
                            && value(cost@, x) <= floor by {
                            if x != u {
                                assert(done0[x]);
                                assert(front0.contains((c, u)));
                            }
                        }
                        assert forall|x: int| 0 <= x < n && #[trigger] known(cost@, x) implies value(
                            cost@,
                            x,
                        ) <= grid@.turn * (n - pending(done@)) by {}
                        assert(inv(grid@, cost@, done@, preds@, frontier@, floor));
                        assert forall|v: int, m: Moving|
                            0 <= v < n && done@[v] && v != u implies #[trigger] relaxed(
                            grid@,
                            cost@,
                            preds@,
                            v,
                            m,
                        ) by {
                            assert(done0[v]);
                        }
                    }
                    expand(grid, &mut cost, &done, &mut preds, &mut frontier, u, c);
                } else {
                    proof {
                        assert forall|t: int|
                            0 <= t < n && #[trigger] known(cost@, t) && !done@[t] implies frontier@.contains(
                            entry_of(cost@, t),
                        ) by {
                            assert(front0.contains(entry_of(cost@, t)));
                            assert(entry_of(cost@, t) != (c, u));
                        }
                        assert(inv(grid@, cost@, done@, preds@, frontier@, floor));
                    }
                }
            },
        }
    }
    proof {
        assert forall|u: int, m: Moving| 0 <= u < n && cost@[u] is Some implies #[trigger] relaxed(
            grid@,
            cost@,
            preds@,
            u,
            m,
        ) by {
            if !done@[u] {
                assert(known(cost@, u));
                assert(frontier@.contains(entry_of(cost@, u)));
            }
        }
        lemma_pending_bound(done@);
        lemma_turn_bound(grid@.turn, n as int, pending(done@) as int);
    }
    Tables { cost, preds }
}

} // verus!
