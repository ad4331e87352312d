//! A network of computers: which are connected, and which sets of them are
//! connected all with all.

use vstd::prelude::*;
use crate::names::{contains, copy, distinct, holds, rising, same, sort, views};

verus! {

/// Connection `i` joins the two names, one way or the other.
pub open spec fn joins(connections: Seq<(Vec<char>, Vec<char>)>, i: int, a: Seq<char>, b: Seq<char>) -> bool {
    0 <= i < connections.len() && ((connections[i].0@ == a && connections[i].1@ == b) || (
    connections[i].0@ == b && connections[i].1@ == a))
}

/// Some connection joins the two names.
pub open spec fn linked(connections: Seq<(Vec<char>, Vec<char>)>, a: Seq<char>, b: Seq<char>) -> bool {
    exists|i: int| #[trigger] joins(connections, i, a, b)
}

/// Every two of the nodes are joined by a connection.
pub open spec fn all_linked(nodes: Seq<Vec<char>>, connections: Seq<(Vec<char>, Vec<char>)>) -> bool {
    forall|i: int, j: int|
        0 <= i < j < nodes.len() ==> linked(connections, (#[trigger] nodes[i])@, (#[trigger] nodes[j])@)
}

/// Whether some connection joins the two names.
pub fn is_linked(connections: &Vec<(Vec<char>, Vec<char>)>, a: &Vec<char>, b: &Vec<char>) -> (found: bool)
    ensures
        found == linked(connections@, a@, b@),
{
    let mut i: usize = 0;
    while i < connections.len()
        invariant
            i <= connections@.len(),
            forall|j: int| 0 <= j < i ==> !#[trigger] joins(connections@, j, a@, b@),
        decreases connections@.len() - i,
    {
        let c = &connections[i];
        if (same(&c.0, a) && same(&c.1, b)) || (same(&c.0, b) && same(&c.1, a)) {
            assert(joins(connections@, i as int, a@, b@));
            return true;
        }
        i += 1;
    }
    false
}

/// Whether every two of the nodes are joined by a connection.
pub fn are_connected(nodes: &Vec<Vec<char>>, connections: &Vec<(Vec<char>, Vec<char>)>) -> (all: bool)
    ensures
        all == all_linked(nodes@, connections@),
{
    let n = nodes.len();
    let mut i: usize = 0;
    while i < n
        invariant
            i <= n,
            n == nodes@.len(),
            forall|a: int, b: int|
                0 <= a < b < n && a < i ==> linked(connections@, (#[trigger] nodes@[a])@, (#[trigger] nodes@[b])@),
        decreases n - i,
    {
        let mut j: usize = i + 1;
        while j < n
            invariant
                i < j <= n,
                n == nodes@.len(),
                forall|a: int, b: int|
                    0 <= a < b < n && (a < i || (a == i && b < j)) ==> linked(
                        connections@,
                        (#[trigger] nodes@[a])@,
                        (#[trigger] nodes@[b])@,
                    ),
            decreases n - j,
        {
            if !is_linked(connections, &nodes[i], &nodes[j]) {
                return false;
            }
            j += 1;
        }
        i += 1;
    }
    true
}

/// The name begins with the letter t.
pub open spec fn begins_with_t(name: Seq<char>) -> bool {
    name.len() > 0 && name[0] == 't'
}

/// Whether the name of one of the nodes begins with t.
pub fn starts_with_t(nodes: &Vec<Vec<char>>) -> (any: bool)
    ensures
        any == exists|i: int| 0 <= i < nodes@.len() && begins_with_t((#[trigger] nodes@[i])@),
{
    let mut i: usize = 0;
    while i < nodes.len()
        invariant
            i <= nodes@.len(),
            forall|j: int| 0 <= j < i ==> !begins_with_t((#[trigger] nodes@[j])@),
        decreases nodes@.len() - i,
    {
        let name = &nodes[i];
        if name.len() > 0 && name[0] == 't' {
            return true;
        }
        i += 1;
    }
    false
}

/// One of the first `n` connections joins the node to the name.
pub open spec fn beside(connections: Seq<(Vec<char>, Vec<char>)>, n: int, node: Seq<char>, name: Seq<char>) -> bool {
    exists|i: int| 0 <= i < n && #[trigger] joins(connections, i, node, name)
}

/// The names that a connection joins the node to, each once.
pub fn node_connections(connections: &Vec<(Vec<char>, Vec<char>)>, node: &Vec<char>) -> (out: Vec<Vec<char>>)
    ensures
        distinct(out@),
        forall|name: Seq<char>| #[trigger]
            holds(out@, name) <==> beside(connections@, connections@.len() as int, node@, name),
{
    let mut out: Vec<Vec<char>> = Vec::new();
    let mut i: usize = 0;
    while i < connections.len()
        invariant
            i <= connections@.len(),
            distinct(out@),
            forall|name: Seq<char>| #[trigger]
                holds(out@, name) <==> beside(connections@, i as int, node@, name),
        decreases connections@.len() - i,
    {
        let c = &connections[i];
        let ghost before = out@;
        let mut other: Option<Vec<char>> = None;
        if same(&c.0, node) {
            other = Some(copy(&c.1));
        } else if same(&c.1, node) {
            other = Some(copy(&c.0));
        }
        match other {
            Some(name) => {
                let ghost added = name@;
                assert(joins(connections@, i as int, node@, added));
                if !contains(&out, &name) {
                    out.push(name);
                    proof {
                        assert forall|x: Seq<char>| #[trigger]
                            holds(out@, x) <==> beside(connections@, i + 1, node@, x) by {
                            lemma_holds_push(before, out@, x);
                            lemma_beside_next(connections@, i as int, node@, x);
                        }
                        assert forall|a: int, b: int| 0 <= a < b < out@.len() implies (#[trigger] out@[a])@
                            != (#[trigger] out@[b])@ by {
                            if b == before.len() {
                                assert(out@[a] == before[a]);
                            } else {
                                assert(out@[a] == before[a] && out@[b] == before[b]);
                            }
                        }
                    }
                } else {
                    proof {
                        assert forall|x: Seq<char>| #[trigger]
                            holds(out@, x) <==> beside(connections@, i + 1, node@, x) by {
                            lemma_beside_next(connections@, i as int, node@, x);
                        }
                    }
                }
            },
            None => {
                proof {
                    assert forall|x: Seq<char>| #[trigger]
                        holds(out@, x) <==> beside(connections@, i + 1, node@, x) by {
                        lemma_beside_next(connections@, i as int, node@, x);
                    }
                }
            },
        }
        i += 1;
    }
    out
}

/// A list with one name more holds what the list held, and that name.
pub proof fn lemma_holds_push(before: Seq<Vec<char>>, after: Seq<Vec<char>>, x: Seq<char>)
    requires
        after.len() == before.len() + 1,
        forall|i: int| 0 <= i < before.len() ==> after[i] == before[i],
    ensures
        holds(after, x) <==> holds(before, x) || after[before.len() as int]@ == x,
{
    if holds(before, x) {
        let i = choose|i: int| 0 <= i < before.len() && (#[trigger] before[i])@ == x;
        assert(after[i]@ == x);
    }
    if holds(after, x) {
        let i = choose|i: int| 0 <= i < after.len() && (#[trigger] after[i])@ == x;
        if i < before.len() {
            assert(before[i]@ == x);
        }
    }
}

/// What the first `n + 1` connections join the node to is what the first
/// `n` join it to, and what connection `n` joins it to.
pub proof fn lemma_beside_next(connections: Seq<(Vec<char>, Vec<char>)>, n: int, node: Seq<char>, x: Seq<char>)
    requires
        0 <= n < connections.len(),
    ensures
        beside(connections, n + 1, node, x) <==> beside(connections, n, node, x) || joins(
            connections,
            n,
            node,
            x,
        ),
{
    if beside(connections, n + 1, node, x) {
        let i = choose|i: int| 0 <= i < n + 1 && #[trigger] joins(connections, i, node, x);
        if i < n {
            assert(beside(connections, n, node, x));
        }
    }
    if beside(connections, n, node, x) {
        let i = choose|i: int| 0 <= i < n && #[trigger] joins(connections, i, node, x);
        assert(joins(connections, i, node, x));
    }
}

/// The names of the network, each once, in the order in which the
/// connections name them.
pub fn all_nodes(connections: &Vec<(Vec<char>, Vec<char>)>) -> (nodes: Vec<Vec<char>>)
    ensures
        distinct(nodes@),
        forall|name: Seq<char>| #[trigger]
            holds(nodes@, name) <==> named(connections@, connections@.len() as int, name),
{
    let mut nodes: Vec<Vec<char>> = Vec::new();
    let mut i: usize = 0;
    while i < connections.len()
        invariant
            i <= connections@.len(),
            distinct(nodes@),
            forall|name: Seq<char>| #[trigger] holds(nodes@, name) <==> named(connections@, i as int, name),
        decreases connections@.len() - i,
    {
        let c = &connections[i];
        let ghost start = nodes@;
        if !contains(&nodes, &c.0) {
            let ghost before = nodes@;
            nodes.push(copy(&c.0));
            proof {
                assert forall|a: int, b: int| 0 <= a < b < nodes@.len() implies (#[trigger] nodes@[a])@
                    != (#[trigger] nodes@[b])@ by {
                    if b == before.len() {
                        assert(nodes@[a] == before[a]);
                    } else {
                        assert(nodes@[a] == before[a] && nodes@[b] == before[b]);
                    }
                }
                assert forall|x: Seq<char>| #[trigger]
                    holds(nodes@, x) <==> holds(start, x) || x == c.0@ by {
                    lemma_holds_push(before, nodes@, x);
                }
            }
        }
        let ghost middle = nodes@;
        if !contains(&nodes, &c.1) {
            let ghost before = nodes@;
            nodes.push(copy(&c.1));
            proof {
                assert forall|a: int, b: int| 0 <= a < b < nodes@.len() implies (#[trigger] nodes@[a])@
                    != (#[trigger] nodes@[b])@ by {
                    if b == before.len() {
                        assert(nodes@[a] == before[a]);
                    } else {
                        assert(nodes@[a] == before[a] && nodes@[b] == before[b]);
                    }
                }
                assert forall|x: Seq<char>| #[trigger]
                    holds(nodes@, x) <==> holds(middle, x) || x == c.1@ by {
                    lemma_holds_push(before, nodes@, x);
                }
            }
        }
        proof {
            assert forall|x: Seq<char>| #[trigger]
                holds(nodes@, x) <==> named(connections@, i + 1, x) by {
                assert(holds(nodes@, x) <==> holds(start, x) || x == c.0@ || x == c.1@);
                if named(connections@, i + 1, x) {
                    let k = choose|k: int| 0 <= k < i + 1 && #[trigger] names(connections@, k, x);
                    if k < i {
                        assert(named(connections@, i as int, x));
                    }
                }
                if named(connections@, i as int, x) {
                    let k = choose|k: int| 0 <= k < i && #[trigger] names(connections@, k, x);
                    assert(names(connections@, k, x));
                }
                if x == c.0@ || x == c.1@ {
                    assert(names(connections@, i as int, x));
                }
            }
        }
        i += 1;
    }
    nodes
}

/// Connection `i` names the name at one of its ends.
pub open spec fn names(connections: Seq<(Vec<char>, Vec<char>)>, i: int, name: Seq<char>) -> bool {
    0 <= i < connections.len() && (connections[i].0@ == name || connections[i].1@ == name)
}

/// One of the first `n` connections names the name.
pub open spec fn named(connections: Seq<(Vec<char>, Vec<char>)>, n: int, name: Seq<char>) -> bool {
    exists|k: int| 0 <= k < n && #[trigger] names(connections, k, name)
}

/// The three nodes number `i`, `j` and `k` are connected all with all, and
/// one of them begins with t.
pub open spec fn is_party(
    nodes: Seq<Vec<char>>,
    connections: Seq<(Vec<char>, Vec<char>)>,
    i: int,
    j: int,
    k: int,
) -> bool {
    &&& (begins_with_t(nodes[i]@) || begins_with_t(nodes[j]@) || begins_with_t(nodes[k]@))
    &&& linked(connections, nodes[i]@, nodes[j]@)
    &&& linked(connections, nodes[i]@, nodes[k]@)
    &&& linked(connections, nodes[j]@, nodes[k]@)
}

/// How many parties there are among the triples (`i`, `j`, `k`) with
/// `k` below `n`.
pub open spec fn parties_k(
    nodes: Seq<Vec<char>>,
    connections: Seq<(Vec<char>, Vec<char>)>,
    i: int,
    j: int,
    n: int,
) -> int
    decreases n,
{
    if n <= j + 1 || n <= 0 {
        0
    } else {
        parties_k(nodes, connections, i, j, n - 1) + if is_party(nodes, connections, i, j, n - 1) {
            1int
        } else {
            0int
        }
    }
}

/// How many parties there are among the triples (`i`, `j`, `k`) with `j`
/// below `n`.
pub open spec fn parties_j(
    nodes: Seq<Vec<char>>,
    connections: Seq<(Vec<char>, Vec<char>)>,
    i: int,
    n: int,
) -> int
    decreases n,
{
    if n <= i + 1 || n <= 0 {
        0
    } else {
        parties_j(nodes, connections, i, n - 1) + parties_k(
            nodes,
            connections,
            i,
            n - 1,
            nodes.len() as int,
        )
    }
}

/// How many parties there are among the triples (`i`, `j`, `k`) with `i`
/// below `n`.
pub open spec fn parties_i(nodes: Seq<Vec<char>>, connections: Seq<(Vec<char>, Vec<char>)>, n: int) -> int
    decreases n,
{
    if n <= 0 {
        0
    } else {
        parties_i(nodes, connections, n - 1) + parties_j(nodes, connections, n - 1, nodes.len() as int)
    }
}

/// No more parties are counted than third nodes were tried.
pub proof fn lemma_parties_k_bound(
    nodes: Seq<Vec<char>>,
    connections: Seq<(Vec<char>, Vec<char>)>,
    i: int,
    j: int,
    n: int,
)
    requires
        0 <= n,
    ensures
        0 <= parties_k(nodes, connections, i, j, n) <= n,
    decreases n,
{
    if !(n <= j + 1 || n <= 0) {
        lemma_parties_k_bound(nodes, connections, i, j, n - 1);
    }
}

/// How many sets of three nodes, one of them beginning with t, are
/// connected all with all. The count stops at `usize::MAX`.
pub fn part1(nodes: &Vec<Vec<char>>, connections: &Vec<(Vec<char>, Vec<char>)>) -> (count: usize)
    ensures
        count == if parties_i(nodes@, connections@, nodes@.len() as int) <= usize::MAX {
            parties_i(nodes@, connections@, nodes@.len() as int)
        } else {
            usize::MAX as int
        },
{
    let n = nodes.len();
    let mut count: usize = 0;
    let ghost mut exact: int = 0;
    let mut i: usize = 0;
    while i < n
        invariant
            i <= n,
            n == nodes@.len(),
            exact == parties_i(nodes@, connections@, i as int),
            exact >= 0,
            count == if exact <= usize::MAX {
                exact
            } else {
                usize::MAX as int
            },
        decreases n - i,
    {
        let ghost base = exact;
        let mut j: usize = i + 1;
        while j < n
            invariant
                i < j || j == n,
                i < n,
                j <= n,
                n == nodes@.len(),
                base >= 0,
                exact == base + parties_j(nodes@, connections@, i as int, j as int),
                exact >= 0,
                count == if exact <= usize::MAX {
                    exact
                } else {
                    usize::MAX as int
                },
            decreases n - j,
        {
            let ghost mid = exact;
            let first = is_linked(connections, &nodes[i], &nodes[j]);
            let mut k: usize = j + 1;
            while k < n
                invariant
                    i < j < n,
                    j < k || k == n,
                    k <= n,
                    n == nodes@.len(),
                    mid >= 0,
                    first == linked(connections@, nodes@[i as int]@, nodes@[j as int]@),
                    exact == mid + parties_k(nodes@, connections@, i as int, j as int, k as int),
                    exact >= 0,
                    count == if exact <= usize::MAX {
                        exact
                    } else {
                        usize::MAX as int
                    },
                decreases n - k,
            {
                proof {
                    lemma_parties_k_bound(nodes@, connections@, i as int, j as int, k as int);
                }
                if first && is_linked(connections, &nodes[i], &nodes[k]) && is_linked(
                    connections,
                    &nodes[j],
                    &nodes[k],
                ) && (t_first(&nodes[i]) || t_first(&nodes[j]) || t_first(&nodes[k])) {
                    if count < usize::MAX {
                        count += 1;
                    }
                    proof {
                        exact = exact + 1;
                    }
                }
                k += 1;
            }
            proof {
                lemma_parties_k_bound(nodes@, connections@, i as int, j as int, n as int);
            }
            j += 1;
        }
        proof {
            lemma_parties_j_floor(nodes@, connections@, i as int, n as int);
        }
        i += 1;
    }
    count
}

/// A count of parties is nought at least.
pub proof fn lemma_parties_j_floor(
    nodes: Seq<Vec<char>>,
    connections: Seq<(Vec<char>, Vec<char>)>,
    i: int,
    n: int,
)
    ensures
        parties_j(nodes, connections, i, n) >= 0,
    decreases n,
{
    if !(n <= i + 1 || n <= 0) {
        lemma_parties_j_floor(nodes, connections, i, n - 1);
        lemma_parties_k_bound(nodes, connections, i, n - 1, nodes.len() as int);
    }
}

/// For every name of the network the names it is connected to.
pub type Neighbours = Vec<(Vec<char>, Vec<Vec<char>>)>;

/// Entry `i` is the first of the table for the name.
pub open spec fn entry_at(table: Seq<(Vec<char>, Vec<Vec<char>>)>, name: Seq<char>, i: int) -> bool {
    &&& 0 <= i < table.len()
    &&& table[i].0@ == name
    &&& forall|j: int| 0 <= j < i ==> (#[trigger] table[j]).0@ != name
}

/// The table has an entry for the name.
pub open spec fn known(table: Seq<(Vec<char>, Vec<Vec<char>>)>, name: Seq<char>) -> bool {
    exists|i: int| entry_at(table, name, i)
}

/// The names that the table gives for the name.
pub open spec fn near(table: Seq<(Vec<char>, Vec<Vec<char>>)>, name: Seq<char>) -> Seq<Vec<char>> {
    table[choose|i: int| entry_at(table, name, i)].1@
}

/// The first entry of the table for the name.
fn lookup(table: &Neighbours, name: &Vec<char>) -> (at: Option<usize>)
    ensures
        match at {
            Some(i) => entry_at(table@, name@, i as int) && table@[i as int].1@ == near(table@, name@),
            None => !known(table@, name@),
        },
{
    let mut i: usize = 0;
    while i < table.len()
        invariant
            i <= table@.len(),
            forall|j: int| 0 <= j < i ==> (#[trigger] table@[j]).0@ != name@,
        decreases table@.len() - i,
    {
        if same(&table[i].0, name) {
            proof {
                assert(entry_at(table@, name@, i as int));
                let c = choose|c: int| entry_at(table@, name@, c);
                if c < i {
                    assert(table@[c].0@ != name@);
                }
                if i < c {
                    assert(table@[i as int].0@ != name@);
                }
            }
            return Some(i);
        }
        i += 1;
    }
    proof {
        if known(table@, name@) {
            let c = choose|c: int| entry_at(table@, name@, c);
            assert(table@[c].0@ != name@);
        }
    }
    None
}

/// How many of the first `n` names of the list are the node or among its
/// neighbours.
pub open spec fn shared_upto(list: Seq<Vec<char>>, root: Seq<Vec<char>>, node: Seq<char>, n: int) -> int
    decreases n,
{
    if n <= 0 {
        0
    } else {
        shared_upto(list, root, node, n - 1) + if list[n - 1]@ == node || holds(root, list[n - 1]@) {
            1int
        } else {
            0int
        }
    }
}

/// The neighbour shares all but one at most of the neighbours of the node
/// with it, the node and itself counted in.
pub open spec fn is_close(
    table: Seq<(Vec<char>, Vec<Vec<char>>)>,
    node: Seq<char>,
    neighbour: Seq<char>,
) -> bool {
    let root = near(table, node);
    let list = near(table, neighbour);
    shared_upto(list, root, node, list.len() as int) + 1 >= root.len()
}

/// How many of the first `n` neighbours of the node are close to it.
pub open spec fn close_upto(table: Seq<(Vec<char>, Vec<Vec<char>>)>, node: Seq<char>, n: int) -> int
    decreases n,
{
    if n <= 0 {
        0
    } else {
        close_upto(table, node, n - 1) + if is_close(table, node, near(table, node)[n - 1]@) {
            1int
        } else {
            0int
        }
    }
}

/// The table has an entry for the node and for every one of its
/// neighbours.
pub open spec fn rooted(table: Seq<(Vec<char>, Vec<Vec<char>>)>, node: Seq<char>) -> bool {
    known(table, node) && forall|i: int|
        0 <= i < near(table, node).len() ==> known(table, (#[trigger] near(table, node)[i])@)
}

/// How many of the neighbours of the node share all but one at most of its
/// neighbours with it. `None` where the table lacks the node or one of its
/// neighbours.
pub fn node_interestions(nodes_connections: &Neighbours, node: &Vec<char>) -> (count: Option<usize>)
    ensures
        match count {
            Some(n) => rooted(nodes_connections@, node@) && n == close_upto(
                nodes_connections@,
                node@,
                near(nodes_connections@, node@).len() as int,
            ),
            None => !rooted(nodes_connections@, node@),
        },
{
    let ghost table = nodes_connections@;
    let at = match lookup(nodes_connections, node) {
        Some(at) => at,
        None => {
            return None;
        },
    };
    let root = &nodes_connections[at].1;
    let mut count: usize = 0;
    let mut i: usize = 0;
    while i < root.len()
        invariant
            i <= root@.len(),
            table == nodes_connections@,
            root@ == near(table, node@),
            known(table, node@),
            forall|j: int| 0 <= j < i ==> known(table, (#[trigger] root@[j])@),
            count <= i,
            count == close_upto(table, node@, i as int),
        decreases root@.len() - i,
    {
        let rc = &root[i];
        let list = match lookup(nodes_connections, rc) {
            Some(k) => &nodes_connections[k].1,
            None => {
                return None;
            },
        };
        let mut shared: usize = 0;
        let mut k: usize = 0;
        while k < list.len()
            invariant
                k <= list@.len(),
                shared <= k,
                shared == shared_upto(list@, root@, node@, k as int),
            decreases list@.len() - k,
        {
            let x = &list[k];
            if same(x, node) || contains(root, x) {
                shared += 1;
            }
            k += 1;
        }
        // shared + 1 >= root.len(), without overflow
        if shared >= root.len() || shared + 1 >= root.len() {
            count += 1;
        }
        i += 1;
    }
    Some(count)
}

/// For every one of the nodes the names it is connected to.
pub fn neighbour_table(connections: &Vec<(Vec<char>, Vec<char>)>, nodes: &Vec<Vec<char>>) -> (table: Neighbours)
    ensures
        table@.len() == nodes@.len(),
        forall|i: int|
            0 <= i < table@.len() ==> (#[trigger] table@[i]).0@ == nodes@[i]@ && distinct(table@[i].1@)
                && forall|name: Seq<char>| #[trigger]
                holds(table@[i].1@, name) <==> beside(
                    connections@,
                    connections@.len() as int,
                    nodes@[i]@,
                    name,
                ),
{
    let mut table: Neighbours = Vec::new();
    let mut i: usize = 0;
    while i < nodes.len()
        invariant
            i <= nodes@.len(),
            table@.len() == i,
            forall|k: int|
                0 <= k < i ==> (#[trigger] table@[k]).0@ == nodes@[k]@ && distinct(table@[k].1@)
                    && forall|name: Seq<char>| #[trigger]
                    holds(table@[k].1@, name) <==> beside(
                        connections@,
                        connections@.len() as int,
                        nodes@[k]@,
                        name,
                    ),
        decreases nodes@.len() - i,
    {
        let near = node_connections(connections, &nodes[i]);
        table.push((copy(&nodes[i]), near));
        i += 1;
    }
    table
}

/// The score of the node, nought where the table lacks it or one of its
/// neighbours.
pub open spec fn score(table: Seq<(Vec<char>, Vec<Vec<char>>)>, node: Seq<char>) -> int {
    if rooted(table, node) {
        close_upto(table, node, near(table, node).len() as int)
    } else {
        0
    }
}

/// The names of the first `n` entries of the table whose score is `best`.
pub open spec fn scoring(table: Seq<(Vec<char>, Vec<Vec<char>>)>, best: int, n: int) -> Seq<Seq<char>>
    decreases n,
{
    if n <= 0 {
        Seq::empty()
    } else if score(table, table[n - 1].0@) == best {
        scoring(table, best, n - 1).push(table[n - 1].0@)
    } else {
        scoring(table, best, n - 1)
    }
}

/// The names with the highest score of the table, in rising order.
pub fn most_connected(table: &Neighbours) -> (out: Vec<Vec<char>>)
    ensures
        rising(out@),
        exists|best: int|
            (forall|i: int| 0 <= i < table@.len() ==> score(table@, (#[trigger] table@[i]).0@) <= best)
                && views(out@).to_multiset() == #[trigger] scoring(
                table@,
                best,
                table@.len() as int,
            ).to_multiset() && (table@.len() > 0 ==> out@.len() > 0),
{
    let mut best: usize = 0;
    let mut i: usize = 0;
    while i < table.len()
        invariant
            i <= table@.len(),
            forall|k: int| 0 <= k < i ==> score(table@, (#[trigger] table@[k]).0@) <= best,
            i > 0 ==> exists|k: int| 0 <= k < i && score(table@, (#[trigger] table@[k]).0@) == best,
            i == 0 ==> best == 0,
        decreases table@.len() - i,
    {
        let s = match node_interestions(table, &table[i].0) {
            Some(s) => s,
            None => 0,
        };
        assert(s == score(table@, table@[i as int].0@));
        if i == 0 || s > best {
            best = s;
        }
        i += 1;
    }
    let mut found: Vec<Vec<char>> = Vec::new();
    let mut i: usize = 0;
    assert(views(found@) =~= scoring(table@, best as int, 0));
    while i < table.len()
        invariant
            i <= table@.len(),
            views(found@) == scoring(table@, best as int, i as int),
        decreases table@.len() - i,
    {
        let s = match node_interestions(table, &table[i].0) {
            Some(s) => s,
            None => 0,
        };
        if s == best {
            let ghost before = views(found@);
            found.push(copy(&table[i].0));
            assert(views(found@) =~= before.push(table@[i as int].0@));
        }
        i += 1;
    }
    proof {
        if table@.len() > 0 {
            let k = choose|k: int| 0 <= k < table@.len() && score(table@, (#[trigger] table@[k]).0@) == best;
            lemma_scoring_holds(table@, best as int, table@.len() as int, k);
        }
    }
    let out = sort(found);
    proof {
        views(out@).to_multiset_ensures();
        views(found@).to_multiset_ensures();
        assert(views(out@).len() == views(found@).len());
        assert(out@.len() == views(out@).len());
    }
    out
}

/// The names that score `best` are listed.
pub proof fn lemma_scoring_holds(table: Seq<(Vec<char>, Vec<Vec<char>>)>, best: int, n: int, k: int)
    requires
        0 <= k < n <= table.len(),
        score(table, table[k].0@) == best,
    ensures
        scoring(table, best, n).len() > 0,
    decreases n,
{
    if k < n - 1 {
        lemma_scoring_holds(table, best, n - 1, k);
    }
}

fn t_first(name: &Vec<char>) -> (t: bool)
    ensures
        t == begins_with_t(name@),
{
    name.len() > 0 && name[0] == 't'
}

} // verus!
