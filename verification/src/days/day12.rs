//! Garden plots: regions of equal plants, their areas, their fences and the
//! straight sides of their fences.

use vstd::prelude::*;
use crate::days::day16::flags::{cleared, lemma_pending_set, pending};
use crate::plane::rectangular;
use crate::slots::{lemma_slot, slot, slot_of};

verus! {

/// The cells of a region, and the pieces of its fence: each piece given by
/// the direction in which it lies and the cell of the region it lies at.
pub type AreaPerimeter = (Vec<(isize, isize)>, Vec<(isize, isize, isize, isize)>);

/// The position lies on the map.
pub open spec fn on_map(map: Seq<Vec<char>>, pos: (int, int)) -> bool {
    0 <= pos.0 < map.len() && 0 <= pos.1 < map[0]@.len()
}

/// The `k`-th of the four directions: right, left, down, up.
pub open spec fn dir(k: int) -> (int, int) {
    if k == 0 {
        (0, 1)
    } else if k == 1 {
        (0, -1)
    } else if k == 2 {
        (1, 0)
    } else {
        (-1, 0)
    }
}

/// The step is one of the four steps to a neighbour.
pub open spec fn is_dir(dy: int, dx: int) -> bool {
    exists|k: int| 0 <= k < 4 && #[trigger] dir(k) == (dy, dx)
}

/// The two cells lie side by side on the map and hold the same plant.
pub open spec fn joined(map: Seq<Vec<char>>, a: (int, int), b: (int, int)) -> bool {
    &&& on_map(map, a)
    &&& on_map(map, b)
    &&& is_dir(b.0 - a.0, b.1 - a.1)
    &&& map[a.0]@[a.1] == map[b.0]@[b.1]
}

/// The `i`-th cell of the path and the next are neighbours that hold the same plant.
pub open spec fn joined_at(map: Seq<Vec<char>>, path: Seq<(int, int)>, i: int) -> bool {
    joined(map, path[i], path[i + 1])
}

/// A chain of cells of one plant, each beside the one before, from `from`
/// to `to`.
pub open spec fn links(map: Seq<Vec<char>>, path: Seq<(int, int)>, from: (int, int), to: (int, int)) -> bool {
    &&& path.len() >= 1
    &&& path[0] == from
    &&& path.last() == to
    &&& on_map(map, from)
    &&& forall|i: int| 0 <= i < path.len() - 1 ==> #[trigger] joined_at(map, path, i)
}

/// The cell `q` belongs to the region of the cell `pos`.
pub open spec fn in_region(map: Seq<Vec<char>>, pos: (int, int), q: (int, int)) -> bool {
    exists|path: Seq<(int, int)>| #[trigger] links(map, path, pos, q)
}

/// A piece of fence of the region of `pos`: it lies at a cell of the region,
/// in one of the four directions, where the region ends.
pub open spec fn is_fence(map: Seq<Vec<char>>, pos: (int, int), e: (int, int, int, int)) -> bool {
    &&& in_region(map, pos, (e.2, e.3))
    &&& is_dir(e.0, e.1)
    &&& !joined(map, (e.2, e.3), (e.2 + e.0, e.3 + e.1))
}

/// A position as a pair of integers.
pub open spec fn cell_of(p: (isize, isize)) -> (int, int) {
    (p.0 as int, p.1 as int)
}

/// A piece of fence as four integers.
pub open spec fn edge_of(e: (isize, isize, isize, isize)) -> (int, int, int, int) {
    (e.0 as int, e.1 as int, e.2 as int, e.3 as int)
}

/// The list holds each of its items once.
pub open spec fn distinct<T>(list: Seq<T>) -> bool {
    forall|i: int, j: int| 0 <= i < j < list.len() ==> list[i] != list[j]
}

/// `area` holds the cells of the region of `pos`, each once, and
/// `perimeter` the pieces of its fence, each once.
pub open spec fn is_area_perimeter(
    map: Seq<Vec<char>>,
    pos: (int, int),
    area: Seq<(isize, isize)>,
    perimeter: Seq<(isize, isize, isize, isize)>,
) -> bool {
    &&& distinct(area)
    &&& distinct(perimeter)
    &&& forall|i: int| 0 <= i < area.len() ==> in_region(map, pos, cell_of(#[trigger] area[i]))
    &&& forall|q: (int, int)| #[trigger]
        in_region(map, pos, q) ==> exists|i: int| 0 <= i < area.len() && cell_of(#[trigger] area[i]) == q
    &&& forall|i: int| 0 <= i < perimeter.len() ==> is_fence(map, pos, edge_of(#[trigger] perimeter[i]))
    &&& forall|e: (int, int, int, int)| #[trigger]
        is_fence(map, pos, e) ==> exists|i: int|
            0 <= i < perimeter.len() && edge_of(#[trigger] perimeter[i]) == e
}

/// Whether the position lies on the map.
pub fn in_map(map: &Vec<Vec<char>>, pos: (isize, isize)) -> (inside: bool)
    requires
        map@.len() > 0,
    ensures
        inside == on_map(map@, cell_of(pos)),
{
    pos.0 >= 0 && pos.1 >= 0 && (pos.0 as usize) < map.len() && (pos.1 as usize) < map[0].len()
}

/// The region of a cell holds the cell.
pub proof fn lemma_region_holds_itself(map: Seq<Vec<char>>, pos: (int, int))
    requires
        on_map(map, pos),
    ensures
        in_region(map, pos, pos),
{
    assert(links(map, seq![pos], pos, pos));
}

/// A cell joined to a cell of the region belongs to the region.
pub proof fn lemma_region_grows(map: Seq<Vec<char>>, pos: (int, int), a: (int, int), b: (int, int))
    requires
        in_region(map, pos, a),
        joined(map, a, b),
    ensures
        in_region(map, pos, b),
{
    let path = choose|path: Seq<(int, int)>| #[trigger] links(map, path, pos, a);
    let more = path.push(b);
    assert forall|i: int| 0 <= i < more.len() - 1 implies #[trigger] joined_at(map, more, i) by {
        if i < path.len() - 1 {
            assert(joined_at(map, path, i));
        }
    }
    assert(links(map, more, pos, b));
}

/// A set of cells that holds `pos` and with every cell all cells joined to
/// it holds the region of `pos`.
pub proof fn lemma_closed_holds_region(
    map: Seq<Vec<char>>,
    pos: (int, int),
    held: spec_fn((int, int)) -> bool,
    path: Seq<(int, int)>,
    q: (int, int),
)
    requires
        held(pos),
        forall|a: (int, int), b: (int, int)| held(a) && #[trigger] joined(map, a, b) ==> held(b),
        links(map, path, pos, q),
    ensures
        held(q),
    decreases path.len(),
{
    if path.len() > 1 {
        let before = path.drop_last();
        assert forall|i: int| 0 <= i < before.len() - 1 implies #[trigger] joined_at(map, before, i) by {
            assert(joined_at(map, path, i));
        }
        lemma_closed_holds_region(map, pos, held, before, before.last());
        assert(joined_at(map, path, path.len() - 2));
    }
}

/// The number of a cell in a table of the cells of the map.
pub open spec fn number_of(map: Seq<Vec<char>>, c: (int, int)) -> int {
    slot(map[0]@.len() as int, 1, c.0, c.1, 0)
}

/// The list holds the cell.
#[verifier::opaque]
pub open spec fn has_cell(list: Seq<(isize, isize)>, c: (int, int)) -> bool {
    exists|i: int| 0 <= i < list.len() && cell_of(#[trigger] list[i]) == c
}

/// The list holds the piece of fence.
#[verifier::opaque]
pub open spec fn has_edge(list: Seq<(isize, isize, isize, isize)>, e: (int, int, int, int)) -> bool {
    exists|i: int| 0 <= i < list.len() && edge_of(#[trigger] list[i]) == e
}

/// A list with one more cell holds what it held, and that cell.
pub proof fn lemma_has_cell_push(list: Seq<(isize, isize)>, more: (isize, isize), c: (int, int))
    ensures
        has_cell(list.push(more), c) <==> has_cell(list, c) || cell_of(more) == c,
{
    reveal(has_cell);
    let after = list.push(more);
    if has_cell(list, c) {
        let i = choose|i: int| 0 <= i < list.len() && cell_of(#[trigger] list[i]) == c;
        assert(cell_of(after[i]) == c);
    }
    if cell_of(more) == c {
        assert(cell_of(after[list.len() as int]) == c);
    }
    if has_cell(after, c) {
        let i = choose|i: int| 0 <= i < after.len() && cell_of(#[trigger] after[i]) == c;
        if i < list.len() {
            assert(cell_of(list[i]) == c);
        }
    }
}

/// A cell that the list holds, and that is not its last, is held by the list without its last.
pub proof fn lemma_has_cell_drop_last(list: Seq<(isize, isize)>, c: (int, int))
    requires
        list.len() > 0,
        has_cell(list, c),
        cell_of(list.last()) != c,
    ensures
        has_cell(list.drop_last(), c),
{
    reveal(has_cell);
    let i = choose|i: int| 0 <= i < list.len() && cell_of(#[trigger] list[i]) == c;
    assert(cell_of(list.drop_last()[i]) == c);
}

/// A list with one more piece of fence holds what it held, and that piece.
pub proof fn lemma_has_edge_push(
    list: Seq<(isize, isize, isize, isize)>,
    more: (isize, isize, isize, isize),
    e: (int, int, int, int),
)
    ensures
        has_edge(list.push(more), e) <==> has_edge(list, e) || edge_of(more) == e,
{
    reveal(has_edge);
    let after = list.push(more);
    if has_edge(list, e) {
        let i = choose|i: int| 0 <= i < list.len() && edge_of(#[trigger] list[i]) == e;
        assert(edge_of(after[i]) == e);
    }
    if edge_of(more) == e {
        assert(edge_of(after[list.len() as int]) == e);
    }
    if has_edge(after, e) {
        let i = choose|i: int| 0 <= i < after.len() && edge_of(#[trigger] after[i]) == e;
        if i < list.len() {
            assert(edge_of(list[i]) == e);
        }
    }
}

/// The side `k` of the cell is dealt with: the cell beyond is seen, or the
/// piece of fence is gathered.
pub open spec fn side_ok(
    map: Seq<Vec<char>>,
    seen: Seq<bool>,
    perimeter: Seq<(isize, isize, isize, isize)>,
    c: (int, int),
    k: int,
) -> bool {
    let beyond = (c.0 + dir(k).0, c.1 + dir(k).1);
    if joined(map, c, beyond) {
        seen[number_of(map, beyond)]
    } else {
        has_edge(perimeter, (dir(k).0, dir(k).1, c.0, c.1))
    }
}

/// What holds of the cells that are seen and done.
pub open spec fn flags_ok(map: Seq<Vec<char>>, pos: (int, int), seen: Seq<bool>, done: Seq<bool>) -> bool {
    &&& seen.len() == map.len() * map[0]@.len()
    &&& done.len() == seen.len()
    &&& forall|c: (int, int)|
        on_map(map, c) && #[trigger] seen[number_of(map, c)] ==> in_region(map, pos, c)
    &&& forall|c: (int, int)| on_map(map, c) && #[trigger] done[number_of(map, c)] ==> seen[number_of(map, c)]
}

/// The stack holds, each once, cells that are seen and not done, and with
/// them every such cell.
pub open spec fn stack_ok(map: Seq<Vec<char>>, seen: Seq<bool>, done: Seq<bool>, stack: Seq<(isize, isize)>) -> bool {
    &&& distinct(stack)
    &&& forall|i: int|
        0 <= i < stack.len() ==> on_map(map, cell_of(#[trigger] stack[i])) && seen[number_of(
            map,
            cell_of(stack[i]),
        )] && !done[number_of(map, cell_of(stack[i]))]
    &&& forall|c: (int, int)|
        on_map(map, c) && seen[number_of(map, c)] && !done[number_of(map, c)] ==> #[trigger] has_cell(
            stack,
            c,
        )
}

/// The area holds, each once, the cells that are done.
pub open spec fn area_ok(map: Seq<Vec<char>>, done: Seq<bool>, area: Seq<(isize, isize)>) -> bool {
    &&& distinct(area)
    &&& forall|i: int|
        0 <= i < area.len() ==> on_map(map, cell_of(#[trigger] area[i])) && done[number_of(
            map,
            cell_of(area[i]),
        )]
    &&& forall|c: (int, int)| on_map(map, c) && done[number_of(map, c)] ==> #[trigger] has_cell(area, c)
}

/// The perimeter holds, each once, pieces of fence at cells that are done;
/// those at the cell `cur` lie in one of the first `k` directions.
pub open spec fn fence_ok(
    map: Seq<Vec<char>>,
    done: Seq<bool>,
    perimeter: Seq<(isize, isize, isize, isize)>,
    cur: (int, int),
    k: int,
) -> bool {
    &&& distinct(perimeter)
    &&& forall|i: int|
        0 <= i < perimeter.len() ==> {
            let e = edge_of(#[trigger] perimeter[i]);
            &&& on_map(map, (e.2, e.3))
            &&& done[number_of(map, (e.2, e.3))]
            &&& !joined(map, (e.2, e.3), (e.2 + e.0, e.3 + e.1))
            &&& exists|j: int| 0 <= j < 4 && #[trigger] dir(j) == (e.0, e.1) && ((e.2, e.3) == cur ==> j < k)
        }
}

/// Every side of every cell that is done is dealt with, but for the sides
/// of the cell `cur` from the `k`-th on.
pub open spec fn sides_ok(
    map: Seq<Vec<char>>,
    seen: Seq<bool>,
    done: Seq<bool>,
    perimeter: Seq<(isize, isize, isize, isize)>,
    cur: (int, int),
    k: int,
) -> bool {
    forall|c: (int, int), j: int|
        on_map(map, c) && done[number_of(map, c)] && 0 <= j < 4 && (c == cur ==> j < k) ==> #[trigger] side_ok(
            map,
            seen,
            perimeter,
            c,
            j,
        )
}

/// The numbers of two cells of the map differ if the cells do.
pub proof fn lemma_numbers_differ(map: Seq<Vec<char>>, a: (int, int), b: (int, int))
    requires
        on_map(map, a),
        on_map(map, b),
    ensures
        0 <= number_of(map, a) < map.len() * map[0]@.len(),
        a != b ==> number_of(map, a) != number_of(map, b),
{
    lemma_slot(map.len() as int, map[0]@.len() as int, 1, a.0, a.1, 0);
    lemma_slot(map.len() as int, map[0]@.len() as int, 1, b.0, b.1, 0);
}

/// Once no cell is left on the stack, the area and the perimeter are those
/// of the region.
pub proof fn lemma_gathered(
    map: Seq<Vec<char>>,
    pos: (int, int),
    seen: Seq<bool>,
    done: Seq<bool>,
    area: Seq<(isize, isize)>,
    perimeter: Seq<(isize, isize, isize, isize)>,
)
    requires
        on_map(map, pos),
        seen[number_of(map, pos)],
        flags_ok(map, pos, seen, done),
        stack_ok(map, seen, done, Seq::empty()),
        area_ok(map, done, area),
        fence_ok(map, done, perimeter, (-1, -1), 0),
        sides_ok(map, seen, done, perimeter, (-1, -1), 0),
    ensures
        is_area_perimeter(map, pos, area, perimeter),
{
    reveal(has_cell);
    reveal(has_edge);
    let held = |c: (int, int)| on_map(map, c) && done[number_of(map, c)];
    assert forall|c: (int, int)| on_map(map, c) && seen[number_of(map, c)] implies done[number_of(
        map,
        c,
    )] by {
        if !done[number_of(map, c)] {
            assert(has_cell(Seq::<(isize, isize)>::empty(), c));
        }
    }
    assert forall|a: (int, int), b: (int, int)| held(a) && #[trigger] joined(map, a, b) implies held(
        b,
    ) by {
        let k = choose|k: int| 0 <= k < 4 && #[trigger] dir(k) == (b.0 - a.0, b.1 - a.1);
        assert(side_ok(map, seen, perimeter, a, k));
    }
    assert forall|q: (int, int)| #[trigger] in_region(map, pos, q) implies exists|i: int|
        0 <= i < area.len() && cell_of(#[trigger] area[i]) == q by {
        let path = choose|path: Seq<(int, int)>| #[trigger] links(map, path, pos, q);
        lemma_closed_holds_region(map, pos, held, path, q);
        assert(has_cell(area, q));
    }
    assert forall|i: int| 0 <= i < area.len() implies in_region(map, pos, cell_of(#[trigger] area[i])) by {
        assert(done[number_of(map, cell_of(area[i]))]);
    }
    assert forall|i: int| 0 <= i < perimeter.len() implies is_fence(
        map,
        pos,
        edge_of(#[trigger] perimeter[i]),
    ) by {
        let e = edge_of(perimeter[i]);
        assert(done[number_of(map, (e.2, e.3))]);
        let j = choose|j: int| 0 <= j < 4 && #[trigger] dir(j) == (e.0, e.1) && ((e.2, e.3) == (-1, -1) ==> j < 0);
        assert(dir(j) == (e.0, e.1));
    }
    assert forall|e: (int, int, int, int)| #[trigger] is_fence(map, pos, e) implies exists|i: int|
        0 <= i < perimeter.len() && edge_of(#[trigger] perimeter[i]) == e by {
        let c = (e.2, e.3);
        let path = choose|path: Seq<(int, int)>| #[trigger] links(map, path, pos, c);
        lemma_closed_holds_region(map, pos, held, path, c);
        let k = choose|k: int| 0 <= k < 4 && #[trigger] dir(k) == (e.0, e.1);
        assert(side_ok(map, seen, perimeter, c, k));
        assert(has_edge(perimeter, e));
    }
}

/// A cell is taken off the stack, marked as done and put to the area.
pub proof fn lemma_visit(
    map: Seq<Vec<char>>,
    pos: (int, int),
    seen: Seq<bool>,
    done: Seq<bool>,
    area: Seq<(isize, isize)>,
    stack: Seq<(isize, isize)>,
    perimeter: Seq<(isize, isize, isize, isize)>,
)
    requires
        stack.len() > 0,
        flags_ok(map, pos, seen, done),
        stack_ok(map, seen, done, stack),
        area_ok(map, done, area),
        fence_ok(map, done, perimeter, (-1, -1), 0),
        sides_ok(map, seen, done, perimeter, (-1, -1), 0),
    ensures
        ({
            let p = stack.last();
            let cur = cell_of(p);
            let marked = done.update(number_of(map, cur), true);
            &&& on_map(map, cur)
            &&& 0 <= number_of(map, cur) < done.len()
            &&& !done[number_of(map, cur)]
            &&& flags_ok(map, pos, seen, marked)
            &&& stack_ok(map, seen, marked, stack.drop_last())
            &&& area_ok(map, marked, area.push(p))
            &&& fence_ok(map, marked, perimeter, cur, 0)
            &&& sides_ok(map, seen, marked, perimeter, cur, 0)
            &&& pending(marked) < pending(done)
        }),
{
    let p = stack.last();
    let cur = cell_of(p);
    let at = number_of(map, cur);
    let marked = done.update(at, true);
    assert(on_map(map, cell_of(stack[stack.len() - 1])));
    lemma_numbers_differ(map, cur, cur);
    lemma_pending_set(done, at);
    assert forall|c: (int, int)| on_map(map, c) implies (marked[number_of(map, c)] <==> done[number_of(
        map,
        c,
    )] || c == cur) by {
        lemma_numbers_differ(map, c, cur);
    }
    let rest = stack.drop_last();
    assert forall|c: (int, int)|
        on_map(map, c) && seen[number_of(map, c)] && !marked[number_of(map, c)] implies #[trigger] has_cell(
        rest,
        c,
    ) by {
        assert(has_cell(stack, c));
        lemma_has_cell_drop_last(stack, c);
    }
    assert forall|i: int| 0 <= i < rest.len() implies on_map(map, cell_of(#[trigger] rest[i])) && seen[number_of(
        map,
        cell_of(rest[i]),
    )] && !marked[number_of(map, cell_of(rest[i]))] by {
        assert(rest[i] == stack[i]);
        assert(stack[i] != stack[stack.len() - 1]);
    }
    assert(distinct(rest)) by {
        assert forall|i: int, j: int| 0 <= i < j < rest.len() implies rest[i] != rest[j] by {
            assert(stack[i] != stack[j]);
        }
    }
    let more = area.push(p);
    assert forall|c: (int, int)| on_map(map, c) && marked[number_of(map, c)] implies #[trigger] has_cell(
        more,
        c,
    ) by {
        lemma_has_cell_push(area, p, c);
        if c != cur {
            assert(has_cell(area, c));
        }
    }
    assert(distinct(more)) by {
        assert forall|i: int, j: int| 0 <= i < j < more.len() implies more[i] != more[j] by {
            if j == area.len() {
                assert(done[number_of(map, cell_of(area[i]))]);
            } else {
                assert(area[i] != area[j]);
            }
        }
    }
    assert forall|i: int| 0 <= i < more.len() implies on_map(map, cell_of(#[trigger] more[i])) && marked[number_of(
        map,
        cell_of(more[i]),
    )] by {
        if i < area.len() {
            assert(more[i] == area[i]);
        }
    }
    assert forall|i: int| 0 <= i < perimeter.len() implies {
        let e = edge_of(#[trigger] perimeter[i]);
        &&& on_map(map, (e.2, e.3))
        &&& marked[number_of(map, (e.2, e.3))]
        &&& !joined(map, (e.2, e.3), (e.2 + e.0, e.3 + e.1))
        &&& exists|j: int| 0 <= j < 4 && #[trigger] dir(j) == (e.0, e.1) && ((e.2, e.3) == cur ==> j < 0)
    } by {
        let e = edge_of(perimeter[i]);
        let j = choose|j: int| 0 <= j < 4 && #[trigger] dir(j) == (e.0, e.1) && ((e.2, e.3) == (-1, -1) ==> j < 0);
        assert(dir(j) == (e.0, e.1));
        assert(done[number_of(map, (e.2, e.3))]);
    }
    assert forall|c: (int, int), j: int|
        on_map(map, c) && marked[number_of(map, c)] && 0 <= j < 4 && (c == cur ==> j < 0) implies #[trigger] side_ok(
        map,
        seen,
        perimeter,
        c,
        j,
    ) by {
        assert(done[number_of(map, c)]);
    }
}

/// The cell beyond side `k` is joined and seen already.
pub proof fn lemma_side_seen(
    map: Seq<Vec<char>>,
    seen: Seq<bool>,
    done: Seq<bool>,
    perimeter: Seq<(isize, isize, isize, isize)>,
    cur: (int, int),
    k: int,
)
    requires
        0 <= k < 4,
        on_map(map, cur),
        fence_ok(map, done, perimeter, cur, k),
        sides_ok(map, seen, done, perimeter, cur, k),
        side_ok(map, seen, perimeter, cur, k),
    ensures
        fence_ok(map, done, perimeter, cur, k + 1),
        sides_ok(map, seen, done, perimeter, cur, k + 1),
{
    assert forall|i: int| 0 <= i < perimeter.len() implies {
        let e = edge_of(#[trigger] perimeter[i]);
        &&& on_map(map, (e.2, e.3))
        &&& done[number_of(map, (e.2, e.3))]
        &&& !joined(map, (e.2, e.3), (e.2 + e.0, e.3 + e.1))
        &&& exists|j: int| 0 <= j < 4 && #[trigger] dir(j) == (e.0, e.1) && ((e.2, e.3) == cur ==> j < k + 1)
    } by {
        let e = edge_of(perimeter[i]);
        let j = choose|j: int| 0 <= j < 4 && #[trigger] dir(j) == (e.0, e.1) && ((e.2, e.3) == cur ==> j < k);
        assert(dir(j) == (e.0, e.1));
    }
}

/// The cell beyond side `k` is joined and new: it is marked as seen and put
/// on the stack.
pub proof fn lemma_side_new(
    map: Seq<Vec<char>>,
    pos: (int, int),
    seen: Seq<bool>,
    done: Seq<bool>,
    stack: Seq<(isize, isize)>,
    perimeter: Seq<(isize, isize, isize, isize)>,
    cur: (int, int),
    k: int,
    next: (isize, isize),
)
    requires
        0 <= k < 4,
        on_map(map, cur),
        done[number_of(map, cur)],
        cell_of(next) == (cur.0 + dir(k).0, cur.1 + dir(k).1),
        joined(map, cur, cell_of(next)),
        !seen[number_of(map, cell_of(next))],
        flags_ok(map, pos, seen, done),
        stack_ok(map, seen, done, stack),
        fence_ok(map, done, perimeter, cur, k),
        sides_ok(map, seen, done, perimeter, cur, k),
    ensures
        ({
            let wider = seen.update(number_of(map, cell_of(next)), true);
            &&& 0 <= number_of(map, cell_of(next)) < seen.len()
            &&& flags_ok(map, pos, wider, done)
            &&& stack_ok(map, wider, done, stack.push(next))
            &&& fence_ok(map, done, perimeter, cur, k + 1)
            &&& sides_ok(map, wider, done, perimeter, cur, k + 1)
        }),
{
    let q = cell_of(next);
    let at = number_of(map, q);
    let wider = seen.update(at, true);
    lemma_numbers_differ(map, q, q);
    assert forall|c: (int, int)| on_map(map, c) implies (wider[number_of(map, c)] <==> seen[number_of(
        map,
        c,
    )] || c == q) by {
        lemma_numbers_differ(map, c, q);
    }
    assert(seen[number_of(map, cur)]);
    lemma_region_grows(map, pos, cur, q);
    let more = stack.push(next);
    assert forall|c: (int, int)|
        on_map(map, c) && wider[number_of(map, c)] && !done[number_of(map, c)] implies #[trigger] has_cell(
        more,
        c,
    ) by {
        lemma_has_cell_push(stack, next, c);
        if c != q {
            assert(has_cell(stack, c));
        }
    }
    assert(distinct(more)) by {
        assert forall|i: int, j: int| 0 <= i < j < more.len() implies more[i] != more[j] by {
            if j == stack.len() {
                assert(seen[number_of(map, cell_of(stack[i]))]);
            } else {
                assert(stack[i] != stack[j]);
            }
        }
    }
    assert forall|i: int| 0 <= i < more.len() implies on_map(map, cell_of(#[trigger] more[i])) && wider[number_of(
        map,
        cell_of(more[i]),
    )] && !done[number_of(map, cell_of(more[i]))] by {
        if i < stack.len() {
            assert(more[i] == stack[i]);
        }
    }
    assert forall|c: (int, int), j: int|
        on_map(map, c) && done[number_of(map, c)] && 0 <= j < 4 && (c == cur ==> j < k + 1) implies #[trigger] side_ok(
        map,
        wider,
        perimeter,
        c,
        j,
    ) by {
        let beyond = (c.0 + dir(j).0, c.1 + dir(j).1);
        if c == cur && j == k {
        } else {
            assert(side_ok(map, seen, perimeter, c, j));
            if joined(map, c, beyond) {
                lemma_numbers_differ(map, beyond, q);
            }
        }
    }
    lemma_side_seen_fence(map, done, perimeter, cur, k);
}

/// What holds of the fence for the first `k` sides holds for one more.
pub proof fn lemma_side_seen_fence(
    map: Seq<Vec<char>>,
    done: Seq<bool>,
    perimeter: Seq<(isize, isize, isize, isize)>,
    cur: (int, int),
    k: int,
)
    requires
        fence_ok(map, done, perimeter, cur, k),
    ensures
        fence_ok(map, done, perimeter, cur, k + 1),
{
    assert forall|i: int| 0 <= i < perimeter.len() implies {
        let e = edge_of(#[trigger] perimeter[i]);
        &&& on_map(map, (e.2, e.3))
        &&& done[number_of(map, (e.2, e.3))]
        &&& !joined(map, (e.2, e.3), (e.2 + e.0, e.3 + e.1))
        &&& exists|j: int| 0 <= j < 4 && #[trigger] dir(j) == (e.0, e.1) && ((e.2, e.3) == cur ==> j < k + 1)
    } by {
        let e = edge_of(perimeter[i]);
        let j = choose|j: int| 0 <= j < 4 && #[trigger] dir(j) == (e.0, e.1) && ((e.2, e.3) == cur ==> j < k);
        assert(dir(j) == (e.0, e.1));
    }
}

/// The region ends at side `k`: the piece of fence is gathered.
pub proof fn lemma_side_fence(
    map: Seq<Vec<char>>,
    seen: Seq<bool>,
    done: Seq<bool>,
    perimeter: Seq<(isize, isize, isize, isize)>,
    cur: (int, int),
    k: int,
    piece: (isize, isize, isize, isize),
)
    requires
        0 <= k < 4,
        on_map(map, cur),
        done[number_of(map, cur)],
        edge_of(piece) == (dir(k).0, dir(k).1, cur.0, cur.1),
        !joined(map, cur, (cur.0 + dir(k).0, cur.1 + dir(k).1)),
        fence_ok(map, done, perimeter, cur, k),
        sides_ok(map, seen, done, perimeter, cur, k),
    ensures
        fence_ok(map, done, perimeter.push(piece), cur, k + 1),
        sides_ok(map, seen, done, perimeter.push(piece), cur, k + 1),
{
    let more = perimeter.push(piece);
    lemma_side_seen_fence(map, done, perimeter, cur, k);
    assert forall|i: int| 0 <= i < more.len() implies {
        let e = edge_of(#[trigger] more[i]);
        &&& on_map(map, (e.2, e.3))
        &&& done[number_of(map, (e.2, e.3))]
        &&& !joined(map, (e.2, e.3), (e.2 + e.0, e.3 + e.1))
        &&& exists|j: int| 0 <= j < 4 && #[trigger] dir(j) == (e.0, e.1) && ((e.2, e.3) == cur ==> j < k + 1)
    } by {
        if i < perimeter.len() {
            assert(more[i] == perimeter[i]);
            let e = edge_of(perimeter[i]);
            let j = choose|j: int|
                0 <= j < 4 && #[trigger] dir(j) == (e.0, e.1) && ((e.2, e.3) == cur ==> j < k + 1);
            assert(dir(j) == (e.0, e.1));
        } else {
            assert(dir(k) == (edge_of(piece).0, edge_of(piece).1));
        }
    }
    assert(distinct(more)) by {
        assert forall|i: int, j: int| 0 <= i < j < more.len() implies more[i] != more[j] by {
            if j == perimeter.len() {
                let e = edge_of(perimeter[i]);
                let d = choose|d: int|
                    0 <= d < 4 && #[trigger] dir(d) == (e.0, e.1) && ((e.2, e.3) == cur ==> d < k);
                assert(dir(d) == (e.0, e.1));
                if perimeter[i] == piece {
                    assert(dir(d) == dir(k));
                }
            } else {
                assert(perimeter[i] != perimeter[j]);
            }
        }
    }
    assert forall|c: (int, int), j: int|
        on_map(map, c) && done[number_of(map, c)] && 0 <= j < 4 && (c == cur ==> j < k + 1) implies #[trigger] side_ok(
        map,
        seen,
        more,
        c,
        j,
    ) by {
        lemma_has_edge_push(perimeter, piece, (dir(j).0, dir(j).1, c.0, c.1));
        if !(c == cur && j == k) {
            assert(side_ok(map, seen, perimeter, c, j));
        }
    }
}

/// All four sides of the cell are dealt with.
pub proof fn lemma_sides_done(
    map: Seq<Vec<char>>,
    seen: Seq<bool>,
    done: Seq<bool>,
    perimeter: Seq<(isize, isize, isize, isize)>,
    cur: (int, int),
)
    requires
        on_map(map, cur),
        fence_ok(map, done, perimeter, cur, 4),
        sides_ok(map, seen, done, perimeter, cur, 4),
    ensures
        fence_ok(map, done, perimeter, (-1, -1), 0),
        sides_ok(map, seen, done, perimeter, (-1, -1), 0),
{
    assert forall|i: int| 0 <= i < perimeter.len() implies {
        let e = edge_of(#[trigger] perimeter[i]);
        &&& on_map(map, (e.2, e.3))
        &&& done[number_of(map, (e.2, e.3))]
        &&& !joined(map, (e.2, e.3), (e.2 + e.0, e.3 + e.1))
        &&& exists|j: int| 0 <= j < 4 && #[trigger] dir(j) == (e.0, e.1) && ((e.2, e.3) == (-1, -1) ==> j < 0)
    } by {
        let e = edge_of(perimeter[i]);
        let j = choose|j: int| 0 <= j < 4 && #[trigger] dir(j) == (e.0, e.1) && ((e.2, e.3) == cur ==> j < 4);
        assert(dir(j) == (e.0, e.1));
    }
    assert forall|c: (int, int), j: int|
        on_map(map, c) && done[number_of(map, c)] && 0 <= j < 4 && (c == (-1, -1) ==> j < 0) implies #[trigger] side_ok(
        map,
        seen,
        perimeter,
        c,
        j,
    ) by {}
}

/// The character at (`row`, `col`) of the map.
fn plant(map: &Vec<Vec<char>>, row: usize, col: usize) -> (c: char)
    requires
        row < map@.len(),
        col < map@[row as int]@.len(),
    ensures
        c == map@[row as int]@[col as int],
{
    map[row][col]
}

/// The `k`-th of the four directions.
fn direction(k: usize) -> (d: (isize, isize))
    requires
        k < 4,
    ensures
        (d.0 as int, d.1 as int) == dir(k as int),
{
    if k == 0 {
        (0, 1)
    } else if k == 1 {
        (0, -1)
    } else if k == 2 {
        (1, 0)
    } else {
        (-1, 0)
    }
}

/// The map can be walked with `isize` positions and its cells be numbered.
pub open spec fn walkable(map: Seq<Vec<char>>) -> bool {
    &&& rectangular(map)
    &&& map.len() < isize::MAX
    &&& map[0]@.len() < isize::MAX
    &&& map.len() * map[0]@.len() * 1 <= usize::MAX
}

/// The cells of the region of `pos`, and the pieces of its fence.
pub fn get_area_perimeter(map: &Vec<Vec<char>>, pos: (isize, isize)) -> (out: AreaPerimeter)
    requires
        walkable(map@),
        on_map(map@, cell_of(pos)),
    ensures
        is_area_perimeter(map@, cell_of(pos), out.0@, out.1@),
        out.0@.len() > 0,
        out.0@[0] == pos,
{
    let ghost start = cell_of(pos);
    let rows = map.len();
    let cols = map[0].len();
    proof {
        assert(rows * cols >= 0) by (nonlinear_arith)
            requires
                rows >= 0,
                cols >= 0,
        ;
    }
    let mut seen = cleared(rows * cols);
    let mut done = cleared(rows * cols);
    let mut stack: Vec<(isize, isize)> = Vec::new();
    let mut area: Vec<(isize, isize)> = Vec::new();
    let mut perimeter: Vec<(isize, isize, isize, isize)> = Vec::new();
    let first = slot_of(rows, cols, 1, pos.0 as usize, pos.1 as usize, 0);
    seen[first] = true;
    stack.push(pos);
    proof {
        reveal(has_cell);
        reveal(has_edge);
        lemma_region_holds_itself(map@, start);
        assert forall|c: (int, int)| on_map(map@, c) implies (seen@[number_of(map@, c)] <==> c == start)
            && !done@[number_of(map@, c)] by {
            lemma_numbers_differ(map@, c, start);
        }
        assert(cell_of(stack@[0]) == start);
        assert(has_cell(stack@, start));
    }
    while stack.len() > 0
        invariant
            walkable(map@),
            rows == map@.len(),
            cols == map@[0]@.len(),
            start == cell_of(pos),
            on_map(map@, start),
            area@.len() == 0 ==> stack@.len() == 1 && stack@[0] == pos,
            area@.len() > 0 ==> area@[0] == pos,
            seen@[number_of(map@, start)],
            flags_ok(map@, start, seen@, done@),
            stack_ok(map@, seen@, done@, stack@),
            area_ok(map@, done@, area@),
            fence_ok(map@, done@, perimeter@, (-1, -1), 0),
            sides_ok(map@, seen@, done@, perimeter@, (-1, -1), 0),
        decreases pending(done@),
    {
        proof {
            lemma_visit(map@, start, seen@, done@, area@, stack@, perimeter@);
        }
        let ghost old_stack = stack@;
        let p = stack.pop().unwrap();
        assert(stack@ =~= old_stack.drop_last());
        let ghost cur = cell_of(p);
        let row = p.0 as usize;
        let col = p.1 as usize;
        let at = slot_of(rows, cols, 1, row, col, 0);
        done[at] = true;
        area.push(p);
        assert(map@[row as int]@.len() == cols);
        let here = plant(map, row, col);
        let mut k: usize = 0;
        while k < 4
            invariant
                k <= 4,
                walkable(map@),
                rows == map@.len(),
                cols == map@[0]@.len(),
                on_map(map@, start),
                seen@[number_of(map@, start)],
                cur == cell_of(p),
                on_map(map@, cur),
                row == p.0,
                col == p.1,
                here == map@[row as int]@[col as int],
                done@[number_of(map@, cur)],
                area@.len() > 0,
                area@[0] == pos,
                flags_ok(map@, start, seen@, done@),
                stack_ok(map@, seen@, done@, stack@),
                area_ok(map@, done@, area@),
                fence_ok(map@, done@, perimeter@, cur, k as int),
                sides_ok(map@, seen@, done@, perimeter@, cur, k as int),
            decreases 4 - k,
        {
            let d = direction(k);
            let q = (p.0 + d.0, p.1 + d.1);
            let ghost beyond = (cur.0 + dir(k as int).0, cur.1 + dir(k as int).1);
            assert(cell_of(q) == beyond);
            let mut same = false;
            if in_map(map, q) {
                assert(map@[q.0 as int]@.len() == cols);
                same = plant(map, q.0 as usize, q.1 as usize) == here;
            }
            proof {
                assert(dir(k as int) == (beyond.0 - cur.0, beyond.1 - cur.1));
                assert(same == joined(map@, cur, beyond));
            }
            if same {
                let there = slot_of(rows, cols, 1, q.0 as usize, q.1 as usize, 0);
                if !seen[there] {
                    proof {
                        lemma_side_new(map@, start, seen@, done@, stack@, perimeter@, cur, k as int, q);
                        lemma_numbers_differ(map@, start, start);
                    }
                    let ghost narrow = seen@;
                    seen[there] = true;
                    stack.push(q);
                    proof {
                        assert(seen@ == narrow.update(there as int, true));
                        assert(narrow[number_of(map@, start)]);
                        assert(seen@[number_of(map@, start)]);
                    }
                } else {
                    proof {
                        lemma_side_seen(map@, seen@, done@, perimeter@, cur, k as int);
                    }
                }
            } else {
                let piece = (d.0, d.1, p.0, p.1);
                proof {
                    lemma_side_fence(map@, seen@, done@, perimeter@, cur, k as int, piece);
                }
                perimeter.push(piece);
            }
            k += 1;
        }
        proof {
            lemma_sides_done(map@, seen@, done@, perimeter@, cur);
        }
    }
    proof {
        assert(stack@ =~= Seq::empty());
        lemma_gathered(map@, start, seen@, done@, area@, perimeter@);
    }
    (area, perimeter)
}

/// Some one of the first `n` regions holds the cell.
#[verifier::opaque]
pub open spec fn covered(areas: Seq<AreaPerimeter>, n: int, c: (int, int)) -> bool {
    exists|i: int| 0 <= i < n && i < areas.len() && #[trigger] has_cell(areas[i].0@, c)
}

/// The regions of the map, each with its area and its fence, and each
/// given by where its first cell lies; no region twice, and every cell of
/// the map in one of them.
pub open spec fn are_all_areas(map: Seq<Vec<char>>, areas: Seq<AreaPerimeter>) -> bool {
    &&& forall|i: int|
        0 <= i < areas.len() ==> (#[trigger] areas[i]).0@.len() > 0 && on_map(
            map,
            cell_of(areas[i].0@[0]),
        ) && is_area_perimeter(map, cell_of(areas[i].0@[0]), areas[i].0@, areas[i].1@)
    &&& forall|i: int, j: int|
        0 <= i < j < areas.len() ==> !has_cell(
            (#[trigger] areas[i]).0@,
            cell_of((#[trigger] areas[j]).0@[0]),
        )
    &&& forall|c: (int, int)| on_map(map, c) ==> #[trigger] covered(areas, areas.len() as int, c)
}

/// The regions with one more cover what they covered, and the cells of that one.
pub proof fn lemma_covered_push(areas: Seq<AreaPerimeter>, more: AreaPerimeter, c: (int, int))
    ensures
        covered(areas.push(more), (areas.len() + 1) as int, c) <==> covered(areas, areas.len() as int, c)
            || has_cell(more.0@, c),
{
    reveal(covered);
    let after = areas.push(more);
    if covered(areas, areas.len() as int, c) {
        let i = choose|i: int| 0 <= i < areas.len() && #[trigger] has_cell(areas[i].0@, c);
        assert(after[i] == areas[i]);
        assert(has_cell(after[i].0@, c));
    }
    if has_cell(more.0@, c) {
        assert(after[areas.len() as int] == more);
        assert(has_cell(after[areas.len() as int].0@, c));
    }
    if covered(after, (areas.len() + 1) as int, c) {
        let i = choose|i: int| 0 <= i < areas.len() + 1 && i < after.len() && #[trigger] has_cell(after[i].0@, c);
        if i < areas.len() {
            assert(after[i] == areas[i]);
            assert(has_cell(areas[i].0@, c));
        }
    }
}

/// All regions of the map.
pub fn all_areas(map: &Vec<Vec<char>>) -> (areas: Vec<AreaPerimeter>)
    requires
        walkable(map@),
    ensures
        are_all_areas(map@, areas@),
{
    let rows = map.len();
    let cols = map[0].len();
    proof {
        assert(rows * cols >= 0) by (nonlinear_arith)
            requires
                rows >= 0,
                cols >= 0,
        ;
    }
    let mut taken = cleared(rows * cols);
    let mut areas: Vec<AreaPerimeter> = Vec::new();
    let mut y: usize = 0;
    proof {
        reveal(covered);
        assert forall|c: (int, int)| on_map(map@, c) implies !taken@[number_of(map@, c)] by {
            lemma_numbers_differ(map@, c, c);
        }
    }
    while y < rows
        invariant
            y <= rows,
            walkable(map@),
            rows == map@.len(),
            cols == map@[0]@.len(),
            taken@.len() == rows * cols,
            forall|i: int|
                0 <= i < areas@.len() ==> (#[trigger] areas@[i]).0@.len() > 0 && on_map(
                    map@,
                    cell_of(areas@[i].0@[0]),
                ) && is_area_perimeter(map@, cell_of(areas@[i].0@[0]), areas@[i].0@, areas@[i].1@),
            forall|i: int, j: int|
                0 <= i < j < areas@.len() ==> !has_cell(
                    (#[trigger] areas@[i]).0@,
                    cell_of((#[trigger] areas@[j]).0@[0]),
                ),
            forall|c: (int, int)|
                on_map(map@, c) ==> (taken@[number_of(map@, c)] <==> #[trigger] covered(
                    areas@,
                    areas@.len() as int,
                    c,
                )),
            forall|c: (int, int)| on_map(map@, c) && c.0 < y ==> #[trigger] taken@[number_of(map@, c)],
        decreases rows - y,
    {
        let mut x: usize = 0;
        while x < cols
            invariant
                y < rows,
                x <= cols,
                walkable(map@),
                rows == map@.len(),
                cols == map@[0]@.len(),
                taken@.len() == rows * cols,
                forall|i: int|
                    0 <= i < areas@.len() ==> (#[trigger] areas@[i]).0@.len() > 0 && on_map(
                        map@,
                        cell_of(areas@[i].0@[0]),
                    ) && is_area_perimeter(map@, cell_of(areas@[i].0@[0]), areas@[i].0@, areas@[i].1@),
                forall|i: int, j: int|
                    0 <= i < j < areas@.len() ==> !has_cell(
                        (#[trigger] areas@[i]).0@,
                        cell_of((#[trigger] areas@[j]).0@[0]),
                    ),
                forall|c: (int, int)|
                    on_map(map@, c) ==> (taken@[number_of(map@, c)] <==> #[trigger] covered(
                        areas@,
                        areas@.len() as int,
                        c,
                    )),
                forall|c: (int, int)|
                    on_map(map@, c) && (c.0 < y || (c.0 == y && c.1 < x)) ==> #[trigger] taken@[number_of(
                        map@,
                        c,
                    )],
            decreases cols - x,
        {
            let at = slot_of(rows, cols, 1, y, x, 0);
            if !taken[at] {
                let pos = (y as isize, x as isize);
                let found = get_area_perimeter(map, pos);
                let ghost before = areas@;
                let ghost free = taken@;
                let mut i: usize = 0;
                proof {
                    reveal(has_cell);
                    assert(found.0@.take(0).len() == 0);
                }
                while i < found.0.len()
                    invariant
                        i <= found.0@.len(),
                        walkable(map@),
                        rows == map@.len(),
                        cols == map@[0]@.len(),
                        taken@.len() == rows * cols,
                        is_area_perimeter(map@, cell_of(pos), found.0@, found.1@),
                        forall|c: (int, int)|
                            on_map(map@, c) ==> (#[trigger] taken@[number_of(map@, c)] <==> free[number_of(
                                map@,
                                c,
                            )] || has_cell(found.0@.take(i as int), c)),
                    decreases found.0@.len() - i,
                {
                    let cellp = found.0[i];
                    proof {
                        lemma_region_on_map(map@, cell_of(pos), cell_of(cellp));
                    }
                    let there = slot_of(rows, cols, 1, cellp.0 as usize, cellp.1 as usize, 0);
                    let ghost old_taken = taken@;
                    taken[there] = true;
                    proof {
                        assert(found.0@.take(i + 1) =~= found.0@.take(i as int).push(cellp));
                        assert forall|c: (int, int)| on_map(map@, c) implies (#[trigger] taken@[number_of(
                            map@,
                            c,
                        )] <==> free[number_of(map@, c)] || has_cell(found.0@.take(i + 1), c)) by {
                            lemma_numbers_differ(map@, c, cell_of(cellp));
                            lemma_has_cell_push(found.0@.take(i as int), cellp, c);
                        }
                    }
                    i += 1;
                }
                proof {
                    assert(found.0@.take(found.0@.len() as int) =~= found.0@);
                    assert(has_cell(found.0@, cell_of(pos))) by {
                        reveal(has_cell);
                        assert(cell_of(found.0@[0]) == cell_of(pos));
                    }
                    assert forall|k: int| 0 <= k < before.len() implies !has_cell(
                        (#[trigger] before[k]).0@,
                        cell_of(pos),
                    ) by {
                        if has_cell(before[k].0@, cell_of(pos)) {
                            reveal(covered);
                            assert(covered(before, before.len() as int, cell_of(pos)));
                        }
                    }
                }
                areas.push(found);
                proof {
                    assert forall|c: (int, int)| on_map(map@, c) implies (taken@[number_of(map@, c)]
                        <==> #[trigger] covered(areas@, areas@.len() as int, c)) by {
                        lemma_covered_push(before, found, c);
                    }
                    assert forall|k: int, j: int| 0 <= k < j < areas@.len() implies !has_cell(
                        (#[trigger] areas@[k]).0@,
                        cell_of((#[trigger] areas@[j]).0@[0]),
                    ) by {
                        if j < before.len() {
                            assert(areas@[k] == before[k] && areas@[j] == before[j]);
                        } else {
                            assert(areas@[k] == before[k]);
                        }
                    }
                    assert forall|c: (int, int)|
                        on_map(map@, c) && (c.0 < y || (c.0 == y && c.1 < x + 1)) implies #[trigger] taken@[number_of(
                        map@,
                        c,
                    )] by {
                        if c == cell_of(pos) {
                        } else {
                            assert(free[number_of(map@, c)]);
                        }
                    }
                }
            } else {
                proof {
                    assert forall|c: (int, int)|
                        on_map(map@, c) && (c.0 < y || (c.0 == y && c.1 < x + 1)) implies #[trigger] taken@[number_of(
                        map@,
                        c,
                    )] by {
                        lemma_numbers_differ(map@, c, (y as int, x as int));
                    }
                }
            }
            x += 1;
        }
        y += 1;
    }
    areas
}

/// The cells of a region lie on the map.
pub proof fn lemma_region_on_map(map: Seq<Vec<char>>, pos: (int, int), q: (int, int))
    requires
        in_region(map, pos, q),
    ensures
        on_map(map, q),
{
    let path = choose|path: Seq<(int, int)>| #[trigger] links(map, path, pos, q);
    if path.len() > 1 {
        assert(joined_at(map, path, path.len() - 2));
    }
}

/// The sum, over the first `n` regions, of the number of cells times the
/// number of pieces of fence.
pub open spec fn price_upto(areas: Seq<AreaPerimeter>, n: int) -> int
    decreases n,
{
    if n <= 0 {
        0
    } else {
        price_upto(areas, n - 1) + areas[n - 1].0@.len() * areas[n - 1].1@.len()
    }
}

/// The price grows with the number of regions.
pub proof fn lemma_price_grows(areas: Seq<AreaPerimeter>, m: int, n: int)
    requires
        0 <= m <= n,
    ensures
        0 <= price_upto(areas, m) <= price_upto(areas, n),
    decreases n,
{
    if n > 0 {
        assert(areas[n - 1].0@.len() * areas[n - 1].1@.len() >= 0) by (nonlinear_arith)
            requires
                areas[n - 1].0@.len() >= 0,
                areas[n - 1].1@.len() >= 0,
        ;
        if m < n {
            lemma_price_grows(areas, m, n - 1);
        } else {
            lemma_price_grows(areas, m - 1, n - 1);
        }
    }
}

/// The price of the fences: for every region the number of its cells times
/// the number of pieces of its fence.
pub fn part1(areas: &Vec<AreaPerimeter>) -> (price: usize)
    requires
        price_upto(areas@, areas@.len() as int) <= usize::MAX,
    ensures
        price == price_upto(areas@, areas@.len() as int),
{
    let mut price: usize = 0;
    let mut i: usize = 0;
    while i < areas.len()
        invariant
            i <= areas@.len(),
            price == price_upto(areas@, i as int),
            price_upto(areas@, areas@.len() as int) <= usize::MAX,
        decreases areas@.len() - i,
    {
        proof {
            lemma_price_grows(areas@, i + 1, areas@.len() as int);
            lemma_price_grows(areas@, i as int, i + 1);
            assert(areas@[i as int].0@.len() * areas@[i as int].1@.len() >= 0) by (nonlinear_arith)
                requires
                    areas@[i as int].0@.len() >= 0,
                    areas@[i as int].1@.len() >= 0,
            ;
        }
        let region = &areas[i];
        price = price + region.0.len() * region.1.len();
        i += 1;
    }
    price
}

/// The piece of fence that lies before a piece on its straight side: for a
/// piece to the right or left of its cell the piece at the cell above, for
/// a piece above or below its cell the piece at the cell to the left.
pub open spec fn piece_before(e: (int, int, int, int)) -> (int, int, int, int) {
    if e.0 == 0 {
        (e.0, e.1, e.2 - 1, e.3)
    } else {
        (e.0, e.1, e.2, e.3 - 1)
    }
}

/// How many of the first `n` pieces of the fence begin a straight side:
/// the pieces before which no piece lies.
pub open spec fn sides_upto(perimeter: Seq<(isize, isize, isize, isize)>, n: int) -> int
    decreases n,
{
    if n <= 0 {
        0
    } else {
        sides_upto(perimeter, n - 1) + if has_edge(perimeter, piece_before(edge_of(perimeter[n - 1]))) {
            0int
        } else {
            1int
        }
    }
}

/// Whether the fence holds the piece.
fn holds_edge(perimeter: &Vec<(isize, isize, isize, isize)>, dy: isize, dx: isize, y: i128, x: i128) -> (found: bool)
    ensures
        found == has_edge(perimeter@, (dy as int, dx as int, y as int, x as int)),
{
    let mut i: usize = 0;
    proof {
        reveal(has_edge);
    }
    while i < perimeter.len()
        invariant
            i <= perimeter@.len(),
            forall|j: int|
                0 <= j < i ==> edge_of(#[trigger] perimeter@[j]) != (
                    dy as int,
                    dx as int,
                    y as int,
                    x as int,
                ),
        decreases perimeter@.len() - i,
    {
        let e = perimeter[i];
        if e.0 == dy && e.1 == dx && e.2 as i128 == y && e.3 as i128 == x {
            proof {
                reveal(has_edge);
                assert(edge_of(perimeter@[i as int]) == (dy as int, dx as int, y as int, x as int));
            }
            return true;
        }
        i += 1;
    }
    proof {
        reveal(has_edge);
    }
    false
}

/// The number of straight sides of a fence.
pub fn sides(perimeter: &Vec<(isize, isize, isize, isize)>) -> (count: usize)
    ensures
        count == sides_upto(perimeter@, perimeter@.len() as int),
        count <= perimeter@.len(),
{
    let mut count: usize = 0;
    let mut i: usize = 0;
    while i < perimeter.len()
        invariant
            i <= perimeter@.len(),
            count <= i,
            count == sides_upto(perimeter@, i as int),
        decreases perimeter@.len() - i,
    {
        let e = perimeter[i];
        let before = if e.0 == 0 {
            holds_edge(perimeter, e.0, e.1, e.2 as i128 - 1, e.3 as i128)
        } else {
            holds_edge(perimeter, e.0, e.1, e.2 as i128, e.3 as i128 - 1)
        };
        if !before {
            count += 1;
        }
        i += 1;
    }
    count
}

/// The sum, over the first `n` regions, of the number of cells times the
/// number of straight sides of the fence.
pub open spec fn bulk_price_upto(areas: Seq<AreaPerimeter>, n: int) -> int
    decreases n,
{
    if n <= 0 {
        0
    } else {
        bulk_price_upto(areas, n - 1) + areas[n - 1].0@.len() * sides_upto(
            areas[n - 1].1@,
            areas[n - 1].1@.len() as int,
        )
    }
}

/// A count of sides is nought at least.
pub proof fn lemma_sides_floor(perimeter: Seq<(isize, isize, isize, isize)>, n: int)
    ensures
        sides_upto(perimeter, n) >= 0,
    decreases n,
{
    if n > 0 {
        lemma_sides_floor(perimeter, n - 1);
    }
}

/// The price at a discount grows with the number of regions.
pub proof fn lemma_bulk_price_grows(areas: Seq<AreaPerimeter>, m: int, n: int)
    requires
        0 <= m <= n,
    ensures
        0 <= bulk_price_upto(areas, m) <= bulk_price_upto(areas, n),
    decreases n,
{
    if n > 0 {
        lemma_sides_floor(areas[n - 1].1@, areas[n - 1].1@.len() as int);
        assert(areas[n - 1].0@.len() * sides_upto(areas[n - 1].1@, areas[n - 1].1@.len() as int) >= 0) by (nonlinear_arith)
            requires
                areas[n - 1].0@.len() >= 0,
                sides_upto(areas[n - 1].1@, areas[n - 1].1@.len() as int) >= 0,
        ;
        if m < n {
            lemma_bulk_price_grows(areas, m, n - 1);
        } else {
            lemma_bulk_price_grows(areas, m - 1, n - 1);
        }
    }
}

/// The price of the fences at a discount: for every region the number of
/// its cells times the number of straight sides of its fence.
pub fn part2(areas: &Vec<AreaPerimeter>) -> (price: usize)
    requires
        bulk_price_upto(areas@, areas@.len() as int) <= usize::MAX,
    ensures
        price == bulk_price_upto(areas@, areas@.len() as int),
{
    let mut price: usize = 0;
    let mut i: usize = 0;
    while i < areas.len()
        invariant
            i <= areas@.len(),
            price == bulk_price_upto(areas@, i as int),
            bulk_price_upto(areas@, areas@.len() as int) <= usize::MAX,
        decreases areas@.len() - i,
    {
        let region = &areas[i];
        let n = sides(&region.1);
        proof {
            lemma_bulk_price_grows(areas@, i + 1, areas@.len() as int);
            lemma_bulk_price_grows(areas@, i as int, i + 1);
            assert(areas@[i as int].0@.len() * n >= 0) by (nonlinear_arith)
                requires
                    areas@[i as int].0@.len() >= 0,
                    n >= 0,
            ;
        }
        price = price + region.0.len() * n;
        i += 1;
    }
    price
}

} // verus!
