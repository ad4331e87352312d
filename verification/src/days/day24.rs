//! Logic gates: wires with values, and gates that work out the value of a
//! wire from the values of two others.

use vstd::prelude::*;
use crate::text::{chars_of, group, group_text, groups, list_model, regex_groups};
use crate::names::{copy, rising, same, sort, views};

verus! {

pub struct Gate {
    pub ina: Vec<char>,
    pub inb: Vec<char>,
    pub op: Vec<char>,
    pub out: Vec<char>,
}

/// How a gate is written.
pub open spec fn gate_pattern() -> Seq<char> {
    "(\\w+) (AND|OR|XOR) (\\w+) -> (\\w+)"@
}

/// How a wire with its value at the start is written.
pub open spec fn input_pattern() -> Seq<char> {
    "(\\w+): (0|1)"@
}

/// `out` is a gate read off the groups of a match of `gate_pattern`:
/// first input, operation, second input and output.
pub open spec fn gate_of_groups(groups: Seq<Option<Seq<char>>>, out: Option<Gate>) -> bool {
    match (group_text(groups, 1), group_text(groups, 2), group_text(groups, 3), group_text(groups, 4)) {
        (Some(ina), Some(op), Some(inb), Some(o)) => out matches Some(gate) && gate.ina@ == ina
            && gate.op@ == op && gate.inb@ == inb && gate.out@ == o,
        _ => out is None,
    }
}

/// `out` is the wire with its value that the groups of a match of the
/// input pattern give: one for the digit one, nought else.
pub open spec fn input_of_groups(groups: Seq<Option<Seq<char>>>, out: Option<(Vec<char>, usize)>) -> bool {
    match (group_text(groups, 1), group_text(groups, 2)) {
        (Some(name), Some(bit)) => out matches Some(wire) && wire.0@ == name && wire.1 == (if bit
            == seq!['1'] {
            1usize
        } else {
            0usize
        }),
        _ => out is None,
    }
}

impl Gate {
    /// A gate read off the groups of a match of `gate_pattern`.
    pub fn from_groups(groups: &Vec<Option<Vec<char>>>) -> (out: Option<Gate>)
        ensures
            gate_of_groups(list_model(groups@), out),
    {
        let ina = match group(groups, 1) {
            Some(t) => copy(t),
            None => {
                return None;
            },
        };
        let op = match group(groups, 2) {
            Some(t) => copy(t),
            None => {
                return None;
            },
        };
        let inb = match group(groups, 3) {
            Some(t) => copy(t),
            None => {
                return None;
            },
        };
        let out = match group(groups, 4) {
            Some(t) => copy(t),
            None => {
                return None;
            },
        };
        Some(Gate { ina, inb, op, out })
    }

    /// A gate read off a line of text, if the line describes one.
    pub fn from_text(line: &Vec<char>) -> (out: Option<Gate>)
        ensures
            match regex_groups(gate_pattern(), line@) {
                Some(groups) => gate_of_groups(groups, out),
                None => out is None,
            },
    {
        let pattern = chars_of("(\\w+) (AND|OR|XOR) (\\w+) -> (\\w+)");
        match groups(&pattern, line) {
            None => None,
            Some(found) => Self::from_groups(&found),
        }
    }
}

/// The wire with its value that the groups of a match of the input pattern
/// give.
pub fn input_from_groups(groups: &Vec<Option<Vec<char>>>) -> (out: Option<(Vec<char>, usize)>)
    ensures
        input_of_groups(list_model(groups@), out),
{
    let name = match group(groups, 1) {
        Some(t) => copy(t),
        None => {
            return None;
        },
    };
    let bit = match group(groups, 2) {
        Some(t) => t,
        None => {
            return None;
        },
    };
    let one = bit.len() == 1 && bit[0] == '1';
    proof {
        if one {
            assert(bit@ =~= seq!['1']);
        } else if bit@ == seq!['1'] {
            assert(bit@.len() == 1 && bit@[0] == '1');
        }
    }
    Some((name, if one {
        1
    } else {
        0
    }))
}

/// The wire with its value at the start that a line of text describes, if
/// it describes one.
pub fn input_from_text(line: &Vec<char>) -> (out: Option<(Vec<char>, usize)>)
    ensures
        match regex_groups(input_pattern(), line@) {
            Some(groups) => input_of_groups(groups, out),
            None => out is None,
        },
{
    let pattern = chars_of("(\\w+): (0|1)");
    match groups(&pattern, line) {
        None => None,
        Some(found) => input_from_groups(&found),
    }
}

/// The two wires, in either order, are the inputs of `gate`, and `op` is its
/// operation.
pub open spec fn fits(gate: Gate, ina: Seq<char>, inb: Seq<char>, op: Seq<char>) -> bool {
    ((gate.ina@ == ina && gate.inb@ == inb) || (gate.ina@ == inb && gate.inb@ == ina)) && gate.op@ == op
}

/// The two gates have the same wires and operation.
pub open spec fn alike(a: Gate, b: Gate) -> bool {
    a.ina@ == b.ina@ && a.inb@ == b.inb@ && a.op@ == b.op@ && a.out@ == b.out@
}

/// `found` is the first gate that takes the two wires, in either order,
/// and does the operation; nothing where there is no such gate.
pub open spec fn found_as(
    gates: Seq<Gate>,
    ina: Seq<char>,
    inb: Seq<char>,
    op: Seq<char>,
    found: Option<Gate>,
) -> bool {
    match found {
        Some(gate) => exists|i: int|
            0 <= i < gates.len() && alike(gate, #[trigger] gates[i]) && fits(gates[i], ina, inb, op)
                && forall|j: int| 0 <= j < i ==> !fits(#[trigger] gates[j], ina, inb, op),
        None => forall|j: int| 0 <= j < gates.len() ==> !fits(#[trigger] gates[j], ina, inb, op),
    }
}

/// The first gate that takes the two wires, in either order, and does the
/// operation.
pub fn find_gate(gates: &Vec<Gate>, ina: &Vec<char>, inb: &Vec<char>, op: &Vec<char>) -> (found: Option<Gate>)
    ensures
        found_as(gates@, ina@, inb@, op@, found),
{
    let mut i: usize = 0;
    while i < gates.len()
        invariant
            i <= gates@.len(),
            forall|j: int| 0 <= j < i ==> !fits(#[trigger] gates@[j], ina@, inb@, op@),
        decreases gates@.len() - i,
    {
        let g = &gates[i];
        if ((same(&g.ina, ina) && same(&g.inb, inb)) || (same(&g.ina, inb) && same(&g.inb, ina)))
            && same(&g.op, op) {
            let gate = Gate { ina: copy(&g.ina), inb: copy(&g.inb), op: copy(&g.op), out: copy(&g.out) };
            assert(alike(gate, gates@[i as int]));
            return Some(gate);
        }
        i += 1;
    }
    None
}

/// The place of the first of the first `n` swaps for the name; `n` if there
/// is none.
pub open spec fn swap_place(swaps: Seq<(Vec<char>, Vec<char>)>, name: Seq<char>, n: int) -> int
    decreases n,
{
    if n <= 0 {
        0
    } else if swap_place(swaps, name, n - 1) < n - 1 {
        swap_place(swaps, name, n - 1)
    } else if swaps[n - 1].0@ == name {
        n - 1
    } else {
        n
    }
}

/// The name that the first swap for the name gives; the name itself where
/// there is none.
pub open spec fn swapped(swaps: Seq<(Vec<char>, Vec<char>)>, name: Seq<char>) -> Seq<char> {
    let at = swap_place(swaps, name, swaps.len() as int);
    if 0 <= at < swaps.len() {
        swaps[at].1@
    } else {
        name
    }
}

/// The gates with the outputs swapped as the list says: an output that
/// stands first in a pair of the list is replaced by the second of that
/// pair, the first such pair counting.
pub fn swap_outputs(gates: &Vec<Gate>, swaps: &Vec<(Vec<char>, Vec<char>)>) -> (out: Vec<Gate>)
    ensures
        out@.len() == gates@.len(),
        forall|i: int|
            0 <= i < out@.len() ==> (#[trigger] out@[i]).ina@ == gates@[i].ina@ && out@[i].inb@
                == gates@[i].inb@ && out@[i].op@ == gates@[i].op@ && out@[i].out@ == swapped(
                swaps@,
                gates@[i].out@,
            ),
{
    let mut out: Vec<Gate> = Vec::new();
    let mut i: usize = 0;
    while i < gates.len()
        invariant
            i <= gates@.len(),
            out@.len() == i,
            forall|k: int|
                0 <= k < i ==> (#[trigger] out@[k]).ina@ == gates@[k].ina@ && out@[k].inb@
                    == gates@[k].inb@ && out@[k].op@ == gates@[k].op@ && out@[k].out@ == swapped(
                    swaps@,
                    gates@[k].out@,
                ),
        decreases gates@.len() - i,
    {
        let g = &gates[i];
        let mut name = copy(&g.out);
        let mut found = false;
        let mut j: usize = 0;
        while j < swaps.len()
            invariant
                j <= swaps@.len(),
                0 <= swap_place(swaps@, g.out@, j as int) <= j,
                found == (swap_place(swaps@, g.out@, j as int) < j),
                found ==> name@ == swaps@[swap_place(swaps@, g.out@, j as int)].1@,
                !found ==> name@ == g.out@,
            decreases swaps@.len() - j,
        {
            if !found && same(&swaps[j].0, &g.out) {
                name = copy(&swaps[j].1);
                found = true;
            }
            j += 1;
        }
        out.push(Gate { ina: copy(&g.ina), inb: copy(&g.inb), op: copy(&g.op), out: name });
        i += 1;
    }
    out
}

/// Wires with their values, as pairs of a name and a value.
pub type Wires = Vec<(Vec<char>, usize)>;

/// The wires as a mathematical value.
pub open spec fn wires_of(wires: Seq<(Vec<char>, usize)>) -> Seq<(Seq<char>, usize)> {
    Seq::new(wires.len(), |i: int| (wires[i].0@, wires[i].1))
}

/// The place of the first of the first `n` wires that has the name; `n`
/// if none has.
pub open spec fn place(w: Seq<(Seq<char>, usize)>, name: Seq<char>, n: int) -> int
    decreases n,
{
    if n <= 0 {
        0
    } else if place(w, name, n - 1) < n - 1 {
        place(w, name, n - 1)
    } else if w[n - 1].0 == name {
        n - 1
    } else {
        n
    }
}

/// The value of the wire with the name, if there is one.
pub open spec fn value_of(w: Seq<(Seq<char>, usize)>, name: Seq<char>) -> Option<usize> {
    let at = place(w, name, w.len() as int);
    if at < w.len() {
        Some(w[at].1)
    } else {
        None
    }
}

/// The wires with the value given to the wire of the name: in its place if
/// there is such a wire, else as a new wire at the end.
pub open spec fn with_value(w: Seq<(Seq<char>, usize)>, name: Seq<char>, v: usize) -> Seq<
    (Seq<char>, usize),
> {
    let at = place(w, name, w.len() as int);
    if at < w.len() {
        w.update(at, (name, v))
    } else {
        w.push((name, v))
    }
}

/// The place found for a name lies among the first `n`, holds the name if it is not
/// `n`, and no place before it holds the name.
pub proof fn lemma_place(w: Seq<(Seq<char>, usize)>, name: Seq<char>, n: int)
    requires
        0 <= n <= w.len(),
    ensures
        0 <= place(w, name, n) <= n,
        place(w, name, n) < n ==> w[place(w, name, n)].0 == name,
        forall|j: int| 0 <= j < place(w, name, n) ==> (#[trigger] w[j]).0 != name,
    decreases n,
{
    if n > 0 {
        lemma_place(w, name, n - 1);
    }
}

/// The place of the wire with the name.
fn find(wires: &Wires, name: &Vec<char>) -> (at: usize)
    ensures
        at == place(wires_of(wires@), name@, wires@.len() as int),
        at <= wires@.len(),
{
    let ghost w = wires_of(wires@);
    let mut i: usize = 0;
    while i < wires.len()
        invariant
            i <= wires@.len(),
            w == wires_of(wires@),
            place(w, name@, i as int) == i,
        decreases wires@.len() - i,
    {
        if same(&wires[i].0, name) {
            proof {
                lemma_place_stays(w, name@, i as int, wires@.len() as int);
            }
            return i;
        }
        i += 1;
    }
    i
}

/// Once the name is found among the first wires, its place stays.
pub proof fn lemma_place_stays(w: Seq<(Seq<char>, usize)>, name: Seq<char>, at: int, n: int)
    requires
        0 <= at < n <= w.len(),
        place(w, name, at) == at,
        w[at].0 == name,
    ensures
        place(w, name, n) == at,
    decreases n,
{
    if n > at + 1 {
        lemma_place_stays(w, name, at, n - 1);
    }
}

/// The value of the wire with the name, if there is one.
pub fn get(wires: &Wires, name: &Vec<char>) -> (value: Option<usize>)
    ensures
        value == value_of(wires_of(wires@), name@),
{
    let at = find(wires, name);
    if at < wires.len() {
        Some(wires[at].1)
    } else {
        None
    }
}

/// Gives the value to the wire of the name.
pub fn set(wires: &mut Wires, name: &Vec<char>, v: usize)
    ensures
        wires_of(final(wires)@) == with_value(wires_of(old(wires)@), name@, v),
{
    let at = find(wires, name);
    let ghost before = wires_of(wires@);
    if at < wires.len() {
        let entry = (copy(name), v);
        wires[at] = entry;
        assert(wires_of(wires@) =~= before.update(at as int, (name@, v)));
    } else {
        wires.push((copy(name), v));
        assert(wires_of(wires@) =~= before.push((name@, v)));
    }
}

/// The word for the operation and.
pub open spec fn and_word() -> Seq<char> {
    seq!['A', 'N', 'D']
}

/// The word for the operation or.
pub open spec fn or_word() -> Seq<char> {
    seq!['O', 'R']
}

/// The word for the operation exclusive or.
pub open spec fn xor_word() -> Seq<char> {
    seq!['X', 'O', 'R']
}

/// The word names one of the three operations.
pub open spec fn is_operation(op: Seq<char>) -> bool {
    op == and_word() || op == or_word() || op == xor_word()
}

/// What the operation makes of two values.
pub open spec fn worked(op: Seq<char>, a: usize, b: usize) -> usize {
    if op == and_word() {
        a & b
    } else if op == or_word() {
        a | b
    } else {
        a ^ b
    }
}

/// What the operation makes of two values.
fn work(op: &Vec<char>, a: usize, b: usize) -> (out: usize)
    requires
        is_operation(op@),
    ensures
        out == worked(op@, a, b),
{
    if op.len() == 3 && op[0] == 'A' {
        assert(op@ != or_word());
        if op[1] == 'N' && op[2] == 'D' {
            assert(op@ =~= and_word());
        } else {
            assert(op@[1] != 'N' || op@[2] != 'D');
            assert(op@ != and_word());
            assert(op@ != xor_word());
        }
        a & b
    } else if op.len() == 2 {
        assert(op@ != and_word() && op@ != xor_word());
        a | b
    } else {
        assert(op@ != or_word());
        assert(op@ != and_word()) by {
            if op@ == and_word() {
                assert(op@[0] == 'A');
            }
        }
        a ^ b
    }
}

/// The wires, and the outputs given a value, after the first `n` gates
/// were tried in turn: a gate whose two inputs have values gives its
/// output a value.
pub open spec fn passed(w: Seq<(Seq<char>, usize)>, gates: Seq<Gate>, n: int) -> (
    Seq<(Seq<char>, usize)>,
    Seq<Seq<char>>,
)
    decreases n,
{
    if n <= 0 {
        (w, Seq::empty())
    } else {
        let (before, inserted) = passed(w, gates, n - 1);
        let g = gates[n - 1];
        match (value_of(before, g.ina@), value_of(before, g.inb@)) {
            (Some(a), Some(b)) => (
                with_value(before, g.out@, worked(g.op@, a, b)),
                inserted.push(g.out@),
            ),
            _ => (before, inserted),
        }
    }
}

/// Every one of the names is among the outputs.
pub open spec fn all_among(names: Seq<Seq<char>>, inserted: Seq<Seq<char>>) -> bool {
    forall|i: int| 0 <= i < names.len() ==> inserted.contains(#[trigger] names[i])
}

/// The wires after as many passes over the gates as it takes, but no more
/// than `fuel`, until one pass gives every one of the names a value.
pub open spec fn settled(
    w: Seq<(Seq<char>, usize)>,
    gates: Seq<Gate>,
    names: Seq<Seq<char>>,
    fuel: nat,
) -> Option<Seq<(Seq<char>, usize)>>
    decreases fuel,
{
    if fuel == 0 {
        None
    } else {
        let (after, inserted) = passed(w, gates, gates.len() as int);
        if all_among(names, inserted) {
            Some(after)
        } else {
            settled(after, gates, names, (fuel - 1) as nat)
        }
    }
}

/// The number whose bits are the values of the wires of the names from
/// the `i`-th on, the `i`-th lowest.
pub open spec fn number_from(w: Seq<(Seq<char>, usize)>, names: Seq<Seq<char>>, i: int) -> usize
    decreases names.len() - i,
{
    if i >= names.len() || i < 0 {
        0
    } else {
        (number_from(w, names, i + 1) << 1) | (match value_of(w, names[i]) {
            Some(v) => v,
            None => 0usize,
        })
    }
}

/// The wires with the values given them at the start, a later value for a
/// name taking the place of an earlier.
pub open spec fn started(inputs: Seq<(Vec<char>, usize)>, n: int) -> Seq<(Seq<char>, usize)>
    decreases n,
{
    if n <= 0 {
        Seq::empty()
    } else {
        with_value(started(inputs, n - 1), inputs[n - 1].0@, inputs[n - 1].1)
    }
}

/// The outputs of the first `n` gates whose names begin with z.
pub open spec fn z_outputs(gates: Seq<Gate>, n: int) -> Seq<Seq<char>>
    decreases n,
{
    if n <= 0 {
        Seq::empty()
    } else if gates[n - 1].out@.len() > 0 && gates[n - 1].out@[0] == 'z' {
        z_outputs(gates, n - 1).push(gates[n - 1].out@)
    } else {
        z_outputs(gates, n - 1)
    }
}

/// Whether the list holds the name.
fn among(inserted: &Vec<Vec<char>>, name: &Vec<char>) -> (found: bool)
    ensures
        found == views(inserted@).contains(name@),
{
    let mut i: usize = 0;
    while i < inserted.len()
        invariant
            i <= inserted@.len(),
            forall|j: int| 0 <= j < i ==> views(inserted@)[j] != name@,
        decreases inserted@.len() - i,
    {
        if same(&inserted[i], name) {
            assert(views(inserted@)[i as int] == name@);
            return true;
        }
        i += 1;
    }
    false
}

/// Works out the wires from the values given at the start: the gates are
/// tried in turn, pass after pass, until one pass gives every output whose
/// name begins with z a value; the number is read off those outputs, the
/// first by name as the lowest bit. `None` where `gates.len() + 1` passes do
/// not suffice.
pub fn solve(inputs: &Wires, gates: &Vec<Gate>) -> (out: Option<usize>)
    requires
        forall|i: int| 0 <= i < gates@.len() ==> is_operation((#[trigger] gates@[i]).op@),
        gates@.len() < usize::MAX,
    ensures
        exists|names: Seq<Seq<char>>|
            rising_views(names) && names.to_multiset() == z_outputs(
                gates@,
                gates@.len() as int,
            ).to_multiset() && match #[trigger] settled(
                started(inputs@, inputs@.len() as int),
                gates@,
                names,
                (gates@.len() + 1) as nat,
            ) {
                Some(w) => out == Some(number_from(w, names, 0)),
                None => out is None,
            },
{
    let mut wires: Wires = Vec::new();
    let mut i: usize = 0;
    assert(wires_of(wires@) =~= started(inputs@, 0));
    while i < inputs.len()
        invariant
            i <= inputs@.len(),
            wires_of(wires@) == started(inputs@, i as int),
        decreases inputs@.len() - i,
    {
        set(&mut wires, &inputs[i].0, inputs[i].1);
        i += 1;
    }
    let mut zs: Vec<Vec<char>> = Vec::new();
    let mut i: usize = 0;
    assert(views(zs@) =~= z_outputs(gates@, 0));
    while i < gates.len()
        invariant
            i <= gates@.len(),
            views(zs@) == z_outputs(gates@, i as int),
        decreases gates@.len() - i,
    {
        let o = &gates[i].out;
        if o.len() > 0 && o[0] == 'z' {
            let ghost before = views(zs@);
            zs.push(copy(o));
            assert(views(zs@) =~= before.push(o@));
        }
        i += 1;
    }
    let allz = sort(zs);
    let ghost names = views(allz@);
    proof {
        assert forall|k: int| 0 <= k < names.len() - 1 implies crate::names::lex_le(
            #[trigger] names[k],
            names[k + 1],
        ) by {
            assert(crate::names::lex_le((allz@[k])@, allz@[k + 1]@));
        }
    }
    let ghost start = wires_of(wires@);
    let mut fuel: usize = gates.len() + 1;
    proof {
        assert(rising_views(names));
    }
    while fuel > 0
        invariant
            forall|k: int| 0 <= k < gates@.len() ==> is_operation((#[trigger] gates@[k]).op@),
            names == views(allz@),
            rising_views(names),
            names.to_multiset() == z_outputs(gates@, gates@.len() as int).to_multiset(),
            start == started(inputs@, inputs@.len() as int),
            settled(start, gates@, names, (gates@.len() + 1) as nat) == settled(
                wires_of(wires@),
                gates@,
                names,
                fuel as nat,
            ),
        decreases fuel,
    {
        let ghost before = wires_of(wires@);
        let mut inserted: Vec<Vec<char>> = Vec::new();
        let mut g: usize = 0;
        assert(views(inserted@) =~= passed(before, gates@, 0).1);
        while g < gates.len()
            invariant
                g <= gates@.len(),
                forall|k: int| 0 <= k < gates@.len() ==> is_operation((#[trigger] gates@[k]).op@),
                (wires_of(wires@), views(inserted@)) == passed(before, gates@, g as int),
            decreases gates@.len() - g,
        {
            let gate = &gates[g];
            match (get(&wires, &gate.ina), get(&wires, &gate.inb)) {
                (Some(a), Some(b)) => {
                    let v = work(&gate.op, a, b);
                    let ghost ins = views(inserted@);
                    inserted.push(copy(&gate.out));
                    assert(views(inserted@) =~= ins.push(gate.out@));
                    set(&mut wires, &gate.out, v);
                },
                _ => {},
            }
            g += 1;
        }
        let mut all = true;
        let mut z: usize = 0;
        while z < allz.len()
            invariant
                z <= allz@.len(),
                names == views(allz@),
                all == forall|k: int| 0 <= k < z ==> views(inserted@).contains(#[trigger] names[k]),
            decreases allz@.len() - z,
        {
            assert(names[z as int] == allz@[z as int]@);
            if !among(&inserted, &allz[z]) {
                all = false;
            }
            z += 1;
        }
        proof {
            assert(all == all_among(names, views(inserted@)));
            assert(passed(before, gates@, gates@.len() as int) == (wires_of(wires@), views(inserted@)));
            assert(settled(before, gates@, names, fuel as nat) == if all {
                Some(wires_of(wires@))
            } else {
                settled(wires_of(wires@), gates@, names, (fuel - 1) as nat)
            });
        }
        if all {
            let mut value: usize = 0;
            let mut k: usize = allz.len();
            while k > 0
                invariant
                    k <= allz@.len(),
                    names == views(allz@),
                    value == number_from(wires_of(wires@), names, k as int),
                decreases k,
            {
                k -= 1;
                let bit = match get(&wires, &allz[k]) {
                    Some(v) => v,
                    None => 0,
                };
                value = (value << 1) | bit;
            }
            proof {
                assert(settled(start, gates@, names, (gates@.len() + 1) as nat) == Some(
                    wires_of(wires@),
                ));
            }
            return Some(value);
        }
        fuel -= 1;
    }
    proof {
        assert(settled(start, gates@, names, (gates@.len() + 1) as nat) is None);
    }
    None
}

/// The names stand in rising order.
pub open spec fn rising_views(names: Seq<Seq<char>>) -> bool {
    forall|k: int| 0 <= k < names.len() - 1 ==> crate::names::lex_le(#[trigger] names[k], names[k + 1])
}

/// The character of a digit.
pub open spec fn digit_char(d: int) -> char {
    if d == 0 {
        '0'
    } else if d == 1 {
        '1'
    } else if d == 2 {
        '2'
    } else if d == 3 {
        '3'
    } else if d == 4 {
        '4'
    } else if d == 5 {
        '5'
    } else if d == 6 {
        '6'
    } else if d == 7 {
        '7'
    } else if d == 8 {
        '8'
    } else {
        '9'
    }
}

fn digit_of(d: usize) -> (c: char)
    requires
        d < 10,
    ensures
        c == digit_char(d as int),
{
    match d {
        0 => '0',
        1 => '1',
        2 => '2',
        3 => '3',
        4 => '4',
        5 => '5',
        6 => '6',
        7 => '7',
        8 => '8',
        _ => '9',
    }
}

/// The name of the wire of a bit: the letter, and the number of the bit in
/// two digits.
pub fn wire_name(letter: char, bit: usize) -> (name: Vec<char>)
    requires
        bit < 100,
    ensures
        name@ == seq![letter, digit_char(bit as int / 10), digit_char(bit as int % 10)],
{
    let mut name: Vec<char> = Vec::new();
    name.push(letter);
    name.push(digit_of(bit / 10));
    name.push(digit_of(bit % 10));
    assert(name@ =~= seq![letter, digit_char(bit as int / 10), digit_char(bit as int % 10)]);
    name
}

/// The gates of one bit of an adder, as far as they are found, and the
/// wire that carries over to the next bit.
pub struct Stage {
    pub ab_xor: Gate,
    pub ab_and: Gate,
    pub oc_xor: Option<Gate>,
    pub oc_and: Option<Gate>,
    pub or_gate: Option<Gate>,
    pub carry: Option<Vec<char>>,
}

/// The name of a wire, if there is one.
pub open spec fn name_of(wire: Option<Vec<char>>) -> Option<Seq<char>> {
    match wire {
        Some(name) => Some(name@),
        None => None,
    }
}

/// The output of a gate, if there is one.
pub open spec fn output_of(found: Option<Gate>) -> Option<Seq<char>> {
    match found {
        Some(gate) => Some(gate.out@),
        None => None,
    }
}

/// `stage` holds the gates of the bit with the inputs `x` and `y`: the two
/// gates on the inputs; and, with a carry coming in, the two gates on the
/// carry and the first sum, and one OR that joins the two carries. The
/// carry that goes out is the output of the last; without a carry coming
/// in, that of the AND of the inputs; and the carry that came in where no
/// AND takes it.
pub open spec fn is_stage(gates: Seq<Gate>, x: Seq<char>, y: Seq<char>, carry: Option<Seq<char>>, stage: Stage) -> bool {
    &&& found_as(gates, x, y, xor_word(), Some(stage.ab_xor))
    &&& found_as(gates, x, y, and_word(), Some(stage.ab_and))
    &&& match carry {
        None => stage.oc_xor is None && stage.oc_and is None && stage.or_gate is None && name_of(stage.carry)
            == Some(stage.ab_and.out@),
        Some(c) => found_as(gates, stage.ab_xor.out@, c, xor_word(), stage.oc_xor) && found_as(
            gates,
            stage.ab_xor.out@,
            c,
            and_word(),
            stage.oc_and,
        ) && match stage.oc_and {
            Some(gate) => found_as(gates, gate.out@, stage.ab_and.out@, or_word(), stage.or_gate)
                && name_of(stage.carry) == output_of(stage.or_gate),
            None => stage.or_gate is None && name_of(stage.carry) == Some(c),
        },
    }
}

/// The gates of the bit with the inputs `x` and `y` and the carry that
/// comes in. `None` where no gate takes the exclusive or of the inputs, or
/// none their AND.
pub fn adder_stage(gates: &Vec<Gate>, x: &Vec<char>, y: &Vec<char>, carry: Option<Vec<char>>) -> (out: Option<Stage>)
    ensures
        match out {
            Some(stage) => is_stage(gates@, x@, y@, name_of(carry), stage),
            None => found_as(gates@, x@, y@, xor_word(), None) || found_as(gates@, x@, y@, and_word(), None),
        },
{
    let xor = word_xor();
    let and = word_and();
    let ab_xor = match find_gate(gates, x, y, &xor) {
        Some(gate) => gate,
        None => {
            return None;
        },
    };
    let ab_and = match find_gate(gates, x, y, &and) {
        Some(gate) => gate,
        None => {
            return None;
        },
    };
    match carry {
        None => {
            let carry = Some(copy(&ab_and.out));
            Some(Stage { ab_xor, ab_and, oc_xor: None, oc_and: None, or_gate: None, carry })
        },
        Some(c) => {
            let oc_xor = find_gate(gates, &ab_xor.out, &c, &xor);
            let oc_and = find_gate(gates, &ab_xor.out, &c, &and);
            match &oc_and {
                None => Some(Stage { ab_xor, ab_and, oc_xor, oc_and: None, or_gate: None, carry: Some(c) }),
                Some(gate) => {
                    let or = word_or();
                    let or_gate = find_gate(gates, &gate.out, &ab_and.out, &or);
                    let carry = match &or_gate {
                        Some(last) => Some(copy(&last.out)),
                        None => None,
                    };
                    Some(Stage { ab_xor, ab_and, oc_xor, oc_and, or_gate, carry })
                },
            }
        },
    }
}

fn word_and() -> (w: Vec<char>)
    ensures
        w@ == and_word(),
{
    let mut w: Vec<char> = Vec::new();
    w.push('A');
    w.push('N');
    w.push('D');
    assert(w@ =~= and_word());
    w
}

fn word_or() -> (w: Vec<char>)
    ensures
        w@ == or_word(),
{
    let mut w: Vec<char> = Vec::new();
    w.push('O');
    w.push('R');
    assert(w@ =~= or_word());
    w
}

fn word_xor() -> (w: Vec<char>)
    ensures
        w@ == xor_word(),
{
    let mut w: Vec<char> = Vec::new();
    w.push('X');
    w.push('O');
    w.push('R');
    assert(w@ =~= xor_word());
    w
}

} // verus!
