//! The three-bit computer: three registers, a program of three-bit numbers
//! read two at a time, and an output.

use vstd::prelude::*;
use crate::text::{chars_of, fits_usize, group, group_text, group_usize, groups, list_model, number_of, numbers_usize, pieces_of, regex_groups, rows, separator, split, usize_of};

verus! {

/// The computer as a mathematical value.
pub struct Machine {
    pub registers: Seq<usize>,
    pub ip: int,
    pub program: Seq<usize>,
    pub output: Seq<usize>,
}

/// Two to the power `n`.
pub open spec fn pow2(n: nat) -> nat
    decreases n,
{
    if n == 0 {
        1
    } else {
        2 * pow2((n - 1) as nat)
    }
}

/// The bitwise exclusive or of two numbers.
pub open spec fn xor(a: usize, b: usize) -> usize {
    a ^ b
}

impl Machine {
    /// Three registers; and the next instruction, if there is one, has its
    /// operand, an operation code below eight, and where the operand stands
    /// for a register, an operand below seven.
    pub open spec fn wf(self) -> bool {
        &&& self.registers.len() == 3
        &&& 0 <= self.ip
        &&& self.ip < self.program.len() ==> {
            &&& self.ip + 1 < self.program.len()
            &&& self.program[self.ip] < 8
            &&& (Self::takes_combo(self.program[self.ip]) ==> self.program[self.ip + 1] < 7)
        }
    }

    /// The operation reads its operand as a value or register.
    pub open spec fn takes_combo(opcode: usize) -> bool {
        opcode == 0 || opcode == 2 || opcode == 5 || opcode == 6 || opcode == 7
    }

    /// The value that a combo operand stands for: itself below four, else a
    /// register.
    pub open spec fn combo(self, value: usize) -> usize {
        if value <= 3 {
            value
        } else {
            self.registers[value - 4]
        }
    }

    /// Register A divided by two to the power of the combo operand.
    pub open spec fn shifted(self, operand: usize) -> usize {
        (self.registers[0] as nat / pow2(self.combo(operand) as nat)) as usize
    }

    /// The place in the program lies behind its end.
    pub open spec fn halted(self) -> bool {
        self.ip >= self.program.len()
    }

    /// The computer after its next instruction.
    pub open spec fn next(self) -> Machine {
        let opcode = self.program[self.ip];
        let operand = self.program[self.ip + 1];
        let on = Machine { ip: self.ip + 2, ..self };
        if opcode == 0 {
            Machine { registers: self.registers.update(0, self.shifted(operand)), ..on }
        } else if opcode == 1 {
            Machine { registers: self.registers.update(1, xor(self.registers[1], operand)), ..on }
        } else if opcode == 2 {
            Machine { registers: self.registers.update(1, (self.combo(operand) % 8) as usize), ..on }
        } else if opcode == 3 {
            if self.registers[0] != 0 {
                Machine { ip: operand as int, ..self }
            } else {
                on
            }
        } else if opcode == 4 {
            Machine {
                registers: self.registers.update(1, xor(self.registers[1], self.registers[2])),
                ..on
            }
        } else if opcode == 5 {
            Machine { output: self.output.push((self.combo(operand) % 8) as usize), ..on }
        } else if opcode == 6 {
            Machine { registers: self.registers.update(1, self.shifted(operand)), ..on }
        } else {
            Machine { registers: self.registers.update(2, self.shifted(operand)), ..on }
        }
    }
}

pub struct Computer {
    pub registers: Vec<usize>,
    pub ip: usize,
    pub program: Vec<usize>,
    pub output: Vec<usize>,
}

impl View for Computer {
    type V = Machine;

    open spec fn view(&self) -> Machine {
        Machine {
            registers: self.registers@,
            ip: self.ip as int,
            program: self.program@,
            output: self.output@,
        }
    }
}

/// The powers of two rise, and are above nought.
pub proof fn lemma_pow2_grows(m: nat, n: nat)
    requires
        m <= n,
    ensures
        0 < pow2(m) <= pow2(n),
    decreases n,
{
    if n > 0 {
        if m < n {
            lemma_pow2_grows(m, (n - 1) as nat);
        } else {
            lemma_pow2_grows((m - 1) as nat, (n - 1) as nat);
        }
    }
}

/// `a` divided by two to the power `k`, however large `k` is.
pub fn shift_down(a: usize, k: usize) -> (q: usize)
    ensures
        q == a as nat / pow2(k as nat),
{
    let mut q = a;
    let mut i: usize = 0;
    assert(pow2(0) == 1);
    while i < k && q > 0
        invariant
            i <= k,
            q == a as nat / pow2(i as nat),
        decreases k - i,
    {
        proof {
            lemma_pow2_grows(0, i as nat);
            let p = pow2(i as nat) as int;
            vstd::arithmetic::div_mod::lemma_div_denominator(a as int, p, 2);
            assert(pow2((i + 1) as nat) == p * 2) by (nonlinear_arith)
                requires
                    pow2((i + 1) as nat) == 2 * p,
            ;
        }
        q = q / 2;
        i += 1;
    }
    proof {
        if i < k {
            lemma_pow2_grows(i as nat, k as nat);
            lemma_pow2_grows(0, i as nat);
            let p = pow2(i as nat) as int;
            let big = pow2(k as nat) as int;
            assert(a as int / p == 0);
            vstd::arithmetic::div_mod::lemma_fundamental_div_mod(a as int, p);
            vstd::arithmetic::div_mod::lemma_mod_bound(a as int, p);
            assert(a < p) by (nonlinear_arith)
                requires
                    a as int == p * (a as int / p) + (a as int % p),
                    a as int / p == 0,
                    0 <= a as int % p < p,
            ;
            vstd::arithmetic::div_mod::lemma_basic_div(a as int, big);
        }
    }
    q
}

impl Computer {
    /// The value that a combo operand stands for: itself below four, else a register.
    pub fn combo_operand(&self, value: usize) -> (out: usize)
        requires
            self@.registers.len() == 3,
            value < 7,
        ensures
            out == self@.combo(value),
    {
        if value <= 3 {
            value
        } else {
            self.registers[value - 4]
        }
    }

    /// Runs the next instruction; `false`, and nothing done, where the
    /// program has ended.
    pub fn step(&mut self) -> (ran: bool)
        requires
            old(self)@.wf(),
        ensures
            ran == !old(self)@.halted(),
            final(self)@ == if ran {
                old(self)@.next()
            } else {
                old(self)@
            },
    {
        if self.ip >= self.program.len() {
            return false;
        }
        let ghost before = self@;
        let opcode = self.program[self.ip];
        let operand = self.program[self.ip + 1];
        self.ip += 2;
        if opcode == 0 {
            let k = self.combo_operand(operand);
            let q = shift_down(self.registers[0], k);
            self.registers[0] = q;
        } else if opcode == 1 {
            let v = self.registers[1] ^ operand;
            self.registers[1] = v;
        } else if opcode == 2 {
            let v = self.combo_operand(operand) % 8;
            self.registers[1] = v;
        } else if opcode == 3 {
            if self.registers[0] != 0 {
                self.ip = operand;
            }
        } else if opcode == 4 {
            let v = self.registers[1] ^ self.registers[2];
            self.registers[1] = v;
        } else if opcode == 5 {
            let v = self.combo_operand(operand) % 8;
            self.output.push(v);
        } else if opcode == 6 {
            let k = self.combo_operand(operand);
            let q = shift_down(self.registers[0], k);
            self.registers[1] = q;
        } else {
            let k = self.combo_operand(operand);
            let q = shift_down(self.registers[0], k);
            self.registers[2] = q;
        }
        assert(self@.registers =~= before.next().registers);
        assert(self@.output =~= before.next().output);
        true
    }
}

impl Machine {
    /// The computer after `n` instructions, or as it halted before.
    pub open spec fn after(self, n: nat) -> Machine
        decreases n,
    {
        if n == 0 {
            self
        } else if self.after((n - 1) as nat).halted() {
            self.after((n - 1) as nat)
        } else {
            self.after((n - 1) as nat).next()
        }
    }

    /// Every instruction that the computer comes to within `n` steps is
    /// well formed.
    pub open spec fn runs_well(self, n: nat) -> bool {
        forall|k: nat| k <= n ==> (#[trigger] self.after(k)).wf()
    }
}

impl Computer {
    /// Runs the program for `fuel` instructions at most, and tells whether
    /// it has halted.
    pub fn run(&mut self, fuel: usize) -> (halted: bool)
        requires
            old(self)@.runs_well(fuel as nat),
        ensures
            exists|n: nat|
                n <= fuel && final(self)@ == #[trigger] old(self)@.after(n) && halted
                    == final(self)@.halted() && (!halted ==> n == fuel),
    {
        let ghost start = self@;
        let mut n: usize = 0;
        assert(start.after(0) == start);
        while n < fuel
            invariant
                start == old(self)@,
                n <= fuel,
                start.runs_well(fuel as nat),
                self@ == start.after(n as nat),
            ensures
                n <= fuel,
                self@ == start.after(n as nat),
                !self@.halted() ==> n == fuel,
            decreases fuel - n,
        {
            assert(start.after(n as nat).wf());
            if self.ip >= self.program.len() {
                break;
            }
            let ran = self.step();
            n += 1;
            assert(self@ == start.after(n as nat));
        }
        self.ip >= self.program.len()
    }
}

/// How a computer is written.
pub open spec fn computer_pattern() -> Seq<char> {
    "Register A: (\\d+)\\nRegister B: (\\d+)\\nRegister C: (\\d+)\\n\\nProgram: ([\\d\\,]+)"@
}

/// Every one of the texts is a number without a minus sign that fits.
pub open spec fn all_usize(texts: Seq<Seq<char>>) -> bool {
    forall|i: int| 0 <= i < texts.len() ==> fits_usize(#[trigger] texts[i])
}

/// The computer that the groups of a match of the computer pattern give:
/// the three registers and the program, ready to run.
pub open spec fn of_groups(groups: Seq<Option<Seq<char>>>, out: Option<Computer>) -> bool {
    match (
        usize_of(group_text(groups, 1)),
        usize_of(group_text(groups, 2)),
        usize_of(group_text(groups, 3)),
        group_text(groups, 4),
    ) {
        (Some(a), Some(b), Some(c), Some(list)) => {
            let numbers = pieces_of(list, seq![',']);
            if all_usize(numbers) {
                &&& out matches Some(cpu)
                &&& cpu@.registers == seq![a, b, c]
                &&& cpu@.ip == 0
                &&& cpu@.output == Seq::<usize>::empty()
                &&& cpu@.program.len() == numbers.len()
                &&& forall|i: int|
                    0 <= i < numbers.len() ==> #[trigger] cpu@.program[i] == number_of(numbers[i])
            } else {
                out is None
            }
        },
        _ => out is None,
    }
}

impl Computer {
    /// The computer that the groups of a match of the computer pattern give.
    pub fn from_groups(groups: &Vec<Option<Vec<char>>>) -> (out: Option<Computer>)
        ensures
            of_groups(list_model(groups@), out),
    {
        let a = match group_usize(groups, 1) {
            Some(v) => v,
            None => {
                return None;
            },
        };
        let b = match group_usize(groups, 2) {
            Some(v) => v,
            None => {
                return None;
            },
        };
        let c = match group_usize(groups, 3) {
            Some(v) => v,
            None => {
                return None;
            },
        };
        let list = match group(groups, 4) {
            Some(list) => list,
            None => {
                return None;
            },
        };
        let sep = separator(',');
        let numbers = split(list, &sep);
        proof {
            assert(rows(numbers@).len() == numbers@.len());
            assert forall|i: int| 0 <= i < numbers@.len() implies rows(numbers@)[i] == (
            #[trigger] numbers@[i])@ by {}
        }
        let program = match numbers_usize(&numbers) {
            Some(program) => program,
            None => {
                proof {
                    let i = choose|i: int| 0 <= i < numbers@.len() && !fits_usize((#[trigger] numbers@[i])@);
                    assert(!fits_usize(rows(numbers@)[i]));
                }
                return None;
            },
        };
        let mut registers: Vec<usize> = Vec::new();
        registers.push(a);
        registers.push(b);
        registers.push(c);
        let cpu = Computer { registers, ip: 0, program, output: Vec::new() };
        proof {
            assert(cpu@.registers =~= seq![a, b, c]);
            assert(cpu@.output =~= Seq::<usize>::empty());
            assert forall|i: int| 0 <= i < numbers@.len() implies fits_usize(
                #[trigger] rows(numbers@)[i],
            ) by {
                assert(fits_usize(numbers@[i]@));
            }
        }
        Some(cpu)
    }

    /// The computer that a text describes, if it describes one.
    pub fn from_text(text: &Vec<char>) -> (out: Option<Computer>)
        ensures
            match regex_groups(computer_pattern(), text@) {
                Some(groups) => of_groups(groups, out),
                None => out is None,
            },
    {
        let pattern = chars_of(
            "Register A: (\\d+)\\nRegister B: (\\d+)\\nRegister C: (\\d+)\\n\\nProgram: ([\\d\\,]+)",
        );
        match groups(&pattern, text) {
            None => None,
            Some(found) => Self::from_groups(&found),
        }
    }
}

impl Machine {
    /// Every instruction at an even place has its operand, an operation
    /// code below eight, an operand below seven where the operand is read
    /// as a value or register, and an even place to jump to.
    pub open spec fn sound(self) -> bool {
        &&& self.registers.len() == 3
        &&& self.ip >= 0
        &&& self.ip % 2 == 0
        &&& sound_program(self.program)
    }

    /// The output so far is the beginning of the program.
    pub open spec fn on_track(self) -> bool {
        self.output.len() <= self.program.len() && self.output == self.program.take(
            self.output.len() as int,
        )
    }
}

/// The instruction at the place has its operand, an operation code below
/// eight, an operand below seven where the operand is read as a value or
/// register, and an even place to jump to.
pub open spec fn sound_at(program: Seq<usize>, ip: int) -> bool {
    &&& ip + 1 < program.len()
    &&& program[ip] < 8
    &&& (Machine::takes_combo(program[ip]) ==> program[ip + 1] < 7)
    &&& (program[ip] == 3 ==> program[ip + 1] % 2 == 0)
}

/// Every instruction at an even place is sound.
pub open spec fn sound_program(program: Seq<usize>) -> bool {
    forall|ip: int| 0 <= ip < program.len() && ip % 2 == 0 ==> #[trigger] sound_at(program, ip)
}

/// A sound computer is well formed, and stays sound.
pub proof fn lemma_sound(m: Machine)
    requires
        m.sound(),
    ensures
        m.wf(),
        !m.halted() ==> m.next().sound(),
{
    if !m.halted() {
        assert(sound_at(m.program, m.ip));
        let next = m.next();
        assert(next.program == m.program);
        assert(next.registers.len() == 3);
        assert(next.ip % 2 == 0 && next.ip >= 0);
    }
}

/// Whether the output so far is the beginning of the program.
fn output_on_track(cpu: &Computer) -> (ok: bool)
    ensures
        ok == cpu@.on_track(),
{
    if cpu.output.len() > cpu.program.len() {
        return false;
    }
    let mut i: usize = 0;
    while i < cpu.output.len()
        invariant
            i <= cpu.output@.len() <= cpu.program@.len(),
            forall|j: int| 0 <= j < i ==> cpu.output@[j] == cpu.program@[j],
        decreases cpu.output@.len() - i,
    {
        if cpu.output[i] != cpu.program[i] {
            assert(cpu.program@.take(cpu.output@.len() as int)[i as int] == cpu.program@[i as int]);
            return false;
        }
        i += 1;
    }
    assert(cpu.output@ =~= cpu.program@.take(cpu.output@.len() as int));
    true
}

/// A copy of the list.
fn copy_list(list: &Vec<usize>) -> (out: Vec<usize>)
    ensures
        out@ == list@,
{
    let mut out: Vec<usize> = Vec::new();
    let mut i: usize = 0;
    while i < list.len()
        invariant
            i <= list@.len(),
            out@.len() == i,
            forall|j: int| 0 <= j < i ==> out@[j] == list@[j],
        decreases list@.len() - i,
    {
        out.push(list[i]);
        i += 1;
    }
    assert(out@ =~= list@);
    out
}

/// The computer as it starts with `a` in register A.
pub open spec fn started_with(cpu: Machine, a: usize) -> Machine {
    Machine { registers: cpu.registers.update(0, a), ip: 0, program: cpu.program, output: Seq::empty() }
}

/// Started with `a` in register A, the computer puts out its own program.
pub open spec fn copies_itself(cpu: Machine, a: usize) -> bool {
    exists|n: nat| (#[trigger] started_with(cpu, a).after(n)).output == cpu.program
}

/// Where one trial run ends. The computer runs for `fuel` instructions at
/// most and stops as soon as its output is no beginning of the program.
/// `best` is the length of the longest beginning of the program that any
/// run has put out; where `high` holds, the run also stops as soon as it
/// has put out a longer one. The answer is the computer at the end, the
/// longest beginning then, and whether the run stopped for a longer one.
pub open spec fn probe(m: Machine, fuel: nat, best: int, high: bool) -> (Machine, int, bool)
    decreases fuel,
{
    if fuel == 0 || m.halted() {
        (m, best, false)
    } else {
        let next = m.next();
        if !next.on_track() {
            (next, best, false)
        } else if next.output.len() > best {
            if high {
                (next, next.output.len() as int, true)
            } else {
                probe(next, (fuel - 1) as nat, next.output.len() as int, high)
            }
        } else {
            probe(next, (fuel - 1) as nat, best, high)
        }
    }
}

/// The value that is tried: the counter shifted up, above the bits that
/// are kept.
pub open spec fn tried_value(i: usize, kept: usize, shift: u32) -> usize {
    (i << shift) | kept
}

/// The value has a bit set above its lowest twenty-four.
pub open spec fn is_high(a: usize) -> bool {
    (a >> 24u32) > 0
}

/// The lowest twenty-four bits of the value.
pub open spec fn low_bits(a: usize) -> usize {
    a & 0xffffff
}

/// What the search finds with `tries` values left to try, the counter at
/// `i`, the longest beginning of the program seen so far `best` long, and
/// the bits `kept` below the counter's `shift`. The value of the counter
/// is tried; if the run ends with the program as its output, the value is
/// found. If not, and the run stopped for a longer beginning, the lowest
/// twenty-four bits of the value are kept from then on and the counter
/// goes on from one; else the counter goes on by one, as far as it can.
pub open spec fn hunt(cpu: Machine, tries: nat, fuel: nat, i: usize, best: int, kept: usize, shift: u32) -> Option<
    usize,
>
    decreases tries,
{
    if tries == 0 {
        None
    } else {
        let a = tried_value(i, kept, shift);
        let (end, seen, restart) = probe(started_with(cpu, a), fuel, best, is_high(a));
        if end.output == cpu.program {
            Some(a)
        } else if restart {
            hunt(cpu, (tries - 1) as nat, fuel, 1, seen, low_bits(a), 24)
        } else if i == usize::MAX {
            None
        } else {
            hunt(cpu, (tries - 1) as nat, fuel, (i + 1) as usize, seen, kept, shift)
        }
    }
}

/// Looks for a value of register A with which the computer puts out its own
/// program. The values are tried upwards from nought; as soon as a value
/// above sixteen million brings a longer beginning of the program than any
/// before, its lowest twenty-four bits are kept for all further values.
/// At most `tries` values are tried, each for `fuel` instructions at most.
pub fn find_copy(cpu: &Computer, tries: usize, fuel: usize) -> (found: Option<usize>)
    requires
        cpu@.registers.len() == 3,
        sound_program(cpu@.program),
    ensures
        found == hunt(cpu@, tries as nat, fuel as nat, 0, 0, 0, 0),
        found matches Some(a) ==> copies_itself(cpu@, a),
{
    let mut i: usize = 0;
    let mut best: usize = 0;
    let mut lowerbits: usize = 0;
    let mut lowerbitcount: u32 = 0;
    let mut left = tries;
    while left > 0
        invariant
            cpu@.registers.len() == 3,
            sound_program(cpu@.program),
            lowerbitcount == 0 || lowerbitcount == 24,
            hunt(cpu@, tries as nat, fuel as nat, 0, 0, 0, 0) == hunt(
                cpu@,
                left as nat,
                fuel as nat,
                i,
                best as int,
                lowerbits,
                lowerbitcount,
            ),
        decreases left,
    {
        left -= 1;
        let a = (i << lowerbitcount) | lowerbits;
        let high = (a >> 24u32) > 0;
        let ghost best0 = best as int;

        let mut registers = copy_list(&cpu.registers);
        registers[0] = a;
        let mut cpu2 = Computer {
            registers,
            ip: 0,
            program: copy_list(&cpu.program),
            output: Vec::new(),
        };
        let ghost start = started_with(cpu@, a);
        proof {
            assert(cpu2@.registers =~= start.registers);
            assert(cpu2@.output =~= start.output);
            assert(cpu2@ == start);
            assert(start.after(0) == start);
            assert(start.sound());
        }
        let ghost mut n: nat = 0;
        let mut steps = fuel;
        let mut restart = false;
        loop
            invariant_except_break
                !restart,
                probe(start, fuel as nat, best0, high) == probe(cpu2@, steps as nat, best as int, high),
            invariant
                cpu2@ == start.after(n),
                cpu2@.sound(),
            ensures
                probe(start, fuel as nat, best0, high) == (cpu2@, best as int, restart),
            decreases steps,
        {
            if steps == 0 {
                break ;
            }
            steps -= 1;
            proof {
                lemma_sound(cpu2@);
            }
            let ghost before = cpu2@;
            if !cpu2.step() {
                break ;
            }
            proof {
                n = n + 1;
                assert(start.after(n) == before.next());
            }
            if !output_on_track(&cpu2) {
                break ;
            }
            if cpu2.output.len() > best {
                best = cpu2.output.len();
                if high {
                    restart = true;
                    break ;
                }
            }
        }
        proof {
            lemma_after_keeps_program(start, n);
            assert(cpu2@.program == cpu@.program);
            if cpu2@.output.len() == cpu2@.program.len() && cpu2@.on_track() {
                assert(cpu2@.program.take(cpu2@.output.len() as int) =~= cpu2@.program);
            }
            if cpu2@.output == cpu@.program {
                assert(cpu2@.program.take(cpu2@.output.len() as int) =~= cpu2@.program);
            }
        }
        if cpu2.output.len() == cpu2.program.len() && output_on_track(&cpu2) {
            proof {
                assert(start.after(n).output == cpu@.program);
            }
            return Some(a);
        }
        if restart {
            lowerbits = a & 0xffffff;
            lowerbitcount = 24;
            i = 1;
        } else {
            if i == usize::MAX {
                return None;
            }
            i += 1;
        }
    }
    None
}

/// The program stays as it is while the computer runs.
pub proof fn lemma_after_keeps_program(m: Machine, n: nat)
    ensures
        m.after(n).program == m.program,
    decreases n,
{
    if n > 0 {
        lemma_after_keeps_program(m, (n - 1) as nat);
    }
}

/// A sound computer stays sound, and so well formed, however long it runs.
pub proof fn lemma_sound_runs(m: Machine, n: nat)
    requires
        m.sound(),
    ensures
        m.after(n).sound(),
        m.runs_well(n),
    decreases n,
{
    if n > 0 {
        lemma_sound_runs(m, (n - 1) as nat);
        lemma_sound(m.after((n - 1) as nat));
    }
    lemma_sound(m.after(n));
    assert forall|k: nat| k <= n implies (#[trigger] m.after(k)).wf() by {
        if k < n {
            lemma_sound_runs(m, (n - 1) as nat);
        }
    }
}

impl Computer {
    /// Whether the computer is sound: three registers, an even place in
    /// the program, and every instruction at an even place sound.
    pub fn is_sound(&self) -> (ok: bool)
        ensures
            ok == self@.sound(),
    {
        if self.registers.len() != 3 || self.ip % 2 != 0 {
            return false;
        }
        let mut ip: usize = 0;
        while ip < self.program.len()
            invariant
                ip % 2 == 0,
                forall|j: int| 0 <= j < ip && j % 2 == 0 ==> #[trigger] sound_at(self.program@, j),
            decreases self.program@.len() - ip,
        {
            if ip + 1 >= self.program.len() {
                assert(!sound_at(self.program@, ip as int));
                return false;
            }
            let op = self.program[ip];
            let operand = self.program[ip + 1];
            let combo = op == 0 || op == 2 || op == 5 || op == 6 || op == 7;
            if op >= 8 || (combo && operand >= 7) || (op == 3 && operand % 2 != 0) {
                assert(!sound_at(self.program@, ip as int));
                return false;
            }
            assert(sound_at(self.program@, ip as int));
            ip += 2;
        }
        true
    }

    /// Runs a sound computer for `fuel` instructions at most, and tells
    /// whether it has halted. Nothing is done, and the answer is `None`,
    /// where the computer is not sound.
    pub fn run_sound(&mut self, fuel: usize) -> (halted: Option<bool>)
        ensures
            match halted {
                Some(halted) => old(self)@.sound() && exists|n: nat|
                    n <= fuel && final(self)@ == #[trigger] old(self)@.after(n) && halted
                        == final(self)@.halted() && (!halted ==> n == fuel),
                None => !old(self)@.sound() && *final(self) == *old(self),
            },
    {
        if !self.is_sound() {
            return None;
        }
        proof {
            lemma_sound_runs(self@, fuel as nat);
        }
        Some(self.run(fuel))
    }
}

} // verus!
