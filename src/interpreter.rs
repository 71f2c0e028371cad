use vstd::prelude::*;

use crate::desugared_brainfuck::{
    Coalesced, DesugaredBrainFuckInstruction, DesugaredBrainFuckProgram, lemma_shapes, shape, shapes,
};

verus! {

/// Number of cells on the tape.
pub const MEMORY_SIZE: usize = 30000;

/// The state of the tape machine.
pub struct Machine {
    pub tape: Seq<u8>,
    pub ptr: int,
    pub output: Seq<u8>,
    /// Every byte the input source will ever give, in order.
    pub input: Seq<u8>,
    /// How many of them were consumed.
    pub consumed: int,
}

/// The bytes of input lines as `Input` reads them: each line followed by a line feed.
pub open spec fn line_stream(lines: Seq<Seq<u8>>) -> Seq<u8>
    decreases lines.len(),
{
    if lines.len() == 0 {
        seq![]
    } else {
        line_stream(lines.drop_last()) + lines.last() + seq![10u8]
    }
}

/// The byte that the next `Input` reads: zero once the source is exhausted.
pub open spec fn next_input(m: Machine) -> u8 {
    if 0 <= m.consumed < m.input.len() {
        m.input[m.consumed]
    } else {
        0
    }
}

/// The current cell set to `v`.
pub open spec fn with_cell(m: Machine, v: u8) -> Machine {
    Machine { tape: m.tape.update(m.ptr, v), ..m }
}

/// The effect of an instruction other than a loop.
pub open spec fn step(i: Coalesced, m: Machine) -> Machine {
    let cell = m.tape[m.ptr] as int;
    let n = MEMORY_SIZE as int;
    match i {
        Coalesced::Add(k) => with_cell(m, ((cell + k) % 256) as u8),
        Coalesced::Sub(k) => with_cell(m, ((cell - k) % 256) as u8),
        Coalesced::Left(k) => Machine { ptr: (m.ptr - k) % n, ..m },
        Coalesced::Right(k) => Machine { ptr: (m.ptr + k) % n, ..m },
        Coalesced::Zero => with_cell(m, 0),
        Coalesced::SetTo(v) => with_cell(m, v),
        Coalesced::Input => {
            let consumed = if m.consumed < m.input.len() { m.consumed + 1 } else { m.consumed };
            Machine { consumed, ..with_cell(m, next_input(m)) }
        },
        Coalesced::Output => Machine { output: m.output.push(m.tape[m.ptr]), ..m },
        Coalesced::Loop(_) => m,
    }
}

/// Runs one instruction; a loop may start at most `fuel` passes over its body,
/// and each pass runs the body with one less. `None`: the fuel ran out.
pub open spec fn run_instruction(i: Coalesced, m: Machine, fuel: nat) -> Option<Machine>
    decreases fuel, 0nat,
{
    match i {
        Coalesced::Loop(body) => {
            if m.tape[m.ptr] == 0 {
                Some(m)
            } else if fuel == 0 {
                None
            } else {
                match run_sequence(body, m, (fuel - 1) as nat) {
                    Some(m2) => run_instruction(i, m2, (fuel - 1) as nat),
                    None => None,
                }
            }
        },
        _ => Some(step(i, m)),
    }
}

/// Runs instructions in order, each with the same fuel.
pub open spec fn run_sequence(p: Seq<Coalesced>, m: Machine, fuel: nat) -> Option<Machine>
    decreases fuel, p.len() + 1,
{
    if p.len() == 0 {
        Some(m)
    } else {
        match run_instruction(p[0], m, fuel) {
            Some(m2) => run_sequence(p.skip(1), m2, fuel),
            None => None,
        }
    }
}

/// A tape of zeroes, the pointer on cell 0, nothing written and nothing read.
pub open spec fn initial_machine(input: Seq<u8>) -> Machine {
    Machine { tape: Seq::new(MEMORY_SIZE as nat, |_k: int| 0u8), ptr: 0, output: seq![], input, consumed: 0 }
}

proof fn lemma_byte_add(c: int, k: int, v: int)
    requires
        0 <= c,
        0 <= k,
        v == (c + k % 256) % 256,
    ensures
        v == (c + k) % 256,
{
    assert((c + k % 256) % 256 == (c + k) % 256) by (nonlinear_arith)
        requires
            0 <= k,
    ;
}

proof fn lemma_byte_sub(c: int, k: int, v: int)
    requires
        0 <= c,
        0 <= k,
        v == (c + (256 - k % 256)) % 256,
    ensures
        v == (c - k) % 256,
{
    assert((c + (256 - k % 256)) % 256 == (c - k) % 256) by (nonlinear_arith)
        requires
            0 <= k,
    ;
}

proof fn lemma_wrap_left(ptr: int, k: int, r: int, p: int)
    requires
        0 <= ptr,
        0 <= k,
        r == k % (MEMORY_SIZE as int),
        p == (ptr + (MEMORY_SIZE - r)) % (MEMORY_SIZE as int),
    ensures
        p == (ptr - k) % (MEMORY_SIZE as int),
{
    assert((ptr + (MEMORY_SIZE - r)) % (MEMORY_SIZE as int) == (ptr - k) % (MEMORY_SIZE as int)) by (nonlinear_arith)
        requires
            0 <= k,
            r == k % (MEMORY_SIZE as int),
    ;
}

proof fn lemma_wrap_right(ptr: int, k: int, r: int, p: int)
    requires
        0 <= ptr,
        0 <= k,
        r == k % (MEMORY_SIZE as int),
        p == (ptr + r) % (MEMORY_SIZE as int),
    ensures
        p == (ptr + k) % (MEMORY_SIZE as int),
{
    assert((ptr + r) % (MEMORY_SIZE as int) == (ptr + k) % (MEMORY_SIZE as int)) by (nonlinear_arith)
        requires
            0 <= k,
            r == k % (MEMORY_SIZE as int),
    ;
}

/// Runs coalesced programs over a tape of `MEMORY_SIZE` byte cells.
pub struct BrainFuckInterpreter {
    memory: Vec<u8>,
    ptr: usize,
    output: Vec<u8>,
    input: Vec<u8>,
    consumed: usize,
}

impl View for BrainFuckInterpreter {
    type V = Machine;

    closed spec fn view(&self) -> Machine {
        Machine {
            tape: self.memory@,
            ptr: self.ptr as int,
            output: self.output@,
            input: self.input@,
            consumed: self.consumed as int,
        }
    }
}

impl BrainFuckInterpreter {
    /// The tape has its size, the pointer is on it, and the input position is within the input.
    pub open spec fn wf(&self) -> bool {
        &&& self@.tape.len() == MEMORY_SIZE
        &&& 0 <= self@.ptr < MEMORY_SIZE
        &&& 0 <= self@.consumed <= self@.input.len()
    }

    /// A machine whose `Input` reads the given lines, each followed by a line feed,
    /// and zero bytes after the last one.
    pub fn new(lines: Vec<Vec<u8>>) -> (r: Self)
        ensures
            r.wf(),
            r@ == initial_machine(line_stream(lines@.map_values(|l: Vec<u8>| l@))),
    {
        let ghost view_of = |l: Vec<u8>| l@;
        let mut input: Vec<u8> = Vec::new();
        let mut k: usize = 0;
        while k < lines.len()
            invariant
                k <= lines@.len(),
                view_of == (|l: Vec<u8>| l@),
                input@ == line_stream(lines@.take(k as int).map_values(view_of)),
            decreases lines.len() - k,
        {
            let line = &lines[k];
            let mut j: usize = 0;
            let ghost before = input@;
            while j < line.len()
                invariant
                    j <= line@.len(),
                    input@ == before + line@.take(j as int),
                decreases line.len() - j,
            {
                input.push(line[j]);
                j = j + 1;
                assert(input@ =~= before + line@.take(j as int));
            }
            input.push(10);
            proof {
                assert(line@.take(j as int) =~= line@);
                assert(lines@.take(k + 1).map_values(view_of).drop_last() =~= lines@.take(k as int).map_values(view_of));
            }
            k = k + 1;
        }
        assert(lines@.take(k as int) =~= lines@);
        let mut memory: Vec<u8> = Vec::new();
        let mut c: usize = 0;
        while c < MEMORY_SIZE
            invariant
                c <= MEMORY_SIZE,
                memory@ == Seq::new(c as nat, |_k: int| 0u8),
            decreases MEMORY_SIZE - c,
        {
            memory.push(0);
            c = c + 1;
            assert(memory@ =~= Seq::new(c as nat, |_k: int| 0u8));
        }
        let r = BrainFuckInterpreter { memory, ptr: 0, output: Vec::new(), input, consumed: 0 };
        assert(r@.output =~= seq![]);
        r
    }

    /// The bytes written so far.
    pub fn output(&self) -> (r: &[u8])
        ensures
            r@ == self@.output,
    {
        self.output.as_slice()
    }

    /// The index of the current cell.
    pub fn pointer(&self) -> (r: usize)
        ensures
            r == self@.ptr,
    {
        self.ptr
    }

    /// The value of cell `index`.
    pub fn cell(&self, index: usize) -> (r: u8)
        requires
            self.wf(),
            index < MEMORY_SIZE,
        ensures
            r == self@.tape[index as int],
    {
        self.memory[index]
    }

    fn set_current(&mut self, v: u8)
        requires
            old(self).wf(),
        ensures
            final(self).wf(),
            final(self)@ == with_cell(old(self)@, v),
    {
        let p = self.ptr;
        self.memory.set(p, v);
    }

    /// One instruction other than a loop.
    fn execute_step(&mut self, i: &DesugaredBrainFuckInstruction)
        requires
            old(self).wf(),
            !(i is Loop),
        ensures
            final(self).wf(),
            final(self)@ == step(shape(*i), old(self)@),
    {
        let cell = self.memory[self.ptr];
        match i {
            DesugaredBrainFuckInstruction::Add(k) => {
                let v = ((cell as usize + *k % 256) % 256) as u8;
                proof {
                    lemma_byte_add(cell as int, *k as int, (cell as usize + *k % 256) % 256);
                }
                self.set_current(v);
            },
            DesugaredBrainFuckInstruction::Sub(k) => {
                let v = ((cell as usize + (256 - *k % 256)) % 256) as u8;
                proof {
                    lemma_byte_sub(cell as int, *k as int, (cell as usize + (256 - *k % 256)) % 256);
                }
                self.set_current(v);
            },
            DesugaredBrainFuckInstruction::Left(k) => {
                let r = *k % MEMORY_SIZE;
                let p = (self.ptr + (MEMORY_SIZE - r)) % MEMORY_SIZE;
                proof {
                    lemma_wrap_left(self.ptr as int, *k as int, r as int, p as int);
                }
                self.ptr = p;
            },
            DesugaredBrainFuckInstruction::Right(k) => {
                let r = *k % MEMORY_SIZE;
                let p = (self.ptr + r) % MEMORY_SIZE;
                proof {
                    lemma_wrap_right(self.ptr as int, *k as int, r as int, p as int);
                }
                self.ptr = p;
            },
            DesugaredBrainFuckInstruction::Zero => {
                self.set_current(0);
            },
            DesugaredBrainFuckInstruction::SetTo(v) => {
                self.set_current(*v);
            },
            DesugaredBrainFuckInstruction::Input => {
                if self.consumed < self.input.len() {
                    let b = self.input[self.consumed];
                    self.set_current(b);
                    self.consumed = self.consumed + 1;
                } else {
                    self.set_current(0);
                }
            },
            DesugaredBrainFuckInstruction::Output => {
                self.output.push(cell);
            },
            DesugaredBrainFuckInstruction::Loop(_) => {},
        }
    }

    fn execute_instruction(&mut self, i: &DesugaredBrainFuckInstruction, fuel: u64) -> (done: bool)
        requires
            old(self).wf(),
        ensures
            final(self).wf(),
            done ==> run_instruction(shape(*i), old(self)@, fuel as nat) == Some(final(self)@),
            !done ==> run_instruction(shape(*i), old(self)@, fuel as nat) is None,
        decreases fuel, 0nat,
    {
        match i {
            DesugaredBrainFuckInstruction::Loop(body) => {
                let mut f: u64 = fuel;
                while self.memory[self.ptr] != 0
                    invariant
                        self.wf(),
                        f <= fuel,
                        *i == DesugaredBrainFuckInstruction::Loop(*body),
                        run_instruction(shape(*i), old(self)@, fuel as nat) == run_instruction(shape(*i), self@, f as nat),
                    decreases f,
                {
                    if f == 0 {
                        return false;
                    }
                    f = f - 1;
                    if !self.execute_sequence(body, f) {
                        return false;
                    }
                }
                true
            },
            _ => {
                self.execute_step(i);
                true
            },
        }
    }

    fn execute_sequence(&mut self, p: &Vec<DesugaredBrainFuckInstruction>, fuel: u64) -> (done: bool)
        requires
            old(self).wf(),
        ensures
            final(self).wf(),
            done ==> run_sequence(shapes(p@), old(self)@, fuel as nat) == Some(final(self)@),
            !done ==> run_sequence(shapes(p@), old(self)@, fuel as nat) is None,
        decreases fuel, 1nat,
    {
        let mut k: usize = 0;
        proof {
            lemma_shapes(p@);
            assert(shapes(p@).skip(0) =~= shapes(p@));
        }
        while k < p.len()
            invariant
                self.wf(),
                k <= p@.len(),
                run_sequence(shapes(p@), old(self)@, fuel as nat) == run_sequence(shapes(p@).skip(k as int), self@, fuel as nat),
            decreases p.len() - k,
        {
            proof {
                lemma_shapes(p@);
                assert(shapes(p@).skip(k as int).skip(1) =~= shapes(p@).skip(k + 1));
                assert(shapes(p@).skip(k as int)[0] == shape(p@[k as int]));
            }
            if !self.execute_instruction(&p[k], fuel) {
                return false;
            }
            k = k + 1;
        }
        true
    }

    /// Runs `program` from the current state. Each loop may make at most `fuel`
    /// passes, a loop nested in it `fuel - 1` per pass, and so on. Returns whether
    /// the program finished; the state is then the one the program leaves.
    pub fn execute(&mut self, program: DesugaredBrainFuckProgram, fuel: u64) -> (done: bool)
        requires
            old(self).wf(),
        ensures
            final(self).wf(),
            done ==> run_sequence(shapes(program@), old(self)@, fuel as nat) == Some(final(self)@),
            !done ==> run_sequence(shapes(program@), old(self)@, fuel as nat) is None,
    {
        let v = program.into_instructions();
        self.execute_sequence(&v, fuel)
    }
}

} // verus!
