//! The machine: a memory of one word per address, three registers, and the
//! instructions that work on them.

use crate::cipher::encrypt;
use crate::state::{Outcome, Run, State, Step};
use crate::word::{Word, MAX_INT};
use vstd::prelude::*;

verus! {

/// The three registers.
#[derive(Debug, Clone, Copy, PartialEq, Eq, Structural)]
pub struct Registers {
    /// The accumulator, which also carries input and output.
    pub a: Word,
    /// The program counter: the address of the next instruction.
    pub c: Word,
    /// The data pointer: the address that instructions on memory work on.
    pub d: Word,
}

/// What a run of the machine produced.
#[derive(Debug)]
pub struct Execution {
    /// How the run ended.
    pub outcome: Outcome,
    /// The number of cycles completed.
    pub cycles: u64,
    /// The number of input bytes taken.
    pub consumed: usize,
    /// The characters emitted, in order.
    pub output: Vec<char>,
}

/// The machine. It owns its memory and its registers.
#[derive(Debug)]
pub struct Interpreter {
    memory: Vec<Word>,
    reg: Registers,
}

impl View for Interpreter {
    type V = State;

    closed spec fn view(&self) -> State {
        State {
            mem: Seq::new(self.memory@.len(), |i: int| self.memory@[i]@),
            a: self.reg.a@,
            c: self.reg.c@,
            d: self.reg.d@,
        }
    }
}

impl Interpreter {
    /// The machine has a cell for every address, and all its cells and
    /// registers hold words.
    pub open spec fn wf(&self) -> bool {
        self@.wf()
    }

    /// A machine with all cells and registers zero.
    pub fn new() -> (r: Interpreter)
        ensures
            r.wf(),
            r@ == State::zeroed(),
    {
        let zero = Word::from_value(0);
        let r = Interpreter { memory: vec![zero; MAX_INT], reg: Registers { a: zero, c: zero, d: zero } };
        assert(r@.mem =~= State::zeroed().mem);
        r
    }

    /// The registers.
    pub fn registers(&self) -> (r: Registers)
        ensures
            r.a@ == self@.a,
            r.c@ == self@.c,
            r.d@ == self@.d,
    {
        self.reg
    }

    /// Reads the cell at `addr`.
    pub fn get(&self, addr: Word) -> (w: Word)
        requires
            self.wf(),
            addr.wf(),
        ensures
            w.wf(),
            w@ == self@.mem[addr@],
    {
        assert(self@.mem[addr@] == self.memory@[addr@]@);
        self.memory[addr.value()]
    }

    /// Hands out the cell at `addr` for writing. Once the borrow ends the
    /// machine holds what was written, and nothing else has changed.
    pub fn get_mut(&mut self, addr: Word) -> (cell: &mut Word)
        requires
            old(self).wf(),
            addr.wf(),
        ensures
            cell.wf(),
            cell@ == old(self)@.mem[addr@],
            final(self)@ =~= old(self)@.store(addr@, final(cell)@),
    {
        assert(self@.mem[addr@] == self.memory@[addr@]@);
        &mut self.memory[addr.value()]
    }

    /// The jump instruction.
    pub fn jmp(&mut self)
        requires
            old(self).wf(),
        ensures
            final(self).wf(),
            final(self)@ == old(self)@.jmp(),
    {
        let d_v = self.get(self.reg.d);
        self.reg.c = d_v;
    }

    /// The output instruction: gives the character to emit. Every 7-bit
    /// code is a character, so none is ever replaced.
    pub fn out(&self) -> (ch: char)
        requires
            self.wf(),
        ensures
            ch == self@.out_char(),
    {
        let code: u8 = (self.reg.a.value() % 128) as u8;
        code as char
    }

    /// The input instruction, given the byte that was read.
    pub fn input(&mut self, byte: u8)
        requires
            old(self).wf(),
        ensures
            final(self).wf(),
            final(self)@ == old(self)@.input(byte),
    {
        self.reg.a = Word::from_value(byte as usize);
    }

    /// The rotate instruction.
    pub fn rot(&mut self)
        requires
            old(self).wf(),
        ensures
            final(self).wf(),
            final(self)@ == old(self)@.rot(),
    {
        let d = self.reg.d;
        let w = self.get_mut(d);
        *w = w.rot();
        let r = *w;
        self.reg.a = r;
        assert(self@ =~= old(self)@.rot());
    }

    /// The instruction that loads the data pointer from the cell it points
    /// to.
    pub fn set_d(&mut self)
        requires
            old(self).wf(),
        ensures
            final(self).wf(),
            final(self)@ == old(self)@.set_d(),
    {
        self.reg.d = self.get(self.reg.d);
    }

    /// The combine instruction.
    pub fn crz(&mut self)
        requires
            old(self).wf(),
        ensures
            final(self).wf(),
            final(self)@ == old(self)@.crz(),
    {
        let a = self.reg.a;
        let d = self.reg.d;
        let ptr = self.get_mut(d);
        let res = ptr.crz(a);
        *ptr = res;
        self.reg.a = res;
        assert(self@ =~= old(self)@.crz());
    }

    /// Finds the opcode that the cell under the program counter selects.
    pub fn decode_instruction(&self) -> (decoded: usize)
        requires
            self.wf(),
        ensures
            decoded == self@.opcode(),
            decoded < 94,
    {
        let c = self.reg.c;
        let instruction = self.get(c);
        (instruction + c).value() % 94
    }

    /// Rewrites the cell under the program counter through the substitution
    /// table, then moves program counter and data pointer on by one.
    pub fn encrypt_and_advance_pc(&mut self)
        requires
            old(self).wf(),
        ensures
            final(self).wf(),
            final(self)@ == old(self)@.encrypt_and_advance(),
    {
        let c = self.reg.c;
        let instruction = self.get(c);
        *self.get_mut(c) = Word::from_value(encrypt(instruction.value() % 94));
        self.reg.c.inc();
        self.reg.d.inc();
        assert(self@ =~= old(self)@.encrypt_and_advance());
    }

    /// Runs one cycle. `byte` is the next byte of input, if there is one; it
    /// is taken only when the result is `Step::InputTaken`.
    pub fn step(&mut self, byte: Option<u8>) -> (r: Step)
        requires
            old(self).wf(),
        ensures
            final(self).wf(),
            (final(self)@, r) == old(self)@.step(byte),
    {
        let op = self.decode_instruction();
        if op == 81 {
            return Step::Halted;
        }
        let mut done = Step::Continue;
        match op {
            4 => self.jmp(),
            5 => {
                done = Step::Output(self.out());
            },
            23 => match byte {
                Some(b) => {
                    self.input(b);
                    done = Step::InputTaken;
                },
                None => {
                    return Step::InputNeeded;
                },
            },
            39 => self.rot(),
            40 => self.set_d(),
            62 => self.crz(),
            _ => {},
        }
        self.encrypt_and_advance_pc();
        done
    }

    /// Runs the machine on the bytes of `input`, for at most `max_cycles`
    /// cycles, and reports how the run ended, how many cycles and bytes it
    /// took, and what it emitted.
    pub fn execute(&mut self, input: &[u8], max_cycles: u64) -> (r: Execution)
        requires
            old(self).wf(),
        ensures
            final(self).wf(),
            final(self)@ == old(self)@.run(input@, max_cycles as nat).state,
            r.outcome == old(self)@.run(input@, max_cycles as nat).outcome,
            r.cycles == old(self)@.run(input@, max_cycles as nat).cycles,
            r.consumed == old(self)@.run(input@, max_cycles as nat).consumed,
            r.output@ == old(self)@.run(input@, max_cycles as nat).output,
    {
        let ghost whole = self@.run(input@, max_cycles as nat);
        let mut cycles: u64 = 0;
        let mut consumed: usize = 0;
        let mut output: Vec<char> = Vec::new();
        let mut outcome = Outcome::CycleLimit;
        proof {
            assert(input@.skip(0) =~= input@);
            assert(whole.after(0, 0, output@) =~= whole);
        }
        loop
            invariant_except_break
                whole == self@.run(
                    input@.skip(consumed as int),
                    (max_cycles - cycles) as nat,
                ).after(cycles as nat, consumed as nat, output@),
            invariant
                self.wf(),
                cycles <= max_cycles,
                consumed <= input.len(),
            ensures
                whole == Run::stopped(self@, outcome).after(
                    cycles as nat,
                    consumed as nat,
                    output@,
                ),
            decreases max_cycles - cycles,
        {
            let ghost rest = input@.skip(consumed as int);
            let ghost before = self@;
            let ghost emitted = output@;
            let byte = if consumed < input.len() {
                Some(input[consumed])
            } else {
                None
            };
            if cycles == max_cycles {
                let op = self.decode_instruction();
                outcome =
                if op == 81 {
                    Outcome::Halted
                } else if op == 23 && byte.is_none() {
                    Outcome::InputExhausted
                } else {
                    Outcome::CycleLimit
                };
                break ;
            }
            let step = self.step(byte);
            match step {
                Step::Halted => {
                    outcome = Outcome::Halted;
                    break ;
                },
                Step::InputNeeded => {
                    outcome = Outcome::InputExhausted;
                    break ;
                },
                Step::Output(ch) => {
                    output.push(ch);
                },
                Step::InputTaken => {
                    consumed = consumed + 1;
                },
                Step::Continue => {},
            }
            cycles = cycles + 1;
            proof {
                let taken: int = if step == Step::InputTaken {
                    1
                } else {
                    0
                };
                assert(rest.skip(taken) =~= input@.skip(consumed as int));
                let tail = self@.run(input@.skip(consumed as int), (max_cycles - cycles) as nat);
                assert(before.run(rest, (max_cycles - cycles + 1) as nat) == tail.after(
                    1,
                    taken as nat,
                    step.emitted(),
                ));
                assert(emitted + (step.emitted() + tail.output) =~= output@ + tail.output);
            }
        }
        proof {
            assert(output@ + Seq::<char>::empty() =~= output@);
        }
        Execution { outcome, cycles, consumed, output }
    }
}

} // verus!
